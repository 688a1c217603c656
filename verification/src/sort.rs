//! Sorting by a total preorder.
use vstd::prelude::*;
use crate::text::{
    lemma_seq_lt_asym, lemma_seq_lt_irreflexive, lemma_seq_lt_total, lemma_seq_lt_trans, seq_le, seq_lt,
    str_eq, str_lt, string_views,
};

verus! {

broadcast use vstd::seq_lib::group_to_multiset_ensures;

/// A total preorder on `T` with an executable comparison.
pub trait Order<T> {
    spec fn le(a: &T, b: &T) -> bool;

    proof fn lemma_le_total(a: &T, b: &T)
        ensures
            Self::le(a, b) || Self::le(b, a),
    ;

    proof fn lemma_le_trans(a: &T, b: &T, c: &T)
        requires
            Self::le(a, b),
            Self::le(b, c),
        ensures
            Self::le(a, c),
    ;

    fn le_exec(a: &T, b: &T) -> (r: bool)
        ensures
            r == Self::le(a, b),
    ;
}

/// Every element is at most every later one.
pub open spec fn sorted_by<T, O: Order<T>>(s: Seq<T>) -> bool {
    forall|i: int, j: int| #![trigger s[i], s[j]] 0 <= i < j < s.len() ==> O::le(&s[i], &s[j])
}

/// The views of a sequence.
pub open spec fn view_seq<T: View>(s: Seq<T>) -> Seq<T::V> {
    s.map_values(|x: T| x@)
}

/// `pos` places the elements of `v` in `r`: `r[m]` is `v[pos[m]]`, each position once.
pub open spec fn placed<T>(r: Seq<T>, v: Seq<T>, pos: Seq<int>) -> bool {
    &&& pos.len() == r.len()
    &&& r.len() == v.len()
    &&& forall|m: int| 0 <= m < r.len() ==> 0 <= #[trigger] pos[m] < v.len() && r[m] == v[pos[m]]
    &&& forall|a: int, b: int| 0 <= a < b < r.len() ==> pos[a] != pos[b]
}

/// `r` is `v` sorted by `le`, keeping the order of elements that `le` cannot tell apart.
pub open spec fn stable_sort_of<V>(r: Seq<V>, v: Seq<V>, le: spec_fn(V, V) -> bool) -> bool {
    exists|pos: Seq<int>|
        placed(r, v, pos) && forall|a: int, b: int|
            #![trigger r[a], r[b]]
            0 <= a < b < r.len() ==> le(r[a], r[b]) && (le(r[b], r[a]) ==> pos[a] < pos[b])
}

/// The elements in ascending order: a permutation of the input (also by views) that is
/// sorted, where elements that the order cannot tell apart keep their order.
pub fn sort_by_order<T: View, O: Order<T>>(v: Vec<T>) -> (r: Vec<T>)
    ensures
        r@.to_multiset() == v@.to_multiset(),
        view_seq(r@).to_multiset() == view_seq(v@).to_multiset(),
        r@.len() == v@.len(),
        sorted_by::<T, O>(r@),
        exists|pos: Seq<int>|
            placed(r@, v@, pos) && forall|a: int, b: int|
                #![trigger r@[a], r@[b]]
                0 <= a < b < r@.len() ==> (O::le(&r@[b], &r@[a]) ==> pos[a] < pos[b]),
{
    let ghost orig = v@;
    let mut rest = v;
    let mut r: Vec<T> = Vec::new();
    let mut k: usize = 0;
    let n = rest.len();
    let ghost mut pos: Seq<int> = seq![];
    assert(orig.take(0) =~= Seq::<T>::empty());
    assert(orig.skip(0) =~= orig);
    while rest.len() > 0
        invariant
            k <= n,
            n == orig.len(),
            rest@ == orig.skip(k as int),
            r@.to_multiset() == orig.take(k as int).to_multiset(),
            view_seq(r@).to_multiset() == view_seq(orig.take(k as int)).to_multiset(),
            r@.len() == k,
            sorted_by::<T, O>(r@),
            pos.len() == k,
            forall|m: int| 0 <= m < k ==> 0 <= #[trigger] pos[m] < k && r@[m] == orig[pos[m]],
            forall|a: int, b: int| 0 <= a < b < k ==> pos[a] != pos[b],
            forall|a: int, b: int|
                #![trigger r@[a], r@[b]]
                0 <= a < b < k ==> (O::le(&r@[b], &r@[a]) ==> pos[a] < pos[b]),
        decreases rest.len(),
    {
        let x = rest.remove(0);
        assert(orig.skip(k as int).drop_first() =~= orig.skip(k + 1));
        assert(orig.take(k + 1) =~= orig.take(k as int).push(x));
        assert(view_seq(orig.take(k + 1)) =~= view_seq(orig.take(k as int)).push(x@));
        assert(x == orig[k as int]);
        let mut j: usize = r.len();
        while j > 0 && !O::le_exec(&r[j - 1], &x)
            invariant
                j <= r.len(),
                sorted_by::<T, O>(r@),
                forall|m: int| j <= m < r.len() ==> !O::le(&(#[trigger] r@[m]), &x),
            decreases j,
        {
            j -= 1;
        }
        proof {
            assert forall|m: int| 0 <= m < j implies O::le(&(#[trigger] r@[m]), &x) by {
                if j > 0 {
                    if m < j - 1 {
                        O::lemma_le_trans(&r@[m], &r@[j - 1], &x);
                    }
                }
            }
            assert forall|m: int| j <= m < r.len() implies O::le(&x, &(#[trigger] r@[m])) by {
                O::lemma_le_total(&x, &r@[m]);
            }
        }
        let ghost before = r@;
        let ghost pos0 = pos;
        r.insert(j, x);
        proof {
            pos = pos0.insert(j as int, k as int);
            assert(r@ == before.insert(j as int, x));
            assert(view_seq(r@) =~= view_seq(before).insert(j as int, x@));
            assert forall|a: int, b: int| #![trigger r@[a], r@[b]] 0 <= a < b < r@.len() implies O::le(
                &r@[a],
                &r@[b],
            ) by {
                if a < j && b == j {
                } else if a == j && b > j {
                    assert(r@[b] == before[b - 1]);
                } else if a < j && b > j {
                    assert(r@[b] == before[b - 1]);
                    O::lemma_le_trans(&r@[a], &x, &r@[b]);
                } else if b < j {
                } else {
                    assert(r@[a] == before[a - 1]);
                    assert(r@[b] == before[b - 1]);
                }
            }
            assert forall|m: int| 0 <= m < k + 1 implies 0 <= #[trigger] pos[m] < k + 1 && r@[m] == orig[pos[m]] by {
                if m < j {
                    assert(pos[m] == pos0[m]);
                } else if m > j {
                    assert(pos[m] == pos0[m - 1]);
                    assert(r@[m] == before[m - 1]);
                }
            }
            assert forall|a: int, b: int| 0 <= a < b < k + 1 implies pos[a] != pos[b] by {
                if a < j && b > j {
                    assert(pos[b] == pos0[b - 1]);
                } else if a > j {
                    assert(pos[a] == pos0[a - 1]);
                    assert(pos[b] == pos0[b - 1]);
                } else if b < j {
                } else if a == j {
                    assert(pos[b] == pos0[b - 1]);
                } else {
                    assert(pos[a] == pos0[a]);
                }
            }
            assert forall|a: int, b: int| #![trigger r@[a], r@[b]] 0 <= a < b < k + 1 implies (O::le(
                &r@[b],
                &r@[a],
            ) ==> pos[a] < pos[b]) by {
                if a < j && b > j {
                    assert(r@[b] == before[b - 1]);
                    assert(pos[b] == pos0[b - 1]);
                    assert(before[b - 1] == r@[b]);
                    if O::le(&r@[b], &r@[a]) {
                        assert(O::le(&before[a], &before[b - 1]));
                    }
                } else if a > j {
                    assert(r@[a] == before[a - 1]);
                    assert(r@[b] == before[b - 1]);
                    assert(pos[a] == pos0[a - 1]);
                    assert(pos[b] == pos0[b - 1]);
                } else if b < j {
                } else if a == j {
                    assert(r@[b] == before[b - 1]);
                } else {
                    assert(pos[a] == pos0[a]);
                }
            }
        }
        k += 1;
    }
    assert(orig.take(n as int) =~= orig);
    assert(placed(r@, orig, pos));
    assert(placed(r@, orig, pos) && forall|a: int, b: int|
        #![trigger r@[a], r@[b]]
        0 <= a < b < r@.len() ==> (O::le(&r@[b], &r@[a]) ==> pos[a] < pos[b]));
    r
}

} // verus!

verus! {

/// A stable sort by an order on elements is a stable sort of their views by an order on
/// views that agrees with it.
pub proof fn lemma_stable_views<T: View, O: Order<T>>(r: Seq<T>, v: Seq<T>, le: spec_fn(T::V, T::V) -> bool)
    requires
        forall|a: T, b: T| #[trigger] O::le(&a, &b) == le(a@, b@),
        sorted_by::<T, O>(r),
        exists|pos: Seq<int>|
            placed(r, v, pos) && forall|a: int, b: int|
                #![trigger r[a], r[b]]
                0 <= a < b < r.len() ==> (O::le(&r[b], &r[a]) ==> pos[a] < pos[b]),
    ensures
        stable_sort_of(view_seq(r), view_seq(v), le),
{
    let pos = choose|pos: Seq<int>|
        placed(r, v, pos) && forall|a: int, b: int|
            #![trigger r[a], r[b]]
            0 <= a < b < r.len() ==> (O::le(&r[b], &r[a]) ==> pos[a] < pos[b]);
    let rv = view_seq(r);
    let vv = view_seq(v);
    assert forall|m: int| 0 <= m < rv.len() implies 0 <= #[trigger] pos[m] < vv.len() && rv[m] == vv[pos[m]] by {
        assert(r[m] == v[pos[m]]);
    }
    assert forall|a: int, b: int| #![trigger rv[a], rv[b]] 0 <= a < b < rv.len() implies le(rv[a], rv[b]) && (le(
        rv[b],
        rv[a],
    ) ==> pos[a] < pos[b]) by {
        assert(O::le(&r[a], &r[b]));
        assert(O::le(&r[b], &r[a]) == le(r[b]@, r[a]@));
    }
    assert(placed(rv, vv, pos));
}

/// Texts in lexicographic order by code point.
pub struct TextOrder;

impl Order<String> for TextOrder {
    open spec fn le(a: &String, b: &String) -> bool {
        seq_le(a@, b@)
    }

    proof fn lemma_le_total(a: &String, b: &String) {
        lemma_seq_lt_total(a@, b@);
    }

    proof fn lemma_le_trans(a: &String, b: &String, c: &String) {
        if seq_lt(a@, b@) && seq_lt(b@, c@) {
            lemma_seq_lt_trans(a@, b@, c@);
        }
    }

    fn le_exec(a: &String, b: &String) -> (r: bool) {
        proof {
            lemma_seq_lt_total(a@, b@);
            lemma_seq_lt_irreflexive(a@);
            if seq_lt(b@, a@) {
                lemma_seq_lt_asym(b@, a@);
            }
        }
        !str_lt(b.as_str(), a.as_str())
    }
}

pub proof fn lemma_push_contains<A>(s: Seq<A>, v: A, x: A)
    ensures
        s.push(v).contains(x) <==> (s.contains(x) || x == v),
{
    if s.contains(x) {
        let i = choose|i: int| 0 <= i < s.len() && s[i] == x;
        assert(s.push(v)[i] == x);
    }
    if x == v {
        assert(s.push(v)[s.len() as int] == x);
    }
    if s.push(v).contains(x) {
        let i = choose|i: int| 0 <= i < s.len() + 1 && s.push(v)[i] == x;
        if i < s.len() {
            assert(s[i] == x);
        }
    }
}

/// Texts in strictly increasing order.
pub open spec fn strictly_sorted(s: Seq<Seq<char>>) -> bool {
    forall|i: int, j: int| #![trigger s[i], s[j]] 0 <= i < j < s.len() ==> seq_lt(s[i], s[j])
}

/// The texts of `s`, each once, in increasing order.
pub open spec fn sorted_texts(s: Set<Seq<char>>) -> Seq<Seq<char>> {
    choose|q: Seq<Seq<char>>| strictly_sorted(q) && forall|x: Seq<char>| q.contains(x) <==> s.contains(x)
}

/// Two strictly sorted sequences with the same members are equal.
pub proof fn lemma_strictly_sorted_unique(a: Seq<Seq<char>>, b: Seq<Seq<char>>)
    requires
        strictly_sorted(a),
        strictly_sorted(b),
        forall|x: Seq<char>| a.contains(x) <==> b.contains(x),
    ensures
        a == b,
    decreases a.len(),
{
    if a.len() == 0 {
        if b.len() > 0 {
            assert(b.contains(b[0]));
        }
        assert(a =~= b);
    } else {
        assert(a.contains(a[0]));
        assert(b.contains(b[0]));
        let j = choose|j: int| 0 <= j < a.len() && a[j] == b[0];
        let k = choose|k: int| 0 <= k < b.len() && b[k] == a[0];
        if a[0] != b[0] {
            assert(seq_lt(a[0], a[j]));
            assert(seq_lt(b[0], b[k]));
            lemma_seq_lt_asym(a[0], b[0]);
        }
        let at = a.drop_first();
        let bt = b.drop_first();
        assert forall|x: Seq<char>| at.contains(x) <==> bt.contains(x) by {
            if at.contains(x) {
                let i = choose|i: int| 0 <= i < at.len() && at[i] == x;
                assert(a[i + 1] == x);
                assert(seq_lt(a[0], a[i + 1]));
                lemma_seq_lt_irreflexive(x);
                assert(b.contains(x));
                let m = choose|m: int| 0 <= m < b.len() && b[m] == x;
                assert(m != 0);
                assert(bt[m - 1] == x);
            }
            if bt.contains(x) {
                let i = choose|i: int| 0 <= i < bt.len() && bt[i] == x;
                assert(b[i + 1] == x);
                assert(seq_lt(b[0], b[i + 1]));
                lemma_seq_lt_irreflexive(x);
                assert(a.contains(x));
                let m = choose|m: int| 0 <= m < a.len() && a[m] == x;
                assert(m != 0);
                assert(at[m - 1] == x);
            }
        }
        assert forall|p: int, q: int| #![trigger at[p], at[q]] 0 <= p < q < at.len() implies seq_lt(at[p], at[q]) by {
            assert(a[p + 1] == at[p] && a[q + 1] == at[q]);
        }
        assert forall|p: int, q: int| #![trigger bt[p], bt[q]] 0 <= p < q < bt.len() implies seq_lt(bt[p], bt[q]) by {
            assert(b[p + 1] == bt[p] && b[q + 1] == bt[q]);
        }
        lemma_strictly_sorted_unique(at, bt);
        assert(a =~= seq![a[0]] + at);
        assert(b =~= seq![b[0]] + bt);
    }
}

/// A strictly sorted sequence is `sorted_texts` of its members.
pub proof fn lemma_sorted_texts(q: Seq<Seq<char>>, s: Set<Seq<char>>)
    requires
        strictly_sorted(q),
        forall|x: Seq<char>| q.contains(x) <==> s.contains(x),
    ensures
        sorted_texts(s) == q,
{
    let c = sorted_texts(s);
    assert(strictly_sorted(c) && forall|x: Seq<char>| c.contains(x) <==> s.contains(x));
    lemma_strictly_sorted_unique(c, q);
}

/// The distinct texts of `v` in increasing order (`sort` then `dedup`).
pub fn sort_dedup_texts(v: Vec<String>) -> (r: Vec<String>)
    ensures
        strictly_sorted(string_views(r@)),
        forall|x: Seq<char>| string_views(r@).contains(x) <==> string_views(v@).contains(x),
{
    let ghost orig = v@;
    let sorted = sort_by_order::<String, TextOrder>(v);
    proof {
        assert forall|x: Seq<char>| string_views(sorted@).contains(x) <==> string_views(orig).contains(x) by {
            if string_views(sorted@).contains(x) {
                let i = choose|i: int| 0 <= i < sorted@.len() && string_views(sorted@)[i] == x;
                assert(sorted@.to_multiset().count(sorted@[i]) > 0);
                assert(orig.contains(sorted@[i]));
                let j = choose|j: int| 0 <= j < orig.len() && orig[j] == sorted@[i];
                assert(string_views(orig)[j] == x);
            }
            if string_views(orig).contains(x) {
                let i = choose|i: int| 0 <= i < orig.len() && string_views(orig)[i] == x;
                assert(orig.to_multiset().count(orig[i]) > 0);
                assert(sorted@.contains(orig[i]));
                let j = choose|j: int| 0 <= j < sorted@.len() && sorted@[j] == orig[i];
                assert(string_views(sorted@)[j] == x);
            }
        }
    }
    let mut r: Vec<String> = Vec::new();
    let mut k: usize = 0;
    while k < sorted.len()
        invariant
            k <= sorted.len(),
            sorted_by::<String, TextOrder>(sorted@),
            strictly_sorted(string_views(r@)),
            forall|x: Seq<char>| string_views(r@).contains(x) <==> string_views(sorted@.take(k as int)).contains(x),
            k > 0 ==> r.len() > 0 && r@.last()@ == sorted@[k - 1]@,
            k == 0 ==> r.len() == 0,
        decreases sorted.len() - k,
    {
        let cur = &sorted[k];
        let ghost before = r@;
        let ghost tk = string_views(sorted@.take(k as int));
        let ghost tk1 = string_views(sorted@.take(k + 1));
        assert(tk1 =~= tk.push(cur@));
        if r.len() == 0 || !str_eq(r[r.len() - 1].as_str(), cur.as_str()) {
            proof {
                if k > 0 {
                    assert(TextOrder::le(&sorted@[k - 1], &sorted@[k as int]));
                }
            }
            r.push(cur.clone());
            proof {
                assert(string_views(r@) =~= string_views(before).push(cur@));
                assert forall|a: int, b: int| #![trigger string_views(r@)[a], string_views(r@)[b]]
                    0 <= a < b < string_views(r@).len() implies seq_lt(
                    string_views(r@)[a],
                    string_views(r@)[b],
                ) by {
                    if b == r@.len() - 1 && a < b - 1 {
                        assert(seq_lt(string_views(before)[a], string_views(before)[b - 1]));
                        lemma_seq_lt_trans(string_views(before)[a], string_views(before)[b - 1], cur@);
                    }
                }
            }
        } else {
            assert(string_views(before).contains(cur@)) by {
                assert(string_views(before)[before.len() - 1] == cur@);
            }
        }
        proof {
            assert forall|x: Seq<char>| string_views(r@).contains(x) <==> tk1.contains(x) by {
                lemma_push_contains(tk, cur@, x);
                if string_views(r@) != string_views(before) {
                    lemma_push_contains(string_views(before), cur@, x);
                }
            }
        }
        k += 1;
    }
    assert(sorted@.take(sorted.len() as int) =~= sorted@);
    r
}

} // verus!

verus! {

/// Sequences with the same multiset of views contain the same views.
pub proof fn lemma_views_contains_of_multiset<T: View>(a: Seq<T>, b: Seq<T>, x: T::V)
    requires
        view_seq(a).to_multiset() == view_seq(b).to_multiset(),
    ensures
        view_seq(a).contains(x) <==> view_seq(b).contains(x),
{
    broadcast use vstd::seq_lib::group_to_multiset_ensures;

    assert(view_seq(a).contains(x) <==> view_seq(a).to_multiset().count(x) > 0);
    assert(view_seq(b).contains(x) <==> view_seq(b).to_multiset().count(x) > 0);
}

/// A permutation of views without repetition has no repetition.
pub proof fn lemma_no_duplicates_of_multiset<T: View>(a: Seq<T>, b: Seq<T>)
    requires
        view_seq(a).to_multiset() == view_seq(b).to_multiset(),
        view_seq(b).no_duplicates(),
    ensures
        view_seq(a).no_duplicates(),
{
    broadcast use vstd::seq_lib::group_to_multiset_ensures;

    view_seq(b).lemma_multiset_has_no_duplicates();
    assert forall|x: T::V| view_seq(a).to_multiset().contains(x) implies view_seq(
        a,
    ).to_multiset().count(x) == 1 by {
    }
    view_seq(a).lemma_multiset_has_no_duplicates_conv();
}


/// `q` with `x` put in its place, unless it is there already.
pub open spec fn insert_text(q: Seq<Seq<char>>, x: Seq<char>) -> Seq<Seq<char>>
    decreases q.len(),
{
    if q.len() == 0 {
        seq![x]
    } else if x == q[0] {
        q
    } else if seq_lt(x, q[0]) {
        seq![x] + q
    } else {
        seq![q[0]] + insert_text(q.drop_first(), x)
    }
}

proof fn lemma_insert_text(q: Seq<Seq<char>>, x: Seq<char>)
    requires
        strictly_sorted(q),
    ensures
        strictly_sorted(insert_text(q, x)),
        forall|y: Seq<char>|
            #![trigger insert_text(q, x).contains(y)]
            #![trigger q.contains(y)]
            insert_text(q, x).contains(y) <==> (q.contains(y) || y == x),
        insert_text(q, x).len() > 0 ==> (insert_text(q, x)[0] == x || (q.len() > 0 && insert_text(q, x)[0] == q[0])),
    decreases q.len(),
{
    let r = insert_text(q, x);
    if q.len() == 0 {
        assert(r =~= seq![x]);
        assert forall|y: Seq<char>| r.contains(y) <==> (q.contains(y) || y == x) by {
            if r.contains(y) {
                assert(r[0] == y);
            }
            if y == x {
                assert(r[0] == y);
            }
        }
    } else if x == q[0] {
        assert forall|y: Seq<char>| r.contains(y) <==> (q.contains(y) || y == x) by {
            if y == x {
                assert(q[0] == y);
            }
        }
    } else if seq_lt(x, q[0]) {
        assert forall|i: int, j: int| #![trigger r[i], r[j]] 0 <= i < j < r.len() implies seq_lt(r[i], r[j]) by {
            if i == 0 {
                if j > 1 {
                    assert(seq_lt(q[0], q[j - 1]));
                    lemma_seq_lt_trans(x, q[0], q[j - 1]);
                }
            } else {
                assert(r[i] == q[i - 1] && r[j] == q[j - 1]);
            }
        }
        assert forall|y: Seq<char>| r.contains(y) <==> (q.contains(y) || y == x) by {
            if r.contains(y) {
                let i = choose|i: int| 0 <= i < r.len() && r[i] == y;
                if i > 0 {
                    assert(q[i - 1] == y);
                }
            }
            if q.contains(y) {
                let i = choose|i: int| 0 <= i < q.len() && q[i] == y;
                assert(r[i + 1] == y);
            }
            if y == x {
                assert(r[0] == y);
            }
        }
    } else {
        let t = q.drop_first();
        assert forall|i: int, j: int| #![trigger t[i], t[j]] 0 <= i < j < t.len() implies seq_lt(t[i], t[j]) by {
            assert(q[i + 1] == t[i] && q[j + 1] == t[j]);
        }
        lemma_insert_text(t, x);
        let u = insert_text(t, x);
        assert(r == seq![q[0]] + u);
        lemma_seq_lt_total(x, q[0]);
        assert forall|y: Seq<char>| u.contains(y) ==> seq_lt(q[0], y) by {
            if u.contains(y) {
                if y != x {
                    assert(t.contains(y));
                    let i = choose|i: int| 0 <= i < t.len() && t[i] == y;
                    assert(seq_lt(q[0], q[i + 1]));
                }
            }
        }
        assert forall|i: int, j: int| #![trigger r[i], r[j]] 0 <= i < j < r.len() implies seq_lt(r[i], r[j]) by {
            if i == 0 {
                assert(r[j] == u[j - 1]);
                assert(u.contains(u[j - 1]));
            } else {
                assert(r[i] == u[i - 1] && r[j] == u[j - 1]);
            }
        }
        assert forall|y: Seq<char>| r.contains(y) <==> (q.contains(y) || y == x) by {
            if r.contains(y) {
                let i = choose|i: int| 0 <= i < r.len() && r[i] == y;
                if i > 0 {
                    assert(u[i - 1] == y);
                    assert(u.contains(y));
                    if y != x {
                        assert(t.contains(y));
                        let k = choose|k: int| 0 <= k < t.len() && t[k] == y;
                        assert(q[k + 1] == y);
                    }
                } else {
                    assert(q[0] == y);
                }
            }
            if q.contains(y) {
                let i = choose|i: int| 0 <= i < q.len() && q[i] == y;
                if i == 0 {
                    assert(r[0] == y);
                } else {
                    assert(t[i - 1] == y);
                    assert(t.contains(y));
                    assert(u.contains(y));
                    let k = choose|k: int| 0 <= k < u.len() && u[k] == y;
                    assert(r[k + 1] == y);
                }
            }
            if y == x {
                assert(u.contains(y));
                let k = choose|k: int| 0 <= k < u.len() && u[k] == y;
                assert(r[k + 1] == y);
            }
        }
    }
}

/// The members of `s`, each once, in increasing order.
pub open spec fn sort_texts_spec(s: Seq<Seq<char>>) -> Seq<Seq<char>>
    decreases s.len(),
{
    if s.len() == 0 {
        seq![]
    } else {
        insert_text(sort_texts_spec(s.drop_last()), s.last())
    }
}

/// `sorted_texts` of the members of a sequence is strictly sorted and holds exactly those
/// members.
pub proof fn lemma_sorted_texts_of(s: Seq<Seq<char>>)
    ensures
        strictly_sorted(sorted_texts(s.to_set())),
        forall|x: Seq<char>| sorted_texts(s.to_set()).contains(x) <==> s.contains(x),
{
    let q = sort_texts_spec(s);
    lemma_sorted_texts_of_spec(s);
    assert forall|x: Seq<char>| q.contains(x) <==> s.to_set().contains(x) by {}
    lemma_sorted_texts(q, s.to_set());
}

proof fn lemma_sorted_texts_of_spec(s: Seq<Seq<char>>)
    ensures
        strictly_sorted(sort_texts_spec(s)),
        forall|x: Seq<char>| sort_texts_spec(s).contains(x) <==> s.contains(x),
    decreases s.len(),
{
    if s.len() == 0 {
        assert(sort_texts_spec(s) =~= Seq::<Seq<char>>::empty());
    } else {
        lemma_sorted_texts_of_spec(s.drop_last());
        lemma_insert_text(sort_texts_spec(s.drop_last()), s.last());
        assert forall|x: Seq<char>| sort_texts_spec(s).contains(x) <==> s.contains(x) by {
            lemma_push_contains(s.drop_last(), s.last(), x);
            assert(s.drop_last().push(s.last()) =~= s);
        }
    }
}

} // verus!
