//! An inverted index from terms to the positions where they occur.
use vstd::prelude::*;
use crate::sort::{sort_by_order, view_seq, Order};
use crate::text::{push_char, str_eq, string_views};
use crate::tokenizer::{tokenize_spec, SimpleTokenizer, Tokenizer};
use crate::types::{
    doc_views, field_eq, field_rank, field_rank_exec, Document, DocumentId, DocumentView, Field,
};

verus! {

broadcast use {vstd::seq_lib::group_to_multiset_ensures, vstd::multiset::group_multiset_axioms};

/// The positions of a term in one field of one document.
#[derive(Clone, Debug, PartialEq)]
pub struct Posting {
    pub doc_id: DocumentId,
    pub field: Field,
    pub positions: Vec<usize>,
}

pub ghost struct PostingView {
    pub doc_id: usize,
    pub field: Field,
    pub positions: Seq<usize>,
}

impl View for Posting {
    type V = PostingView;

    open spec fn view(&self) -> PostingView {
        PostingView { doc_id: self.doc_id.0, field: self.field, positions: self.positions@ }
    }
}

impl Posting {
    /// How often the term occurs there.
    pub fn frequency(&self) -> (r: usize)
        ensures
            r == self@.positions.len(),
    {
        self.positions.len()
    }
}

/// One occurrence of a term: in which document and field, at which position of the
/// document's token stream.
pub ghost struct Occ {
    pub term: Seq<char>,
    pub doc: usize,
    pub field: Field,
    pub pos: int,
}

/// Texts joined by single spaces.
pub open spec fn join_spaces(v: Seq<Seq<char>>) -> Seq<char>
    decreases v.len(),
{
    if v.len() == 0 {
        seq![]
    } else if v.len() == 1 {
        v[0]
    } else {
        join_spaces(v.drop_last()) + seq![' '] + v.last()
    }
}

/// The text of each indexed field of a document, in the order they are indexed: title (empty
/// without one), headings and tags joined by spaces, path, body.
pub open spec fn field_text(d: DocumentView, f: Field) -> Seq<char> {
    match f {
        Field::Title => match d.title {
            Some(t) => t,
            None => seq![],
        },
        Field::Heading => join_spaces(d.headings.map_values(|h: crate::types::HeadingView| h.text)),
        Field::Tag => join_spaces(d.tags),
        Field::Path => d.path,
        Field::Body => d.body,
    }
}

/// The occurrences of `tokens`, numbered from `start`.
pub open spec fn occs_from(tokens: Seq<Seq<char>>, doc: usize, field: Field, start: int) -> Seq<Occ> {
    Seq::new(tokens.len(), |i: int| Occ { term: tokens[i], doc, field, pos: start + i })
}

pub open spec fn field_tokens(cs: bool, min: usize, d: DocumentView, f: Field) -> Seq<Seq<char>> {
    tokenize_spec(cs, min, field_text(d, f))
}

/// The fields in the order they are indexed.
pub open spec fn field_order() -> Seq<Field> {
    seq![Field::Title, Field::Heading, Field::Tag, Field::Path, Field::Body]
}

/// The occurrences of the first `n` indexed fields of a document, numbered consecutively.
pub open spec fn doc_occs_upto(cs: bool, min: usize, d: DocumentView, n: int) -> Seq<Occ>
    decreases n,
{
    if n <= 0 {
        seq![]
    } else {
        let before = doc_occs_upto(cs, min, d, n - 1);
        before + occs_from(field_tokens(cs, min, d, field_order()[n - 1]), d.id, field_order()[n - 1], before.len() as int)
    }
}

/// The token stream of a document with positions.
pub open spec fn doc_occs(cs: bool, min: usize, d: DocumentView) -> Seq<Occ> {
    doc_occs_upto(cs, min, d, 5)
}

/// The occurrences of all documents.
pub open spec fn all_occs(cs: bool, min: usize, docs: Seq<DocumentView>) -> Seq<Occ>
    decreases docs.len(),
{
    if docs.len() == 0 {
        seq![]
    } else {
        all_occs(cs, min, docs.drop_last()) + doc_occs(cs, min, docs.last())
    }
}

/// The positions of `term` in field `f` of documents numbered `doc`, in order.
pub open spec fn positions_of(occs: Seq<Occ>, term: Seq<char>, doc: usize, f: Field) -> Seq<int> {
    occs.filter(|o: Occ| o.term == term && o.doc == doc && o.field == f).map_values(|o: Occ| o.pos)
}

pub open spec fn int_positions(p: Seq<usize>) -> Seq<int> {
    p.map_values(|x: usize| x as int)
}

/// Postings in order of document number, then field.
pub open spec fn posting_lt(a: PostingView, b: PostingView) -> bool {
    a.doc_id < b.doc_id || (a.doc_id == b.doc_id && field_rank(a.field) < field_rank(b.field))
}

/// The term table of an index over occurrences `occs`: one entry per distinct term, each
/// listing one posting per document number and field where the term occurs, in order,
/// with exactly the positions where it occurs there.
pub open spec fn terms_of(occs: Seq<Occ>, terms: Seq<(Seq<char>, Seq<PostingView>)>) -> bool {
    &&& forall|i: int, j: int| 0 <= i < j < terms.len() ==> terms[i].0 != terms[j].0
    &&& forall|i: int|
        0 <= i < terms.len() ==> (#[trigger] terms[i]).1.len() > 0 && (forall|a: int, b: int|
            0 <= a < b < terms[i].1.len() ==> posting_lt(terms[i].1[a], terms[i].1[b])) && (forall|
            j: int,
        |
            0 <= j < terms[i].1.len() ==> int_positions((#[trigger] terms[i].1[j]).positions)
                == positions_of(occs, terms[i].0, terms[i].1[j].doc_id, terms[i].1[j].field)
                && terms[i].1[j].positions.len() > 0)
    &&& forall|i: int, d: usize, f: Field|
        #![trigger positions_of(occs, terms[i].0, d, f)]
        0 <= i < terms.len() && positions_of(occs, terms[i].0, d, f).len() > 0
            ==> exists|j: int|
            0 <= j < terms[i].1.len() && (#[trigger] terms[i].1[j]).doc_id == d && terms[i].1[j].field
                == f
    &&& forall|k: int|
        0 <= k < occs.len() ==> exists|i: int| 0 <= i < terms.len() && (#[trigger] terms[i]).0 == (#[trigger] occs[k]).term
}

} // verus!

verus! {

pub proof fn lemma_positions_of_push(occs: Seq<Occ>, o: Occ, t: Seq<char>, d: usize, f: Field)
    ensures
        positions_of(occs.push(o), t, d, f) == if o.term == t && o.doc == d && o.field == f {
            positions_of(occs, t, d, f).push(o.pos)
        } else {
            positions_of(occs, t, d, f)
        },
{
    let p = |x: Occ| x.term == t && x.doc == d && x.field == f;
    occs.lemma_filter_push(o, p);
    let m = |x: Occ| x.pos;
    if p(o) {
        assert(occs.filter(p).push(o).map_values(m) =~= occs.filter(p).map_values(m).push(o.pos));
    }
}

pub proof fn lemma_positions_nonempty(occs: Seq<Occ>, t: Seq<char>, d: usize, f: Field)
    ensures
        positions_of(occs, t, d, f).len() > 0 <==> exists|k: int|
            0 <= k < occs.len() && (#[trigger] occs[k]).term == t && occs[k].doc == d && occs[k].field
                == f,
{
    let p = |x: Occ| x.term == t && x.doc == d && x.field == f;
    if positions_of(occs, t, d, f).len() > 0 {
        let fx = occs.filter(p);
        occs.lemma_filter_pred(p, 0);
        assert(fx.contains(fx[0]));
        occs.lemma_filter_contains_rev(p, fx[0]);
        let k = choose|k: int| 0 <= k < occs.len() && occs[k] == fx[0];
        assert(p(occs[k]));
    }
    if exists|k: int|
        0 <= k < occs.len() && (#[trigger] occs[k]).term == t && occs[k].doc == d && occs[k].field == f {
        let k = choose|k: int|
            0 <= k < occs.len() && (#[trigger] occs[k]).term == t && occs[k].doc == d && occs[k].field
                == f;
        occs.lemma_filter_contains(p, k);
        assert(occs.filter(p).len() > 0);
    }
}

pub open spec fn table_views(t: Seq<(String, Vec<Posting>)>) -> Seq<(Seq<char>, Seq<PostingView>)> {
    t.map_values(|e: (String, Vec<Posting>)| (e.0@, view_seq(e.1@)))
}

/// A term table being built over the occurrences `occs`, postings not yet in order.
pub open spec fn table_of(occs: Seq<Occ>, terms: Seq<(Seq<char>, Seq<PostingView>)>) -> bool {
    &&& forall|i: int, j: int| 0 <= i < j < terms.len() ==> terms[i].0 != terms[j].0
    &&& forall|i: int|
        0 <= i < terms.len() ==> (#[trigger] terms[i]).1.len() > 0 && (forall|a: int, b: int|
            0 <= a < b < terms[i].1.len() ==> !(terms[i].1[a].doc_id == terms[i].1[b].doc_id
                && terms[i].1[a].field == terms[i].1[b].field)) && (forall|j: int|
            0 <= j < terms[i].1.len() ==> int_positions((#[trigger] terms[i].1[j]).positions)
                == positions_of(occs, terms[i].0, terms[i].1[j].doc_id, terms[i].1[j].field)
                && terms[i].1[j].positions.len() > 0)
    &&& forall|i: int, d: usize, f: Field|
        #![trigger positions_of(occs, terms[i].0, d, f)]
        0 <= i < terms.len() && positions_of(occs, terms[i].0, d, f).len() > 0 ==> exists|j: int|
            0 <= j < terms[i].1.len() && (#[trigger] terms[i].1[j]).doc_id == d && terms[i].1[j].field
                == f
    &&& forall|k: int|
        0 <= k < occs.len() ==> exists|i: int|
            0 <= i < terms.len() && (#[trigger] terms[i]).0 == (#[trigger] occs[k]).term
}

fn find_term(terms: &Vec<(String, Vec<Posting>)>, t: &String) -> (pos: Option<usize>)
    ensures
        match pos {
            Some(g) => g < terms.len() && terms@[g as int].0@ == t@,
            None => forall|i: int| 0 <= i < terms.len() ==> (#[trigger] terms@[i]).0@ != t@,
        },
{
    let mut g: usize = 0;
    while g < terms.len()
        invariant
            g <= terms.len(),
            forall|i: int| 0 <= i < g ==> (#[trigger] terms@[i]).0@ != t@,
        decreases terms.len() - g,
    {
        if str_eq(terms[g].0.as_str(), t.as_str()) {
            return Some(g);
        }
        g += 1;
    }
    None
}

fn find_posting(ps: &Vec<Posting>, doc: DocumentId, f: Field) -> (pos: Option<usize>)
    ensures
        match pos {
            Some(g) => g < ps.len() && ps@[g as int].doc_id == doc && ps@[g as int].field == f,
            None => forall|i: int|
                0 <= i < ps.len() ==> !((#[trigger] ps@[i]).doc_id == doc && ps@[i].field == f),
        },
{
    let mut g: usize = 0;
    while g < ps.len()
        invariant
            g <= ps.len(),
            forall|i: int| 0 <= i < g ==> !((#[trigger] ps@[i]).doc_id == doc && ps@[i].field == f),
        decreases ps.len() - g,
    {
        if ps[g].doc_id.0 == doc.0 && field_eq(ps[g].field, f) {
            return Some(g);
        }
        g += 1;
    }
    None
}

} // verus!

verus! {

proof fn lemma_table_add_existing(
    occs: Seq<Occ>,
    terms: Seq<(Seq<char>, Seq<PostingView>)>,
    o: Occ,
    g: int,
    p: int,
)
    requires
        table_of(occs, terms),
        0 <= g < terms.len(),
        terms[g].0 == o.term,
        0 <= p < terms[g].1.len(),
        terms[g].1[p].doc_id == o.doc,
        terms[g].1[p].field == o.field,
        0 <= o.pos <= usize::MAX,
    ensures
        table_of(
            occs.push(o),
            terms.update(
                g,
                (
                    terms[g].0,
                    terms[g].1.update(
                        p,
                        PostingView {
                            positions: terms[g].1[p].positions.push(o.pos as usize),
                            ..terms[g].1[p]
                        },
                    ),
                ),
            ),
        ),
{
    let occs2 = occs.push(o);
    let np = PostingView { positions: terms[g].1[p].positions.push(o.pos as usize), ..terms[g].1[p] };
    let t2 = terms.update(g, (terms[g].0, terms[g].1.update(p, np)));
    assert forall|i: int| 0 <= i < t2.len() implies (#[trigger] t2[i]).1.len() > 0 && (forall|
        a: int,
        b: int,
    |
        0 <= a < b < t2[i].1.len() ==> !(t2[i].1[a].doc_id == t2[i].1[b].doc_id && t2[i].1[a].field
            == t2[i].1[b].field)) && (forall|j: int|
        0 <= j < t2[i].1.len() ==> int_positions((#[trigger] t2[i].1[j]).positions) == positions_of(
            occs2,
            t2[i].0,
            t2[i].1[j].doc_id,
            t2[i].1[j].field,
        ) && t2[i].1[j].positions.len() > 0) by {
        assert forall|j: int| 0 <= j < t2[i].1.len() implies int_positions(
            (#[trigger] t2[i].1[j]).positions,
        ) == positions_of(occs2, t2[i].0, t2[i].1[j].doc_id, t2[i].1[j].field)
            && t2[i].1[j].positions.len() > 0 by {
            lemma_positions_of_push(occs, o, t2[i].0, t2[i].1[j].doc_id, t2[i].1[j].field);
            if i == g && j == p {
                assert(int_positions(np.positions) =~= int_positions(terms[g].1[p].positions).push(
                    o.pos,
                ));
            } else if i == g {
                assert(t2[i].1[j] == terms[g].1[j]);
            } else {
                assert(t2[i] == terms[i]);
            }
        }
    }
    assert forall|i: int, d: usize, f: Field|
        #![trigger positions_of(occs2, t2[i].0, d, f)]
        0 <= i < t2.len() && positions_of(occs2, t2[i].0, d, f).len() > 0 implies exists|j: int|
        0 <= j < t2[i].1.len() && (#[trigger] t2[i].1[j]).doc_id == d && t2[i].1[j].field == f by {
        lemma_positions_of_push(occs, o, t2[i].0, d, f);
        if o.term == t2[i].0 && o.doc == d && o.field == f {
            assert(i == g) by {
                if i != g {
                    assert(terms[i].0 != terms[g].0);
                }
            }
            assert(t2[i].1[p].doc_id == d);
        } else {
            assert(positions_of(occs, terms[i].0, d, f).len() > 0);
            let j = choose|j: int|
                0 <= j < terms[i].1.len() && (#[trigger] terms[i].1[j]).doc_id == d && terms[i].1[j].field
                    == f;
            assert(t2[i].1[j].doc_id == d);
        }
    }
    assert forall|k: int| 0 <= k < occs2.len() implies exists|i: int|
        0 <= i < t2.len() && (#[trigger] t2[i]).0 == (#[trigger] occs2[k]).term by {
        if k < occs.len() {
            assert(occs2[k] == occs[k]);
            let i = choose|i: int| 0 <= i < terms.len() && (#[trigger] terms[i]).0 == occs[k].term;
            assert(t2[i].0 == terms[i].0);
        } else {
            assert(t2[g].0 == o.term);
        }
    }
}

proof fn lemma_table_add_posting(
    occs: Seq<Occ>,
    terms: Seq<(Seq<char>, Seq<PostingView>)>,
    o: Occ,
    g: int,
)
    requires
        table_of(occs, terms),
        0 <= g < terms.len(),
        terms[g].0 == o.term,
        forall|i: int|
            0 <= i < terms[g].1.len() ==> !((#[trigger] terms[g].1[i]).doc_id == o.doc
                && terms[g].1[i].field == o.field),
        0 <= o.pos <= usize::MAX,
    ensures
        table_of(
            occs.push(o),
            terms.update(
                g,
                (
                    terms[g].0,
                    terms[g].1.push(
                        PostingView { doc_id: o.doc, field: o.field, positions: seq![o.pos as usize] },
                    ),
                ),
            ),
        ),
{
    let occs2 = occs.push(o);
    let np = PostingView { doc_id: o.doc, field: o.field, positions: seq![o.pos as usize] };
    let t2 = terms.update(g, (terms[g].0, terms[g].1.push(np)));
    assert(positions_of(occs, o.term, o.doc, o.field).len() == 0) by {
        if positions_of(occs, o.term, o.doc, o.field).len() > 0 {
            assert(positions_of(occs, terms[g].0, o.doc, o.field).len() > 0);
        }
    }
    assert forall|i: int| 0 <= i < t2.len() implies (#[trigger] t2[i]).1.len() > 0 && (forall|
        a: int,
        b: int,
    |
        0 <= a < b < t2[i].1.len() ==> !(t2[i].1[a].doc_id == t2[i].1[b].doc_id && t2[i].1[a].field
            == t2[i].1[b].field)) && (forall|j: int|
        0 <= j < t2[i].1.len() ==> int_positions((#[trigger] t2[i].1[j]).positions) == positions_of(
            occs2,
            t2[i].0,
            t2[i].1[j].doc_id,
            t2[i].1[j].field,
        ) && t2[i].1[j].positions.len() > 0) by {
        assert forall|j: int| 0 <= j < t2[i].1.len() implies int_positions(
            (#[trigger] t2[i].1[j]).positions,
        ) == positions_of(occs2, t2[i].0, t2[i].1[j].doc_id, t2[i].1[j].field)
            && t2[i].1[j].positions.len() > 0 by {
            lemma_positions_of_push(occs, o, t2[i].0, t2[i].1[j].doc_id, t2[i].1[j].field);
            if i == g && j == terms[g].1.len() {
                assert(positions_of(occs, o.term, o.doc, o.field) =~= Seq::<int>::empty());
                assert(int_positions(np.positions) =~= seq![o.pos]);
            } else if i == g {
                assert(t2[i].1[j] == terms[g].1[j]);
            } else {
                assert(t2[i] == terms[i]);
            }
        }
        if i == g {
            assert forall|a: int, b: int| 0 <= a < b < t2[i].1.len() implies !(t2[i].1[a].doc_id
                == t2[i].1[b].doc_id && t2[i].1[a].field == t2[i].1[b].field) by {
                if b == terms[g].1.len() {
                    assert(t2[i].1[a] == terms[g].1[a]);
                }
            }
        }
    }
    assert forall|i: int, d: usize, f: Field|
        #![trigger positions_of(occs2, t2[i].0, d, f)]
        0 <= i < t2.len() && positions_of(occs2, t2[i].0, d, f).len() > 0 implies exists|j: int|
        0 <= j < t2[i].1.len() && (#[trigger] t2[i].1[j]).doc_id == d && t2[i].1[j].field == f by {
        lemma_positions_of_push(occs, o, t2[i].0, d, f);
        if o.term == t2[i].0 && o.doc == d && o.field == f {
            assert(i == g) by {
                if i != g {
                    assert(terms[i].0 != terms[g].0);
                }
            }
            assert(t2[i].1[terms[g].1.len() as int].doc_id == d);
        } else {
            assert(positions_of(occs, terms[i].0, d, f).len() > 0);
            let j = choose|j: int|
                0 <= j < terms[i].1.len() && (#[trigger] terms[i].1[j]).doc_id == d && terms[i].1[j].field
                    == f;
            assert(t2[i].1[j].doc_id == d);
        }
    }
    assert forall|k: int| 0 <= k < occs2.len() implies exists|i: int|
        0 <= i < t2.len() && (#[trigger] t2[i]).0 == (#[trigger] occs2[k]).term by {
        if k < occs.len() {
            assert(occs2[k] == occs[k]);
            let i = choose|i: int| 0 <= i < terms.len() && (#[trigger] terms[i]).0 == occs[k].term;
            assert(t2[i].0 == terms[i].0);
        } else {
            assert(t2[g].0 == o.term);
        }
    }
}

proof fn lemma_table_add_term(occs: Seq<Occ>, terms: Seq<(Seq<char>, Seq<PostingView>)>, o: Occ)
    requires
        table_of(occs, terms),
        forall|i: int| 0 <= i < terms.len() ==> (#[trigger] terms[i]).0 != o.term,
        0 <= o.pos <= usize::MAX,
    ensures
        table_of(
            occs.push(o),
            terms.push(
                (o.term, seq![PostingView { doc_id: o.doc, field: o.field, positions: seq![o.pos as usize] }]),
            ),
        ),
{
    let occs2 = occs.push(o);
    let np = PostingView { doc_id: o.doc, field: o.field, positions: seq![o.pos as usize] };
    let t2 = terms.push((o.term, seq![np]));
    let n = terms.len() as int;
    assert forall|k: int| 0 <= k < occs.len() implies (#[trigger] occs[k]).term != o.term by {
        let i = choose|i: int| 0 <= i < terms.len() && (#[trigger] terms[i]).0 == occs[k].term;
    }
    assert forall|d: usize, f: Field| positions_of(occs, o.term, d, f).len() == 0 by {
        lemma_positions_nonempty(occs, o.term, d, f);
    }
    assert forall|i: int| 0 <= i < t2.len() implies (#[trigger] t2[i]).1.len() > 0 && (forall|
        a: int,
        b: int,
    |
        0 <= a < b < t2[i].1.len() ==> !(t2[i].1[a].doc_id == t2[i].1[b].doc_id && t2[i].1[a].field
            == t2[i].1[b].field)) && (forall|j: int|
        0 <= j < t2[i].1.len() ==> int_positions((#[trigger] t2[i].1[j]).positions) == positions_of(
            occs2,
            t2[i].0,
            t2[i].1[j].doc_id,
            t2[i].1[j].field,
        ) && t2[i].1[j].positions.len() > 0) by {
        assert forall|j: int| 0 <= j < t2[i].1.len() implies int_positions(
            (#[trigger] t2[i].1[j]).positions,
        ) == positions_of(occs2, t2[i].0, t2[i].1[j].doc_id, t2[i].1[j].field)
            && t2[i].1[j].positions.len() > 0 by {
            lemma_positions_of_push(occs, o, t2[i].0, t2[i].1[j].doc_id, t2[i].1[j].field);
            if i == n {
                assert(positions_of(occs, o.term, o.doc, o.field).len() == 0);
                assert(positions_of(occs, o.term, o.doc, o.field) =~= Seq::<int>::empty());
                assert(int_positions(np.positions) =~= seq![o.pos]);
            } else {
                assert(t2[i] == terms[i]);
            }
        }
    }
    assert forall|i: int, d: usize, f: Field|
        #![trigger positions_of(occs2, t2[i].0, d, f)]
        0 <= i < t2.len() && positions_of(occs2, t2[i].0, d, f).len() > 0 implies exists|j: int|
        0 <= j < t2[i].1.len() && (#[trigger] t2[i].1[j]).doc_id == d && t2[i].1[j].field == f by {
        lemma_positions_of_push(occs, o, t2[i].0, d, f);
        if i == n {
            assert(positions_of(occs, o.term, d, f).len() == 0);
            assert(o.doc == d && o.field == f);
            assert(t2[i].1[0].doc_id == d);
        } else {
            assert(t2[i] == terms[i]);
            assert(positions_of(occs, terms[i].0, d, f).len() > 0);
            let j = choose|j: int|
                0 <= j < terms[i].1.len() && (#[trigger] terms[i].1[j]).doc_id == d && terms[i].1[j].field
                    == f;
            assert(t2[i].1[j].doc_id == d);
        }
    }
    assert forall|k: int| 0 <= k < occs2.len() implies exists|i: int|
        0 <= i < t2.len() && (#[trigger] t2[i]).0 == (#[trigger] occs2[k]).term by {
        if k < occs.len() {
            assert(occs2[k] == occs[k]);
            let i = choose|i: int| 0 <= i < terms.len() && (#[trigger] terms[i]).0 == occs[k].term;
            assert(t2[i].0 == terms[i].0);
        } else {
            assert(t2[n].0 == o.term);
        }
    }
    assert forall|i: int, j: int| 0 <= i < j < t2.len() implies t2[i].0 != t2[j].0 by {
        if j == n {
            assert(t2[i] == terms[i]);
        }
    }
}

} // verus!

verus! {

fn clone_text(s: &String) -> (r: String)
    ensures
        r@ == s@,
{
    s.clone()
}

fn single_posting(doc: DocumentId, f: Field, pos: usize) -> (r: Posting)
    ensures
        r@ == (PostingView { doc_id: doc.0, field: f, positions: seq![pos] }),
{
    let mut positions: Vec<usize> = Vec::new();
    positions.push(pos);
    assert(positions@ =~= seq![pos]);
    Posting { doc_id: doc, field: f, positions }
}

/// Records one occurrence of `t` in the term table.
fn add_occurrence(
    terms: &mut Vec<(String, Vec<Posting>)>,
    t: &String,
    doc: DocumentId,
    f: Field,
    pos: usize,
    Ghost(occs): Ghost<Seq<Occ>>,
)
    requires
        table_of(occs, table_views(old(terms)@)),
    ensures
        table_of(
            occs.push(Occ { term: t@, doc: doc.0, field: f, pos: pos as int }),
            table_views(final(terms)@),
        ),
{
    let ghost o = Occ { term: t@, doc: doc.0, field: f, pos: pos as int };
    let ghost tv = table_views(terms@);
    match find_term(terms, t) {
        Some(g) => {
            let mut entry: (String, Vec<Posting>) = (String::new(), Vec::new());
            terms.set_and_swap(g, &mut entry);
            let ghost ps0 = view_seq(entry.1@);
            assert(tv[g as int] == (entry.0@, ps0));
            match find_posting(&entry.1, doc, f) {
                Some(p) => {
                    let mut posting = Posting { doc_id: doc, field: f, positions: Vec::new() };
                    entry.1.set_and_swap(p, &mut posting);
                    let ghost pv0 = posting@;
                    assert(ps0[p as int] == pv0);
                    posting.positions.push(pos);
                    entry.1.set_and_swap(p, &mut posting);
                    let ghost np = PostingView { positions: pv0.positions.push(pos), ..pv0 };
                    assert(view_seq(entry.1@) =~= ps0.update(p as int, np));
                    let ghost k0 = entry.0@;
                    let ghost e1 = view_seq(entry.1@);
                    terms.set_and_swap(g, &mut entry);
                    proof {
                        lemma_table_add_existing(occs, tv, o, g as int, p as int);
                        assert(table_views(terms@) =~= tv.update(g as int, (tv[g as int].0, ps0.update(p as int, np))));
                    }
                },
                None => {
                    let ghost np = PostingView { doc_id: doc.0, field: f, positions: seq![pos] };
                    let np_exec = single_posting(doc, f, pos);
                    entry.1.push(np_exec);
                    assert(view_seq(entry.1@) =~= ps0.push(np));
                    terms.set_and_swap(g, &mut entry);
                    proof {
                        lemma_table_add_posting(occs, tv, o, g as int);
                        assert(table_views(terms@) =~= tv.update(g as int, (tv[g as int].0, ps0.push(np))));
                    }
                },
            }
        },
        None => {
            let mut ps: Vec<Posting> = Vec::new();
            ps.push(single_posting(doc, f, pos));
            let ghost np = PostingView { doc_id: doc.0, field: f, positions: seq![pos] };
            assert(view_seq(ps@) =~= seq![np]);
            terms.push((clone_text(t), ps));
            proof {
                lemma_table_add_term(occs, tv, o);
                let np = PostingView { doc_id: doc.0, field: f, positions: seq![pos] };
                assert(table_views(terms@) =~= tv.push((t@, seq![np])));
            }
        },
    }
}

/// Records the occurrences of the tokens of one field, numbered from `start`.
fn add_field(
    terms: &mut Vec<(String, Vec<Posting>)>,
    tokens: &Vec<String>,
    doc: DocumentId,
    f: Field,
    start: usize,
    Ghost(occs): Ghost<Seq<Occ>>,
) -> (next: usize)
    requires
        table_of(occs, table_views(old(terms)@)),
        start + tokens.len() <= usize::MAX,
    ensures
        next == start + tokens.len(),
        table_of(
            occs + occs_from(string_views(tokens@), doc.0, f, start as int),
            table_views(final(terms)@),
        ),
{
    let ghost tv = string_views(tokens@);
    let mut j: usize = 0;
    assert(occs + occs_from(tv.take(0), doc.0, f, start as int) =~= occs);
    while j < tokens.len()
        invariant
            j <= tokens.len(),
            tv == string_views(tokens@),
            start + tokens.len() <= usize::MAX,
            table_of(occs + occs_from(tv.take(j as int), doc.0, f, start as int), table_views(terms@)),
        decreases tokens.len() - j,
    {
        let ghost cur = occs + occs_from(tv.take(j as int), doc.0, f, start as int);
        add_occurrence(terms, &tokens[j], doc, f, start + j, Ghost(cur));
        assert(occs + occs_from(tv.take(j + 1), doc.0, f, start as int) =~= cur.push(
            Occ { term: tokens@[j as int]@, doc: doc.0, field: f, pos: (start + j) as int },
        ));
        j += 1;
    }
    assert(tv.take(tokens.len() as int) =~= tv);
    start + tokens.len()
}

} // verus!

verus! {

/// Texts joined by single spaces.
fn join_with_spaces(v: &Vec<String>) -> (r: String)
    ensures
        r@ == join_spaces(string_views(v@)),
{
    let ghost sv = string_views(v@);
    let mut r = String::new();
    let mut i: usize = 0;
    assert(sv.take(0) =~= Seq::<Seq<char>>::empty());
    while i < v.len()
        invariant
            i <= v.len(),
            sv == string_views(v@),
            r@ == join_spaces(sv.take(i as int)),
        decreases v.len() - i,
    {
        if i > 0 {
            push_char(&mut r, ' ');
        }
        r.append(v[i].as_str());
        assert(sv.take(i + 1).drop_last() =~= sv.take(i as int));
        if i == 0 {
            assert(join_spaces(sv.take(1)) == sv.take(1)[0]);
            assert(r@ =~= join_spaces(sv.take(1)));
        }
        i += 1;
    }
    assert(sv.take(v.len() as int) =~= sv);
    r
}

/// The text of one indexed field of a document.
pub(crate) fn field_text_exec(d: &Document, f: Field) -> (r: String)
    ensures
        r@ == field_text(d@, f),
{
    match f {
        Field::Title => match &d.title {
            Some(t) => clone_text(t),
            None => String::new(),
        },
        Field::Heading => {
            let mut hs: Vec<String> = Vec::new();
            let mut i: usize = 0;
            while i < d.headings.len()
                invariant
                    i <= d.headings.len(),
                    string_views(hs@) == d@.headings.map_values(|h: crate::types::HeadingView| h.text).take(
                        i as int,
                    ),
                decreases d.headings.len() - i,
            {
                let ghost h0 = string_views(hs@);
                hs.push(clone_text(&d.headings[i].text));
                assert(string_views(hs@) =~= h0.push(d.headings@[i as int].text@));
                assert(d@.headings.map_values(|h: crate::types::HeadingView| h.text).take(i + 1)
                    =~= d@.headings.map_values(|h: crate::types::HeadingView| h.text).take(i as int).push(
                    d.headings@[i as int].text@,
                ));
                i += 1;
            }
            assert(d@.headings.map_values(|h: crate::types::HeadingView| h.text).take(
                d.headings.len() as int,
            ) =~= d@.headings.map_values(|h: crate::types::HeadingView| h.text));
            join_with_spaces(&hs)
        },
        Field::Tag => {
            assert(string_views(d.tags@) =~= d@.tags);
            join_with_spaces(&d.tags)
        },
        Field::Path => clone_text(&d.path),
        Field::Body => clone_text(&d.body),
    }
}

proof fn lemma_doc_occs_upto_grows(cs: bool, min: usize, d: DocumentView, n: int, m: int)
    requires
        0 <= n <= m <= 5,
    ensures
        doc_occs_upto(cs, min, d, n).len() <= doc_occs_upto(cs, min, d, m).len(),
    decreases m - n,
{
    if n < m {
        lemma_doc_occs_upto_grows(cs, min, d, n, m - 1);
    }
}

/// Whether the token stream of a document can be counted in a `usize`.
fn stream_fits(d: &Document, tk: &SimpleTokenizer) -> (r: bool)
    ensures
        r == (stream_len(tk.is_case_sensitive(), tk.min_chars(), d@) <= usize::MAX),
{
    let ghost cs = tk.is_case_sensitive();
    let ghost min = tk.min_chars();
    let fields = [Field::Title, Field::Heading, Field::Tag, Field::Path, Field::Body];
    assert(fields@ == field_order());
    let mut count: usize = 0;
    let mut k: usize = 0;
    while k < 5
        invariant
            k <= 5,
            fields@ == field_order(),
            cs == tk.is_case_sensitive(),
            min == tk.min_chars(),
            count == doc_occs_upto(cs, min, d@, k as int).len(),
        decreases 5 - k,
    {
        let f = fields[k];
        let text = field_text_exec(d, f);
        let tokens = tk.tokenize(text.as_str());
        proof {
            assert(string_views(tokens@) =~= tokens@.map_values(|t: String| t@));
            assert(doc_occs_upto(cs, min, d@, k + 1).len() == count + tokens.len());
        }
        match count.checked_add(tokens.len()) {
            Some(c) => {
                count = c;
            },
            None => {
                proof {
                    lemma_doc_occs_upto_grows(cs, min, d@, k + 1, 5);
                }
                return false;
            },
        }
        k += 1;
    }
    true
}

/// Records the occurrences of one document.
fn add_document(
    terms: &mut Vec<(String, Vec<Posting>)>,
    tk: &SimpleTokenizer,
    d: &Document,
    Ghost(occs): Ghost<Seq<Occ>>,
) -> (len: usize)
    requires
        table_of(occs, table_views(old(terms)@)),
        doc_occs(tk.is_case_sensitive(), tk.min_chars(), d@).len() <= usize::MAX,
    ensures
        len == doc_occs(tk.is_case_sensitive(), tk.min_chars(), d@).len(),
        table_of(occs + doc_occs(tk.is_case_sensitive(), tk.min_chars(), d@), table_views(final(terms)@)),
{
    let ghost cs = tk.is_case_sensitive();
    let ghost min = tk.min_chars();
    let fields = [Field::Title, Field::Heading, Field::Tag, Field::Path, Field::Body];
    assert(fields@ == field_order());
    let mut position: usize = 0;
    let mut k: usize = 0;
    assert(occs + doc_occs_upto(cs, min, d@, 0) =~= occs);
    while k < 5
        invariant
            k <= 5,
            fields@ == field_order(),
            cs == tk.is_case_sensitive(),
            min == tk.min_chars(),
            doc_occs(cs, min, d@).len() <= usize::MAX,
            position == doc_occs_upto(cs, min, d@, k as int).len(),
            table_of(occs + doc_occs_upto(cs, min, d@, k as int), table_views(terms@)),
        decreases 5 - k,
    {
        let f = fields[k];
        let text = field_text_exec(d, f);
        let tokens = tk.tokenize(text.as_str());
        proof {
            lemma_doc_occs_upto_grows(cs, min, d@, k + 1, 5);
            assert(string_views(tokens@) =~= tokens@.map_values(|t: String| t@));
            assert(doc_occs_upto(cs, min, d@, k + 1) == doc_occs_upto(cs, min, d@, k as int) + occs_from(
                string_views(tokens@),
                d@.id,
                f,
                position as int,
            ));
        }
        position = add_field(terms, &tokens, d.id, f, position, Ghost(occs + doc_occs_upto(cs, min, d@, k as int)));
        assert(occs + doc_occs_upto(cs, min, d@, k + 1) =~= occs + doc_occs_upto(cs, min, d@, k as int)
            + occs_from(string_views(tokens@), d@.id, f, doc_occs_upto(cs, min, d@, k as int).len() as int));
        k += 1;
    }
    position
}

} // verus!

verus! {

/// Postings by document number, then field.
pub struct PostingOrder;

pub open spec fn posting_le(a: PostingView, b: PostingView) -> bool {
    a.doc_id < b.doc_id || (a.doc_id == b.doc_id && field_rank(a.field) <= field_rank(b.field))
}

impl Order<Posting> for PostingOrder {
    open spec fn le(a: &Posting, b: &Posting) -> bool {
        posting_le(a@, b@)
    }

    proof fn lemma_le_total(a: &Posting, b: &Posting) {
    }

    proof fn lemma_le_trans(a: &Posting, b: &Posting, c: &Posting) {
    }

    fn le_exec(a: &Posting, b: &Posting) -> (r: bool) {
        a.doc_id.0 < b.doc_id.0 || (a.doc_id.0 == b.doc_id.0 && field_rank_exec(a.field)
            <= field_rank_exec(b.field))
    }
}

proof fn lemma_field_rank_injective(a: Field, b: Field)
    ensures
        field_rank(a) == field_rank(b) ==> a == b,
{
}

proof fn lemma_sorted_table(
    occs: Seq<Occ>,
    t: Seq<(Seq<char>, Seq<PostingView>)>,
    s: Seq<(Seq<char>, Seq<PostingView>)>,
)
    requires
        table_of(occs, t),
        s.len() == t.len(),
        forall|i: int|
            0 <= i < s.len() ==> (#[trigger] s[i]).0 == t[i].0 && s[i].1.to_multiset()
                == t[i].1.to_multiset() && (forall|a: int, b: int|
                0 <= a < b < s[i].1.len() ==> posting_le(s[i].1[a], s[i].1[b])),
    ensures
        terms_of(occs, s),
{
    broadcast use vstd::seq_lib::group_to_multiset_ensures;

    assert forall|i: int, j: int| 0 <= i < j < s.len() implies s[i].0 != s[j].0 by {
        assert(s[i].0 == t[i].0);
        assert(s[j].0 == t[j].0);
    }
    assert forall|i: int| 0 <= i < s.len() implies (#[trigger] s[i]).1.len() > 0 && (forall|a: int, b: int|
        0 <= a < b < s[i].1.len() ==> posting_lt(s[i].1[a], s[i].1[b])) && (forall|j: int|
        0 <= j < s[i].1.len() ==> int_positions((#[trigger] s[i].1[j]).positions) == positions_of(
            occs,
            s[i].0,
            s[i].1[j].doc_id,
            s[i].1[j].field,
        ) && s[i].1[j].positions.len() > 0) by {
        let ti = t[i];
        assert(s[i].0 == ti.0);
        assert(s[i].1.len() == s[i].1.to_multiset().len());
        assert(ti.1.len() == ti.1.to_multiset().len());
        assert forall|j: int| 0 <= j < s[i].1.len() implies int_positions((#[trigger] s[i].1[j]).positions)
            == positions_of(occs, s[i].0, s[i].1[j].doc_id, s[i].1[j].field) && s[i].1[j].positions.len()
            > 0 by {
            assert(s[i].1.to_multiset().count(s[i].1[j]) > 0);
            assert(ti.1.contains(s[i].1[j]));
            let k = choose|k: int| 0 <= k < ti.1.len() && ti.1[k] == s[i].1[j];
            assert(ti.1[k] == s[i].1[j]);
        }
        assert forall|a: int, b: int| 0 <= a < b < s[i].1.len() implies posting_lt(s[i].1[a], s[i].1[b]) by {
            assert(posting_le(s[i].1[a], s[i].1[b]));
            if s[i].1[a].doc_id == s[i].1[b].doc_id && field_rank(s[i].1[a].field) == field_rank(
                s[i].1[b].field,
            ) {
                lemma_field_rank_injective(s[i].1[a].field, s[i].1[b].field);
                assert(s[i].1.to_multiset().count(s[i].1[a]) > 0);
                assert(s[i].1.to_multiset().count(s[i].1[b]) > 0);
                assert(ti.1.contains(s[i].1[a]));
                assert(ti.1.contains(s[i].1[b]));
                let x = choose|x: int| 0 <= x < ti.1.len() && ti.1[x] == s[i].1[a];
                let y = choose|y: int| 0 <= y < ti.1.len() && ti.1[y] == s[i].1[b];
                if x == y {
                    assert(s[i].1[a] == s[i].1[b]);
                    assert(ti.1.no_duplicates()) by {
                        assert forall|u: int, v: int| 0 <= u < ti.1.len() && 0 <= v < ti.1.len() && u
                            != v implies ti.1[u] != ti.1[v] by {
                            if u < v {
                                assert(!(ti.1[u].doc_id == ti.1[v].doc_id && ti.1[u].field == ti.1[v].field));
                            } else {
                                assert(!(ti.1[v].doc_id == ti.1[u].doc_id && ti.1[v].field == ti.1[u].field));
                            }
                        }
                    }
                    ti.1.lemma_multiset_has_no_duplicates();
                    assert(ti.1.to_multiset().count(s[i].1[a]) == 1);
                    s[i].1.lemma_multiset_has_no_duplicates_conv();
                } else if x < y {
                    assert(!(ti.1[x].doc_id == ti.1[y].doc_id && ti.1[x].field == ti.1[y].field));
                } else {
                    assert(!(ti.1[y].doc_id == ti.1[x].doc_id && ti.1[y].field == ti.1[x].field));
                }
            }
        }
    }
    assert forall|i: int, d: usize, f: Field|
        #![trigger positions_of(occs, s[i].0, d, f)]
        0 <= i < s.len() && positions_of(occs, s[i].0, d, f).len() > 0 implies exists|j: int|
        0 <= j < s[i].1.len() && (#[trigger] s[i].1[j]).doc_id == d && s[i].1[j].field == f by {
        assert(s[i].0 == t[i].0);
        assert(positions_of(occs, t[i].0, d, f).len() > 0);
        let k = choose|k: int| 0 <= k < t[i].1.len() && (#[trigger] t[i].1[k]).doc_id == d && t[i].1[k].field == f;
        assert(t[i].1.to_multiset().count(t[i].1[k]) > 0);
        assert(s[i].1.contains(t[i].1[k]));
        let j = choose|j: int| 0 <= j < s[i].1.len() && s[i].1[j] == t[i].1[k];
        assert(s[i].1[j].doc_id == d);
    }
    assert forall|k: int| 0 <= k < occs.len() implies exists|i: int|
        0 <= i < s.len() && (#[trigger] s[i]).0 == (#[trigger] occs[k]).term by {
        let i = choose|i: int| 0 <= i < t.len() && (#[trigger] t[i]).0 == occs[k].term;
        assert(s[i].0 == t[i].0);
    }
}

} // verus!

verus! {

/// An inverted index over a set of documents.
#[derive(Debug)]
pub struct SearchIndex {
    documents: Vec<Document>,
    terms: Vec<(String, Vec<Posting>)>,
    doc_lengths: Vec<usize>,
    tokenizer: SimpleTokenizer,
}

pub ghost struct SearchIndexView {
    pub documents: Seq<DocumentView>,
    pub terms: Seq<(Seq<char>, Seq<PostingView>)>,
    pub case_sensitive: bool,
    pub min_len: usize,
}

/// The postings listed for `term` from entry `i` of a term table on, or none.
pub open spec fn postings_from(t: Seq<(Seq<char>, Seq<PostingView>)>, term: Seq<char>, i: int) -> Seq<PostingView>
    decreases t.len() - i,
{
    if i < 0 || i >= t.len() {
        seq![]
    } else if t[i].0 == term {
        t[i].1
    } else {
        postings_from(t, term, i + 1)
    }
}

/// The postings a term table lists for `term`, or none.
pub open spec fn postings_of(t: Seq<(Seq<char>, Seq<PostingView>)>, term: Seq<char>) -> Seq<PostingView> {
    postings_from(t, term, 0)
}

/// The number of tokens in a document's stream.
pub open spec fn stream_len(cs: bool, min: usize, d: DocumentView) -> nat {
    doc_occs(cs, min, d).len()
}

/// The last document numbered `id`.
pub open spec fn last_with_id(docs: Seq<DocumentView>, id: usize) -> Option<int>
    decreases docs.len(),
{
    if docs.len() == 0 {
        None
    } else if docs.last().id == id {
        Some(docs.len() - 1)
    } else {
        last_with_id(docs.drop_last(), id)
    }
}

/// The first document numbered `id`.
pub open spec fn first_with_id_from(docs: Seq<DocumentView>, id: usize, i: int) -> Option<int>
    decreases docs.len() - i,
{
    if i < 0 || i >= docs.len() {
        None
    } else if docs[i].id == id {
        Some(i)
    } else {
        first_with_id_from(docs, id, i + 1)
    }
}

impl View for SearchIndex {
    type V = SearchIndexView;

    closed spec fn view(&self) -> SearchIndexView {
        SearchIndexView {
            documents: doc_views(self.documents@),
            terms: table_views(self.terms@),
            case_sensitive: self.tokenizer.is_case_sensitive(),
            min_len: self.tokenizer.min_chars(),
        }
    }
}

impl SearchIndex {
    #[verifier::type_invariant]
    closed spec fn wf(self) -> bool {
        let docs = doc_views(self.documents@);
        let cs = self.tokenizer.is_case_sensitive();
        let min = self.tokenizer.min_chars();
        &&& terms_of(all_occs(cs, min, docs), table_views(self.terms@))
        &&& self.doc_lengths@.len() == docs.len()
        &&& forall|i: int|
            0 <= i < docs.len() ==> self.doc_lengths@[i] as int == stream_len(cs, min, #[trigger] docs[i])
    }

    /// Indexes the documents where each one's token stream can be counted in a `usize` (see
    /// `build`); `None` where one's cannot.
    pub fn try_build(documents: Vec<Document>, tokenizer: SimpleTokenizer) -> (r: Option<Self>)
        ensures
            match r {
                Some(ix) => {
                    &&& ix@.documents == doc_views(documents@)
                    &&& ix@.case_sensitive == tokenizer.is_case_sensitive()
                    &&& ix@.min_len == tokenizer.min_chars()
                    &&& terms_of(all_occs(ix@.case_sensitive, ix@.min_len, ix@.documents), ix@.terms)
                },
                None => exists|i: int|
                    0 <= i < documents.len() && stream_len(
                        tokenizer.is_case_sensitive(),
                        tokenizer.min_chars(),
                        #[trigger] documents@[i]@,
                    ) > usize::MAX,
            },
    {
        let mut i: usize = 0;
        while i < documents.len()
            invariant
                i <= documents.len(),
                forall|k: int|
                    0 <= k < i ==> stream_len(
                        tokenizer.is_case_sensitive(),
                        tokenizer.min_chars(),
                        #[trigger] documents@[k]@,
                    ) <= usize::MAX,
            decreases documents.len() - i,
        {
            if !stream_fits(&documents[i], &tokenizer) {
                return None;
            }
            i += 1;
        }
        Some(SearchIndex::build(documents, tokenizer))
    }

    /// Indexes the documents: every term of every field of every document, with its
    /// positions (see `terms_of`).
    pub fn build(documents: Vec<Document>, tokenizer: SimpleTokenizer) -> (r: Self)
        requires
            forall|i: int|
                0 <= i < documents.len() ==> stream_len(
                    tokenizer.is_case_sensitive(),
                    tokenizer.min_chars(),
                    #[trigger] documents@[i]@,
                ) <= usize::MAX,
        ensures
            r@.documents == doc_views(documents@),
            r@.case_sensitive == tokenizer.is_case_sensitive(),
            r@.min_len == tokenizer.min_chars(),
            terms_of(all_occs(r@.case_sensitive, r@.min_len, r@.documents), r@.terms),
    {
        let ghost cs = tokenizer.is_case_sensitive();
        let ghost min = tokenizer.min_chars();
        let ghost dv = doc_views(documents@);
        let mut terms: Vec<(String, Vec<Posting>)> = Vec::new();
        let mut lengths: Vec<usize> = Vec::new();
        let mut i: usize = 0;
        assert(dv.take(0) =~= Seq::<DocumentView>::empty());
        while i < documents.len()
            invariant
                i <= documents.len(),
                dv == doc_views(documents@),
                cs == tokenizer.is_case_sensitive(),
                min == tokenizer.min_chars(),
                forall|j: int|
                    0 <= j < documents.len() ==> stream_len(cs, min, #[trigger] documents@[j]@) <= usize::MAX,
                table_of(all_occs(cs, min, dv.take(i as int)), table_views(terms@)),
                lengths@.len() == i,
                forall|j: int| 0 <= j < i ==> lengths@[j] as int == stream_len(cs, min, #[trigger] dv[j]),
            decreases documents.len() - i,
        {
            let d = &documents[i];
            assert(dv[i as int] == d@);
            assert(stream_len(cs, min, documents@[i as int]@) <= usize::MAX);
            let len = add_document(&mut terms, &tokenizer, d, Ghost(all_occs(cs, min, dv.take(i as int))));
            assert(dv.take(i + 1).drop_last() =~= dv.take(i as int));
            assert(dv.take(i + 1).last() == d@);
            lengths.push(len);
            i += 1;
        }
        assert(dv.take(documents.len() as int) =~= dv);
        let ghost tv = table_views(terms@);
        let mut sorted_terms: Vec<(String, Vec<Posting>)> = Vec::new();
        let mut rest = terms;
        let mut k: usize = 0;
        let n = rest.len();
        while k < n
            invariant
                k <= n,
                rest@.len() == n,
                tv.len() == n,
                forall|j: int| k <= j < n ==> table_views(rest@)[j] == tv[j],
                sorted_terms@.len() == k,
                forall|j: int|
                    0 <= j < k ==> (#[trigger] table_views(sorted_terms@)[j]).0 == tv[j].0
                        && table_views(sorted_terms@)[j].1.to_multiset() == tv[j].1.to_multiset()
                        && (forall|a: int, b: int|
                        0 <= a < b < table_views(sorted_terms@)[j].1.len() ==> posting_le(
                            table_views(sorted_terms@)[j].1[a],
                            table_views(sorted_terms@)[j].1[b],
                        )),
            decreases n - k,
        {
            let mut entry: (String, Vec<Posting>) = (String::new(), Vec::new());
            rest.set_and_swap(k, &mut entry);
            let ghost ev = (entry.0@, view_seq(entry.1@));
            let (key, ps) = entry;
            let sorted = sort_by_order::<Posting, PostingOrder>(ps);
            let ghost s0 = table_views(sorted_terms@);
            proof {
                assert forall|a: int, b: int| 0 <= a < b < view_seq(sorted@).len() implies posting_le(
                    view_seq(sorted@)[a],
                    view_seq(sorted@)[b],
                ) by {
                    assert(PostingOrder::le(&sorted@[a], &sorted@[b]));
                }
            }
            sorted_terms.push((key, sorted));
            assert(table_views(sorted_terms@) =~= s0.push((ev.0, view_seq(sorted@))));
            proof {
                assert forall|j: int| k + 1 <= j < n implies table_views(rest@)[j] == tv[j] by {
                }
            }
            k += 1;
        }
        proof {
            lemma_sorted_table(all_occs(cs, min, dv), tv, table_views(sorted_terms@));
        }
        SearchIndex { documents, terms: sorted_terms, doc_lengths: lengths, tokenizer }
    }
}

} // verus!

verus! {

impl SearchIndex {
    /// The indexed documents.
    pub fn documents(&self) -> (r: &[Document])
        ensures
            doc_views(r@) == self@.documents,
    {
        self.documents.as_slice()
    }

    /// The term table (see `terms_of`).
    pub fn terms(&self) -> (r: &[(String, Vec<Posting>)])
        ensures
            table_views(r@) == self@.terms,
            terms_of(all_occs(self@.case_sensitive, self@.min_len, self@.documents), self@.terms),
    {
        proof {
            use_type_invariant(self);
        }
        self.terms.as_slice()
    }

    /// The postings of a term, if it occurs.
    pub fn postings(&self, term: &str) -> (r: Option<&[Posting]>)
        ensures
            match r {
                Some(ps) => exists|i: int|
                    0 <= i < self@.terms.len() && self@.terms[i].0 == term@ && view_seq(ps@)
                        == self@.terms[i].1,
                None => forall|i: int| 0 <= i < self@.terms.len() ==> self@.terms[i].0 != term@,
            },
            match r {
                Some(ps) => view_seq(ps@) == postings_of(self@.terms, term@) && ps@.len() > 0,
                None => postings_of(self@.terms, term@).len() == 0,
            },
    {
        proof {
            use_type_invariant(self);
        }
        let ghost tv = table_views(self.terms@);
        let mut i: usize = 0;
        while i < self.terms.len()
            invariant
                i <= self.terms.len(),
                tv == table_views(self.terms@),
                tv == self@.terms,
                terms_of(all_occs(self@.case_sensitive, self@.min_len, self@.documents), tv),
                forall|j: int| 0 <= j < i ==> tv[j].0 != term@,
                postings_of(tv, term@) == postings_from(tv, term@, i as int),
            decreases self.terms.len() - i,
        {
            if str_eq(self.terms[i].0.as_str(), term) {
                assert(tv[i as int].0 == term@);
                assert(self@.terms == tv);
                assert(view_seq(self.terms@[i as int].1@) == tv[i as int].1);
                return Some(self.terms[i].1.as_slice());
            }
            i += 1;
        }
        None
    }

    /// The first document numbered `id`.
    pub fn document(&self, id: DocumentId) -> (r: Option<&Document>)
        ensures
            match first_with_id_from(self@.documents, id.0, 0) {
                Some(i) => r is Some && r.unwrap()@ == self@.documents[i],
                None => r is None,
            },
    {
        let ghost dv = doc_views(self.documents@);
        let mut i: usize = 0;
        while i < self.documents.len()
            invariant
                i <= self.documents.len(),
                dv == doc_views(self.documents@),
                first_with_id_from(dv, id.0, 0) == first_with_id_from(dv, id.0, i as int),
            decreases self.documents.len() - i,
        {
            if self.documents[i].id.0 == id.0 {
                assert(dv[i as int] == self.documents@[i as int]@);
                return Some(&self.documents[i]);
            }
            i += 1;
        }
        None
    }

    /// The number of tokens of the last document numbered `id`, or 0.
    pub fn document_length(&self, id: DocumentId) -> (r: usize)
        ensures
            r == match last_with_id(self@.documents, id.0) {
                Some(i) => stream_len(self@.case_sensitive, self@.min_len, self@.documents[i]),
                None => 0,
            },
    {
        proof {
            use_type_invariant(self);
        }
        let ghost dv = doc_views(self.documents@);
        let mut i: usize = self.documents.len();
        assert(dv.take(i as int) =~= dv);
        while i > 0
            invariant
                i <= self.documents.len(),
                dv == doc_views(self.documents@),
                dv == self@.documents,
                self.doc_lengths@.len() == dv.len(),
                forall|j: int|
                    0 <= j < dv.len() ==> self.doc_lengths@[j] as int == stream_len(
                        self@.case_sensitive,
                        self@.min_len,
                        #[trigger] dv[j],
                    ),
                last_with_id(dv, id.0) == last_with_id(dv.take(i as int), id.0),
            decreases i,
        {
            assert(dv.take(i as int).drop_last() =~= dv.take(i - 1));
            assert(dv.take(i as int).last() == dv[i - 1]);
            if self.documents[i - 1].id.0 == id.0 {
                assert(dv[i - 1] == self.documents@[i - 1]@);
                return self.doc_lengths[i - 1];
            }
            i -= 1;
        }
        0
    }

    /// The terms of a query, by the index's tokenizer.
    pub fn tokenize_query(&self, query: &str) -> (r: Vec<String>)
        ensures
            string_views(r@) == tokenize_spec(self@.case_sensitive, self@.min_len, query@),
    {
        let r = self.tokenizer.tokenize(query);
        assert(string_views(r@) =~= r@.map_values(|t: String| t@));
        r
    }

    /// The number of documents.
    pub fn len(&self) -> (r: usize)
        ensures
            r == self@.documents.len(),
    {
        self.documents.len()
    }

    /// Whether there are no documents.
    pub fn is_empty(&self) -> (r: bool)
        ensures
            r == (self@.documents.len() == 0),
    {
        self.documents.len() == 0
    }
}


/// Whether the documents have pairwise distinct numbers.
pub open spec fn distinct_ids(docs: Seq<DocumentView>) -> bool {
    forall|a: int, b: int| 0 <= a < b < docs.len() ==> docs[a].id != docs[b].id
}

/// Entry `k` of a token stream is term `t` in field `f`.
pub open spec fn stream_hit(s: Seq<Occ>, k: int, t: Seq<char>, f: Field) -> bool {
    s[k].term == t && s[k].field == f
}

proof fn lemma_doc_occs_upto_shape(cs: bool, min: usize, d: DocumentView, n: int)
    requires
        0 <= n <= 5,
    ensures
        forall|k: int|
            0 <= k < doc_occs_upto(cs, min, d, n).len() ==> (#[trigger] doc_occs_upto(cs, min, d, n)[k]).pos == k
                && doc_occs_upto(cs, min, d, n)[k].doc == d.id,
    decreases n,
{
    if n > 0 {
        lemma_doc_occs_upto_shape(cs, min, d, n - 1);
        let before = doc_occs_upto(cs, min, d, n - 1);
        let f = field_order()[n - 1];
        let add = occs_from(field_tokens(cs, min, d, f), d.id, f, before.len() as int);
        let all = doc_occs_upto(cs, min, d, n);
        assert(all == before + add);
        assert forall|k: int| 0 <= k < all.len() implies (#[trigger] all[k]).pos == k && all[k].doc == d.id by {
            if k < before.len() {
                assert(all[k] == before[k]);
            } else {
                assert(all[k] == add[k - before.len()]);
            }
        }
    }
}

/// A document's token stream: entry `k` is at position `k` and belongs to the document.
pub proof fn lemma_doc_occs_shape(cs: bool, min: usize, d: DocumentView)
    ensures
        forall|k: int|
            0 <= k < doc_occs(cs, min, d).len() ==> (#[trigger] doc_occs(cs, min, d)[k]).pos == k
                && doc_occs(cs, min, d)[k].doc == d.id,
{
    lemma_doc_occs_upto_shape(cs, min, d, 5);
}

proof fn lemma_positions_facts(s: Seq<Occ>, t: Seq<char>, d: usize, f: Field)
    requires
        forall|a: int, b: int| 0 <= a < b < s.len() ==> (#[trigger] s[a]).pos < (#[trigger] s[b]).pos,
    ensures
        forall|a: int, b: int|
            0 <= a < b < positions_of(s, t, d, f).len() ==> (#[trigger] positions_of(s, t, d, f)[a]) < (
            #[trigger] positions_of(s, t, d, f)[b]),
        forall|i: int|
            0 <= i < positions_of(s, t, d, f).len() ==> exists|k: int|
                0 <= k < s.len() && s[k].pos == (#[trigger] positions_of(s, t, d, f)[i]) && s[k].term == t
                    && s[k].doc == d && s[k].field == f,
        forall|k: int|
            0 <= k < s.len() && (#[trigger] s[k]).term == t && s[k].doc == d && s[k].field == f
                ==> positions_of(s, t, d, f).contains(s[k].pos),
    decreases s.len(),
{
    if s.len() == 0 {
        assert(positions_of(s, t, d, f) =~= Seq::<int>::empty());
    } else {
        let init = s.drop_last();
        let o = s.last();
        assert(init.push(o) =~= s);
        lemma_positions_facts(init, t, d, f);
        lemma_positions_of_push(init, o, t, d, f);
        let p0 = positions_of(init, t, d, f);
        let p = positions_of(s, t, d, f);
        assert forall|k: int| 0 <= k < init.len() implies (#[trigger] init[k]).pos < o.pos by {
            assert(init[k] == s[k]);
            assert(o == s[s.len() - 1]);
        }
        if o.term == t && o.doc == d && o.field == f {
            assert(p == p0.push(o.pos));
            assert forall|a: int, b: int| 0 <= a < b < p.len() implies (#[trigger] p[a]) < (#[trigger] p[b]) by {
                if b == p0.len() {
                    assert(p[a] == p0[a]);
                    let k = choose|k: int|
                        0 <= k < init.len() && init[k].pos == p0[a] && init[k].term == t && init[k].doc == d
                            && init[k].field == f;
                } else {
                    assert(p[a] == p0[a] && p[b] == p0[b]);
                }
            }
            assert forall|i: int| 0 <= i < p.len() implies exists|k: int|
                0 <= k < s.len() && s[k].pos == (#[trigger] p[i]) && s[k].term == t && s[k].doc == d && s[k].field
                    == f by {
                if i < p0.len() {
                    assert(p[i] == p0[i]);
                    let k = choose|k: int|
                        0 <= k < init.len() && init[k].pos == p0[i] && init[k].term == t && init[k].doc == d
                            && init[k].field == f;
                    assert(s[k] == init[k]);
                    assert(0 <= k < s.len() && s[k].pos == p[i] && s[k].term == t && s[k].doc == d && s[k].field == f);
                } else {
                    assert(s[s.len() - 1] == o);
                    assert(p[i] == o.pos);
                    let k = s.len() - 1;
                    assert(0 <= k < s.len() && s[k].pos == p[i] && s[k].term == t && s[k].doc == d && s[k].field == f);
                }
            }
            assert forall|k: int| 0 <= k < s.len() && (#[trigger] s[k]).term == t && s[k].doc == d && s[k].field == f
                implies p.contains(s[k].pos) by {
                if k < init.len() {
                    assert(init[k] == s[k]);
                    assert(p0.contains(s[k].pos));
                    let i = choose|i: int| 0 <= i < p0.len() && p0[i] == s[k].pos;
                    assert(p[i] == p0[i]);
                } else {
                    assert(p[p0.len() as int] == o.pos);
                }
            }
        } else {
            assert(p == p0);
            assert forall|i: int| 0 <= i < p.len() implies exists|k: int|
                0 <= k < s.len() && s[k].pos == (#[trigger] p[i]) && s[k].term == t && s[k].doc == d && s[k].field
                    == f by {
                let k = choose|k: int|
                    0 <= k < init.len() && init[k].pos == p0[i] && init[k].term == t && init[k].doc == d
                        && init[k].field == f;
                assert(s[k] == init[k]);
                assert(0 <= k < s.len() && s[k].pos == p[i] && s[k].term == t && s[k].doc == d && s[k].field == f);
            }
            assert forall|k: int| 0 <= k < s.len() && (#[trigger] s[k]).term == t && s[k].doc == d && s[k].field == f
                implies p.contains(s[k].pos) by {
                if k < init.len() {
                    assert(init[k] == s[k]);
                } else {
                    assert(s[k] == o);
                }
            }
        }
    }
}

proof fn lemma_positions_concat(a: Seq<Occ>, b: Seq<Occ>, t: Seq<char>, d: usize, f: Field)
    ensures
        positions_of(a + b, t, d, f) == positions_of(a, t, d, f) + positions_of(b, t, d, f),
{
    let p = |o: Occ| o.term == t && o.doc == d && o.field == f;
    let m = |o: Occ| o.pos;
    Seq::filter_distributes_over_add(a, b, p);
    assert((a.filter(p) + b.filter(p)).map_values(m) =~= a.filter(p).map_values(m) + b.filter(p).map_values(m));
}

proof fn lemma_positions_absent(s: Seq<Occ>, t: Seq<char>, d: usize, f: Field)
    requires
        forall|k: int| 0 <= k < s.len() ==> (#[trigger] s[k]).doc != d,
    ensures
        positions_of(s, t, d, f) == Seq::<int>::empty(),
{
    lemma_positions_nonempty(s, t, d, f);
    assert(positions_of(s, t, d, f) =~= Seq::<int>::empty());
}

proof fn lemma_all_occs_absent(cs: bool, min: usize, docs: Seq<DocumentView>, t: Seq<char>, id: usize, f: Field)
    requires
        forall|j: int| 0 <= j < docs.len() ==> (#[trigger] docs[j]).id != id,
    ensures
        positions_of(all_occs(cs, min, docs), t, id, f) == Seq::<int>::empty(),
    decreases docs.len(),
{
    if docs.len() > 0 {
        let init = docs.drop_last();
        assert forall|j: int| 0 <= j < init.len() implies (#[trigger] init[j]).id != id by {
            assert(init[j] == docs[j]);
        }
        lemma_all_occs_absent(cs, min, init, t, id, f);
        let last = docs.last();
        lemma_doc_occs_shape(cs, min, last);
        lemma_positions_absent(doc_occs(cs, min, last), t, id, f);
        lemma_positions_concat(all_occs(cs, min, init), doc_occs(cs, min, last), t, id, f);
    }
}

/// With distinct numbers, the positions of a term in one document's field are found in that
/// document's own token stream.
proof fn lemma_all_occs_doc(cs: bool, min: usize, docs: Seq<DocumentView>, m: int, t: Seq<char>, f: Field)
    requires
        distinct_ids(docs),
        0 <= m < docs.len(),
    ensures
        positions_of(all_occs(cs, min, docs), t, docs[m].id, f) == positions_of(doc_occs(cs, min, docs[m]), t, docs[m].id, f),
    decreases docs.len(),
{
    let init = docs.drop_last();
    let last = docs.last();
    let id = docs[m].id;
    lemma_positions_concat(all_occs(cs, min, init), doc_occs(cs, min, last), t, id, f);
    if m == docs.len() - 1 {
        assert forall|j: int| 0 <= j < init.len() implies (#[trigger] init[j]).id != id by {
            assert(init[j] == docs[j]);
        }
        lemma_all_occs_absent(cs, min, init, t, id, f);
        assert(positions_of(all_occs(cs, min, docs), t, id, f) =~= positions_of(doc_occs(cs, min, last), t, id, f));
    } else {
        assert(init[m] == docs[m]);
        lemma_all_occs_doc(cs, min, init, m, t, f);
        lemma_doc_occs_shape(cs, min, last);
        assert(last.id != id);
        lemma_positions_absent(doc_occs(cs, min, last), t, id, f);
        assert(positions_of(all_occs(cs, min, docs), t, id, f) =~= positions_of(all_occs(cs, min, init), t, id, f));
    }
}

/// With distinct numbers, the positions of a term in any document's field are strictly
/// increasing.
proof fn lemma_all_occs_ascending(cs: bool, min: usize, docs: Seq<DocumentView>, t: Seq<char>, id: usize, f: Field)
    requires
        distinct_ids(docs),
    ensures
        forall|a: int, b: int|
            0 <= a < b < positions_of(all_occs(cs, min, docs), t, id, f).len() ==> (#[trigger] positions_of(
                all_occs(cs, min, docs),
                t,
                id,
                f,
            )[a]) < (#[trigger] positions_of(all_occs(cs, min, docs), t, id, f)[b]),
{
    if exists|m: int| 0 <= m < docs.len() && (#[trigger] docs[m]).id == id {
        let m = choose|m: int| 0 <= m < docs.len() && (#[trigger] docs[m]).id == id;
        lemma_all_occs_doc(cs, min, docs, m, t, f);
        let s = doc_occs(cs, min, docs[m]);
        lemma_doc_occs_shape(cs, min, docs[m]);
        assert forall|a: int, b: int| 0 <= a < b < s.len() implies (#[trigger] s[a]).pos < (#[trigger] s[b]).pos by {}
        lemma_positions_facts(s, t, id, f);
    } else {
        lemma_all_occs_absent(cs, min, docs, t, id, f);
    }
}

proof fn lemma_postings_from(tb: Seq<(Seq<char>, Seq<PostingView>)>, term: Seq<char>, from: int)
    requires
        0 <= from,
        forall|a: int, b: int| 0 <= a < b < tb.len() ==> tb[a].0 != tb[b].0,
    ensures
        forall|i: int| from <= i < tb.len() && (#[trigger] tb[i]).0 == term ==> postings_from(tb, term, from) == tb[i].1,
        (forall|i: int| from <= i < tb.len() ==> (#[trigger] tb[i]).0 != term) ==> postings_from(tb, term, from).len() == 0,
    decreases tb.len() - from,
{
    if from < tb.len() {
        lemma_postings_from(tb, term, from + 1);
    }
}

/// Postings: for documents with distinct numbers, a term has a posting for a document and
/// field exactly when the term occurs in that field of the document's token stream, and the
/// posting's positions are then exactly the places of the stream where it occurs, in strictly
/// increasing order; a term has no postings exactly when it occurs in no stream; and the
/// length of a document is its stream's length.
pub proof fn lemma_index_postings(ix: SearchIndexView, m: int, t: Seq<char>, f: Field)
    requires
        terms_of(all_occs(ix.case_sensitive, ix.min_len, ix.documents), ix.terms),
        distinct_ids(ix.documents),
        0 <= m < ix.documents.len(),
    ensures
        (exists|j: int|
            0 <= j < postings_of(ix.terms, t).len() && (#[trigger] postings_of(ix.terms, t)[j]).doc_id
                == ix.documents[m].id && postings_of(ix.terms, t)[j].field == f) <==> (exists|k: int|
            0 <= k < doc_occs(ix.case_sensitive, ix.min_len, ix.documents[m]).len() && stream_hit(
                doc_occs(ix.case_sensitive, ix.min_len, ix.documents[m]),
                k,
                t,
                f,
            )),
        forall|j: int, x: int|
            #![trigger int_positions(postings_of(ix.terms, t)[j].positions).contains(x)]
            #![trigger postings_of(ix.terms, t)[j], stream_hit(doc_occs(ix.case_sensitive, ix.min_len, ix.documents[m]), x, t, f)]
            0 <= j < postings_of(ix.terms, t).len() && postings_of(ix.terms, t)[j].doc_id
                == ix.documents[m].id && postings_of(ix.terms, t)[j].field == f ==> (int_positions(
                postings_of(ix.terms, t)[j].positions,
            ).contains(x) <==> (0 <= x < doc_occs(ix.case_sensitive, ix.min_len, ix.documents[m]).len()
                && stream_hit(doc_occs(ix.case_sensitive, ix.min_len, ix.documents[m]), x, t, f))),
        postings_of(ix.terms, t).len() == 0 <==> forall|k: int|
            0 <= k < all_occs(ix.case_sensitive, ix.min_len, ix.documents).len() ==> (#[trigger] all_occs(
                ix.case_sensitive,
                ix.min_len,
                ix.documents,
            )[k]).term != t,
        last_with_id(ix.documents, ix.documents[m].id) == Some(m),
        stream_len(ix.case_sensitive, ix.min_len, ix.documents[m]) == doc_occs(ix.case_sensitive, ix.min_len, ix.documents[m]).len(),
{
    let cs = ix.case_sensitive;
    let min = ix.min_len;
    let docs = ix.documents;
    let occs = all_occs(cs, min, docs);
    let tb = ix.terms;
    let d = docs[m];
    let s = doc_occs(cs, min, d);
    let ps = postings_of(tb, t);
    lemma_postings_from(tb, t, 0);
    lemma_all_occs_doc(cs, min, docs, m, t, f);
    lemma_doc_occs_shape(cs, min, d);
    assert forall|a: int, b: int| 0 <= a < b < s.len() implies (#[trigger] s[a]).pos < (#[trigger] s[b]).pos by {}
    lemma_positions_facts(s, t, d.id, f);
    lemma_positions_nonempty(occs, t, d.id, f);
    let pp = positions_of(s, t, d.id, f);
    // positions within the document's stream are exactly its hits
    assert forall|x: int| pp.contains(x) <==> (0 <= x < s.len() && stream_hit(s, x, t, f)) by {
        if pp.contains(x) {
            let i = choose|i: int| 0 <= i < pp.len() && pp[i] == x;
            let k = choose|k: int| 0 <= k < s.len() && s[k].pos == pp[i] && s[k].term == t && s[k].doc == d.id && s[k].field == f;
        }
        if 0 <= x < s.len() && stream_hit(s, x, t, f) {
            assert(s[x].doc == d.id);
        }
    }
    // the term's entry, if any
    if exists|i: int| 0 <= i < tb.len() && (#[trigger] tb[i]).0 == t {
        let i = choose|i: int| 0 <= i < tb.len() && (#[trigger] tb[i]).0 == t;
        assert(ps == tb[i].1);
        assert forall|j: int, x: int|
            #![trigger int_positions(ps[j].positions).contains(x)]
            #![trigger ps[j], stream_hit(s, x, t, f)]
            0 <= j < ps.len() && ps[j].doc_id == d.id && ps[j].field == f implies (int_positions(
                ps[j].positions,
            ).contains(x) <==> (0 <= x < s.len() && stream_hit(s, x, t, f))) by {
            assert(ps[j] == tb[i].1[j]);
            assert(int_positions(tb[i].1[j].positions) == positions_of(occs, tb[i].0, tb[i].1[j].doc_id, tb[i].1[j].field));
        }
        if exists|k: int| 0 <= k < s.len() && stream_hit(s, k, t, f) {
            let k = choose|k: int| 0 <= k < s.len() && stream_hit(s, k, t, f);
            assert(pp.contains(k));
            assert(positions_of(occs, tb[i].0, d.id, f).len() > 0);
            let j = choose|j: int| 0 <= j < tb[i].1.len() && (#[trigger] tb[i].1[j]).doc_id == d.id && tb[i].1[j].field == f;
            assert(ps[j] == tb[i].1[j]);
        }
        if exists|j: int| 0 <= j < ps.len() && (#[trigger] ps[j]).doc_id == d.id && ps[j].field == f {
            let j = choose|j: int| 0 <= j < ps.len() && (#[trigger] ps[j]).doc_id == d.id && ps[j].field == f;
            assert(ps[j] == tb[i].1[j]);
            assert(int_positions(tb[i].1[j].positions) == positions_of(occs, tb[i].0, tb[i].1[j].doc_id, tb[i].1[j].field));
            assert(tb[i].1[j].positions.len() > 0);
            assert(pp.len() > 0);
            assert(pp.contains(pp[0]));
        }
        assert(ps.len() > 0);
        assert(tb[i].1.len() > 0);
        let j0 = 0int;
        assert(int_positions(tb[i].1[j0].positions) == positions_of(occs, t, tb[i].1[j0].doc_id, tb[i].1[j0].field));
        assert(tb[i].1[j0].positions.len() > 0);
        lemma_positions_nonempty(occs, t, tb[i].1[j0].doc_id, tb[i].1[j0].field);
    } else {
        assert(ps.len() == 0);
        assert forall|k: int| 0 <= k < occs.len() implies (#[trigger] occs[k]).term != t by {
            let i = choose|i: int| 0 <= i < tb.len() && (#[trigger] tb[i]).0 == occs[k].term;
        }
        if exists|k: int| 0 <= k < s.len() && stream_hit(s, k, t, f) {
            let k = choose|k: int| 0 <= k < s.len() && stream_hit(s, k, t, f);
            assert(pp.contains(k));
            assert(positions_of(occs, t, d.id, f).len() > 0);
        }
    }
    lemma_last_with_distinct(docs, m);
}

proof fn lemma_last_with_distinct(docs: Seq<DocumentView>, m: int)
    requires
        distinct_ids(docs),
        0 <= m < docs.len(),
    ensures
        last_with_id(docs, docs[m].id) == Some(m),
    decreases docs.len(),
{
    if m < docs.len() - 1 {
        let init = docs.drop_last();
        assert(init[m] == docs[m]);
        lemma_last_with_distinct(init, m);
    }
}

proof fn lemma_last_with_absent(docs: Seq<DocumentView>, id: usize)
    requires
        forall|j: int| 0 <= j < docs.len() ==> (#[trigger] docs[j]).id != id,
    ensures
        last_with_id(docs, id) is None,
    decreases docs.len(),
{
    if docs.len() > 0 {
        let init = docs.drop_last();
        assert forall|j: int| 0 <= j < init.len() implies (#[trigger] init[j]).id != id by {
            assert(init[j] == docs[j]);
        }
        lemma_last_with_absent(init, id);
    }
}

/// Order in the index: every term's posting list is non-empty and strictly increasing by
/// document number, then field, so no document and field repeat; every posting's positions are
/// non-empty, and for documents with distinct numbers strictly increasing (where two documents
/// share a number, their positions for it follow one another, each list restarting at 0); and
/// a number that no document has gets no document length (`document_length` gives 0).
pub proof fn lemma_index_ordered(ix: SearchIndexView, id: usize)
    requires
        terms_of(all_occs(ix.case_sensitive, ix.min_len, ix.documents), ix.terms),
    ensures
        forall|i: int, a: int, b: int|
            0 <= i < ix.terms.len() && 0 <= a < b < ix.terms[i].1.len() ==> posting_lt(
                #[trigger] ix.terms[i].1[a],
                #[trigger] ix.terms[i].1[b],
            ),
        forall|i: int| 0 <= i < ix.terms.len() ==> (#[trigger] ix.terms[i]).1.len() > 0,
        forall|i: int, j: int|
            0 <= i < ix.terms.len() && 0 <= j < ix.terms[i].1.len() ==> (#[trigger] ix.terms[i].1[j]).positions.len() > 0,
        distinct_ids(ix.documents) ==> forall|i: int, j: int|
            0 <= i < ix.terms.len() && 0 <= j < ix.terms[i].1.len() ==> forall|a: int, b: int|
                0 <= a < b < (#[trigger] ix.terms[i].1[j]).positions.len() ==> (#[trigger] ix.terms[i].1[j].positions[a]) < (
                #[trigger] ix.terms[i].1[j].positions[b]),
        (forall|j: int| 0 <= j < ix.documents.len() ==> (#[trigger] ix.documents[j]).id != id) ==> last_with_id(
            ix.documents,
            id,
        ) is None,
{
    let cs = ix.case_sensitive;
    let min = ix.min_len;
    let occs = all_occs(cs, min, ix.documents);
    if distinct_ids(ix.documents) {
        assert forall|i: int, j: int| 0 <= i < ix.terms.len() && 0 <= j < ix.terms[i].1.len() implies forall|a: int, b: int|
            0 <= a < b < (#[trigger] ix.terms[i].1[j]).positions.len() ==> (#[trigger] ix.terms[i].1[j].positions[a]) < (
            #[trigger] ix.terms[i].1[j].positions[b]) by {
            let pv = ix.terms[i].1[j];
            assert(int_positions(pv.positions) == positions_of(occs, ix.terms[i].0, pv.doc_id, pv.field));
            lemma_all_occs_ascending(cs, min, ix.documents, ix.terms[i].0, pv.doc_id, pv.field);
            assert forall|a: int, b: int| 0 <= a < b < pv.positions.len() implies (#[trigger] pv.positions[a]) < (#[trigger] pv.positions[b]) by {
                assert(int_positions(pv.positions)[a] == pv.positions[a] as int);
                assert(int_positions(pv.positions)[b] == pv.positions[b] as int);
            }
        }
    }
    assert forall|i: int, j: int| 0 <= i < ix.terms.len() && 0 <= j < ix.terms[i].1.len() implies (#[trigger] ix.terms[i].1[j]).positions.len() > 0 by {}
    if forall|j: int| 0 <= j < ix.documents.len() ==> (#[trigger] ix.documents[j]).id != id {
        lemma_last_with_absent(ix.documents, id);
    }
}


proof fn lemma_first_with_id_from(docs: Seq<DocumentView>, id: usize, k: int)
    requires
        0 <= k <= docs.len(),
    ensures
        match first_with_id_from(docs, id, k) {
            Some(i) => k <= i < docs.len() && docs[i].id == id && forall|j: int| k <= j < i ==> (#[trigger] docs[j]).id != id,
            None => forall|j: int| k <= j < docs.len() ==> (#[trigger] docs[j]).id != id,
        },
    decreases docs.len() - k,
{
    if k < docs.len() && docs[k].id != id {
        lemma_first_with_id_from(docs, id, k + 1);
    }
}

/// Looking a document up by number: `document` finds one exactly when some document has the
/// number, and it is the first such document in input order.
pub proof fn lemma_document_lookup(docs: Seq<DocumentView>, id: usize)
    ensures
        first_with_id_from(docs, id, 0) is Some <==> exists|j: int| 0 <= j < docs.len() && (#[trigger] docs[j]).id == id,
        match first_with_id_from(docs, id, 0) {
            Some(i) => 0 <= i < docs.len() && docs[i].id == id && forall|j: int| 0 <= j < i ==> (#[trigger] docs[j]).id != id,
            None => true,
        },
{
    lemma_first_with_id_from(docs, id, 0);
}


/// The terms of one field's text, as the index's tokenizer splits it.
pub open spec fn text_terms(cs: bool, min: usize, text: Seq<char>) -> Seq<Seq<char>> {
    tokenize_spec(cs, min, text)
}

/// The title text of a document, empty without a title.
pub open spec fn title_or_empty(d: DocumentView) -> Seq<char> {
    match d.title {
        Some(t) => t,
        None => seq![],
    }
}

/// The stream entries `occs[start..start + terms.len()]` are `terms` in field `f` of the
/// document numbered `doc`, at their places.
pub open spec fn block_at(occs: Seq<Occ>, start: int, terms: Seq<Seq<char>>, doc: usize, f: Field) -> bool {
    &&& 0 <= start
    &&& start + terms.len() <= occs.len()
    &&& forall|k: int|
        0 <= k < terms.len() ==> #[trigger] occs[start + k] == (Occ { term: terms[k], doc, field: f, pos: start + k })
}

proof fn lemma_block_of(before: Seq<Occ>, tokens: Seq<Seq<char>>, doc: usize, f: Field)
    ensures
        block_at(before + occs_from(tokens, doc, f, before.len() as int), before.len() as int, tokens, doc, f),
        forall|k: int| 0 <= k < before.len() ==> #[trigger] (before + occs_from(tokens, doc, f, before.len() as int))[k] == before[k],
{
    let all = before + occs_from(tokens, doc, f, before.len() as int);
    assert forall|k: int| 0 <= k < tokens.len() implies #[trigger] all[before.len() + k] == (Occ {
        term: tokens[k],
        doc,
        field: f,
        pos: before.len() + k,
    }) by {
        assert(all[before.len() + k] == occs_from(tokens, doc, f, before.len() as int)[k]);
    }
}

/// A document's token stream, field by field: the terms of its title (empty without one), of its
/// headings' texts joined by spaces, of its tags joined by spaces, of its path and of its body,
/// one after another, each term tagged with its field; the document's length counts them all.
pub proof fn lemma_stream_fields(cs: bool, min: usize, d: DocumentView)
    ensures
        ({
            let t0 = text_terms(cs, min, title_or_empty(d));
            let t1 = text_terms(cs, min, join_spaces(d.headings.map_values(|h: crate::types::HeadingView| h.text)));
            let t2 = text_terms(cs, min, join_spaces(d.tags));
            let t3 = text_terms(cs, min, d.path);
            let t4 = text_terms(cs, min, d.body);
            let s = doc_occs(cs, min, d);
            &&& s.len() == t0.len() + t1.len() + t2.len() + t3.len() + t4.len()
            &&& stream_len(cs, min, d) == s.len()
            &&& block_at(s, 0, t0, d.id, Field::Title)
            &&& block_at(s, t0.len() as int, t1, d.id, Field::Heading)
            &&& block_at(s, (t0.len() + t1.len()) as int, t2, d.id, Field::Tag)
            &&& block_at(s, (t0.len() + t1.len() + t2.len()) as int, t3, d.id, Field::Path)
            &&& block_at(s, (t0.len() + t1.len() + t2.len() + t3.len()) as int, t4, d.id, Field::Body)
        }),
{
    let t0 = text_terms(cs, min, title_or_empty(d));
    let t1 = text_terms(cs, min, join_spaces(d.headings.map_values(|h: crate::types::HeadingView| h.text)));
    let t2 = text_terms(cs, min, join_spaces(d.tags));
    let t3 = text_terms(cs, min, d.path);
    let t4 = text_terms(cs, min, d.body);
    assert(field_tokens(cs, min, d, Field::Title) == t0);
    assert(field_tokens(cs, min, d, Field::Heading) == t1);
    assert(field_tokens(cs, min, d, Field::Tag) == t2);
    assert(field_tokens(cs, min, d, Field::Path) == t3);
    assert(field_tokens(cs, min, d, Field::Body) == t4);
    let u0 = doc_occs_upto(cs, min, d, 0);
    assert(u0 == Seq::<Occ>::empty());
    let u1 = doc_occs_upto(cs, min, d, 1);
    assert(field_order()[0] == Field::Title);
    assert(u1 == u0 + occs_from(t0, d.id, Field::Title, u0.len() as int));
    lemma_block_of(u0, t0, d.id, Field::Title);
    let u2 = doc_occs_upto(cs, min, d, 2);
    assert(field_order()[1] == Field::Heading);
    assert(u2 == u1 + occs_from(t1, d.id, Field::Heading, u1.len() as int));
    lemma_block_of(u1, t1, d.id, Field::Heading);
    let u3 = doc_occs_upto(cs, min, d, 3);
    assert(field_order()[2] == Field::Tag);
    assert(u3 == u2 + occs_from(t2, d.id, Field::Tag, u2.len() as int));
    lemma_block_of(u2, t2, d.id, Field::Tag);
    let u4 = doc_occs_upto(cs, min, d, 4);
    assert(field_order()[3] == Field::Path);
    assert(u4 == u3 + occs_from(t3, d.id, Field::Path, u3.len() as int));
    lemma_block_of(u3, t3, d.id, Field::Path);
    let u5 = doc_occs_upto(cs, min, d, 5);
    assert(field_order()[4] == Field::Body);
    assert(u5 == u4 + occs_from(t4, d.id, Field::Body, u4.len() as int));
    lemma_block_of(u4, t4, d.id, Field::Body);
    let s = doc_occs(cs, min, d);
    assert(s == u5);
    assert(block_at(u1, 0, t0, d.id, Field::Title));
    assert(block_at(u2, 0, t0, d.id, Field::Title));
    assert(block_at(u3, 0, t0, d.id, Field::Title));
    assert(block_at(u4, 0, t0, d.id, Field::Title));
    assert(block_at(u5, 0, t0, d.id, Field::Title));
    assert(block_at(u3, t0.len() as int, t1, d.id, Field::Heading));
    assert(block_at(u4, t0.len() as int, t1, d.id, Field::Heading));
    assert(block_at(u5, t0.len() as int, t1, d.id, Field::Heading));
    assert(block_at(u4, (t0.len() + t1.len()) as int, t2, d.id, Field::Tag));
    assert(block_at(u5, (t0.len() + t1.len()) as int, t2, d.id, Field::Tag));
    assert(block_at(u5, (t0.len() + t1.len() + t2.len()) as int, t3, d.id, Field::Path));
}

/// Tags are indexed: for documents with distinct numbers, every term of a document's tags
/// (joined by spaces and split by the index's tokenizer) has a posting for that document in the
/// `Tag` field.
pub proof fn lemma_tags_indexed(ix: SearchIndexView, m: int, k: int)
    requires
        terms_of(all_occs(ix.case_sensitive, ix.min_len, ix.documents), ix.terms),
        distinct_ids(ix.documents),
        0 <= m < ix.documents.len(),
        0 <= k < text_terms(ix.case_sensitive, ix.min_len, join_spaces(ix.documents[m].tags)).len(),
    ensures
        exists|j: int|
            0 <= j < postings_of(ix.terms, text_terms(ix.case_sensitive, ix.min_len, join_spaces(ix.documents[m].tags))[k]).len()
                && (#[trigger] postings_of(
                ix.terms,
                text_terms(ix.case_sensitive, ix.min_len, join_spaces(ix.documents[m].tags))[k],
            )[j]).doc_id == ix.documents[m].id && postings_of(
                ix.terms,
                text_terms(ix.case_sensitive, ix.min_len, join_spaces(ix.documents[m].tags))[k],
            )[j].field == Field::Tag,
{
    let cs = ix.case_sensitive;
    let min = ix.min_len;
    let d = ix.documents[m];
    let t2 = text_terms(cs, min, join_spaces(d.tags));
    let term = t2[k];
    lemma_stream_fields(cs, min, d);
    let t0 = text_terms(cs, min, title_or_empty(d));
    let t1 = text_terms(cs, min, join_spaces(d.headings.map_values(|h: crate::types::HeadingView| h.text)));
    let s = doc_occs(cs, min, d);
    let at = (t0.len() + t1.len()) as int + k;
    assert(s[t0.len() + t1.len() + k] == (Occ { term: t2[k], doc: d.id, field: Field::Tag, pos: t0.len() + t1.len() + k }));
    assert(stream_hit(s, at, term, Field::Tag));
    lemma_index_postings(ix, m, term, Field::Tag);
}

} // verus!
