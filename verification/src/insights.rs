//! Suggestions of missing links between notes, and a health check of a knowledge base.
use vstd::prelude::*;
use crate::analyzer::{KnowledgeReport, KnowledgeReportView};
use crate::index::{field_text, field_text_exec};
use crate::paths::{
    file_stem, file_stem_exec, lemma_path_order, path_equiv, path_equiv_exec, path_le, path_lt, path_lt_exec,
    without_extension, without_extension_exec,
};
use crate::sort::{
    lemma_sorted_texts, lemma_stable_views, placed, stable_sort_of, sort_by_order, sort_dedup_texts, sorted_texts, strictly_sorted, view_seq, Order,
};
use crate::text::{
    lemma_seq_lt_irreflexive, push_decimal, seq_le, seq_lt, contains_seq, find_chars_from, join_sep, join_texts, before_first, before_first_chars, chars_of, ends_with, ends_with_chars, lowercase, replace_char,
    replace_chars, spec_lowercase, str_eq, string_of, string_views, strip_leading, strip_leading_chars,
    strip_trailing, strip_trailing_chars, sub_chars, trim, trim_chars,
};
use crate::tokenizer::{tokenize_spec, SimpleTokenizer};
use crate::types::{display_title_spec, doc_views, Document, DocumentView, Field, LinkKind, LinkView};

verus! {

broadcast use vstd::string::group_string_axioms;

/// `target` reduced to the key it is matched by: the part before `#` and `?`, trimmed, without
/// surrounding `<` and `>`, lower case, without a `.md` ending, with `/` for `\`.
pub open spec fn link_key(target: Seq<char>) -> Seq<char> {
    let a = trim(before_first(before_first(target, '#'), '?'));
    let b = strip_trailing(strip_leading(a, '<'), '<');
    let c = strip_trailing(strip_leading(b, '>'), '>');
    let d = spec_lowercase(c);
    let e = if ends_with(d, seq!['.', 'm', 'd']) {
        d.take(d.len() - 3)
    } else {
        d
    };
    replace_char(e, '\\', '/')
}

/// The key of a document's path: without its extension, with `/` for `\`, lower case.
pub open spec fn path_key(path: Seq<char>) -> Seq<char> {
    spec_lowercase(replace_char(without_extension(path), '\\', '/'))
}

/// The lower-case stem of a path's file name, else its key.
pub open spec fn stem_key(path: Seq<char>) -> Seq<char> {
    match file_stem(path) {
        Some(s) => spec_lowercase(s),
        None => path_key(path),
    }
}

fn link_key_exec(target: &str) -> (r: String)
    ensures
        r@ == link_key(target@),
{
    let cs = chars_of(target);
    let a = trim_chars(&before_first_chars(&before_first_chars(&cs, '#'), '?'));
    let b = strip_trailing_chars(&strip_leading_chars(&a, '<'), '<');
    let c = strip_trailing_chars(&strip_leading_chars(&b, '>'), '>');
    let d = chars_of(lowercase(string_of(&c).as_str()).as_str());
    let md = ['.', 'm', 'd'];
    assert(md@ =~= seq!['.', 'm', 'd']);
    let e = if ends_with_chars(&d, &md) {
        sub_chars(&d, 0, d.len() - 3)
    } else {
        d
    };
    assert(e@ =~= (if ends_with(d@, seq!['.', 'm', 'd']) {
        d@.take(d@.len() - 3)
    } else {
        d@
    }));
    string_of(&replace_chars(&e, '\\', '/'))
}

fn path_key_exec(path: &str) -> (r: String)
    ensures
        r@ == path_key(path@),
{
    let p = chars_of(path);
    let k = replace_chars(&without_extension_exec(&p), '\\', '/');
    lowercase(string_of(&k).as_str())
}

fn stem_key_exec(path: &str) -> (r: String)
    ensures
        r@ == stem_key(path@),
{
    let p = chars_of(path);
    match file_stem_exec(&p) {
        Some(s) => lowercase(string_of(&s).as_str()),
        None => path_key_exec(path),
    }
}

/// The sorted texts present in both `a` and `b`.
pub open spec fn shared(a: Seq<Seq<char>>, b: Seq<Seq<char>>) -> Seq<Seq<char>> {
    sorted_texts(a.to_set().intersect(b.to_set()))
}

proof fn lemma_filter_step(
    r0: Seq<Seq<char>>,
    r1: Seq<Seq<char>>,
    pre: Seq<Seq<char>>,
    x: Seq<char>,
    b: Seq<Seq<char>>,
    found: bool,
)
    requires
        r1 == if found { r0.push(x) } else { r0 },
        found == b.contains(x),
        forall|y: Seq<char>| r0.contains(y) <==> (pre.contains(y) && b.contains(y)),
    ensures
        forall|y: Seq<char>| r1.contains(y) <==> (pre.push(x).contains(y) && b.contains(y)),
{
    assert forall|y: Seq<char>| r1.contains(y) <==> (pre.push(x).contains(y) && b.contains(y)) by {
        crate::sort::lemma_push_contains(pre, x, y);
        crate::sort::lemma_push_contains(r0, x, y);
    }
}

/// The texts of the strictly sorted `a` that `b` also holds, in order.
fn intersection(a: &Vec<String>, b: &Vec<String>) -> (r: Vec<String>)
    requires
        strictly_sorted(string_views(a@)),
    ensures
        string_views(r@) == shared(string_views(a@), string_views(b@)),
{
    let ghost av = string_views(a@);
    let ghost bv = string_views(b@);
    let mut r: Vec<String> = Vec::new();
    let mut i: usize = 0;
    while i < a.len()
        invariant
            i <= a.len(),
            av == string_views(a@),
            bv == string_views(b@),
            strictly_sorted(av),
            strictly_sorted(string_views(r@)),
            forall|k: int| 0 <= k < r.len() ==> exists|m: int| 0 <= m < i && av[m] == (#[trigger] r@[k])@,
            forall|x: Seq<char>|
                #[trigger] string_views(r@).contains(x) <==> (av.take(i as int).contains(x) && bv.contains(x)),
        decreases a.len() - i,
    {
        let ghost r0 = string_views(r@);
        let ghost rr = r@;
        let ghost pre = av.take(i as int);
        assert(forall|y: Seq<char>| r0.contains(y) <==> (pre.contains(y) && bv.contains(y)));
        let mut found = false;
        let mut j: usize = 0;
        while j < b.len()
            invariant
                j <= b.len(),
                i < a.len(),
                bv == string_views(b@),
                av == string_views(a@),
                found == exists|m: int| 0 <= m < j && bv[m] == av[i as int],
            decreases b.len() - j,
        {
            assert(bv[j as int] == b@[j as int]@);
            if str_eq(b[j].as_str(), a[i].as_str()) {
                found = true;
            }
            j += 1;
        }
        assert(av.take(i + 1) =~= pre.push(av[i as int]));
        assert(found == bv.contains(av[i as int]));
        if found {
            r.push(a[i].clone());
            assert(string_views(r@) =~= r0.push(av[i as int]));
            assert forall|p: int, q: int| #![trigger string_views(r@)[p], string_views(r@)[q]]
                0 <= p < q < string_views(r@).len() implies crate::text::seq_lt(
                string_views(r@)[p],
                string_views(r@)[q],
            ) by {
                if q == r0.len() {
                    assert(r@[p] == rr[p]);
                    let m = choose|m: int| 0 <= m < i && av[m] == (#[trigger] rr[p])@;
                    assert(r@[p]@ == r0[p]);
                }
            }
        }
        proof {
            assert forall|k: int| 0 <= k < r.len() implies exists|m: int|
                0 <= m < i + 1 && av[m] == (#[trigger] r@[k])@ by {
                if k < r0.len() {
                    assert(r@[k] == rr[k]);
                    let m = choose|m: int| 0 <= m < i && av[m] == (#[trigger] rr[k])@;
                } else {
                    assert(av[i as int] == r@[k]@);
                }
            }
            lemma_filter_step(r0, string_views(r@), pre, av[i as int], bv, found);
        }
        i += 1;
    }
    proof {
        assert(av.take(a.len() as int) =~= av);
        let s = av.to_set().intersect(bv.to_set());
        assert forall|x: Seq<char>| string_views(r@).contains(x) <==> s.contains(x) by {}
        lemma_sorted_texts(string_views(r@), s);
    }
    r
}


/// The distinct terms of a text in increasing order, by a tokenizer with the given settings.
pub open spec fn term_list(cs: bool, min: usize, text: Seq<char>) -> Seq<Seq<char>> {
    sorted_texts(tokenize_spec(cs, min, text).to_set())
}

/// The keys of the links that are not external, in order.
pub open spec fn internal_link_keys(links: Seq<LinkView>) -> Seq<Seq<char>>
    decreases links.len(),
{
    if links.len() == 0 {
        seq![]
    } else if links.last().kind is External {
        internal_link_keys(links.drop_last())
    } else {
        internal_link_keys(links.drop_last()).push(link_key(links.last().target))
    }
}

/// What the suggestions compare of a document.
pub ghost struct ProfileView {
    pub path: Seq<char>,
    pub title: Seq<char>,
    pub title_terms: Seq<Seq<char>>,
    pub heading_terms: Seq<Seq<char>>,
    pub body_terms: Seq<Seq<char>>,
    pub tags: Seq<Seq<char>>,
    pub linked_keys: Seq<Seq<char>>,
    pub body_lowercase: Seq<char>,
}

/// The profile of a document: its path and display title, the terms of its title, headings
/// and body (each distinct and sorted), its tags (likewise), the keys of its internal links
/// and its body in lower case.
pub open spec fn profile_of(cs: bool, min: usize, d: DocumentView) -> ProfileView {
    ProfileView {
        path: d.path,
        title: display_title_spec(d),
        title_terms: term_list(cs, min, display_title_spec(d)),
        heading_terms: term_list(cs, min, field_text(d, Field::Heading)),
        body_terms: term_list(cs, min, d.body),
        tags: sorted_texts(d.tags.to_set()),
        linked_keys: internal_link_keys(d.links),
        body_lowercase: spec_lowercase(d.body),
    }
}

struct Profile {
    path: String,
    title: String,
    title_terms: Vec<String>,
    heading_terms: Vec<String>,
    body_terms: Vec<String>,
    tags: Vec<String>,
    linked_keys: Vec<String>,
    body_lowercase: String,
}

impl View for Profile {
    type V = ProfileView;

    closed spec fn view(&self) -> ProfileView {
        ProfileView {
            path: self.path@,
            title: self.title@,
            title_terms: string_views(self.title_terms@),
            heading_terms: string_views(self.heading_terms@),
            body_terms: string_views(self.body_terms@),
            tags: string_views(self.tags@),
            linked_keys: string_views(self.linked_keys@),
            body_lowercase: self.body_lowercase@,
        }
    }
}

fn term_list_exec(tokenizer: &SimpleTokenizer, text: &str) -> (r: Vec<String>)
    ensures
        string_views(r@) == term_list(tokenizer.is_case_sensitive(), tokenizer.min_chars(), text@),
        strictly_sorted(string_views(r@)),
{
    let tokens = tokenizer.tokenize_text(text);
    let ghost ts = tokenize_spec(tokenizer.is_case_sensitive(), tokenizer.min_chars(), text@);
    assert(string_views(tokens@) =~= ts);
    let sorted = sort_dedup_texts(tokens);
    proof {
        lemma_sorted_texts(string_views(sorted@), ts.to_set());
    }
    sorted
}

fn profile_document(doc: &Document, tokenizer: &SimpleTokenizer) -> (p: Profile)
    ensures
        p@ == profile_of(tokenizer.is_case_sensitive(), tokenizer.min_chars(), doc@),
        strictly_sorted(p@.title_terms),
        strictly_sorted(p@.heading_terms),
        strictly_sorted(p@.body_terms),
        strictly_sorted(p@.tags),
{
    let title = doc.display_title();
    let title_terms = term_list_exec(tokenizer, title.as_str());
    let heading_text = field_text_exec(doc, Field::Heading);
    let heading_terms = term_list_exec(tokenizer, heading_text.as_str());
    let body_terms = term_list_exec(tokenizer, doc.body.as_str());
    let mut tag_copy: Vec<String> = Vec::new();
    let mut i: usize = 0;
    while i < doc.tags.len()
        invariant
            i <= doc.tags.len(),
            string_views(tag_copy@) == doc@.tags.take(i as int),
        decreases doc.tags.len() - i,
    {
        let ghost t0 = string_views(tag_copy@);
        let t = doc.tags[i].clone();
        tag_copy.push(t);
        assert(doc@.tags[i as int] == doc.tags@[i as int]@);
        assert(string_views(tag_copy@) =~= t0.push(t@));
        assert(string_views(tag_copy@) =~= doc@.tags.take(i + 1));
        i += 1;
    }
    assert(doc@.tags.take(doc.tags.len() as int) =~= doc@.tags);
    let tags = sort_dedup_texts(tag_copy);
    proof {
        lemma_sorted_texts(string_views(tags@), doc@.tags.to_set());
    }
    let mut linked_keys: Vec<String> = Vec::new();
    let ghost lv = doc@.links;
    let mut k: usize = 0;
    while k < doc.links.len()
        invariant
            k <= doc.links.len(),
            lv == doc@.links,
            string_views(linked_keys@) == internal_link_keys(lv.take(k as int)),
        decreases doc.links.len() - k,
    {
        let link = &doc.links[k];
        assert(lv.take(k + 1).drop_last() =~= lv.take(k as int));
        assert(lv.take(k + 1).last() == link@);
        match link.kind {
            LinkKind::External => {},
            _ => {
                let ghost l0 = string_views(linked_keys@);
                linked_keys.push(link_key_exec(link.target.as_str()));
                assert(string_views(linked_keys@) =~= l0.push(link_key(link@.target)));
            },
        }
        k += 1;
    }
    assert(lv.take(doc.links.len() as int) =~= lv);
    Profile {
        path: doc.path.clone(),
        title,
        title_terms,
        heading_terms,
        body_terms,
        tags,
        linked_keys,
        body_lowercase: lowercase(doc.body.as_str()),
    }
}

/// Whether the source's body contains the target's lower-case title of at least four
/// characters.
pub open spec fn phrase_hit(s: ProfileView, t: ProfileView) -> bool {
    let phrase = spec_lowercase(t.title);
    phrase.len() >= 4 && contains_seq(s.body_lowercase, phrase)
}

/// The score of suggesting a link from `s` to `t`: 4 per shared tag, 3 per title term of `t`
/// in the body of `s`, 2 per shared heading term, 2 per title term of `s` in the body of `t`,
/// and 6 when the body of `s` contains the title of `t`.
pub open spec fn pair_score(s: ProfileView, t: ProfileView) -> int {
    4 * shared(s.tags, t.tags).len() + 3 * shared(s.body_terms, t.title_terms).len() + 2 * shared(
        s.heading_terms,
        t.heading_terms,
    ).len() + 2 * shared(s.title_terms, t.body_terms).len() + if phrase_hit(s, t) {
        6int
    } else {
        0int
    }
}

/// One reason, `label` followed by `items` joined by `, `, where there are items.
pub open spec fn reason_if(label: Seq<char>, items: Seq<Seq<char>>) -> Seq<Seq<char>> {
    if items.len() > 0 {
        seq![label + join_sep(items, ", "@)]
    } else {
        seq![]
    }
}

/// The reasons for suggesting a link from `s` to `t`, one per contribution to its score in
/// the order of `pair_score`; a single weak reason where nothing contributes.
pub open spec fn pair_reasons(s: ProfileView, t: ProfileView) -> Seq<Seq<char>> {
    let found = reason_if("shared tags: "@, shared(s.tags, t.tags)) + reason_if(
        "source mentions target title terms: "@,
        shared(s.body_terms, t.title_terms),
    ) + reason_if("related headings: "@, shared(s.heading_terms, t.heading_terms)) + reason_if(
        "target mentions source title terms: "@,
        shared(s.title_terms, t.body_terms),
    ) + if phrase_hit(s, t) {
        seq!["source contains the target title phrase"@]
    } else {
        seq![]
    };
    if found.len() == 0 {
        seq!["weak lexical similarity"@]
    } else {
        found
    }
}

fn push_reason(reasons: &mut Vec<String>, label: &str, items: &Vec<String>)
    ensures
        string_views(final(reasons)@) == string_views(old(reasons)@) + reason_if(label@, string_views(items@)),
{
    let ghost r0 = string_views(reasons@);
    if items.len() > 0 {
        let mut text = String::new();
        text.append(label);
        text.append(join_texts(items.as_slice(), ", ").as_str());
        reasons.push(text);
        assert(string_views(reasons@) =~= r0 + reason_if(label@, string_views(items@)));
    } else {
        assert(string_views(reasons@) =~= r0 + reason_if(label@, string_views(items@)));
    }
}

fn score_pair(source: &Profile, target: &Profile) -> (r: (u128, Vec<String>))
    requires
        strictly_sorted(source@.title_terms),
        strictly_sorted(source@.heading_terms),
        strictly_sorted(source@.body_terms),
        strictly_sorted(source@.tags),
    ensures
        r.0 == pair_score(source@, target@),
        r.0 < 0x1_0000_0000_0000_0000_0000,
        string_views(r.1@) == pair_reasons(source@, target@),
{
    let mut reasons: Vec<String> = Vec::new();
    assert(string_views(reasons@) =~= Seq::<Seq<char>>::empty());
    let shared_tags = intersection(&source.tags, &target.tags);
    let title_overlap = intersection(&source.body_terms, &target.title_terms);
    let heading_overlap = intersection(&source.heading_terms, &target.heading_terms);
    let cross_title_overlap = intersection(&source.title_terms, &target.body_terms);
    let mut score: u128 = 4 * (shared_tags.len() as u128) + 3 * (title_overlap.len() as u128) + 2
        * (heading_overlap.len() as u128) + 2 * (cross_title_overlap.len() as u128);
    push_reason(&mut reasons, "shared tags: ", &shared_tags);
    push_reason(&mut reasons, "source mentions target title terms: ", &title_overlap);
    push_reason(&mut reasons, "related headings: ", &heading_overlap);
    push_reason(&mut reasons, "target mentions source title terms: ", &cross_title_overlap);
    let phrase = chars_of(lowercase(target.title.as_str()).as_str());
    let body = chars_of(source.body_lowercase.as_str());
    let hit = phrase.len() >= 4 && find_chars_from(&body, &phrase, 0).is_some();
    let ghost before = string_views(reasons@);
    if hit {
        score = score + 6;
        reasons.push("source contains the target title phrase".to_string());
    }
    assert(string_views(reasons@) =~= before + if phrase_hit(source@, target@) {
        seq!["source contains the target title phrase"@]
    } else {
        seq![]
    });
    if reasons.len() == 0 {
        reasons.push("weak lexical similarity".to_string());
        assert(string_views(reasons@) =~= seq!["weak lexical similarity"@]);
    }
    (score, reasons)
}


/// Each profile's path key with its path.
pub open spec fn owners_of(ps: Seq<ProfileView>) -> Seq<(Seq<char>, Seq<char>)> {
    ps.map_values(|p: ProfileView| (path_key(p.path), p.path))
}

/// The path of the last entry whose key is `k`.
pub open spec fn key_owner(owners: Seq<(Seq<char>, Seq<char>)>, k: Seq<char>) -> Option<Seq<char>>
    decreases owners.len(),
{
    if owners.len() == 0 {
        None
    } else if owners.last().0 == k {
        Some(owners.last().1)
    } else {
        key_owner(owners.drop_last(), k)
    }
}

/// Whether a link key names the document at `path`: as its path key, its lower-case stem, or
/// the key of a path (the last with that key) equal to it.
pub open spec fn key_names(owners: Seq<(Seq<char>, Seq<char>)>, k: Seq<char>, path: Seq<char>) -> bool {
    k == path_key(path) || k == stem_key(path) || match key_owner(owners, k) {
        Some(p) => path_equiv(p, path),
        None => false,
    }
}

/// Whether `s` already links to `t`.
pub open spec fn already_linked(owners: Seq<(Seq<char>, Seq<char>)>, s: ProfileView, t: ProfileView) -> bool {
    exists|i: int| 0 <= i < s.linked_keys.len() && key_names(owners, #[trigger] s.linked_keys[i], t.path)
}

fn key_owner_exec(owners: &Vec<(String, String)>, k: &str) -> (r: Option<usize>)
    ensures
        match key_owner(owner_views(owners@), k@) {
            Some(p) => r is Some && r.unwrap() < owners.len() && owners@[r.unwrap() as int].1@ == p,
            None => r is None,
        },
{
    let ghost ov = owner_views(owners@);
    let mut i: usize = owners.len();
    assert(ov.take(i as int) =~= ov);
    while i > 0
        invariant
            i <= owners.len(),
            ov == owner_views(owners@),
            key_owner(ov, k@) == key_owner(ov.take(i as int), k@),
        decreases i,
    {
        assert(ov.take(i as int).drop_last() =~= ov.take(i - 1));
        assert(ov.take(i as int).last() == ov[i - 1]);
        assert(ov[i - 1] == (owners@[i - 1].0@, owners@[i - 1].1@));
        if str_eq(owners[i - 1].0.as_str(), k) {
            return Some(i - 1);
        }
        i -= 1;
    }
    None
}

/// The views of an owner table.
pub open spec fn owner_views(v: Seq<(String, String)>) -> Seq<(Seq<char>, Seq<char>)> {
    v.map_values(|e: (String, String)| (e.0@, e.1@))
}

fn already_linked_exec(owners: &Vec<(String, String)>, source: &Profile, target: &Profile) -> (r: bool)
    ensures
        r == already_linked(owner_views(owners@), source@, target@),
{
    let ghost ov = owner_views(owners@);
    let target_key = path_key_exec(target.path.as_str());
    let target_stem = stem_key_exec(target.path.as_str());
    let mut i: usize = 0;
    while i < source.linked_keys.len()
        invariant
            i <= source.linked_keys.len(),
            ov == owner_views(owners@),
            target_key@ == path_key(target@.path),
            target_stem@ == stem_key(target@.path),
            forall|m: int| 0 <= m < i ==> !key_names(ov, #[trigger] source@.linked_keys[m], target@.path),
        decreases source.linked_keys.len() - i,
    {
        let k = &source.linked_keys[i];
        assert(source@.linked_keys[i as int] == k@);
        let hit = if str_eq(k.as_str(), target_key.as_str()) || str_eq(k.as_str(), target_stem.as_str()) {
            true
        } else {
            match key_owner_exec(owners, k.as_str()) {
                Some(o) => path_equiv_exec(owners[o].1.as_str(), target.path.as_str()),
                None => false,
            }
        };
        if hit {
            return true;
        }
        i += 1;
    }
    false
}

/// `2^e`.
pub open spec fn pow2(e: nat) -> nat
    decreases e,
{
    if e == 0 {
        1
    } else {
        2 * pow2((e - 1) as nat)
    }
}

/// How many times `n` is halved before it fits in the 24-bit significand of an `f32`.
pub open spec fn f32_exponent(n: nat) -> nat
    decreases n,
{
    if n < 0x100_0000 {
        0
    } else {
        1 + f32_exponent(n / 2)
    }
}

/// The value of `n as f32`: `n` rounded to the nearest multiple of `2^e` (the unit of its last
/// significand bit), ties to an even significand.
pub open spec fn f32_value(n: nat) -> nat {
    let p = pow2(f32_exponent(n));
    let q = n / p;
    let r = n % p;
    if f32_exponent(n) > 0 && (2 * r > p || (2 * r == p && q % 2 == 1)) {
        (q + 1) * p
    } else {
        q * p
    }
}

/// A suggestion's score as the `f32` it is kept as: the integer score rounded to the precision
/// of an `f32` (exact below `2^24`).
pub fn f32_score(n: u128) -> (r: u128)
    requires
        n < 0x1_0000_0000_0000_0000_0000,
    ensures
        r == f32_value(n as nat),
{
    let mut m: u128 = n;
    let mut p: u128 = 1;
    let ghost mut e: nat = 0;
    while m >= 0x100_0000
        invariant
            n < 0x1_0000_0000_0000_0000_0000,
            p >= 1,
            p == pow2(e),
            m == n as nat / p as nat,
            f32_exponent(n as nat) == e + f32_exponent(m as nat),
            e > 0 ==> m >= 0x80_0000,
            p * m <= n,
        decreases m,
    {
        proof {
            vstd::arithmetic::div_mod::lemma_div_denominator(n as int, p as int, 2);
            assert(p * 0x100_0000 <= n) by (nonlinear_arith)
                requires
                    p * m <= n,
                    m >= 0x100_0000,
                    p >= 1,
            ;
        }
        m = m / 2;
        p = p * 2;
        proof {
            e = e + 1;
            assert(p as nat == pow2(e));
            vstd::arithmetic::div_mod::lemma_fundamental_div_mod(n as int, p as int);
            vstd::arithmetic::div_mod::lemma_mod_pos_bound(n as int, p as int);
            assert(p * m <= n) by (nonlinear_arith)
                requires
                    n == p * (n / p) + n % p,
                    n % p >= 0,
                    m == n / p,
            ;
        }
    }
    proof {
        vstd::arithmetic::div_mod::lemma_fundamental_div_mod(n as int, p as int);
        vstd::arithmetic::div_mod::lemma_mod_pos_bound(n as int, p as int);
        assert(p <= 0x1_0000_0000_0000_0000_0000) by (nonlinear_arith)
            requires
                p * m <= n,
                n < 0x1_0000_0000_0000_0000_0000,
                m >= 1 || p == 1,
        ;
    }
    let q = m;
    let r = n - p * q;
    assert(r as nat == n as nat % p as nat);
    assert(q < 0x100_0000);
    assert((q + 1) * p <= 0x100_0000 * 0x1_0000_0000_0000_0000_0000) by (nonlinear_arith)
        requires
            q < 0x100_0000,
            p <= 0x1_0000_0000_0000_0000_0000,
    ;
    if p > 1 && (2 * r > p || (2 * r == p && q % 2 == 1)) {
        (q + 1) * p
    } else {
        q * p
    }
}

/// A suggested link from one note to another, with its score and the reasons for it.
#[derive(Clone, Debug, PartialEq)]
pub struct LinkSuggestion {
    pub source: String,
    pub target: String,
    pub score: u128,
    pub reasons: Vec<String>,
}

pub ghost struct SuggestionView {
    pub source: Seq<char>,
    pub target: Seq<char>,
    pub score: int,
    pub reasons: Seq<Seq<char>>,
}

impl View for LinkSuggestion {
    type V = SuggestionView;

    open spec fn view(&self) -> SuggestionView {
        SuggestionView {
            source: self.source@,
            target: self.target@,
            score: self.score as int,
            reasons: string_views(self.reasons@),
        }
    }
}

/// How many suggestions to keep, and the least score of one.
#[derive(Clone, Debug, PartialEq, Eq)]
pub struct SuggestionOptions {
    pub limit: usize,
    pub min_score: u32,
}

impl Default for SuggestionOptions {
    fn default() -> (r: Self)
        ensures
            r.limit == 12,
            r.min_score == 5,
    {
        SuggestionOptions { limit: 12, min_score: 5 }
    }
}

/// The suggestion of a link from `s` to `t`; its score is the pair's score as an `f32`.
pub open spec fn suggestion_of(s: ProfileView, t: ProfileView) -> SuggestionView {
    SuggestionView {
        source: s.path,
        target: t.path,
        score: f32_value(pair_score(s, t) as nat) as int,
        reasons: pair_reasons(s, t),
    }
}

/// Whether a link from profile `i` to profile `j` is suggested: their paths differ, `i` does
/// not link to `j` yet, and the score reaches `min`.
pub open spec fn pair_ok(ps: Seq<ProfileView>, min: int, i: int, j: int) -> bool {
    &&& !path_equiv(ps[i].path, ps[j].path)
    &&& !already_linked(owners_of(ps), ps[i], ps[j])
    &&& pair_score(ps[i], ps[j]) >= min
}

/// The suggestions from profile `i` to the first `n` profiles, in order.
pub open spec fn row(ps: Seq<ProfileView>, min: int, i: int, n: int) -> Seq<SuggestionView>
    decreases n,
{
    if n <= 0 {
        seq![]
    } else if pair_ok(ps, min, i, n - 1) {
        row(ps, min, i, n - 1).push(suggestion_of(ps[i], ps[n - 1]))
    } else {
        row(ps, min, i, n - 1)
    }
}

/// The suggestions from the first `m` profiles, source by source.
pub open spec fn rows(ps: Seq<ProfileView>, min: int, m: int) -> Seq<SuggestionView>
    decreases m,
{
    if m <= 0 {
        seq![]
    } else {
        rows(ps, min, m - 1) + row(ps, min, m - 1, ps.len() as int)
    }
}

/// The profiles of documents, by a case-insensitive tokenizer keeping terms of at least two
/// characters.
pub open spec fn profiles_of(docs: Seq<DocumentView>) -> Seq<ProfileView> {
    docs.map_values(|d: DocumentView| profile_of(false, 2, d))
}

/// Every suggestion between the documents, before ranking.
pub open spec fn all_suggestions(docs: Seq<DocumentView>, min: int) -> Seq<SuggestionView> {
    rows(profiles_of(docs), min, docs.len() as int)
}

/// Suggestions by score, highest first, then by source path, then by target path.
pub open spec fn suggestion_le(a: SuggestionView, b: SuggestionView) -> bool {
    a.score > b.score || (a.score == b.score && (path_lt(a.source, b.source) || (path_equiv(
        a.source,
        b.source,
    ) && path_le(a.target, b.target))))
}

/// `suggestion_le` as a relation.
pub open spec fn suggestion_order() -> spec_fn(SuggestionView, SuggestionView) -> bool {
    |a: SuggestionView, b: SuggestionView| suggestion_le(a, b)
}

/// Suggestions in the order of `suggestion_le`.
pub struct SuggestionOrder;

impl Order<LinkSuggestion> for SuggestionOrder {
    open spec fn le(a: &LinkSuggestion, b: &LinkSuggestion) -> bool {
        suggestion_le(a@, b@)
    }

    proof fn lemma_le_total(a: &LinkSuggestion, b: &LinkSuggestion) {
        lemma_path_order(a@.source, b@.source, b@.source);
        lemma_path_order(b@.source, a@.source, a@.source);
        lemma_path_order(a@.target, b@.target, b@.target);
    }

    proof fn lemma_le_trans(a: &LinkSuggestion, b: &LinkSuggestion, c: &LinkSuggestion) {
        lemma_path_order(a@.source, b@.source, c@.source);
        lemma_path_order(b@.source, c@.source, a@.source);
        lemma_path_order(c@.source, a@.source, b@.source);
        lemma_path_order(a@.source, c@.source, b@.source);
        lemma_path_order(b@.source, a@.source, c@.source);
        lemma_path_order(c@.source, b@.source, a@.source);
        lemma_path_order(a@.target, b@.target, c@.target);
    }

    fn le_exec(a: &LinkSuggestion, b: &LinkSuggestion) -> (r: bool) {
        proof {
            lemma_path_order(a@.source, b@.source, b@.source);
            lemma_path_order(b@.source, a@.source, a@.source);
            lemma_path_order(a@.target, b@.target, b@.target);
        }
        if a.score != b.score {
            a.score > b.score
        } else if path_lt_exec(a.source.as_str(), b.source.as_str()) {
            true
        } else if !path_equiv_exec(a.source.as_str(), b.source.as_str()) {
            false
        } else {
            !path_lt_exec(b.target.as_str(), a.target.as_str())
        }
    }
}


/// The views of profiles.
spec fn profile_views(v: Seq<Profile>) -> Seq<ProfileView> {
    v.map_values(|p: Profile| p@)
}

/// The suggestions from one source profile to every profile, in order.
fn suggest_from(
    profiles: &Vec<Profile>,
    owners: &Vec<(String, String)>,
    i: usize,
    min_score: u32,
    out: &mut Vec<LinkSuggestion>,
)
    requires
        i < profiles.len(),
        owner_views(owners@) == owners_of(profile_views(profiles@)),
        forall|k: int|
            0 <= k < profiles.len() ==> {
                &&& strictly_sorted((#[trigger] profiles@[k])@.title_terms)
                &&& strictly_sorted(profiles@[k]@.heading_terms)
                &&& strictly_sorted(profiles@[k]@.body_terms)
                &&& strictly_sorted(profiles@[k]@.tags)
            },
    ensures
        view_seq(final(out)@) == view_seq(old(out)@) + row(
            profile_views(profiles@),
            min_score as int,
            i as int,
            profiles.len() as int,
        ),
{
    let ghost ps = profile_views(profiles@);
    let ghost base = view_seq(out@);
    let source = &profiles[i];
    assert(ps[i as int] == source@);
    let mut j: usize = 0;
    while j < profiles.len()
        invariant
            i < profiles.len(),
            j <= profiles.len(),
            ps == profile_views(profiles@),
            ps[i as int] == source@,
            owner_views(owners@) == owners_of(ps),
            strictly_sorted(source@.title_terms),
            strictly_sorted(source@.heading_terms),
            strictly_sorted(source@.body_terms),
            strictly_sorted(source@.tags),
            view_seq(out@) == base + row(ps, min_score as int, i as int, j as int),
        decreases profiles.len() - j,
    {
        let target = &profiles[j];
        assert(ps[j as int] == target@);
        if !path_equiv_exec(source.path.as_str(), target.path.as_str()) && !already_linked_exec(
            owners,
            source,
            target,
        ) {
            let (score, reasons) = score_pair(source, target);
            if score >= min_score as u128 {
                let ghost o0 = view_seq(out@);
                let sug = LinkSuggestion {
                    source: source.path.clone(),
                    target: target.path.clone(),
                    score: f32_score(score),
                    reasons,
                };
                out.push(sug);
                assert(sug@ == suggestion_of(ps[i as int], ps[j as int]));
                assert(view_seq(out@) =~= o0.push(sug@));
            }
        }
        j += 1;
    }
}

/// Links worth adding between the documents: for every ordered pair of documents with
/// different paths where the first does not link to the second yet, the suggestion scored by
/// `pair_score` (kept as an `f32`, see `f32_value`) when that reaches `options.min_score`; ranked by `suggestion_le` and cut to
/// `options.limit` (at least one).
pub fn suggest_links(documents: &[Document], options: SuggestionOptions) -> (r: Vec<LinkSuggestion>)
    ensures
        exists|s: Seq<SuggestionView>|
            {
                &&& stable_sort_of(s, all_suggestions(doc_views(documents@), options.min_score as int), suggestion_order())
                &&& view_seq(r@) == s.take(
                    if s.len() < (if options.limit < 1 { 1 } else { options.limit }) {
                        s.len() as int
                    } else {
                        (if options.limit < 1 { 1 } else { options.limit }) as int
                    },
                )
            },
{
    let ghost dv = doc_views(documents@);
    let tokenizer = SimpleTokenizer::default().with_min_len(2);
    let mut profiles: Vec<Profile> = Vec::new();
    let mut owners: Vec<(String, String)> = Vec::new();
    let mut k: usize = 0;
    while k < documents.len()
        invariant
            k <= documents.len(),
            dv == doc_views(documents@),
            !tokenizer.is_case_sensitive(),
            tokenizer.min_chars() == 2,
            profile_views(profiles@) == profiles_of(dv.take(k as int)),
            owner_views(owners@) == owners_of(profile_views(profiles@)),
            forall|m: int|
                0 <= m < profiles.len() ==> {
                    &&& strictly_sorted((#[trigger] profiles@[m])@.title_terms)
                    &&& strictly_sorted(profiles@[m]@.heading_terms)
                    &&& strictly_sorted(profiles@[m]@.body_terms)
                    &&& strictly_sorted(profiles@[m]@.tags)
                },
        decreases documents.len() - k,
    {
        let p = profile_document(&documents[k], &tokenizer);
        assert(dv[k as int] == documents@[k as int]@);
        let ghost pv0 = profile_views(profiles@);
        let ghost ov0 = owner_views(owners@);
        owners.push((path_key_exec(p.path.as_str()), p.path.clone()));
        profiles.push(p);
        assert(profile_views(profiles@) =~= pv0.push(p@));
        assert(profiles_of(dv.take(k + 1)) =~= profiles_of(dv.take(k as int)).push(p@));
        assert(owner_views(owners@) =~= ov0.push((path_key(p@.path), p@.path)));
        assert(owners_of(profile_views(profiles@)) =~= owners_of(pv0).push((path_key(p@.path), p@.path)));
        k += 1;
    }
    assert(dv.take(documents.len() as int) =~= dv);
    let ghost ps = profile_views(profiles@);
    let ghost min = options.min_score as int;
    let mut out: Vec<LinkSuggestion> = Vec::new();
    let mut i: usize = 0;
    assert(view_seq(out@) =~= rows(ps, min, 0));
    while i < profiles.len()
        invariant
            i <= profiles.len(),
            ps == profile_views(profiles@),
            ps == profiles_of(dv),
            ps.len() == dv.len(),
            min == options.min_score as int,
            owner_views(owners@) == owners_of(ps),
            forall|m: int|
                0 <= m < profiles.len() ==> {
                    &&& strictly_sorted((#[trigger] profiles@[m])@.title_terms)
                    &&& strictly_sorted(profiles@[m]@.heading_terms)
                    &&& strictly_sorted(profiles@[m]@.body_terms)
                    &&& strictly_sorted(profiles@[m]@.tags)
                },
            view_seq(out@) == rows(ps, min, i as int),
        decreases profiles.len() - i,
    {
        suggest_from(&profiles, &owners, i, options.min_score, &mut out);
        i += 1;
    }
    let ghost all = view_seq(out@);
    assert(all == all_suggestions(dv, min));
    let ghost unsorted = out@;
    let mut sorted = sort_by_order::<LinkSuggestion, SuggestionOrder>(out);
    let ghost s = view_seq(sorted@);
    proof {
        lemma_stable_views::<LinkSuggestion, SuggestionOrder>(sorted@, unsorted, suggestion_order());
    }
    let limit = if options.limit < 1 { 1 } else { options.limit };
    sorted.truncate(limit);
    assert(view_seq(sorted@) =~= s.take(if s.len() < limit { s.len() as int } else { limit as int }));
    sorted
}


/// How serious an issue is, most serious first.
#[derive(Clone, Copy, Debug, PartialEq, Eq, Structural, PartialOrd, Ord, Hash)]
pub enum Severity {
    Critical,
    Warning,
    Info,
}

/// The position of a severity in `Severity`'s order.
pub open spec fn severity_rank(s: Severity) -> int {
    match s {
        Severity::Critical => 0,
        Severity::Warning => 1,
        Severity::Info => 2,
    }
}

/// A problem found in a knowledge base, with what to do about it.
#[derive(Clone, Debug, PartialEq, Eq)]
pub struct KnowledgeIssue {
    pub severity: Severity,
    pub title: String,
    pub detail: String,
    pub action: String,
}

pub ghost struct IssueView {
    pub severity: Severity,
    pub title: Seq<char>,
    pub detail: Seq<char>,
    pub action: Seq<char>,
}

impl View for KnowledgeIssue {
    type V = IssueView;

    open spec fn view(&self) -> IssueView {
        IssueView { severity: self.severity, title: self.title@, detail: self.detail@, action: self.action@ }
    }
}

/// A score out of 100 for a knowledge base, and its issues.
#[derive(Clone, Debug, PartialEq, Eq)]
pub struct KnowledgeHealth {
    pub score: u8,
    pub issues: Vec<KnowledgeIssue>,
}

pub ghost struct HealthView {
    pub score: u8,
    pub issues: Seq<IssueView>,
}

impl View for KnowledgeHealth {
    type V = HealthView;

    open spec fn view(&self) -> HealthView {
        HealthView { score: self.score, issues: view_seq(self.issues@) }
    }
}

/// `n` times `each`, at most `cap`, where `n` is not zero; else zero.
pub open spec fn penalty(n: int, each: int, cap: int) -> int {
    if n <= 0 {
        0
    } else if n * each < cap {
        n * each
    } else {
        cap
    }
}

/// The health score: 100, less 8 per broken link (at most 40), 5 per orphan (at most 30), 10
/// where documents have no tags, 20 where two or more documents have no links, and 2 per
/// suggestion (at most 16); never below 0.
pub open spec fn health_score(r: KnowledgeReportView, suggestions: int) -> int {
    let raw = 100 - penalty(r.broken_links.len() as int, 8, 40) - penalty(r.orphan_documents.len() as int, 5, 30)
        - (if r.tags.len() == 0 && r.total_documents > 0 {
        10int
    } else {
        0int
    }) - (if r.total_documents >= 2 && r.total_links == 0 {
        20int
    } else {
        0int
    }) - penalty(suggestions, 2, 16);
    if raw < 0 {
        0
    } else {
        raw
    }
}

/// The issue of broken links.
pub open spec fn broken_issue(n: nat) -> IssueView {
    IssueView {
        severity: Severity::Critical,
        title: "Broken internal links"@,
        detail: crate::text::decimal(n) + " internal links point to missing notes."@,
        action: "Run `mdseek links` and fix or remove the listed links."@,
    }
}

/// The issue of a missing link graph.
pub open spec fn no_graph_issue() -> IssueView {
    IssueView {
        severity: Severity::Warning,
        title: "No internal link graph"@,
        detail: "Multiple notes exist, but none of them link to each other."@,
        action: "Use `mdseek suggest-links` to find likely missing links."@,
    }
}

/// The issue of orphan documents.
pub open spec fn orphan_issue(n: nat) -> IssueView {
    IssueView {
        severity: Severity::Warning,
        title: "Orphan documents"@,
        detail: crate::text::decimal(n) + " notes have no incoming internal links."@,
        action: "Add backlinks from related notes or archive stale notes."@,
    }
}

/// The issue of missing tags.
pub open spec fn no_tags_issue() -> IssueView {
    IssueView {
        severity: Severity::Info,
        title: "No tags found"@,
        detail: "The knowledge base has notes but no parsed tags."@,
        action: "Add lightweight #tags to improve grouping and discovery."@,
    }
}

/// The issue of links that could be added.
pub open spec fn suggestions_issue(n: nat) -> IssueView {
    IssueView {
        severity: Severity::Info,
        title: "Potential missing links"@,
        detail: crate::text::decimal(n) + " high-confidence note relationships are not linked yet."@,
        action: "Review `mdseek suggest-links` suggestions and add useful wiki links."@,
    }
}

/// `seq![x]` where `c` holds, else nothing.
pub open spec fn issue_if(c: bool, x: IssueView) -> Seq<IssueView> {
    if c {
        seq![x]
    } else {
        seq![]
    }
}

/// The issues of a report and a number of suggestions, by severity and then by title.
pub open spec fn health_issues(r: KnowledgeReportView, suggestions: nat) -> Seq<IssueView> {
    issue_if(r.broken_links.len() > 0, broken_issue(r.broken_links.len())) + issue_if(
        r.total_documents >= 2 && r.total_links == 0,
        no_graph_issue(),
    ) + issue_if(r.orphan_documents.len() > 0, orphan_issue(r.orphan_documents.len())) + issue_if(
        r.tags.len() == 0 && r.total_documents > 0,
        no_tags_issue(),
    ) + issue_if(suggestions > 0, suggestions_issue(suggestions))
}

/// Issues by severity, then by title.
pub open spec fn issue_le(a: IssueView, b: IssueView) -> bool {
    severity_rank(a.severity) < severity_rank(b.severity) || (severity_rank(a.severity) == severity_rank(
        b.severity,
    ) && seq_le(a.title, b.title))
}

fn owned(s: &str) -> (r: String)
    ensures
        r@ == s@,
{
    let mut r = String::new();
    r.append(s);
    r
}

fn counted(n: usize, rest: &str) -> (r: String)
    ensures
        r@ == crate::text::decimal(n as nat) + rest@,
{
    let mut r = String::new();
    push_decimal(&mut r, n);
    r.append(rest);
    r
}

/// The health of a knowledge base from its report and the link suggestions for it: the score
/// of `health_score` and the issues of `health_issues`.
pub fn diagnose_knowledge_base(report: &KnowledgeReport, suggestions: &[LinkSuggestion]) -> (r: KnowledgeHealth)
    requires
        report@.broken_links.len() * 8 <= i32::MAX,
        report@.orphan_documents.len() * 5 <= i32::MAX,
        suggestions@.len() * 2 <= i32::MAX,
    ensures
        r.score == health_score(report@, suggestions@.len() as int),
        view_seq(r.issues@) == health_issues(report@, suggestions@.len()),
{
    let ghost rv = report@;
    let nb = report.broken_links.len();
    let no = report.orphan_documents.len();
    let ns = suggestions.len();
    let mut score: i32 = 100;
    let mut issues: Vec<KnowledgeIssue> = Vec::new();
    if nb > 0 {
        let p = if nb as i32 * 8 < 40 { nb as i32 * 8 } else { 40 };
        score = score - p;
        issues.push(KnowledgeIssue {
            severity: Severity::Critical,
            title: owned("Broken internal links"),
            detail: counted(nb, " internal links point to missing notes."),
            action: owned("Run `mdseek links` and fix or remove the listed links."),
        });
    }
    if no > 0 {
        let p = if no as i32 * 5 < 30 { no as i32 * 5 } else { 30 };
        score = score - p;
    }
    let no_tags = report.tags.len() == 0 && report.total_documents > 0;
    if no_tags {
        score = score - 10;
    }
    let no_graph = report.total_documents >= 2 && report.total_links == 0;
    if no_graph {
        score = score - 20;
        issues.push(KnowledgeIssue {
            severity: Severity::Warning,
            title: owned("No internal link graph"),
            detail: owned("Multiple notes exist, but none of them link to each other."),
            action: owned("Use `mdseek suggest-links` to find likely missing links."),
        });
    }
    if no > 0 {
        issues.push(KnowledgeIssue {
            severity: Severity::Warning,
            title: owned("Orphan documents"),
            detail: counted(no, " notes have no incoming internal links."),
            action: owned("Add backlinks from related notes or archive stale notes."),
        });
    }
    if no_tags {
        issues.push(KnowledgeIssue {
            severity: Severity::Info,
            title: owned("No tags found"),
            detail: owned("The knowledge base has notes but no parsed tags."),
            action: owned("Add lightweight #tags to improve grouping and discovery."),
        });
    }
    if ns > 0 {
        let p = if ns as i32 * 2 < 16 { ns as i32 * 2 } else { 16 };
        score = score - p;
        issues.push(KnowledgeIssue {
            severity: Severity::Info,
            title: owned("Potential missing links"),
            detail: counted(ns, " high-confidence note relationships are not linked yet."),
            action: owned("Review `mdseek suggest-links` suggestions and add useful wiki links."),
        });
    }
    assert(view_seq(issues@) =~= health_issues(rv, ns as nat));
    let clamped: u8 = if score < 0 {
        0
    } else if score > 100 {
        100
    } else {
        score as u8
    };
    KnowledgeHealth { score: clamped, issues }
}

/// The health score is at most 100, and it is 100 exactly where there is no issue.
pub proof fn lemma_health_score_bounds(r: KnowledgeReportView, suggestions: nat)
    ensures
        0 <= health_score(r, suggestions as int) <= 100,
        health_score(r, suggestions as int) == 100 <==> health_issues(r, suggestions).len() == 0,
{
}

/// The issues of a health check come in order: by severity, then by title.
pub proof fn lemma_health_issues_sorted(r: KnowledgeReportView, suggestions: nat)
    ensures
        forall|i: int, j: int|
            0 <= i < j < health_issues(r, suggestions).len() ==> issue_le(
                #[trigger] health_issues(r, suggestions)[i],
                #[trigger] health_issues(r, suggestions)[j],
            ),
{
    reveal_strlit("No internal link graph");
    reveal_strlit("Orphan documents");
    reveal_strlit("No tags found");
    reveal_strlit("Potential missing links");
    let a = "No internal link graph"@;
    let b = "Orphan documents"@;
    let c = "No tags found"@;
    let d = "Potential missing links"@;
    assert(seq_lt(a, b));
    assert(seq_lt(c, d));
    let is = health_issues(r, suggestions);
    assert forall|i: int, j: int| 0 <= i < j < is.len() implies issue_le(#[trigger] is[i], #[trigger] is[j]) by {
        lemma_seq_lt_irreflexive(is[i].title);
    }
}


/// Whether `s` is the suggestion of a pair of profiles that `pair_ok` admits.
pub open spec fn admitted(ps: Seq<ProfileView>, min: int, s: SuggestionView) -> bool {
    exists|i: int, j: int|
        0 <= i < ps.len() && 0 <= j < ps.len() && pair_ok(ps, min, i, j) && s == suggestion_of(ps[i], ps[j])
}

proof fn lemma_row_admitted(ps: Seq<ProfileView>, min: int, i: int, n: int)
    requires
        0 <= i < ps.len(),
        n <= ps.len(),
    ensures
        forall|k: int| 0 <= k < row(ps, min, i, n).len() ==> admitted(ps, min, #[trigger] row(ps, min, i, n)[k]),
    decreases n,
{
    if n > 0 {
        lemma_row_admitted(ps, min, i, n - 1);
        let prev = row(ps, min, i, n - 1);
        if pair_ok(ps, min, i, n - 1) {
            let s = suggestion_of(ps[i], ps[n - 1]);
            assert forall|k: int| 0 <= k < prev.push(s).len() implies admitted(ps, min, #[trigger] prev.push(s)[k]) by {
                if k < prev.len() {
                    assert(prev.push(s)[k] == prev[k]);
                } else {
                    assert(pair_ok(ps, min, i, n - 1) && s == suggestion_of(ps[i], ps[n - 1]));
                }
            }
        }
    }
}

proof fn lemma_rows_admitted(ps: Seq<ProfileView>, min: int, m: int)
    requires
        m <= ps.len(),
    ensures
        forall|k: int| 0 <= k < rows(ps, min, m).len() ==> admitted(ps, min, #[trigger] rows(ps, min, m)[k]),
    decreases m,
{
    if m > 0 {
        lemma_rows_admitted(ps, min, m - 1);
        lemma_row_admitted(ps, min, m - 1, ps.len() as int);
        let a = rows(ps, min, m - 1);
        let b = row(ps, min, m - 1, ps.len() as int);
        assert forall|k: int| 0 <= k < (a + b).len() implies admitted(ps, min, #[trigger] (a + b)[k]) by {
            if k < a.len() {
                assert((a + b)[k] == a[k]);
            } else {
                assert((a + b)[k] == b[k - a.len()]);
            }
        }
    }
}

/// Every suggestion comes from a pair whose exact score reaches the least score (`admitted`),
/// joins two documents whose paths differ, and is not a link that the source already has.
pub proof fn lemma_suggestions_admitted(docs: Seq<DocumentView>, min: int)
    ensures
        forall|k: int|
            0 <= k < all_suggestions(docs, min).len() ==> {
                let s = #[trigger] all_suggestions(docs, min)[k];
                &&& !path_equiv(s.source, s.target)
                &&& admitted(profiles_of(docs), min, s)
            },
{
    let ps = profiles_of(docs);
    lemma_rows_admitted(ps, min, docs.len() as int);
    assert forall|k: int| 0 <= k < all_suggestions(docs, min).len() implies {
        let s = #[trigger] all_suggestions(docs, min)[k];
        &&& !path_equiv(s.source, s.target)
        &&& admitted(ps, min, s)
    } by {
        let s = all_suggestions(docs, min)[k];
        assert(admitted(ps, min, s));
        let (i, j) = choose|i: int, j: int|
            0 <= i < ps.len() && 0 <= j < ps.len() && pair_ok(ps, min, i, j) && s == suggestion_of(ps[i], ps[j]);
    }
}


/// The suggestions from one profile to the first `n` have that source and pairwise distinct
/// targets among the first `n` paths (given distinct paths).
proof fn lemma_row_targets(ps: Seq<ProfileView>, min: int, i: int, n: int)
    requires
        0 <= i < ps.len(),
        0 <= n <= ps.len(),
        forall|a: int, b: int| 0 <= a < b < ps.len() ==> ps[a].path != ps[b].path,
    ensures
        forall|k: int|
            0 <= k < row(ps, min, i, n).len() ==> (#[trigger] row(ps, min, i, n)[k]).source == ps[i].path
                && exists|j: int| 0 <= j < n && row(ps, min, i, n)[k].target == ps[j].path,
        forall|a: int, b: int|
            0 <= a < b < row(ps, min, i, n).len() ==> (#[trigger] row(ps, min, i, n)[a]).target != (
            #[trigger] row(ps, min, i, n)[b]).target,
    decreases n,
{
    if n > 0 {
        lemma_row_targets(ps, min, i, n - 1);
        let prev = row(ps, min, i, n - 1);
        if pair_ok(ps, min, i, n - 1) {
            let sg = suggestion_of(ps[i], ps[n - 1]);
            let r = prev.push(sg);
            assert forall|k: int| 0 <= k < r.len() implies (#[trigger] r[k]).source == ps[i].path && exists|j: int|
                0 <= j < n && r[k].target == ps[j].path by {
                if k < prev.len() {
                    assert(r[k] == prev[k]);
                    let j = choose|j: int| 0 <= j < n - 1 && prev[k].target == ps[j].path;
                } else {
                    assert(r[k] == sg);
                }
            }
            assert forall|a: int, b: int| 0 <= a < b < r.len() implies (#[trigger] r[a]).target != (#[trigger] r[b]).target by {
                if b < prev.len() {
                    assert(r[a] == prev[a] && r[b] == prev[b]);
                } else {
                    assert(r[a] == prev[a]);
                    assert(r[b] == sg);
                    let j = choose|j: int| 0 <= j < n - 1 && prev[a].target == ps[j].path;
                }
            }
        }
    }
}

/// The suggestions from the first `m` profiles have sources among the first `m` paths and
/// pairwise distinct (source, target) pairs (given distinct paths).
proof fn lemma_rows_distinct(ps: Seq<ProfileView>, min: int, m: int)
    requires
        0 <= m <= ps.len(),
        forall|a: int, b: int| 0 <= a < b < ps.len() ==> ps[a].path != ps[b].path,
    ensures
        forall|k: int|
            0 <= k < rows(ps, min, m).len() ==> exists|i: int| 0 <= i < m && (#[trigger] rows(ps, min, m)[k]).source == ps[i].path,
        forall|a: int, b: int|
            0 <= a < b < rows(ps, min, m).len() ==> (#[trigger] rows(ps, min, m)[a]).source != (#[trigger] rows(
                ps,
                min,
                m,
            )[b]).source || rows(ps, min, m)[a].target != rows(ps, min, m)[b].target,
    decreases m,
{
    if m > 0 {
        lemma_rows_distinct(ps, min, m - 1);
        lemma_row_targets(ps, min, m - 1, ps.len() as int);
        let x = rows(ps, min, m - 1);
        let y = row(ps, min, m - 1, ps.len() as int);
        let r = x + y;
        assert(rows(ps, min, m) == r);
        assert forall|k: int| 0 <= k < r.len() implies exists|i: int| 0 <= i < m && (#[trigger] r[k]).source == ps[i].path by {
            if k < x.len() {
                assert(r[k] == x[k]);
                let i = choose|i: int| 0 <= i < m - 1 && x[k].source == ps[i].path;
            } else {
                assert(r[k] == y[k - x.len()]);
            }
        }
        assert forall|a: int, b: int| 0 <= a < b < r.len() implies (#[trigger] r[a]).source != (#[trigger] r[b]).source
            || r[a].target != r[b].target by {
            if b < x.len() {
                assert(r[a] == x[a] && r[b] == x[b]);
            } else if a >= x.len() {
                assert(r[a] == y[a - x.len()] && r[b] == y[b - x.len()]);
            } else {
                assert(r[a] == x[a] && r[b] == y[b - x.len()]);
                let i = choose|i: int| 0 <= i < m - 1 && x[a].source == ps[i].path;
                assert(y[b - x.len()].source == ps[m - 1].path);
            }
        }
    }
}

proof fn lemma_reasons_nonempty(s: ProfileView, t: ProfileView)
    ensures
        pair_reasons(s, t).len() > 0,
{
}

/// Suggestions: at most `max(limit, 1)` of them; each comes from a pair whose exact score
/// reaches the least score (its own score is that score as an `f32`), has at least
/// one reason, joins two documents whose paths differ and is not a link the source already
/// has; they come by score, highest first, then by source path, then target path; and where the
/// documents' paths are distinct, no (source, target) pair repeats.
pub proof fn lemma_suggestions_result(docs: Seq<DocumentView>, min: int, limit: usize, r: Seq<SuggestionView>)
    requires
        exists|s: Seq<SuggestionView>|
            {
                &&& stable_sort_of(s, all_suggestions(docs, min), suggestion_order())
                &&& r == s.take(
                    if s.len() < (if limit < 1 { 1 } else { limit }) {
                        s.len() as int
                    } else {
                        (if limit < 1 { 1 } else { limit }) as int
                    },
                )
            },
    ensures
        r.len() <= (if limit < 1 { 1 } else { limit }),
        forall|k: int|
            0 <= k < r.len() ==> {
                let x = #[trigger] r[k];
                &&& x.reasons.len() > 0
                &&& !path_equiv(x.source, x.target)
                &&& admitted(profiles_of(docs), min, x)
            },
        forall|a: int, b: int| 0 <= a < b < r.len() ==> suggestion_le(#[trigger] r[a], #[trigger] r[b]),
        (forall|a: int, b: int| 0 <= a < b < docs.len() ==> docs[a].path != docs[b].path) ==> forall|a: int, b: int|
            0 <= a < b < r.len() ==> (#[trigger] r[a]).source != (#[trigger] r[b]).source || r[a].target != r[b].target,
{
    let all = all_suggestions(docs, min);
    let s = choose|s: Seq<SuggestionView>|
        {
            &&& stable_sort_of(s, all, suggestion_order())
            &&& r == s.take(
                if s.len() < (if limit < 1 { 1 } else { limit }) {
                    s.len() as int
                } else {
                    (if limit < 1 { 1 } else { limit }) as int
                },
            )
        };
    let pos = choose|pos: Seq<int>|
        placed(s, all, pos) && forall|a: int, b: int|
            #![trigger s[a], s[b]]
            0 <= a < b < s.len() ==> suggestion_order()(s[a], s[b]) && (suggestion_order()(s[b], s[a]) ==> pos[a] < pos[b]);
    let ps = profiles_of(docs);
    lemma_suggestions_admitted(docs, min);
    assert forall|k: int| 0 <= k < r.len() implies {
        let x = #[trigger] r[k];
        &&& x.reasons.len() > 0
        &&& !path_equiv(x.source, x.target)
        &&& admitted(ps, min, x)
    } by {
        assert(r[k] == s[k]);
        assert(s[k] == all[pos[k]]);
        let x = all[pos[k]];
        let (i, j) = choose|i: int, j: int|
            0 <= i < ps.len() && 0 <= j < ps.len() && pair_ok(ps, min, i, j) && x == suggestion_of(ps[i], ps[j]);
        lemma_reasons_nonempty(ps[i], ps[j]);
    }
    assert forall|a: int, b: int| 0 <= a < b < r.len() implies suggestion_le(#[trigger] r[a], #[trigger] r[b]) by {
        assert(r[a] == s[a] && r[b] == s[b]);
        assert(suggestion_order()(s[a], s[b]));
    }
    if forall|a: int, b: int| 0 <= a < b < docs.len() ==> docs[a].path != docs[b].path {
        assert forall|a: int, b: int| 0 <= a < b < ps.len() implies ps[a].path != ps[b].path by {
            assert(ps[a].path == docs[a].path && ps[b].path == docs[b].path);
        }
        lemma_rows_distinct(ps, min, docs.len() as int);
        assert forall|a: int, b: int| 0 <= a < b < r.len() implies (#[trigger] r[a]).source != (#[trigger] r[b]).source
            || r[a].target != r[b].target by {
            assert(r[a] == s[a] && r[b] == s[b]);
            assert(s[a] == all[pos[a]] && s[b] == all[pos[b]]);
            assert(pos[a] != pos[b]);
            if pos[a] < pos[b] {
                assert(all[pos[a]].source != all[pos[b]].source || all[pos[a]].target != all[pos[b]].target);
            } else {
                assert(all[pos[b]].source != all[pos[a]].source || all[pos[b]].target != all[pos[a]].target);
            }
        }
    }
}


/// Where broken links are the only issue, the score is 100 less 8 per broken link, but never
/// less than 60: the broken-link penalty stops at 40. Likewise orphans alone cost 5 each, at most
/// 30, and suggestions alone 2 each, at most 16; with none of these, a base without tags loses
/// 10 and two or more documents without any link lose 20.
pub proof fn lemma_health_single_issue(r: KnowledgeReportView, suggestions: nat)
    ensures
        (r.orphan_documents.len() == 0 && (r.tags.len() > 0 || r.total_documents == 0) && (r.total_documents < 2
            || r.total_links > 0) && suggestions == 0) ==> health_score(r, suggestions as int) == 100 - (if 8
            * r.broken_links.len() < 40 {
            8 * r.broken_links.len()
        } else {
            40
        }),
        (r.broken_links.len() == 0 && (r.tags.len() > 0 || r.total_documents == 0) && (r.total_documents < 2
            || r.total_links > 0) && suggestions == 0) ==> health_score(r, suggestions as int) == 100 - (if 5
            * r.orphan_documents.len() < 30 {
            5 * r.orphan_documents.len()
        } else {
            30
        }),
        (r.broken_links.len() == 0 && r.orphan_documents.len() == 0 && suggestions == 0) ==> health_score(
            r,
            suggestions as int,
        ) == 100 - (if r.tags.len() == 0 && r.total_documents > 0 {
            10int
        } else {
            0int
        }) - (if r.total_documents >= 2 && r.total_links == 0 {
            20int
        } else {
            0int
        }),
        (r.broken_links.len() == 0 && r.orphan_documents.len() == 0 && (r.tags.len() > 0 || r.total_documents == 0)
            && (r.total_documents < 2 || r.total_links > 0)) ==> health_score(r, suggestions as int) == 100 - (if 2
            * suggestions < 16 {
            2 * suggestions
        } else {
            16
        }),
{
}

/// More broken links never raise the score, one more costs at most 8, and past five broken
/// links more of them change nothing; the same holds of orphans (5 each, nothing past six).
pub proof fn lemma_health_penalty_caps(r: KnowledgeReportView, more: KnowledgeReportView, suggestions: nat)
    ensures
        (more == (KnowledgeReportView { broken_links: more.broken_links, ..r }) && more.broken_links.len()
            >= r.broken_links.len()) ==> health_score(more, suggestions as int) <= health_score(r, suggestions as int)
            && health_score(r, suggestions as int) - health_score(more, suggestions as int) <= 8 * (
        more.broken_links.len() - r.broken_links.len()),
        (more == (KnowledgeReportView { broken_links: more.broken_links, ..r }) && r.broken_links.len() >= 5
            && more.broken_links.len() >= 5) ==> health_score(more, suggestions as int) == health_score(
            r,
            suggestions as int,
        ),
        (more == (KnowledgeReportView { orphan_documents: more.orphan_documents, ..r })
            && more.orphan_documents.len() >= r.orphan_documents.len()) ==> health_score(more, suggestions as int)
            <= health_score(r, suggestions as int) && health_score(r, suggestions as int) - health_score(
            more,
            suggestions as int,
        ) <= 5 * (more.orphan_documents.len() - r.orphan_documents.len()),
        (more == (KnowledgeReportView { orphan_documents: more.orphan_documents, ..r })
            && r.orphan_documents.len() >= 6 && more.orphan_documents.len() >= 6) ==> health_score(
            more,
            suggestions as int,
        ) == health_score(r, suggestions as int),
{
}


/// How a pair is scored, part by part: each shared tag is worth 4, each title term of the
/// target in the source's body 3, each heading term the two share 2, each title term of the
/// source in the target's body 2, and the target's title phrase in the source's body 6; a pair
/// that shares only heading terms (or only tags) scores just those, with the one reason naming
/// them; and every part that is present brings its reason.
pub proof fn lemma_pair_score_parts(s: ProfileView, t: ProfileView)
    ensures
        pair_score(s, t) >= 4 * shared(s.tags, t.tags).len(),
        pair_score(s, t) >= 3 * shared(s.body_terms, t.title_terms).len(),
        pair_score(s, t) >= 2 * shared(s.heading_terms, t.heading_terms).len(),
        pair_score(s, t) >= 2 * shared(s.title_terms, t.body_terms).len(),
        phrase_hit(s, t) ==> pair_score(s, t) >= 6,
        pair_score(s, t) <= 4 * shared(s.tags, t.tags).len() + 3 * shared(s.body_terms, t.title_terms).len() + 2
            * shared(s.heading_terms, t.heading_terms).len() + 2 * shared(s.title_terms, t.body_terms).len() + 6,
        (shared(s.tags, t.tags).len() == 0 && shared(s.body_terms, t.title_terms).len() == 0 && shared(
            s.title_terms,
            t.body_terms,
        ).len() == 0 && !phrase_hit(s, t)) ==> pair_score(s, t) == 2 * shared(s.heading_terms, t.heading_terms).len(),
        (shared(s.tags, t.tags).len() == 0 && shared(s.body_terms, t.title_terms).len() == 0 && shared(
            s.title_terms,
            t.body_terms,
        ).len() == 0 && !phrase_hit(s, t) && shared(s.heading_terms, t.heading_terms).len() > 0) ==> pair_reasons(s, t)
            == seq!["related headings: "@ + join_sep(shared(s.heading_terms, t.heading_terms), ", "@)],
        (shared(s.body_terms, t.title_terms).len() == 0 && shared(s.heading_terms, t.heading_terms).len() == 0
            && shared(s.title_terms, t.body_terms).len() == 0 && !phrase_hit(s, t)) ==> pair_score(s, t) == 4 * shared(
            s.tags,
            t.tags,
        ).len(),
        (shared(s.tags, t.tags).len() == 0 && shared(s.heading_terms, t.heading_terms).len() == 0 && shared(
            s.title_terms,
            t.body_terms,
        ).len() == 0 && !phrase_hit(s, t)) ==> pair_score(s, t) == 3 * shared(s.body_terms, t.title_terms).len(),
        (shared(s.tags, t.tags).len() == 0 && shared(s.body_terms, t.title_terms).len() == 0 && shared(
            s.heading_terms,
            t.heading_terms,
        ).len() == 0 && !phrase_hit(s, t)) ==> pair_score(s, t) == 2 * shared(s.title_terms, t.body_terms).len(),
        (shared(s.tags, t.tags).len() == 0 && shared(s.body_terms, t.title_terms).len() == 0 && shared(
            s.heading_terms,
            t.heading_terms,
        ).len() == 0 && shared(s.title_terms, t.body_terms).len() == 0) ==> pair_score(s, t) == if phrase_hit(s, t) {
            6int
        } else {
            0int
        },
        (shared(s.tags, t.tags).len() == 0 && shared(s.body_terms, t.title_terms).len() == 0 && shared(
            s.heading_terms,
            t.heading_terms,
        ).len() == 0 && shared(s.title_terms, t.body_terms).len() == 0 && !phrase_hit(s, t)) ==> pair_reasons(s, t)
            == seq!["weak lexical similarity"@],
        shared(s.tags, t.tags).len() > 0 ==> pair_reasons(s, t).contains("shared tags: "@ + join_sep(shared(s.tags, t.tags), ", "@)),
        shared(s.body_terms, t.title_terms).len() > 0 ==> pair_reasons(s, t).contains(
            "source mentions target title terms: "@ + join_sep(shared(s.body_terms, t.title_terms), ", "@),
        ),
        shared(s.heading_terms, t.heading_terms).len() > 0 ==> pair_reasons(s, t).contains(
            "related headings: "@ + join_sep(shared(s.heading_terms, t.heading_terms), ", "@),
        ),
        shared(s.title_terms, t.body_terms).len() > 0 ==> pair_reasons(s, t).contains(
            "target mentions source title terms: "@ + join_sep(shared(s.title_terms, t.body_terms), ", "@),
        ),
        phrase_hit(s, t) ==> pair_reasons(s, t).contains("source contains the target title phrase"@),
{
    let r1 = reason_if("shared tags: "@, shared(s.tags, t.tags));
    let r2 = reason_if("source mentions target title terms: "@, shared(s.body_terms, t.title_terms));
    let r3 = reason_if("related headings: "@, shared(s.heading_terms, t.heading_terms));
    let r4 = reason_if("target mentions source title terms: "@, shared(s.title_terms, t.body_terms));
    let r5: Seq<Seq<char>> = if phrase_hit(s, t) {
        seq!["source contains the target title phrase"@]
    } else {
        seq![]
    };
    let found = r1 + r2 + r3 + r4 + r5;
    if shared(s.tags, t.tags).len() > 0 {
        assert(found[0] == r1[0]);
    }
    if shared(s.body_terms, t.title_terms).len() > 0 {
        assert(found[r1.len() as int] == r2[0]);
    }
    if shared(s.heading_terms, t.heading_terms).len() > 0 {
        assert(found[(r1.len() + r2.len()) as int] == r3[0]);
    }
    if shared(s.title_terms, t.body_terms).len() > 0 {
        assert(found[(r1.len() + r2.len() + r3.len()) as int] == r4[0]);
    }
    if phrase_hit(s, t) {
        assert(found[(r1.len() + r2.len() + r3.len() + r4.len()) as int] == r5[0]);
    }
    if shared(s.tags, t.tags).len() == 0 && shared(s.body_terms, t.title_terms).len() == 0 && shared(
        s.title_terms,
        t.body_terms,
    ).len() == 0 && !phrase_hit(s, t) && shared(s.heading_terms, t.heading_terms).len() > 0 {
        assert(found =~= r3);
    }
}

/// A document's heading terms, as suggestions compare them, are the distinct terms of its
/// heading texts joined by spaces.
pub proof fn lemma_profile_heading_terms(cs: bool, min: usize, d: DocumentView)
    ensures
        profile_of(cs, min, d).heading_terms == term_list(
            cs,
            min,
            crate::index::join_spaces(d.headings.map_values(|h: crate::types::HeadingView| h.text)),
        ),
{
}

} // verus!
