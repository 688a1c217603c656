//! Matching a query against the index: which documents match, on which terms, with which
//! term statistics, and the line to show for each. Scores are computed by the caller.
use vstd::prelude::*;
use crate::index::{first_with_id_from, last_with_id, stream_len, PostingView, SearchIndex, SearchIndexView};
use crate::sort::{lemma_sorted_texts, sort_dedup_texts, sorted_texts, view_seq};
use crate::text::{
    chars_of, contains_seq, decimal, find_chars_from, lowercase, push_char,
    push_chars, push_decimal, spec_lowercase, str_eq, string_views, sub_chars, trim, trim_chars,
};
use crate::tokenizer::tokenize_spec;
use crate::types::{display_title_spec, doc_views, DocumentId, DocumentView, Field};

verus! {

/// How many results to keep.
#[derive(Clone, Debug, PartialEq, Eq)]
pub struct SearchOptions {
    pub limit: usize,
}

impl Default for SearchOptions {
    fn default() -> (r: Self)
        ensures
            r.limit == 10,
    {
        SearchOptions { limit: 10 }
    }
}

/// The texts of `s` without repetitions, each at its first occurrence.
pub open spec fn dedup_first(s: Seq<Seq<char>>) -> Seq<Seq<char>>
    decreases s.len(),
{
    if s.len() == 0 {
        seq![]
    } else if s.drop_last().contains(s.last()) {
        dedup_first(s.drop_last())
    } else {
        dedup_first(s.drop_last()).push(s.last())
    }
}

proof fn lemma_dedup_first_contains(s: Seq<Seq<char>>, x: Seq<char>)
    ensures
        dedup_first(s).contains(x) <==> s.contains(x),
    decreases s.len(),
{
    if s.len() > 0 {
        lemma_dedup_first_contains(s.drop_last(), x);
        crate::sort::lemma_push_contains(s.drop_last(), s.last(), x);
        assert(s == s.drop_last().push(s.last()));
        crate::sort::lemma_push_contains(dedup_first(s.drop_last()), s.last(), x);
    }
}

/// The distinct texts of a sequence, each at its first occurrence.
pub fn unique_terms(terms: Vec<String>) -> (r: Vec<String>)
    ensures
        string_views(r@) == dedup_first(string_views(terms@)),
{
    let ghost tv = string_views(terms@);
    let mut r: Vec<String> = Vec::new();
    let mut i: usize = 0;
    assert(tv.take(0) =~= Seq::<Seq<char>>::empty());
    while i < terms.len()
        invariant
            i <= terms.len(),
            tv == string_views(terms@),
            string_views(r@) == dedup_first(tv.take(i as int)),
        decreases terms.len() - i,
    {
        let t = &terms[i];
        let ghost pre = tv.take(i as int);
        assert(tv.take(i + 1).drop_last() =~= pre);
        assert(tv.take(i + 1).last() == t@);
        proof {
            lemma_dedup_first_contains(pre, t@);
        }
        let mut seen = false;
        let mut j: usize = 0;
        while j < r.len()
            invariant
                j <= r.len(),
                seen == exists|k: int| 0 <= k < j && (#[trigger] r@[k])@ == t@,
            decreases r.len() - j,
        {
            if str_eq(r[j].as_str(), t.as_str()) {
                seen = true;
            }
            j += 1;
        }
        assert(seen == string_views(r@).contains(t@)) by {
            if seen {
                let k = choose|k: int| 0 <= k < r.len() && (#[trigger] r@[k])@ == t@;
                assert(string_views(r@)[k] == t@);
            }
            if string_views(r@).contains(t@) {
                let k = choose|k: int| 0 <= k < r.len() && string_views(r@)[k] == t@;
                assert(r@[k]@ == t@);
            }
        }
        if !seen {
            let ghost r0 = string_views(r@);
            r.push(t.clone());
            assert(string_views(r@) =~= r0.push(t@));
        }
        i += 1;
    }
    assert(tv.take(terms.len() as int) =~= tv);
    r
}

/// Whether a line mentions one of the terms, ignoring case.
pub open spec fn line_mentions(line: Seq<char>, terms: Seq<Seq<char>>) -> bool {
    exists|j: int|
        0 <= j < terms.len() && contains_seq(spec_lowercase(line), spec_lowercase(#[trigger] terms[j]))
}

/// The first line, from `i` on, that mentions one of the terms.
pub open spec fn first_mention_from(lines: Seq<Seq<char>>, terms: Seq<Seq<char>>, i: int) -> Option<int>
    decreases lines.len() - i,
{
    if i < 0 || i >= lines.len() {
        None
    } else if line_mentions(lines[i], terms) {
        Some(i)
    } else {
        first_mention_from(lines, terms, i + 1)
    }
}

/// A line trimmed, and cut to 157 characters and `...` where it is longer than 160.
pub open spec fn shorten(t: Seq<char>) -> Seq<char> {
    if t.len() > 160 {
        t.take(157) + seq!['.', '.', '.']
    } else {
        t
    }
}

/// `L<line number>: <line>` for the first line that mentions a term.
pub open spec fn snippet_spec(lines: Seq<Seq<char>>, terms: Seq<Seq<char>>) -> Option<Seq<char>> {
    match first_mention_from(lines, terms, 0) {
        Some(i) => Some(seq!['L'] + decimal((i + 1) as nat) + seq![':', ' '] + shorten(trim(lines[i]))),
        None => None,
    }
}

fn line_mentions_exec(line: &String, lowered_terms: &Vec<Vec<char>>, Ghost(terms): Ghost<Seq<Seq<char>>>) -> (r: bool)
    requires
        lowered_terms@.len() == terms.len(),
        forall|j: int| 0 <= j < terms.len() ==> (#[trigger] lowered_terms@[j])@ == spec_lowercase(terms[j]),
    ensures
        r == line_mentions(line@, terms),
{
    let lower = chars_of(lowercase(line.as_str()).as_str());
    let mut j: usize = 0;
    while j < lowered_terms.len()
        invariant
            j <= lowered_terms.len(),
            lowered_terms@.len() == terms.len(),
            forall|k: int| 0 <= k < terms.len() ==> (#[trigger] lowered_terms@[k])@ == spec_lowercase(terms[k]),
            lower@ == spec_lowercase(line@),
            forall|k: int| 0 <= k < j ==> !contains_seq(spec_lowercase(line@), spec_lowercase(#[trigger] terms[k])),
        decreases lowered_terms.len() - j,
    {
        if find_chars_from(&lower, lowered_terms[j].as_slice(), 0).is_some() {
            assert(contains_seq(spec_lowercase(line@), spec_lowercase(terms[j as int])));
            return true;
        }
        j += 1;
    }
    false
}

/// The line to show for a result (see `snippet_spec`).
pub fn make_snippet(lines: &Vec<String>, terms: &Vec<String>) -> (r: Option<String>)
    ensures
        match snippet_spec(string_views(lines@), string_views(terms@)) {
            Some(s) => r is Some && r.unwrap()@ == s,
            None => r is None,
        },
{
    let ghost tv = string_views(terms@);
    let ghost lv = string_views(lines@);
    let mut lowered: Vec<Vec<char>> = Vec::new();
    let mut k: usize = 0;
    while k < terms.len()
        invariant
            k <= terms.len(),
            tv == string_views(terms@),
            lowered@.len() == k,
            forall|j: int| 0 <= j < k ==> (#[trigger] lowered@[j])@ == spec_lowercase(tv[j]),
        decreases terms.len() - k,
    {
        lowered.push(chars_of(lowercase(terms[k].as_str()).as_str()));
        k += 1;
    }
    let mut i: usize = 0;
    while i < lines.len()
        invariant
            i <= lines.len(),
            tv == string_views(terms@),
            lv == string_views(lines@),
            lowered@.len() == tv.len(),
            forall|j: int| 0 <= j < tv.len() ==> (#[trigger] lowered@[j])@ == spec_lowercase(tv[j]),
            first_mention_from(lv, tv, 0) == first_mention_from(lv, tv, i as int),
        decreases lines.len() - i,
    {
        if line_mentions_exec(&lines[i], &lowered, Ghost(tv)) {
            assert(lv[i as int] == lines@[i as int]@);
            let trimmed = trim_chars(&chars_of(lines[i].as_str()));
            let mut out = String::new();
            push_char(&mut out, 'L');
            push_decimal(&mut out, i + 1);
            push_char(&mut out, ':');
            push_char(&mut out, ' ');
            if trimmed.len() > 160 {
                push_chars(&mut out, &sub_chars(&trimmed, 0, 157));
                push_char(&mut out, '.');
                push_char(&mut out, '.');
                push_char(&mut out, '.');
            } else {
                push_chars(&mut out, &trimmed);
            }
            assert(out@ =~= seq!['L'] + decimal((i + 1) as nat) + seq![':', ' '] + shorten(trim(lv[i as int])));
            return Some(out);
        }
        assert(lv[i as int] == lines@[i as int]@);
        i += 1;
    }
    None
}

} // verus!

verus! {

/// The statistics of one posting that a document matched on.
#[derive(Clone, Copy, Debug, PartialEq, Eq)]
pub struct ScoreHit {
    pub field: Field,
    pub frequency: usize,
    pub document_length: usize,
    pub document_frequency: usize,
}

pub ghost struct HitView {
    pub field: Field,
    pub frequency: nat,
    pub document_length: nat,
    pub document_frequency: nat,
}

impl View for ScoreHit {
    type V = HitView;

    open spec fn view(&self) -> HitView {
        HitView {
            field: self.field,
            frequency: self.frequency as nat,
            document_length: self.document_length as nat,
            document_frequency: self.document_frequency as nat,
        }
    }
}

/// A document that matches a query, before scoring.
#[derive(Clone, Debug, PartialEq)]
pub struct SearchCandidate {
    pub doc_id: DocumentId,
    pub path: String,
    pub title: String,
    pub matched_terms: Vec<String>,
    pub snippet: Option<String>,
    pub hits: Vec<ScoreHit>,
}

pub ghost struct CandidateView {
    pub doc_id: usize,
    pub path: Seq<char>,
    pub title: Seq<char>,
    pub matched_terms: Seq<Seq<char>>,
    pub snippet: Option<Seq<char>>,
    pub hits: Seq<HitView>,
}

impl View for SearchCandidate {
    type V = CandidateView;

    open spec fn view(&self) -> CandidateView {
        CandidateView {
            doc_id: self.doc_id.0,
            path: self.path@,
            title: self.title@,
            matched_terms: string_views(self.matched_terms@),
            snippet: crate::types::opt_view(self.snippet),
            hits: view_seq(self.hits@),
        }
    }
}

/// The number of distinct document numbers among postings.
pub open spec fn distinct_docs(ps: Seq<PostingView>) -> nat
    decreases ps.len(),
{
    if ps.len() == 0 {
        0
    } else if (exists|k: int| 0 <= k < ps.len() - 1 && ps[k].doc_id == ps.last().doc_id) {
        distinct_docs(ps.drop_last())
    } else {
        distinct_docs(ps.drop_last()) + 1
    }
}

/// The token count of the last document numbered `d`, 0 without one.
pub open spec fn doc_length(ix: SearchIndexView, d: usize) -> nat {
    match last_with_id(ix.documents, d) {
        Some(i) => stream_len(ix.case_sensitive, ix.min_len, ix.documents[i]),
        None => 0,
    }
}

/// What a search counts of one posting of a term: its field and frequency, the length of its
/// document (at least 1) and the number of documents the term occurs in.
pub open spec fn hit_of(ix: SearchIndexView, ps: Seq<PostingView>, p: PostingView) -> HitView {
    HitView {
        field: p.field,
        frequency: p.positions.len(),
        document_length: if doc_length(ix, p.doc_id) < 1 {
            1
        } else {
            doc_length(ix, p.doc_id)
        },
        document_frequency: distinct_docs(ps),
    }
}

/// Whether a posting is of document `d`.
pub open spec fn in_doc(d: usize) -> spec_fn(PostingView) -> bool {
    |p: PostingView| p.doc_id == d
}

/// `hit_of` for the postings `ps` of one term.
pub open spec fn hit_fn(ix: SearchIndexView, ps: Seq<PostingView>) -> spec_fn(PostingView) -> HitView {
    |p: PostingView| hit_of(ix, ps, p)
}

/// The hits of one term in document `d`.
pub open spec fn term_hits(ix: SearchIndexView, t: Seq<char>, d: usize) -> Seq<HitView> {
    let ps = crate::index::postings_of(ix.terms, t);
    ps.filter(in_doc(d)).map_values(hit_fn(ix, ps))
}

/// The hits of all query terms in document `d`, term by term.
pub open spec fn doc_hits(ix: SearchIndexView, terms: Seq<Seq<char>>, d: usize) -> Seq<HitView>
    decreases terms.len(),
{
    if terms.len() == 0 {
        seq![]
    } else {
        doc_hits(ix, terms.drop_last(), d) + term_hits(ix, terms.last(), d)
    }
}

/// The distinct terms of a query, in order.
pub open spec fn query_terms(ix: SearchIndexView, q: Seq<char>) -> Seq<Seq<char>> {
    dedup_first(tokenize_spec(ix.case_sensitive, ix.min_len, q))
}

/// The query terms with a hit in document `d`.
pub open spec fn matched_set(ix: SearchIndexView, terms: Seq<Seq<char>>, d: usize) -> Set<Seq<char>> {
    Set::new(|t: Seq<char>| terms.contains(t) && term_hits(ix, t, d).len() > 0)
}

/// What a candidate for a document number holds: the path and title of the first document with
/// that number, the hits of the query terms there (at least one), the terms it matched in
/// increasing order, and the snippet for those terms.
pub open spec fn candidate_ok(ix: SearchIndexView, terms: Seq<Seq<char>>, c: CandidateView) -> bool {
    match first_with_id_from(ix.documents, c.doc_id, 0) {
        Some(k) => {
            &&& doc_hits(ix, terms, c.doc_id).len() > 0
            &&& c.path == ix.documents[k].path
            &&& c.title == display_title_spec(ix.documents[k])
            &&& c.hits == doc_hits(ix, terms, c.doc_id)
            &&& c.matched_terms == sorted_texts(matched_set(ix, terms, c.doc_id))
            &&& c.snippet == snippet_spec(ix.documents[k].lines, c.matched_terms)
        },
        None => false,
    }
}

/// What `search_candidates` returns: one candidate per document number that has hits and
/// a document, each as `candidate_ok` says; nothing for an empty query or index.
pub open spec fn candidates_of(ix: SearchIndexView, q: Seq<char>, r: Seq<CandidateView>) -> bool {
    let terms = query_terms(ix, q);
    let docs = ix.documents;
    &&& (terms.len() == 0 || docs.len() == 0) ==> r.len() == 0
    &&& forall|i: int, j: int| 0 <= i < j < r.len() ==> r[i].doc_id != r[j].doc_id
    &&& forall|i: int| 0 <= i < r.len() ==> candidate_ok(ix, terms, #[trigger] r[i])
    &&& forall|d: usize|
        terms.len() > 0 && docs.len() > 0 && doc_hits(ix, terms, d).len() > 0 && first_with_id_from(
            docs,
            d,
            0,
        ) is Some ==> exists|i: int| 0 <= i < r.len() && (#[trigger] r[i]).doc_id == d
}

} // verus!

verus! {

fn count_distinct_docs(ps: &[crate::index::Posting]) -> (r: usize)
    ensures
        r == distinct_docs(view_seq(ps@)),
{
    let ghost pv = view_seq(ps@);
    let mut n: usize = 0;
    let mut i: usize = 0;
    assert(pv.take(0) =~= Seq::<PostingView>::empty());
    while i < ps.len()
        invariant
            i <= ps.len(),
            pv == view_seq(ps@),
            n == distinct_docs(pv.take(i as int)),
            n <= i,
        decreases ps.len() - i,
    {
        let d = ps[i].doc_id.0;
        let mut seen = false;
        let mut k: usize = 0;
        while k < i
            invariant
                k <= i < ps.len(),
                pv == view_seq(ps@),
                seen == exists|m: int| 0 <= m < k && pv[m].doc_id == d,
            decreases i - k,
        {
            assert(pv[k as int] == ps@[k as int]@);
            if ps[k].doc_id.0 == d {
                seen = true;
            }
            k += 1;
        }
        let ghost pre = pv.take(i + 1);
        assert(pre.drop_last() =~= pv.take(i as int));
        assert(pre.last() == pv[i as int]);
        assert(seen == exists|m: int| 0 <= m < pre.len() - 1 && pre[m].doc_id == pre.last().doc_id) by {
            if seen {
                let m = choose|m: int| 0 <= m < i && pv[m].doc_id == d;
                assert(pre[m] == pv[m]);
            }
            if exists|m: int| 0 <= m < pre.len() - 1 && pre[m].doc_id == pre.last().doc_id {
                let m = choose|m: int| 0 <= m < pre.len() - 1 && pre[m].doc_id == pre.last().doc_id;
                assert(pv[m] == pre[m]);
            }
        }
        if !seen {
            n += 1;
        }
        i += 1;
    }
    assert(pv.take(ps.len() as int) =~= pv);
    n
}

/// The hits of one term in document `d`.
fn term_hits_exec(index: &SearchIndex, t: &String, d: usize) -> (r: Vec<ScoreHit>)
    ensures
        view_seq(r@) == term_hits(index@, t@, d),
{
    let ghost ix = index@;
    match index.postings(t.as_str()) {
        None => {
            let r: Vec<ScoreHit> = Vec::new();
            assert(view_seq(r@) =~= term_hits(ix, t@, d));
            r
        },
        Some(ps) => {
            let ghost pv = view_seq(ps@);
            let df = count_distinct_docs(ps);
            let mut r: Vec<ScoreHit> = Vec::new();
            let mut i: usize = 0;
            let ghost pred = in_doc(d);
            let ghost f = hit_fn(ix, pv);
            assert(pv.take(0).filter(pred) =~= Seq::<PostingView>::empty());
            while i < ps.len()
                invariant
                    i <= ps.len(),
                    pv == view_seq(ps@),
                    pv == crate::index::postings_of(ix.terms, t@),
                    ix == index@,
                    df == distinct_docs(pv),
                    pred == in_doc(d),
                    f == hit_fn(ix, pv),
                    view_seq(r@) == pv.take(i as int).filter(pred).map_values(f),
                decreases ps.len() - i,
            {
                let p = &ps[i];
                assert(pv[i as int] == p@);
                assert(pv.take(i + 1) =~= pv.take(i as int).push(p@));
                proof {
                    pv.take(i as int).lemma_filter_push(p@, pred);
                }
                if p.doc_id.0 == d {
                    let len = index.document_length(p.doc_id);
                    let hit = ScoreHit {
                        field: p.field,
                        frequency: p.positions.len(),
                        document_length: if len < 1 { 1 } else { len },
                        document_frequency: df,
                    };
                    let ghost r0 = view_seq(r@);
                    r.push(hit);
                    assert(hit@.document_length == hit_of(ix, pv, p@).document_length);
                    assert(hit@.frequency == hit_of(ix, pv, p@).frequency);
                    assert(hit@ == hit_of(ix, pv, p@));
                    assert(hit@ == f(p@));
                    assert(view_seq(r@) =~= r0.push(hit@));
                    assert(pv.take(i as int).filter(pred).push(p@).map_values(f) =~= pv.take(i as int).filter(
                        pred,
                    ).map_values(f).push(f(p@)));
                }
                i += 1;
            }
            assert(pv.take(ps.len() as int) =~= pv);
            r
        },
    }
}


/// The hits of `terms` in document `d`, and the terms with a hit there, in the order of `terms`.
fn doc_matches(index: &SearchIndex, terms: &Vec<String>, d: usize) -> (r: (Vec<ScoreHit>, Vec<String>))
    ensures
        view_seq(r.0@) == doc_hits(index@, string_views(terms@), d),
        forall|t: Seq<char>|
            string_views(r.1@).contains(t) <==> (string_views(terms@).contains(t) && term_hits(
                index@,
                t,
                d,
            ).len() > 0),
{
    let ghost tv = string_views(terms@);
    let mut hits: Vec<ScoreHit> = Vec::new();
    let mut matched: Vec<String> = Vec::new();
    let mut j: usize = 0;
    assert(tv.take(0) =~= Seq::<Seq<char>>::empty());
    while j < terms.len()
        invariant
            j <= terms.len(),
            tv == string_views(terms@),
            view_seq(hits@) == doc_hits(index@, tv.take(j as int), d),
            forall|t: Seq<char>|
                string_views(matched@).contains(t) <==> (tv.take(j as int).contains(t) && term_hits(
                    index@,
                    t,
                    d,
                ).len() > 0),
        decreases terms.len() - j,
    {
        let ghost pre = tv.take(j as int);
        let ghost m0 = string_views(matched@);
        assert(tv.take(j + 1) =~= pre.push(terms@[j as int]@));
        assert(tv.take(j + 1).drop_last() =~= pre);
        let mut h = term_hits_exec(index, &terms[j], d);
        let found = h.len() > 0;
        let ghost h0 = h@;
        let ghost hits0 = hits@;
        hits.append(&mut h);
        assert(view_seq(hits@) =~= view_seq(hits0) + view_seq(h0));
        if found {
            matched.push(terms[j].clone());
            assert(string_views(matched@) =~= m0.push(terms@[j as int]@));
        } else {
            assert(string_views(matched@) =~= m0);
        }
        proof {
            assert forall|t: Seq<char>|
                string_views(matched@).contains(t) <==> (tv.take(j + 1).contains(t) && term_hits(
                    index@,
                    t,
                    d,
                ).len() > 0) by {
                crate::sort::lemma_push_contains(pre, terms@[j as int]@, t);
                if found {
                    crate::sort::lemma_push_contains(m0, terms@[j as int]@, t);
                }
            }
        }
        j += 1;
    }
    assert(tv.take(terms.len() as int) =~= tv);
    (hits, matched)
}

proof fn lemma_first_with_id_some(docs: Seq<DocumentView>, d: usize, k: int, i: int)
    requires
        0 <= k <= i < docs.len(),
        docs[i].id == d,
    ensures
        first_with_id_from(docs, d, k) is Some,
    decreases i - k,
{
    if docs[k].id != d {
        lemma_first_with_id_some(docs, d, k + 1, i);
    }
}

proof fn lemma_first_with_id_at(docs: Seq<DocumentView>, d: usize, k: int)
    requires
        first_with_id_from(docs, d, k) is Some,
    ensures
        0 <= first_with_id_from(docs, d, k).unwrap() < docs.len(),
        docs[first_with_id_from(docs, d, k).unwrap()].id == d,
    decreases docs.len() - k,
{
    if 0 <= k < docs.len() && docs[k].id != d {
        lemma_first_with_id_at(docs, d, k + 1);
    }
}

/// The candidate for document number `d`, if a document has it and a query term occurs there.
fn candidate_for(index: &SearchIndex, terms: &Vec<String>, d: usize) -> (r: Option<SearchCandidate>)
    ensures
        match r {
            Some(c) => c@.doc_id == d && candidate_ok(index@, string_views(terms@), c@),
            None => !(doc_hits(index@, string_views(terms@), d).len() > 0 && first_with_id_from(
                index@.documents,
                d,
                0,
            ) is Some),
        },
{
    let ghost ix = index@;
    let ghost tv = string_views(terms@);
    let (hits, matched) = doc_matches(index, terms, d);
    if hits.len() == 0 {
        return None;
    }
    match index.document(DocumentId(d)) {
        Some(doc) => {
            let ghost mv = string_views(matched@);
            let sorted = sort_dedup_texts(matched);
            let ghost sv = string_views(sorted@);
            let snippet = make_snippet(&doc.lines, &sorted);
            let c = SearchCandidate {
                doc_id: DocumentId(d),
                path: doc.path.clone(),
                title: doc.display_title(),
                matched_terms: sorted,
                snippet,
                hits,
            };
            assert(c@.matched_terms == sv);
            assert forall|t: Seq<char>|
                sv.contains(t) <==> matched_set(ix, tv, d).contains(t) by {
                assert(sv.contains(t) <==> mv.contains(t));
            }
            proof {
                lemma_sorted_texts(sv, matched_set(ix, tv, d));
            }
            Some(c)
        },
        None => None,
    }
}

/// The documents that match a query, each with the statistics of its hits, the terms it
/// matched and its snippet (see `candidates_of`); empty for a query without terms or an empty
/// index.
pub fn search_candidates(index: &SearchIndex, query: &str) -> (r: Vec<SearchCandidate>)
    ensures
        candidates_of(index@, query@, view_seq(r@)),
{
    let terms = unique_terms(index.tokenize_query(query));
    let ghost ix = index@;
    let ghost tv = string_views(terms@);
    assert(tv == query_terms(ix, query@));
    let mut r: Vec<SearchCandidate> = Vec::new();
    if terms.len() == 0 || index.is_empty() {
        assert(view_seq(r@) =~= Seq::<CandidateView>::empty());
        return r;
    }
    let docs = index.documents();
    let ghost dv = ix.documents;
    let mut i: usize = 0;
    while i < docs.len()
        invariant
            i <= docs.len(),
            ix == index@,
            dv == ix.documents,
            doc_views(docs@) == dv,
            tv == string_views(terms@),
            forall|a: int, b: int| 0 <= a < b < r.len() ==> r@[a]@.doc_id != r@[b]@.doc_id,
            forall|a: int| 0 <= a < r.len() ==> candidate_ok(ix, tv, #[trigger] r@[a]@),
            forall|a: int|
                0 <= a < r.len() ==> exists|m: int| 0 <= m < i && dv[m].id == (#[trigger] r@[a]@).doc_id,
            forall|m: int|
                0 <= m < i && doc_hits(ix, tv, #[trigger] dv[m].id).len() > 0 ==> exists|a: int|
                    0 <= a < r.len() && r@[a]@.doc_id == dv[m].id,
        decreases docs.len() - i,
    {
        let d = docs[i].id.0;
        assert(dv[i as int] == docs@[i as int]@);
        let ghost r0 = r@;
        let mut earlier = false;
        let mut m: usize = 0;
        while m < i
            invariant
                m <= i < docs.len(),
                doc_views(docs@) == dv,
                d == dv[i as int].id,
                earlier == exists|k: int| 0 <= k < m && dv[k].id == d,
            decreases i - m,
        {
            assert(dv[m as int] == docs@[m as int]@);
            if docs[m].id.0 == d {
                earlier = true;
            }
            m += 1;
        }
        if !earlier {
            proof {
                lemma_first_with_id_some(dv, d, 0, i as int);
            }
            match candidate_for(index, &terms, d) {
                Some(c) => {
                    proof {
                        assert forall|a: int| 0 <= a < r.len() implies r@[a]@.doc_id != d by {
                            let m = choose|m: int| 0 <= m < i && dv[m].id == (#[trigger] r@[a]@).doc_id;
                        }
                    }
                    r.push(c);
                    assert(r@[r.len() - 1]@.doc_id == d);
                },
                None => {},
            }
        }
        proof {
            assert(forall|a: int| 0 <= a < r0.len() ==> r@[a] == r0[a]);
            assert forall|a: int| 0 <= a < r.len() implies exists|m: int|
                0 <= m < i + 1 && dv[m].id == (#[trigger] r@[a]@).doc_id by {
                if a == r0.len() {
                    assert(dv[i as int].id == r@[a]@.doc_id);
                } else {
                    let m = choose|m: int| 0 <= m < i && dv[m].id == (#[trigger] r0[a]@).doc_id;
                }
            }
            assert forall|m: int|
                0 <= m < i + 1 && doc_hits(ix, tv, #[trigger] dv[m].id).len() > 0 implies exists|a: int|
                    0 <= a < r.len() && r@[a]@.doc_id == dv[m].id by {
                if m < i {
                    let a = choose|a: int| 0 <= a < r0.len() && r0[a]@.doc_id == dv[m].id;
                    assert(r@[a] == r0[a]);
                } else if earlier {
                    let k = choose|k: int| 0 <= k < i && dv[k].id == d;
                    assert(doc_hits(ix, tv, dv[k].id).len() > 0);
                    let a = choose|a: int| 0 <= a < r0.len() && r0[a]@.doc_id == dv[k].id;
                    assert(r@[a] == r0[a]);
                } else {
                    assert(r.len() == r0.len() + 1);
                    assert(r@[r0.len() as int]@.doc_id == d);
                }
            }
        }
        i += 1;
    }
    proof {
        assert forall|d: usize|
            tv.len() > 0 && dv.len() > 0 && doc_hits(ix, tv, d).len() > 0 && first_with_id_from(dv, d, 0) is Some
            implies exists|a: int| 0 <= a < view_seq(r@).len() && (#[trigger] view_seq(r@)[a]).doc_id == d by {
            lemma_first_with_id_at(dv, d, 0);
            let k = first_with_id_from(dv, d, 0).unwrap();
            assert(doc_hits(ix, tv, dv[k].id).len() > 0);
            let a = choose|a: int| 0 <= a < r.len() && r@[a]@.doc_id == dv[k].id;
            assert(view_seq(r@)[a] == r@[a]@);
        }
    }
    r
}

} // verus!
