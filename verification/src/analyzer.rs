//! Backlinks, broken links, tag statistics and orphans of a set of documents.
use vstd::prelude::*;
use crate::paths::{
    extension_of, ext_dot_exec, file_name, file_name_exec, is_rooted, last_span, last_span_exec,
    lemma_path_order, normalize_path, normalize_path_chars, normalize_path_str, parent_prefix,
    parent_prefix_exec, path_equiv, path_equiv_exec, path_le, path_lt, path_lt_exec, PathOrder,
};
use crate::text::{
    before_first, before_first_chars, chars_of, is_ascii_alnum, push_char, seq_le,
    seq_lt, str_eq, str_lt, string_of, string_views, sub_chars, trim, trim_chars,
    lemma_seq_lt_asym, lemma_seq_lt_irreflexive, lemma_seq_lt_total, lemma_seq_lt_trans,
};
use crate::sort::{
    lemma_sorted_texts, lemma_sorted_texts_of, lemma_stable_views, placed, strictly_sorted, sort_by_order, stable_sort_of, sort_dedup_texts, sorted_by, sorted_texts, view_seq, Order,
};
use crate::types::{doc_views, Document, DocumentView, Link, LinkKind, LinkView};

verus! {

/// A link whose target is not among the documents.
#[derive(Clone, Debug, PartialEq, Eq)]
pub struct BrokenLink {
    pub source: String,
    pub target: String,
    pub line: usize,
}

pub ghost struct BrokenLinkView {
    pub source: Seq<char>,
    pub target: Seq<char>,
    pub line: usize,
}

impl View for BrokenLink {
    type V = BrokenLinkView;

    open spec fn view(&self) -> BrokenLinkView {
        BrokenLinkView { source: self.source@, target: self.target@, line: self.line }
    }
}

/// A link into a document, seen from that document.
#[derive(Clone, Debug, PartialEq, Eq)]
pub struct Backlink {
    pub source: String,
    pub line: usize,
    pub text: String,
}

pub ghost struct BacklinkView {
    pub source: Seq<char>,
    pub line: usize,
    pub text: Seq<char>,
}

impl View for Backlink {
    type V = BacklinkView;

    open spec fn view(&self) -> BacklinkView {
        BacklinkView { source: self.source@, line: self.line, text: self.text@ }
    }
}

/// How many documents carry a tag.
#[derive(Clone, Debug, PartialEq, Eq)]
pub struct TagCount {
    pub tag: String,
    pub count: usize,
}

pub ghost struct TagCountView {
    pub tag: Seq<char>,
    pub count: usize,
}

impl View for TagCount {
    type V = TagCountView;

    open spec fn view(&self) -> TagCountView {
        TagCountView { tag: self.tag@, count: self.count }
    }
}

/// The part of a link target that names a file: before any `#` or `?`, trimmed.
pub open spec fn clean_target_spec(t: Seq<char>) -> Seq<char> {
    trim(before_first(before_first(t, '#'), '?'))
}

/// A path with `.md` put after its file name (`PathBuf::set_extension("md")` on a path
/// without extension).
pub open spec fn with_md(t: Seq<char>) -> Seq<char> {
    match last_span(t) {
        Some((a, b)) => t.take(b) + seq!['.', 'm', 'd'],
        None => t,
    }
}

/// The document a link from `source` points to, as a normalized path: the link's cleaned
/// target (the source itself where that is empty), with `.md` added to extension-less
/// wiki targets, taken relative to the source's directory unless rooted.
pub open spec fn resolve_spec(source: Seq<char>, l: LinkView) -> Seq<char> {
    let clean = clean_target_spec(l.target);
    if clean.len() == 0 {
        normalize_path(source)
    } else {
        let t = if l.kind == LinkKind::Wiki && (match file_name(clean) {
            Some(n) => extension_of(n) is None,
            None => false,
        }) {
            with_md(clean)
        } else {
            clean
        };
        if is_rooted(t) {
            normalize_path(t)
        } else {
            let p = parent_prefix(source);
            if p.len() == 0 {
                normalize_path(t)
            } else {
                normalize_path(p + seq!['/'] + t)
            }
        }
    }
}

fn clean_target(t: &[char]) -> (r: Vec<char>)
    ensures
        r@ == clean_target_spec(t@),
{
    let a = before_first_chars(t, '#');
    let b = before_first_chars(&a, '?');
    trim_chars(&b)
}

/// The document a link from `source` points to (see `resolve_spec`).
pub fn resolve_internal_link(source: &str, link: &Link) -> (r: String)
    ensures
        r@ == resolve_spec(source@, link@),
{
    let target = chars_of(link.target.as_str());
    let clean = clean_target(&target);
    if clean.len() == 0 {
        return normalize_path_str(source);
    }
    let mut t = clean;
    let is_wiki = match link.kind {
        LinkKind::Wiki => true,
        _ => false,
    };
    if is_wiki {
        match file_name_exec(&t) {
            Some(n) => {
                if ext_dot_exec(&n).is_none() {
                    let (a, b) = last_span_exec(&t).unwrap();
                    let mut w = sub_chars(&t, 0, b);
                    w.push('.');
                    w.push('m');
                    w.push('d');
                    assert(w@ =~= with_md(t@));
                    t = w;
                }
            },
            None => {},
        }
    }
    if t.len() > 0 && t[0] == '/' {
        return normalize_path_chars(&t);
    }
    let src = chars_of(source);
    let mut p = parent_prefix_exec(&src);
    if p.len() == 0 {
        normalize_path_chars(&t)
    } else {
        let ghost p0 = p@;
        p.push('/');
        let mut tt = t.clone();
        p.append(&mut tt);
        assert(p@ =~= p0 + seq!['/'] + t@);
        normalize_path_chars(&p)
    }
}

/// A character of a Mermaid node name: itself if it is an ASCII letter or digit, else `_`.
pub open spec fn node_char(c: char) -> char {
    if is_ascii_alnum(c) {
        c
    } else {
        '_'
    }
}

/// A Mermaid node name for a path: `N` and the path with every character that is not an
/// ASCII letter or digit replaced by `_`.
pub open spec fn node_id_spec(p: Seq<char>) -> Seq<char> {
    seq!['N'] + p.map_values(|c: char| node_char(c))
}

fn node_id(p: &str) -> (r: String)
    ensures
        r@ == node_id_spec(p@),
{
    let cs = chars_of(p);
    let mut r = String::new();
    push_char(&mut r, 'N');
    let mut i: usize = 0;
    while i < cs.len()
        invariant
            i <= cs.len(),
            cs@ == p@,
            r@ == seq!['N'] + cs@.take(i as int).map_values(|c: char| node_char(c)),
        decreases cs.len() - i,
    {
        let c = cs[i];
        let ok = ('0' <= c && c <= '9') || ('a' <= c && c <= 'z') || ('A' <= c && c <= 'Z');
        push_char(&mut r, if ok { c } else { '_' });
        i += 1;
        assert(cs@.take(i as int).map_values(|c: char| node_char(c)) =~= cs@.take(i - 1).map_values(
            |c: char| node_char(c),
        ).push(node_char(c)));
    }
    assert(cs@.take(cs.len() as int) =~= cs@);
    r
}

/// The file name of a path, or the whole path where it has none.
pub open spec fn display_path_spec(p: Seq<char>) -> Seq<char> {
    match file_name(p) {
        Some(n) => n,
        None => p,
    }
}

fn display_path(p: &str) -> (r: String)
    ensures
        r@ == display_path_spec(p@),
{
    let cs = chars_of(p);
    match file_name_exec(&cs) {
        Some(n) => string_of(&n),
        None => string_of(&cs),
    }
}

} // verus!

verus! {

/// One internal link of the knowledge base: the normalized path of its document, the
/// normalized path it resolves to, the target as written, its line, and its label (its text,
/// else its raw form).
pub ghost struct LinkEntry {
    pub source: Seq<char>,
    pub target: Seq<char>,
    pub link_target: Seq<char>,
    pub line: usize,
    pub label: Seq<char>,
}

pub open spec fn entry_of(path: Seq<char>, l: LinkView) -> LinkEntry {
    LinkEntry {
        source: normalize_path(path),
        target: resolve_spec(path, l),
        link_target: l.target,
        line: l.line,
        label: match l.text {
            Some(t) => t,
            None => l.raw,
        },
    }
}

/// The internal (not external) links of one document, in order.
pub open spec fn entries_of(path: Seq<char>, links: Seq<LinkView>) -> Seq<LinkEntry>
    decreases links.len(),
{
    if links.len() == 0 {
        seq![]
    } else {
        let rest = entries_of(path, links.drop_last());
        if links.last().kind == LinkKind::External {
            rest
        } else {
            rest.push(entry_of(path, links.last()))
        }
    }
}

/// The internal links of all documents, in order.
pub open spec fn link_entries(docs: Seq<DocumentView>) -> Seq<LinkEntry>
    decreases docs.len(),
{
    if docs.len() == 0 {
        seq![]
    } else {
        link_entries(docs.drop_last()) + entries_of(docs.last().path, docs.last().links)
    }
}

/// The tags of all documents, in order.
pub open spec fn all_tags(docs: Seq<DocumentView>) -> Seq<Seq<char>>
    decreases docs.len(),
{
    if docs.len() == 0 {
        seq![]
    } else {
        all_tags(docs.drop_last()) + docs.last().tags
    }
}

/// The normalized paths of the documents.
pub open spec fn known_paths(docs: Seq<DocumentView>) -> Seq<Seq<char>> {
    docs.map_values(|d: DocumentView| normalize_path(d.path))
}

pub open spec fn broken_view(e: LinkEntry) -> BrokenLinkView {
    BrokenLinkView { source: e.source, target: e.link_target, line: e.line }
}

pub open spec fn backlink_view(e: LinkEntry) -> BacklinkView {
    BacklinkView { source: e.source, line: e.line, text: e.label }
}

/// Broken links by source path, then line, then target.
pub open spec fn broken_le(a: BrokenLinkView, b: BrokenLinkView) -> bool {
    path_lt(a.source, b.source) || (path_equiv(a.source, b.source) && (a.line < b.line || (a.line
        == b.line && seq_le(a.target, b.target))))
}

/// Backlinks by source path, then line.
pub open spec fn backlink_le(a: BacklinkView, b: BacklinkView) -> bool {
    path_lt(a.source, b.source) || (path_equiv(a.source, b.source) && a.line <= b.line)
}

/// Tag counts by count, largest first, then by tag.
pub open spec fn tag_le(a: TagCountView, b: TagCountView) -> bool {
    a.count > b.count || (a.count == b.count && seq_le(a.tag, b.tag))
}

/// One count per distinct tag, each the number of times the tag occurs.
pub open spec fn tag_counts_of(all: Seq<Seq<char>>, r: Seq<TagCountView>) -> bool {
    &&& forall|i: int, j: int| 0 <= i < j < r.len() ==> r[i].tag != r[j].tag
    &&& forall|i: int|
        0 <= i < r.len() ==> all.contains(#[trigger] r[i].tag) && r[i].count
            == all.to_multiset().count(r[i].tag)
    &&& forall|t: Seq<char>| all.contains(t) ==> exists|i: int| 0 <= i < r.len() && (#[trigger] r[i].tag) == t
}

} // verus!

verus! {

broadcast use {vstd::seq_lib::group_to_multiset_ensures, vstd::multiset::group_multiset_axioms};

fn clone_string(s: &String) -> (r: String)
    ensures
        r@ == s@,
{
    s.clone()
}

/// The tags of all documents, in order.
fn collect_tags(docs: &[Document]) -> (r: Vec<String>)
    ensures
        string_views(r@) == all_tags(doc_views(docs@)),
{
    let ghost dv = doc_views(docs@);
    let mut r: Vec<String> = Vec::new();
    let mut i: usize = 0;
    assert(dv.take(0) =~= Seq::<DocumentView>::empty());
    while i < docs.len()
        invariant
            i <= docs.len(),
            dv == doc_views(docs@),
            string_views(r@) == all_tags(dv.take(i as int)),
        decreases docs.len() - i,
    {
        let d = &docs[i];
        let ghost base = string_views(r@);
        let mut j: usize = 0;
        while j < d.tags.len()
            invariant
                j <= d.tags.len(),
                string_views(r@) == base + d@.tags.take(j as int),
            decreases d.tags.len() - j,
        {
            let ghost before = r@;
            r.push(clone_string(&d.tags[j]));
            assert(string_views(r@) =~= string_views(before).push(d.tags@[j as int]@));
            assert(d@.tags.take(j + 1) =~= d@.tags.take(j as int).push(d.tags@[j as int]@));
            j += 1;
        }
        assert(d@.tags.take(d.tags.len() as int) =~= d@.tags);
        assert(dv.take(i + 1).drop_last() =~= dv.take(i as int));
        assert(dv.take(i + 1).last() == d@);
        i += 1;
    }
    assert(dv.take(docs.len() as int) =~= dv);
    r
}

fn find_tag(r: &Vec<TagCount>, t: &String) -> (pos: Option<usize>)
    ensures
        match pos {
            Some(g) => g < r.len() && r@[g as int].tag@ == t@,
            None => forall|i: int| 0 <= i < r.len() ==> (#[trigger] r@[i]).tag@ != t@,
        },
{
    let mut g: usize = 0;
    while g < r.len()
        invariant
            g <= r.len(),
            forall|i: int| 0 <= i < g ==> (#[trigger] r@[i]).tag@ != t@,
        decreases r.len() - g,
    {
        if str_eq(r[g].tag.as_str(), t.as_str()) {
            return Some(g);
        }
        g += 1;
    }
    None
}

/// One count per distinct tag of `all`.
fn count_tags(all: &Vec<String>) -> (r: Vec<TagCount>)
    ensures
        tag_counts_of(string_views(all@), view_seq(r@)),
{
    let ghost av = string_views(all@);
    let mut r: Vec<TagCount> = Vec::new();
    let mut k: usize = 0;
    assert(av.take(0) =~= Seq::<Seq<char>>::empty());
    while k < all.len()
        invariant
            k <= all.len(),
            av == string_views(all@),
            tag_counts_of(av.take(k as int), view_seq(r@)),
            forall|i: int| 0 <= i < r.len() ==> (#[trigger] r@[i]).count <= k,
        decreases all.len() - k,
    {
        let t = &all[k];
        let ghost pre = av.take(k as int);
        let ghost post = av.take(k + 1);
        assert(post =~= pre.push(t@));
        let pos = find_tag(&r, t);
        let found = pos.is_some();
        let g: usize = match pos {
            Some(g) => g,
            None => 0,
        };
        let ghost before = view_seq(r@);
        if found {
            let old_entry = &r[g];
            let updated = TagCount { tag: clone_string(&old_entry.tag), count: old_entry.count + 1 };
            r.set(g, updated);
        } else {
            r.push(TagCount { tag: clone_string(t), count: 1 });
        }
        proof {
            let rv = view_seq(r@);
            assert(post.to_multiset() =~= pre.to_multiset().insert(t@));
            if !found {
                assert(!pre.contains(t@)) by {
                    if pre.contains(t@) {
                        let i = choose|i: int| 0 <= i < before.len() && (#[trigger] before[i].tag) == t@;
                        assert(r@[i].tag@ == t@);
                    }
                }
            }
            assert forall|i: int| 0 <= i < rv.len() implies post.contains(#[trigger] rv[i].tag)
                && rv[i].count == post.to_multiset().count(rv[i].tag) by {
                assert(post[k as int] == t@);
                if i < before.len() && !(found && i == g) {
                    assert(rv[i] == before[i]);
                    assert(before[i].tag != t@) by {
                        if found {
                            assert(before[g as int].tag == t@);
                        } else {
                            assert(r@[i].tag@ != t@);
                        }
                    }
                    assert(pre.contains(before[i].tag));
                    let w = choose|w: int| 0 <= w < pre.len() && pre[w] == before[i].tag;
                    assert(post[w] == before[i].tag);
                } else if found {
                    assert(rv[i].tag == t@);
                } else {
                    assert(rv[i].tag == t@);
                    assert(pre.to_multiset().count(t@) == 0);
                }
            }
            assert forall|x: Seq<char>| post.contains(x) implies exists|i: int|
                0 <= i < rv.len() && (#[trigger] rv[i].tag) == x by {
                let w = choose|w: int| 0 <= w < post.len() && post[w] == x;
                if w < k {
                    assert(pre[w] == x);
                    assert(pre.contains(x));
                    let i = choose|i: int| 0 <= i < before.len() && (#[trigger] before[i].tag) == x;
                    assert(rv[i].tag == x);
                } else {
                    if found {
                        assert(rv[g as int].tag == x);
                    } else {
                        assert(rv[before.len() as int].tag == x);
                    }
                }
            }
            assert forall|i: int, j: int| 0 <= i < j < rv.len() implies rv[i].tag != rv[j].tag by {
                if !found && j == before.len() {
                    assert(rv[j].tag == t@);
                    assert(rv[i] == before[i]);
                    assert(r@[i].tag@ != t@);
                } else if found {
                    assert(before[g as int].tag == t@);
                    if i == g {
                        assert(rv[j] == before[j]);
                    } else if j == g {
                        assert(rv[i] == before[i]);
                    } else {
                        assert(rv[i] == before[i]);
                        assert(rv[j] == before[j]);
                    }
                } else {
                    assert(rv[i] == before[i]);
                    assert(rv[j] == before[j]);
                }
            }
        }
        k += 1;
    }
    assert(av.take(all.len() as int) =~= av);
    r
}

} // verus!

verus! {

struct Entry {
    source: String,
    target: String,
    link_target: String,
    line: usize,
    label: String,
}

impl View for Entry {
    type V = LinkEntry;

    closed spec fn view(&self) -> LinkEntry {
        LinkEntry {
            source: self.source@,
            target: self.target@,
            link_target: self.link_target@,
            line: self.line,
            label: self.label@,
        }
    }
}

fn entry_exec(path: &String, l: &Link) -> (r: Entry)
    ensures
        r@ == entry_of(path@, l@),
{
    Entry {
        source: normalize_path_str(path.as_str()),
        target: resolve_internal_link(path.as_str(), l),
        link_target: clone_string(&l.target),
        line: l.line,
        label: match &l.text {
            Some(t) => clone_string(t),
            None => clone_string(&l.raw),
        },
    }
}

/// The internal links of all documents, in order.
fn collect_entries(docs: &[Document]) -> (r: Vec<Entry>)
    ensures
        view_seq(r@) == link_entries(doc_views(docs@)),
{
    let ghost dv = doc_views(docs@);
    let mut r: Vec<Entry> = Vec::new();
    let mut i: usize = 0;
    assert(dv.take(0) =~= Seq::<DocumentView>::empty());
    while i < docs.len()
        invariant
            i <= docs.len(),
            dv == doc_views(docs@),
            view_seq(r@) == link_entries(dv.take(i as int)),
        decreases docs.len() - i,
    {
        let d = &docs[i];
        let ghost base = view_seq(r@);
        let ghost lv = d@.links;
        let mut j: usize = 0;
        assert(lv.take(0) =~= Seq::<LinkView>::empty());
        while j < d.links.len()
            invariant
                j <= d.links.len(),
                lv == d@.links,
                view_seq(r@) == base + entries_of(d@.path, lv.take(j as int)),
            decreases d.links.len() - j,
        {
            let l = &d.links[j];
            assert(lv.take(j + 1).drop_last() =~= lv.take(j as int));
            assert(lv.take(j + 1).last() == l@);
            let ghost before = view_seq(r@);
            let external = match l.kind {
                LinkKind::External => true,
                _ => false,
            };
            if !external {
                r.push(entry_exec(&d.path, l));
                assert(view_seq(r@) =~= before.push(entry_of(d@.path, l@)));
            }
            j += 1;
        }
        assert(lv.take(d.links.len() as int) =~= lv);
        assert(dv.take(i + 1).drop_last() =~= dv.take(i as int));
        assert(dv.take(i + 1).last() == d@);
        i += 1;
    }
    assert(dv.take(docs.len() as int) =~= dv);
    r
}

/// The normalized paths of the documents.
fn collect_known(docs: &[Document]) -> (r: Vec<String>)
    ensures
        string_views(r@) == known_paths(doc_views(docs@)),
{
    let mut r: Vec<String> = Vec::new();
    let mut i: usize = 0;
    while i < docs.len()
        invariant
            i <= docs.len(),
            string_views(r@) == known_paths(doc_views(docs@)).take(i as int),
        decreases docs.len() - i,
    {
        let ghost before = r@;
        let p = normalize_path_str(docs[i].path.as_str());
        assert(doc_views(docs@)[i as int] == docs@[i as int]@);
        assert(known_paths(doc_views(docs@))[i as int] == p@);
        r.push(p);
        assert(string_views(r@) =~= string_views(before).push(p@));
        assert(string_views(r@) =~= known_paths(doc_views(docs@)).take(i + 1));
        i += 1;
    }
    assert(known_paths(doc_views(docs@)).take(docs.len() as int) =~= known_paths(doc_views(docs@)));
    r
}

fn find_text(v: &Vec<String>, t: &String) -> (pos: Option<usize>)
    ensures
        match pos {
            Some(g) => g < v.len() && v@[g as int]@ == t@,
            None => forall|i: int| 0 <= i < v.len() ==> (#[trigger] v@[i])@ != t@,
        },
{
    let mut g: usize = 0;
    while g < v.len()
        invariant
            g <= v.len(),
            forall|i: int| 0 <= i < g ==> (#[trigger] v@[i])@ != t@,
        decreases v.len() - g,
    {
        if str_eq(v[g].as_str(), t.as_str()) {
            return Some(g);
        }
        g += 1;
    }
    None
}

} // verus!

verus! {

/// The broken links among `es`: those whose target is not a known path.
pub open spec fn broken_of(es: Seq<LinkEntry>, known: Seq<Seq<char>>) -> Seq<BrokenLinkView> {
    es.filter(|e: LinkEntry| !known.contains(e.target)).map_values(|e: LinkEntry| broken_view(e))
}

/// The backlinks among `es` into `key`.
pub open spec fn backlinks_to(es: Seq<LinkEntry>, key: Seq<char>) -> Seq<BacklinkView> {
    es.filter(|e: LinkEntry| e.target == key).map_values(|e: LinkEntry| backlink_view(e))
}

pub proof fn lemma_broken_of_push(es: Seq<LinkEntry>, known: Seq<Seq<char>>, e: LinkEntry)
    ensures
        broken_of(es.push(e), known) == if !known.contains(e.target) {
            broken_of(es, known).push(broken_view(e))
        } else {
            broken_of(es, known)
        },
{
    let p = |e: LinkEntry| !known.contains(e.target);
    es.lemma_filter_push(e, p);
    let f = |e: LinkEntry| broken_view(e);
    if p(e) {
        assert(es.filter(p).push(e).map_values(f) =~= es.filter(p).map_values(f).push(f(e)));
    }
}

pub proof fn lemma_backlinks_to_push(es: Seq<LinkEntry>, key: Seq<char>, e: LinkEntry)
    ensures
        backlinks_to(es.push(e), key) == if e.target == key {
            backlinks_to(es, key).push(backlink_view(e))
        } else {
            backlinks_to(es, key)
        },
{
    let p = |x: LinkEntry| x.target == key;
    es.lemma_filter_push(e, p);
    let f = |x: LinkEntry| backlink_view(x);
    if p(e) {
        assert(es.filter(p).push(e).map_values(f) =~= es.filter(p).map_values(f).push(f(e)));
    }
}

/// Backlink groups of `es`: one per distinct known target, in any order, each holding the
/// backlinks into it in link order.
pub open spec fn groups_of(
    es: Seq<LinkEntry>,
    known: Seq<Seq<char>>,
    keys: Seq<Seq<char>>,
    lists: Seq<Seq<BacklinkView>>,
) -> bool {
    &&& keys.len() == lists.len()
    &&& forall|i: int, j: int| 0 <= i < j < keys.len() ==> keys[i] != keys[j]
    &&& forall|i: int|
        0 <= i < keys.len() ==> known.contains(#[trigger] keys[i]) && lists[i] == backlinks_to(
            es,
            keys[i],
        ) && lists[i].len() > 0
    &&& forall|k: int|
        0 <= k < es.len() && known.contains(#[trigger] es[k].target) ==> keys.contains(es[k].target)
}

pub open spec fn list_views(v: Seq<Vec<Backlink>>) -> Seq<Seq<BacklinkView>> {
    v.map_values(|l: Vec<Backlink>| view_seq(l@))
}

fn backlink_of(e: &Entry) -> (r: Backlink)
    ensures
        r@ == backlink_view(e@),
{
    Backlink { source: clone_string(&e.source), line: e.line, text: clone_string(&e.label) }
}

fn broken_of_entry(e: &Entry) -> (r: BrokenLink)
    ensures
        r@ == broken_view(e@),
{
    BrokenLink { source: clone_string(&e.source), target: clone_string(&e.link_target), line: e.line }
}

/// Splits the links into broken ones and backlink groups.
fn split_entries(es: &Vec<Entry>, known: &Vec<String>) -> (r: (
    Vec<BrokenLink>,
    Vec<String>,
    Vec<Vec<Backlink>>,
))
    ensures
        view_seq(r.0@) == broken_of(view_seq(es@), string_views(known@)),
        groups_of(view_seq(es@), string_views(known@), string_views(r.1@), list_views(r.2@)),
{
    let ghost kv = string_views(known@);
    let ghost ev = view_seq(es@);
    let mut broken: Vec<BrokenLink> = Vec::new();
    let mut keys: Vec<String> = Vec::new();
    let mut lists: Vec<Vec<Backlink>> = Vec::new();
    let mut k: usize = 0;
    assert(ev.take(0) =~= Seq::<LinkEntry>::empty());
    while k < es.len()
        invariant
            k <= es.len(),
            kv == string_views(known@),
            ev == view_seq(es@),
            view_seq(broken@) == broken_of(ev.take(k as int), kv),
            groups_of(ev.take(k as int), kv, string_views(keys@), list_views(lists@)),
        decreases es.len() - k,
    {
        let e = &es[k];
        let ghost pre = ev.take(k as int);
        let ghost post = ev.take(k + 1);
        assert(post =~= pre.push(e@));
        assert(ev[k as int] == e@);
        proof {
            lemma_broken_of_push(pre, kv, e@);
        }
        let ghost kv0 = string_views(keys@);
        let ghost lv0 = list_views(lists@);
        let kpos = find_text(known, &e.target);
        let is_known = kpos.is_some();
        assert(is_known == kv.contains(e@.target)) by {
            match kpos {
                Some(g) => {
                    assert(kv[g as int] == e@.target);
                },
                None => {
                    if kv.contains(e@.target) {
                        let i = choose|i: int| 0 <= i < kv.len() && kv[i] == e@.target;
                        assert(known@[i]@ == e.target@);
                    }
                },
            }
        }
        let ghost mut gi: int = -1;
        if is_known {
            let bl = backlink_of(e);
            match find_text(&keys, &e.target) {
                Some(g) => {
                    let mut list: Vec<Backlink> = Vec::new();
                    lists.set_and_swap(g, &mut list);
                    let ghost l0 = list@;
                    list.push(bl);
                    lists.set_and_swap(g, &mut list);
                    assert(view_seq(lists@[g as int]@) =~= view_seq(l0).push(bl@));
                    assert(list_views(lists@) =~= lv0.update(g as int, lv0[g as int].push(bl@)));
                    proof {
                        gi = g as int;
                    }
                },
                None => {
                    let ghost klen = keys.len();
                    keys.push(clone_string(&e.target));
                    lists.push(vec![bl]);
                    assert(string_views(keys@) =~= kv0.push(e@.target));
                    assert(view_seq(lists@[klen as int]@) =~= seq![bl@]);
                    assert(list_views(lists@) =~= lv0.push(seq![bl@]));
                    assert(!kv0.contains(e@.target)) by {
                        if kv0.contains(e@.target) {
                            let j = choose|j: int| 0 <= j < kv0.len() && kv0[j] == e@.target;
                            assert(keys@[j]@ == e.target@);
                        }
                    }
                },
            }
        } else {
            let ghost b0 = broken@;
            broken.push(broken_of_entry(e));
            assert(view_seq(broken@) =~= view_seq(b0).push(broken_view(e@)));
        }
        proof {
            let kv1 = string_views(keys@);
            let lv1 = list_views(lists@);
            assert forall|i: int| 0 <= i < kv1.len() implies kv.contains(#[trigger] kv1[i]) && lv1[i]
                == backlinks_to(post, kv1[i]) && lv1[i].len() > 0 by {
                lemma_backlinks_to_push(pre, kv1[i], e@);
                if i < kv0.len() {
                    assert(kv1[i] == kv0[i]);
                    assert(kv.contains(kv0[i]));
                    if gi == i {
                        assert(kv0[i] == e@.target);
                        assert(lv1[i] == lv0[i].push(backlink_view(e@)));
                    } else {
                        assert(lv1[i] == lv0[i]);
                        if is_known {
                            if gi >= 0 {
                                assert(kv0[gi] == e@.target);
                            }
                            assert(kv0[i] != e@.target);
                        }
                    }
                } else {
                    assert(kv1[i] == e@.target);
                    assert(backlinks_to(pre, e@.target).len() == 0) by {
                        if backlinks_to(pre, e@.target).len() > 0 {
                            let p = |x: LinkEntry| x.target == e@.target;
                            let fx = pre.filter(p);
                            assert(fx.len() > 0);
                            pre.lemma_filter_pred(p, 0);
                            assert(fx.contains(fx[0]));
                            pre.lemma_filter_contains_rev(p, fx[0]);
                            let m = choose|m: int| 0 <= m < pre.len() && pre[m] == fx[0];
                            assert(pre[m].target == e@.target);
                            assert(kv0.contains(pre[m].target));
                        }
                    }
                    assert(backlinks_to(pre, e@.target) =~= Seq::<BacklinkView>::empty());
                    assert(lv1[i] == seq![backlink_view(e@)]);
                }
            }
            assert forall|m: int| 0 <= m < post.len() && kv.contains(#[trigger] post[m].target)
                implies kv1.contains(post[m].target) by {
                if m < k {
                    assert(post[m] == pre[m]);
                    assert(kv0.contains(pre[m].target));
                    let i = choose|i: int| 0 <= i < kv0.len() && kv0[i] == pre[m].target;
                    assert(kv1[i] == kv0[i]);
                } else {
                    assert(post[m] == e@);
                    if gi >= 0 {
                        assert(kv1[gi] == e@.target);
                    } else {
                        assert(kv1[kv1.len() - 1] == e@.target);
                    }
                }
            }
            assert forall|i: int, j: int| 0 <= i < j < kv1.len() implies kv1[i] != kv1[j] by {
                if j >= kv0.len() {
                    assert(kv1[i] == kv0[i]);
                }
            }
        }
        k += 1;
    }
    assert(ev.take(es.len() as int) =~= ev);
    (broken, keys, lists)
}

} // verus!

verus! {

/// `broken_le` as a relation.
pub open spec fn broken_order() -> spec_fn(BrokenLinkView, BrokenLinkView) -> bool {
    |a: BrokenLinkView, b: BrokenLinkView| broken_le(a, b)
}

/// Broken links by source path, then line, then target.
pub struct BrokenOrder;

impl Order<BrokenLink> for BrokenOrder {
    open spec fn le(a: &BrokenLink, b: &BrokenLink) -> bool {
        broken_le(a@, b@)
    }

    proof fn lemma_le_total(a: &BrokenLink, b: &BrokenLink) {
        lemma_path_order(a@.source, b@.source, b@.source);
        lemma_path_order(b@.source, a@.source, a@.source);
        lemma_seq_lt_total(a@.target, b@.target);
    }

    proof fn lemma_le_trans(a: &BrokenLink, b: &BrokenLink, c: &BrokenLink) {
        lemma_path_order(a@.source, b@.source, c@.source);
        lemma_path_order(b@.source, c@.source, a@.source);
        lemma_path_order(c@.source, a@.source, b@.source);
        lemma_path_order(a@.source, c@.source, b@.source);
        lemma_path_order(b@.source, a@.source, c@.source);
        lemma_path_order(c@.source, b@.source, a@.source);
        if seq_lt(a@.target, b@.target) && seq_lt(b@.target, c@.target) {
            lemma_seq_lt_trans(a@.target, b@.target, c@.target);
        }
    }

    fn le_exec(a: &BrokenLink, b: &BrokenLink) -> (r: bool) {
        proof {
            lemma_path_order(a@.source, b@.source, b@.source);
            lemma_path_order(b@.source, a@.source, a@.source);
            lemma_seq_lt_total(a@.target, b@.target);
            if seq_lt(b@.target, a@.target) {
                lemma_seq_lt_asym(b@.target, a@.target);
            }
            lemma_seq_lt_irreflexive(a@.target);
        }
        if path_lt_exec(a.source.as_str(), b.source.as_str()) {
            true
        } else if !path_equiv_exec(a.source.as_str(), b.source.as_str()) {
            false
        } else if a.line != b.line {
            a.line < b.line
        } else {
            !str_lt(b.target.as_str(), a.target.as_str())
        }
    }
}

/// `backlink_le` as a relation.
pub open spec fn backlink_order() -> spec_fn(BacklinkView, BacklinkView) -> bool {
    |a: BacklinkView, b: BacklinkView| backlink_le(a, b)
}

/// Backlinks by source path, then line.
pub struct BacklinkOrder;

impl Order<Backlink> for BacklinkOrder {
    open spec fn le(a: &Backlink, b: &Backlink) -> bool {
        backlink_le(a@, b@)
    }

    proof fn lemma_le_total(a: &Backlink, b: &Backlink) {
        lemma_path_order(a@.source, b@.source, b@.source);
        lemma_path_order(b@.source, a@.source, a@.source);
    }

    proof fn lemma_le_trans(a: &Backlink, b: &Backlink, c: &Backlink) {
        lemma_path_order(a@.source, b@.source, c@.source);
        lemma_path_order(b@.source, c@.source, a@.source);
        lemma_path_order(c@.source, a@.source, b@.source);
        lemma_path_order(a@.source, c@.source, b@.source);
        lemma_path_order(b@.source, a@.source, c@.source);
        lemma_path_order(c@.source, b@.source, a@.source);
    }

    fn le_exec(a: &Backlink, b: &Backlink) -> (r: bool) {
        proof {
            lemma_path_order(a@.source, b@.source, b@.source);
            lemma_path_order(b@.source, a@.source, a@.source);
        }
        if path_lt_exec(a.source.as_str(), b.source.as_str()) {
            true
        } else if !path_equiv_exec(a.source.as_str(), b.source.as_str()) {
            false
        } else {
            a.line <= b.line
        }
    }
}

/// Tag counts, largest first, then by tag.
pub struct TagOrder;

impl Order<TagCount> for TagOrder {
    open spec fn le(a: &TagCount, b: &TagCount) -> bool {
        tag_le(a@, b@)
    }

    proof fn lemma_le_total(a: &TagCount, b: &TagCount) {
        lemma_seq_lt_total(a@.tag, b@.tag);
    }

    proof fn lemma_le_trans(a: &TagCount, b: &TagCount, c: &TagCount) {
        if seq_lt(a@.tag, b@.tag) && seq_lt(b@.tag, c@.tag) {
            lemma_seq_lt_trans(a@.tag, b@.tag, c@.tag);
        }
    }

    fn le_exec(a: &TagCount, b: &TagCount) -> (r: bool) {
        proof {
            lemma_seq_lt_total(a@.tag, b@.tag);
            if seq_lt(b@.tag, a@.tag) {
                lemma_seq_lt_asym(b@.tag, a@.tag);
            }
            lemma_seq_lt_irreflexive(a@.tag);
        }
        if a.count != b.count {
            a.count > b.count
        } else {
            !str_lt(b.tag.as_str(), a.tag.as_str())
        }
    }
}

} // verus!

verus! {

/// Statistics and link structure of a set of documents. `backlinks` holds one entry per
/// document that is linked to: its normalized path and the links into it.
#[derive(Clone, Debug, PartialEq, Eq)]
pub struct KnowledgeReport {
    pub total_documents: usize,
    pub total_links: usize,
    pub broken_links: Vec<BrokenLink>,
    pub backlinks: Vec<(String, Vec<Backlink>)>,
    pub tags: Vec<TagCount>,
    pub orphan_documents: Vec<String>,
}

pub ghost struct KnowledgeReportView {
    pub total_documents: usize,
    pub total_links: usize,
    pub broken_links: Seq<BrokenLinkView>,
    pub backlinks: Seq<(Seq<char>, Seq<BacklinkView>)>,
    pub tags: Seq<TagCountView>,
    pub orphan_documents: Seq<Seq<char>>,
}

pub open spec fn group_views(g: Seq<(String, Vec<Backlink>)>) -> Seq<(Seq<char>, Seq<BacklinkView>)> {
    g.map_values(|e: (String, Vec<Backlink>)| (e.0@, view_seq(e.1@)))
}

impl View for KnowledgeReport {
    type V = KnowledgeReportView;

    open spec fn view(&self) -> KnowledgeReportView {
        KnowledgeReportView {
            total_documents: self.total_documents,
            total_links: self.total_links,
            broken_links: view_seq(self.broken_links@),
            backlinks: group_views(self.backlinks@),
            tags: view_seq(self.tags@),
            orphan_documents: string_views(self.orphan_documents@),
        }
    }
}

/// Whether some link of `es` resolves to `p`.
pub open spec fn has_inbound(es: Seq<LinkEntry>, p: Seq<char>) -> bool {
    exists|k: int| 0 <= k < es.len() && (#[trigger] es[k]).target == p
}

/// The backlink groups of a report for the links `es` among documents at `known`: one per
/// distinct known target with links, each holding exactly those links, ordered by source path
/// and line.
pub open spec fn backlink_groups(
    es: Seq<LinkEntry>,
    known: Seq<Seq<char>>,
    groups: Seq<(Seq<char>, Seq<BacklinkView>)>,
) -> bool {
    &&& forall|i: int, j: int| 0 <= i < j < groups.len() ==> groups[i].0 != groups[j].0
    &&& forall|i: int|
        0 <= i < groups.len() ==> known.contains(#[trigger] groups[i].0) && has_inbound(
            es,
            groups[i].0,
        ) && groups[i].1.to_multiset() == backlinks_to(es, groups[i].0).to_multiset() && stable_sort_of(
            groups[i].1,
            backlinks_to(es, groups[i].0),
            backlink_order(),
        )
    &&& forall|k: int|
        0 <= k < es.len() && known.contains(#[trigger] es[k].target) ==> exists|i: int|
            0 <= i < groups.len() && (#[trigger] groups[i].0) == es[k].target
}

/// What `analyze_documents` returns for `docs`.
pub open spec fn analyzed_as(docs: Seq<DocumentView>, r: KnowledgeReportView) -> bool {
    let es = link_entries(docs);
    let known = known_paths(docs);
    &&& r.total_documents == docs.len()
    &&& r.total_links == es.len()
    &&& r.broken_links.to_multiset() == broken_of(es, known).to_multiset()
    &&& stable_sort_of(r.broken_links, broken_of(es, known), broken_order())
    &&& backlink_groups(es, known, r.backlinks)
    &&& tag_counts_of(all_tags(docs), r.tags)
    &&& forall|i: int, j: int| 0 <= i < j < r.tags.len() ==> tag_le(r.tags[i], r.tags[j])
    &&& paths_ascending(r.orphan_documents)
    &&& forall|p: Seq<char>|
        r.orphan_documents.contains(p) <==> (known.contains(p) && !has_inbound(es, p))
}

proof fn lemma_backlinks_nonempty(es: Seq<LinkEntry>, key: Seq<char>)
    ensures
        backlinks_to(es, key).len() > 0 <==> has_inbound(es, key),
{
    let p = |x: LinkEntry| x.target == key;
    if backlinks_to(es, key).len() > 0 {
        let fx = es.filter(p);
        es.lemma_filter_pred(p, 0);
        assert(fx.contains(fx[0]));
        es.lemma_filter_contains_rev(p, fx[0]);
        let m = choose|m: int| 0 <= m < es.len() && es[m] == fx[0];
        assert(es[m].target == key);
    }
    if has_inbound(es, key) {
        let k = choose|k: int| 0 <= k < es.len() && (#[trigger] es[k]).target == key;
        es.lemma_filter_contains(p, k);
        assert(es.filter(p).len() > 0);
    }
}

/// `a` holds exactly the members of `b` that are not in `excl`.
pub open spec fn members_except(a: Seq<Seq<char>>, b: Seq<Seq<char>>, excl: Seq<Seq<char>>) -> bool {
    forall|x: Seq<char>| a.contains(x) <==> (b.contains(x) && !excl.contains(x))
}

proof fn lemma_members_step(
    o0: Seq<Seq<char>>,
    prefix: Seq<Seq<char>>,
    excl: Seq<Seq<char>>,
    p: Seq<char>,
    pushed: bool,
    o1: Seq<Seq<char>>,
)
    requires
        members_except(o0, prefix, excl),
        o1 == if pushed { o0.push(p) } else { o0 },
        pushed <==> (!excl.contains(p) && !o0.contains(p)),
    ensures
        members_except(o1, prefix.push(p), excl),
{
    assert forall|x: Seq<char>| o1.contains(x) <==> (prefix.push(p).contains(x) && !excl.contains(x)) by {
        crate::sort::lemma_push_contains(prefix, p, x);
        crate::sort::lemma_push_contains(o0, p, x);
    }
}

/// The known paths that no link resolves to, each once, in path order.
fn orphans_of(known: &Vec<String>, keys: &Vec<String>) -> (r: Vec<String>)
    ensures
        members_except(string_views(r@), string_views(known@), string_views(keys@)),
        paths_ascending(string_views(r@)),
{
    let ghost kv = string_views(known@);
    let ghost keyv = string_views(keys@);
    let mut out: Vec<String> = Vec::new();
    let mut i: usize = 0;
    while i < known.len()
        invariant
            i <= known.len(),
            kv == string_views(known@),
            keyv == string_views(keys@),
            members_except(string_views(out@), kv.take(i as int), keyv),
            forall|a: int, b: int| 0 <= a < b < out@.len() ==> out@[a]@ != out@[b]@,
        decreases known.len() - i,
    {
        let p = &known[i];
        let ghost o0 = string_views(out@);
        assert(members_except(o0, kv.take(i as int), keyv));
        assert(kv.take(i + 1) =~= kv.take(i as int).push(p@));
        let in_keys = find_text(keys, p);
        let in_out = find_text(&out, p);
        if in_keys.is_none() && in_out.is_none() {
            out.push(clone_string(p));
            assert(string_views(out@) =~= o0.push(p@));
        }
        proof {
            assert(keyv.contains(p@) <==> in_keys is Some) by {
                if keyv.contains(p@) {
                    let j = choose|j: int| 0 <= j < keyv.len() && keyv[j] == p@;
                    assert(keys@[j]@ == p@);
                }
                if let Some(g) = in_keys {
                    assert(keyv[g as int] == p@);
                }
            }
            assert(o0.contains(p@) <==> in_out is Some) by {
                if o0.contains(p@) {
                    let j = choose|j: int| 0 <= j < o0.len() && o0[j] == p@;
                }
                if let Some(g) = in_out {
                    assert(o0[g as int] == p@);
                }
            }
            lemma_members_step(o0, kv.take(i as int), keyv, p@, in_keys.is_none() && in_out.is_none(), string_views(out@));
            assert(members_except(string_views(out@), kv.take(i + 1), keyv));
        }
        i += 1;
    }
    assert(kv.take(known.len() as int) =~= kv);
    let sorted = sort_by_order::<String, PathOrder>(out);
    proof {
        assert(string_views(sorted@) =~= view_seq(sorted@));
        assert(string_views(out@) =~= view_seq(out@));
        assert forall|x: Seq<char>| string_views(sorted@).contains(x) <==> string_views(out@).contains(x) by {
            crate::sort::lemma_views_contains_of_multiset(sorted@, out@, x);
        }
        assert(view_seq(out@).no_duplicates()) by {
            assert forall|a: int, b: int| 0 <= a < view_seq(out@).len() && 0 <= b < view_seq(out@).len() && a != b
                implies view_seq(out@)[a] != view_seq(out@)[b] by {
                if a < b {
                    assert(out@[a]@ != out@[b]@);
                } else {
                    assert(out@[b]@ != out@[a]@);
                }
            }
        }
        crate::sort::lemma_no_duplicates_of_multiset(sorted@, out@);
        let sv = string_views(sorted@);
        assert forall|a: int, b: int| #![trigger sv[a], sv[b]] 0 <= a < b < sv.len() implies path_le(sv[a], sv[b])
            && sv[a] != sv[b] by {
            assert(view_seq(sorted@)[a] == sorted@[a]@);
            assert(view_seq(sorted@)[b] == sorted@[b]@);
            assert(PathOrder::le(&sorted@[a], &sorted@[b]));
        }
    }
    sorted
}

/// Paths in strictly increasing `Path` order.
pub open spec fn paths_ascending(s: Seq<Seq<char>>) -> bool {
    forall|i: int, j: int| #![trigger s[i], s[j]] 0 <= i < j < s.len() ==> path_le(s[i], s[j]) && s[i] != s[j]
}

} // verus!

verus! {

proof fn lemma_orphans(o: Seq<Seq<char>>, kv: Seq<Seq<char>>, keyv: Seq<Seq<char>>, es: Seq<LinkEntry>)
    requires
        members_except(o, kv, keyv),
        forall|p: Seq<char>| kv.contains(p) ==> (has_inbound(es, p) <==> keyv.contains(p)),
    ensures
        forall|p: Seq<char>| o.contains(p) <==> (kv.contains(p) && !has_inbound(es, p)),
{
    assert forall|p: Seq<char>| o.contains(p) <==> (kv.contains(p) && !has_inbound(es, p)) by {
        if kv.contains(p) {
            assert(has_inbound(es, p) <==> keyv.contains(p));
        }
    }
}

proof fn lemma_tag_counts_permuted(all: Seq<Seq<char>>, a: Seq<TagCount>, b: Seq<TagCount>)
    requires
        tag_counts_of(all, view_seq(b)),
        view_seq(a).to_multiset() == view_seq(b).to_multiset(),
    ensures
        tag_counts_of(all, view_seq(a)),
{
    broadcast use vstd::seq_lib::group_to_multiset_ensures;

    let av = view_seq(a);
    let bv = view_seq(b);
    assert forall|i: int| 0 <= i < av.len() implies all.contains(#[trigger] av[i].tag) && av[i].count
        == all.to_multiset().count(av[i].tag) by {
        assert(av.to_multiset().count(av[i]) > 0);
        assert(bv.contains(av[i]));
    }
    assert forall|t: Seq<char>| all.contains(t) implies exists|i: int|
        0 <= i < av.len() && (#[trigger] av[i].tag) == t by {
        let j = choose|j: int| 0 <= j < bv.len() && (#[trigger] bv[j].tag) == t;
        assert(bv.to_multiset().count(bv[j]) > 0);
        assert(av.contains(bv[j]));
        let i = choose|i: int| 0 <= i < av.len() && av[i] == bv[j];
        assert(av[i].tag == t);
    }
    assert(bv.no_duplicates()) by {
        assert forall|i: int, j: int| 0 <= i < bv.len() && 0 <= j < bv.len() && i != j implies bv[i]
            != bv[j] by {
            if i < j {
                assert(bv[i].tag != bv[j].tag);
            } else {
                assert(bv[j].tag != bv[i].tag);
            }
        }
    }
    crate::sort::lemma_no_duplicates_of_multiset(a, b);
    assert forall|i: int, j: int| 0 <= i < j < av.len() implies av[i].tag != av[j].tag by {
        if av[i].tag == av[j].tag {
            assert(av.to_multiset().count(av[i]) > 0);
            assert(av.to_multiset().count(av[j]) > 0);
            assert(bv.contains(av[i]));
            assert(bv.contains(av[j]));
            let x = choose|x: int| 0 <= x < bv.len() && bv[x] == av[i];
            let y = choose|y: int| 0 <= y < bv.len() && bv[y] == av[j];
            if x == y {
                assert(av[i] == av[j]);
            } else if x < y {
                assert(bv[x].tag != bv[y].tag);
            } else {
                assert(bv[y].tag != bv[x].tag);
            }
        }
    }
}

/// Analyzes a set of documents: counts their internal links, finds broken links,
/// backlinks, tag counts and orphan documents (see `analyzed_as`).
pub fn analyze_documents(docs: &[Document]) -> (r: KnowledgeReport)
    ensures
        analyzed_as(doc_views(docs@), r@),
{
    let ghost dv = doc_views(docs@);
    let known = collect_known(docs);
    let entries = collect_entries(docs);
    let (broken, keys, lists) = split_entries(&entries, &known);
    let ghost es = view_seq(entries@);
    let ghost kv = string_views(known@);
    let ghost lv = list_views(lists@);
    let broken_sorted = sort_by_order::<BrokenLink, BrokenOrder>(broken);
    proof {
        lemma_stable_views::<BrokenLink, BrokenOrder>(broken_sorted@, broken@, broken_order());
    }
    let mut lists = lists;
    let mut groups: Vec<(String, Vec<Backlink>)> = Vec::new();
    let mut g: usize = 0;
    while g < keys.len()
        invariant
            g <= keys.len(),
            keys.len() == lists.len(),
            groups_of(es, kv, string_views(keys@), lv),
            groups.len() == g,
            forall|i: int|
                g <= i < lists.len() ==> view_seq((#[trigger] lists@[i])@) == lv[i],
            forall|i: int|
                0 <= i < g ==> (#[trigger] group_views(groups@)[i]).0 == string_views(keys@)[i]
                    && group_views(groups@)[i].1.to_multiset() == lv[i].to_multiset()
                    && stable_sort_of(group_views(groups@)[i].1, lv[i], backlink_order()),
        decreases keys.len() - g,
    {
        let mut list: Vec<Backlink> = Vec::new();
        lists.set_and_swap(g, &mut list);
        let ghost l0 = view_seq(list@);
        assert(l0 == lv[g as int]);
        let sorted = sort_by_order::<Backlink, BacklinkOrder>(list);
        proof {
            lemma_stable_views::<Backlink, BacklinkOrder>(sorted@, list@, backlink_order());
        }
        let ghost gv0 = group_views(groups@);
        groups.push((clone_string(&keys[g]), sorted));
        proof {
            assert(group_views(groups@) =~= gv0.push((keys@[g as int]@, view_seq(sorted@))));
            assert forall|i: int| g + 1 <= i < lists.len() implies view_seq((#[trigger] lists@[i])@) == lv[i] by {
            }
        }
        g += 1;
    }
    let all = collect_tags(docs);
    let counts = count_tags(&all);
    let tags = sort_by_order::<TagCount, TagOrder>(counts);
    proof {
        lemma_tag_counts_permuted(string_views(all@), tags@, counts@);
    }
    let orphans = orphans_of(&known, &keys);
    let r = KnowledgeReport {
        total_documents: docs.len(),
        total_links: entries.len(),
        broken_links: broken_sorted,
        backlinks: groups,
        tags,
        orphan_documents: orphans,
    };
    proof {
        let rv = r@;
        let keyv = string_views(keys@);
        assert forall|p: Seq<char>| kv.contains(p) implies (has_inbound(es, p) <==> keyv.contains(p)) by {
            if keyv.contains(p) {
                let i = choose|i: int| 0 <= i < keyv.len() && keyv[i] == p;
                lemma_backlinks_nonempty(es, p);
            }
            if has_inbound(es, p) {
                let k = choose|k: int| 0 <= k < es.len() && (#[trigger] es[k]).target == p;
                assert(kv.contains(es[k].target));
            }
        }
        assert(rv.orphan_documents == string_views(orphans@));
        lemma_orphans(rv.orphan_documents, kv, keyv, es);
        assert forall|i: int, j: int| 0 <= i < j < rv.tags.len() implies tag_le(rv.tags[i], rv.tags[j]) by {
            assert(TagOrder::le(&tags@[i], &tags@[j]));
        }
        let gv = rv.backlinks;
        assert forall|i: int| 0 <= i < gv.len() implies kv.contains(#[trigger] gv[i].0) && has_inbound(
            es,
            gv[i].0,
        ) && gv[i].1.to_multiset() == backlinks_to(es, gv[i].0).to_multiset() && stable_sort_of(
            gv[i].1,
            backlinks_to(es, gv[i].0),
            backlink_order(),
        ) by {
            assert(gv[i].0 == keyv[i]);
            lemma_backlinks_nonempty(es, keyv[i]);
        }
        assert forall|k: int| 0 <= k < es.len() && kv.contains(#[trigger] es[k].target) implies exists|
            i: int,
        | 0 <= i < gv.len() && (#[trigger] gv[i].0) == es[k].target by {
            assert(keyv.contains(es[k].target));
            let i = choose|i: int| 0 <= i < keyv.len() && keyv[i] == es[k].target;
            assert(gv[i].0 == keyv[i]);
        }
        assert forall|i: int, j: int| 0 <= i < j < gv.len() implies gv[i].0 != gv[j].0 by {
            assert(gv[i].0 == keyv[i]);
            assert(gv[j].0 == keyv[j]);
        }
    }
    r
}

} // verus!

verus! {

/// The index of the first group whose path has the same components as `key`.
pub open spec fn find_group_from(groups: Seq<(Seq<char>, Seq<BacklinkView>)>, key: Seq<char>, i: int) -> Option<int>
    decreases groups.len() - i,
{
    if i < 0 || i >= groups.len() {
        None
    } else if path_equiv(groups[i].0, key) {
        Some(i)
    } else {
        find_group_from(groups, key, i + 1)
    }
}

/// The backlinks into the document at `path` (normalized first), or none.
pub open spec fn backlinks_for_spec(groups: Seq<(Seq<char>, Seq<BacklinkView>)>, path: Seq<char>) -> Seq<BacklinkView> {
    match find_group_from(groups, normalize_path(path), 0) {
        Some(i) => groups[i].1,
        None => seq![],
    }
}

fn clone_backlinks(v: &Vec<Backlink>) -> (r: Vec<Backlink>)
    ensures
        view_seq(r@) == view_seq(v@),
{
    let mut r: Vec<Backlink> = Vec::new();
    let mut i: usize = 0;
    while i < v.len()
        invariant
            i <= v.len(),
            view_seq(r@) == view_seq(v@).take(i as int),
        decreases v.len() - i,
    {
        let b = &v[i];
        let ghost r0 = view_seq(r@);
        let nb = Backlink { source: clone_string(&b.source), line: b.line, text: clone_string(&b.text) };
        assert(nb@ == b@);
        assert(view_seq(v@)[i as int] == b@);
        r.push(nb);
        assert(view_seq(r@) =~= r0.push(nb@));
        assert(view_seq(r@) =~= view_seq(v@).take(i + 1));
        i += 1;
    }
    assert(view_seq(v@).take(v.len() as int) =~= view_seq(v@));
    r
}

/// The Mermaid edge from `source` to `target`.
pub open spec fn edge_spec(source: Seq<char>, target: Seq<char>) -> Seq<char> {
    seq![' ', ' '] + node_id_spec(source) + seq!['[', '"'] + display_path_spec(source) + seq![
        '"',
        ']',
        ' ',
        '-',
        '-',
        '>',
        ' ',
    ] + node_id_spec(target) + seq!['[', '"'] + display_path_spec(target) + seq!['"', ']']
}

/// The edges of one group: one per backlink.
pub open spec fn group_edges(target: Seq<char>, bls: Seq<BacklinkView>) -> Seq<Seq<char>> {
    bls.map_values(|b: BacklinkView| edge_spec(b.source, target))
}

/// All edges of the backlink groups.
pub open spec fn all_edges(groups: Seq<(Seq<char>, Seq<BacklinkView>)>) -> Seq<Seq<char>>
    decreases groups.len(),
{
    if groups.len() == 0 {
        seq![]
    } else {
        all_edges(groups.drop_last()) + group_edges(groups.last().0, groups.last().1)
    }
}

/// `graph TD` followed by one line per edge.
pub open spec fn mermaid_text(edges: Seq<Seq<char>>) -> Seq<char>
    decreases edges.len(),
{
    if edges.len() == 0 {
        seq!['g', 'r', 'a', 'p', 'h', ' ', 'T', 'D']
    } else {
        mermaid_text(edges.drop_last()) + seq!['\n'] + edges.last()
    }
}

fn edge_exec(source: &str, target: &str) -> (r: String)
    ensures
        r@ == edge_spec(source@, target@),
{
    let mut r = String::new();
    r.append("  ");
    r.append(node_id(source).as_str());
    r.append("[\"");
    r.append(display_path(source).as_str());
    r.append("\"] --> ");
    r.append(node_id(target).as_str());
    r.append("[\"");
    r.append(display_path(target).as_str());
    r.append("\"]");
    proof {
        reveal_strlit("  ");
        reveal_strlit("[\"");
        reveal_strlit("\"] --> ");
        reveal_strlit("\"]");
    }
    assert(r@ =~= edge_spec(source@, target@));
    r
}

impl KnowledgeReport {
    /// The backlinks into the document at `path` (see `backlinks_for_spec`).
    pub fn backlinks_for(&self, path: &str) -> (r: Vec<Backlink>)
        ensures
            view_seq(r@) == backlinks_for_spec(self@.backlinks, path@),
    {
        let target = normalize_path_str(path);
        let ghost gv = group_views(self.backlinks@);
        let mut i: usize = 0;
        while i < self.backlinks.len()
            invariant
                i <= self.backlinks.len(),
                gv == group_views(self.backlinks@),
                target@ == normalize_path(path@),
                find_group_from(gv, target@, 0) == find_group_from(gv, target@, i as int),
            decreases self.backlinks.len() - i,
        {
            if path_equiv_exec(self.backlinks[i].0.as_str(), target.as_str()) {
                return clone_backlinks(&self.backlinks[i].1);
            }
            i += 1;
        }
        Vec::new()
    }

    /// The link graph in Mermaid syntax: `graph TD` and one line per distinct edge from a
    /// linking document to a linked one, in lexicographic order.
    pub fn to_mermaid(&self) -> (r: String)
        ensures
            r@ == mermaid_text(sorted_texts(all_edges(self@.backlinks).to_set())),
    {
        let ghost gv = group_views(self.backlinks@);
        let mut edges: Vec<String> = Vec::new();
        let mut g: usize = 0;
        assert(gv.take(0) =~= Seq::<(Seq<char>, Seq<BacklinkView>)>::empty());
        while g < self.backlinks.len()
            invariant
                g <= self.backlinks.len(),
                gv == group_views(self.backlinks@),
                string_views(edges@) == all_edges(gv.take(g as int)),
            decreases self.backlinks.len() - g,
        {
            let target = &self.backlinks[g].0;
            let bls = &self.backlinks[g].1;
            let ghost base = string_views(edges@);
            let ghost bv = view_seq(bls@);
            let mut j: usize = 0;
            while j < bls.len()
                invariant
                    j <= bls.len(),
                    bv == view_seq(bls@),
                    string_views(edges@) == base + group_edges(target@, bv.take(j as int)),
                decreases bls.len() - j,
            {
                let ghost e0 = string_views(edges@);
                let e = edge_exec(bls[j].source.as_str(), target.as_str());
                edges.push(e);
                assert(group_edges(target@, bv.take(j + 1)) =~= group_edges(target@, bv.take(j as int)).push(
                    e@,
                ));
                assert(string_views(edges@) =~= e0.push(e@));
                j += 1;
            }
            assert(bv.take(bls.len() as int) =~= bv);
            assert(gv.take(g + 1).drop_last() =~= gv.take(g as int));
            assert(gv.take(g + 1).last() == (target@, bv));
            g += 1;
        }
        assert(gv.take(self.backlinks.len() as int) =~= gv);
        let sorted = sort_dedup_texts(edges);
        let mut r = String::new();
        r.append("graph TD");
        proof {
            reveal_strlit("graph TD");
        }
        let ghost sv = string_views(sorted@);
        proof {
            lemma_sorted_texts(sv, all_edges(gv).to_set());
        }
        assert(r@ =~= mermaid_text(sv.take(0)));
        let mut k: usize = 0;
        while k < sorted.len()
            invariant
                k <= sorted.len(),
                sv == string_views(sorted@),
                r@ == mermaid_text(sv.take(k as int)),
            decreases sorted.len() - k,
        {
            push_char(&mut r, '\n');
            r.append(sorted[k].as_str());
            assert(sv.take(k + 1).drop_last() =~= sv.take(k as int));
            k += 1;
        }
        assert(sv.take(sorted.len() as int) =~= sv);
        r
    }
}


/// The number of backlinks in all groups.
pub open spec fn backlink_total(groups: Seq<(Seq<char>, Seq<BacklinkView>)>) -> nat
    decreases groups.len(),
{
    if groups.len() == 0 {
        0
    } else {
        backlink_total(groups.drop_last()) + groups.last().1.len()
    }
}

/// The number of links among `es` into each of `keys`, added up.
pub open spec fn key_total(es: Seq<LinkEntry>, keys: Seq<Seq<char>>) -> nat
    decreases keys.len(),
{
    if keys.len() == 0 {
        0
    } else {
        key_total(es, keys.drop_last()) + backlinks_to(es, keys.last()).len()
    }
}

/// The targets of the backlink groups.
pub open spec fn group_keys(groups: Seq<(Seq<char>, Seq<BacklinkView>)>) -> Seq<Seq<char>> {
    Seq::new(groups.len(), |i: int| groups[i].0)
}

proof fn lemma_key_total_push(es: Seq<LinkEntry>, e: LinkEntry, keys: Seq<Seq<char>>)
    requires
        forall|i: int, j: int| 0 <= i < j < keys.len() ==> keys[i] != keys[j],
    ensures
        key_total(es.push(e), keys) == key_total(es, keys) + if keys.contains(e.target) {
            1nat
        } else {
            0nat
        },
    decreases keys.len(),
{
    if keys.len() > 0 {
        let init = keys.drop_last();
        lemma_key_total_push(es, e, init);
        lemma_backlinks_to_push(es, keys.last(), e);
        crate::sort::lemma_push_contains(init, keys.last(), e.target);
        assert(keys == init.push(keys.last()));
        if init.contains(e.target) && keys.last() == e.target {
            let j = choose|j: int| 0 <= j < init.len() && init[j] == e.target;
            assert(keys[j] == keys[keys.len() - 1]);
        }
    }
}

proof fn lemma_links_counted(es: Seq<LinkEntry>, known: Seq<Seq<char>>, keys: Seq<Seq<char>>)
    requires
        forall|i: int, j: int| 0 <= i < j < keys.len() ==> keys[i] != keys[j],
        forall|i: int| 0 <= i < keys.len() ==> known.contains(#[trigger] keys[i]),
        forall|k: int| 0 <= k < es.len() && known.contains(#[trigger] es[k].target) ==> keys.contains(es[k].target),
    ensures
        es.len() == broken_of(es, known).len() + key_total(es, keys),
    decreases es.len(),
{
    if es.len() == 0 {
        assert(broken_of(es, known) =~= Seq::<BrokenLinkView>::empty());
        lemma_key_total_empty(es, keys);
    } else {
        let init = es.drop_last();
        let e = es.last();
        assert(es == init.push(e));
        assert forall|k: int| 0 <= k < init.len() && known.contains(#[trigger] init[k].target) implies keys.contains(
            init[k].target,
        ) by {
            assert(es[k] == init[k]);
        }
        lemma_links_counted(init, known, keys);
        lemma_broken_of_push(init, known, e);
        lemma_key_total_push(init, e, keys);
        if !known.contains(e.target) && keys.contains(e.target) {
            let j = choose|j: int| 0 <= j < keys.len() && keys[j] == e.target;
            assert(known.contains(keys[j]));
        }
        if known.contains(e.target) {
            assert(known.contains(es[es.len() - 1].target));
        }
    }
}

proof fn lemma_key_total_empty(es: Seq<LinkEntry>, keys: Seq<Seq<char>>)
    requires
        es.len() == 0,
    ensures
        key_total(es, keys) == 0,
    decreases keys.len(),
{
    if keys.len() > 0 {
        lemma_key_total_empty(es, keys.drop_last());
        assert(es.filter(|e: LinkEntry| e.target == keys.last()) =~= Seq::<LinkEntry>::empty());
    }
}

proof fn lemma_group_total(es: Seq<LinkEntry>, groups: Seq<(Seq<char>, Seq<BacklinkView>)>)
    requires
        forall|i: int|
            0 <= i < groups.len() ==> (#[trigger] groups[i]).1.to_multiset() == backlinks_to(es, groups[i].0).to_multiset(),
    ensures
        backlink_total(groups) == key_total(es, group_keys(groups)),
    decreases groups.len(),
{
    broadcast use vstd::seq_lib::group_to_multiset_ensures;

    if groups.len() > 0 {
        let init = groups.drop_last();
        assert forall|i: int| 0 <= i < init.len() implies (#[trigger] init[i]).1.to_multiset() == backlinks_to(
            es,
            init[i].0,
        ).to_multiset() by {
            assert(init[i] == groups[i]);
        }
        lemma_group_total(es, init);
        assert(group_keys(groups).drop_last() =~= group_keys(init));
        let g = groups[groups.len() - 1];
        assert(g.1.to_multiset().len() == g.1.len());
        assert(backlinks_to(es, g.0).to_multiset().len() == backlinks_to(es, g.0).len());
    }
}

/// Every internal link is counted once: either as a broken link or as a backlink in the
/// group of the document it reaches.
pub proof fn lemma_links_partition(docs: Seq<DocumentView>, r: KnowledgeReportView)
    requires
        analyzed_as(docs, r),
    ensures
        r.total_links == r.broken_links.len() + backlink_total(r.backlinks),
{
    broadcast use vstd::seq_lib::group_to_multiset_ensures;

    let es = link_entries(docs);
    let known = known_paths(docs);
    let groups = r.backlinks;
    let keys = group_keys(groups);
    assert forall|i: int| 0 <= i < groups.len() implies (#[trigger] groups[i]).1.to_multiset() == backlinks_to(
        es,
        groups[i].0,
    ).to_multiset() by {}
    lemma_group_total(es, groups);
    assert forall|i: int, j: int| 0 <= i < j < keys.len() implies keys[i] != keys[j] by {
        assert(keys[i] == groups[i].0 && keys[j] == groups[j].0);
    }
    assert forall|i: int| 0 <= i < keys.len() implies known.contains(#[trigger] keys[i]) by {
        assert(keys[i] == groups[i].0);
    }
    assert forall|k: int| 0 <= k < es.len() && known.contains(#[trigger] es[k].target) implies keys.contains(
        es[k].target,
    ) by {
        let i = choose|i: int| 0 <= i < groups.len() && (#[trigger] groups[i].0) == es[k].target;
        assert(keys[i] == groups[i].0);
    }
    lemma_links_counted(es, known, keys);
    assert(r.broken_links.to_multiset().len() == r.broken_links.len());
    assert(broken_of(es, known).to_multiset().len() == broken_of(es, known).len());
}


/// Asking for the backlinks of a path or of its normalized form gives the same backlinks.
pub proof fn lemma_backlinks_for_normalized(groups: Seq<(Seq<char>, Seq<BacklinkView>)>, path: Seq<char>)
    ensures
        backlinks_for_spec(groups, normalize_path(path)) == backlinks_for_spec(groups, path),
{
    crate::paths::lemma_normalize_idempotent(path);
}


/// The normalized paths that the internal links of the documents resolve to.
pub open spec fn link_targets(docs: Seq<DocumentView>) -> Seq<Seq<char>> {
    link_entries(docs).map_values(|e: LinkEntry| e.target)
}

/// Tag statistics: each tag of any document has exactly one count, which is the number of
/// times it occurs over all documents, and the counts come largest first, then by tag.
pub proof fn lemma_tag_counts(docs: Seq<DocumentView>, r: KnowledgeReportView)
    requires
        analyzed_as(docs, r),
    ensures
        forall|i: int, j: int| 0 <= i < j < r.tags.len() ==> r.tags[i].tag != r.tags[j].tag,
        forall|t: Seq<char>|
            all_tags(docs).contains(t) <==> exists|i: int| 0 <= i < r.tags.len() && (#[trigger] r.tags[i].tag) == t,
        forall|i: int|
            0 <= i < r.tags.len() ==> (#[trigger] r.tags[i]).count == all_tags(docs).to_multiset().count(r.tags[i].tag),
        forall|i: int, j: int|
            #![trigger r.tags[i], r.tags[j]]
            0 <= i < j < r.tags.len() ==> r.tags[i].count > r.tags[j].count || (r.tags[i].count
                == r.tags[j].count && seq_lt(r.tags[i].tag, r.tags[j].tag)),
{
    assert forall|t: Seq<char>|
        all_tags(docs).contains(t) <== exists|i: int| 0 <= i < r.tags.len() && (#[trigger] r.tags[i].tag) == t by {
        if exists|i: int| 0 <= i < r.tags.len() && (#[trigger] r.tags[i].tag) == t {
            let i = choose|i: int| 0 <= i < r.tags.len() && (#[trigger] r.tags[i].tag) == t;
            assert(all_tags(docs).contains(r.tags[i].tag));
        }
    }
    assert forall|i: int, j: int| #![trigger r.tags[i], r.tags[j]] 0 <= i < j < r.tags.len() implies r.tags[i].count > r.tags[j].count || (
    r.tags[i].count == r.tags[j].count && seq_lt(r.tags[i].tag, r.tags[j].tag)) by {
        assert(tag_le(r.tags[i], r.tags[j]));
        assert(r.tags[i].tag != r.tags[j].tag);
    }
}

/// Orphans: each known document that no internal link resolves to (a link from a document
/// to itself counts), each once, in strictly increasing path order.
pub proof fn lemma_orphans_exact(docs: Seq<DocumentView>, r: KnowledgeReportView)
    requires
        analyzed_as(docs, r),
    ensures
        paths_ascending(r.orphan_documents),
        r.orphan_documents.no_duplicates(),
        forall|p: Seq<char>|
            r.orphan_documents.contains(p) <==> (known_paths(docs).contains(p) && !link_targets(
                docs,
            ).contains(p)),
{
    let es = link_entries(docs);
    let o = r.orphan_documents;
    assert forall|p: Seq<char>| has_inbound(es, p) <==> link_targets(docs).contains(p) by {
        if has_inbound(es, p) {
            let k = choose|k: int| 0 <= k < es.len() && (#[trigger] es[k]).target == p;
            assert(link_targets(docs)[k] == p);
        }
        if link_targets(docs).contains(p) {
            let k = choose|k: int| 0 <= k < link_targets(docs).len() && link_targets(docs)[k] == p;
            assert(es[k].target == p);
        }
    }
    assert forall|i: int, j: int| 0 <= i < o.len() && 0 <= j < o.len() && i != j implies o[i] != o[j] by {
        if i < j {
            assert(path_le(o[i], o[j]) && o[i] != o[j]);
        } else {
            assert(path_le(o[j], o[i]) && o[j] != o[i]);
        }
    }
}

/// Links: the broken links are, as a multiset, the internal links whose target is no known
/// document, ordered by source path, line and target; each backlink group is, as a multiset,
/// the links into one known document that has links, ordered by source path and line, the
/// groups are for distinct documents, and every link into a known document is in a group.
pub proof fn lemma_links_split(docs: Seq<DocumentView>, r: KnowledgeReportView)
    requires
        analyzed_as(docs, r),
    ensures
        r.broken_links.to_multiset() == broken_of(link_entries(docs), known_paths(docs)).to_multiset(),
        forall|i: int, j: int| 0 <= i < j < r.broken_links.len() ==> broken_le(r.broken_links[i], r.broken_links[j]),
        forall|i: int, j: int| 0 <= i < j < r.backlinks.len() ==> r.backlinks[i].0 != r.backlinks[j].0,
        forall|i: int|
            0 <= i < r.backlinks.len() ==> known_paths(docs).contains(#[trigger] r.backlinks[i].0)
                && link_targets(docs).contains(r.backlinks[i].0)
                && r.backlinks[i].1.to_multiset() == backlinks_to(link_entries(docs), r.backlinks[i].0).to_multiset(),
        forall|i: int, a: int, b: int|
            0 <= i < r.backlinks.len() && 0 <= a < b < r.backlinks[i].1.len() ==> backlink_le(
                #[trigger] r.backlinks[i].1[a],
                #[trigger] r.backlinks[i].1[b],
            ),
        forall|t: Seq<char>|
            known_paths(docs).contains(t) && link_targets(docs).contains(t) ==> exists|i: int|
                0 <= i < r.backlinks.len() && (#[trigger] r.backlinks[i].0) == t,
{
    let es = link_entries(docs);
    let known = known_paths(docs);
    let bl = r.broken_links;
    let pos = choose|pos: Seq<int>| placed(bl, broken_of(es, known), pos) && forall|a: int, b: int|
        #![trigger bl[a], bl[b]]
        0 <= a < b < bl.len() ==> broken_order()(bl[a], bl[b]) && (broken_order()(bl[b], bl[a]) ==> pos[a] < pos[b]);
    assert forall|i: int, j: int| 0 <= i < j < bl.len() implies broken_le(bl[i], bl[j]) by {
        assert(broken_order()(bl[i], bl[j]));
    }
    assert forall|i: int| 0 <= i < r.backlinks.len() implies known.contains(#[trigger] r.backlinks[i].0)
        && link_targets(docs).contains(r.backlinks[i].0) by {
        let p = r.backlinks[i].0;
        assert(has_inbound(es, p));
        let k = choose|k: int| 0 <= k < es.len() && (#[trigger] es[k]).target == p;
        assert(link_targets(docs)[k] == p);
    }
    assert forall|i: int, a: int, b: int|
        0 <= i < r.backlinks.len() && 0 <= a < b < r.backlinks[i].1.len() implies backlink_le(
            #[trigger] r.backlinks[i].1[a],
            #[trigger] r.backlinks[i].1[b],
        ) by {
        let g = r.backlinks[i].1;
        assert(stable_sort_of(g, backlinks_to(es, r.backlinks[i].0), backlink_order()));
        let pos = choose|pos: Seq<int>| placed(g, backlinks_to(es, r.backlinks[i].0), pos) && forall|x: int, y: int|
            #![trigger g[x], g[y]]
            0 <= x < y < g.len() ==> backlink_order()(g[x], g[y]) && (backlink_order()(g[y], g[x]) ==> pos[x] < pos[y]);
        assert(backlink_order()(g[a], g[b]));
    }
    assert forall|t: Seq<char>| known.contains(t) && link_targets(docs).contains(t) implies exists|i: int|
        0 <= i < r.backlinks.len() && (#[trigger] r.backlinks[i].0) == t by {
        let k = choose|k: int| 0 <= k < link_targets(docs).len() && link_targets(docs)[k] == t;
        assert(es[k].target == t);
        assert(known.contains(es[k].target));
    }
}


/// Some backlink of the groups draws the edge `x`.
pub open spec fn drawn(groups: Seq<(Seq<char>, Seq<BacklinkView>)>, x: Seq<char>) -> bool {
    exists|i: int, j: int|
        0 <= i < groups.len() && 0 <= j < groups[i].1.len() && x == edge_spec(
            (#[trigger] groups[i].1[j]).source,
            groups[i].0,
        )
}

proof fn lemma_all_edges_contains(groups: Seq<(Seq<char>, Seq<BacklinkView>)>, x: Seq<char>)
    ensures
        all_edges(groups).contains(x) <==> drawn(groups, x),
    decreases groups.len(),
{
    if groups.len() > 0 {
        let init = groups.drop_last();
        let g = groups.last();
        lemma_all_edges_contains(init, x);
        let e = group_edges(g.0, g.1);
        let a = all_edges(init);
        assert(all_edges(groups) == a + e);
        if all_edges(groups).contains(x) {
            let k = choose|k: int| 0 <= k < (a + e).len() && (a + e)[k] == x;
            if k < a.len() {
                assert(a.contains(x));
                let (i, j) = choose|i: int, j: int|
                    0 <= i < init.len() && 0 <= j < init[i].1.len() && x == edge_spec(
                        (#[trigger] init[i].1[j]).source,
                        init[i].0,
                    );
                assert(groups[i] == init[i]);
                assert(x == edge_spec(groups[i].1[j].source, groups[i].0));
            } else {
                assert(e[k - a.len()] == x);
                let m = groups.len() - 1;
                assert(x == edge_spec(groups[m].1[k - a.len()].source, groups[m].0));
            }
        }
        if drawn(groups, x) {
            let (i, j) = choose|i: int, j: int|
                0 <= i < groups.len() && 0 <= j < groups[i].1.len() && x == edge_spec(
                    (#[trigger] groups[i].1[j]).source,
                    groups[i].0,
                );
            if i < init.len() {
                assert(init[i] == groups[i]);
                assert(x == edge_spec(init[i].1[j].source, init[i].0));
                assert(drawn(init, x));
                let k = choose|k: int| 0 <= k < a.len() && a[k] == x;
                assert((a + e)[k] == x);
            } else {
                assert(e[j] == x);
                assert((a + e)[a.len() + j] == x);
            }
        }
    }
}

/// The Mermaid text is `graph TD` followed by the edge lines, which are strictly increasing
/// (so none repeats), and a line is among them exactly when some backlink draws that edge
/// from its source to its group's document; without backlinks the text is `graph TD` alone.
pub proof fn lemma_mermaid_lines(groups: Seq<(Seq<char>, Seq<BacklinkView>)>)
    ensures
        strictly_sorted(sorted_texts(all_edges(groups).to_set())),
        forall|x: Seq<char>| sorted_texts(all_edges(groups).to_set()).contains(x) <==> drawn(groups, x),
        (forall|i: int| 0 <= i < groups.len() ==> (#[trigger] groups[i]).1.len() == 0) ==> mermaid_text(
            sorted_texts(all_edges(groups).to_set()),
        ) == "graph TD"@,
{
    let q = sorted_texts(all_edges(groups).to_set());
    lemma_sorted_texts_of(all_edges(groups));
    assert forall|x: Seq<char>| q.contains(x) <==> drawn(groups, x) by {
        lemma_all_edges_contains(groups, x);
    }
    if forall|i: int| 0 <= i < groups.len() ==> (#[trigger] groups[i]).1.len() == 0 {
        if q.len() > 0 {
            assert(q.contains(q[0]));
            assert(drawn(groups, q[0]));
            let (i, j) = choose|i: int, j: int|
                0 <= i < groups.len() && 0 <= j < groups[i].1.len() && q[0] == edge_spec(
                    (#[trigger] groups[i].1[j]).source,
                    groups[i].0,
                );
            assert(groups[i].1.len() == 0);
        }
        reveal_strlit("graph TD");
        assert(mermaid_text(q) =~= "graph TD"@);
    }
}


/// A link target's fragment (from the first `#`) and query (from the first `?`) play no part in
/// where the link leads: a target `a#rest` or `a?rest`, where `a` has neither `#` nor `?`,
/// resolves exactly as the plain target `a` does.
pub proof fn lemma_resolve_ignores_fragment(source: Seq<char>, l: LinkView, a: Seq<char>, sep: char, rest: Seq<char>)
    requires
        sep == '#' || sep == '?',
        l.target == a + seq![sep] + rest,
        !a.contains('#'),
        !a.contains('?'),
    ensures
        resolve_spec(source, l) == resolve_spec(source, LinkView { target: a, ..l }),
{
    let t = l.target;
    assert(t.take(a.len() as int) =~= a);
    assert(t[a.len() as int] == sep);
    crate::text::lemma_before_first_keeps(t, '#', a);
    let h = before_first(t, '#');
    assert(h.take(a.len() as int) =~= a);
    crate::text::lemma_before_first_keeps(h, '?', a);
    if sep == '#' {
        assert(h == a);
        assert(h.take(a.len() as int) =~= h);
    } else {
        assert(h.len() > a.len());
        assert(h == t.take(h.len() as int));
        assert(h[a.len() as int] == t.take(h.len() as int)[a.len() as int]);
        assert(h[a.len() as int] == t[a.len() as int]);
    }
    assert(before_first(h, '?') == a);
    assert(a.take(a.len() as int) =~= a);
    crate::text::lemma_before_first_keeps(a, '#', a);
    crate::text::lemma_before_first_keeps(a, '?', a);
    assert(before_first(a, '#') == a);
    assert(before_first(a, '?') == a);
    assert(clean_target_spec(t) == clean_target_spec(a));
}

} // verus!
