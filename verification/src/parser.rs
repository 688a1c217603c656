//! Parsing Markdown headings, links and tags.
use vstd::prelude::*;
use crate::text::{
    chars_of, lowercase, matches_at, matches_chars_at, spec_is_alphanumeric, spec_lowercase,
    starts_with, string_of, strip_trailing, strip_trailing_chars, sub_chars, trim, trim_chars,
    is_alphanumeric, find, find_from, char_views, lines, split_lines, trim_start, trim_start_chars, find_chars_from, lemma_find_from, push_char, push_chars,
};
use crate::sort::{lemma_strictly_sorted_unique, sort_dedup_texts, strictly_sorted};
use crate::types::{Document, DocumentId, DocumentView, Heading, HeadingView, Link, LinkKind, LinkView, opt_view};

verus! {

/// The number of leading `c` characters of `s[from..]`.
pub open spec fn run_len(s: Seq<char>, from: int, c: char) -> nat
    decreases s.len() - from,
{
    if 0 <= from < s.len() && s[from] == c {
        1 + run_len(s, from + 1, c)
    } else {
        0
    }
}

/// The heading a (left-trimmed) line holds: one to six `#`, a space, and a text that is not
/// empty once trimmed and stripped of closing `#`.
pub open spec fn heading_spec(line: Seq<char>, line_no: usize) -> Option<HeadingView> {
    let n = run_len(line, 0, '#');
    if n == 0 || n > 6 {
        None
    } else {
        let rest = line.skip(n as int);
        if !(rest.len() > 0 && rest[0] == ' ') {
            None
        } else {
            let text = trim(strip_trailing(trim(rest), '#'));
            if text.len() == 0 {
                None
            } else {
                Some(HeadingView { level: n as usize, text, line: line_no })
            }
        }
    }
}

fn run_len_exec(s: &[char], from: usize, c: char) -> (r: usize)
    requires
        from <= s.len(),
    ensures
        r == run_len(s@, from as int, c),
        from + r <= s.len(),
{
    let mut k = from;
    while k < s.len() && s[k] == c
        invariant
            from <= k <= s.len(),
            run_len(s@, from as int, c) == (k - from) + run_len(s@, k as int, c),
        decreases s.len() - k,
    {
        k += 1;
    }
    k - from
}

/// The heading a (left-trimmed) line holds (see `heading_spec`).
pub fn parse_heading(line: &[char], line_no: usize) -> (r: Option<Heading>)
    ensures
        match heading_spec(line@, line_no) {
            Some(h) => r is Some && r.unwrap()@ == h,
            None => r is None,
        },
{
    let n = run_len_exec(line, 0, '#');
    if n == 0 || n > 6 {
        return None;
    }
    let rest = sub_chars(line, n, line.len());
    assert(rest@ =~= line@.skip(n as int));
    if !(rest.len() > 0 && rest[0] == ' ') {
        return None;
    }
    let t1 = trim_chars(&rest);
    let t2 = strip_trailing_chars(&t1, '#');
    let text = trim_chars(&t2);
    if text.len() == 0 {
        return None;
    }
    Some(Heading { level: n, text: string_of(&text), line: line_no })
}

/// A character that may continue a tag.
pub open spec fn is_tag_char(c: char) -> bool {
    spec_is_alphanumeric(c) || c == '_' || c == '-' || c == '/'
}

/// The number of tag characters starting at `from`.
pub open spec fn tag_run(s: Seq<char>, from: int) -> nat
    decreases s.len() - from,
{
    if 0 <= from < s.len() && is_tag_char(s[from]) {
        1 + tag_run(s, from + 1)
    } else {
        0
    }
}

/// The tags of `line[from..]`: each `#` followed by tag characters gives those characters,
/// lowercased; a `# ` at the very start of the line is a heading marker, not a tag.
pub open spec fn tags_from(line: Seq<char>, from: int) -> Seq<Seq<char>>
    decreases line.len() - from,
{
    if from < 0 || from >= line.len() {
        seq![]
    } else if line[from] != '#' {
        tags_from(line, from + 1)
    } else if from == 0 && starts_with(line, seq!['#', ' ']) {
        tags_from(line, 1)
    } else {
        let n = tag_run(line, from + 1);
        if from + 1 + n > line.len() {
            seq![]
        } else if n > 0 {
            seq![spec_lowercase(line.subrange(from + 1, from + 1 + n))] + tags_from(
                line,
                from + 1 + n,
            )
        } else {
            tags_from(line, from + 1 + n)
        }
    }
}

fn tag_run_exec(s: &[char], from: usize) -> (r: usize)
    requires
        from <= s.len(),
    ensures
        r == tag_run(s@, from as int),
        from + r <= s.len(),
{
    let mut k = from;
    while k < s.len() && (is_alphanumeric(s[k]) || s[k] == '_' || s[k] == '-' || s[k] == '/')
        invariant
            from <= k <= s.len(),
            tag_run(s@, from as int) == (k - from) + tag_run(s@, k as int),
        decreases s.len() - k,
    {
        k += 1;
    }
    k - from
}

/// The views of a sequence of texts.
pub open spec fn views(v: Seq<String>) -> Seq<Seq<char>> {
    v.map_values(|x: String| x@)
}

/// The tags of a line (see `tags_from`).
pub fn parse_tags(line: &[char]) -> (r: Vec<String>)
    ensures
        views(r@) == tags_from(line@, 0),
        forall|k: int| 0 <= k < r.len() ==> (#[trigger] r@[k])@.len() > 0,
{
    let mut r: Vec<String> = Vec::new();
    let mut i: usize = 0;
    let head = ['#', ' '];
    assert(head@ == seq!['#', ' ']);
    while i < line.len()
        invariant
            i <= line.len(),
            head@ == seq!['#', ' '],
            tags_from(line@, 0) == views(r@) + tags_from(line@, i as int),
            forall|k: int| 0 <= k < r.len() ==> (#[trigger] r@[k])@.len() > 0,
        decreases line.len() - i,
    {
        if line[i] != '#' {
            i += 1;
        } else if i == 0 && matches_chars_at(line, &head, 0) {
            i = 1;
        } else {
            let n = tag_run_exec(line, i + 1);
            if n > 0 {
                let tag = sub_chars(line, i + 1, i + 1 + n);
                let s = string_of(&tag);
                assert(s@.len() == n);
                let low = lowercase(s.as_str());
                let ghost before = r@;
                r.push(low);
                assert(views(r@) =~= views(before).push(low@));
                assert(views(before) + tags_from(line@, i as int) =~= views(r@) + tags_from(
                    line@,
                    i + 1 + n,
                ));
            }
            i = i + 1 + n;
        }
    }
    assert(views(r@) + tags_from(line@, i as int) =~= views(r@));
    r
}

/// Targets that leave the knowledge base.
pub open spec fn is_external_spec(t: Seq<char>) -> bool {
    starts_with(t, seq!['h', 't', 't', 'p', ':', '/', '/']) || starts_with(
        t,
        seq!['h', 't', 't', 'p', 's', ':', '/', '/'],
    ) || starts_with(t, seq!['m', 'a', 'i', 'l', 't', 'o', ':'])
}

pub fn is_external_target(t: &[char]) -> (r: bool)
    ensures
        r == is_external_spec(t@),
{
    let a = ['h', 't', 't', 'p', ':', '/', '/'];
    let b = ['h', 't', 't', 'p', 's', ':', '/', '/'];
    let c = ['m', 'a', 'i', 'l', 't', 'o', ':'];
    assert(a@ == seq!['h', 't', 't', 'p', ':', '/', '/']);
    assert(b@ == seq!['h', 't', 't', 'p', 's', ':', '/', '/']);
    assert(c@ == seq!['m', 'a', 'i', 'l', 't', 'o', ':']);
    matches_chars_at(t, &a, 0) || matches_chars_at(t, &b, 0) || matches_chars_at(t, &c, 0)
}

} // verus!

verus! {

/// The link a wiki link's inner text gives: the target before the first `|`, the text after
/// it, both trimmed.
pub open spec fn wiki_link_of(value: Seq<char>, line_no: usize) -> LinkView {
    let raw = seq!['[', '['] + value + seq![']', ']'];
    match find(value, seq!['|']) {
        Some(p) => LinkView {
            raw,
            target: trim(value.take(p)),
            text: Some(trim(value.skip(p + 1))),
            line: line_no,
            kind: LinkKind::Wiki,
        },
        None => LinkView { raw, target: trim(value), text: None, line: line_no, kind: LinkKind::Wiki },
    }
}

/// The wiki links `[[target|text]]` of `line[from..]` whose target is not empty.
pub open spec fn wiki_links_from(line: Seq<char>, from: int, line_no: usize) -> Seq<LinkView>
    decreases line.len() - from,
{
    if from < 0 || from > line.len() {
        seq![]
    } else {
        match find_from(line, seq!['[', '['], from) {
            None => seq![],
            Some(s) => match find_from(line, seq![']', ']'], s + 2) {
                None => seq![],
                Some(e) => if from <= s && s + 2 <= e && e + 2 <= line.len() {
                    let link = wiki_link_of(line.subrange(s + 2, e), line_no);
                    let rest = wiki_links_from(line, e + 2, line_no);
                    if link.target.len() > 0 {
                        seq![link] + rest
                    } else {
                        rest
                    }
                } else {
                    seq![]
                },
            },
        }
    }
}

pub open spec fn link_views(v: Seq<crate::types::Link>) -> Seq<LinkView> {
    v.map_values(|l: crate::types::Link| l@)
}

fn wiki_link_exec(value: &[char], line_no: usize) -> (r: crate::types::Link)
    ensures
        r@ == wiki_link_of(value@, line_no),
{
    let mut raw = String::new();
    push_char(&mut raw, '[');
    push_char(&mut raw, '[');
    push_chars(&mut raw, value);
    push_char(&mut raw, ']');
    push_char(&mut raw, ']');
    assert(raw@ =~= seq!['[', '['] + value@ + seq![']', ']']);
    let bar = ['|'];
    assert(bar@ == seq!['|']);
    proof {
        lemma_find_from(value@, seq!['|'], 0);
    }
    match find_chars_from(value, &bar, 0) {
        Some(p) => {
            let before = sub_chars(value, 0, p);
            let after = sub_chars(value, p + 1, value.len());
            assert(before@ =~= value@.take(p as int));
            assert(after@ =~= value@.skip(p + 1));
            let target = trim_chars(&before);
            let text = trim_chars(&after);
            crate::types::Link {
                raw,
                target: string_of(&target),
                text: Some(string_of(&text)),
                line: line_no,
                kind: LinkKind::Wiki,
            }
        },
        None => {
            let target = trim_chars(value);
            crate::types::Link {
                raw,
                target: string_of(&target),
                text: None,
                line: line_no,
                kind: LinkKind::Wiki,
            }
        },
    }
}

/// The wiki links of a line (see `wiki_links_from`).
pub fn parse_wiki_links(line: &[char], line_no: usize) -> (r: Vec<crate::types::Link>)
    ensures
        link_views(r@) == wiki_links_from(line@, 0, line_no),
{
    let open = ['[', '['];
    let close = [']', ']'];
    assert(open@ == seq!['[', '[']);
    assert(close@ == seq![']', ']']);
    let mut r: Vec<crate::types::Link> = Vec::new();
    let mut from: usize = 0;
    loop
        invariant
            from <= line.len(),
            open@ == seq!['[', '['],
            close@ == seq![']', ']'],
            wiki_links_from(line@, 0, line_no) == link_views(r@) + wiki_links_from(
                line@,
                from as int,
                line_no,
            ),
        decreases line.len() - from,
    {
        proof {
            lemma_find_from(line@, seq!['[', '['], from as int);
        }
        let s = match find_chars_from(line, &open, from) {
            Some(s) => s,
            None => {
                assert(link_views(r@) + wiki_links_from(line@, from as int, line_no) =~= link_views(r@));
                return r;
            },
        };
        proof {
            lemma_find_from(line@, seq![']', ']'], s + 2);
        }
        let e = match find_chars_from(line, &close, s + 2) {
            Some(e) => e,
            None => {
                assert(link_views(r@) + wiki_links_from(line@, from as int, line_no) =~= link_views(r@));
                return r;
            },
        };
        assert(matches_at(line@, seq![']', ']'], e as int));
        let value = sub_chars(line, s + 2, e);
        let link = wiki_link_exec(&value, line_no);
        let ghost before = r@;
        if !link.target.as_str().is_empty() {
            r.push(link);
            assert(link_views(r@) =~= link_views(before).push(link@));
        }
        assert(link@.target.len() == link.target@.len());
        assert(link_views(before) + wiki_links_from(line@, from as int, line_no) =~= link_views(r@)
            + wiki_links_from(line@, e + 2, line_no));
        from = e + 2;
    }
}

} // verus!

verus! {

/// The link `[text](target)` spanning `line[i..=ct]` with its label closing at `cl`.
pub open spec fn md_link_of(line: Seq<char>, i: int, cl: int, ct: int, line_no: usize) -> LinkView {
    let text = trim(line.subrange(i + 1, cl));
    let target = trim(line.subrange(cl + 2, ct));
    LinkView {
        raw: line.subrange(i, ct + 1),
        target,
        text: if text.len() == 0 {
            None
        } else {
            Some(text)
        },
        line: line_no,
        kind: if is_external_spec(target) {
            LinkKind::External
        } else {
            LinkKind::Markdown
        },
    }
}

/// The Markdown links `[text](target)` of `line[i..]` whose target is not empty; a `[`
/// right after `!` starts an image, not a link.
pub open spec fn md_links_from(line: Seq<char>, i: int, line_no: usize) -> Seq<LinkView>
    decreases line.len() - i,
{
    if i < 0 || i >= line.len() {
        seq![]
    } else if line[i] != '[' || (i > 0 && line[i - 1] == '!') {
        md_links_from(line, i + 1, line_no)
    } else {
        match find_from(line, seq![']'], i + 1) {
            None => seq![],
            Some(cl) => if !(i < cl < line.len()) {
                seq![]
            } else if !(cl + 1 < line.len() && line[cl + 1] == '(') {
                md_links_from(line, cl + 1, line_no)
            } else {
                match find_from(line, seq![')'], cl + 2) {
                    None => seq![],
                    Some(ct) => if !(cl + 2 <= ct < line.len()) {
                        seq![]
                    } else {
                        let link = md_link_of(line, i, cl, ct, line_no);
                        let rest = md_links_from(line, ct + 1, line_no);
                        if link.target.len() > 0 {
                            seq![link] + rest
                        } else {
                            rest
                        }
                    },
                }
            },
        }
    }
}

fn md_link_exec(line: &[char], i: usize, cl: usize, ct: usize, line_no: usize) -> (r:
    crate::types::Link)
    requires
        i < cl,
        cl + 2 <= ct < line.len(),
    ensures
        r@ == md_link_of(line@, i as int, cl as int, ct as int, line_no),
{
    let text = trim_chars(&sub_chars(line, i + 1, cl));
    let target = trim_chars(&sub_chars(line, cl + 2, ct));
    let raw = sub_chars(line, i, ct + 1);
    let kind = if is_external_target(&target) {
        LinkKind::External
    } else {
        LinkKind::Markdown
    };
    crate::types::Link {
        raw: string_of(&raw),
        target: string_of(&target),
        text: if text.len() == 0 {
            None
        } else {
            Some(string_of(&text))
        },
        line: line_no,
        kind,
    }
}

/// The Markdown links of a line (see `md_links_from`).
pub fn parse_markdown_links(line: &[char], line_no: usize) -> (r: Vec<crate::types::Link>)
    ensures
        link_views(r@) == md_links_from(line@, 0, line_no),
{
    let close_label = [']'];
    let close_target = [')'];
    assert(close_label@ == seq![']']);
    assert(close_target@ == seq![')']);
    let mut r: Vec<crate::types::Link> = Vec::new();
    let mut i: usize = 0;
    while i < line.len()
        invariant
            i <= line.len(),
            close_label@ == seq![']'],
            close_target@ == seq![')'],
            md_links_from(line@, 0, line_no) == link_views(r@) + md_links_from(
                line@,
                i as int,
                line_no,
            ),
        decreases line.len() - i,
    {
        if line[i] != '[' || (i > 0 && line[i - 1] == '!') {
            i += 1;
            continue;
        }
        proof {
            lemma_find_from(line@, seq![']'], i + 1);
        }
        let cl = match find_chars_from(line, &close_label, i + 1) {
            Some(cl) => cl,
            None => {
                assert(link_views(r@) + md_links_from(line@, i as int, line_no) =~= link_views(r@));
                return r;
            },
        };
        if !(cl + 1 < line.len() && line[cl + 1] == '(') {
            i = cl + 1;
            continue;
        }
        proof {
            lemma_find_from(line@, seq![')'], cl + 2);
        }
        let ct = match find_chars_from(line, &close_target, cl + 2) {
            Some(ct) => ct,
            None => {
                assert(link_views(r@) + md_links_from(line@, i as int, line_no) =~= link_views(r@));
                return r;
            },
        };
        let link = md_link_exec(line, i, cl, ct, line_no);
        let ghost before = r@;
        if !link.target.as_str().is_empty() {
            r.push(link);
            assert(link_views(r@) =~= link_views(before).push(link@));
        }
        assert(link_views(before) + md_links_from(line@, i as int, line_no) =~= link_views(r@)
            + md_links_from(line@, ct + 1, line_no));
        i = ct + 1;
    }
    assert(link_views(r@) + md_links_from(line@, i as int, line_no) =~= link_views(r@));
    r
}

} // verus!

verus! {

/// What the parser has collected after some lines.
pub ghost struct ScanState {
    pub in_fence: bool,
    pub headings: Seq<HeadingView>,
    pub links: Seq<LinkView>,
    pub tags: Seq<Seq<char>>,
}

/// A line (left-trimmed) that opens or closes a fenced code block.
pub open spec fn is_fence(trimmed: Seq<char>) -> bool {
    starts_with(trimmed, seq!['`', '`', '`']) || starts_with(trimmed, seq!['~', '~', '~'])
}

pub open spec fn opt_seq<T>(o: Option<T>) -> Seq<T> {
    match o {
        Some(x) => seq![x],
        None => seq![],
    }
}

/// Headings, links and tags of a sequence of lines, numbered from 1; fence lines toggle a
/// code block, and nothing inside a code block counts.
pub open spec fn scan_lines(ls: Seq<Seq<char>>) -> ScanState
    decreases ls.len(),
{
    if ls.len() == 0 {
        ScanState { in_fence: false, headings: seq![], links: seq![], tags: seq![] }
    } else {
        let st = scan_lines(ls.drop_last());
        let line = ls.last();
        let no = ls.len() as usize;
        let trimmed = trim_start(line);
        if is_fence(trimmed) {
            ScanState { in_fence: !st.in_fence, ..st }
        } else if st.in_fence {
            st
        } else {
            ScanState {
                in_fence: false,
                headings: st.headings + opt_seq(heading_spec(trimmed, no)),
                links: st.links + wiki_links_from(line, 0, no) + md_links_from(line, 0, no),
                tags: st.tags + tags_from(line, 0),
            }
        }
    }
}

/// The first heading of level 1.
pub open spec fn first_level_one(hs: Seq<HeadingView>) -> Option<HeadingView>
    decreases hs.len(),
{
    if hs.len() == 0 {
        None
    } else if hs[0].level == 1 {
        Some(hs[0])
    } else {
        first_level_one(hs.drop_first())
    }
}

/// A document's title: its first level-1 heading, else its first heading.
pub open spec fn title_spec(hs: Seq<HeadingView>) -> Option<Seq<char>> {
    match first_level_one(hs) {
        Some(h) => Some(h.text),
        None => if hs.len() > 0 {
            Some(hs[0].text)
        } else {
            None
        },
    }
}

/// What `parse_markdown` returns for `id`, `path` and `content`.
pub open spec fn parsed_as(id: usize, path: Seq<char>, content: Seq<char>, d: DocumentView) -> bool {
    let st = scan_lines(lines(content));
    &&& d.id == id
    &&& d.path == path
    &&& d.body == content
    &&& d.lines == lines(content)
    &&& d.headings == st.headings
    &&& d.title == title_spec(st.headings)
    &&& d.links == st.links
    &&& strictly_sorted(d.tags)
    &&& forall|t: Seq<char>| d.tags.contains(t) <==> st.tags.contains(t)
    &&& forall|i: int| 0 <= i < d.tags.len() ==> (#[trigger] d.tags[i]).len() > 0
}

fn is_fence_exec(t: &[char]) -> (r: bool)
    ensures
        r == is_fence(t@),
{
    let a = ['`', '`', '`'];
    let b = ['~', '~', '~'];
    assert(a@ == seq!['`', '`', '`']);
    assert(b@ == seq!['~', '~', '~']);
    matches_chars_at(t, &a, 0) || matches_chars_at(t, &b, 0)
}

fn title_of(hs: &Vec<Heading>) -> (r: Option<String>)
    ensures
        opt_view(r) == title_spec(hs@.map_values(|h: Heading| h@)),
{
    let ghost hv = hs@.map_values(|h: Heading| h@);
    let mut i: usize = 0;
    assert(hv.skip(0) =~= hv);
    while i < hs.len()
        invariant
            i <= hs.len(),
            hv == hs@.map_values(|h: Heading| h@),
            first_level_one(hv) == first_level_one(hv.skip(i as int)),
        decreases hs.len() - i,
    {
        if hs[i].level == 1 {
            return Some(hs[i].text.clone());
        }
        assert(hv.skip(i as int).drop_first() =~= hv.skip(i + 1));
        i += 1;
    }
    if hs.len() > 0 {
        Some(hs[0].text.clone())
    } else {
        None
    }
}

/// Parses a Markdown document: its lines, headings, links and tags (see `parsed_as`).
pub fn parse_markdown(id: DocumentId, path: &str, content: &str) -> (d: Document)
    ensures
        parsed_as(id.0, path@, content@, d@),
{
    let cs = chars_of(content);
    let ls = split_lines(&cs);
    let ghost lv = char_views(ls@);
    let mut headings: Vec<Heading> = Vec::new();
    let mut links: Vec<Link> = Vec::new();
    let mut tags: Vec<String> = Vec::new();
    let mut line_texts: Vec<String> = Vec::new();
    let mut in_fence = false;
    let mut i: usize = 0;
    assert(lv.take(0) =~= Seq::<Seq<char>>::empty());
    while i < ls.len()
        invariant
            i <= ls.len(),
            lv == char_views(ls@),
            lv == lines(content@),
            ({
                let st = scan_lines(lv.take(i as int));
                &&& st.in_fence == in_fence
                &&& st.headings == headings@.map_values(|h: Heading| h@)
                &&& st.links == link_views(links@)
                &&& st.tags == views(tags@)
            }),
            views(line_texts@) == lv.take(i as int),
            forall|k: int| 0 <= k < tags.len() ==> (#[trigger] tags@[k])@.len() > 0,
        decreases ls.len() - i,
    {
        let line = &ls[i];
        let no = i + 1;
        let ghost st = scan_lines(lv.take(i as int));
        assert(lv.take(i + 1).drop_last() =~= lv.take(i as int));
        assert(lv.take(i + 1).last() == line@);
        let trimmed = trim_start_chars(line.as_slice());
        let ghost h0 = headings@;
        let ghost l0 = links@;
        let ghost t0 = tags@;
        if is_fence_exec(&trimmed) {
            in_fence = !in_fence;
        } else if !in_fence {
            match parse_heading(&trimmed, no) {
                Some(h) => {
                    headings.push(h);
                    assert(headings@.map_values(|h: Heading| h@) =~= h0.map_values(|h: Heading| h@).push(h@));
                },
                None => {},
            }
            assert(headings@.map_values(|h: Heading| h@) =~= st.headings + opt_seq(heading_spec(trimmed@, no)));
            let mut w = parse_wiki_links(line.as_slice(), no);
            let mut m = parse_markdown_links(line.as_slice(), no);
            let ghost wv = link_views(w@);
            let ghost mv = link_views(m@);
            links.append(&mut w);
            links.append(&mut m);
            assert(link_views(links@) =~= link_views(l0) + wv + mv);
            let mut t = parse_tags(line.as_slice());
            let ghost tv = views(t@);
            let ghost tt = t@;
            tags.append(&mut t);
            assert(views(tags@) =~= views(t0) + tv);
            assert forall|k: int| 0 <= k < tags.len() implies (#[trigger] tags@[k])@.len() > 0 by {
                if k >= t0.len() {
                    assert(tags@[k] == tt[k - t0.len()]);
                } else {
                    assert(tags@[k] == t0[k]);
                }
            }
        }
        let ghost lt0 = line_texts@;
        line_texts.push(string_of(line.as_slice()));
        assert(views(line_texts@) =~= views(lt0).push(line@));
        i += 1;
    }
    assert(lv.take(ls.len() as int) =~= lv);
    let title = title_of(&headings);
    let ghost tags0 = tags@;
    let tags = sort_dedup_texts(tags);
    assert forall|k: int| 0 <= k < tags.len() implies (#[trigger] tags@[k])@.len() > 0 by {
        assert(crate::text::string_views(tags@)[k] == tags@[k]@);
        assert(crate::text::string_views(tags@).contains(tags@[k]@));
        let j = choose|j: int| 0 <= j < crate::text::string_views(tags0).len() && crate::text::string_views(tags0)[j] == tags@[k]@;
        assert(tags0[j]@ == tags@[k]@);
    }
    Document {
        id,
        path: string_of(&chars_of(path)),
        title,
        headings,
        body: string_of(&cs),
        lines: line_texts,
        links,
        tags,
    }
}


/// Parsing is a function of the id, the path and the content: two documents that both parse
/// from the same inputs are the same document.
pub proof fn lemma_parsed_as_unique(id: usize, path: Seq<char>, content: Seq<char>, a: DocumentView, b: DocumentView)
    requires
        parsed_as(id, path, content, a),
        parsed_as(id, path, content, b),
    ensures
        a == b,
{
    let st = scan_lines(lines(content));
    assert forall|t: Seq<char>| a.tags.contains(t) <==> b.tags.contains(t) by {
        assert(a.tags.contains(t) <==> st.tags.contains(t));
        assert(b.tags.contains(t) <==> st.tags.contains(t));
    }
    lemma_strictly_sorted_unique(a.tags, b.tags);
}


/// Line `k` (from 0) of `ls` counts: it is no fence line and no code block is open before it.
pub open spec fn counted_line(ls: Seq<Seq<char>>, k: int) -> bool {
    !is_fence(trim_start(ls[k])) && !scan_lines(ls.take(k)).in_fence
}

/// A tag as written: the lowercase form of a non-empty run of tag characters.
pub open spec fn tag_shaped(t: Seq<char>) -> bool {
    exists|w: Seq<char>|
        w.len() > 0 && (forall|m: int| 0 <= m < w.len() ==> is_tag_char(#[trigger] w[m])) && t == spec_lowercase(w)
}

proof fn lemma_wiki_lines(line: Seq<char>, from: int, no: usize)
    ensures
        forall|i: int| 0 <= i < wiki_links_from(line, from, no).len() ==> (#[trigger] wiki_links_from(line, from, no)[i]).line == no,
    decreases line.len() - from,
{
    if 0 <= from <= line.len() {
        match find_from(line, seq!['[', '['], from) {
            None => {},
            Some(st) => match find_from(line, seq![']', ']'], st + 2) {
                None => {},
                Some(e) => if from <= st && st + 2 <= e && e + 2 <= line.len() {
                    lemma_wiki_lines(line, e + 2, no);
                    let link = wiki_link_of(line.subrange(st + 2, e), no);
                    let rest = wiki_links_from(line, e + 2, no);
                    if link.target.len() > 0 {
                        assert forall|i: int| 0 <= i < (seq![link] + rest).len() implies (#[trigger] (seq![link] + rest)[i]).line == no by {
                            if i > 0 {
                                assert((seq![link] + rest)[i] == rest[i - 1]);
                            }
                        }
                    }
                },
            },
        }
    }
}

proof fn lemma_md_lines(line: Seq<char>, i: int, no: usize)
    ensures
        forall|k: int| 0 <= k < md_links_from(line, i, no).len() ==> (#[trigger] md_links_from(line, i, no)[k]).line == no,
    decreases line.len() - i,
{
    if 0 <= i < line.len() {
        if line[i] != '[' || (i > 0 && line[i - 1] == '!') {
            lemma_md_lines(line, i + 1, no);
        } else {
            match find_from(line, seq![']'], i + 1) {
                None => {},
                Some(cl) => if !(i < cl < line.len()) {
                } else if !(cl + 1 < line.len() && line[cl + 1] == '(') {
                    lemma_md_lines(line, cl + 1, no);
                } else {
                    match find_from(line, seq![')'], cl + 2) {
                        None => {},
                        Some(ct) => if cl + 2 <= ct < line.len() {
                            lemma_md_lines(line, ct + 1, no);
                            let link = md_link_of(line, i, cl, ct, no);
                            let rest = md_links_from(line, ct + 1, no);
                            if link.target.len() > 0 {
                                assert forall|k: int| 0 <= k < (seq![link] + rest).len() implies (#[trigger] (seq![link] + rest)[k]).line == no by {
                                    if k > 0 {
                                        assert((seq![link] + rest)[k] == rest[k - 1]);
                                    }
                                }
                            }
                        },
                    }
                },
            }
        }
    }
}

proof fn lemma_tag_run_chars(s: Seq<char>, from: int)
    ensures
        forall|m: int| from <= m < from + tag_run(s, from) ==> is_tag_char(#[trigger] s[m]),
        tag_run(s, from) > 0 ==> 0 <= from,
    decreases s.len() - from,
{
    if 0 <= from < s.len() && is_tag_char(s[from]) {
        lemma_tag_run_chars(s, from + 1);
    }
}

proof fn lemma_tags_shaped(line: Seq<char>, from: int)
    ensures
        forall|i: int| 0 <= i < tags_from(line, from).len() ==> tag_shaped(#[trigger] tags_from(line, from)[i]),
    decreases line.len() - from,
{
    if 0 <= from < line.len() {
        if line[from] != '#' {
            lemma_tags_shaped(line, from + 1);
            assert(tags_from(line, from) == tags_from(line, from + 1));
        } else if from == 0 && starts_with(line, seq!['#', ' ']) {
            lemma_tags_shaped(line, 1);
            assert(tags_from(line, from) == tags_from(line, 1));
        } else {
            let n = tag_run(line, from + 1);
            if from + 1 + n <= line.len() {
                lemma_tags_shaped(line, from + 1 + n);
                if n == 0 {
                    assert(tags_from(line, from) == tags_from(line, from + 1 + n));
                } else {
                    let w = line.subrange(from + 1, from + 1 + n);
                    lemma_tag_run_chars(line, from + 1);
                    assert forall|m: int| 0 <= m < w.len() implies is_tag_char(#[trigger] w[m]) by {
                        assert(w[m] == line[from + 1 + m]);
                    }
                    let t = spec_lowercase(w);
                    assert(tag_shaped(t));
                    let rest = tags_from(line, from + 1 + n);
                    assert(tags_from(line, from) == seq![t] + rest);
                    assert forall|i: int| 0 <= i < (seq![t] + rest).len() implies tag_shaped(#[trigger] (seq![t] + rest)[i]) by {
                        if i > 0 {
                            assert((seq![t] + rest)[i] == rest[i - 1]);
                        }
                    }
                }
            }
        }
    }
}

proof fn lemma_counted_prefix(ls: Seq<Seq<char>>)
    requires
        ls.len() > 0,
    ensures
        forall|k: int| 0 <= k < ls.len() - 1 ==> #[trigger] counted_line(ls, k) == counted_line(ls.drop_last(), k),
        forall|k: int| 0 <= k < ls.len() - 1 ==> #[trigger] ls.drop_last()[k] == ls[k],
        ls.take(ls.len() - 1) == ls.drop_last(),
{
    let init = ls.drop_last();
    assert(ls.take(ls.len() - 1) =~= init);
    assert forall|k: int| 0 <= k < ls.len() - 1 implies #[trigger] counted_line(ls, k) == counted_line(init, k) by {
        assert(ls.take(k) =~= init.take(k));
        assert(ls[k] == init[k]);
    }
}

proof fn lemma_run_len_bound(s: Seq<char>, from: int, c: char)
    requires
        0 <= from,
    ensures
        from + run_len(s, from, c) <= s.len() || run_len(s, from, c) == 0,
    decreases s.len() - from,
{
    if 0 <= from < s.len() && s[from] == c {
        lemma_run_len_bound(s, from + 1, c);
    }
}

proof fn lemma_scan_headings(ls: Seq<Seq<char>>)
    requires
        ls.len() <= usize::MAX,
    ensures
        forall|i: int|
            0 <= i < scan_lines(ls).headings.len() ==> {
                let h = #[trigger] scan_lines(ls).headings[i];
                &&& 1 <= h.line <= ls.len()
                &&& counted_line(ls, h.line - 1)
                &&& heading_spec(trim_start(ls[h.line - 1]), h.line) == Some(h)
            },
        forall|i: int, j: int|
            #![trigger scan_lines(ls).headings[i], scan_lines(ls).headings[j]]
            0 <= i < j < scan_lines(ls).headings.len() ==> scan_lines(ls).headings[i].line < scan_lines(ls).headings[j].line,
    decreases ls.len(),
{
    if ls.len() > 0 {
        let init = ls.drop_last();
        lemma_scan_headings(init);
        lemma_counted_prefix(ls);
        let st = scan_lines(init);
        let n = ls.len() - 1;
        let line = ls.last();
        let no = ls.len() as usize;
        let trimmed = trim_start(line);
        let r = scan_lines(ls);
        if is_fence(trimmed) || st.in_fence {
            assert(r.headings == st.headings);
            assert forall|i: int| 0 <= i < r.headings.len() implies {
                let h = #[trigger] r.headings[i];
                &&& 1 <= h.line <= ls.len()
                &&& counted_line(ls, h.line - 1)
                &&& heading_spec(trim_start(ls[h.line - 1]), h.line) == Some(h)
            } by {
                let h = st.headings[i];
                assert(counted_line(init, h.line - 1));
                assert(init[h.line - 1] == ls[h.line - 1]);
            }
        } else {
            assert(counted_line(ls, n));
            let hs = opt_seq(heading_spec(trimmed, no));
            assert(r.headings == st.headings + hs);
            assert forall|i: int| 0 <= i < r.headings.len() implies {
                let h = #[trigger] r.headings[i];
                &&& 1 <= h.line <= ls.len()
                &&& counted_line(ls, h.line - 1)
                &&& heading_spec(trim_start(ls[h.line - 1]), h.line) == Some(h)
            } by {
                if i < st.headings.len() {
                    let h = st.headings[i];
                    assert(r.headings[i] == h);
                    assert(counted_line(init, h.line - 1));
                    assert(init[h.line - 1] == ls[h.line - 1]);
                } else {
                    assert(r.headings[i] == hs[0]);
                }
            }
            assert forall|i: int, j: int|
                #![trigger r.headings[i], r.headings[j]]
                0 <= i < j < r.headings.len() implies r.headings[i].line < r.headings[j].line by {
                if j < st.headings.len() {
                    assert(r.headings[i] == st.headings[i] && r.headings[j] == st.headings[j]);
                } else {
                    assert(r.headings[j] == hs[0]);
                    assert(r.headings[i] == st.headings[i]);
                }
            }
        }
    }
}

proof fn lemma_scan_links(ls: Seq<Seq<char>>)
    requires
        ls.len() <= usize::MAX,
    ensures
        forall|i: int|
            0 <= i < scan_lines(ls).links.len() ==> {
                let l = #[trigger] scan_lines(ls).links[i];
                1 <= l.line <= ls.len() && counted_line(ls, l.line - 1)
            },
        forall|i: int, j: int|
            #![trigger scan_lines(ls).links[i], scan_lines(ls).links[j]]
            0 <= i < j < scan_lines(ls).links.len() ==> scan_lines(ls).links[i].line <= scan_lines(ls).links[j].line,
    decreases ls.len(),
{
    if ls.len() > 0 {
        let init = ls.drop_last();
        lemma_scan_links(init);
        lemma_counted_prefix(ls);
        let st = scan_lines(init);
        let n = ls.len() - 1;
        let line = ls.last();
        let no = ls.len() as usize;
        let trimmed = trim_start(line);
        let r = scan_lines(ls);
        if is_fence(trimmed) || st.in_fence {
            assert(r.links == st.links);
            assert forall|i: int| 0 <= i < r.links.len() implies {
                let l = #[trigger] r.links[i];
                1 <= l.line <= ls.len() && counted_line(ls, l.line - 1)
            } by {
                assert(counted_line(init, st.links[i].line - 1));
            }
        } else {
            assert(counted_line(ls, n));
            let wl = wiki_links_from(line, 0, no);
            let ml = md_links_from(line, 0, no);
            assert(r.links == st.links + wl + ml);
            lemma_wiki_lines(line, 0, no);
            lemma_md_lines(line, 0, no);
            let stl = st.links + wl;
            assert forall|i: int| 0 <= i < r.links.len() implies {
                let l = #[trigger] r.links[i];
                1 <= l.line <= ls.len() && counted_line(ls, l.line - 1)
            } by {
                if i < st.links.len() {
                    assert(r.links[i] == st.links[i]);
                    assert(counted_line(init, st.links[i].line - 1));
                } else if i < stl.len() {
                    assert(r.links[i] == wl[i - st.links.len()]);
                } else {
                    assert(r.links[i] == ml[i - stl.len()]);
                }
            }
            assert forall|i: int, j: int|
                #![trigger r.links[i], r.links[j]]
                0 <= i < j < r.links.len() implies r.links[i].line <= r.links[j].line by {
                if j < st.links.len() {
                    assert(r.links[i] == st.links[i] && r.links[j] == st.links[j]);
                } else {
                    if j < stl.len() {
                        assert(r.links[j] == wl[j - st.links.len()]);
                    } else {
                        assert(r.links[j] == ml[j - stl.len()]);
                    }
                    if i < st.links.len() {
                        assert(r.links[i] == st.links[i]);
                    } else if i < stl.len() {
                        assert(r.links[i] == wl[i - st.links.len()]);
                    } else {
                        assert(r.links[i] == ml[i - stl.len()]);
                    }
                }
            }
        }
    }
}

proof fn lemma_scan_tags(ls: Seq<Seq<char>>)
    ensures
        forall|i: int|
            0 <= i < scan_lines(ls).tags.len() ==> tag_shaped(#[trigger] scan_lines(ls).tags[i]) && exists|k: int|
                0 <= k < ls.len() && counted_line(ls, k) && tags_from(ls[k], 0).contains(scan_lines(ls).tags[i]),
    decreases ls.len(),
{
    if ls.len() > 0 {
        let init = ls.drop_last();
        lemma_scan_tags(init);
        lemma_counted_prefix(ls);
        let st = scan_lines(init);
        let n = ls.len() - 1;
        let line = ls.last();
        let trimmed = trim_start(line);
        let r = scan_lines(ls);
        if is_fence(trimmed) || st.in_fence {
            assert(r.tags == st.tags);
            assert forall|i: int| 0 <= i < r.tags.len() implies tag_shaped(#[trigger] r.tags[i]) && exists|k: int|
                0 <= k < ls.len() && counted_line(ls, k) && tags_from(ls[k], 0).contains(r.tags[i]) by {
                let k = choose|k: int| 0 <= k < init.len() && counted_line(init, k) && tags_from(init[k], 0).contains(st.tags[i]);
                assert(counted_line(ls, k));
                assert(ls[k] == init[k]);
            }
        } else {
            assert(counted_line(ls, n));
            let tl = tags_from(line, 0);
            assert(r.tags == st.tags + tl);
            lemma_tags_shaped(line, 0);
            assert forall|i: int| 0 <= i < r.tags.len() implies tag_shaped(#[trigger] r.tags[i]) && exists|k: int|
                0 <= k < ls.len() && counted_line(ls, k) && tags_from(ls[k], 0).contains(r.tags[i]) by {
                if i < st.tags.len() {
                    assert(r.tags[i] == st.tags[i]);
                    let k = choose|k: int| 0 <= k < init.len() && counted_line(init, k) && tags_from(init[k], 0).contains(st.tags[i]);
                    assert(counted_line(ls, k));
                    assert(ls[k] == init[k]);
                } else {
                    assert(r.tags[i] == tl[i - st.tags.len()]);
                    assert(tl.contains(r.tags[i]));
                    assert(ls[n] == line);
                }
            }
        }
    }
}

/// Parsing keeps the id, the path, the body and its lines; every heading stands on a line
/// that counts (no fence line, no open code block), which reads as one to six `#`, a space and
/// the heading's non-empty text; headings come in strictly increasing line order, and the title
/// is the first level-1 heading, else the first heading; every link is on a counted line, in
/// non-decreasing line order; the tags are strictly sorted, each the lowercase form of a run of
/// tag characters after a `#` on a counted line, and every such tag is among them.
pub proof fn lemma_parse_laws(id: usize, path: Seq<char>, content: Seq<char>, d: DocumentView)
    requires
        parsed_as(id, path, content, d),
        d.lines.len() <= usize::MAX,
    ensures
        d.id == id && d.path == path && d.body == content && d.lines == lines(content),
        d.title == title_spec(d.headings),
        forall|i: int|
            0 <= i < d.headings.len() ==> {
                let h = #[trigger] d.headings[i];
                &&& 1 <= h.line <= d.lines.len()
                &&& counted_line(d.lines, h.line - 1)
                &&& 1 <= h.level <= 6
                &&& h.text.len() > 0
                &&& run_len(trim_start(d.lines[h.line - 1]), 0, '#') == h.level
                &&& trim_start(d.lines[h.line - 1]).len() > h.level
                &&& trim_start(d.lines[h.line - 1])[h.level as int] == ' '
            },
        forall|i: int, j: int|
            #![trigger d.headings[i], d.headings[j]]
            0 <= i < j < d.headings.len() ==> d.headings[i].line < d.headings[j].line,
        forall|i: int|
            0 <= i < d.links.len() ==> {
                let l = #[trigger] d.links[i];
                1 <= l.line <= d.lines.len() && counted_line(d.lines, l.line - 1)
            },
        forall|i: int, j: int|
            #![trigger d.links[i], d.links[j]]
            0 <= i < j < d.links.len() ==> d.links[i].line <= d.links[j].line,
        strictly_sorted(d.tags),
        forall|t: Seq<char>|
            d.tags.contains(t) <==> exists|k: int|
                0 <= k < d.lines.len() && counted_line(d.lines, k) && tags_from(d.lines[k], 0).contains(t),
        forall|i: int| 0 <= i < d.tags.len() ==> tag_shaped(#[trigger] d.tags[i]) && d.tags[i].len() > 0,
{
    let ls = lines(content);
    let st = scan_lines(ls);
    lemma_scan_headings(ls);
    lemma_scan_links(ls);
    lemma_scan_tags(ls);
    assert forall|i: int| 0 <= i < d.headings.len() implies {
        let h = #[trigger] d.headings[i];
        &&& 1 <= h.line <= d.lines.len()
        &&& counted_line(d.lines, h.line - 1)
        &&& 1 <= h.level <= 6
        &&& h.text.len() > 0
        &&& run_len(trim_start(d.lines[h.line - 1]), 0, '#') == h.level
        &&& trim_start(d.lines[h.line - 1]).len() > h.level
        &&& trim_start(d.lines[h.line - 1])[h.level as int] == ' '
    } by {
        let h = st.headings[i];
        assert(heading_spec(trim_start(ls[h.line - 1]), h.line) == Some(h));
        let tl = trim_start(ls[h.line - 1]);
        let nn = run_len(tl, 0, '#');
        lemma_run_len_bound(tl, 0, '#');
        let rest = tl.skip(nn as int);
        assert(rest.len() > 0 && rest[0] == ' ');
        assert(nn == h.level);
        assert(rest[0] == tl[h.level as int]);
    }
    assert forall|t: Seq<char>|
        d.tags.contains(t) <==> exists|k: int|
            0 <= k < d.lines.len() && counted_line(d.lines, k) && tags_from(d.lines[k], 0).contains(t) by {
        if d.tags.contains(t) {
            assert(st.tags.contains(t));
            let i = choose|i: int| 0 <= i < st.tags.len() && st.tags[i] == t;
            assert(tag_shaped(st.tags[i]));
        }
        if exists|k: int| 0 <= k < d.lines.len() && counted_line(d.lines, k) && tags_from(d.lines[k], 0).contains(t) {
            let k = choose|k: int| 0 <= k < d.lines.len() && counted_line(d.lines, k) && tags_from(d.lines[k], 0).contains(t);
            lemma_scan_tags_complete(ls, k, t);
        }
    }
    assert forall|i: int| 0 <= i < d.tags.len() implies tag_shaped(#[trigger] d.tags[i]) by {
        assert(d.tags.contains(d.tags[i]));
        assert(st.tags.contains(d.tags[i]));
        let j = choose|j: int| 0 <= j < st.tags.len() && st.tags[j] == d.tags[i];
        assert(tag_shaped(st.tags[j]));
    }
}

proof fn lemma_scan_tags_complete(ls: Seq<Seq<char>>, k: int, t: Seq<char>)
    requires
        0 <= k < ls.len(),
        counted_line(ls, k),
        tags_from(ls[k], 0).contains(t),
    ensures
        scan_lines(ls).tags.contains(t),
    decreases ls.len(),
{
    let init = ls.drop_last();
    let n = ls.len() - 1;
    let st = scan_lines(init);
    assert(ls.take(n) =~= init);
    if k < n {
        assert(ls.take(k) =~= init.take(k));
        assert(ls[k] == init[k]);
        lemma_scan_tags_complete(init, k, t);
        let i = choose|i: int| 0 <= i < st.tags.len() && st.tags[i] == t;
        let r = scan_lines(ls);
        if !(is_fence(trim_start(ls.last())) || st.in_fence) {
            assert(r.tags == st.tags + tags_from(ls.last(), 0));
            assert(r.tags[i] == t);
        } else {
            assert(r.tags == st.tags);
        }
    } else {
        let tl = tags_from(ls.last(), 0);
        let r = scan_lines(ls);
        assert(r.tags == st.tags + tl);
        let i = choose|i: int| 0 <= i < tl.len() && tl[i] == t;
        assert(r.tags[st.tags.len() + i] == t);
    }
}


/// A target that starts with `http://`, `https://` or `mailto:`.
pub open spec fn web_or_mail(t: Seq<char>) -> bool {
    ||| t.len() >= 7 && t.take(7) == "http://"@
    ||| t.len() >= 8 && t.take(8) == "https://"@
    ||| t.len() >= 7 && t.take(7) == "mailto:"@
}

/// Exactly the targets starting with `http://`, `https://` or `mailto:` leave the knowledge
/// base.
pub proof fn lemma_external_prefixes(t: Seq<char>)
    ensures
        is_external_spec(t) <==> web_or_mail(t),
{
    reveal_strlit("http://");
    reveal_strlit("https://");
    reveal_strlit("mailto:");
    let a = seq!['h', 't', 't', 'p', ':', '/', '/'];
    let b = seq!['h', 't', 't', 'p', 's', ':', '/', '/'];
    let c = seq!['m', 'a', 'i', 'l', 't', 'o', ':'];
    assert("http://"@ =~= a);
    assert("https://"@ =~= b);
    assert("mailto:"@ =~= c);
    if t.len() >= 7 {
        assert(t.subrange(0, 7) =~= t.take(7));
    }
    if t.len() >= 8 {
        assert(t.subrange(0, 8) =~= t.take(8));
    }
}

proof fn lemma_md_kinds(line: Seq<char>, i: int, no: usize)
    ensures
        forall|k: int|
            0 <= k < md_links_from(line, i, no).len() ==> (#[trigger] md_links_from(line, i, no)[k]).kind == if web_or_mail(
                md_links_from(line, i, no)[k].target,
            ) {
                LinkKind::External
            } else {
                LinkKind::Markdown
            },
    decreases line.len() - i,
{
    if 0 <= i < line.len() {
        if line[i] != '[' || (i > 0 && line[i - 1] == '!') {
            lemma_md_kinds(line, i + 1, no);
        } else {
            match find_from(line, seq![']'], i + 1) {
                None => {},
                Some(cl) => if !(i < cl < line.len()) {
                } else if !(cl + 1 < line.len() && line[cl + 1] == '(') {
                    lemma_md_kinds(line, cl + 1, no);
                } else {
                    match find_from(line, seq![')'], cl + 2) {
                        None => {},
                        Some(ct) => if cl + 2 <= ct < line.len() {
                            lemma_md_kinds(line, ct + 1, no);
                            let link = md_link_of(line, i, cl, ct, no);
                            lemma_external_prefixes(link.target);
                            let rest = md_links_from(line, ct + 1, no);
                            if link.target.len() > 0 {
                                assert forall|k: int| 0 <= k < (seq![link] + rest).len() implies (#[trigger] (seq![link] + rest)[k]).kind
                                    == if web_or_mail((seq![link] + rest)[k].target) {
                                    LinkKind::External
                                } else {
                                    LinkKind::Markdown
                                } by {
                                    if k > 0 {
                                        assert((seq![link] + rest)[k] == rest[k - 1]);
                                    }
                                }
                            }
                        },
                    }
                },
            }
        }
    }
}

proof fn lemma_wiki_kinds(line: Seq<char>, from: int, no: usize)
    ensures
        forall|i: int| 0 <= i < wiki_links_from(line, from, no).len() ==> (#[trigger] wiki_links_from(line, from, no)[i]).kind == LinkKind::Wiki,
    decreases line.len() - from,
{
    if 0 <= from <= line.len() {
        match find_from(line, seq!['[', '['], from) {
            None => {},
            Some(st) => match find_from(line, seq![']', ']'], st + 2) {
                None => {},
                Some(e) => if from <= st && st + 2 <= e && e + 2 <= line.len() {
                    lemma_wiki_kinds(line, e + 2, no);
                    let link = wiki_link_of(line.subrange(st + 2, e), no);
                    let rest = wiki_links_from(line, e + 2, no);
                    if link.target.len() > 0 {
                        assert forall|i: int| 0 <= i < (seq![link] + rest).len() implies (#[trigger] (seq![link] + rest)[i]).kind == LinkKind::Wiki by {
                            if i > 0 {
                                assert((seq![link] + rest)[i] == rest[i - 1]);
                            }
                        }
                    }
                },
            },
        }
    }
}

proof fn lemma_scan_kinds(ls: Seq<Seq<char>>)
    ensures
        forall|i: int|
            0 <= i < scan_lines(ls).links.len() ==> {
                let l = #[trigger] scan_lines(ls).links[i];
                ||| l.kind == LinkKind::Wiki
                ||| l.kind == (if web_or_mail(l.target) { LinkKind::External } else { LinkKind::Markdown })
            },
    decreases ls.len(),
{
    if ls.len() > 0 {
        let init = ls.drop_last();
        lemma_scan_kinds(init);
        let st = scan_lines(init);
        let line = ls.last();
        let no = ls.len() as usize;
        let r = scan_lines(ls);
        if !(is_fence(trim_start(line)) || st.in_fence) {
            let wl = wiki_links_from(line, 0, no);
            let ml = md_links_from(line, 0, no);
            lemma_wiki_kinds(line, 0, no);
            lemma_md_kinds(line, 0, no);
            assert(r.links == st.links + wl + ml);
            let stl = st.links + wl;
            assert forall|i: int| 0 <= i < r.links.len() implies {
                let l = #[trigger] r.links[i];
                ||| l.kind == LinkKind::Wiki
                ||| l.kind == (if web_or_mail(l.target) { LinkKind::External } else { LinkKind::Markdown })
            } by {
                if i < st.links.len() {
                    assert(r.links[i] == st.links[i]);
                } else if i < stl.len() {
                    assert(r.links[i] == wl[i - st.links.len()]);
                } else {
                    assert(r.links[i] == ml[i - stl.len()]);
                }
            }
        } else {
            assert(r.links == st.links);
        }
    }
}

/// Link kinds: every link of a parsed document is a wiki link, or a Markdown link whose kind
/// is `External` exactly when its target starts with `http://`, `https://` or `mailto:`, and
/// `Markdown` otherwise.
pub proof fn lemma_link_kinds(id: usize, path: Seq<char>, content: Seq<char>, d: DocumentView)
    requires
        parsed_as(id, path, content, d),
    ensures
        forall|i: int|
            0 <= i < d.links.len() ==> {
                let l = #[trigger] d.links[i];
                ||| l.kind == LinkKind::Wiki
                ||| (l.kind == LinkKind::External && web_or_mail(l.target))
                ||| (l.kind == LinkKind::Markdown && !web_or_mail(l.target))
            },
{
    lemma_scan_kinds(lines(content));
}

} // verus!
