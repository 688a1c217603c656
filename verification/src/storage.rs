//! The document cache: a text with a header line and one line per document.
use vstd::prelude::*;
use crate::error::MdSeekError;
use crate::parser::{lemma_parsed_as_unique, parse_markdown, parsed_as};
use crate::text::{
    all_digits, char_views, chars_of, decimal, is_digit, lemma_decimal_parses, lemma_find_char_at,
    lemma_find_char_none, lemma_lines_cons, lemma_trim_nonempty, lines, parse_usize, parse_usize_spec,
    push_char, push_decimal, spec_is_whitespace, split, split_chars, split_from, split_lines, string_of, trim,
    trim_chars,
};
use crate::types::{Document, DocumentId, DocumentView};

verus! {

broadcast use vstd::string::group_string_axioms;

/// The first line of every cache.
pub open spec fn cache_header() -> Seq<char> {
    "MDSEEK_CACHE_V1"@
}

/// A character in the cache: `\`, tab, line feed and carriage return as two-character escapes.
pub open spec fn escape_char(c: char) -> Seq<char> {
    if c == '\\' {
        seq!['\\', '\\']
    } else if c == '\t' {
        seq!['\\', 't']
    } else if c == '\n' {
        seq!['\\', 'n']
    } else if c == '\r' {
        seq!['\\', 'r']
    } else {
        seq![c]
    }
}

/// A text in the cache (see `escape_char`).
pub open spec fn escape_spec(s: Seq<char>) -> Seq<char>
    decreases s.len(),
{
    if s.len() == 0 {
        seq![]
    } else {
        escape_char(s[0]) + escape_spec(s.drop_first())
    }
}

/// A cached text read back: `\\`, `\t`, `\n` and `\r` for their characters, and an error for a
/// `\` at the end or before another character.
pub open spec fn unescape_spec(s: Seq<char>) -> Result<Seq<char>, Seq<char>>
    decreases s.len(),
{
    if s.len() == 0 {
        Ok(seq![])
    } else if s[0] != '\\' {
        match unescape_spec(s.drop_first()) {
            Ok(r) => Ok(seq![s[0]] + r),
            Err(e) => Err(e),
        }
    } else if s.len() == 1 {
        Err("invalid trailing escape sequence"@)
    } else {
        let c = s[1];
        let d = if c == '\\' {
            Some('\\')
        } else if c == 't' {
            Some('\t')
        } else if c == 'n' {
            Some('\n')
        } else if c == 'r' {
            Some('\r')
        } else {
            None
        };
        match d {
            None => Err("invalid escape sequence: \\"@ + seq![c]),
            Some(d) => match unescape_spec(s.skip(2)) {
                Ok(r) => Ok(seq![d] + r),
                Err(e) => Err(e),
            },
        }
    }
}

/// A text for the cache (see `escape_spec`).
pub fn escape(value: &str) -> (r: String)
    ensures
        r@ == escape_spec(value@),
{
    let cs = chars_of(value);
    let mut out = String::new();
    let mut i: usize = 0;
    assert(cs@.skip(0) =~= cs@);
    while i < cs.len()
        invariant
            i <= cs.len(),
            cs@ == value@,
            out@ + escape_spec(cs@.skip(i as int)) == escape_spec(value@),
        decreases cs.len() - i,
    {
        let c = cs[i];
        if c == '\\' {
            push_char(&mut out, '\\');
            push_char(&mut out, '\\');
        } else if c == '\t' {
            push_char(&mut out, '\\');
            push_char(&mut out, 't');
        } else if c == '\n' {
            push_char(&mut out, '\\');
            push_char(&mut out, 'n');
        } else if c == '\r' {
            push_char(&mut out, '\\');
            push_char(&mut out, 'r');
        } else {
            push_char(&mut out, c);
        }
        assert(cs@.skip(i as int).drop_first() =~= cs@.skip(i + 1));
        assert(cs@.skip(i as int)[0] == c);
        i += 1;
    }
    assert(escape_spec(cs@.skip(cs.len() as int)) =~= Seq::<char>::empty());
    assert(out@ =~= escape_spec(value@));
    out
}

/// A cached text read back (see `unescape_spec`); a bad escape is a storage error.
pub fn unescape(value: &str) -> (r: Result<String, MdSeekError>)
    ensures
        match unescape_spec(value@) {
            Ok(t) => r matches Ok(s) && s@ == t,
            Err(m) => r matches Err(MdSeekError::Storage(e)) && e@ == m,
        },
{
    let cs = chars_of(value);
    let mut out = String::new();
    let mut i: usize = 0;
    assert(cs@.skip(0) =~= cs@);
    while i < cs.len()
        invariant
            i <= cs.len(),
            cs@ == value@,
            match unescape_spec(cs@.skip(i as int)) {
                Ok(t) => unescape_spec(value@) == Ok::<Seq<char>, Seq<char>>(out@ + t),
                Err(m) => unescape_spec(value@) == Err::<Seq<char>, Seq<char>>(m),
            },
        decreases cs.len() - i,
    {
        let ghost rest = cs@.skip(i as int);
        let c = cs[i];
        assert(rest[0] == c);
        if c != '\\' {
            assert(rest.drop_first() =~= cs@.skip(i + 1));
            let ghost o0 = out@;
            push_char(&mut out, c);
            proof {
                match unescape_spec(cs@.skip(i + 1)) {
                    Ok(t) => {
                        assert(o0 + (seq![c] + t) =~= out@ + t);
                    },
                    Err(m) => {},
                }
            }
            i += 1;
        } else {
            if i + 1 >= cs.len() {
                let mut e = String::new();
                e.append("invalid trailing escape sequence");
                return Err(MdSeekError::Storage(e));
            }
            let n = cs[i + 1];
            assert(rest[1] == n);
            assert(rest.skip(2) =~= cs@.skip(i + 2));
            let d = if n == '\\' {
                '\\'
            } else if n == 't' {
                '\t'
            } else if n == 'n' {
                '\n'
            } else if n == 'r' {
                '\r'
            } else {
                let mut e = String::new();
                e.append("invalid escape sequence: \\");
                push_char(&mut e, n);
                return Err(MdSeekError::Storage(e));
            };
            let ghost o0 = out@;
            push_char(&mut out, d);
            proof {
                match unescape_spec(cs@.skip(i + 2)) {
                    Ok(t) => {
                        assert(o0 + (seq![d] + t) =~= out@ + t);
                    },
                    Err(m) => {},
                }
            }
            i += 2;
        }
    }
    assert(cs@.skip(cs.len() as int) =~= Seq::<char>::empty());
    assert(out@ + seq![] =~= out@);
    Ok(out)
}

/// Reading back an escaped text gives the text.
pub proof fn lemma_unescape_escape(s: Seq<char>)
    ensures
        unescape_spec(escape_spec(s)) == Ok::<Seq<char>, Seq<char>>(s),
    decreases s.len(),
{
    if s.len() > 0 {
        lemma_unescape_escape(s.drop_first());
        let c = s[0];
        let e = escape_spec(s);
        let rest = escape_spec(s.drop_first());
        assert(e == escape_char(c) + rest);
        if c == '\\' || c == '\t' || c == '\n' || c == '\r' {
            assert(e.len() >= 2 && e[0] == '\\');
            assert(e.skip(2) =~= rest);
            if c == '\\' {
                assert(e[1] == '\\');
            } else if c == '\t' {
                assert(e[1] == 't');
            } else if c == '\n' {
                assert(e[1] == 'n');
            } else {
                assert(e[1] == 'r');
            }
            assert(unescape_spec(e) == Ok::<Seq<char>, Seq<char>>(seq![c] + s.drop_first()));
        } else {
            assert(e[0] == c);
            assert(e.drop_first() =~= rest);
            assert(unescape_spec(e) == Ok::<Seq<char>, Seq<char>>(seq![c] + s.drop_first()));
        }
        assert(seq![c] + s.drop_first() =~= s);
    } else {
        assert(s =~= Seq::<char>::empty());
    }
}


/// The cache line of a document: `DOC`, its number, its escaped path and its escaped body,
/// separated by tabs.
pub open spec fn record_line(d: DocumentView) -> Seq<char> {
    "DOC\t"@ + decimal(d.id as nat) + seq!['\t'] + escape_spec(d.path) + seq!['\t'] + escape_spec(d.body)
}

/// The record lines of documents, each ended by a line break.
pub open spec fn record_lines(docs: Seq<DocumentView>) -> Seq<char>
    decreases docs.len(),
{
    if docs.len() == 0 {
        seq![]
    } else {
        record_line(docs[0]) + seq!['\n'] + record_lines(docs.drop_first())
    }
}

/// The cache of documents: the header line, then one record line per document.
pub open spec fn cache_spec(docs: Seq<DocumentView>) -> Seq<char> {
    cache_header() + seq!['\n'] + record_lines(docs)
}

/// The cache text of documents (see `cache_spec`).
pub fn cache_text(documents: &[Document]) -> (r: String)
    ensures
        r@ == cache_spec(crate::types::doc_views(documents@)),
{
    let ghost dv = crate::types::doc_views(documents@);
    let mut out = String::new();
    out.append("MDSEEK_CACHE_V1");
    push_char(&mut out, '\n');
    let mut i: usize = 0;
    assert(dv.skip(0) =~= dv);
    while i < documents.len()
        invariant
            i <= documents.len(),
            dv == crate::types::doc_views(documents@),
            out@ + record_lines(dv.skip(i as int)) == cache_spec(dv),
        decreases documents.len() - i,
    {
        let d = &documents[i];
        let ghost o0 = out@;
        out.append("DOC\t");
        push_decimal(&mut out, d.id.0);
        push_char(&mut out, '\t');
        out.append(escape(d.path.as_str()).as_str());
        push_char(&mut out, '\t');
        out.append(escape(d.body.as_str()).as_str());
        push_char(&mut out, '\n');
        assert(dv[i as int] == d@);
        assert(dv.skip(i as int).drop_first() =~= dv.skip(i + 1));
        assert(dv.skip(i as int)[0] == d@);
        assert(out@ =~= o0 + record_line(d@) + seq!['\n']);
        assert(out@ + record_lines(dv.skip(i + 1)) =~= o0 + record_lines(dv.skip(i as int)));
        i += 1;
    }
    assert(record_lines(dv.skip(documents.len() as int)) =~= Seq::<char>::empty());
    assert(out@ =~= cache_spec(dv));
    out
}

/// What a cache line holds: nothing for a blank line, else the number, path and body of a
/// document, or the message of what is wrong with it (`n` is its line number).
pub open spec fn record_of(line: Seq<char>, n: nat) -> Result<Option<(usize, Seq<char>, Seq<char>)>, Seq<char>> {
    if trim(line).len() == 0 {
        Ok(None)
    } else {
        let parts = split(line, '\t');
        if parts.len() != 4 || parts[0] != "DOC"@ {
            Err("invalid cache record at line "@ + decimal(n))
        } else {
            match parse_usize_spec(parts[1]) {
                None => Err("invalid document id at line "@ + decimal(n)),
                Some(id) => match unescape_spec(parts[2]) {
                    Err(e) => Err(e),
                    Ok(p) => match unescape_spec(parts[3]) {
                        Err(e) => Err(e),
                        Ok(b) => Ok(Some((id, p, b))),
                    },
                },
            }
        }
    }
}

/// The records of the lines from `ls[k]` on, or the message of the first bad one.
pub open spec fn records_from(ls: Seq<Seq<char>>, k: int) -> Result<Seq<(usize, Seq<char>, Seq<char>)>, Seq<char>>
    decreases ls.len() - k,
{
    if k < 0 || k >= ls.len() {
        Ok(seq![])
    } else {
        match record_of(ls[k], (k + 1) as nat) {
            Err(e) => Err(e),
            Ok(None) => records_from(ls, k + 1),
            Ok(Some(r)) => match records_from(ls, k + 1) {
                Ok(rs) => Ok(seq![r] + rs),
                Err(e) => Err(e),
            },
        }
    }
}

/// The records of a cache, or the message of what is wrong with it: an empty text, another
/// first line than the header, or a bad record.
pub open spec fn cache_records(content: Seq<char>) -> Result<Seq<(usize, Seq<char>, Seq<char>)>, Seq<char>> {
    let ls = lines(content);
    if ls.len() == 0 {
        Err("cache file is empty"@)
    } else if ls[0] != cache_header() {
        Err("unsupported cache format: "@ + ls[0])
    } else {
        records_from(ls, 1)
    }
}

fn storage_error(m: String) -> (r: MdSeekError)
    ensures
        r matches MdSeekError::Storage(e) && e@ == m@,
{
    MdSeekError::Storage(m)
}

fn line_error(what: &str, n: usize) -> (r: MdSeekError)
    ensures
        r matches MdSeekError::Storage(e) && e@ == what@ + decimal(n as nat),
{
    let mut m = String::new();
    m.append(what);
    push_decimal(&mut m, n);
    MdSeekError::Storage(m)
}

fn is_text(v: &Vec<char>, t: &str) -> (r: bool)
    ensures
        r == (v@ == t@),
{
    crate::text::chars_eq(v.as_slice(), chars_of(t).as_slice())
}

/// The record of one cache line (see `record_of`).
fn read_record(line: &Vec<char>, n: usize) -> (r: Result<Option<(usize, String, String)>, MdSeekError>)
    ensures
        match record_of(line@, n as nat) {
            Ok(None) => r matches Ok(None),
            Ok(Some(x)) => r matches Ok(Some(y)) && y.0 == x.0 && y.1@ == x.1 && y.2@ == x.2,
            Err(m) => r matches Err(MdSeekError::Storage(e)) && e@ == m,
        },
{
    if trim_chars(line.as_slice()).len() == 0 {
        return Ok(None);
    }
    let parts = split_chars(line.as_slice(), '\t');
    assert(char_views(parts@) == split(line@, '\t'));
    if parts.len() != 4 {
        return Err(line_error("invalid cache record at line ", n));
    }
    assert(char_views(parts@)[0] == parts@[0]@);
    assert(char_views(parts@)[1] == parts@[1]@);
    assert(char_views(parts@)[2] == parts@[2]@);
    assert(char_views(parts@)[3] == parts@[3]@);
    if !is_text(&parts[0], "DOC") {
        return Err(line_error("invalid cache record at line ", n));
    }
    let id = match parse_usize(parts[1].as_slice()) {
        Some(v) => v,
        None => {
            return Err(line_error("invalid document id at line ", n));
        },
    };
    let path = match unescape(string_of(parts[2].as_slice()).as_str()) {
        Ok(p) => p,
        Err(e) => {
            return Err(e);
        },
    };
    let body = match unescape(string_of(parts[3].as_slice()).as_str()) {
        Ok(b) => b,
        Err(e) => {
            return Err(e);
        },
    };
    Ok(Some((id, path, body)))
}

/// The documents of a cache text, each parsed again from its path and body: where
/// `cache_records` has records, one document per record in order (see `parsed_as`); else a
/// storage error with its message.
pub fn parse_cache(content: &str) -> (r: Result<Vec<Document>, MdSeekError>)
    ensures
        match cache_records(content@) {
            Ok(rs) => r matches Ok(docs) && docs.len() == rs.len() && forall|i: int|
                0 <= i < rs.len() ==> parsed_as(rs[i].0, rs[i].1, rs[i].2, (#[trigger] docs@[i])@),
            Err(m) => r matches Err(MdSeekError::Storage(e)) && e@ == m,
        },
{
    let cs = chars_of(content);
    let ls = split_lines(cs.as_slice());
    let ghost lv = char_views(ls@);
    assert(lv == lines(content@));
    if ls.len() == 0 {
        let mut m = String::new();
        m.append("cache file is empty");
        return Err(storage_error(m));
    }
    assert(lv[0] == ls@[0]@);
    if !is_text(&ls[0], "MDSEEK_CACHE_V1") {
        let mut m = String::new();
        m.append("unsupported cache format: ");
        m.append(string_of(ls[0].as_slice()).as_str());
        return Err(storage_error(m));
    }
    let mut docs: Vec<Document> = Vec::new();
    let ghost mut taken: Seq<(usize, Seq<char>, Seq<char>)> = seq![];
    let mut k: usize = 1;
    while k < ls.len()
        invariant
            1 <= k <= ls.len(),
            lv == char_views(ls@),
            lv == lines(content@),
            lv.len() > 0 && lv[0] == cache_header(),
            docs.len() == taken.len(),
            forall|i: int|
                0 <= i < taken.len() ==> parsed_as(taken[i].0, taken[i].1, taken[i].2, (#[trigger] docs@[i])@),
            match records_from(lv, k as int) {
                Ok(rs) => records_from(lv, 1) == Ok::<Seq<(usize, Seq<char>, Seq<char>)>, Seq<char>>(taken + rs),
                Err(m) => records_from(lv, 1) == Err::<Seq<(usize, Seq<char>, Seq<char>)>, Seq<char>>(m),
            },
        decreases ls.len() - k,
    {
        assert(lv[k as int] == ls@[k as int]@);
        match read_record(&ls[k], k + 1) {
            Err(e) => {
                return Err(e);
            },
            Ok(None) => {},
            Ok(Some((id, path, body))) => {
                let d = parse_markdown(DocumentId(id), path.as_str(), body.as_str());
                let ghost t0 = taken;
                docs.push(d);
                proof {
                    taken = taken.push((id, path@, body@));
                    match records_from(lv, k + 1) {
                        Ok(rs) => {
                            assert(t0 + (seq![(id, path@, body@)] + rs) =~= taken + rs);
                        },
                        Err(m) => {},
                    }
                    assert forall|i: int| 0 <= i < taken.len() implies parsed_as(
                        taken[i].0,
                        taken[i].1,
                        taken[i].2,
                        (#[trigger] docs@[i])@,
                    ) by {
                        if i < t0.len() {
                            assert(taken[i] == t0[i]);
                        }
                    }
                }
            },
        }
        k += 1;
    }
    assert(taken + seq![] =~= taken);
    Ok(docs)
}


/// Whether `c` does not occur in `s`.
pub open spec fn lacks(s: Seq<char>, c: char) -> bool {
    forall|k: int| 0 <= k < s.len() ==> s[k] != c
}

/// An escaped text holds no tab, line feed or carriage return, so it fits in one field of a
/// cache line.
pub proof fn lemma_escape_plain(s: Seq<char>)
    ensures
        lacks(escape_spec(s), '\t'),
        lacks(escape_spec(s), '\n'),
        lacks(escape_spec(s), '\r'),
    decreases s.len(),
{
    if s.len() > 0 {
        lemma_escape_plain(s.drop_first());
        let a = escape_char(s[0]);
        let b = escape_spec(s.drop_first());
        let e = escape_spec(s);
        assert(e == a + b);
        assert forall|k: int| 0 <= k < e.len() implies #[trigger] e[k] != '\t' && e[k] != '\n' && e[k] != '\r' by {
            if k >= a.len() {
                assert(e[k] == b[k - a.len()]);
            }
        }
    }
}

proof fn lemma_decimal_plain(n: nat)
    ensures
        lacks(decimal(n), '\t'),
        lacks(decimal(n), '\n'),
        lacks(decimal(n), '\r'),
{
    lemma_decimal_parses_digits(n);
}

proof fn lemma_decimal_parses_digits(n: nat)
    ensures
        all_digits(decimal(n)),
    decreases n,
{
    if n >= 10 {
        lemma_decimal_parses_digits(n / 10);
        let d = decimal(n);
        assert forall|i: int| 0 <= i < d.len() implies is_digit(#[trigger] d[i]) by {
            if i < d.len() - 1 {
                assert(d[i] == decimal(n / 10)[i]);
            } else {
                assert(digit_char_is_digit(n % 10));
            }
        }
    } else {
        assert(digit_char_is_digit(n));
    }
}

spec fn digit_char_is_digit(d: nat) -> bool {
    d < 10 ==> is_digit(crate::text::digit_char(d))
}

/// Four texts without tabs, joined by tabs, split back at the tabs.
proof fn lemma_split_four(a: Seq<char>, b: Seq<char>, c: Seq<char>, d: Seq<char>)
    requires
        lacks(a, '\t'),
        lacks(b, '\t'),
        lacks(c, '\t'),
        lacks(d, '\t'),
    ensures
        split(a + seq!['\t'] + b + seq!['\t'] + c + seq!['\t'] + d, '\t') == seq![a, b, c, d],
{
    let s = a + seq!['\t'] + b + seq!['\t'] + c + seq!['\t'] + d;
    let i1 = a.len() as int;
    let i2 = i1 + 1 + b.len();
    let i3 = i2 + 1 + c.len();
    assert(s.len() == i3 + 1 + d.len());
    assert(s[i1] == '\t' && s[i2] == '\t' && s[i3] == '\t');
    assert forall|k: int| 0 <= k < i1 implies s[k] != '\t' by {
        assert(s[k] == a[k]);
    }
    assert forall|k: int| i1 + 1 <= k < i2 implies s[k] != '\t' by {
        assert(s[k] == b[k - i1 - 1]);
    }
    assert forall|k: int| i2 + 1 <= k < i3 implies s[k] != '\t' by {
        assert(s[k] == c[k - i2 - 1]);
    }
    assert forall|k: int| i3 + 1 <= k < s.len() implies s[k] != '\t' by {
        assert(s[k] == d[k - i3 - 1]);
    }
    lemma_find_char_at(s, '\t', 0, i1);
    lemma_find_char_at(s, '\t', i1 + 1, i2);
    lemma_find_char_at(s, '\t', i2 + 1, i3);
    lemma_find_char_none(s, '\t', i3 + 1);
    assert(s.subrange(0, i1) =~= a);
    assert(s.subrange(i1 + 1, i2) =~= b);
    assert(s.subrange(i2 + 1, i3) =~= c);
    assert(s.subrange(i3 + 1, s.len() as int) =~= d);
    assert(split_from(s, '\t', i3 + 1) == seq![d]);
    assert(split_from(s, '\t', i2 + 1) == seq![c] + seq![d]);
    assert(split_from(s, '\t', i1 + 1) == seq![b] + (seq![c] + seq![d]));
    assert(split_from(s, '\t', 0) == seq![a] + (seq![b] + (seq![c] + seq![d])));
    assert(seq![a] + (seq![b] + (seq![c] + seq![d])) =~= seq![a, b, c, d]);
}

/// The record line of a document holds no line break or carriage return, and starts with
/// `D`.
proof fn lemma_record_line_plain(d: DocumentView)
    ensures
        lacks(record_line(d), '\n'),
        lacks(record_line(d), '\r'),
        record_line(d).len() > 0 && record_line(d)[0] == 'D',
        record_line(d) == "DOC"@ + seq!['\t'] + decimal(d.id as nat) + seq!['\t'] + escape_spec(d.path)
            + seq!['\t'] + escape_spec(d.body),
{
    reveal_strlit("DOC\t");
    reveal_strlit("DOC");
    lemma_escape_plain(d.path);
    lemma_escape_plain(d.body);
    lemma_decimal_plain(d.id as nat);
    let a = "DOC\t"@;
    let n = decimal(d.id as nat);
    let p = escape_spec(d.path);
    let b = escape_spec(d.body);
    let l = record_line(d);
    assert(a =~= "DOC"@ + seq!['\t']);
    assert(l =~= "DOC"@ + seq!['\t'] + n + seq!['\t'] + p + seq!['\t'] + b);
    assert forall|k: int| 0 <= k < l.len() implies l[k] != '\n' && l[k] != '\r' by {
        let i1 = a.len() as int;
        let i2 = i1 + n.len();
        let i3 = i2 + 1 + p.len();
        if k < i1 {
        } else if k < i2 {
            assert(l[k] == n[k - i1]);
        } else if k == i2 {
        } else if k < i3 {
            assert(l[k] == p[k - i2 - 1]);
        } else if k == i3 {
        } else {
            assert(l[k] == b[k - i3 - 1]);
        }
    }
}

/// A record line reads back as the document's number, path and body.
proof fn lemma_record_of_line(d: DocumentView, n: nat)
    ensures
        record_of(record_line(d), n) == Ok::<Option<(usize, Seq<char>, Seq<char>)>, Seq<char>>(
            Some((d.id, d.path, d.body)),
        ),
{
    reveal_strlit("DOC");
    assert(!spec_is_whitespace('D')) by {
        reveal(spec_is_whitespace);
    }
    lemma_record_line_plain(d);
    let l = record_line(d);
    lemma_trim_nonempty(l);
    lemma_escape_plain(d.path);
    lemma_escape_plain(d.body);
    lemma_decimal_plain(d.id as nat);
    assert(lacks("DOC"@, '\t'));
    lemma_split_four("DOC"@, decimal(d.id as nat), escape_spec(d.path), escape_spec(d.body));
    lemma_decimal_parses(d.id);
    lemma_unescape_escape(d.path);
    lemma_unescape_escape(d.body);
}

/// The record lines of the documents, one per document.
pub open spec fn record_line_seq(docs: Seq<DocumentView>) -> Seq<Seq<char>> {
    Seq::new(docs.len(), |i: int| record_line(docs[i]))
}

/// The number, path and body of each document.
pub open spec fn cache_fields(docs: Seq<DocumentView>) -> Seq<(usize, Seq<char>, Seq<char>)> {
    Seq::new(docs.len(), |i: int| (docs[i].id, docs[i].path, docs[i].body))
}

proof fn lemma_lines_of_records(docs: Seq<DocumentView>)
    ensures
        lines(record_lines(docs)) == record_line_seq(docs),
    decreases docs.len(),
{
    if docs.len() == 0 {
        assert(lines(record_lines(docs)) =~= Seq::<Seq<char>>::empty());
        assert(record_line_seq(docs) =~= Seq::<Seq<char>>::empty());
    } else {
        lemma_record_line_plain(docs[0]);
        lemma_lines_of_records(docs.drop_first());
        lemma_lines_cons(record_line(docs[0]), record_lines(docs.drop_first()));
        assert(record_line_seq(docs) =~= seq![record_line(docs[0])] + record_line_seq(docs.drop_first()));
    }
}

proof fn lemma_records_from(ls: Seq<Seq<char>>, docs: Seq<DocumentView>, k: int)
    requires
        ls.len() == docs.len() + 1,
        forall|i: int| 1 <= i < ls.len() ==> ls[i] == record_line(docs[i - 1]),
        1 <= k <= ls.len(),
    ensures
        records_from(ls, k) == Ok::<Seq<(usize, Seq<char>, Seq<char>)>, Seq<char>>(
            cache_fields(docs).skip(k - 1),
        ),
    decreases ls.len() - k,
{
    if k == ls.len() {
        assert(cache_fields(docs).skip(k - 1) =~= Seq::<(usize, Seq<char>, Seq<char>)>::empty());
    } else {
        lemma_record_of_line(docs[k - 1], (k + 1) as nat);
        lemma_records_from(ls, docs, k + 1);
        assert(cache_fields(docs).skip(k - 1) =~= seq![(docs[k - 1].id, docs[k - 1].path, docs[k - 1].body)]
            + cache_fields(docs).skip(k));
    }
}

/// Reading a cache back gives the number, path and body of each document, in order.
pub proof fn lemma_cache_round_trip(docs: Seq<DocumentView>)
    ensures
        cache_records(cache_spec(docs)) == Ok::<Seq<(usize, Seq<char>, Seq<char>)>, Seq<char>>(
            cache_fields(docs),
        ),
{
    reveal_strlit("MDSEEK_CACHE_V1");
    let h = cache_header();
    assert(forall|k: int| 0 <= k < h.len() ==> h[k] != '\n');
    assert(h.last() != '\r');
    lemma_lines_cons(h, record_lines(docs));
    lemma_lines_of_records(docs);
    let ls = lines(cache_spec(docs));
    assert(ls == seq![h] + record_line_seq(docs));
    assert forall|i: int| 1 <= i < ls.len() implies ls[i] == record_line(docs[i - 1]) by {
        assert(ls[i] == record_line_seq(docs)[i - 1]);
    }
    lemma_records_from(ls, docs, 1);
    assert(cache_fields(docs).skip(0) =~= cache_fields(docs));
}


/// Writing documents that came from `parse_markdown` to a cache and reading it back gives the
/// same documents: the cache holds each one's number, path and body in order, and parsing
/// those again yields the document itself.
pub proof fn lemma_cache_restores(docs: Seq<DocumentView>, back: Seq<DocumentView>)
    requires
        forall|i: int| 0 <= i < docs.len() ==> parsed_as(docs[i].id, docs[i].path, docs[i].body, #[trigger] docs[i]),
        match cache_records(cache_spec(docs)) {
            Ok(rs) => back.len() == rs.len() && forall|i: int|
                0 <= i < rs.len() ==> parsed_as(rs[i].0, rs[i].1, rs[i].2, #[trigger] back[i]),
            Err(_) => false,
        },
    ensures
        back == docs,
{
    lemma_cache_round_trip(docs);
    let rs = cache_fields(docs);
    assert forall|i: int| 0 <= i < docs.len() implies back[i] == docs[i] by {
        assert(parsed_as(rs[i].0, rs[i].1, rs[i].2, back[i]));
        assert(parsed_as(docs[i].id, docs[i].path, docs[i].body, docs[i]));
        lemma_parsed_as_unique(docs[i].id, docs[i].path, docs[i].body, back[i], docs[i]);
    }
    assert(back =~= docs);
}


/// A character that may follow an escaping `\`.
pub open spec fn escape_code(c: char) -> bool {
    c == '\\' || c == 't' || c == 'n' || c == 'r'
}

/// Reading `s` from position `j` (where a character starts) reaches position `i`: a `\`
/// takes two characters, anything else one.
pub open spec fn reaches(s: Seq<char>, j: int, i: int) -> bool
    decreases i - j,
{
    if j == i {
        true
    } else if j > i || j >= s.len() {
        false
    } else if s[j] == '\\' {
        if j + 2 > i {
            false
        } else {
            reaches(s, j + 2, i)
        }
    } else {
        reaches(s, j + 1, i)
    }
}

/// Some escaping `\` of `s`, read from the start, ends the text or is followed by a character
/// that is not `\`, `t`, `n` or `r`.
pub open spec fn has_bad_escape(s: Seq<char>) -> bool {
    exists|i: int|
        0 <= i < s.len() && reaches(s, 0, i) && s[i] == '\\' && (i + 1 == s.len() || !escape_code(s[i + 1]))
}

proof fn lemma_unescape_fails_from(s: Seq<char>, j: int)
    requires
        0 <= j <= s.len(),
    ensures
        unescape_spec(s.skip(j)) is Err <==> exists|i: int|
            j <= i < s.len() && #[trigger] reaches(s, j, i) && s[i] == '\\' && (i + 1 == s.len() || !escape_code(
                s[i + 1],
            )),
    decreases s.len() - j,
{
    let t = s.skip(j);
    if j == s.len() {
        assert(t.len() == 0);
    } else {
        assert(t[0] == s[j]);
        if s[j] != '\\' {
            assert(t.drop_first() =~= s.skip(j + 1));
            lemma_unescape_fails_from(s, j + 1);
            assert forall|i: int| j + 1 <= i < s.len() implies #[trigger] reaches(s, j, i) == reaches(s, j + 1, i) by {}
            if exists|i: int|
                j <= i < s.len() && #[trigger] reaches(s, j, i) && s[i] == '\\' && (i + 1 == s.len() || !escape_code(s[i + 1])) {
                let i = choose|i: int|
                    j <= i < s.len() && #[trigger] reaches(s, j, i) && s[i] == '\\' && (i + 1 == s.len() || !escape_code(s[i + 1]));
                assert(i != j);
                assert(reaches(s, j + 1, i));
            }
            if exists|i: int|
                j + 1 <= i < s.len() && #[trigger] reaches(s, j + 1, i) && s[i] == '\\' && (i + 1 == s.len() || !escape_code(s[i + 1])) {
                let i = choose|i: int|
                    j + 1 <= i < s.len() && #[trigger] reaches(s, j + 1, i) && s[i] == '\\' && (i + 1 == s.len() || !escape_code(s[i + 1]));
                assert(reaches(s, j, i));
            }
        } else if j + 1 == s.len() {
            assert(t.len() == 1);
            assert(reaches(s, j, j));
        } else {
            assert(t[1] == s[j + 1]);
            if !escape_code(s[j + 1]) {
                assert(reaches(s, j, j));
            } else {
                assert(t.skip(2) =~= s.skip(j + 2));
                lemma_unescape_fails_from(s, j + 2);
                assert forall|i: int| j + 2 <= i < s.len() implies #[trigger] reaches(s, j, i) == reaches(s, j + 2, i) by {}
                assert(!reaches(s, j, j + 1));
                if exists|i: int|
                    j <= i < s.len() && #[trigger] reaches(s, j, i) && s[i] == '\\' && (i + 1 == s.len() || !escape_code(s[i + 1])) {
                    let i = choose|i: int|
                        j <= i < s.len() && #[trigger] reaches(s, j, i) && s[i] == '\\' && (i + 1 == s.len() || !escape_code(s[i + 1]));
                    assert(i != j && i != j + 1);
                    assert(reaches(s, j + 2, i));
                }
                if exists|i: int|
                    j + 2 <= i < s.len() && #[trigger] reaches(s, j + 2, i) && s[i] == '\\' && (i + 1 == s.len() || !escape_code(s[i + 1])) {
                    let i = choose|i: int|
                        j + 2 <= i < s.len() && #[trigger] reaches(s, j + 2, i) && s[i] == '\\' && (i + 1 == s.len() || !escape_code(s[i + 1]));
                    assert(reaches(s, j, i));
                }
            }
        }
    }
}

/// Reading a cached text back fails exactly when, reading it from the start, some escaping
/// `\` ends the text or is followed by a character other than `\`, `t`, `n` and `r`.
pub proof fn lemma_unescape_fails(s: Seq<char>)
    ensures
        unescape_spec(s) is Err <==> has_bad_escape(s),
{
    assert(s.skip(0) =~= s);
    lemma_unescape_fails_from(s, 0);
}

} // verus!
