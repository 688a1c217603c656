//! Which files of a directory tree are notes, and turning their texts into documents.
use vstd::prelude::*;
use crate::parser::{lemma_parsed_as_unique, parse_markdown, parsed_as};
use crate::paths::{ext_dot_exec, extension_of, file_name, file_name_exec, path_le, PathOrder};
use crate::sort::{sort_by_order, sorted_by};
use crate::text::{ascii_lower, ascii_lower_chars, chars_eq, chars_of};
use crate::types::{Document, DocumentId, DocumentView};

verus! {

broadcast use vstd::string::group_string_axioms;

/// Whether a directory is skipped: its name starts with `.` or is `target`, `node_modules`,
/// `vendor` or `__pycache__`.
pub open spec fn skipped_dir(path: Seq<char>) -> bool {
    match file_name(path) {
        Some(n) => (n.len() > 0 && n[0] == '.') || n == "target"@ || n == "node_modules"@ || n == "vendor"@
            || n == "__pycache__"@,
        None => false,
    }
}

/// Whether a file is a note: its extension is `md`, `markdown` or `mdown`, in any ASCII case.
pub open spec fn note_file(path: Seq<char>) -> bool {
    match file_name(path) {
        Some(n) => match extension_of(n) {
            Some(e) => {
                let l = e.map_values(|c: char| ascii_lower(c));
                l == "md"@ || l == "markdown"@ || l == "mdown"@
            },
            None => false,
        },
        None => false,
    }
}

fn is_text(v: &Vec<char>, t: &str) -> (r: bool)
    ensures
        r == (v@ == t@),
{
    chars_eq(v.as_slice(), chars_of(t).as_slice())
}

/// Whether a directory is skipped (see `skipped_dir`).
pub fn should_skip_dir(path: &str) -> (r: bool)
    ensures
        r == skipped_dir(path@),
{
    match file_name_exec(chars_of(path).as_slice()) {
        Some(n) => (n.len() > 0 && n[0] == '.') || is_text(&n, "target") || is_text(&n, "node_modules")
            || is_text(&n, "vendor") || is_text(&n, "__pycache__"),
        None => false,
    }
}

/// Whether a file is a note (see `note_file`).
pub fn is_markdown_file(path: &str) -> (r: bool)
    ensures
        r == note_file(path@),
{
    match file_name_exec(chars_of(path).as_slice()) {
        Some(n) => match ext_dot_exec(n.as_slice()) {
            Some(i) => {
                let e = crate::text::sub_chars(n.as_slice(), i + 1, n.len());
                let l = ascii_lower_chars(e.as_slice());
                is_text(&l, "md") || is_text(&l, "markdown") || is_text(&l, "mdown")
            },
            None => false,
        },
        None => false,
    }
}

/// The paths in `Path`'s order.
pub fn sort_paths(paths: Vec<String>) -> (r: Vec<String>)
    ensures
        r@.to_multiset() == paths@.to_multiset(),
        forall|i: int, j: int| 0 <= i < j < r.len() ==> path_le(#[trigger] r@[i]@, #[trigger] r@[j]@),
{
    let r = sort_by_order::<String, PathOrder>(paths);
    assert(sorted_by::<String, PathOrder>(r@));
    r
}

/// The documents of the files read: the `i`-th file, given as its path and its text, is
/// parsed as document number `i`.
pub fn load_documents(files: &[(String, String)]) -> (r: Vec<Document>)
    ensures
        r.len() == files.len(),
        forall|i: int|
            0 <= i < files.len() ==> parsed_as(i as usize, files@[i].0@, files@[i].1@, (#[trigger] r@[i])@),
{
    let mut docs: Vec<Document> = Vec::new();
    let mut i: usize = 0;
    while i < files.len()
        invariant
            i <= files.len(),
            docs.len() == i,
            forall|k: int| 0 <= k < i ==> parsed_as(k as usize, files@[k].0@, files@[k].1@, (#[trigger] docs@[k])@),
        decreases files.len() - i,
    {
        let d = parse_markdown(DocumentId(i), files[i].0.as_str(), files[i].1.as_str());
        docs.push(d);
        i += 1;
    }
    docs
}


/// Loading numbers the documents by position: the `i`-th document has number `i`, the `i`-th
/// file's path and text, and is exactly what parsing that file as number `i` gives; so the
/// numbers are distinct and run from `0` in file order.
pub proof fn lemma_loaded_in_order(files: Seq<(Seq<char>, Seq<char>)>, docs: Seq<DocumentView>)
    requires
        files.len() <= usize::MAX,
        docs.len() == files.len(),
        forall|i: int| 0 <= i < files.len() ==> parsed_as(i as usize, files[i].0, files[i].1, #[trigger] docs[i]),
    ensures
        forall|i: int|
            0 <= i < docs.len() ==> (#[trigger] docs[i]).id == i && docs[i].path == files[i].0 && docs[i].body
                == files[i].1,
        forall|i: int, j: int| 0 <= i < j < docs.len() ==> (#[trigger] docs[i]).id != (#[trigger] docs[j]).id,
        forall|i: int, d: DocumentView|
            #![trigger parsed_as(i as usize, files[i].0, files[i].1, d)]
            0 <= i < docs.len() && parsed_as(i as usize, files[i].0, files[i].1, d) ==> d == docs[i],
{
    assert forall|i: int| 0 <= i < docs.len() implies (#[trigger] docs[i]).id == i && docs[i].path == files[i].0
        && docs[i].body == files[i].1 by {
        assert(parsed_as(i as usize, files[i].0, files[i].1, docs[i]));
    }
    assert forall|i: int, d: DocumentView|
        #![trigger parsed_as(i as usize, files[i].0, files[i].1, d)]
        0 <= i < docs.len() && parsed_as(i as usize, files[i].0, files[i].1, d) implies d == docs[i] by {
        lemma_parsed_as_unique(i as usize, files[i].0, files[i].1, d, docs[i]);
    }
}

} // verus!
