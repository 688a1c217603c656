//! The documents, headings and links that the parser produces.
use vstd::prelude::*;
use crate::paths::{file_stem, file_stem_exec};
use crate::text::{chars_of, string_of};

verus! {

/// The number of a document in its collection.
#[derive(Clone, Copy, Debug, PartialEq, Eq, Hash, PartialOrd, Ord)]
pub struct DocumentId(pub usize);

/// The part of a document a term was found in.
#[derive(Clone, Copy, Debug, PartialEq, Eq, Hash)]
pub enum Field {
    Title,
    Heading,
    Body,
    Tag,
    Path,
}

/// The declaration order of the fields, by which postings are ordered.
pub open spec fn field_rank(f: Field) -> int {
    match f {
        Field::Title => 0,
        Field::Heading => 1,
        Field::Body => 2,
        Field::Tag => 3,
        Field::Path => 4,
    }
}

pub fn field_rank_exec(f: Field) -> (r: u8)
    ensures
        r == field_rank(f),
{
    match f {
        Field::Title => 0,
        Field::Heading => 1,
        Field::Body => 2,
        Field::Tag => 3,
        Field::Path => 4,
    }
}

/// Whether two fields are the same.
pub fn field_eq(a: Field, b: Field) -> (r: bool)
    ensures
        r == (a == b),
{
    field_rank_exec(a) == field_rank_exec(b)
}

/// A Markdown heading.
#[derive(Clone, Debug, PartialEq, Eq)]
pub struct Heading {
    pub level: usize,
    pub text: String,
    pub line: usize,
}

pub ghost struct HeadingView {
    pub level: usize,
    pub text: Seq<char>,
    pub line: usize,
}

impl View for Heading {
    type V = HeadingView;

    open spec fn view(&self) -> HeadingView {
        HeadingView { level: self.level, text: self.text@, line: self.line }
    }
}

/// The kinds of links.
#[derive(Clone, Copy, Debug, PartialEq, Eq, Hash)]
pub enum LinkKind {
    Wiki,
    Markdown,
    External,
}

/// A link found in a document.
#[derive(Clone, Debug, PartialEq, Eq)]
pub struct Link {
    pub raw: String,
    pub target: String,
    pub text: Option<String>,
    pub line: usize,
    pub kind: LinkKind,
}

pub ghost struct LinkView {
    pub raw: Seq<char>,
    pub target: Seq<char>,
    pub text: Option<Seq<char>>,
    pub line: usize,
    pub kind: LinkKind,
}

/// The view of an optional text.
pub open spec fn opt_view(o: Option<String>) -> Option<Seq<char>> {
    match o {
        Some(s) => Some(s@),
        None => None,
    }
}

impl View for Link {
    type V = LinkView;

    open spec fn view(&self) -> LinkView {
        LinkView {
            raw: self.raw@,
            target: self.target@,
            text: opt_view(self.text),
            line: self.line,
            kind: self.kind,
        }
    }
}

/// A parsed Markdown document. The path is a text with `/` separators.
#[derive(Clone, Debug, PartialEq, Eq)]
pub struct Document {
    pub id: DocumentId,
    pub path: String,
    pub title: Option<String>,
    pub headings: Vec<Heading>,
    pub body: String,
    pub lines: Vec<String>,
    pub links: Vec<Link>,
    pub tags: Vec<String>,
}

pub ghost struct DocumentView {
    pub id: usize,
    pub path: Seq<char>,
    pub title: Option<Seq<char>>,
    pub headings: Seq<HeadingView>,
    pub body: Seq<char>,
    pub lines: Seq<Seq<char>>,
    pub links: Seq<LinkView>,
    pub tags: Seq<Seq<char>>,
}

impl View for Document {
    type V = DocumentView;

    open spec fn view(&self) -> DocumentView {
        DocumentView {
            id: self.id.0,
            path: self.path@,
            title: opt_view(self.title),
            headings: self.headings@.map_values(|h: Heading| h@),
            body: self.body@,
            lines: self.lines@.map_values(|l: String| l@),
            links: self.links@.map_values(|l: Link| l@),
            tags: self.tags@.map_values(|t: String| t@),
        }
    }
}

/// The views of a sequence of documents.
pub open spec fn doc_views(docs: Seq<Document>) -> Seq<DocumentView> {
    docs.map_values(|d: Document| d@)
}

/// The title to show for a document: its title, else the stem of its file name, else its
/// path.
pub open spec fn display_title_spec(d: DocumentView) -> Seq<char> {
    match d.title {
        Some(t) => t,
        None => match file_stem(d.path) {
            Some(s) => s,
            None => d.path,
        },
    }
}

impl Document {
    /// The title to show for a document (see `display_title_spec`).
    pub fn display_title(&self) -> (r: String)
        ensures
            r@ == display_title_spec(self@),
    {
        match &self.title {
            Some(t) => t.clone(),
            None => {
                let p = chars_of(self.path.as_str());
                match file_stem_exec(&p) {
                    Some(s) => string_of(&s),
                    None => self.path.clone(),
                }
            },
        }
    }
}

} // verus!
