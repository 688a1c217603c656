//! The errors of the library and its command line.
use vstd::prelude::*;

verus! {

/// `std::io::Error`, carried through errors; proofs see nothing inside it.
#[verifier::external_type_specification]
#[verifier::external_body]
pub struct ExIoError(std::io::Error);

/// An error of reading or writing files, of the command line, of parsing or of the cache.
#[derive(Debug)]
pub enum MdSeekError {
    Io { path: Option<String>, source: std::io::Error },
    InvalidArgs(String),
    Parse(String),
    Storage(String),
}

/// The text of an I/O error (`std::io::Error`'s `Display`); it comes from the operating system
/// and nothing is stated of it.
#[verifier::external_body]
fn io_error_text(e: &std::io::Error) -> String {
    e.to_string()
}

impl MdSeekError {
    /// An I/O error on the file at `path`.
    pub fn io(path: &str, source: std::io::Error) -> (r: Self)
        ensures
            r matches MdSeekError::Io { path: Some(p), source: e } && p@ == path@ && e == source,
    {
        let mut p = String::new();
        p.append(path);
        MdSeekError::Io { path: Some(p), source }
    }

    /// The message of the error: the file and the system's text for an I/O error, the
    /// message itself for invalid arguments, and `parse error: ` or `storage error: ` before
    /// it otherwise.
    pub fn to_string(&self) -> (r: String)
        ensures
            match self {
                MdSeekError::Io { path: Some(p), .. } => exists|t: Seq<char>| r@ == p@ + ": "@ + t,
                MdSeekError::Io { path: None, .. } => true,
                MdSeekError::InvalidArgs(m) => r@ == m@,
                MdSeekError::Parse(m) => r@ == "parse error: "@ + m@,
                MdSeekError::Storage(m) => r@ == "storage error: "@ + m@,
            },
    {
        let mut out = String::new();
        match self {
            MdSeekError::Io { path, source } => match path {
                Some(p) => {
                    out.append(p.as_str());
                    out.append(": ");
                    let t = io_error_text(source);
                    out.append(t.as_str());
                    assert(out@ == p@ + ": "@ + t@);
                },
                None => {
                    out.append(io_error_text(source).as_str());
                },
            },
            MdSeekError::InvalidArgs(m) => {
                out.append(m.as_str());
            },
            MdSeekError::Parse(m) => {
                out.append("parse error: ");
                out.append(m.as_str());
            },
            MdSeekError::Storage(m) => {
                out.append("storage error: ");
                out.append(m.as_str());
            },
        }
        out
    }
}

} // verus!
