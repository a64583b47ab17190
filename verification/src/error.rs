//! The errors of the library's public operations.
use vstd::prelude::*;
use crate::text::concat;

verus! {

broadcast use vstd::string::group_string_axioms;

/// An error of a public operation.
#[derive(Debug)]
pub enum XschemError {
    /// The content of a `.sch` / `.sym` could not be read.
    Parse(String),
    /// A symbol could not be found on any of the known paths.
    SymbolNotFound(String),
    /// Reading an outside file (`.sym`, xschemrc, ...) failed.
    Io { path: String, message: String },
}

pub open spec fn error_text(e: XschemError) -> Seq<char> {
    match e {
        XschemError::Parse(m) => "parse error: "@ + m@,
        XschemError::SymbolNotFound(s) => "symbol not found: "@ + s@,
        XschemError::Io { path, message } => "io error on "@ + path@ + ": "@ + message@,
    }
}

impl XschemError {
    /// The error as a sentence.
    pub fn message(&self) -> (r: String)
        ensures r@ == error_text(*self),
    {
        match self {
            XschemError::Parse(m) => concat("parse error: ", m.as_str()),
            XschemError::SymbolNotFound(s) => concat("symbol not found: ", s.as_str()),
            XschemError::Io { path, message } => {
                let a = concat("io error on ", path.as_str());
                let b = concat(a.as_str(), ": ");
                concat(b.as_str(), message.as_str())
            },
        }
    }
}

} // verus!
