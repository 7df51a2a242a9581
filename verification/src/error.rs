//! Error type shared by the library's fallible operations.

use vstd::prelude::*;

verus! {

/// The library's error taxonomy. Each variant carries a human-readable
/// message; the variant says which subsystem rejected the operation.
#[derive(Debug)]
pub enum DocTreeError {
    /// Invalid or incomplete configuration.
    Config(String),
    /// A cache entry could not be stored or removed.
    Cache(String),
    /// The scanned tree was malformed.
    Scanner(String),
    /// No root summary could be produced.
    Summarizer(String),
    /// The maintained document could not be processed.
    Readme(String),
    /// A relative path could not be computed.
    Path(String),
    /// Anything else.
    Unknown(String),
}

impl DocTreeError {
    pub fn config(msg: String) -> (r: Self)
        ensures
            r == DocTreeError::Config(msg),
    {
        DocTreeError::Config(msg)
    }

    pub fn cache(msg: String) -> (r: Self)
        ensures
            r == DocTreeError::Cache(msg),
    {
        DocTreeError::Cache(msg)
    }

    pub fn scanner(msg: String) -> (r: Self)
        ensures
            r == DocTreeError::Scanner(msg),
    {
        DocTreeError::Scanner(msg)
    }

    pub fn summarizer(msg: String) -> (r: Self)
        ensures
            r == DocTreeError::Summarizer(msg),
    {
        DocTreeError::Summarizer(msg)
    }

    pub fn readme(msg: String) -> (r: Self)
        ensures
            r == DocTreeError::Readme(msg),
    {
        DocTreeError::Readme(msg)
    }

    pub fn path(msg: String) -> (r: Self)
        ensures
            r == DocTreeError::Path(msg),
    {
        DocTreeError::Path(msg)
    }

    pub fn unknown(msg: String) -> (r: Self)
        ensures
            r == DocTreeError::Unknown(msg),
    {
        DocTreeError::Unknown(msg)
    }

    /// The message carried by the error, for display by a caller.
    pub fn message(&self) -> (r: &String)
        ensures
            r@ == self.spec_message(),
    {
        match self {
            DocTreeError::Config(m) => m,
            DocTreeError::Cache(m) => m,
            DocTreeError::Scanner(m) => m,
            DocTreeError::Summarizer(m) => m,
            DocTreeError::Readme(m) => m,
            DocTreeError::Path(m) => m,
            DocTreeError::Unknown(m) => m,
        }
    }

    pub open spec fn spec_message(&self) -> Seq<char> {
        match self {
            DocTreeError::Config(m) => m@,
            DocTreeError::Cache(m) => m@,
            DocTreeError::Scanner(m) => m@,
            DocTreeError::Summarizer(m) => m@,
            DocTreeError::Readme(m) => m@,
            DocTreeError::Path(m) => m@,
            DocTreeError::Unknown(m) => m@,
        }
    }
}

} // verus!
