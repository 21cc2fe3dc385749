//! Typed library errors.
//!
//! Each variant names a failure category and carries a human-readable
//! message; [`Error::to_string`] renders it with the category prefix.
use vstd::prelude::*;

use crate::text::{chars_of, push_all, string_of};

verus! {

/// The kind of an I/O failure, as far as callers tell kinds apart (the
/// kinds of `std::io::ErrorKind` that the library reports).
#[derive(Debug, Clone, Copy, PartialEq, Eq)]
pub enum IoKind {
    /// The file or directory does not exist.
    NotFound,
    /// The file already exists.
    AlreadyExists,
    /// The operation lacked the permission it needed.
    PermissionDenied,
    /// Any other I/O failure.
    Other,
}

/// Top-level typed error for the nordocs library.
#[derive(Debug, Clone, PartialEq, Eq)]
pub enum Error {
    /// A document authoring operation failed (compose, patch, set, etc.).
    Authoring(String),
    /// Document structure or input validation failed.
    Validation(String),
    /// Schema parsing or resolution failed.
    Schema(String),
    /// Markdown -> Typst conversion failed.
    Markdown(String),
    /// Typst compilation or PDF export failed.
    Compile(String),
    /// Fat-file compose/extract failed.
    FatFile(String),
    /// I/O failure: its kind and message.
    Io(IoKind, String),
    /// JSON (de)serialization failure.
    Json(String),
}

/// The category prefix of an error's rendering.
pub open spec fn error_prefix(e: Error) -> Seq<char> {
    match e {
        Error::Authoring(_) => "authoring error: "@,
        Error::Validation(_) => "validation error: "@,
        Error::Schema(_) => "schema error: "@,
        Error::Markdown(_) => "markdown conversion error: "@,
        Error::Compile(_) => "compile error: "@,
        Error::FatFile(_) => "fat-file error: "@,
        Error::Io(..) => "io error: "@,
        Error::Json(_) => "json error: "@,
    }
}

/// The message an error carries.
pub open spec fn error_message(e: Error) -> Seq<char> {
    match e {
        Error::Authoring(m) => m@,
        Error::Validation(m) => m@,
        Error::Schema(m) => m@,
        Error::Markdown(m) => m@,
        Error::Compile(m) => m@,
        Error::FatFile(m) => m@,
        Error::Io(_, m) => m@,
        Error::Json(m) => m@,
    }
}

/// The full rendering of an error: category prefix then message.
pub open spec fn error_text(e: Error) -> Seq<char> {
    error_prefix(e) + error_message(e)
}

impl Error {
    /// Render the error as `"{category} error: {message}"`.
    pub fn to_string(&self) -> (s: String)
        ensures
            s@ == error_text(*self),
    {
        let (prefix, msg) = match self {
            Error::Authoring(m) => ("authoring error: ", m),
            Error::Validation(m) => ("validation error: ", m),
            Error::Schema(m) => ("schema error: ", m),
            Error::Markdown(m) => ("markdown conversion error: ", m),
            Error::Compile(m) => ("compile error: ", m),
            Error::FatFile(m) => ("fat-file error: ", m),
            Error::Io(_, m) => ("io error: ", m),
            Error::Json(m) => ("json error: ", m),
        };
        let mut out = chars_of(prefix);
        let body = chars_of(msg.as_str());
        push_all(&mut out, body.as_slice());
        string_of(out.as_slice())
    }
}

} // verus!
