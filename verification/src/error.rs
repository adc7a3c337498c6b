//! The error taxonomy of the pipeline. Every engine failure is terminal for
//! the request that caused it; nothing is retried.

use vstd::prelude::*;

verus! {

/// What can go wrong while consolidating files.
#[derive(Clone, Debug, PartialEq, Eq)]
pub enum Error {
    /// A document exposed more than one sheet.
    SheetLimitExceeded,
    /// A search request supplied zero usable documents.
    NoFilesFound,
    /// A scalar field failed to parse as its expected type.
    MalformedField,
    /// Wraps any lower-level failure, opaque to the caller.
    Other(String),
}

impl Error {
    /// The user-facing message for this error.
    pub fn message(&self) -> (r: String)
        ensures
            r@ == self.spec_message(),
    {
        match self {
            Error::SheetLimitExceeded => "Only one sheet per file is supported".to_owned(),
            Error::NoFilesFound => "No files were found.".to_owned(),
            Error::MalformedField => "A field failed to parse".to_owned(),
            Error::Other(msg) => msg.as_str().to_owned(),
        }
    }

    pub open spec fn spec_message(&self) -> Seq<char> {
        match self {
            Error::SheetLimitExceeded => "Only one sheet per file is supported"@,
            Error::NoFilesFound => "No files were found."@,
            Error::MalformedField => "A field failed to parse"@,
            Error::Other(msg) => msg@,
        }
    }
}

/// An error as the transport layer reports it: a bare message.
pub struct AppError {
    pub message: String,
}

impl AppError {
    pub fn new(message: String) -> (r: AppError)
        ensures
            r.message == message,
    {
        AppError { message }
    }
}

impl From<Error> for AppError {
    fn from(err: Error) -> (r: AppError)
        ensures
            r.message@ == err.spec_message(),
    {
        AppError { message: err.message() }
    }
}

impl vstd::std_specs::convert::FromSpecImpl<Error> for AppError {
    open spec fn obeys_from_spec() -> bool {
        // The conversion builds a fresh `String`, whose identity the spec
        // cannot pin down; `from` carries its own `ensures` instead.
        false
    }

    open spec fn from_spec(err: Error) -> AppError {
        arbitrary()
    }
}

} // verus!
