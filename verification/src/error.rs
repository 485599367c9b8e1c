//! What can go wrong while decompressing.

use vstd::prelude::*;

verus! {

/// An I/O error of the standard library. It is carried through unread.
#[verifier::external_type_specification]
#[verifier::external_body]
pub struct ExIoError(std::io::Error);

/// Error type produced by decompression.
///
/// Of these, `IncompleteInput` is special: decompression goes on where it
/// stopped once further input is provided.
#[derive(Debug)]
pub enum Error {
    /// A normal IO error.
    IO(std::io::Error),
    /// The input is incomplete. Decompression may still succeed if
    /// you provide more input.
    IncompleteInput,
    /// The literal flag in the header is invalid.
    BadLiteralFlag,
    /// The dictionary size in the header is invalid.
    BadDictionary,
    /// A repeat command tried to read past the beginning of the buffer.
    BadDistance,
}

/// Result type for decompression functions.
pub type Result<T> = std::result::Result<T, Error>;

impl From<std::io::Error> for Error {
    fn from(v: std::io::Error) -> (error: Self) {
        Error::IO(v)
    }
}

impl vstd::std_specs::convert::FromSpecImpl<std::io::Error> for Error {
    open spec fn obeys_from_spec() -> bool {
        true
    }

    open spec fn from_spec(v: std::io::Error) -> Self {
        Error::IO(v)
    }
}

/// `to_string` of `std::io::Error`: the text that the error displays.
/// Nothing is said of it.
#[verifier::external_body]
fn io_error_text(error: &std::io::Error) -> String {
    error.to_string()
}

impl Error {
    /// The text that describes the error.
    pub fn message(&self) -> (text: String)
        ensures
            *self is IncompleteInput ==> text@ == "unexpected end of input"@,
            *self is BadLiteralFlag ==> text@ == "literal flag not zero or one"@,
            *self is BadDictionary ==> text@ == "dictionary size not in 4..=6"@,
            *self is BadDistance ==> text@ == "distance is too far back"@,
    {
        match self {
            Error::IO(err) => io_error_text(err),
            Error::IncompleteInput => "unexpected end of input".to_owned(),
            Error::BadLiteralFlag => "literal flag not zero or one".to_owned(),
            Error::BadDictionary => "dictionary size not in 4..=6".to_owned(),
            Error::BadDistance => "distance is too far back".to_owned(),
        }
    }
}

} // verus!
