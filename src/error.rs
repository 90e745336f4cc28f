//! What can go wrong when decoding.

use std::string::FromUtf8Error;
use vstd::prelude::*;

verus! {

/// std's error for bytes that are not UTF-8; decoding carries it as the cause.
#[verifier::external_type_specification]
#[verifier::external_body]
pub struct ExFromUtf8Error(FromUtf8Error);

/// Why a percent-encoded string could not be decoded.
#[derive(Debug)]
pub enum FromUrlEncodingError {
    /// A character that may not stand where it was found, with its byte offset.
    UriCharacterError { character: char, index: usize },
    /// The unescaped bytes are not valid UTF-8.
    Utf8CharacterError { error: FromUtf8Error },
}

impl FromUrlEncodingError {
    /// The UTF-8 failure underneath, where there is one.
    pub fn source(&self) -> (r: Option<&FromUtf8Error>)
        ensures
            r is Some <==> self is Utf8CharacterError,
            self matches FromUrlEncodingError::Utf8CharacterError { error } ==> r == Some(error),
    {
        match self {
            FromUrlEncodingError::UriCharacterError { .. } => None,
            FromUrlEncodingError::Utf8CharacterError { error } => Some(error),
        }
    }
}

} // verus!
