//! Why no token could be read.

use crate::text::TextError;
use vstd::prelude::*;
use vstd::std_specs::convert::FromSpecImpl;

verus! {

/// Why no token could be read.
#[derive(Debug, PartialEq, Eq)]
pub enum TokenError {
    /// The text ended where a token had to begin.
    EndOfFile,
    /// A token was to be taken from an empty buffer. The buffer fills
    /// itself before it takes, so it never reports this.
    NoCurrentToken,
    /// The text could not be decoded.
    InvalidText(TextError),
    /// A run of digits does not fit a 128-bit signed integer; the digits
    /// are kept as they were read.
    InvalidNumber(String),
    /// No token begins with this character.
    Unexpected(char),
}

/// A token error as a mathematical value: the digits of an invalid number
/// are a sequence of characters.
pub enum TokenErrorView {
    EndOfFile,
    NoCurrentToken,
    InvalidText(TextError),
    InvalidNumber(Seq<char>),
    Unexpected(char),
}

impl View for TokenError {
    type V = TokenErrorView;

    open spec fn view(&self) -> TokenErrorView {
        match self {
            TokenError::EndOfFile => TokenErrorView::EndOfFile,
            TokenError::NoCurrentToken => TokenErrorView::NoCurrentToken,
            TokenError::InvalidText(e) => TokenErrorView::InvalidText(*e),
            TokenError::InvalidNumber(digits) => TokenErrorView::InvalidNumber(digits@),
            TokenError::Unexpected(c) => TokenErrorView::Unexpected(*c),
        }
    }
}

impl Clone for TokenError {
    fn clone(&self) -> (copy: TokenError)
        ensures
            copy@ == self@,
    {
        match self {
            TokenError::EndOfFile => TokenError::EndOfFile,
            TokenError::NoCurrentToken => TokenError::NoCurrentToken,
            TokenError::InvalidText(e) => TokenError::InvalidText(*e),
            TokenError::InvalidNumber(digits) => TokenError::InvalidNumber(digits.clone()),
            TokenError::Unexpected(c) => TokenError::Unexpected(*c),
        }
    }
}

impl FromSpecImpl<TextError> for TokenError {
    open spec fn obeys_from_spec() -> bool {
        true
    }

    open spec fn from_spec(e: TextError) -> TokenError {
        match e {
            TextError::OutOfBounds => TokenError::EndOfFile,
            e => TokenError::InvalidText(e),
        }
    }
}

/// Running out of text is the end of the file; any other text error is
/// passed on as invalid text.
impl From<TextError> for TokenError {
    fn from(e: TextError) -> TokenError {
        match e {
            TextError::OutOfBounds => TokenError::EndOfFile,
            e => TokenError::InvalidText(e),
        }
    }
}

} // verus!
