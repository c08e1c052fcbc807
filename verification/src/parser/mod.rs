//! What a combinator parser over located input hands on: a value with the
//! input it was read from, or the diagnostics of a failure.

pub mod diag;

pub use diag::Diagnostic;

use nom_locate::LocatedSpan;
use vstd::prelude::*;

verus! {

/// `nom_locate::LocatedSpan`: a fragment of input that knows its offset
/// and line. It is carried through here and never looked into.
#[verifier::external_type_specification]
#[verifier::external_body]
#[verifier::reject_recursive_types(T)]
#[verifier::reject_recursive_types(X)]
pub struct ExLocatedSpan<T, X>(LocatedSpan<T, X>);

/// A fragment of a text with its place in it.
pub type Span<'a> = LocatedSpan<&'a str>;

/// What a parser makes of matched input: a value, or diagnostics.
pub type PResult<T> = Result<T, Vec<Diagnostic>>;

/// A value with the input it was read from.
#[derive(Debug)]
pub struct Token<'a, T> {
    pub content: Span<'a>,
    pub value: T,
}

impl<'a, T> Token<'a, T> {
    /// Pairs `value` with the input `content` it was read from.
    pub fn new(content: Span<'a>, value: T) -> (token: Token<'a, T>)
        ensures
            token.content == content,
            token.value == value,
    {
        Token { content, value }
    }

    /// The token with `wrapper` applied to its value, over the same input.
    pub fn map<F, U>(self, wrapper: F) -> (token: Token<'a, U>) where F: Fn(T) -> U
        requires
            call_requires(wrapper, (self.value,)),
        ensures
            token.content == self.content,
            call_ensures(wrapper, (self.value,), token.value),
    {
        Token::new(self.content, wrapper(self.value))
    }
}

} // verus!
