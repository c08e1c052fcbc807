//! The diagnostics that parsing can report.

use std::borrow::Cow;
use vstd::prelude::*;

verus! {

/// A run of digits that does not fit an integer.
pub const TOK0001: (&'static str, &'static str) = ("TOK0001", "Failed to parse as integer.");

/// A literal that is not a floating-point number.
pub const TOK0002: (&'static str, &'static str) = ("TOK0002", "Failed to parse as floating-point.");

/// A diagnostic: its identifier and its message.
#[derive(Debug, PartialEq, Eq)]
pub struct Diagnostic {
    pub id: &'static str,
    pub message: Cow<'static, str>,
}

/// The one diagnostic with the identifier and the message of `diag`.
pub fn known(diag: (&'static str, &'static str)) -> (diagnostics: Vec<Diagnostic>)
    ensures
        diagnostics@.len() == 1,
        diagnostics@[0].id == diag.0,
        diagnostics@[0].message == Cow::<'static, str>::Borrowed(diag.1),
{
    let (id, message) = diag;
    let mut diagnostics = Vec::new();
    diagnostics.push(Diagnostic { id, message: Cow::Borrowed(message) });
    diagnostics
}

} // verus!
