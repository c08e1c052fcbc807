//! Patterns that a single character is held against.

use std::ops::{Range, RangeInclusive};
use vstd::prelude::*;

verus! {

/// Something that says of a character whether it matches.
///
/// A pattern need not be a function of the character alone: `answers`
/// relates a character to every answer the pattern may give for it. For the
/// patterns of this module, one character has one answer.
pub trait CharPattern {
    /// Whether the pattern may be asked about every character.
    spec fn usable(&self) -> bool;

    /// Whether `is_match` is an answer of the pattern for `c`.
    spec fn answers(&self, c: char, is_match: bool) -> bool;

    /// Says whether `c` matches the pattern.
    fn matches(&self, c: char) -> (is_match: bool)
        requires
            self.usable(),
        ensures
            self.answers(c, is_match),
    ;
}

/// A half-open range matches the characters from its start up to, and
/// without, its end.
impl CharPattern for Range<char> {
    open spec fn usable(&self) -> bool {
        true
    }

    open spec fn answers(&self, c: char, is_match: bool) -> bool {
        is_match == (self.start <= c < self.end)
    }

    fn matches(&self, c: char) -> (is_match: bool) {
        self.start <= c && c < self.end
    }
}

/// `RangeInclusive::contains` of std, on characters: a range that has not
/// been iterated to its end contains the characters from its start to its
/// end, both included.
#[verifier::external_body]
fn range_contains(range: &RangeInclusive<char>, c: char) -> (found: bool)
    ensures
        !range@.exhausted ==> found == (range@.start <= c <= range@.end),
{
    range.contains(&c)
}

/// A closed range matches the characters from its start to its end.
impl CharPattern for RangeInclusive<char> {
    open spec fn usable(&self) -> bool {
        !self@.exhausted
    }

    open spec fn answers(&self, c: char, is_match: bool) -> bool {
        is_match == (self@.start <= c <= self@.end)
    }

    fn matches(&self, c: char) -> (is_match: bool) {
        range_contains(self, c)
    }
}

/// A character matches itself.
impl CharPattern for char {
    open spec fn usable(&self) -> bool {
        true
    }

    open spec fn answers(&self, c: char, is_match: bool) -> bool {
        is_match == (*self == c)
    }

    fn matches(&self, c: char) -> (is_match: bool) {
        *self == c
    }
}

/// A predicate matches the characters it returns `true` for. It is usable
/// when it can be called on every character, and its answers are what its
/// own postcondition admits.
impl<F: Fn(char) -> bool> CharPattern for F {
    open spec fn usable(&self) -> bool {
        forall|c: char| #[trigger] call_requires(*self, (c,))
    }

    open spec fn answers(&self, c: char, is_match: bool) -> bool {
        call_ensures(*self, (c,), is_match)
    }

    fn matches(&self, c: char) -> (is_match: bool) {
        (*self)(c)
    }
}

/// What a predicate is as a pattern, spelled out: it is usable when its
/// precondition holds of every character, and its answers are those of
/// its postcondition.
pub proof fn lemma_predicate_pattern<F: Fn(char) -> bool>(predicate: F)
    ensures
        predicate.usable() <==> (forall|c: char| #[trigger] call_requires(predicate, (c,))),
        forall|c: char, is_match: bool| #[trigger]
            predicate.answers(c, is_match) <==> call_ensures(predicate, (c,), is_match),
{
}

} // verus!
