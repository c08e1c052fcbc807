//! What reading a whole text token by token gives.

use super::error::TokenErrorView;
use super::rules::{
    char_is_alphanumeric, in_class, is_whitespace, lemma_lexeme_at, lemma_run_end, lexeme_at,
    CharClass,
};
use vstd::prelude::*;

verus! {

/// Whether reading token after token from index `at` of `text` reaches
/// the end of the text without an error.
pub open spec fn scans(text: Seq<char>, at: nat) -> bool
    decreases text.len() - at,
{
    let lexeme = lexeme_at(text, at);
    match lexeme.outcome {
        Ok(_) => at < lexeme.end <= text.len() && scans(text, lexeme.end),
        Err(e) => e == TokenErrorView::EndOfFile,
    }
}

/// The characters of the tokens read from index `at` of `text` on, one
/// token behind the other.
pub open spec fn token_texts(text: Seq<char>, at: nat) -> Seq<char>
    decreases text.len() - at,
{
    let lexeme = lexeme_at(text, at);
    if lexeme.outcome is Ok && at < lexeme.end <= text.len() {
        text.subrange(lexeme.start as int, lexeme.end as int) + token_texts(text, lexeme.end)
    } else {
        Seq::empty()
    }
}

/// Holds of the characters that are not whitespace.
pub open spec fn not_whitespace() -> spec_fn(char) -> bool {
    |c: char| !is_whitespace(c)
}

/// Whether whitespace keeps apart from the characters of words in `text`:
/// none of its characters is whitespace and also what std calls
/// alphanumeric.
pub open spec fn whitespace_apart(text: Seq<char>) -> bool {
    forall|i: int|
        0 <= i < text.len() && is_whitespace(#[trigger] text[i]) ==> !char_is_alphanumeric(
            text[i],
        )
}

proof fn lemma_filter_none(text: Seq<char>, keep: spec_fn(char) -> bool)
    requires
        forall|i: int| 0 <= i < text.len() ==> !keep(#[trigger] text[i]),
    ensures
        text.filter(keep) == Seq::<char>::empty(),
    decreases text.len(),
{
    reveal(Seq::filter);
    if text.len() > 0 {
        lemma_filter_none(text.drop_last(), keep);
    }
    assert(text.filter(keep) =~= Seq::<char>::empty());
}

proof fn lemma_filter_all(text: Seq<char>, keep: spec_fn(char) -> bool)
    requires
        forall|i: int| 0 <= i < text.len() ==> keep(#[trigger] text[i]),
    ensures
        text.filter(keep) == text,
    decreases text.len(),
{
    reveal(Seq::filter);
    if text.len() > 0 {
        lemma_filter_all(text.drop_last(), keep);
        assert(text.drop_last().push(text.last()) =~= text);
    }
    assert(text.filter(keep) =~= text);
}

/// No character of a token is whitespace, where whitespace keeps apart
/// from the characters of words.
pub proof fn lemma_token_holds_no_whitespace(text: Seq<char>, at: nat)
    requires
        at <= text.len(),
        whitespace_apart(text),
        lexeme_at(text, at).outcome is Ok,
    ensures
        forall|i: int|
            lexeme_at(text, at).start <= i < lexeme_at(text, at).end ==> !is_whitespace(
                #[trigger] text[i],
            ),
{
    let lexeme = lexeme_at(text, at);
    lemma_lexeme_at(text, at);
    lemma_run_end(text, lexeme.start + 1, CharClass::Digit);
    lemma_run_end(text, lexeme.start + 1, CharClass::Word);
    assert forall|i: int| lexeme.start <= i < lexeme.end implies !is_whitespace(
        #[trigger] text[i],
    ) by {
        if i > lexeme.start {
            assert(in_class(CharClass::Digit, text[i]) || in_class(CharClass::Word, text[i]));
        }
    }
}

/// Where a text is read to its end without an error, the tokens hold the
/// text without its whitespace: their characters, one token behind the
/// other, are the characters of the text that are not whitespace, in the
/// order of the text. This is stated of texts in which whitespace keeps
/// apart from the characters of words.
pub proof fn lemma_tokens_hold_text(text: Seq<char>, at: nat)
    requires
        at <= text.len(),
        scans(text, at),
        whitespace_apart(text),
    ensures
        token_texts(text, at) == text.skip(at as int).filter(not_whitespace()),
    decreases text.len() - at,
{
    let lexeme = lexeme_at(text, at);
    let keep = not_whitespace();
    lemma_lexeme_at(text, at);
    let gap = text.subrange(at as int, lexeme.start as int);
    lemma_filter_none(gap, keep);
    if lexeme.outcome is Ok {
        let token = text.subrange(lexeme.start as int, lexeme.end as int);
        let rest = text.skip(lexeme.end as int);
        lemma_token_holds_no_whitespace(text, at);
        lemma_filter_all(token, keep);
        lemma_tokens_hold_text(text, lexeme.end);
        assert(text.skip(at as int) =~= (gap + token) + rest);
        Seq::filter_distributes_over_add(gap + token, rest, keep);
        Seq::filter_distributes_over_add(gap, token, keep);
        assert(gap.filter(keep) + token.filter(keep) =~= token);
    } else {
        assert(text.skip(at as int) =~= gap);
    }
}

/// The same of a whole text, read from its start.
pub proof fn lemma_tokens_hold_whole_text(text: Seq<char>)
    requires
        scans(text, 0),
        whitespace_apart(text),
    ensures
        token_texts(text, 0) == text.filter(not_whitespace()),
{
    lemma_tokens_hold_text(text, 0);
    assert(text.skip(0) =~= text);
}

} // verus!
