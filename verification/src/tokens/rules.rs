//! The rules by which a token is read from a window.

use super::error::{TokenError, TokenErrorView};
use crate::ast::{Token, TokenView};
use crate::text::document::{char_index, is_boundary, lemma_boundary_ends, lemma_boundary_step};
use crate::text::{lemma_predicate_pattern, read_char, Span, Spanned, Window, WindowView};
use vstd::prelude::*;
use vstd::string::*;
use vstd::utf8::*;

verus! {

/// What `char::is_alphabetic` of std returns for `c`.
pub uninterp spec fn char_is_alphabetic(c: char) -> bool;

/// What `char::is_alphanumeric` of std returns for `c`.
pub uninterp spec fn char_is_alphanumeric(c: char) -> bool;

/// `char::is_alphabetic` of std depends on the character alone; its result
/// goes by the name [`char_is_alphabetic`].
pub assume_specification[ char::is_alphabetic ](c: char) -> (found: bool)
    ensures
        found == char_is_alphabetic(c),
;

/// `char::is_alphanumeric` of std depends on the character alone; its
/// result goes by the name [`char_is_alphanumeric`].
pub assume_specification[ char::is_alphanumeric ](c: char) -> (found: bool)
    ensures
        found == char_is_alphanumeric(c),
;

/// Whether `c` is whitespace: one of the characters to which Unicode
/// gives the property `White_Space`. These are the controls from tab to
/// carriage return, the space, the next-line control, the no-break space,
/// the ogham space mark, the spaces from en quad to hair space, the line
/// and the paragraph separator, the narrow no-break space, the medium
/// mathematical space and the ideographic space.
pub open spec fn is_whitespace(c: char) -> bool {
    let code = c as u32;
    ||| 0x09 <= code <= 0x0d
    ||| code == 0x20
    ||| code == 0x85
    ||| code == 0xa0
    ||| code == 0x1680
    ||| 0x2000 <= code <= 0x200a
    ||| code == 0x2028
    ||| code == 0x2029
    ||| code == 0x202f
    ||| code == 0x205f
    ||| code == 0x3000
}

/// Says whether `c` is whitespace.
pub fn whitespace(c: char) -> (found: bool)
    ensures
        found == is_whitespace(c),
{
    let code = c as u32;
    (0x09 <= code && code <= 0x0d) || code == 0x20 || code == 0x85 || code == 0xa0 || code
        == 0x1680 || (0x2000 <= code && code <= 0x200a) || code == 0x2028 || code == 0x2029
        || code == 0x202f || code == 0x205f || code == 0x3000
}

/// The classes of characters that the rules read in runs.
pub enum CharClass {
    /// The whitespace characters.
    Whitespace,
    /// The ten digits `0` to `9`.
    Digit,
    /// What std calls alphanumeric, and the underscore.
    Word,
}

/// Whether `c` is one of the ten digits.
pub open spec fn is_digit(c: char) -> bool {
    '0' <= c <= '9'
}

/// Whether `c` belongs to `class`.
pub open spec fn in_class(class: CharClass, c: char) -> bool {
    match class {
        CharClass::Whitespace => is_whitespace(c),
        CharClass::Digit => is_digit(c),
        CharClass::Word => char_is_alphanumeric(c) || c == '_',
    }
}

/// Where the longest run of characters of `class` that begins at index
/// `from` of `text` ends: the index of the first character from `from` on
/// that is not of the class, or the length of the text.
pub open spec fn run_end(text: Seq<char>, from: nat, class: CharClass) -> nat
    decreases text.len() - from,
{
    if from < text.len() && in_class(class, text[from as int]) {
        run_end(text, from + 1, class)
    } else {
        from
    }
}

/// A run ends at or behind its start and within the text, holds only
/// characters of the class, and stops before a character that is not.
pub proof fn lemma_run_end(text: Seq<char>, from: nat, class: CharClass)
    ensures
        from <= run_end(text, from, class),
        from <= text.len() ==> run_end(text, from, class) <= text.len(),
        forall|i: int|
            from <= i < run_end(text, from, class) ==> in_class(class, #[trigger] text[i]),
        run_end(text, from, class) < text.len() ==> !in_class(
            class,
            text[run_end(text, from, class) as int],
        ),
    decreases text.len() - from,
{
    if from < text.len() && in_class(class, text[from as int]) {
        lemma_run_end(text, from + 1, class);
    }
}

/// The end of a run is the only index behind characters of the class and
/// before one that is not.
pub proof fn lemma_run_end_unique(text: Seq<char>, from: nat, to: nat, class: CharClass)
    requires
        from <= to <= text.len(),
        forall|i: int| from <= i < to ==> in_class(class, #[trigger] text[i]),
        to < text.len() ==> !in_class(class, text[to as int]),
    ensures
        run_end(text, from, class) == to,
    decreases to - from,
{
    if from < to {
        assert(in_class(class, text[from as int]));
        lemma_run_end_unique(text, from + 1, to, class);
    }
}

/// What the first character of a token makes of it.
#[derive(Copy, Clone, Debug, PartialEq, Eq, Structural)]
pub enum Lead {
    LParen,
    RParen,
    Colon,
    LBrace,
    RBrace,
    /// The token is an integer literal.
    Digit,
    /// The token is a reserved word or an identifier.
    Word,
    /// No token begins with the character.
    Other,
}

/// What `first` makes of a token, given whether std calls it alphabetic:
/// one of the five punctuation marks, a digit, the first character of a
/// word (alphabetic, or the underscore), or none of these.
pub open spec fn lead_of(first: char, alphabetic: bool) -> Lead {
    if first == '(' {
        Lead::LParen
    } else if first == ')' {
        Lead::RParen
    } else if first == ':' {
        Lead::Colon
    } else if first == '{' {
        Lead::LBrace
    } else if first == '}' {
        Lead::RBrace
    } else if is_digit(first) {
        Lead::Digit
    } else if alphabetic || first == '_' {
        Lead::Word
    } else {
        Lead::Other
    }
}

/// Says what the first character of a token makes of it, given whether the
/// character is alphabetic.
pub fn classify(first: char, alphabetic: bool) -> (lead: Lead)
    ensures
        lead == lead_of(first, alphabetic),
{
    if first == '(' {
        Lead::LParen
    } else if first == ')' {
        Lead::RParen
    } else if first == ':' {
        Lead::Colon
    } else if first == '{' {
        Lead::LBrace
    } else if first == '}' {
        Lead::RBrace
    } else if '0' <= first && first <= '9' {
        Lead::Digit
    } else if alphabetic || first == '_' {
        Lead::Word
    } else {
        Lead::Other
    }
}

/// The value of the digit `c`.
pub open spec fn digit_value(c: char) -> nat {
    (c as u32 - '0' as u32) as nat
}

/// The number that `digits` write in base ten.
pub open spec fn decimal_value(digits: Seq<char>) -> nat
    decreases digits.len(),
{
    if digits.len() == 0 {
        0
    } else {
        10 * decimal_value(digits.drop_last()) + digit_value(digits.last())
    }
}

/// Whether `text` holds digits only.
pub open spec fn all_digits(text: Seq<char>) -> bool {
    forall|i: int| 0 <= i < text.len() ==> is_digit(#[trigger] text[i])
}

/// The integer that `text` writes: the value of its digits, where `text`
/// is a run of at least one digit whose value fits 128 signed bits.
pub open spec fn integer_of(text: Seq<char>) -> Option<i128> {
    if text.len() > 0 && all_digits(text) && decimal_value(text) <= i128::MAX {
        Some(decimal_value(text) as i128)
    } else {
        None
    }
}

/// The reserved word that `text` spells, or the identifier `text`.
pub open spec fn word_token(text: Seq<char>) -> TokenView {
    if text == seq!['f', 'u', 'n', 'c'] {
        TokenView::Func
    } else if text == seq!['i', 'n', 't'] {
        TokenView::Int
    } else {
        TokenView::Identifier(text)
    }
}

/// Digits in front never make a number smaller.
proof fn lemma_decimal_value_grows(digits: Seq<char>, k: int)
    requires
        0 <= k <= digits.len(),
    ensures
        decimal_value(digits.take(k)) <= decimal_value(digits),
    decreases digits.len() - k,
{
    if k < digits.len() {
        lemma_decimal_value_grows(digits, k + 1);
        assert(digits.take(k + 1).drop_last() =~= digits.take(k));
    } else {
        assert(digits.take(k) =~= digits);
    }
}

/// Reads `text` as a run of digits in base ten.
///
/// Gives the value where `text` is one or more digits and nothing else and
/// the value fits 128 signed bits, and nothing otherwise.
pub fn parse_integer(text: &str) -> (value: Option<i128>)
    ensures
        value == integer_of(text@),
{
    broadcast use group_utf8_lib;

    let len = text.as_bytes().len();
    proof {
        lemma_boundary_ends(text@);
        assert(text@.take(0) =~= Seq::<char>::empty());
    }
    if len == 0 {
        return None;
    }
    let mut at: usize = 0;
    let mut value: i128 = 0;
    while at < len
        invariant
            len == encode_utf8(text@).len(),
            at <= len,
            is_boundary(text@, at as int),
            char_index(text@, at as int) <= text@.len(),
            all_digits(text@.take(char_index(text@, at as int) as int)),
            0 <= value == decimal_value(text@.take(char_index(text@, at as int) as int)),
        decreases len - at,
    {
        let ghost k = char_index(text@, at as int) as int;
        proof {
            lemma_boundary_step(text@, at as int);
            assert(text@.take(k + 1).drop_last() =~= text@.take(k));
            lemma_decimal_value_grows(text@, k + 1);
        }
        match read_char(text, at) {
            Ok((c, next)) => {
                if c < '0' || c > '9' {
                    return None;
                }
                let digit = (c as u32 - '0' as u32) as i128;
                let tens = match value.checked_mul(10) {
                    Some(tens) => tens,
                    None => {
                        return None;
                    },
                };
                value = match tens.checked_add(digit) {
                    Some(sum) => sum,
                    None => {
                        return None;
                    },
                };
                at = next;
            },
            Err(_) => {
                return None;
            },
        }
    }
    proof {
        assert(text@.take(text@.len() as int) =~= text@);
    }
    Some(value)
}

/// Whether two texts hold the same characters.
pub fn same_text(a: &str, b: &str) -> (same: bool)
    ensures
        same == (a@ == b@),
{
    broadcast use group_utf8_lib;

    let left = a.as_bytes();
    let right = b.as_bytes();
    if left.len() != right.len() {
        return false;
    }
    let mut i: usize = 0;
    while i < left.len()
        invariant
            left@ == encode_utf8(a@),
            right@ == encode_utf8(b@),
            left@.len() == right@.len(),
            i <= left@.len(),
            forall|j: int| 0 <= j < i ==> left@[j] == right@[j],
        decreases left@.len() - i,
    {
        if left[i] != right[i] {
            return false;
        }
        i = i + 1;
    }
    proof {
        assert(left@ =~= right@);
        assert(a@ == decode_utf8(encode_utf8(a@)));
        assert(b@ == decode_utf8(encode_utf8(b@)));
    }
    true
}

/// The token of a word: `func` and `int` are reserved, every other word is
/// an identifier.
pub fn keyword_or_identifier(text: &str) -> (token: Token)
    ensures
        token@ == word_token(text@),
{
    proof {
        reveal_strlit("func");
        reveal_strlit("int");
        assert("func"@ =~= seq!['f', 'u', 'n', 'c']);
        assert("int"@ =~= seq!['i', 'n', 't']);
    }
    if same_text(text, "func") {
        Token::Func
    } else if same_text(text, "int") {
        Token::Int
    } else {
        Token::Identifier(text.to_owned())
    }
}

/// What the rules read at one place of a text: the characters from
/// `start` up to `end`, behind the whitespace that was skipped, and the
/// token that they spell or the reason why they spell none.
pub struct Lexeme {
    pub start: nat,
    pub end: nat,
    pub outcome: Result<TokenView, TokenErrorView>,
}

/// The token that the digits `text` spell, or the error that keeps them.
pub open spec fn number_outcome(text: Seq<char>) -> Result<TokenView, TokenErrorView> {
    match integer_of(text) {
        Some(value) => Ok(TokenView::Integer(value)),
        None => Err(TokenErrorView::InvalidNumber(text)),
    }
}

/// What the rules read from index `at` of `text`.
///
/// Whitespace is skipped first and belongs to no token. Where the text
/// ends there, the file has ended. Otherwise the next character decides:
/// a punctuation mark is a token by itself; a digit begins the longest run
/// of digits, which is an integer literal or, out of range, an invalid
/// number; an alphabetic character or an underscore begins the longest run
/// of word characters, which is a reserved word or an identifier; any
/// other character is read and reported as unexpected.
pub open spec fn lexeme_at(text: Seq<char>, at: nat) -> Lexeme {
    let start = run_end(text, at, CharClass::Whitespace);
    if start >= text.len() {
        Lexeme { start, end: start, outcome: Err(TokenErrorView::EndOfFile) }
    } else {
        let first = text[start as int];
        match lead_of(first, char_is_alphabetic(first)) {
            Lead::LParen => Lexeme { start, end: start + 1, outcome: Ok(TokenView::LParen) },
            Lead::RParen => Lexeme { start, end: start + 1, outcome: Ok(TokenView::RParen) },
            Lead::Colon => Lexeme { start, end: start + 1, outcome: Ok(TokenView::Colon) },
            Lead::LBrace => Lexeme { start, end: start + 1, outcome: Ok(TokenView::LBrace) },
            Lead::RBrace => Lexeme { start, end: start + 1, outcome: Ok(TokenView::RBrace) },
            Lead::Digit => {
                let end = run_end(text, start + 1, CharClass::Digit);
                Lexeme { start, end, outcome: number_outcome(text.subrange(start as int, end as int)) }
            },
            Lead::Word => {
                let end = run_end(text, start + 1, CharClass::Word);
                Lexeme { start, end, outcome: Ok(word_token(text.subrange(start as int, end as int))) }
            },
            Lead::Other => Lexeme {
                start,
                end: start + 1,
                outcome: Err(TokenErrorView::Unexpected(first)),
            },
        }
    }
}

/// What reading a token from a window gives: the token with its span, or
/// the error.
pub open spec fn token_read(window: WindowView) -> Result<(TokenView, Span), TokenErrorView> {
    let lexeme = lexeme_at(window.text, window.end);
    match lexeme.outcome {
        Ok(token) => Ok((token, token_window(window).span())),
        Err(e) => Err(e),
    }
}

/// The window that holds just the characters of the next token: from the
/// start to the end of what the rules read.
pub open spec fn token_window(window: WindowView) -> WindowView {
    let lexeme = lexeme_at(window.text, window.end);
    WindowView { text: window.text, start: lexeme.start, end: lexeme.end }
}

/// The window that reading a token leaves. Behind a token everything is
/// committed. Behind an error the whitespace is committed, and what was
/// read behind it stays in the window.
pub open spec fn window_read(window: WindowView) -> WindowView {
    let lexeme = lexeme_at(window.text, window.end);
    WindowView {
        text: window.text,
        start: if lexeme.outcome is Ok {
            lexeme.end
        } else {
            lexeme.start
        },
        end: lexeme.end,
    }
}

/// A token with its span, or an error, as a mathematical value.
pub open spec fn read_view(read: Result<Spanned<Token>, TokenError>) -> Result<
    (TokenView, Span),
    TokenErrorView,
> {
    match read {
        Ok(spanned) => Ok((spanned.value@, spanned.span)),
        Err(e) => Err(e@),
    }
}

/// A lexeme lies behind the place it was read from and within the text,
/// only whitespace lies before it, and a token is never empty and never
/// begins with whitespace.
pub proof fn lemma_lexeme_at(text: Seq<char>, at: nat)
    requires
        at <= text.len(),
    ensures
        at <= lexeme_at(text, at).start <= lexeme_at(text, at).end <= text.len(),
        forall|i: int|
            at <= i < lexeme_at(text, at).start ==> is_whitespace(#[trigger] text[i]),
        lexeme_at(text, at).outcome is Ok ==> lexeme_at(text, at).start < lexeme_at(text, at).end
            && !is_whitespace(text[lexeme_at(text, at).start as int]),
        lexeme_at(text, at).outcome == Err::<TokenView, TokenErrorView>(TokenErrorView::EndOfFile)
            <==> lexeme_at(text, at).start == text.len(),
{
    let start = run_end(text, at, CharClass::Whitespace);
    lemma_run_end(text, at, CharClass::Whitespace);
    assert forall|i: int| at <= i < start implies is_whitespace(#[trigger] text[i]) by {
        assert(in_class(CharClass::Whitespace, text[i]));
    }
    if start < text.len() {
        lemma_run_end(text, start + 1, CharClass::Digit);
        lemma_run_end(text, start + 1, CharClass::Word);
    }
}

/// Reads the next token from `window`.
///
/// Whitespace before the token is skipped and committed, so that it is
/// part of no span. The token is then read by the rules of
/// [`lexeme_at`], and its span covers exactly its characters.
pub fn next_token(window: &mut Window) -> (read: Result<Spanned<Token>, TokenError>)
    ensures
        read_view(read) == token_read(old(window)@),
        final(window)@ == window_read(old(window)@),
        final(window)@.wf(),
        read is Ok ==> token_window(old(window)@).is_at(read.unwrap().span),
{
    let ghost before = window@;
    proof {
        lemma_predicate_pattern(whitespace);
    }
    match window.take_while(whitespace) {
        Ok(_) => {},
        Err(e) => {
            return Err(TokenError::from(e));
        },
    }
    proof {
        lemma_run_end_unique(before.text, before.end, window@.end, CharClass::Whitespace);
        lemma_lexeme_at(before.text, before.end);
    }
    window.advance();
    let first = match window.take() {
        Ok(c) => c,
        Err(e) => {
            return Err(TokenError::from(e));
        },
    };
    match classify(first, first.is_alphabetic()) {
        Lead::LParen => Ok(window.complete(Token::LParen)),
        Lead::RParen => Ok(window.complete(Token::RParen)),
        Lead::Colon => Ok(window.complete(Token::Colon)),
        Lead::LBrace => Ok(window.complete(Token::LBrace)),
        Lead::RBrace => Ok(window.complete(Token::RBrace)),
        Lead::Digit => number(window),
        Lead::Word => ident(window),
        Lead::Other => Err(TokenError::Unexpected(first)),
    }
}

/// Reads the rest of an integer literal whose first digit is in the
/// window, and completes it.
fn number(window: &mut Window) -> (read: Result<Spanned<Token>, TokenError>)
    requires
        old(window)@.wf(),
    ensures
        ({
            let before = old(window)@;
            let end = run_end(before.text, before.end, CharClass::Digit);
            let digits = before.text.subrange(before.start as int, end as int);
            &&& read_view(read) == match integer_of(digits) {
                Some(value) => Ok(
                    (
                        TokenView::Integer(value),
                        (WindowView { text: before.text, start: before.start, end }).span(),
                    ),
                ),
                None => Err(TokenErrorView::InvalidNumber(digits)),
            }
            &&& final(window)@ == WindowView {
                text: before.text,
                start: if integer_of(digits) is Some {
                    end
                } else {
                    before.start
                },
                end,
            }
            &&& final(window)@.wf()
            &&& read is Ok ==> (WindowView {
                text: before.text,
                start: before.start,
                end,
            }).is_at(read.unwrap().span)
        }),
{
    let ghost before = window@;
    match window.take_while('0'..='9') {
        Ok(_) => {},
        Err(e) => {
            return Err(TokenError::from(e));
        },
    }
    proof {
        lemma_run_end_unique(before.text, before.end, window@.end, CharClass::Digit);
    }
    let digits = window.content().to_owned();
    match parse_integer(digits.as_str()) {
        Some(value) => Ok(window.complete(Token::Integer(value))),
        None => Err(TokenError::InvalidNumber(digits)),
    }
}

/// Reads the rest of a word whose first character is in the window, and
/// completes it as a reserved word or an identifier.
fn ident(window: &mut Window) -> (read: Result<Spanned<Token>, TokenError>)
    requires
        old(window)@.wf(),
    ensures
        ({
            let before = old(window)@;
            let end = run_end(before.text, before.end, CharClass::Word);
            let word = before.text.subrange(before.start as int, end as int);
            &&& read_view(read) == Ok::<(TokenView, Span), TokenErrorView>(
                (
                    word_token(word),
                    (WindowView { text: before.text, start: before.start, end }).span(),
                ),
            )
            &&& final(window)@ == WindowView { text: before.text, start: end, end }
            &&& final(window)@.wf()
            &&& read is Ok ==> (WindowView {
                text: before.text,
                start: before.start,
                end,
            }).is_at(read.unwrap().span)
        }),
{
    let ghost before = window@;
    let word_char = |c: char| -> (found: bool)
        ensures
            found == in_class(CharClass::Word, c),
        { c.is_alphanumeric() || c == '_' };
    proof {
        lemma_predicate_pattern(word_char);
    }
    match window.take_while(word_char) {
        Ok(_) => {},
        Err(e) => {
            return Err(TokenError::from(e));
        },
    }
    proof {
        lemma_run_end_unique(before.text, before.end, window@.end, CharClass::Word);
    }
    let token = keyword_or_identifier(window.content());
    Ok(window.complete(token))
}

} // verus!
