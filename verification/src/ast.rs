//! The tokens of the language.

use vstd::prelude::*;

verus! {

/// A token: punctuation, a reserved word, an identifier with its text, or
/// an integer literal with its value.
#[derive(Debug, PartialEq)]
pub enum Token {
    LParen,
    RParen,
    LBrace,
    RBrace,
    Colon,
    Func,
    Int,
    Identifier(String),
    Integer(i128),
}

/// A token as a mathematical value: an identifier holds its characters.
pub enum TokenView {
    LParen,
    RParen,
    LBrace,
    RBrace,
    Colon,
    Func,
    Int,
    Identifier(Seq<char>),
    Integer(i128),
}

impl View for Token {
    type V = TokenView;

    open spec fn view(&self) -> TokenView {
        match self {
            Token::LParen => TokenView::LParen,
            Token::RParen => TokenView::RParen,
            Token::LBrace => TokenView::LBrace,
            Token::RBrace => TokenView::RBrace,
            Token::Colon => TokenView::Colon,
            Token::Func => TokenView::Func,
            Token::Int => TokenView::Int,
            Token::Identifier(text) => TokenView::Identifier(text@),
            Token::Integer(value) => TokenView::Integer(*value),
        }
    }
}

impl DeepView for Token {
    type V = TokenView;

    open spec fn deep_view(&self) -> TokenView {
        self@
    }
}

} // verus!
