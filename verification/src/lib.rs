//! A UTF-8 aware, span-tracking text scanner and the tokenizer built on it.
//!
//! [`text`] turns a [`text::Document`] into located characters through a
//! forward-only [`text::Window`]; [`tokens`] turns those characters into
//! located [`ast::Token`]s and buffers them with one token of lookahead.

pub mod ast;
pub mod parser;
pub mod text;
pub mod tokens;
