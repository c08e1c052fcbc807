use spanlex::ast::Token;
use spanlex::text::{Document, Span, Spanned, Window};
use spanlex::tokens::rules::next_token;
use spanlex::tokens::TokenBuffer;

fn check_complete_token(orig: &str, expected: Token) {
    // Char count may not equal 'len' because of multi-byte UTF-8 encodings.
    let char_count = orig.chars().count();
    let content = format!("    {}    next", orig);
    let doc = Document::new(content);
    let mut win = Window::new(&doc);
    let tok = next_token(&mut win).unwrap();

    assert_eq!(doc.text_at(tok.span), orig);
    assert_eq!(tok.span.start, (4, 0, 4).into());
    assert_eq!(tok.span.end, (4 + orig.len(), 0, 4 + char_count).into());
    assert_eq!(tok.value, expected);
}

#[test]
pub fn lparen() {
    check_complete_token("(", Token::LParen);
}

#[test]
pub fn rparen() {
    check_complete_token(")", Token::RParen);
}

#[test]
pub fn colon() {
    check_complete_token(":", Token::Colon);
}

#[test]
pub fn lbrace() {
    check_complete_token("{", Token::LBrace);
}

#[test]
pub fn rbrace() {
    check_complete_token("}", Token::RBrace);
}

#[test]
pub fn ident_alpha() {
    check_complete_token("ident", Token::Identifier("ident".into()));
}

#[test]
pub fn ident_alpha_num() {
    check_complete_token("ident42", Token::Identifier("ident42".into()));
}

#[test]
pub fn ident_unicode() {
    check_complete_token("京¾৬", Token::Identifier("京¾৬".into()));
}

#[test]
pub fn ident_underscore() {
    check_complete_token("_¾৬", Token::Identifier("_¾৬".into()));
}

#[test]
pub fn unsigned_integer() {
    check_complete_token("1234", Token::Integer(1234));
}

#[test]
pub fn keyword_func() {
    check_complete_token("func", Token::Func);
}

#[test]
pub fn keyword_int() {
    check_complete_token("int", Token::Int);
}

#[test]
pub fn token_buffer_peek() {
    let content = "(42)";
    let doc = Document::new(content);
    let win = Window::new(&doc);
    let mut buf = TokenBuffer::new(win);

    assert_eq!(
        buf.peek().unwrap(),
        &Spanned::new(Token::LParen, Span::new((0, 0, 0).into(), (1, 0, 1).into()))
    );
    assert_eq!(
        buf.peek().unwrap(),
        &Spanned::new(Token::LParen, Span::new((0, 0, 0).into(), (1, 0, 1).into()))
    );
    assert_eq!(
        buf.peek().unwrap(),
        &Spanned::new(Token::LParen, Span::new((0, 0, 0).into(), (1, 0, 1).into()))
    );
}

#[test]
pub fn token_buffer_take() {
    let content = "(42)";
    let doc = Document::new(content);
    let win = Window::new(&doc);
    let mut buf = TokenBuffer::new(win);

    buf.take().unwrap();
    assert_eq!(
        buf.peek().unwrap(),
        &Spanned::new(
            Token::Integer(42),
            Span::new((1, 0, 1).into(), (3, 0, 3).into())
        )
    )
}

#[test]
pub fn token_buffer_complete() {
    let content = "(42)";
    let doc = Document::new(content);
    let win = Window::new(&doc);
    let mut buf = TokenBuffer::new(win);

    assert_eq!(buf.complete(), Spanned::new(vec![], Span::zero()));
    buf.take().unwrap();
    buf.take().unwrap();
    assert_eq!(
        buf.complete(),
        Spanned::new(
            vec![Token::LParen, Token::Integer(42)],
            Span::new((0, 0, 0).into(), (3, 0, 3).into())
        )
    );
    assert_eq!(
        buf.peek().unwrap(),
        &Spanned::new(Token::RParen, Span::new((3, 0, 3).into(), (4, 0, 4).into()))
    );
}
