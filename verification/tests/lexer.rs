use nom_locate::LocatedSpan;
use spanlex::ast::Token;
use spanlex::parser::diag::{known, Diagnostic, TOK0001, TOK0002};
use spanlex::parser::Token as Parsed;
use spanlex::text::{Document, Location, Span, Spanned, TextError, Window};
use spanlex::tokens::rules::{
    classify, keyword_or_identifier, next_token, parse_integer, same_text, whitespace, Lead,
};
use spanlex::tokens::{TokenBuffer, TokenError};
use std::borrow::Cow;

fn span(from: (usize, usize, usize), to: (usize, usize, usize)) -> Span {
    Span::new(from.into(), to.into())
}

#[test]
pub fn tokens_of_a_parenthesised_number() {
    let doc = Document::new("(42)");
    let mut win = Window::new(&doc);
    assert_eq!(
        next_token(&mut win).unwrap(),
        Spanned::new(Token::LParen, span((0, 0, 0), (1, 0, 1)))
    );
    assert_eq!(
        next_token(&mut win).unwrap(),
        Spanned::new(Token::Integer(42), span((1, 0, 1), (3, 0, 3)))
    );
    assert_eq!(
        next_token(&mut win).unwrap(),
        Spanned::new(Token::RParen, span((3, 0, 3), (4, 0, 4)))
    );
    assert_eq!(next_token(&mut win), Err(TokenError::EndOfFile));
}

#[test]
pub fn reserved_words_and_identifiers() {
    for (text, expected) in [
        ("func", Token::Func),
        ("int", Token::Int),
        ("_abc123", Token::Identifier("_abc123".into())),
        ("京¾৬", Token::Identifier("京¾৬".into())),
        ("funcs", Token::Identifier("funcs".into())),
        ("fun", Token::Identifier("fun".into())),
        ("Int", Token::Identifier("Int".into())),
        ("_", Token::Identifier("_".into())),
    ] {
        let doc = Document::new(text);
        let mut win = Window::new(&doc);
        let token = next_token(&mut win).unwrap();
        assert_eq!(token.value, expected);
        assert_eq!(doc.text_at(token.span), text);
        assert_eq!(next_token(&mut win), Err(TokenError::EndOfFile));
    }
}

#[test]
pub fn number_out_of_range_keeps_its_digits() {
    let digits = "9223372036854775808000000000000000000000";
    let doc = Document::new(format!("  {} x", digits));
    let mut win = Window::new(&doc);
    assert_eq!(next_token(&mut win), Err(TokenError::InvalidNumber(digits.into())));
    // the digits stay in the window, behind the committed whitespace
    assert_eq!(win.content(), digits);
    assert_eq!(win.span().start, Location::new(2, 0, 2));
}

#[test]
pub fn numbers_at_the_edge_of_the_range() {
    let max = "170141183460469231731687303715884105727";
    let over = "170141183460469231731687303715884105728";
    assert_eq!(parse_integer(max), Some(i128::MAX));
    assert_eq!(parse_integer(over), None);
    assert_eq!(parse_integer("0"), Some(0));
    assert_eq!(parse_integer("007"), Some(7));
    assert_eq!(parse_integer("1234"), Some(1234));
    assert_eq!(parse_integer(""), None);
    assert_eq!(parse_integer("12a"), None);
    assert_eq!(parse_integer("-5"), None);
    assert_eq!(parse_integer("+5"), None);
    assert_eq!(parse_integer("৬"), None);
    assert_eq!(parse_integer("1৬"), None);
    let doc = Document::new(max);
    let mut win = Window::new(&doc);
    assert_eq!(next_token(&mut win).unwrap().value, Token::Integer(i128::MAX));
}

#[test]
pub fn number_stops_before_a_letter() {
    let doc = Document::new("12ab");
    let mut win = Window::new(&doc);
    assert_eq!(
        next_token(&mut win).unwrap(),
        Spanned::new(Token::Integer(12), span((0, 0, 0), (2, 0, 2)))
    );
    assert_eq!(
        next_token(&mut win).unwrap(),
        Spanned::new(Token::Identifier("ab".into()), span((2, 0, 2), (4, 0, 4)))
    );
}

#[test]
pub fn unexpected_character_is_read_and_reported() {
    let doc = Document::new(" $x");
    let mut win = Window::new(&doc);
    assert_eq!(next_token(&mut win), Err(TokenError::Unexpected('$')));
    assert_eq!(win.content(), "$");
    assert_eq!(
        next_token(&mut win).unwrap(),
        Spanned::new(Token::Identifier("x".into()), span((2, 0, 2), (3, 0, 3)))
    );
}

#[test]
pub fn end_of_file_behind_whitespace() {
    for text in ["", " ", " \t\r\n\u{a0}\u{3000}"] {
        let doc = Document::new(text);
        let mut win = Window::new(&doc);
        assert_eq!(next_token(&mut win), Err(TokenError::EndOfFile));
        assert_eq!(win.content(), "");
        assert_eq!(win.span().end.offset, text.len());
        assert_eq!(next_token(&mut win), Err(TokenError::EndOfFile));
    }
}

#[test]
pub fn whitespace_is_in_no_span() {
    let doc = Document::new("func\n  main ( ) : int { }");
    let mut win = Window::new(&doc);
    let mut found = Vec::new();
    loop {
        match next_token(&mut win) {
            Ok(token) => found.push(token),
            Err(e) => {
                assert_eq!(e, TokenError::EndOfFile);
                break;
            }
        }
    }
    let expected = vec![
        Spanned::new(Token::Func, span((0, 0, 0), (4, 0, 4))),
        Spanned::new(Token::Identifier("main".into()), span((7, 1, 2), (11, 1, 6))),
        Spanned::new(Token::LParen, span((12, 1, 7), (13, 1, 8))),
        Spanned::new(Token::RParen, span((14, 1, 9), (15, 1, 10))),
        Spanned::new(Token::Colon, span((16, 1, 11), (17, 1, 12))),
        Spanned::new(Token::Int, span((18, 1, 13), (21, 1, 16))),
        Spanned::new(Token::LBrace, span((22, 1, 17), (23, 1, 18))),
        Spanned::new(Token::RBrace, span((24, 1, 19), (25, 1, 20))),
    ];
    assert_eq!(found, expected);
}

#[test]
pub fn token_texts_are_the_text_without_whitespace() {
    for text in [
        "func main ( ) : int { 42 }",
        "  (京¾৬)\n\t_x1:007  ",
        "",
        " \n ",
        "a b\u{a0}c\u{2003}d",
    ] {
        let doc = Document::new(text);
        let mut win = Window::new(&doc);
        let mut joined = String::new();
        loop {
            match next_token(&mut win) {
                Ok(token) => joined.push_str(doc.text_at(token.span)),
                Err(e) => {
                    assert_eq!(e, TokenError::EndOfFile);
                    break;
                }
            }
        }
        let stripped: String = text.chars().filter(|c| !c.is_whitespace()).collect();
        assert_eq!(joined, stripped);
    }
}

#[test]
pub fn classify_by_first_character() {
    assert_eq!(classify('(', false), Lead::LParen);
    assert_eq!(classify(')', false), Lead::RParen);
    assert_eq!(classify(':', false), Lead::Colon);
    assert_eq!(classify('{', false), Lead::LBrace);
    assert_eq!(classify('}', false), Lead::RBrace);
    assert_eq!(classify('0', false), Lead::Digit);
    assert_eq!(classify('9', true), Lead::Digit);
    assert_eq!(classify('a', true), Lead::Word);
    assert_eq!(classify('_', false), Lead::Word);
    assert_eq!(classify('$', false), Lead::Other);
    assert_eq!(classify('/', false), Lead::Other);
    assert_eq!(classify(';', false), Lead::Other);
}

#[test]
pub fn keyword_lookup_is_exact() {
    assert_eq!(keyword_or_identifier("func"), Token::Func);
    assert_eq!(keyword_or_identifier("int"), Token::Int);
    assert_eq!(keyword_or_identifier("in"), Token::Identifier("in".into()));
    assert_eq!(keyword_or_identifier("inte"), Token::Identifier("inte".into()));
    assert_eq!(keyword_or_identifier("FUNC"), Token::Identifier("FUNC".into()));
    assert_eq!(keyword_or_identifier(""), Token::Identifier("".into()));
    assert!(same_text("京", "京"));
    assert!(!same_text("京", "亰"));
    assert!(!same_text("ab", "abc"));
    assert!(same_text("", ""));
}

#[test]
pub fn text_error_becomes_token_error() {
    assert_eq!(TokenError::from(TextError::OutOfBounds), TokenError::EndOfFile);
    assert_eq!(
        TokenError::from(TextError::InvalidUtf8Value(0x80)),
        TokenError::InvalidText(TextError::InvalidUtf8Value(0x80))
    );
    let kept = TokenError::InvalidNumber("99".into());
    assert_eq!(kept.clone(), kept);
}

#[test]
pub fn peek_twice_then_take() {
    let doc = Document::new("(42)");
    let mut buf = TokenBuffer::new(Window::new(&doc));
    let first = Spanned::new(Token::LParen, span((0, 0, 0), (1, 0, 1)));
    assert_eq!(buf.peek().unwrap(), &first);
    assert_eq!(buf.peek().unwrap(), &first);
    assert_eq!(buf.span(), Span::zero());
    buf.take().unwrap();
    assert_eq!(buf.span(), span((0, 0, 0), (1, 0, 1)));
    // the looks did not move the window: the next token is the number
    assert_eq!(
        buf.peek().unwrap(),
        &Spanned::new(Token::Integer(42), span((1, 0, 1), (3, 0, 3)))
    );
}

#[test]
pub fn buffer_runs_to_the_end_of_the_file() {
    let doc = Document::new("(42)");
    let mut buf = TokenBuffer::new(Window::new(&doc));
    buf.take().unwrap();
    buf.take().unwrap();
    buf.take().unwrap();
    assert_eq!(buf.peek(), Err(TokenError::EndOfFile));
    assert_eq!(buf.take(), Err(TokenError::EndOfFile));
    assert_eq!(
        buf.complete(),
        Spanned::new(
            vec![Token::LParen, Token::Integer(42), Token::RParen],
            span((0, 0, 0), (4, 0, 4))
        )
    );
    assert_eq!(buf.complete(), Spanned::new(vec![], span((4, 0, 4), (4, 0, 4))));
}

#[test]
pub fn buffer_keeps_an_error_until_it_is_taken() {
    let doc = Document::new("$x");
    let mut buf = TokenBuffer::new(Window::new(&doc));
    assert_eq!(buf.peek(), Err(TokenError::Unexpected('$')));
    assert_eq!(buf.peek(), Err(TokenError::Unexpected('$')));
    assert_eq!(buf.take(), Err(TokenError::Unexpected('$')));
    assert_eq!(
        buf.peek().unwrap(),
        &Spanned::new(Token::Identifier("x".into()), span((1, 0, 1), (2, 0, 2)))
    );
    assert_eq!(buf.complete(), Spanned::new(vec![], Span::zero()));
}

#[test]
pub fn buffer_keeps_an_invalid_number() {
    let digits = "340282366920938463463374607431768211456";
    let doc = Document::new(digits);
    let mut buf = TokenBuffer::new(Window::new(&doc));
    assert_eq!(buf.peek(), Err(TokenError::InvalidNumber(digits.into())));
    assert_eq!(buf.peek(), Err(TokenError::InvalidNumber(digits.into())));
    assert_eq!(buf.try_take(), Err(TokenError::InvalidNumber(digits.into())));
    assert_eq!(buf.peek(), Err(TokenError::EndOfFile));
}

#[test]
pub fn try_take_leaves_a_token_behind_a_gap() {
    let doc = Document::new("( 42");
    let mut buf = TokenBuffer::new(Window::new(&doc));
    assert_eq!(buf.try_take(), Ok(true));
    assert_eq!(buf.try_take(), Ok(false));
    assert_eq!(buf.try_take(), Ok(false));
    assert_eq!(
        buf.peek().unwrap(),
        &Spanned::new(Token::Integer(42), span((2, 0, 2), (4, 0, 4)))
    );
    assert_eq!(
        buf.complete(),
        Spanned::new(vec![Token::LParen], span((0, 0, 0), (1, 0, 1)))
    );
}

#[test]
pub fn known_diagnostics() {
    assert_eq!(
        known(TOK0001),
        vec![Diagnostic {
            id: "TOK0001",
            message: Cow::from("Failed to parse as integer."),
        }]
    );
    let float = known(TOK0002);
    assert_eq!(float.len(), 1);
    assert_eq!(float[0].id, "TOK0002");
    assert_eq!(float[0].message, "Failed to parse as floating-point.");
}

#[test]
pub fn parsed_value_keeps_its_input() {
    let input = LocatedSpan::new("42 rest");
    let parsed = Parsed::new(input, 42);
    assert_eq!(parsed.value, 42);
    let text = parsed.map(|v: i32| format!("<{}>", v + 1));
    assert_eq!(text.value, "<43>");
    assert_eq!(*text.content.fragment(), "42 rest");
    assert_eq!(text.content.location_offset(), 0);
    assert_eq!(text.content.location_line(), 1);
}

#[test]
pub fn whitespace_is_what_std_calls_whitespace() {
    for c in '\0'..=char::MAX {
        assert_eq!(whitespace(c), c.is_whitespace(), "{:?}", c);
    }
    assert!(whitespace(' '));
    assert!(whitespace('\t'));
    assert!(whitespace('\n'));
    assert!(whitespace('\r'));
    assert!(whitespace('\u{a0}'));
    assert!(whitespace('\u{3000}'));
    assert!(!whitespace('_'));
    assert!(!whitespace('\u{200b}'));
    assert!(!whitespace('\u{180e}'));
}

#[test]
pub fn no_whitespace_character_is_alphanumeric() {
    for c in '\0'..=char::MAX {
        assert!(!(whitespace(c) && c.is_alphanumeric()), "{:?}", c);
    }
}
