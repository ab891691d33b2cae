use openfga_dsl_parser::lexer::Lexer;
use openfga_dsl_parser::token::{Token, TokenKind};

#[test]
fn parse_type() {
    let i = "type document";
    let mut l = Lexer::new(i);
    assert_eq!(l.next_token(), Token::new("type".into(), TokenKind::Type));
    assert_eq!(
        l.next_token(),
        Token::new("document".into(), TokenKind::Text)
    );
    assert_eq!(l.next_token(), Token::new("".into(), TokenKind::EOF));
}

#[test]
fn parse_type_newline() {
    let i = "type document
";
    let mut l = Lexer::new(i);
    assert_eq!(l.next_token(), Token::new("type".into(), TokenKind::Type));
    assert_eq!(
        l.next_token(),
        Token::new("document".into(), TokenKind::Text)
    );
    assert_eq!(l.next_token(), Token::new("".into(), TokenKind::EOF));
}

#[test]
fn full() {
    let i = "type document
    relations
        define parent as self or thing or other_thing from parent";

    let mut l = Lexer::new(i);
    assert_eq!(l.next_token(), Token::new("type".into(), TokenKind::Type));
    assert_eq!(
        l.next_token(),
        Token::new("document".into(), TokenKind::Text)
    );
    assert_eq!(
        l.next_token(),
        Token::new("relations".into(), TokenKind::Relations)
    );
    assert_eq!(
        l.next_token(),
        Token::new("define".into(), TokenKind::Define)
    );
    assert_eq!(l.next_token(), Token::new("parent".into(), TokenKind::Text));
    assert_eq!(l.next_token(), Token::new("as".into(), TokenKind::As));
    assert_eq!(l.next_token(), Token::new("self".into(), TokenKind::This));
    assert_eq!(l.next_token(), Token::new("or".into(), TokenKind::Or));
    assert_eq!(l.next_token(), Token::new("thing".into(), TokenKind::Text));
    assert_eq!(l.next_token(), Token::new("or".into(), TokenKind::Or));
    assert_eq!(
        l.next_token(),
        Token::new("other_thing".into(), TokenKind::Text)
    );
    assert_eq!(l.next_token(), Token::new("from".into(), TokenKind::From));
    assert_eq!(l.next_token(), Token::new("parent".into(), TokenKind::Text));
    assert_eq!(l.next_token(), Token::new("".into(), TokenKind::EOF));
}
