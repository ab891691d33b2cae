use openfga_dsl_parser::ast::{Alias, AliasKind, Document, Relation, Type};
use openfga_dsl_parser::json::JsonTransformer;
use openfga_dsl_parser::lexer::Lexer;
use openfga_dsl_parser::token::{Token, TokenKind};
use openfga_dsl_parser::{Parser, ParserError};
use serde_json::Value;

fn parse(i: &str) -> Result<Document, ParserError> {
    Parser::new(Lexer::new(i)).parse_document()
}

#[test]
fn empty_input_parses_to_empty_document() {
    let doc = parse("").unwrap();
    assert_eq!(doc, Document { types: Vec::new() });
    let out = JsonTransformer::new(&doc).serialize();
    assert_eq!(out, "{\"type_definitions\":[]}");
}

#[test]
fn whitespace_only_input_parses_to_empty_document() {
    let doc = parse("  \t\r\n  \n").unwrap();
    assert_eq!(doc, Document { types: Vec::new() });
}

#[test]
fn type_without_relations_serializes_empty_relations() {
    let doc = parse("type doc").unwrap();
    let out = JsonTransformer::new(&doc).serialize();
    let exp: Value = serde_json::from_str(r#"{"type_definitions":[{"type":"doc","relations":{}}]}"#)
        .unwrap();
    assert_eq!(serde_json::from_str::<Value>(&out).unwrap(), exp);
}

#[test]
fn extra_whitespace_changes_nothing() {
    let compact = "type document\nrelations\ndefine write as self or owner from parent";
    let airy = "  type \t document\n\n   relations\r\n\t define\twrite   as\n self \t or\towner\n from   parent\n ";
    assert_eq!(parse(compact), parse(airy));
    let mut la = Lexer::new(compact);
    let mut lb = Lexer::new(airy);
    loop {
        let a = la.next_token();
        let b = lb.next_token();
        assert_eq!(a, b);
        if a.kind() == TokenKind::EOF {
            break;
        }
    }
}

#[test]
fn parsing_is_deterministic() {
    let i = "type a\nrelations\ndefine r as self or b from c";
    assert_eq!(parse(i), parse(i));
    let d1 = parse(i).unwrap();
    let d2 = parse(i).unwrap();
    assert_eq!(
        JsonTransformer::new(&d1).serialize(),
        JsonTransformer::new(&d2).serialize()
    );
}

#[test]
fn declaration_order_is_preserved() {
    let doc = parse("type c\ntype a\ntype b").unwrap();
    let names: Vec<&str> = doc.types.iter().map(|t| t.kind.as_str()).collect();
    assert_eq!(names, vec!["c", "a", "b"]);
}

#[test]
fn type_definitions_length_matches_type_count() {
    let doc = parse("type a\ntype b\ntype c\ntype d").unwrap();
    let out = JsonTransformer::new(&doc).serialize();
    let v: Value = serde_json::from_str(&out).unwrap();
    assert_eq!(v["type_definitions"].as_array().unwrap().len(), 4);
}

#[test]
fn union_child_count_matches_alias_count() {
    let doc = parse("type t\nrelations\ndefine r as self or a or b or c").unwrap();
    let out = JsonTransformer::new(&doc).serialize();
    let v: Value = serde_json::from_str(&out).unwrap();
    let child = &v["type_definitions"][0]["relations"]["r"]["union"]["child"];
    let child = child.as_array().unwrap();
    assert_eq!(child.len(), 4);
    assert!(child[0].get("this").is_some());
    assert_eq!(child[1]["computedUserset"]["relation"], Value::String("a".into()));
    assert_eq!(child[2]["computedUserset"]["relation"], Value::String("b".into()));
    assert_eq!(child[3]["computedUserset"]["relation"], Value::String("c".into()));
}

#[test]
fn trailing_or_is_unexpected_eof() {
    let i = "define write as self or";
    let mut parser = Parser::new(Lexer::new(i));
    assert_eq!(parser.parse_relation(), Err(ParserError::UnexpectedEOF));
}

#[test]
fn trailing_but_is_unexpected_token() {
    let i = "define write as self but";
    let mut parser = Parser::new(Lexer::new(i));
    assert_eq!(
        parser.parse_relation(),
        Err(ParserError::UnexpectedToken(TokenKind::Not, TokenKind::EOF))
    );
}

#[test]
fn keyword_in_alias_position_is_unexpected_keyword() {
    let i = "define write as relations";
    let mut parser = Parser::new(Lexer::new(i));
    assert_eq!(
        parser.parse_relation(),
        Err(ParserError::UnexpectedKeyword(TokenKind::Relations))
    );
}

#[test]
fn missing_relations_keyword_is_unexpected_token() {
    let i = "type t define r as self";
    let mut parser = Parser::new(Lexer::new(i));
    assert_eq!(
        parser.parse_document(),
        Err(ParserError::UnexpectedToken(
            TokenKind::Relations,
            TokenKind::Define
        ))
    );
}

#[test]
fn document_not_starting_with_type_is_unexpected_token() {
    assert_eq!(
        parse("define r as self"),
        Err(ParserError::UnexpectedToken(
            TokenKind::Type,
            TokenKind::Define
        ))
    );
}

#[test]
fn identifiers_with_digits_underscores_hyphens() {
    let mut l = Lexer::new("0af-doc_owner -parent");
    assert_eq!(
        l.next_token(),
        Token::new("0af-doc_owner".into(), TokenKind::Text)
    );
    assert_eq!(l.next_token(), Token::new("-parent".into(), TokenKind::Text));
    assert_eq!(l.next_token(), Token::new("".into(), TokenKind::EOF));

    let doc = parse("type 0af-doc_owner\nrelations\ndefine -parent as self").unwrap();
    assert_eq!(doc.types[0].kind, "0af-doc_owner");
    assert_eq!(doc.types[0].relations[0].kind, "-parent");
}

#[test]
fn illegal_character_becomes_illegal_token() {
    let mut l = Lexer::new("type !doc");
    assert_eq!(l.next_token(), Token::new("type".into(), TokenKind::Type));
    assert_eq!(l.next_token(), Token::new("!".into(), TokenKind::Illegal));
    assert_eq!(l.next_token(), Token::new("doc".into(), TokenKind::Text));
}

#[test]
fn illegal_character_is_reported_by_parser() {
    assert_eq!(
        parse("type !doc"),
        Err(ParserError::UnexpectedToken(
            TokenKind::Text,
            TokenKind::Illegal
        ))
    );
}

#[test]
fn lexer_returns_eof_forever() {
    let mut l = Lexer::new("a");
    assert_eq!(l.next_token(), Token::new("a".into(), TokenKind::Text));
    for _ in 0..5 {
        assert_eq!(l.next_token(), Token::new("".into(), TokenKind::EOF));
    }
}

#[test]
fn all_keywords_scan_to_their_kinds() {
    assert_eq!(TokenKind::is_to_keyword("type"), Some(TokenKind::Type));
    assert_eq!(
        TokenKind::is_to_keyword("relations"),
        Some(TokenKind::Relations)
    );
    assert_eq!(TokenKind::is_to_keyword("define"), Some(TokenKind::Define));
    assert_eq!(TokenKind::is_to_keyword("as"), Some(TokenKind::As));
    assert_eq!(TokenKind::is_to_keyword("self"), Some(TokenKind::This));
    assert_eq!(TokenKind::is_to_keyword("or"), Some(TokenKind::Or));
    assert_eq!(TokenKind::is_to_keyword("and"), Some(TokenKind::And));
    assert_eq!(TokenKind::is_to_keyword("from"), Some(TokenKind::From));
    assert_eq!(TokenKind::is_to_keyword("but"), Some(TokenKind::But));
    assert_eq!(TokenKind::is_to_keyword("not"), Some(TokenKind::Not));
    assert_eq!(TokenKind::is_to_keyword("types"), None);
    assert_eq!(TokenKind::is_to_keyword("Type"), None);
    assert_eq!(TokenKind::is_to_keyword(""), None);
}

#[test]
fn negative_alias_serializes_like_named() {
    let rel = Relation {
        kind: "write".into(),
        aliases: vec![Alias {
            kind: AliasKind::Negative("owner".into()),
            parent: None,
        }],
    };
    let doc = Document {
        types: vec![Type {
            kind: "t".into(),
            relations: vec![rel],
        }],
    };
    let out = JsonTransformer::new(&doc).serialize();
    let v: Value = serde_json::from_str(&out).unwrap();
    assert_eq!(
        v["type_definitions"][0]["relations"]["write"]["computedUserset"]["relation"],
        Value::String("owner".into())
    );
}

#[test]
fn relation_without_as_clause_at_end_of_input() {
    let doc = parse("type t\nrelations\ndefine lonely").unwrap();
    assert_eq!(doc.types[0].relations[0].kind, "lonely");
    assert!(doc.types[0].relations[0].aliases.is_empty());
    let out = JsonTransformer::new(&doc).serialize();
    let v: Value = serde_json::from_str(&out).unwrap();
    let exp: Value = serde_json::from_str(r#"{"lonely":{}}"#).unwrap();
    assert_eq!(v["type_definitions"][0]["relations"], exp);
}

#[test]
fn empty_relations_block_is_accepted() {
    let doc = parse("type t\n  relations\ntype u").unwrap();
    assert_eq!(doc.types.len(), 2);
    assert_eq!(doc.types[0].kind, "t");
    assert!(doc.types[0].relations.is_empty());
    assert_eq!(doc.types[1].kind, "u");

    let doc = parse("type t\n  relations").unwrap();
    assert_eq!(doc.types.len(), 1);
    assert!(doc.types[0].relations.is_empty());
}

#[test]
fn error_rendering_is_exact() {
    assert_eq!(
        ParserError::UnexpectedToken(TokenKind::Relations, TokenKind::Define).describe(),
        "Unexpected token: expected Relations, got Define"
    );
    assert_eq!(
        ParserError::UnexpectedKeyword(TokenKind::Type).describe(),
        "Unexpected keyword: Type"
    );
    assert_eq!(
        ParserError::UnexpectedEOF.describe(),
        "received an unexpected EOF"
    );
}

#[test]
fn token_accessors_return_what_was_given() {
    let t = Token::new("hello".into(), TokenKind::Text);
    assert_eq!(t.literal(), "hello");
    assert_eq!(t.kind(), TokenKind::Text);
}

#[test]
fn self_from_parent_drops_the_parent() {
    let mut parser = Parser::new(Lexer::new("define r as self from p"));
    let rel = parser.parse_relation().unwrap();
    assert_eq!(
        rel.aliases,
        vec![Alias {
            kind: AliasKind::This,
            parent: None,
        }]
    );
}

#[test]
fn self_from_still_requires_a_name() {
    let mut parser = Parser::new(Lexer::new("define r as self from or"));
    assert_eq!(
        parser.parse_relation(),
        Err(ParserError::UnexpectedToken(TokenKind::Text, TokenKind::Or))
    );
}
