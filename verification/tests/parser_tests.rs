use openfga_dsl_parser::ast::{Alias, AliasKind, Document, Relation, Type};
use openfga_dsl_parser::lexer::Lexer;
use openfga_dsl_parser::token::TokenKind;
use openfga_dsl_parser::{Parser, ParserError};

#[test]
fn lib_can_parse_types() {
    let i = "type document
type org";
    let lex = Lexer::new(i);
    let mut parser = Parser::new(lex);
    let exp = Document {
        types: vec![
            Type {
                kind: "document".into(),
                relations: Vec::new(),
            },
            Type {
                kind: "org".into(),
                relations: Vec::new(),
            },
        ],
    };
    assert_eq!(Ok(exp), parser.parse_document());
}

#[test]
fn lib_can_parse_relation_self() {
    let i = "define write as self";
    let exp = Relation {
        kind: "write".into(),
        aliases: vec![Alias {
            kind: AliasKind::This,
            parent: None,
        }],
    };

    let lex = Lexer::new(i);
    let mut parser = Parser::new(lex);
    assert_eq!(Ok(exp), parser.parse_relation());
}

#[test]
fn lib_can_parse_relation_multiple_alias() {
    let i = "define write as self or owner or thing";
    let exp = Relation {
        kind: "write".into(),
        aliases: vec![
            Alias {
                kind: AliasKind::This,
                parent: None,
            },
            Alias {
                kind: AliasKind::Named("owner".into()),
                parent: None,
            },
            Alias {
                kind: AliasKind::Named("thing".into()),
                parent: None,
            },
        ],
    };

    let lex = Lexer::new(i);
    let mut parser = Parser::new(lex);
    assert_eq!(Ok(exp), parser.parse_relation());
}

#[test]
fn lib_can_parse_relation_parent_alias() {
    let i = "define write as self or owner from parent or thing";
    let exp = Relation {
        kind: "write".into(),
        aliases: vec![
            Alias {
                kind: AliasKind::This,
                parent: None,
            },
            Alias {
                kind: AliasKind::Named("owner".into()),
                parent: Some("parent".into()),
            },
            Alias {
                kind: AliasKind::Named("thing".into()),
                parent: None,
            },
        ],
    };

    let lex = Lexer::new(i);
    let mut parser = Parser::new(lex);
    assert_eq!(Ok(exp), parser.parse_relation());
}

fn can_parse_doc_expected() -> Document {
    Document {
        types: vec![
            Type {
                kind: "organization".into(),
                relations: vec![Relation {
                    kind: "member".into(),
                    aliases: vec![Alias {
                        kind: AliasKind::This,
                        parent: None,
                    }],
                }],
            },
            Type {
                kind: "document".into(),
                relations: vec![
                    Relation {
                        kind: "owner".into(),
                        aliases: vec![Alias {
                            kind: AliasKind::This,
                            parent: None,
                        }],
                    },
                    Relation {
                        kind: "can_share".into(),
                        aliases: vec![
                            Alias {
                                kind: AliasKind::Named("owner".into()),
                                parent: None,
                            },
                            Alias {
                                kind: AliasKind::Named("editor".into()),
                                parent: None,
                            },
                            Alias {
                                kind: AliasKind::Named("owner".into()),
                                parent: Some("parent".into()),
                            },
                        ],
                    },
                ],
            },
        ],
    }
}

#[test]
fn lib_can_parse_doc() {
    let i = "type organization
  relations
    define member as self
type document
  relations
    define owner as self
    define can_share as owner or editor or owner from parent";
    let lex = Lexer::new(i);
    let mut parser = Parser::new(lex);
    assert_eq!(Ok(can_parse_doc_expected()), parser.parse_document());
}

#[test]
fn mod_can_parse_types() {
    let i = "type document
type org";
    let lex = Lexer::new(i);
    let mut parser = Parser::new(lex);
    let exp = Document {
        types: vec![
            Type {
                kind: "document".into(),
                relations: Vec::new(),
            },
            Type {
                kind: "org".into(),
                relations: Vec::new(),
            },
        ],
    };
    assert_eq!(Ok(exp), parser.parse_document());
}

#[test]
fn mod_can_parse_relation_self() {
    let i = "define write as self";
    let exp = Relation {
        kind: "write".into(),
        aliases: vec![Alias {
            kind: AliasKind::This,
            parent: None,
        }],
    };

    let lex = Lexer::new(i);
    let mut parser = Parser::new(lex);
    assert_eq!(Ok(exp), parser.parse_relation());
}

#[test]
fn can_parse_but_not_alias() {
    let i = "define write as self but not owner from parent";
    let exp = Relation {
        kind: "write".into(),
        aliases: vec![
            Alias {
                kind: AliasKind::This,
                parent: None,
            },
            Alias {
                kind: AliasKind::Negative("owner".into()),
                parent: Some("parent".into()),
            },
        ],
    };

    let lex = Lexer::new(i);
    let mut parser = Parser::new(lex);
    assert_eq!(Ok(exp), parser.parse_relation());
}

#[test]
fn error_eof_missing_relation_type() {
    let i = "define write as";
    let exp = Err(ParserError::UnexpectedEOF);

    let lex = Lexer::new(i);
    let mut parser = Parser::new(lex);
    assert_eq!(exp, parser.parse_relation());
}

#[test]
fn error_expected_keyword_relation_type() {
    let i = "define write as type";
    let exp = Err(ParserError::UnexpectedKeyword(TokenKind::Type));

    let lex = Lexer::new(i);
    let mut parser = Parser::new(lex);
    assert_eq!(exp, parser.parse_relation());
}

#[test]
fn mod_can_parse_relation_multiple_alias() {
    let i = "define write as self or owner or thing";
    let exp = Relation {
        kind: "write".into(),
        aliases: vec![
            Alias {
                kind: AliasKind::This,
                parent: None,
            },
            Alias {
                kind: AliasKind::Named("owner".into()),
                parent: None,
            },
            Alias {
                kind: AliasKind::Named("thing".into()),
                parent: None,
            },
        ],
    };

    let lex = Lexer::new(i);
    let mut parser = Parser::new(lex);
    assert_eq!(Ok(exp), parser.parse_relation());
}

#[test]
fn mod_can_parse_relation_parent_alias() {
    let i = "define write as self or owner from parent or thing";
    let exp = Relation {
        kind: "write".into(),
        aliases: vec![
            Alias {
                kind: AliasKind::This,
                parent: None,
            },
            Alias {
                kind: AliasKind::Named("owner".into()),
                parent: Some("parent".into()),
            },
            Alias {
                kind: AliasKind::Named("thing".into()),
                parent: None,
            },
        ],
    };

    let lex = Lexer::new(i);
    let mut parser = Parser::new(lex);
    assert_eq!(Ok(exp), parser.parse_relation());
}

#[test]
fn mod_can_parse_doc() {
    let i = "type organization
  relations
    define member as self
type document
  relations
    define owner as self
    define can_share as owner or editor or owner from parent";
    let lex = Lexer::new(i);
    let mut parser = Parser::new(lex);
    assert_eq!(Ok(can_parse_doc_expected()), parser.parse_document());
}
