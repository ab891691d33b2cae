//! Tokens of the OpenFGA DSL: a closed set of keyword kinds, identifiers
//! (`Text`), an end-of-input sentinel, and an `Illegal` kind for characters
//! outside the lexical grammar.

use vstd::prelude::*;

verus! {

/// The kind of a token. Keywords are recognised by spelling at scan time, so
/// an identifier can never collide with a keyword.
#[derive(Debug, PartialEq, Eq, Clone, Copy, Structural)]
pub enum TokenKind {
    Type,
    Relations,
    Define,
    As,
    This,
    Or,
    And,
    But,
    Not,
    From,
    Text,
    EOF,
    Illegal,
}

/// A token: a kind together with the literal text it was scanned from. The
/// literal is meaningful for `Text` (the identifier) and `Illegal` (the
/// offending character); for keywords it is the keyword's spelling, and for
/// `EOF` it is empty.
#[derive(Debug, PartialEq, Eq, Clone)]
pub struct Token {
    lit: String,
    kind: TokenKind,
}

/// Ghost counterpart of [`Token`].
#[verifier::ext_equal]
pub struct TokenView {
    pub kind: TokenKind,
    pub lit: Seq<char>,
}

impl View for Token {
    type V = TokenView;

    closed spec fn view(&self) -> TokenView {
        TokenView { kind: self.kind, lit: self.lit@ }
    }
}

impl TokenView {
    /// The token the lexer hands out once the input is exhausted.
    pub open spec fn eof() -> TokenView {
        TokenView { kind: TokenKind::EOF, lit: Seq::empty() }
    }
}

/// The keyword table: which identifier spellings are reserved, and the token
/// kind each one scans to.
pub open spec fn spec_keyword(lit: Seq<char>) -> Option<TokenKind> {
    if lit == "type"@ {
        Some(TokenKind::Type)
    } else if lit == "relations"@ {
        Some(TokenKind::Relations)
    } else if lit == "define"@ {
        Some(TokenKind::Define)
    } else if lit == "as"@ {
        Some(TokenKind::As)
    } else if lit == "self"@ {
        Some(TokenKind::This)
    } else if lit == "or"@ {
        Some(TokenKind::Or)
    } else if lit == "and"@ {
        Some(TokenKind::And)
    } else if lit == "from"@ {
        Some(TokenKind::From)
    } else if lit == "but"@ {
        Some(TokenKind::But)
    } else if lit == "not"@ {
        Some(TokenKind::Not)
    } else {
        None
    }
}

/// String equality through `String`'s specified `eq`, lifted to `&str`.
fn lit_is(l: &str, kw: &str) -> (r: bool)
    ensures
        r == (l@ == kw@),
{
    let a = l.to_owned();
    let b = kw.to_owned();
    a.eq(&b)
}

impl Token {
    pub fn new(lit: String, kind: TokenKind) -> (r: Token)
        ensures
            r@.kind == kind,
            r@.lit == lit@,
    {
        Token { lit, kind }
    }

    pub fn literal(&self) -> (r: &str)
        ensures
            r@ == self@.lit,
    {
        self.lit.as_str()
    }

    pub fn kind(&self) -> (r: TokenKind)
        ensures
            r == self@.kind,
    {
        self.kind
    }
}

impl TokenKind {
    /// Classifies an identifier run: `Some` of the keyword kind when the
    /// literal is a reserved spelling, `None` when it is an ordinary name.
    pub fn is_to_keyword(literal: &str) -> (r: Option<TokenKind>)
        ensures
            r == spec_keyword(literal@),
    {
        if lit_is(literal, "type") {
            Some(TokenKind::Type)
        } else if lit_is(literal, "relations") {
            Some(TokenKind::Relations)
        } else if lit_is(literal, "define") {
            Some(TokenKind::Define)
        } else if lit_is(literal, "as") {
            Some(TokenKind::As)
        } else if lit_is(literal, "self") {
            Some(TokenKind::This)
        } else if lit_is(literal, "or") {
            Some(TokenKind::Or)
        } else if lit_is(literal, "and") {
            Some(TokenKind::And)
        } else if lit_is(literal, "from") {
            Some(TokenKind::From)
        } else if lit_is(literal, "but") {
            Some(TokenKind::But)
        } else if lit_is(literal, "not") {
            Some(TokenKind::Not)
        } else {
            None
        }
    }
}


/// The spelling of a token kind's name, as error messages print it.
pub open spec fn spec_kind_name(k: TokenKind) -> Seq<char> {
    match k {
        TokenKind::Type => "Type"@,
        TokenKind::Relations => "Relations"@,
        TokenKind::Define => "Define"@,
        TokenKind::As => "As"@,
        TokenKind::This => "This"@,
        TokenKind::Or => "Or"@,
        TokenKind::And => "And"@,
        TokenKind::But => "But"@,
        TokenKind::Not => "Not"@,
        TokenKind::From => "From"@,
        TokenKind::Text => "Text"@,
        TokenKind::EOF => "EOF"@,
        TokenKind::Illegal => "Illegal"@,
    }
}

impl TokenKind {
    /// The kind's name, for error messages.
    pub fn name(&self) -> (r: String)
        ensures
            r@ == spec_kind_name(*self),
    {
        match self {
            TokenKind::Type => String::from_str("Type"),
            TokenKind::Relations => String::from_str("Relations"),
            TokenKind::Define => String::from_str("Define"),
            TokenKind::As => String::from_str("As"),
            TokenKind::This => String::from_str("This"),
            TokenKind::Or => String::from_str("Or"),
            TokenKind::And => String::from_str("And"),
            TokenKind::But => String::from_str("But"),
            TokenKind::Not => String::from_str("Not"),
            TokenKind::From => String::from_str("From"),
            TokenKind::Text => String::from_str("Text"),
            TokenKind::EOF => String::from_str("EOF"),
            TokenKind::Illegal => String::from_str("Illegal"),
        }
    }
}

} // verus!
