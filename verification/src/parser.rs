//! The recursive-descent parser. The grammar is specified by the `sp_*`
//! functions, which mirror the parser's two-token window over a token
//! stream: each takes the stream with the token under inspection at index
//! 0 and returns the parsed value together with how far the window moved,
//! or the first error. `Parser` is proved to return exactly what the
//! specification says, so parsing is deterministic by contract.

use vstd::prelude::*;

use crate::ast::{
    lemma_view_aliases_push, lemma_view_relations_push, lemma_view_types_push, view_aliases,
    view_relations, view_types, Alias, AliasKind, AliasKindView, AliasView, Document, DocumentView,
    Relation, RelationView, Type, TypeView,
};
use crate::lexer::{is_text_char, lemma_scan_no_eof, lemma_scan_ws_insert, scan, unicode_whitespace, Lexer};
use crate::token::{spec_kind_name, Token, TokenKind, TokenView};

verus! {

/// A parse failure: the first token that broke a grammar rule.
#[derive(Debug, PartialEq, Eq, Structural)]
pub enum ParserError {
    /// A required token kind (first field) was not the one found (second).
    UnexpectedToken(TokenKind, TokenKind),
    /// A reserved keyword stood where an alias was required.
    UnexpectedKeyword(TokenKind),
    /// The input ended where an alias was required.
    UnexpectedEOF,
}

pub type ParseResult<T> = Result<T, ParserError>;

/// The token at position `i` of a stream; past the end, the `EOF`
/// sentinel, which the lexer hands out forever.
pub open spec fn tok_at(s: Seq<TokenView>, i: int) -> TokenView {
    if 0 <= i < s.len() {
        s[i]
    } else {
        TokenView::eof()
    }
}

/// The stream after the window advanced `k` times: dropping `k` tokens,
/// or everything when fewer than `k` are left.
pub open spec fn stepped(s: Seq<TokenView>, k: int) -> Seq<TokenView> {
    if k < 0 {
        s
    } else if k <= s.len() {
        s.skip(k)
    } else {
        s.skip(s.len() as int)
    }
}

pub proof fn lemma_stepped_tok(s: Seq<TokenView>, k: int, i: int)
    requires
        0 <= k,
        0 <= i,
    ensures
        tok_at(stepped(s, k), i) == tok_at(s, k + i),
{
}

pub proof fn lemma_stepped_compose(s: Seq<TokenView>, a: int, b: int)
    requires
        0 <= a,
        0 <= b,
    ensures
        stepped(stepped(s, a), b) == stepped(s, a + b),
{
    assert(stepped(stepped(s, a), b) =~= stepped(s, a + b));
}

/// The view of an optional owned string.
pub open spec fn opt_view(o: Option<String>) -> Option<Seq<char>> {
    match o {
        Some(s) => Some(s@),
        None => None,
    }
}

/// `( 'from' TEXT )?` — the optional parent qualifier after an alias. On
/// entry the window's first slot holds the alias just parsed.
pub open spec fn sp_parent(s: Seq<TokenView>) -> Result<(Option<Seq<char>>, nat), ParserError> {
    if tok_at(s, 1).kind == TokenKind::From {
        if tok_at(s, 2).kind == TokenKind::Text {
            Ok((Some(tok_at(s, 2).lit), 2 as nat))
        } else {
            Err(ParserError::UnexpectedToken(TokenKind::Text, tok_at(s, 2).kind))
        }
    } else {
        Ok((None, 0 as nat))
    }
}

/// `( 'self' | TEXT ) ( 'from' TEXT )?` — one alias, whose first token is
/// in the window's first slot. A `from` qualifier after `self` is
/// grammatical and is consumed, but a `This` alias never carries a
/// parent: the data model requires `parent` to be absent on `self`.
pub open spec fn sp_alias(s: Seq<TokenView>) -> Result<(AliasView, nat), ParserError> {
    let t = tok_at(s, 0);
    if t.kind == TokenKind::This {
        match sp_parent(s) {
            Ok((_, j)) => Ok((AliasView { kind: AliasKindView::This, parent: None }, j)),
            Err(e) => Err(e),
        }
    } else if t.kind == TokenKind::Text {
        match sp_parent(s) {
            Ok((p, j)) => Ok((AliasView { kind: AliasKindView::Named(t.lit), parent: p }, j)),
            Err(e) => Err(e),
        }
    } else if t.kind == TokenKind::EOF {
        Err(ParserError::UnexpectedEOF)
    } else {
        Err(ParserError::UnexpectedKeyword(t.kind))
    }
}

/// `'but' 'not' TEXT ( 'from' TEXT )?` — a negative alias, with the `but`
/// keyword in the window's first slot.
pub open spec fn sp_but_not(s: Seq<TokenView>) -> Result<(AliasView, nat), ParserError> {
    if tok_at(s, 1).kind != TokenKind::Not {
        Err(ParserError::UnexpectedToken(TokenKind::Not, tok_at(s, 1).kind))
    } else if tok_at(s, 2).kind != TokenKind::Text {
        Err(ParserError::UnexpectedToken(TokenKind::Text, tok_at(s, 2).kind))
    } else {
        match sp_parent(stepped(s, 2)) {
            Ok((p, j)) => Ok(
                (
                    AliasView { kind: AliasKindView::Negative(tok_at(s, 2).lit), parent: p },
                    (2 + j) as nat,
                ),
            ),
            Err(e) => Err(e),
        }
    }
}

/// `( ('or' | 'but' 'not') alias )*` — the combinator clauses after the
/// first alias of a relation.
pub open spec fn sp_alias_tail(s: Seq<TokenView>) -> Result<(Seq<AliasView>, nat), ParserError>
    decreases s.len(),
{
    if tok_at(s, 1).kind == TokenKind::But {
        match sp_but_not(stepped(s, 1)) {
            Err(e) => Err(e),
            Ok((a, j)) => match sp_alias_tail(stepped(s, 1 + j as int)) {
                Err(e) => Err(e),
                Ok((rest, j2)) => Ok((seq![a] + rest, (1 + j + j2) as nat)),
            },
        }
    } else if tok_at(s, 1).kind == TokenKind::Or {
        match sp_alias(stepped(s, 2)) {
            Err(e) => Err(e),
            Ok((a, j)) => match sp_alias_tail(stepped(s, 2 + j as int)) {
                Err(e) => Err(e),
                Ok((rest, j2)) => Ok((seq![a] + rest, (2 + j + j2) as nat)),
            },
        }
    } else {
        Ok((Seq::empty(), 0 as nat))
    }
}

/// `'define' TEXT ( 'as' alias_expr )?` — one relation, with the `define`
/// keyword in the window's first slot.
pub open spec fn sp_relation(s: Seq<TokenView>) -> Result<(RelationView, nat), ParserError> {
    if tok_at(s, 1).kind != TokenKind::Text {
        Err(ParserError::UnexpectedToken(TokenKind::Text, tok_at(s, 1).kind))
    } else {
        let name = tok_at(s, 1).lit;
        if tok_at(s, 2).kind != TokenKind::As {
            Ok((RelationView { kind: name, aliases: Seq::empty() }, 2 as nat))
        } else {
            match sp_alias(stepped(s, 3)) {
                Err(e) => Err(e),
                Ok((a0, j0)) => match sp_alias_tail(stepped(s, 3 + j0 as int)) {
                    Err(e) => Err(e),
                    Ok((rest, j1)) => Ok(
                        (
                            RelationView { kind: name, aliases: seq![a0] + rest },
                            (3 + j0 + j1) as nat,
                        ),
                    ),
                },
            }
        }
    }
}

/// `relation*` — relations accumulate while the `define` keyword follows.
pub open spec fn sp_rel_list(s: Seq<TokenView>) -> Result<(Seq<RelationView>, nat), ParserError>
    decreases s.len(),
{
    if tok_at(s, 1).kind == TokenKind::Define {
        match sp_relation(stepped(s, 1)) {
            Err(e) => Err(e),
            Ok((r0, j)) => match sp_rel_list(stepped(s, 1 + j as int)) {
                Err(e) => Err(e),
                Ok((rest, j2)) => Ok((seq![r0] + rest, (1 + j + j2) as nat)),
            },
        }
    } else {
        Ok((Seq::empty(), 0 as nat))
    }
}

/// `'type' TEXT ( 'relations' relation* )?` — one type declaration, with
/// the `type` keyword in the window's first slot. The `relations` block is
/// required exactly when the type name is followed by anything but another
/// `type` or the end of input.
pub open spec fn sp_type(s: Seq<TokenView>) -> Result<(TypeView, nat), ParserError> {
    if tok_at(s, 1).kind != TokenKind::Text {
        Err(ParserError::UnexpectedToken(TokenKind::Text, tok_at(s, 1).kind))
    } else {
        let name = tok_at(s, 1).lit;
        if tok_at(s, 2).kind != TokenKind::EOF && tok_at(s, 2).kind != TokenKind::Type {
            if tok_at(s, 2).kind != TokenKind::Relations {
                Err(ParserError::UnexpectedToken(TokenKind::Relations, tok_at(s, 2).kind))
            } else {
                match sp_rel_list(stepped(s, 2)) {
                    Err(e) => Err(e),
                    Ok((rels, j)) => Ok(
                        (TypeView { kind: name, relations: rels }, (2 + j) as nat),
                    ),
                }
            }
        } else {
            Ok((TypeView { kind: name, relations: Seq::empty() }, 1 as nat))
        }
    }
}

/// `type*` until the end of input — a whole document.
pub open spec fn sp_document(s: Seq<TokenView>) -> Result<DocumentView, ParserError>
    decreases s.len(),
{
    if tok_at(s, 0).kind == TokenKind::EOF {
        Ok(DocumentView { types: Seq::empty() })
    } else if tok_at(s, 0).kind != TokenKind::Type {
        Err(ParserError::UnexpectedToken(TokenKind::Type, tok_at(s, 0).kind))
    } else {
        match sp_type(s) {
            Err(e) => Err(e),
            Ok((ty, j)) => match sp_document(stepped(s, j + 1 as int)) {
                Err(e) => Err(e),
                Ok(d) => Ok(DocumentView { types: seq![ty] + d.types }),
            },
        }
    }
}

/// The parser: a lexer plus the two-token sliding window `curr`/`peek`.
pub struct Parser {
    lex: Lexer,
    curr: Token,
    peek: Token,
}

impl Parser {
    /// The tokens not yet consumed, with the one under inspection first.
    /// The stream holds no `EOF` token: past its end the window reads the
    /// `EOF` sentinel, which [`tok_at`] supplies.
    pub closed spec fn stream(self) -> Seq<TokenView> {
        if self.curr@.kind == TokenKind::EOF {
            Seq::empty()
        } else if self.peek@.kind == TokenKind::EOF {
            seq![self.curr@]
        } else {
            seq![self.curr@, self.peek@] + scan(self.lex.remaining())
        }
    }

    /// The window is filled from the lexer left to right: once either slot
    /// holds `EOF`, everything after it is exhausted too.
    pub closed spec fn wf(self) -> bool {
        &&& self.lex.wf()
        &&& (self.curr@.kind == TokenKind::EOF ==> self.curr@ == TokenView::eof()
            && self.peek@.kind == TokenKind::EOF)
        &&& (self.peek@.kind == TokenKind::EOF ==> self.peek@ == TokenView::eof() && scan(
            self.lex.remaining(),
        ).len() == 0)
    }

    proof fn lemma_window(self)
        requires
            self.wf(),
        ensures
            self.curr@ == tok_at(self.stream(), 0),
            self.peek@ == tok_at(self.stream(), 1),
    {
    }

    /// Primes the window with the first two tokens of the stream.
    pub fn new(lex: Lexer) -> (r: Parser)
        requires
            lex.wf(),
        ensures
            r.wf(),
            r.stream() == scan(lex.remaining()),
    {
        let mut lex = lex;
        let ghost rem0 = lex.remaining();
        let curr = lex.next_token();
        let ghost rem1 = lex.remaining();
        let peek = lex.next_token();
        let r = Parser { lex, curr, peek };
        proof {
            lemma_scan_no_eof(rem0);
            lemma_scan_no_eof(rem1);
            assert(r.stream() =~= scan(rem0));
        }
        r
    }

    /// Shifts the window: `peek` moves into `curr` and the lexer supplies
    /// a fresh `peek`.
    fn next_token(&mut self)
        requires
            old(self).wf(),
        ensures
            final(self).wf(),
            final(self).stream() == stepped(old(self).stream(), 1),
    {
        let ghost orem = self.lex.remaining();
        let t = self.lex.next_token();
        let mut t = t;
        core::mem::swap(&mut self.peek, &mut t);
        core::mem::swap(&mut self.curr, &mut t);
        proof {
            lemma_scan_no_eof(orem);
            assert(self.stream() =~= stepped(old(self).stream(), 1));
        }
    }

    /// Parses the optional `from <parent>` qualifier after an alias.
    fn parse_alias_parent(&mut self) -> (r: ParseResult<Option<String>>)
        requires
            old(self).wf(),
        ensures
            final(self).wf(),
            match sp_parent(old(self).stream()) {
                Ok((p, j)) => (r matches Ok(o) && opt_view(o) == p) && final(self).stream()
                    == stepped(old(self).stream(), j as int),
                Err(e) => r matches Err(pe) && pe == e,
            },
    {
        let ghost s = old(self).stream();
        proof {
            self.lemma_window();
        }
        if self.peek.kind() == TokenKind::From {
            self.next_token();
            proof {
                lemma_stepped_tok(s, 1, 1);
                lemma_stepped_compose(s, 1, 1);
            }
            match self.expect_peek(TokenKind::Text) {
                Ok(_) => {},
                Err(e) => {
                    return Err(e);
                },
            }
            proof {
                self.lemma_window();
                lemma_stepped_tok(s, 2, 0);
            }
            let parent = self.curr.literal().to_owned();
            Ok(Some(parent))
        } else {
            Ok(None)
        }
    }

    /// Parses one alias: `self` or an identifier, with its optional
    /// parent.
    fn parse_alias(&mut self) -> (r: ParseResult<Alias>)
        requires
            old(self).wf(),
        ensures
            final(self).wf(),
            match sp_alias(old(self).stream()) {
                Ok((av, j)) => (r matches Ok(a) && a@ == av) && final(self).stream() == stepped(
                    old(self).stream(),
                    j as int,
                ),
                Err(e) => r matches Err(pe) && pe == e,
            },
    {
        proof {
            self.lemma_window();
        }
        let k = self.curr.kind();
        if k == TokenKind::This {
            // a `from` qualifier after `self` is consumed, but `self`
            // takes no parent
            match self.parse_alias_parent() {
                Ok(_) => {},
                Err(e) => {
                    return Err(e);
                },
            }
            Ok(Alias { kind: AliasKind::This, parent: None })
        } else if k == TokenKind::Text {
            let name = self.curr.literal().to_owned();
            let parent = match self.parse_alias_parent() {
                Ok(p) => p,
                Err(e) => {
                    return Err(e);
                },
            };
            Ok(Alias { kind: AliasKind::Named(name), parent })
        } else if k == TokenKind::EOF {
            Err(ParserError::UnexpectedEOF)
        } else {
            Err(ParserError::UnexpectedKeyword(k))
        }
    }

    /// Parses a `but not <name>` alias, with its optional parent.
    fn parse_but_not(&mut self) -> (r: ParseResult<Alias>)
        requires
            old(self).wf(),
        ensures
            final(self).wf(),
            match sp_but_not(old(self).stream()) {
                Ok((av, j)) => (r matches Ok(a) && a@ == av) && final(self).stream() == stepped(
                    old(self).stream(),
                    j as int,
                ),
                Err(e) => r matches Err(pe) && pe == e,
            },
    {
        let ghost s = old(self).stream();
        match self.expect_peek(TokenKind::Not) {
            Ok(_) => {},
            Err(e) => {
                return Err(e);
            },
        }
        proof {
            lemma_stepped_tok(s, 1, 1);
            lemma_stepped_compose(s, 1, 1);
        }
        match self.expect_peek(TokenKind::Text) {
            Ok(_) => {},
            Err(e) => {
                return Err(e);
            },
        }
        proof {
            self.lemma_window();
            lemma_stepped_tok(s, 2, 0);
        }
        let name = self.curr.literal().to_owned();
        let parent = match self.parse_alias_parent() {
            Ok(p) => p,
            Err(e) => {
                return Err(e);
            },
        };
        proof {
            let j = match sp_parent(stepped(s, 2)) {
                Ok((_, j)) => j,
                Err(_) => 0,
            };
            lemma_stepped_compose(s, 2, j as int);
        }
        Ok(Alias { kind: AliasKind::Negative(name), parent })
    }

    /// Parses one `define` relation. Public so that a single relation can
    /// be parsed without wrapping it in a document.
    #[verifier::rlimit(100)]
    pub fn parse_relation(&mut self) -> (r: ParseResult<Relation>)
        requires
            old(self).wf(),
        ensures
            final(self).wf(),
            match sp_relation(old(self).stream()) {
                Ok((rv, j)) => (r matches Ok(rel) && rel@ == rv) && final(self).stream()
                    == stepped(old(self).stream(), j as int),
                Err(e) => r matches Err(pe) && pe == e,
            },
    {
        let ghost s = old(self).stream();
        match self.expect_peek(TokenKind::Text) {
            Ok(_) => {},
            Err(e) => {
                return Err(e);
            },
        }
        proof {
            self.lemma_window();
            lemma_stepped_tok(s, 1, 0);
            lemma_stepped_compose(s, 1, 1);
        }
        let kind = self.curr.literal().to_owned();
        self.next_token();
        proof {
            self.lemma_window();
            lemma_stepped_tok(s, 2, 0);
        }
        if self.curr.kind() != TokenKind::As {
            let rel = Relation { kind, aliases: Vec::new() };
            proof {
                assert(rel@ =~= RelationView { kind: tok_at(s, 1).lit, aliases: Seq::empty() });
            }
            return Ok(rel);
        }
        self.next_token();
        proof {
            lemma_stepped_compose(s, 2, 1);
        }
        let first = match self.parse_alias() {
            Ok(a) => a,
            Err(e) => {
                return Err(e);
            },
        };
        let ghost j0: nat = match sp_alias(stepped(s, 3)) {
            Ok((_, j)) => j,
            Err(_) => 0,
        };
        proof {
            lemma_stepped_compose(s, 3, j0 as int);
        }
        let mut aliases: Vec<Alias> = Vec::new();
        aliases.push(first);
        let ghost mut k: int = 3 + j0 as int;
        proof {
            assert(view_aliases(aliases@) =~= seq![first@]);
        }
        loop
            invariant
                s == old(self).stream(),
                self.wf(),
                self.stream() == stepped(s, k),
                3 <= k,
                kind@ == tok_at(s, 1).lit,
                match sp_alias_tail(stepped(s, k)) {
                    Ok((rest, dj)) => sp_relation(s) == Ok::<(RelationView, nat), ParserError>(
                        (
                            RelationView {
                                kind: tok_at(s, 1).lit,
                                aliases: view_aliases(aliases@) + rest,
                            },
                            (k + dj) as nat,
                        ),
                    ),
                    Err(e) => sp_relation(s) == Err::<(RelationView, nat), ParserError>(e),
                },
            ensures
                self.wf(),
                self.stream() == stepped(s, k),
                sp_relation(s) == Ok::<(RelationView, nat), ParserError>(
                    (
                        RelationView { kind: tok_at(s, 1).lit, aliases: view_aliases(aliases@) },
                        k as nat,
                    ),
                ),
            decreases stepped(s, k).len(),
        {
            proof {
                self.lemma_window();
                lemma_stepped_tok(s, k, 1);
            }
            let pk = self.peek.kind();
            if pk != TokenKind::Or && pk != TokenKind::But {
                proof {
                    assert(view_aliases(aliases@) + Seq::<AliasView>::empty() =~= view_aliases(
                        aliases@,
                    ));
                }
                break;
            }
            let ghost k0 = k;
            let ghost als0 = aliases@;
            let a = if pk == TokenKind::But {
                self.next_token();
                proof {
                    lemma_stepped_compose(s, k0, 1);
                }
                let a = match self.parse_but_not() {
                    Ok(a) => a,
                    Err(e) => {
                        return Err(e);
                    },
                };
                let ghost dj: nat = match sp_but_not(stepped(s, k0 + 1)) {
                    Ok((_, j)) => j,
                    Err(_) => 0,
                };
                proof {
                    lemma_stepped_compose(s, k0 + 1, dj as int);
                    lemma_stepped_compose(s, k0, 1 + dj as int);
                    k = k0 + 1 + dj;
                }
                a
            } else {
                self.next_token();
                self.next_token();
                proof {
                    lemma_stepped_compose(s, k0, 1);
                    lemma_stepped_compose(s, k0 + 1, 1);
                    lemma_stepped_compose(s, k0, 2);
                }
                let a = match self.parse_alias() {
                    Ok(a) => a,
                    Err(e) => {
                        return Err(e);
                    },
                };
                let ghost dj: nat = match sp_alias(stepped(s, k0 + 2)) {
                    Ok((_, j)) => j,
                    Err(_) => 0,
                };
                proof {
                    lemma_stepped_compose(s, k0 + 2, dj as int);
                    lemma_stepped_compose(s, k0, 2 + dj as int);
                    k = k0 + 2 + dj;
                }
                a
            };
            aliases.push(a);
            proof {
                lemma_view_aliases_push(als0, a);
                match sp_alias_tail(stepped(s, k)) {
                    Ok((rest, dj)) => {
                        assert(view_aliases(aliases@) + rest =~= view_aliases(als0) + (
                        seq![a@] + rest));
                    },
                    Err(_) => {},
                }
            }
        }
        proof {
            assert(Relation { kind: kind, aliases: aliases }@ =~= RelationView {
                kind: tok_at(s, 1).lit,
                aliases: view_aliases(aliases@),
            });
        }
        Ok(Relation { kind, aliases })
    }

    /// Parses one `type` declaration with its optional `relations` block.
    fn parse_type(&mut self) -> (r: ParseResult<Type>)
        requires
            old(self).wf(),
        ensures
            final(self).wf(),
            match sp_type(old(self).stream()) {
                Ok((tv, j)) => (r matches Ok(t) && t@ == tv) && final(self).stream() == stepped(
                    old(self).stream(),
                    j as int,
                ),
                Err(e) => r matches Err(pe) && pe == e,
            },
    {
        let ghost s = old(self).stream();
        match self.expect_peek(TokenKind::Text) {
            Ok(_) => {},
            Err(e) => {
                return Err(e);
            },
        }
        proof {
            self.lemma_window();
            lemma_stepped_tok(s, 1, 0);
            lemma_stepped_tok(s, 1, 1);
            lemma_stepped_compose(s, 1, 1);
        }
        let kind = self.curr.literal().to_owned();
        let mut relations: Vec<Relation> = Vec::new();
        let pk = self.peek.kind();
        if pk != TokenKind::EOF && pk != TokenKind::Type {
            match self.expect_peek(TokenKind::Relations) {
                Ok(_) => {},
                Err(e) => {
                    return Err(e);
                },
            }
            let ghost mut k: int = 2;
            proof {
                assert(view_relations(relations@) =~= Seq::<RelationView>::empty());
            }
            loop
                invariant
                    s == old(self).stream(),
                    self.wf(),
                    self.stream() == stepped(s, k),
                    2 <= k,
                    kind@ == tok_at(s, 1).lit,
                    tok_at(s, 1).kind == TokenKind::Text,
                    tok_at(s, 2).kind == TokenKind::Relations,
                    match sp_rel_list(stepped(s, k)) {
                        Ok((rest, dj)) => sp_rel_list(stepped(s, 2)) == Ok::<
                            (Seq<RelationView>, nat),
                            ParserError,
                        >((view_relations(relations@) + rest, (k - 2 + dj) as nat)),
                        Err(e) => sp_rel_list(stepped(s, 2)) == Err::<
                            (Seq<RelationView>, nat),
                            ParserError,
                        >(e),
                    },
                ensures
                    self.wf(),
                    self.stream() == stepped(s, k),
                    sp_rel_list(stepped(s, 2)) == Ok::<(Seq<RelationView>, nat), ParserError>(
                        (view_relations(relations@), (k - 2) as nat),
                    ),
                decreases stepped(s, k).len(),
            {
                proof {
                    self.lemma_window();
                    lemma_stepped_tok(s, k, 1);
                }
                if self.peek.kind() != TokenKind::Define {
                    proof {
                        assert(view_relations(relations@) + Seq::<RelationView>::empty()
                            =~= view_relations(relations@));
                    }
                    break;
                }
                let ghost k0 = k;
                let ghost rels0 = relations@;
                self.next_token();
                proof {
                    lemma_stepped_compose(s, k0, 1);
                }
                let rel = match self.parse_relation() {
                    Ok(r) => r,
                    Err(e) => {
                        return Err(e);
                    },
                };
                let ghost dj: nat = match sp_relation(stepped(s, k0 + 1)) {
                    Ok((_, j)) => j,
                    Err(_) => 0,
                };
                relations.push(rel);
                proof {
                    lemma_stepped_compose(s, k0 + 1, dj as int);
                    lemma_stepped_compose(s, k0, 1 + dj as int);
                    k = k0 + 1 + dj;
                    lemma_view_relations_push(rels0, rel);
                    match sp_rel_list(stepped(s, k)) {
                        Ok((rest, _)) => {
                            assert(view_relations(relations@) + rest =~= view_relations(rels0) + (
                            seq![rel@] + rest));
                        },
                        Err(_) => {},
                    }
                }
            }
            let t = Type { kind, relations };
            proof {
                assert(t@ =~= TypeView {
                    kind: tok_at(s, 1).lit,
                    relations: view_relations(t.relations@),
                });
            }
            return Ok(t);
        }
        let t = Type { kind, relations };
        proof {
            assert(t@ =~= TypeView { kind: tok_at(s, 1).lit, relations: Seq::empty() });
        }
        Ok(t)
    }

    /// Parses a whole document: a sequence of type declarations running to
    /// the end of the input.
    pub fn parse_document(&mut self) -> (r: ParseResult<Document>)
        requires
            old(self).wf(),
        ensures
            final(self).wf(),
            match sp_document(old(self).stream()) {
                Ok(d) => r matches Ok(doc) && doc@ == d,
                Err(e) => r matches Err(pe) && pe == e,
            },
    {
        let ghost s = old(self).stream();
        let mut types: Vec<Type> = Vec::new();
        let ghost mut k: int = 0;
        proof {
            assert(view_types(types@) =~= Seq::<TypeView>::empty());
            assert(stepped(s, 0) =~= s);
            match sp_document(s) {
                Ok(d) => {
                    assert(view_types(types@) + d.types =~= d.types);
                },
                Err(_) => {},
            }
        }
        loop
            invariant
                s == old(self).stream(),
                self.wf(),
                self.stream() == stepped(s, k),
                0 <= k,
                match sp_document(stepped(s, k)) {
                    Ok(d) => sp_document(s) == Ok::<DocumentView, ParserError>(
                        DocumentView { types: view_types(types@) + d.types },
                    ),
                    Err(e) => sp_document(s) == Err::<DocumentView, ParserError>(e),
                },
            ensures
                self.wf(),
                sp_document(s) == Ok::<DocumentView, ParserError>(
                    DocumentView { types: view_types(types@) },
                ),
            decreases stepped(s, k).len(),
        {
            proof {
                self.lemma_window();
            }
            if self.curr.kind() == TokenKind::EOF {
                proof {
                    assert(view_types(types@) + Seq::<TypeView>::empty() =~= view_types(types@));
                }
                break;
            }
            if self.curr.kind() != TokenKind::Type {
                return Err(ParserError::UnexpectedToken(TokenKind::Type, self.curr.kind()));
            }
            let ghost k0 = k;
            let ghost tys0 = types@;
            let ty = match self.parse_type() {
                Ok(t) => t,
                Err(e) => {
                    return Err(e);
                },
            };
            let ghost dj: nat = match sp_type(stepped(s, k0)) {
                Ok((_, j)) => j,
                Err(_) => 0,
            };
            types.push(ty);
            self.next_token();
            proof {
                lemma_stepped_compose(s, k0, dj as int);
                lemma_stepped_compose(s, k0 + dj as int, 1);
                lemma_stepped_compose(s, k0, dj + 1 as int);
                k = k0 + dj + 1;
                lemma_view_types_push(tys0, ty);
                match sp_document(stepped(s, k)) {
                    Ok(d) => {
                        assert(view_types(types@) + d.types =~= view_types(tys0) + (seq![ty@]
                            + d.types));
                    },
                    Err(_) => {},
                }
            }
        }
        let doc = Document { types };
        proof {
            assert(doc@ =~= DocumentView { types: view_types(doc.types@) });
        }
        Ok(doc)
    }

    /// Advances exactly when the peeked token has the expected kind;
    /// otherwise reports it without advancing.
    fn expect_peek(&mut self, expected: TokenKind) -> (r: ParseResult<()>)
        requires
            old(self).wf(),
        ensures
            final(self).wf(),
            ({
                let s = old(self).stream();
                if tok_at(s, 1).kind == expected {
                    r is Ok && final(self).stream() == stepped(s, 1)
                } else {
                    r == ParseResult::<()>::Err(
                        ParserError::UnexpectedToken(expected, tok_at(s, 1).kind),
                    ) && final(self).stream() == s
                }
            }),
    {
        proof {
            self.lemma_window();
        }
        if self.peek.kind() == expected {
            self.next_token();
            Ok(())
        } else {
            Err(ParserError::UnexpectedToken(expected, self.peek.kind()))
        }
    }
}

/// The rendering of a parse error, character for character.
pub open spec fn spec_error_text(e: ParserError) -> Seq<char> {
    match e {
        ParserError::UnexpectedToken(exp, got) => "Unexpected token: expected "@
            + spec_kind_name(exp) + ", got "@ + spec_kind_name(got),
        ParserError::UnexpectedKeyword(got) => "Unexpected keyword: "@ + spec_kind_name(got),
        ParserError::UnexpectedEOF => "received an unexpected EOF"@,
    }
}

impl ParserError {
    /// A human-readable rendering of the error.
    pub fn describe(&self) -> (r: String)
        ensures
            r@ == spec_error_text(*self),
    {
        match self {
            ParserError::UnexpectedToken(exp, got) => {
                let mut s = String::from_str("Unexpected token: expected ");
                s.append(exp.name().as_str());
                s.append(", got ");
                s.append(got.name().as_str());
                s
            },
            ParserError::UnexpectedKeyword(got) => {
                let mut s = String::from_str("Unexpected keyword: ");
                s.append(got.name().as_str());
                s
            },
            ParserError::UnexpectedEOF => String::from_str("received an unexpected EOF"),
        }
    }
}

/// What parsing a source text yields: the document of its token stream.
/// `Parser::new` over a lexer for the text, followed by
/// `parse_document`, returns exactly this.
pub open spec fn document_of(src: Seq<char>) -> Result<DocumentView, ParserError> {
    sp_document(scan(src))
}

/// Parsing is deterministic: identical input yields identical output,
/// since the result is a function of the source text alone.
pub proof fn lemma_parse_deterministic(s1: Seq<char>, s2: Seq<char>)
    requires
        s1 == s2,
    ensures
        document_of(s1) == document_of(s2),
{
}

/// Inserting whitespace at any point between tokens changes neither the
/// token stream nor what parsing yields.
pub proof fn lemma_parse_ws_insensitive(a: Seq<char>, w: Seq<char>, b: Seq<char>)
    requires
        forall|i: int| 0 <= i < w.len() ==> unicode_whitespace(#[trigger] w[i]) && !is_text_char(
            w[i],
        ),
        !(a.len() > 0 && b.len() > 0 && is_text_char(a.last()) && is_text_char(b.first())),
    ensures
        document_of(a + w + b) == document_of(a + b),
{
    lemma_scan_ws_insert(a, w, b);
}

/// An alias the data model admits: a `self` alias never carries a
/// parent.
pub open spec fn alias_wf(a: AliasView) -> bool {
    a.kind is This ==> a.parent is None
}

/// Every alias of the relation satisfies the data-model invariant.
pub open spec fn relation_aliases_wf(r: RelationView) -> bool {
    forall|k: int| 0 <= k < r.aliases.len() ==> alias_wf(#[trigger] r.aliases[k])
}

/// Every alias of every relation of the type satisfies the data-model
/// invariant.
pub open spec fn type_aliases_wf(t: TypeView) -> bool {
    forall|j: int| 0 <= j < t.relations.len() ==> relation_aliases_wf(#[trigger] t.relations[j])
}

/// Every alias anywhere in the document satisfies the data-model
/// invariant: a `self` alias never carries a parent.
pub open spec fn doc_alias_invariant(d: DocumentView) -> bool {
    forall|i: int| 0 <= i < d.types.len() ==> type_aliases_wf(#[trigger] d.types[i])
}

proof fn lemma_sp_alias_tail_inv(s: Seq<TokenView>)
    ensures
        sp_alias_tail(s) matches Ok(r) ==> forall|i: int|
            0 <= i < r.0.len() ==> alias_wf(#[trigger] r.0[i]),
    decreases s.len(),
{
    if tok_at(s, 1).kind == TokenKind::But {
        match sp_but_not(stepped(s, 1)) {
            Ok((a, j)) => {
                lemma_sp_alias_tail_inv(stepped(s, 1 + j as int));
            },
            Err(_) => {},
        }
    } else if tok_at(s, 1).kind == TokenKind::Or {
        match sp_alias(stepped(s, 2)) {
            Ok((a, j)) => {
                lemma_sp_alias_tail_inv(stepped(s, 2 + j as int));
            },
            Err(_) => {},
        }
    }
}

proof fn lemma_sp_relation_inv(s: Seq<TokenView>)
    ensures
        sp_relation(s) matches Ok(r) ==> relation_aliases_wf(r.0),
{
    if tok_at(s, 1).kind == TokenKind::Text && tok_at(s, 2).kind == TokenKind::As {
        match sp_alias(stepped(s, 3)) {
            Ok((a0, j0)) => {
                lemma_sp_alias_tail_inv(stepped(s, 3 + j0 as int));
            },
            Err(_) => {},
        }
    }
}

proof fn lemma_sp_rel_list_inv(s: Seq<TokenView>)
    ensures
        sp_rel_list(s) matches Ok(r) ==> forall|j: int|
            0 <= j < r.0.len() ==> relation_aliases_wf(#[trigger] r.0[j]),
    decreases s.len(),
{
    if tok_at(s, 1).kind == TokenKind::Define {
        match sp_relation(stepped(s, 1)) {
            Ok((r0, j)) => {
                lemma_sp_relation_inv(stepped(s, 1));
                lemma_sp_rel_list_inv(stepped(s, 1 + j as int));
            },
            Err(_) => {},
        }
    }
}

proof fn lemma_sp_type_inv(s: Seq<TokenView>)
    ensures
        sp_type(s) matches Ok(r) ==> type_aliases_wf(r.0),
{
    if tok_at(s, 1).kind == TokenKind::Text && tok_at(s, 2).kind != TokenKind::EOF && tok_at(
        s,
        2,
    ).kind != TokenKind::Type && tok_at(s, 2).kind == TokenKind::Relations {
        lemma_sp_rel_list_inv(stepped(s, 2));
    }
}

/// Every document the parser produces satisfies the data-model
/// invariant: no `self` alias anywhere in it carries a parent.
pub proof fn lemma_parsed_this_has_no_parent(s: Seq<TokenView>)
    ensures
        sp_document(s) matches Ok(d) ==> doc_alias_invariant(d),
    decreases s.len(),
{
    if tok_at(s, 0).kind == TokenKind::Type {
        match sp_type(s) {
            Ok((ty, j)) => {
                lemma_sp_type_inv(s);
                lemma_parsed_this_has_no_parent(stepped(s, j + 1 as int));
            },
            Err(_) => {},
        }
    }
}

} // verus!
