//! Canonical token listings of documents, and the completeness theorem:
//! parsing a well-formed document's own listing yields exactly that
//! document, so the parser preserves the order of type, relation and
//! alias declarations.

use vstd::prelude::*;

use crate::ast::{AliasKindView, AliasView, DocumentView, RelationView, TypeView};
use crate::parser::{
    alias_wf, lemma_stepped_compose, lemma_stepped_tok, sp_alias, sp_alias_tail, sp_but_not,
    sp_document, sp_rel_list, sp_relation, sp_type, stepped, tok_at, ParserError,
};
use crate::token::{TokenKind, TokenView};

verus! {

/// The token listing of one alias: `self` or the name, then the optional
/// `from <parent>`.
pub open spec fn alias_tokens(a: AliasView) -> Seq<TokenView> {
    let head = match a.kind {
        AliasKindView::This => seq![TokenView { kind: TokenKind::This, lit: "self"@ }],
        AliasKindView::Named(n) => seq![TokenView { kind: TokenKind::Text, lit: n }],
        AliasKindView::Negative(n) => seq![
            TokenView { kind: TokenKind::But, lit: "but"@ },
            TokenView { kind: TokenKind::Not, lit: "not"@ },
            TokenView { kind: TokenKind::Text, lit: n },
        ],
    };
    head + match a.parent {
        Some(p) => seq![
            TokenView { kind: TokenKind::From, lit: "from"@ },
            TokenView { kind: TokenKind::Text, lit: p },
        ],
        None => Seq::empty(),
    }
}

/// The token listing of one combinator clause after the first alias:
/// `but not ...` for a negative alias, `or ...` otherwise.
pub open spec fn clause_tokens(a: AliasView) -> Seq<TokenView> {
    if a.kind is Negative {
        alias_tokens(a)
    } else {
        seq![TokenView { kind: TokenKind::Or, lit: "or"@ }] + alias_tokens(a)
    }
}

/// The token listing of the combinator clauses for a list of aliases.
pub open spec fn tail_tokens(aliases: Seq<AliasView>) -> Seq<TokenView>
    decreases aliases.len(),
{
    if aliases.len() == 0 {
        Seq::empty()
    } else {
        clause_tokens(aliases[0]) + tail_tokens(aliases.skip(1))
    }
}

/// The token listing of one relation: `define <name> as` and its aliases.
pub open spec fn relation_tokens(r: RelationView) -> Seq<TokenView> {
    seq![
        TokenView { kind: TokenKind::Define, lit: "define"@ },
        TokenView { kind: TokenKind::Text, lit: r.kind },
        TokenView { kind: TokenKind::As, lit: "as"@ },
    ] + alias_tokens(r.aliases[0]) + tail_tokens(r.aliases.skip(1))
}

/// The token listing of a list of relations.
pub open spec fn rels_tokens(rels: Seq<RelationView>) -> Seq<TokenView>
    decreases rels.len(),
{
    if rels.len() == 0 {
        Seq::empty()
    } else {
        relation_tokens(rels[0]) + rels_tokens(rels.skip(1))
    }
}

/// The token listing of one type: `type <name>`, and the `relations`
/// block when the type has relations.
pub open spec fn type_tokens(t: TypeView) -> Seq<TokenView> {
    seq![
        TokenView { kind: TokenKind::Type, lit: "type"@ },
        TokenView { kind: TokenKind::Text, lit: t.kind },
    ] + if t.relations.len() == 0 {
        Seq::empty()
    } else {
        seq![TokenView { kind: TokenKind::Relations, lit: "relations"@ }] + rels_tokens(
            t.relations,
        )
    }
}

/// The token listing of one type with the `relations` keyword always
/// present: the grammar also admits an empty `relations` block.
pub open spec fn type_tokens_block(t: TypeView) -> Seq<TokenView> {
    seq![
        TokenView { kind: TokenKind::Type, lit: "type"@ },
        TokenView { kind: TokenKind::Text, lit: t.kind },
        TokenView { kind: TokenKind::Relations, lit: "relations"@ },
    ] + rels_tokens(t.relations)
}

/// One of the two listings of a type: with `block`, the `relations`
/// keyword is written even when the type has no relations.
pub open spec fn type_tokens_any(t: TypeView, block: bool) -> Seq<TokenView> {
    if block {
        type_tokens_block(t)
    } else {
        type_tokens(t)
    }
}

/// The token listing of a list of types, each in the form its entry of
/// `block` picks.
pub open spec fn types_tokens_any(types: Seq<TypeView>, block: Seq<bool>) -> Seq<TokenView>
    decreases types.len(),
{
    if types.len() == 0 {
        Seq::empty()
    } else {
        type_tokens_any(types[0], block.len() > 0 && block[0]) + types_tokens_any(
            types.skip(1),
            block.skip(1),
        )
    }
}

/// The token listing of a list of types.
pub open spec fn types_tokens(types: Seq<TypeView>) -> Seq<TokenView>
    decreases types.len(),
{
    if types.len() == 0 {
        Seq::empty()
    } else {
        type_tokens(types[0]) + types_tokens(types.skip(1))
    }
}

/// A relation the grammar can express: at least one alias, the first
/// alias positive, and every alias within the data model. A relation
/// with no aliases parses back only at the very end of the input, and a
/// `but not` alias can only continue an alias list.
pub open spec fn relation_wf(r: RelationView) -> bool {
    &&& r.aliases.len() >= 1
    &&& !(r.aliases[0].kind is Negative)
    &&& forall|i: int| 0 <= i < r.aliases.len() ==> alias_wf(#[trigger] r.aliases[i])
}

/// A document the grammar can express: every relation of every type is
/// well formed.
pub open spec fn doc_wf(d: DocumentView) -> bool {
    forall|i: int, j: int|
        0 <= i < d.types.len() && 0 <= j < d.types[i].relations.len() ==> relation_wf(
            #[trigger] d.types[i].relations[j],
        )
}

proof fn lemma_alias_complete(a: AliasView, rest: Seq<TokenView>)
    requires
        !(a.kind is Negative),
        alias_wf(a),
        a.parent is None ==> tok_at(rest, 0).kind != TokenKind::From,
    ensures
        sp_alias(alias_tokens(a) + rest) == Ok::<(AliasView, nat), ParserError>(
            (a, (alias_tokens(a).len() - 1) as nat),
        ),
{
    let s = alias_tokens(a) + rest;
    match a.parent {
        Some(p) => {
            assert(tok_at(s, 1).kind == TokenKind::From);
            assert(tok_at(s, 2).kind == TokenKind::Text);
            assert(tok_at(s, 2).lit == p);
        },
        None => {
            assert(tok_at(s, 1) == tok_at(rest, 0));
        },
    }
}

proof fn lemma_but_not_complete(a: AliasView, rest: Seq<TokenView>)
    requires
        a.kind is Negative,
        a.parent is None ==> tok_at(rest, 0).kind != TokenKind::From,
    ensures
        sp_but_not(alias_tokens(a) + rest) == Ok::<(AliasView, nat), ParserError>(
            (a, (alias_tokens(a).len() - 1) as nat),
        ),
{
    let s = alias_tokens(a) + rest;
    match a.parent {
        Some(p) => {
            assert(stepped(s, 2) =~= s.skip(2));
            assert(tok_at(s, 3).kind == TokenKind::From);
            assert(tok_at(s, 4).kind == TokenKind::Text);
            assert(tok_at(s, 4).lit == p);
            lemma_stepped_tok(s, 2, 1);
            lemma_stepped_tok(s, 2, 2);
        },
        None => {
            assert(tok_at(s, 3) == tok_at(rest, 0));
            lemma_stepped_tok(s, 2, 1);
        },
    }
}

proof fn lemma_clause_first(a: AliasView)
    ensures
        clause_tokens(a).len() == alias_tokens(a).len() + (if a.kind is Negative { 0int } else { 1int }),
        alias_tokens(a).len() >= 1,
        clause_tokens(a)[0].kind == (if a.kind is Negative {
            TokenKind::But
        } else {
            TokenKind::Or
        }),
        clause_tokens(a).last() == alias_tokens(a).last(),
{
    if a.kind is Negative {
    } else {
        assert((seq![TokenView { kind: TokenKind::Or, lit: "or"@ }] + alias_tokens(a)).last()
            == alias_tokens(a).last());
    }
}

#[verifier::rlimit(100)]
proof fn lemma_alias_tail_complete(c: TokenView, aliases: Seq<AliasView>, rest: Seq<TokenView>)
    requires
        forall|i: int| 0 <= i < aliases.len() ==> alias_wf(#[trigger] aliases[i]),
        tok_at(rest, 0).kind != TokenKind::Or,
        tok_at(rest, 0).kind != TokenKind::But,
        tok_at(rest, 0).kind != TokenKind::From,
    ensures
        sp_alias_tail(seq![c] + tail_tokens(aliases) + rest) == Ok::<
            (Seq<AliasView>, nat),
            ParserError,
        >((aliases, tail_tokens(aliases).len())),
    decreases aliases.len(),
{
    let s = seq![c] + tail_tokens(aliases) + rest;
    if aliases.len() == 0 {
        assert(aliases =~= Seq::<AliasView>::empty());
        assert(s =~= seq![c] + rest);
        assert(tok_at(s, 1) == tok_at(rest, 0));
    } else {
        let a = aliases[0];
        let at = alias_tokens(a);
        let cl = clause_tokens(a);
        let tl = tail_tokens(aliases.skip(1));
        let rest2 = tl + rest;
        lemma_clause_first(a);
        assert(tail_tokens(aliases) == cl + tl);
        lemma_list_decompose(c, cl, tl, rest);
        if aliases.len() > 1 {
            lemma_clause_first(aliases.skip(1)[0]);
            assert(tl == clause_tokens(aliases.skip(1)[0]) + tail_tokens(aliases.skip(1).skip(1)));
            assert(tok_at(rest2, 0) == clause_tokens(aliases.skip(1)[0])[0]);
        } else {
            assert(aliases.skip(1).len() == 0);
            assert(rest2 =~= rest);
        }
        assert(tok_at(rest2, 0).kind != TokenKind::From);
        assert(forall|i: int|
            0 <= i < aliases.skip(1).len() ==> alias_wf(#[trigger] aliases.skip(1)[i]));
        let j = (at.len() - 1) as nat;
        if a.kind is Negative {
            lemma_but_not_complete(a, rest2);
            assert(1 + j as int == cl.len() as int);
            lemma_alias_tail_complete(at.last(), aliases.skip(1), rest);
            assert(seq![a] + aliases.skip(1) =~= aliases);
            assert(tail_tokens(aliases).len() == 1 + j + tl.len());
        } else {
            assert(stepped(s, 2) =~= at + rest2) by {
                assert(stepped(s, 1) == cl + rest2);
                assert(cl == seq![TokenView { kind: TokenKind::Or, lit: "or"@ }] + at);
                assert(stepped(stepped(s, 1), 1) =~= at + rest2);
                lemma_stepped_compose(s, 1, 1);
            }
            assert(alias_wf(a));
            lemma_alias_complete(a, rest2);
            assert(2 + j as int == cl.len() as int);
            assert(cl.last() == at.last());
            lemma_alias_tail_complete(at.last(), aliases.skip(1), rest);
            assert(seq![a] + aliases.skip(1) =~= aliases);
            assert(tail_tokens(aliases).len() == 2 + j + tl.len());
        }
    }
}

proof fn lemma_relation_decompose(r: RelationView, rest: Seq<TokenView>)
    requires
        r.aliases.len() >= 1,
    ensures
        tok_at(relation_tokens(r) + rest, 1) == (TokenView {
            kind: TokenKind::Text,
            lit: r.kind,
        }),
        tok_at(relation_tokens(r) + rest, 2).kind == TokenKind::As,
        stepped(relation_tokens(r) + rest, 3) == alias_tokens(r.aliases[0]) + (tail_tokens(
            r.aliases.skip(1),
        ) + rest),
        stepped(relation_tokens(r) + rest, 2 + alias_tokens(r.aliases[0]).len() as int)
            == seq![alias_tokens(r.aliases[0]).last()] + tail_tokens(r.aliases.skip(1)) + rest,
        relation_tokens(r).len() == 3 + alias_tokens(r.aliases[0]).len() + tail_tokens(
            r.aliases.skip(1),
        ).len(),
{
    let s = relation_tokens(r) + rest;
    let at = alias_tokens(r.aliases[0]);
    let tl = tail_tokens(r.aliases.skip(1));
    assert(at.len() >= 1) by {
        lemma_clause_first(r.aliases[0]);
    }
    assert(stepped(s, 3) =~= at + (tl + rest));
    assert(at.skip(at.len() - 1) =~= seq![at.last()]);
    assert(stepped(s, 2 + at.len() as int) =~= seq![at.last()] + tl + rest);
}

#[verifier::rlimit(100)]
proof fn lemma_relation_complete(r: RelationView, rest: Seq<TokenView>)
    requires
        relation_wf(r),
        tok_at(rest, 0).kind != TokenKind::Or,
        tok_at(rest, 0).kind != TokenKind::But,
        tok_at(rest, 0).kind != TokenKind::From,
    ensures
        sp_relation(relation_tokens(r) + rest) == Ok::<(RelationView, nat), ParserError>(
            (r, (relation_tokens(r).len() - 1) as nat),
        ),
{
    let s = relation_tokens(r) + rest;
    let a0 = r.aliases[0];
    let tl = tail_tokens(r.aliases.skip(1));
    lemma_relation_decompose(r, rest);
    if r.aliases.len() > 1 {
        assert(tok_at(tl + rest, 0).kind != TokenKind::From);
    } else {
        assert(tl =~= Seq::<TokenView>::empty());
        assert(tl + rest =~= rest);
    }
    assert(alias_wf(a0));
    lemma_alias_complete(a0, tl + rest);
    assert(forall|i: int|
        0 <= i < r.aliases.skip(1).len() ==> alias_wf(#[trigger] r.aliases.skip(1)[i]));
    let j0 = (alias_tokens(a0).len() - 1) as nat;
    assert(3 + j0 as int == 2 + alias_tokens(a0).len() as int);
    lemma_alias_tail_complete(alias_tokens(a0).last(), r.aliases.skip(1), rest);
    assert(seq![a0] + r.aliases.skip(1) =~= r.aliases);
}

proof fn lemma_relation_tokens_first(r: RelationView)
    ensures
        relation_tokens(r).len() >= 3,
        relation_tokens(r)[0].kind == TokenKind::Define,
{
}

proof fn lemma_list_decompose(c: TokenView, head: Seq<TokenView>, tl: Seq<TokenView>, rest: Seq<TokenView>)
    requires
        head.len() >= 1,
    ensures
        tok_at(seq![c] + (head + tl) + rest, 1) == head[0],
        stepped(seq![c] + (head + tl) + rest, 1) == head + (tl + rest),
        stepped(seq![c] + (head + tl) + rest, head.len() as int) == seq![head.last()] + tl + rest,
{
    let s = seq![c] + (head + tl) + rest;
    assert(tok_at(s, 1) == head[0]);
    assert(stepped(s, 1) =~= head + (tl + rest));
    assert(head.skip(head.len() - 1) =~= seq![head.last()]);
    assert(stepped(s, head.len() as int) =~= seq![head.last()] + tl + rest);
}

#[verifier::rlimit(100)]
proof fn lemma_rel_list_complete(c: TokenView, rels: Seq<RelationView>, rest: Seq<TokenView>)
    requires
        forall|i: int| 0 <= i < rels.len() ==> relation_wf(#[trigger] rels[i]),
        tok_at(rest, 0).kind != TokenKind::Define,
        tok_at(rest, 0).kind != TokenKind::Or,
        tok_at(rest, 0).kind != TokenKind::But,
        tok_at(rest, 0).kind != TokenKind::From,
    ensures
        sp_rel_list(seq![c] + rels_tokens(rels) + rest) == Ok::<
            (Seq<RelationView>, nat),
            ParserError,
        >((rels, rels_tokens(rels).len())),
    decreases rels.len(),
{
    let s = seq![c] + rels_tokens(rels) + rest;
    if rels.len() == 0 {
        assert(rels =~= Seq::<RelationView>::empty());
        assert(s =~= seq![c] + rest);
        assert(tok_at(s, 1) == tok_at(rest, 0));
    } else {
        let r0 = rels[0];
        let rt = relation_tokens(r0);
        let tl = rels_tokens(rels.skip(1));
        let rest2 = tl + rest;
        lemma_relation_tokens_first(r0);
        assert(rels_tokens(rels) == rt + tl);
        lemma_list_decompose(c, rt, tl, rest);
        if rels.len() > 1 {
            lemma_relation_tokens_first(rels.skip(1)[0]);
            assert(tl == relation_tokens(rels.skip(1)[0]) + rels_tokens(rels.skip(1).skip(1)));
            assert(tok_at(rest2, 0) == relation_tokens(rels.skip(1)[0])[0]);
        } else {
            assert(rels.skip(1).len() == 0);
            assert(rest2 =~= rest);
        }
        assert(relation_wf(r0));
        lemma_relation_complete(r0, rest2);
        let j = (rt.len() - 1) as nat;
        assert(1 + j as int == rt.len());
        assert(forall|i: int|
            0 <= i < rels.skip(1).len() ==> relation_wf(#[trigger] rels.skip(1)[i]));
        lemma_rel_list_complete(rt.last(), rels.skip(1), rest);
        assert(seq![r0] + rels.skip(1) =~= rels);
        assert(rels_tokens(rels).len() == 1 + j + tl.len());
    }
}

#[verifier::rlimit(100)]
proof fn lemma_type_complete(t: TypeView, rest: Seq<TokenView>)
    requires
        forall|j: int| 0 <= j < t.relations.len() ==> relation_wf(#[trigger] t.relations[j]),
        tok_at(rest, 0).kind == TokenKind::Type || tok_at(rest, 0).kind == TokenKind::EOF,
    ensures
        sp_type(type_tokens(t) + rest) == Ok::<(TypeView, nat), ParserError>(
            (t, (type_tokens(t).len() - 1) as nat),
        ),
{
    let s = type_tokens(t) + rest;
    assert(tok_at(s, 1).kind == TokenKind::Text);
    assert(tok_at(s, 1).lit == t.kind);
    if t.relations.len() == 0 {
        assert(type_tokens(t) =~= seq![
            TokenView { kind: TokenKind::Type, lit: "type"@ },
            TokenView { kind: TokenKind::Text, lit: t.kind },
        ]);
        assert(tok_at(s, 2) == tok_at(rest, 0));
        assert(TypeView { kind: t.kind, relations: Seq::empty() } =~= t);
    } else {
        let rt = rels_tokens(t.relations);
        assert(tok_at(s, 2).kind == TokenKind::Relations);
        let rl = TokenView { kind: TokenKind::Relations, lit: "relations"@ };
        assert(stepped(s, 2) =~= seq![rl] + rt + rest);
        lemma_rel_list_complete(rl, t.relations, rest);
        assert(sp_rel_list(stepped(s, 2)) == Ok::<(Seq<RelationView>, nat), ParserError>(
            (t.relations, rt.len()),
        ));
        assert(TypeView { kind: t.kind, relations: t.relations } =~= t);
        assert(type_tokens(t).len() == 3 + rt.len());
    }
}

/// For every well-formed document, parsing the document's own token
/// listing yields `Ok` with exactly that document: the order of type
/// declarations, of relations within each type, and of aliases within
/// each relation is preserved.
pub proof fn lemma_parse_preserves_document(d: DocumentView)
    requires
        doc_wf(d),
    ensures
        sp_document(types_tokens(d.types)) == Ok::<DocumentView, ParserError>(d),
{
    let block = Seq::new(d.types.len(), |i: int| false);
    lemma_types_tokens_default(d.types);
    assert(sp_document(Seq::<TokenView>::empty()) == Ok::<DocumentView, ParserError>(
        DocumentView { types: Seq::empty() },
    ));
    lemma_types_prefix(d.types, block, Seq::empty(), Seq::empty());
    assert(types_tokens_any(d.types, block) + Seq::<TokenView>::empty() =~= types_tokens_any(
        d.types,
        block,
    ));
    assert(DocumentView { types: d.types + Seq::empty() } =~= d);
}

proof fn lemma_types_tokens_default(types: Seq<TypeView>)
    ensures
        types_tokens_any(types, Seq::new(types.len(), |i: int| false)) == types_tokens(types),
    decreases types.len(),
{
    if types.len() > 0 {
        let block = Seq::new(types.len(), |i: int| false);
        assert(!block[0]);
        assert(block.skip(1) =~= Seq::new(types.skip(1).len(), |i: int| false));
        lemma_types_tokens_default(types.skip(1));
    }
}


#[verifier::rlimit(100)]
proof fn lemma_type_block_complete(t: TypeView, rest: Seq<TokenView>)
    requires
        forall|j: int| 0 <= j < t.relations.len() ==> relation_wf(#[trigger] t.relations[j]),
        tok_at(rest, 0).kind == TokenKind::Type || tok_at(rest, 0).kind == TokenKind::EOF,
    ensures
        sp_type(type_tokens_block(t) + rest) == Ok::<(TypeView, nat), ParserError>(
            (t, (type_tokens_block(t).len() - 1) as nat),
        ),
{
    let s = type_tokens_block(t) + rest;
    let rt = rels_tokens(t.relations);
    assert(tok_at(s, 1).kind == TokenKind::Text);
    assert(tok_at(s, 1).lit == t.kind);
    assert(tok_at(s, 2).kind == TokenKind::Relations);
    let rl = TokenView { kind: TokenKind::Relations, lit: "relations"@ };
    assert(stepped(s, 2) =~= seq![rl] + rt + rest);
    lemma_rel_list_complete(rl, t.relations, rest);
    assert(sp_rel_list(stepped(s, 2)) == Ok::<(Seq<RelationView>, nat), ParserError>(
        (t.relations, rt.len()),
    ));
    assert(TypeView { kind: t.kind, relations: t.relations } =~= t);
    assert(type_tokens_block(t).len() == 3 + rt.len());
}

proof fn lemma_head_decompose(head: Seq<TokenView>, mid: Seq<TokenView>, suffix: Seq<TokenView>)
    requires
        head.len() >= 1,
    ensures
        (head + mid) + suffix == head + (mid + suffix),
        tok_at((head + mid) + suffix, 0) == head[0],
        stepped((head + mid) + suffix, head.len() as int) == mid + suffix,
{
    assert((head + mid) + suffix =~= head + (mid + suffix));
    assert(stepped((head + mid) + suffix, head.len() as int) =~= mid + suffix);
}

proof fn lemma_document_cons(
    tt: Seq<TokenView>,
    tl: Seq<TokenView>,
    t0: TypeView,
    j: nat,
    rest: Seq<TypeView>,
)
    requires
        tok_at(tt + tl, 0).kind == TokenKind::Type,
        sp_type(tt + tl) == Ok::<(TypeView, nat), ParserError>((t0, j)),
        stepped(tt + tl, j + 1 as int) == tl,
        sp_document(tl) == Ok::<DocumentView, ParserError>(DocumentView { types: rest }),
    ensures
        sp_document(tt + tl) == Ok::<DocumentView, ParserError>(
            DocumentView { types: seq![t0] + rest },
        ),
{
}

#[verifier::rlimit(100)]
proof fn lemma_types_prefix(
    types: Seq<TypeView>,
    block: Seq<bool>,
    suffix: Seq<TokenView>,
    rest_types: Seq<TypeView>,
)
    requires
        forall|i: int, j: int|
            0 <= i < types.len() && 0 <= j < types[i].relations.len() ==> relation_wf(
                #[trigger] types[i].relations[j],
            ),
        sp_document(suffix) == Ok::<DocumentView, ParserError>(
            DocumentView { types: rest_types },
        ),
        suffix.len() == 0 || suffix[0].kind == TokenKind::Type,
    ensures
        sp_document(types_tokens_any(types, block) + suffix) == Ok::<DocumentView, ParserError>(
            DocumentView { types: types + rest_types },
        ),
    decreases types.len(),
{
    let s = types_tokens_any(types, block) + suffix;
    if types.len() == 0 {
        assert(s =~= suffix);
        assert(Seq::<TypeView>::empty() + rest_types =~= rest_types);
    } else {
        let t0 = types[0];
        let b0 = block.len() > 0 && block[0];
        let tt = type_tokens_any(t0, b0);
        let mid = types_tokens_any(types.skip(1), block.skip(1));
        let tl = mid + suffix;
        assert(tt.len() >= 2);
        lemma_head_decompose(tt, mid, suffix);
        assert(tok_at(s, 0).kind == TokenKind::Type);
        if types.len() > 1 {
            assert(tok_at(tl, 0).kind == TokenKind::Type);
        } else {
            assert(types.skip(1) =~= Seq::<TypeView>::empty());
            assert(mid =~= Seq::<TokenView>::empty());
            assert(tl =~= suffix);
        }
        assert(tok_at(tl, 0).kind == TokenKind::Type || tok_at(tl, 0).kind == TokenKind::EOF);
        assert(forall|j: int| 0 <= j < t0.relations.len() ==> relation_wf(
            #[trigger] t0.relations[j],
        ));
        if b0 {
            lemma_type_block_complete(t0, tl);
        } else {
            lemma_type_complete(t0, tl);
        }
        let j = (tt.len() - 1) as nat;
        assert(j + 1 as int == tt.len());
        lemma_types_prefix(types.skip(1), block.skip(1), suffix, rest_types);
        lemma_document_cons(tt, tl, t0, j, types.skip(1) + rest_types);
        assert(seq![t0] + (types.skip(1) + rest_types) =~= types + rest_types);
    }
}

/// For every well-formed document, parsing any of the document's token
/// listings yields `Ok` with exactly that document: a type without
/// relations may be written with or without an empty `relations` block
/// (`block` picks the form per type), and the order of type, relation
/// and alias declarations is preserved throughout.
pub proof fn lemma_parse_preserves_document_listed(d: DocumentView, block: Seq<bool>)
    requires
        doc_wf(d),
    ensures
        sp_document(types_tokens_any(d.types, block)) == Ok::<DocumentView, ParserError>(d),
{
    assert(sp_document(Seq::<TokenView>::empty()) == Ok::<DocumentView, ParserError>(
        DocumentView { types: Seq::empty() },
    ));
    lemma_types_prefix(d.types, block, Seq::empty(), Seq::empty());
    assert(types_tokens_any(d.types, block) + Seq::<TokenView>::empty() =~= types_tokens_any(
        d.types,
        block,
    ));
    assert(DocumentView { types: d.types + Seq::empty() } =~= d);
}


/// The token listing of a `define` with no `as` clause. Such a relation
/// is grammatical only as the very last declaration of the input: the
/// parser reads one token past it, so anything following would be lost.
pub open spec fn bare_relation_tokens(name: Seq<char>) -> Seq<TokenView> {
    seq![
        TokenView { kind: TokenKind::Define, lit: "define"@ },
        TokenView { kind: TokenKind::Text, lit: name },
    ]
}

/// The token listing of a final type whose last relation has no `as`
/// clause.
pub open spec fn trailing_type_tokens(t: TypeView) -> Seq<TokenView> {
    seq![
        TokenView { kind: TokenKind::Type, lit: "type"@ },
        TokenView { kind: TokenKind::Text, lit: t.kind },
        TokenView { kind: TokenKind::Relations, lit: "relations"@ },
    ] + rels_tokens(t.relations.drop_last()) + bare_relation_tokens(t.relations.last().kind)
}

#[verifier::rlimit(100)]
proof fn lemma_rel_list_trailing(c: TokenView, rels: Seq<RelationView>, bare: RelationView)
    requires
        forall|i: int| 0 <= i < rels.len() ==> relation_wf(#[trigger] rels[i]),
        bare.aliases.len() == 0,
    ensures
        sp_rel_list(seq![c] + rels_tokens(rels) + bare_relation_tokens(bare.kind)) == Ok::<
            (Seq<RelationView>, nat),
            ParserError,
        >((rels.push(bare), (rels_tokens(rels).len() + 3) as nat)),
    decreases rels.len(),
{
    let bt = bare_relation_tokens(bare.kind);
    let s = seq![c] + rels_tokens(rels) + bt;
    if rels.len() == 0 {
        assert(rels_tokens(rels) =~= Seq::<TokenView>::empty());
        assert(s =~= seq![c] + bt);
        assert(tok_at(s, 1).kind == TokenKind::Define);
        assert(stepped(s, 1) =~= bt);
        assert(tok_at(bt, 1).kind == TokenKind::Text);
        assert(tok_at(bt, 1).lit == bare.kind);
        assert(tok_at(bt, 2).kind == TokenKind::EOF);
        assert(RelationView { kind: bare.kind, aliases: Seq::empty() } =~= bare);
        assert(sp_relation(bt) == Ok::<(RelationView, nat), ParserError>((bare, 2 as nat)));
        assert(stepped(s, 3) =~= Seq::<TokenView>::empty());
        assert(sp_rel_list(Seq::<TokenView>::empty()) == Ok::<
            (Seq<RelationView>, nat),
            ParserError,
        >((Seq::empty(), 0 as nat)));
        assert(seq![bare] + Seq::<RelationView>::empty() =~= rels.push(bare));
    } else {
        let r0 = rels[0];
        let rt = relation_tokens(r0);
        let tl = rels_tokens(rels.skip(1));
        let rest2 = tl + bt;
        lemma_relation_tokens_first(r0);
        assert(rels_tokens(rels) == rt + tl);
        lemma_list_decompose(c, rt, tl, bt);
        if rels.len() > 1 {
            lemma_relation_tokens_first(rels.skip(1)[0]);
            assert(tl == relation_tokens(rels.skip(1)[0]) + rels_tokens(rels.skip(1).skip(1)));
            assert(tok_at(rest2, 0) == relation_tokens(rels.skip(1)[0])[0]);
        } else {
            assert(rels.skip(1).len() == 0);
            assert(rest2 =~= bt);
        }
        assert(tok_at(rest2, 0).kind == TokenKind::Define);
        assert(relation_wf(r0));
        lemma_relation_complete(r0, rest2);
        let j = (rt.len() - 1) as nat;
        assert(1 + j as int == rt.len());
        assert(forall|i: int|
            0 <= i < rels.skip(1).len() ==> relation_wf(#[trigger] rels.skip(1)[i]));
        lemma_rel_list_trailing(rt.last(), rels.skip(1), bare);
        assert(seq![r0] + rels.skip(1).push(bare) =~= rels.push(bare));
        assert(rels_tokens(rels).len() == 1 + j + tl.len());
    }
}

#[verifier::rlimit(100)]
proof fn lemma_type_trailing(t: TypeView)
    requires
        t.relations.len() >= 1,
        t.relations.last().aliases.len() == 0,
        forall|j: int|
            0 <= j < t.relations.len() - 1 ==> relation_wf(#[trigger] t.relations[j]),
    ensures
        sp_type(trailing_type_tokens(t)) == Ok::<(TypeView, nat), ParserError>(
            (t, trailing_type_tokens(t).len() as nat),
        ),
{
    let s = trailing_type_tokens(t);
    let front = t.relations.drop_last();
    let rt = rels_tokens(front);
    let bare = t.relations.last();
    assert(tok_at(s, 1).kind == TokenKind::Text);
    assert(tok_at(s, 1).lit == t.kind);
    assert(tok_at(s, 2).kind == TokenKind::Relations);
    let rl = TokenView { kind: TokenKind::Relations, lit: "relations"@ };
    assert(stepped(s, 2) =~= seq![rl] + rt + bare_relation_tokens(bare.kind));
    assert(forall|j: int| 0 <= j < front.len() ==> relation_wf(#[trigger] front[j]));
    lemma_rel_list_trailing(rl, front, bare);
    assert(front.push(bare) =~= t.relations);
    assert(sp_rel_list(stepped(s, 2)) == Ok::<(Seq<RelationView>, nat), ParserError>(
        (t.relations, (rt.len() + 3) as nat),
    ));
    assert(TypeView { kind: t.kind, relations: t.relations } =~= t);
    assert(s.len() == 5 + rt.len());
}

/// A single trailing type, listed with its bare final relation, is a
/// complete document of one type.
proof fn lemma_document_trailing_single(last: TypeView)
    requires
        last.relations.len() >= 1,
        last.relations.last().aliases.len() == 0,
        forall|j: int|
            0 <= j < last.relations.len() - 1 ==> relation_wf(#[trigger] last.relations[j]),
    ensures
        sp_document(trailing_type_tokens(last)) == Ok::<DocumentView, ParserError>(
            DocumentView { types: seq![last] },
        ),
{
    let s = trailing_type_tokens(last);
    assert(tok_at(s, 0).kind == TokenKind::Type);
    lemma_type_trailing(last);
    let j = s.len() as nat;
    assert(stepped(s, j + 1 as int) =~= Seq::<TokenView>::empty());
    assert(sp_document(Seq::<TokenView>::empty()) == Ok::<DocumentView, ParserError>(
        DocumentView { types: Seq::empty() },
    ));
    assert(seq![last] + Seq::<TypeView>::empty() =~= seq![last]);
}

/// A well-formed document may also end with a relation that has no `as`
/// clause: parsing a listing whose final type carries such a trailing
/// relation still yields exactly the document, orders preserved. Only
/// this final position admits the bare form.
pub proof fn lemma_parse_preserves_trailing_bare(d: DocumentView, block: Seq<bool>)
    requires
        d.types.len() >= 1,
        d.types.last().relations.len() >= 1,
        d.types.last().relations.last().aliases.len() == 0,
        forall|j: int|
            0 <= j < d.types.last().relations.len() - 1 ==> relation_wf(
                #[trigger] d.types.last().relations[j],
            ),
        forall|i: int, j: int|
            0 <= i < d.types.len() - 1 && 0 <= j < d.types[i].relations.len() ==> relation_wf(
                #[trigger] d.types[i].relations[j],
            ),
    ensures
        sp_document(
            types_tokens_any(d.types.drop_last(), block) + trailing_type_tokens(d.types.last()),
        ) == Ok::<DocumentView, ParserError>(d),
{
    assert(forall|i: int, j: int|
        0 <= i < d.types.drop_last().len() && 0 <= j < d.types.drop_last()[i].relations.len()
            ==> relation_wf(#[trigger] d.types.drop_last()[i].relations[j]));
    lemma_document_trailing_single(d.types.last());
    let suffix = trailing_type_tokens(d.types.last());
    assert(suffix[0].kind == TokenKind::Type);
    lemma_types_prefix(d.types.drop_last(), block, suffix, seq![d.types.last()]);
    assert(d.types.drop_last() + seq![d.types.last()] =~= d.types);
    assert(DocumentView { types: d.types } =~= d);
}

} // verus!
