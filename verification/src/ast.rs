//! The abstract syntax tree for the OpenFGA DSL, together with its
//! mathematical view: each node type has a ghost counterpart over `Seq` so
//! that contracts can speak of documents as pure values.

use vstd::prelude::*;

verus! {

/// A parsed DSL document: an ordered list of type declarations.
#[derive(Debug, PartialEq, Eq)]
pub struct Document {
    pub types: Vec<Type>,
}

/// One `type <name>` declaration and the relations defined under it.
#[derive(Debug, PartialEq, Eq)]
pub struct Type {
    pub kind: String,
    pub relations: Vec<Relation>,
}

/// One `define <name> as ...` declaration inside a `relations` block.
#[derive(Debug, PartialEq, Eq)]
pub struct Relation {
    pub kind: String,
    pub aliases: Vec<Alias>,
}

/// One branch of a relation definition, with the optional `from <parent>`
/// qualifier.
#[derive(Debug, PartialEq, Eq)]
pub struct Alias {
    pub kind: AliasKind,
    pub parent: Option<String>,
}

/// The form of an alias: the `self` keyword, a positive reference to a
/// relation name, or a `but not` reference.
#[derive(Debug, PartialEq, Eq)]
pub enum AliasKind {
    This,
    Named(String),
    Negative(String),
}

/// Ghost counterpart of [`Document`].
#[verifier::ext_equal]
pub struct DocumentView {
    pub types: Seq<TypeView>,
}

/// Ghost counterpart of [`Type`].
#[verifier::ext_equal]
pub struct TypeView {
    pub kind: Seq<char>,
    pub relations: Seq<RelationView>,
}

/// Ghost counterpart of [`Relation`].
#[verifier::ext_equal]
pub struct RelationView {
    pub kind: Seq<char>,
    pub aliases: Seq<AliasView>,
}

/// Ghost counterpart of [`Alias`].
#[verifier::ext_equal]
pub struct AliasView {
    pub kind: AliasKindView,
    pub parent: Option<Seq<char>>,
}

/// Ghost counterpart of [`AliasKind`].
#[verifier::ext_equal]
pub enum AliasKindView {
    This,
    Named(Seq<char>),
    Negative(Seq<char>),
}

impl View for AliasKind {
    type V = AliasKindView;

    open spec fn view(&self) -> AliasKindView {
        match self {
            AliasKind::This => AliasKindView::This,
            AliasKind::Named(n) => AliasKindView::Named(n@),
            AliasKind::Negative(n) => AliasKindView::Negative(n@),
        }
    }
}

impl View for Alias {
    type V = AliasView;

    open spec fn view(&self) -> AliasView {
        AliasView {
            kind: self.kind@,
            parent: match self.parent {
                Some(p) => Some(p@),
                None => None,
            },
        }
    }
}

/// The views of a sequence of aliases, in order.
pub open spec fn view_aliases(v: Seq<Alias>) -> Seq<AliasView> {
    v.map_values(|a: Alias| a@)
}

/// The views of a sequence of relations, in order.
pub open spec fn view_relations(v: Seq<Relation>) -> Seq<RelationView> {
    v.map_values(|r: Relation| r@)
}

/// The views of a sequence of types, in order.
pub open spec fn view_types(v: Seq<Type>) -> Seq<TypeView> {
    v.map_values(|t: Type| t@)
}

pub proof fn lemma_view_aliases_push(v: Seq<Alias>, a: Alias)
    ensures
        view_aliases(v.push(a)) == view_aliases(v) + seq![a@],
{
    assert(view_aliases(v.push(a)) =~= view_aliases(v) + seq![a@]);
}

pub proof fn lemma_view_relations_push(v: Seq<Relation>, r: Relation)
    ensures
        view_relations(v.push(r)) == view_relations(v) + seq![r@],
{
    assert(view_relations(v.push(r)) =~= view_relations(v) + seq![r@]);
}

pub proof fn lemma_view_types_push(v: Seq<Type>, t: Type)
    ensures
        view_types(v.push(t)) == view_types(v) + seq![t@],
{
    assert(view_types(v.push(t)) =~= view_types(v) + seq![t@]);
}

impl View for Relation {
    type V = RelationView;

    open spec fn view(&self) -> RelationView {
        RelationView { kind: self.kind@, aliases: view_aliases(self.aliases@) }
    }
}

impl View for Type {
    type V = TypeView;

    open spec fn view(&self) -> TypeView {
        TypeView { kind: self.kind@, relations: view_relations(self.relations@) }
    }
}

impl View for Document {
    type V = DocumentView;

    open spec fn view(&self) -> DocumentView {
        DocumentView { types: view_types(self.types@) }
    }
}

} // verus!
