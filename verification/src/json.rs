//! Lowering a [`Document`] to the OpenFGA authorization-model JSON.
//!
//! The shape of the output is specified by `JsonVal`, a mathematical model
//! of JSON values: objects are maps from key to value, arrays are
//! sequences, strings are character sequences. The `spec_*` functions give
//! the exact lowering of every AST node, and the executable serializer is
//! proved to build a `serde_json` value whose model is that lowering. The
//! final text rendering is `serde_json`'s, named by `json_text`.

use vstd::prelude::*;

use crate::ast::{
    view_aliases, view_relations, Alias, AliasKind, AliasKindView, AliasView, Document,
    DocumentView, Relation, RelationView, Type, TypeView,
};

verus! {

/// A mathematical JSON value, as far as this library builds them. The
/// `JForeign` variant stands for JSON values the library never builds
/// (numbers, booleans, null), so that distinct foreign values can keep
/// distinct models.
#[verifier::ext_equal]
pub enum JsonVal {
    JStr(Seq<char>),
    JArr(Seq<JsonVal>),
    JObj(Map<Seq<char>, JsonVal>),
    JForeign(int),
}

#[verifier::external_type_specification]
#[verifier::external_body]
pub struct ExValue(serde_json::Value);

#[verifier::external_type_specification]
#[verifier::external_body]
#[verifier::reject_recursive_types(K)]
#[verifier::reject_recursive_types(V)]
pub struct ExMap<K, V>(serde_json::Map<K, V>);

/// The object-map type `serde_json` uses inside `Value::Object`.
pub type JsonMap = serde_json::Map<String, serde_json::Value>;

/// The JSON content of a `serde_json` value.
pub uninterp spec fn value_model(v: serde_json::Value) -> JsonVal;

/// The JSON content of a `serde_json` object map: its entries, with
/// string keys as character sequences.
pub uninterp spec fn map_model(m: JsonMap) -> Map<Seq<char>, JsonVal>;

/// The compact JSON text that `serde_json` renders a value of the given
/// content to. The rendering depends on the JSON content alone.
pub uninterp spec fn json_text(j: JsonVal) -> Seq<char>;

/// The empty JSON object's entries.
pub open spec fn empty_obj() -> Map<Seq<char>, JsonVal> {
    Map::empty()
}

/// The models of a sequence of `serde_json` values, in order.
pub open spec fn values_model(items: Seq<serde_json::Value>) -> Seq<JsonVal> {
    items.map_values(|x: serde_json::Value| value_model(x))
}

/// Relies on serde_json::Map::new: the empty object map.
#[verifier::external_body]
fn json_map_new() -> (res: JsonMap)
    ensures
        map_model(res) == empty_obj(),
{
    serde_json::Map::new()
}

/// Relies on serde_json::Map::insert: adds the entry, replacing any entry
/// the key already had.
#[verifier::external_body]
fn json_map_insert(m: &mut JsonMap, k: &str, v: serde_json::Value)
    ensures
        map_model(*final(m)) == map_model(*old(m)).insert(k@, value_model(v)),
{
    m.insert(k.to_string(), v);
}

/// Relies on serde_json::Value::Object: a JSON object holding exactly the
/// given map.
#[verifier::external_body]
fn json_object(m: JsonMap) -> (v: serde_json::Value)
    ensures
        value_model(v) == JsonVal::JObj(map_model(m)),
{
    serde_json::Value::Object(m)
}

/// Relies on serde_json::Value::String: a JSON string holding exactly the
/// given text.
#[verifier::external_body]
fn json_string(s: &str) -> (v: serde_json::Value)
    ensures
        value_model(v) == JsonVal::JStr(s@),
{
    serde_json::Value::String(s.to_string())
}

/// Relies on serde_json::Value::Array: a JSON array of exactly the given
/// values, in order.
#[verifier::external_body]
fn json_array(items: Vec<serde_json::Value>) -> (v: serde_json::Value)
    ensures
        value_model(v) == JsonVal::JArr(values_model(items@)),
{
    serde_json::Value::Array(items)
}

/// Relies on Display for serde_json::Value (through ToString): the compact
/// JSON text of the value, which depends on its JSON content alone.
#[verifier::external_body]
fn json_to_text(v: &serde_json::Value) -> (r: String)
    ensures
        r@ == json_text(value_model(*v)),
{
    v.to_string()
}

/// `{ "object": "", "relation": <rel> }` — the object/relation record that
/// stands inside every computed userset.
pub open spec fn spec_object_relation(rel: Seq<char>) -> JsonVal {
    JsonVal::JObj(
        Map::<Seq<char>, JsonVal>::empty().insert("object"@, JsonVal::JStr(""@)).insert(
            "relation"@,
            JsonVal::JStr(rel),
        ),
    )
}

/// The single key under which an alias's userset is emitted: `this` for
/// the `self` keyword, `tupleToUserset` when a parent is present, and
/// `computedUserset` otherwise.
pub open spec fn spec_alias_key(a: AliasView) -> Seq<char> {
    match a.kind {
        AliasKindView::This => "this"@,
        AliasKindView::Named(_) => match a.parent {
            Some(_) => "tupleToUserset"@,
            None => "computedUserset"@,
        },
        AliasKindView::Negative(_) => match a.parent {
            Some(_) => "tupleToUserset"@,
            None => "computedUserset"@,
        },
    }
}

/// The userset value an alias lowers to. A `but not` alias lowers like a
/// positive reference: the JSON difference form is not pinned down by the
/// OpenFGA model this serializer targets.
pub open spec fn spec_alias_userset(a: AliasView) -> JsonVal {
    match a.kind {
        AliasKindView::This => JsonVal::JObj(Map::empty()),
        AliasKindView::Named(n) => spec_named_userset(n, a.parent),
        AliasKindView::Negative(n) => spec_named_userset(n, a.parent),
    }
}

/// The userset of a named reference: a `tupleToUserset` record when a
/// parent is traversed, a plain `computedUserset` otherwise.
pub open spec fn spec_named_userset(n: Seq<char>, parent: Option<Seq<char>>) -> JsonVal {
    match parent {
        Some(p) => JsonVal::JObj(
            Map::<Seq<char>, JsonVal>::empty().insert("tupleset"@, spec_object_relation(p)).insert(
                "computedUserset"@,
                spec_object_relation(n),
            ),
        ),
        None => spec_object_relation(n),
    }
}

/// The single-key object `{ <key>: <userset> }` for one alias.
pub open spec fn spec_alias_child(a: AliasView) -> JsonVal {
    JsonVal::JObj(
        Map::<Seq<char>, JsonVal>::empty().insert(spec_alias_key(a), spec_alias_userset(a)),
    )
}

/// The object holding one entry per alias, in order; used for relations
/// with at most one alias.
pub open spec fn spec_alias_content(aliases: Seq<AliasView>) -> Map<Seq<char>, JsonVal>
    decreases aliases.len(),
{
    if aliases.len() == 0 {
        Map::empty()
    } else {
        spec_alias_content(aliases.drop_last()).insert(
            spec_alias_key(aliases.last()),
            spec_alias_userset(aliases.last()),
        )
    }
}

/// The userset value a whole relation lowers to: nothing for no aliases,
/// the direct userset for one, and a `union`/`child` wrapper around the
/// per-alias objects for two or more.
pub open spec fn spec_rel_value(r: RelationView) -> JsonVal {
    if r.aliases.len() <= 1 {
        JsonVal::JObj(spec_alias_content(r.aliases))
    } else {
        JsonVal::JObj(
            Map::<Seq<char>, JsonVal>::empty().insert(
                "union"@,
                JsonVal::JObj(
                    Map::<Seq<char>, JsonVal>::empty().insert(
                        "child"@,
                        JsonVal::JArr(r.aliases.map_values(|a: AliasView| spec_alias_child(a))),
                    ),
                ),
            ),
        )
    }
}

/// The relations object of a type: one entry per relation, keyed by
/// relation name; a later relation of the same name replaces the earlier.
pub open spec fn spec_relations_obj(rels: Seq<RelationView>) -> Map<Seq<char>, JsonVal>
    decreases rels.len(),
{
    if rels.len() == 0 {
        Map::empty()
    } else {
        spec_relations_obj(rels.drop_last()).insert(
            rels.last().kind,
            spec_rel_value(rels.last()),
        )
    }
}

/// `{ "type": <name>, "relations": { ... } }` — the map for one type.
pub open spec fn spec_type_map(t: TypeView) -> Map<Seq<char>, JsonVal> {
    Map::<Seq<char>, JsonVal>::empty().insert("type"@, JsonVal::JStr(t.kind)).insert(
        "relations"@,
        JsonVal::JObj(spec_relations_obj(t.relations)),
    )
}

/// The object for one type.
pub open spec fn spec_type_obj(t: TypeView) -> JsonVal {
    JsonVal::JObj(spec_type_map(t))
}

/// `{ "type_definitions": [ ... ] }` — the root map of a document, with
/// one type object per declared type, in order.
pub open spec fn spec_doc_map(d: DocumentView) -> Map<Seq<char>, JsonVal> {
    Map::<Seq<char>, JsonVal>::empty().insert(
        "type_definitions"@,
        JsonVal::JArr(d.types.map_values(|t: TypeView| spec_type_obj(t))),
    )
}

/// The root value of a document.
pub open spec fn spec_doc_value(d: DocumentView) -> JsonVal {
    JsonVal::JObj(spec_doc_map(d))
}

/// Lowers one alias to its key and userset value. A `but not` alias is
/// emitted like a positive reference (see [`spec_alias_userset`]).
pub fn serialize_alias_obj(alias: &Alias) -> (r: (String, serde_json::Value))
    ensures
        r.0@ == spec_alias_key(alias@),
        value_model(r.1) == spec_alias_userset(alias@),
{
    match &alias.kind {
        AliasKind::This => (String::from_str("this"), json_object(json_map_new())),
        AliasKind::Named(name) => serialize_named_userset(name, &alias.parent),
        AliasKind::Negative(name) => serialize_named_userset(name, &alias.parent),
    }
}

/// Lowers a named reference with its optional parent.
fn serialize_named_userset(name: &String, parent: &Option<String>) -> (r: (
    String,
    serde_json::Value,
))
    ensures
        r.0@ == (if parent is Some {
            "tupleToUserset"@
        } else {
            "computedUserset"@
        }),
        value_model(r.1) == spec_named_userset(
            name@,
            match parent {
                Some(p) => Some(p@),
                None => None,
            },
        ),
{
    match parent {
        Some(p) => {
            let mut m = json_map_new();
            json_map_insert(&mut m, "tupleset", serialize_object_relation(p.as_str()));
            json_map_insert(&mut m, "computedUserset", serialize_object_relation(name.as_str()));
            (String::from_str("tupleToUserset"), json_object(m))
        },
        None => (String::from_str("computedUserset"), serialize_object_relation(name.as_str())),
    }
}

/// Builds `{ "object": "", "relation": <rel> }`.
fn serialize_object_relation(rel: &str) -> (v: serde_json::Value)
    ensures
        value_model(v) == spec_object_relation(rel@),
{
    let mut m = json_map_new();
    json_map_insert(&mut m, "object", json_string(""));
    json_map_insert(&mut m, "relation", json_string(rel));
    json_object(m)
}

proof fn lemma_alias_content_take(aliases: Seq<AliasView>, j: int)
    requires
        0 <= j < aliases.len(),
    ensures
        spec_alias_content(aliases.take(j + 1)) == spec_alias_content(aliases.take(j)).insert(
            spec_alias_key(aliases[j]),
            spec_alias_userset(aliases[j]),
        ),
{
    assert(aliases.take(j + 1).drop_last() =~= aliases.take(j));
    assert(aliases.take(j + 1).last() == aliases[j]);
}

proof fn lemma_relations_obj_take(rels: Seq<RelationView>, i: int)
    requires
        0 <= i < rels.len(),
    ensures
        spec_relations_obj(rels.take(i + 1)) == spec_relations_obj(rels.take(i)).insert(
            rels[i].kind,
            spec_rel_value(rels[i]),
        ),
{
    assert(rels.take(i + 1).drop_last() =~= rels.take(i));
    assert(rels.take(i + 1).last() == rels[i]);
}

/// Lowers a list of relations to the relations object: one entry per
/// relation, keyed by name, in declaration order.
pub fn serialize_relations_obj(relations: &Vec<Relation>) -> (r: JsonMap)
    ensures
        map_model(r) == spec_relations_obj(view_relations(relations@)),
{
    let ghost rv = view_relations(relations@);
    let mut rel_obj = json_map_new();
    let mut i: usize = 0;
    proof {
        assert(rv.take(0) =~= Seq::<RelationView>::empty());
    }
    while i < relations.len()
        invariant
            rv == view_relations(relations@),
            rv.len() == relations@.len(),
            i <= relations.len(),
            map_model(rel_obj) == spec_relations_obj(rv.take(i as int)),
        decreases relations.len() - i,
    {
        let rel = &relations[i];
        proof {
            assert(rel@ == rv[i as int]);
        }
        if rel.aliases.len() <= 1 {
            let ghost av = view_aliases(rel.aliases@);
            let mut rel_content = json_map_new();
            let mut j: usize = 0;
            proof {
                assert(av.take(0) =~= Seq::<AliasView>::empty());
            }
            while j < rel.aliases.len()
                invariant
                    av == view_aliases(rel.aliases@),
                    av.len() == rel.aliases@.len(),
                    j <= rel.aliases.len(),
                    map_model(rel_content) == spec_alias_content(av.take(j as int)),
                decreases rel.aliases.len() - j,
            {
                let kv = serialize_alias_obj(&rel.aliases[j]);
                let (key, obj) = kv;
                json_map_insert(&mut rel_content, key.as_str(), obj);
                proof {
                    assert(rel.aliases@[j as int]@ == av[j as int]);
                    lemma_alias_content_take(av, j as int);
                }
                j = j + 1;
            }
            proof {
                assert(av.take(av.len() as int) =~= av);
            }
            json_map_insert(&mut rel_obj, rel.kind.as_str(), json_object(rel_content));
        } else {
            let ghost av = view_aliases(rel.aliases@);
            let mut children: Vec<serde_json::Value> = Vec::new();
            let mut j: usize = 0;
            while j < rel.aliases.len()
                invariant
                    av == view_aliases(rel.aliases@),
                    av.len() == rel.aliases@.len(),
                    j <= rel.aliases.len(),
                    children@.len() == j,
                    forall|m: int|
                        0 <= m < j ==> value_model(#[trigger] children@[m]) == spec_alias_child(
                            av[m],
                        ),
                decreases rel.aliases.len() - j,
            {
                let kv = serialize_alias_obj(&rel.aliases[j]);
                let (key, obj) = kv;
                let mut child = json_map_new();
                json_map_insert(&mut child, key.as_str(), obj);
                children.push(json_object(child));
                proof {
                    assert(rel.aliases@[j as int]@ == av[j as int]);
                }
                j = j + 1;
            }
            proof {
                assert(values_model(children@) =~= av.map_values(
                    |a: AliasView| spec_alias_child(a),
                ));
            }
            let mut union_inner = json_map_new();
            json_map_insert(&mut union_inner, "child", json_array(children));
            let mut union_obj = json_map_new();
            json_map_insert(&mut union_obj, "union", json_object(union_inner));
            json_map_insert(&mut rel_obj, rel.kind.as_str(), json_object(union_obj));
        }
        proof {
            lemma_relations_obj_take(rv, i as int);
        }
        i = i + 1;
    }
    proof {
        assert(rv.take(rv.len() as int) =~= rv);
    }
    rel_obj
}

/// Lowers one type declaration to its `{ "type": ..., "relations": ... }`
/// object map.
pub fn serialize_type_obj(ty: &Type) -> (r: JsonMap)
    ensures
        map_model(r) == spec_type_map(ty@),
{
    let mut type_obj = json_map_new();
    json_map_insert(&mut type_obj, "type", json_string(ty.kind.as_str()));
    let relations_obj = serialize_relations_obj(&ty.relations);
    json_map_insert(&mut type_obj, "relations", json_object(relations_obj));
    type_obj
}

/// The serializer: borrows a parsed document and renders it as the
/// canonical OpenFGA authorization-model JSON.
pub struct JsonTransformer<'d> {
    doc: &'d Document,
}

impl<'d> JsonTransformer<'d> {
    /// The document this serializer reads.
    pub closed spec fn doc_view(self) -> DocumentView {
        self.doc@
    }

    pub fn new(doc: &'d Document) -> (r: JsonTransformer<'d>)
        ensures
            r.doc_view() == doc@,
    {
        JsonTransformer { doc }
    }

    /// Builds the root object map: `type_definitions` holding one type
    /// object per declared type, in order.
    pub fn to_json_map(self) -> (r: JsonMap)
        ensures
            map_model(r) == spec_doc_map(self.doc_view()),
    {
        let ghost dv = self.doc_view();
        let mut root = json_map_new();
        let mut types: Vec<serde_json::Value> = Vec::new();
        let mut i: usize = 0;
        while i < self.doc.types.len()
            invariant
                dv == self.doc_view(),
                dv.types.len() == self.doc.types@.len(),
                i <= self.doc.types.len(),
                types@.len() == i,
                forall|m: int|
                    0 <= m < i ==> value_model(#[trigger] types@[m]) == spec_type_obj(
                        dv.types[m],
                    ),
            decreases self.doc.types.len() - i,
        {
            let type_obj = serialize_type_obj(&self.doc.types[i]);
            types.push(json_object(type_obj));
            proof {
                assert(self.doc.types@[i as int]@ == dv.types[i as int]);
            }
            i = i + 1;
        }
        proof {
            assert(values_model(types@) =~= dv.types.map_values(|t: TypeView| spec_type_obj(t)));
        }
        json_map_insert(&mut root, "type_definitions", json_array(types));
        root
    }

    /// Renders the document as compact JSON text. The text is a function
    /// of the document alone: serialization is deterministic.
    pub fn serialize(self) -> (r: String)
        ensures
            r@ == json_text(spec_doc_value(self.doc_view())),
    {
        let ghost dv = self.doc_view();
        let map = self.to_json_map();
        let v = json_object(map);
        json_to_text(&v)
    }
}


/// For every document, the serialized value is an object whose
/// `type_definitions` entry is an array with exactly one element per
/// declared type, in declaration order: the lowering of that type.
pub proof fn lemma_doc_value_shape(d: DocumentView)
    ensures
        spec_doc_value(d) == JsonVal::JObj(spec_doc_map(d)),
        spec_doc_map(d).contains_key("type_definitions"@),
        spec_doc_map(d)["type_definitions"@] matches JsonVal::JArr(arr) && arr.len()
            == d.types.len() && (forall|i: int|
            0 <= i < d.types.len() ==> arr[i] == spec_type_obj(#[trigger] d.types[i])),
{
}

/// A relation with exactly one alias serializes to the direct userset of
/// that alias, under that alias's single key.
pub proof fn lemma_single_alias_direct(r: RelationView)
    requires
        r.aliases.len() == 1,
    ensures
        spec_rel_value(r) == JsonVal::JObj(
            empty_obj().insert(spec_alias_key(r.aliases[0]), spec_alias_userset(r.aliases[0])),
        ),
{
    assert(r.aliases.drop_last() =~= Seq::<AliasView>::empty());
    assert(spec_alias_content(r.aliases.drop_last()) =~= empty_obj());
    assert(r.aliases.last() == r.aliases[0]);
}

/// A relation with two or more aliases serializes to a `union` whose
/// `child` array holds exactly one single-key object per alias, in alias
/// order.
pub proof fn lemma_union_shape(r: RelationView)
    requires
        r.aliases.len() >= 2,
    ensures
        spec_rel_value(r) matches JsonVal::JObj(m) && m.contains_key("union"@) && (
        m["union"@] matches JsonVal::JObj(u) && u.contains_key("child"@) && (
        u["child"@] matches JsonVal::JArr(c) && c.len() == r.aliases.len() && (forall|i: int|
            0 <= i < r.aliases.len() ==> c[i] == spec_alias_child(#[trigger] r.aliases[i])))),
{
}

/// What the whole pipeline yields for a source text: the serialized JSON
/// text of the parsed document, or the parse error.
pub open spec fn json_of(src: Seq<char>) -> Result<Seq<char>, crate::parser::ParserError> {
    match crate::parser::document_of(src) {
        Ok(d) => Ok(json_text(spec_doc_value(d))),
        Err(e) => Err(e),
    }
}

/// Inserting whitespace between tokens changes neither the parsed
/// document nor the serialized JSON text.
pub proof fn lemma_json_ws_insensitive(a: Seq<char>, w: Seq<char>, b: Seq<char>)
    requires
        forall|i: int|
            0 <= i < w.len() ==> crate::lexer::unicode_whitespace(#[trigger] w[i])
                && !crate::lexer::is_text_char(w[i]),
        !(a.len() > 0 && b.len() > 0 && crate::lexer::is_text_char(a.last())
            && crate::lexer::is_text_char(b.first())),
    ensures
        json_of(a + w + b) == json_of(a + b),
{
    crate::parser::lemma_parse_ws_insensitive(a, w, b);
}

} // verus!
