use openfga_dsl_parser::ast::{Alias, AliasKind, Document, Relation, Type};
use openfga_dsl_parser::json::{serialize_relations_obj, JsonTransformer};
use serde_json::Value;

fn val(s: &str) -> Value {
    serde_json::from_str(s).unwrap()
}

#[test]
fn mod_basic_single_type() {
    let i = Document {
        types: vec![Type {
            kind: String::from("foo"),
            relations: Vec::new(),
        }],
    };
    let exp = val(
        r#"{
            "type_definitions": [
                {
                    "type": "foo",
                    "relations": {}
                }
            ]
        }"#,
    );
    let res = JsonTransformer::new(&i).to_json_map();
    assert_eq!(Value::Object(res), exp);
}

#[test]
fn mod_basic_self_relation() {
    let i = vec![Relation {
        kind: "foo".into(),
        aliases: vec![Alias {
            kind: AliasKind::This,
            parent: None,
        }],
    }];
    let exp = val(
        r#"{
            "foo": {
                "this": {}
            }
        }"#,
    );
    let res = serialize_relations_obj(&i);
    assert_eq!(exp, Value::Object(res));
}

#[test]
fn mod_basic_single_alias_relation() {
    let i = vec![Relation {
        kind: "foo".into(),
        aliases: vec![Alias {
            kind: AliasKind::Named("bar".into()),
            parent: None,
        }],
    }];
    let exp = val(
        r#"{
            "foo": {
                "computedUserset": {
                    "object": "",
                    "relation": "bar"
                }
            }
        }"#,
    );
    let res = serialize_relations_obj(&i);
    assert_eq!(exp, Value::Object(res));
}

#[test]
fn mod_self_plus_single_alias_relation() {
    let i = vec![Relation {
        kind: "foo".into(),
        aliases: vec![
            Alias {
                kind: AliasKind::This,
                parent: None,
            },
            Alias {
                kind: AliasKind::Named("bar".into()),
                parent: None,
            },
        ],
    }];
    let exp = val(
        r#"{
            "foo": {
                "union": {
                    "child": [
                        {
                            "this": {}
                        },
                        {
                            "computedUserset": {
                                "object": "",
                                "relation": "bar"
                            }
                        }
                    ]
                }
            }
        }"#,
    );
    let res = serialize_relations_obj(&i);
    assert_eq!(exp, Value::Object(res));
}

#[test]
fn alias_relation_with_parent() {
    let i = vec![Relation {
        kind: "foo".into(),
        aliases: vec![Alias {
            kind: AliasKind::Named("bar".into()),
            parent: Some("parent".into()),
        }],
    }];
    let exp = val(
        r#"{
            "foo": {
                "tupleToUserset": {
                    "tupleset": {
                        "object": "",
                        "relation": "parent"
                    },
                    "computedUserset": {
                        "object": "",
                        "relation": "bar"
                    }
                }
            }
        }"#,
    );
    let res = serialize_relations_obj(&i);
    assert_eq!(exp, Value::Object(res));
}

#[test]
fn big_one() {
    let i = Document {
        types: vec![
            Type {
                kind: "domain".into(),
                relations: vec![Relation {
                    kind: "member".into(),
                    aliases: vec![Alias {
                        kind: AliasKind::This,
                        parent: None,
                    }],
                }],
            },
            Type {
                kind: "folder".into(),
                relations: vec![
                    Relation {
                        kind: "can_share".into(),
                        aliases: vec![Alias {
                            kind: AliasKind::Named("writer".into()),
                            parent: None,
                        }],
                    },
                    Relation {
                        kind: "owner".into(),
                        aliases: vec![
                            Alias {
                                kind: AliasKind::This,
                                parent: None,
                            },
                            Alias {
                                kind: AliasKind::Named("owner".into()),
                                parent: Some("parent_folder".into()),
                            },
                        ],
                    },
                ],
            },
        ],
    };

    let exp = val(
        r#"{
            "type_definitions": [{
                    "type": "domain",
                    "relations": {
                        "member": {
                            "this": {}
                        }
                    }
                },
                {
                    "type": "folder",
                    "relations": {
                        "can_share": {
                            "computedUserset": {
                                "object": "",
                                "relation": "writer"
                            }
                        },
                        "owner": {
                            "union": {
                                "child": [{
                                        "this": {}
                                    },
                                    {
                                        "tupleToUserset": {
                                            "tupleset": {
                                                "object": "",
                                                "relation": "parent_folder"
                                            },
                                            "computedUserset": {
                                                "object": "",
                                                "relation": "owner"
                                            }
                                        }
                                    }
                                ]
                            }
                        }
                    }
                }
            ]
        }"#,
    );

    let res = JsonTransformer::new(&i).to_json_map();
    assert_eq!(exp, Value::Object(res));
}
