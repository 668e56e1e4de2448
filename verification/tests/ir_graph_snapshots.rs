//! Snapshot tests of the reconciled type graph: each builds the parsed
//! declarations of a small crate by hand and compares the pretty JSON of the
//! graph.

use typeshare_core::input::{
    Id, ParsedData, RustConst, RustEnum, RustEnumShared, RustEnumVariant, RustEnumVariantShared,
    RustField, RustStruct, RustType, RustTypeAlias, SpecialRustType,
};
use typeshare_core::ir::model::IrGraph;

fn id(original: &str, renamed: &str, serde_rename: bool) -> Id {
    Id { original: original.to_string(), renamed: renamed.to_string(), serde_rename }
}

fn same(name: &str) -> Id {
    id(name, name, false)
}

fn named(name: &str) -> RustType {
    RustType::Simple { id: name.to_string() }
}

fn builtin(name: &str) -> RustType {
    RustType::Special(SpecialRustType::Builtin(name.to_string()))
}

fn generic(name: &str, parameters: Vec<RustType>) -> RustType {
    RustType::Generic { id: name.to_string(), parameters }
}

fn vec_of(inner: RustType) -> RustType {
    RustType::Special(SpecialRustType::Vec(Box::new(inner)))
}

fn field(ident: Id, ty: RustType) -> RustField {
    RustField { id: ident, ty }
}

fn strings(values: &[&str]) -> Vec<String> {
    values.iter().map(|v| v.to_string()).collect()
}

fn structure(ident: Id, module: &[&str], generics: &[&str], fields: Vec<RustField>) -> RustStruct {
    RustStruct { id: ident, module: strings(module), generic_types: strings(generics), fields }
}

fn data(aliases: Vec<RustTypeAlias>, structs: Vec<RustStruct>, enums: Vec<RustEnum>, consts: Vec<RustConst>) -> ParsedData {
    ParsedData { aliases, structs, enums, consts }
}

fn render(crate_name: &str, parsed: ParsedData) -> String {
    IrGraph::from_reconciled(&vec![(crate_name.to_string(), parsed)]).to_json_pretty()
}

#[test]
fn rename_all_and_field_rename() {
    const EXPECTED: &str = r#"{
  "nodes": [
    {
      "key": "rename_crate::PersonRecord",
      "kind": "struct",
      "original": "PersonRecord",
      "renamed": "PersonRecord",
      "serde_rename": false,
      "crate": "rename_crate",
      "module": [],
      "generic_params": [],
      "fields": [
        {
          "original": "first_name",
          "renamed": "firstName",
          "serde_rename": false,
          "ty": "String"
        },
        {
          "original": "last_name",
          "renamed": "lastName",
          "serde_rename": false,
          "ty": "String"
        },
        {
          "original": "email_address",
          "renamed": "EMAIL",
          "serde_rename": true,
          "ty": "String"
        },
        {
          "original": "age_years",
          "renamed": "ageYears",
          "serde_rename": false,
          "ty": "u32"
        }
      ]
    }
  ],
  "edges": [],
  "sccs": [],
  "topo_groups": [
    {
      "level": 0,
      "members": [
        "rename_crate::PersonRecord"
      ]
    }
  ],
  "diagnostics": []
}
"#;
    let parsed = data(
        vec![],
        vec![structure(
            same("PersonRecord"),
            &[],
            &[],
            vec![
                field(id("first_name", "firstName", false), builtin("String")),
                field(id("last_name", "lastName", false), builtin("String")),
                field(id("email_address", "EMAIL", true), builtin("String")),
                field(id("age_years", "ageYears", false), builtin("u32")),
            ],
        )],
        vec![],
        vec![],
    );
    assert_eq!(render("rename_crate", parsed), EXPECTED);
}

#[test]
fn skipped_fields_are_absent() {
    const EXPECTED: &str = r#"{
  "nodes": [
    {
      "key": "skip_crate::VisibleRecord",
      "kind": "struct",
      "original": "VisibleRecord",
      "renamed": "VisibleRecord",
      "serde_rename": false,
      "crate": "skip_crate",
      "module": [],
      "generic_params": [],
      "fields": [
        {
          "original": "visible_field",
          "renamed": "visibleField",
          "serde_rename": false,
          "ty": "String"
        }
      ]
    }
  ],
  "edges": [],
  "sccs": [],
  "topo_groups": [
    {
      "level": 0,
      "members": [
        "skip_crate::VisibleRecord"
      ]
    }
  ],
  "diagnostics": []
}
"#;
    let parsed = data(
        vec![],
        vec![structure(
            same("VisibleRecord"),
            &[],
            &[],
            vec![field(id("visible_field", "visibleField", false), builtin("String"))],
        )],
        vec![],
        vec![],
    );
    assert_eq!(render("skip_crate", parsed), EXPECTED);
}

#[test]
fn adjacently_tagged_enum() {
    const EXPECTED: &str = r#"{
  "nodes": [
    {
      "key": "tagged_crate::Event",
      "kind": "enum",
      "original": "Event",
      "renamed": "Event",
      "serde_rename": false,
      "crate": "tagged_crate",
      "module": [],
      "generic_params": [],
      "enum_repr": {
        "tagging": "adjacently_tagged",
        "tag": "type",
        "content": "data"
      },
      "variants": [
        {
          "original": "Created",
          "renamed": "created",
          "serde_rename": false,
          "payload": "anonymous_struct",
          "payload_fields": [
            {
              "original": "id",
              "renamed": "id",
              "serde_rename": false,
              "ty": "u32"
            },
            {
              "original": "actor_name",
              "renamed": "actor_name",
              "serde_rename": false,
              "ty": "String"
            }
          ]
        },
        {
          "original": "Updated",
          "renamed": "updated",
          "serde_rename": false,
          "payload": "tuple",
          "payload_ty": "u32"
        },
        {
          "original": "Closed",
          "renamed": "closed",
          "serde_rename": false,
          "payload": "unit"
        }
      ]
    }
  ],
  "edges": [],
  "sccs": [],
  "topo_groups": [
    {
      "level": 0,
      "members": [
        "tagged_crate::Event"
      ]
    }
  ],
  "diagnostics": []
}
"#;
    let variants = vec![
        RustEnumVariant::AnonymousStruct {
            fields: vec![field(same("id"), builtin("u32")), field(same("actor_name"), builtin("String"))],
            shared: RustEnumVariantShared { id: id("Created", "created", false) },
        },
        RustEnumVariant::Tuple { ty: builtin("u32"), shared: RustEnumVariantShared { id: id("Updated", "updated", false) } },
        RustEnumVariant::Unit(RustEnumVariantShared { id: id("Closed", "closed", false) }),
    ];
    let event = RustEnum::Algebraic {
        tag_key: "type".to_string(),
        content_key: "data".to_string(),
        shared: RustEnumShared { id: same("Event"), module: vec![], generic_types: vec![], variants, is_recursive: false },
    };
    let parsed = data(vec![], vec![], vec![event], vec![]);
    assert_eq!(render("tagged_crate", parsed), EXPECTED);
}

#[test]
fn recursive_type_is_marked_and_self_edge() {
    const EXPECTED: &str = r#"{
  "nodes": [
    {
      "key": "rec_crate::Tree",
      "kind": "enum",
      "original": "Tree",
      "renamed": "Tree",
      "serde_rename": false,
      "crate": "rec_crate",
      "module": [],
      "generic_params": [],
      "enum_repr": {
        "tagging": "adjacently_tagged",
        "tag": "type",
        "content": "data"
      },
      "is_recursive": true,
      "variants": [
        {
          "original": "Leaf",
          "renamed": "Leaf",
          "serde_rename": false,
          "payload": "tuple",
          "payload_ty": "u32"
        },
        {
          "original": "Node",
          "renamed": "Node",
          "serde_rename": false,
          "payload": "tuple",
          "payload_ty": "Tree"
        }
      ]
    }
  ],
  "edges": [
    {
      "from": "rec_crate::Tree",
      "to": "rec_crate::Tree",
      "from_module": [],
      "to_module": [],
      "to_original": "Tree",
      "to_renamed": "Tree",
      "site": "tuple_variant:Node",
      "via_rename_reconcile": false
    }
  ],
  "sccs": [
    {
      "members": [
        "rec_crate::Tree"
      ],
      "edges": [
        [
          "rec_crate::Tree",
          "rec_crate::Tree"
        ]
      ],
      "induced_by_rename": false
    }
  ],
  "topo_groups": [
    {
      "level": 0,
      "members": [
        "rec_crate::Tree"
      ]
    }
  ],
  "diagnostics": []
}
"#;
    let variants = vec![
        RustEnumVariant::Tuple { ty: builtin("u32"), shared: RustEnumVariantShared { id: same("Leaf") } },
        RustEnumVariant::Tuple { ty: named("Tree"), shared: RustEnumVariantShared { id: same("Node") } },
    ];
    let tree = RustEnum::Algebraic {
        tag_key: "type".to_string(),
        content_key: "data".to_string(),
        shared: RustEnumShared { id: same("Tree"), module: vec![], generic_types: vec![], variants, is_recursive: true },
    };
    let parsed = data(vec![], vec![], vec![tree], vec![]);
    assert_eq!(render("rec_crate", parsed), EXPECTED);
}

#[test]
fn mutual_recursion_is_a_stable_scc_not_a_toposort_error() {
    const EXPECTED: &str = r#"{
  "nodes": [
    {
      "key": "scc_crate::Child",
      "kind": "struct",
      "original": "Child",
      "renamed": "Child",
      "serde_rename": false,
      "crate": "scc_crate",
      "module": [],
      "generic_params": [],
      "fields": [
        {
          "original": "parent",
          "renamed": "parent",
          "serde_rename": false,
          "ty": "Parent"
        },
        {
          "original": "kind",
          "renamed": "kind",
          "serde_rename": false,
          "ty": "u8"
        }
      ]
    },
    {
      "key": "scc_crate::Parent",
      "kind": "struct",
      "original": "Parent",
      "renamed": "Parent",
      "serde_rename": false,
      "crate": "scc_crate",
      "module": [],
      "generic_params": [],
      "fields": [
        {
          "original": "children",
          "renamed": "children",
          "serde_rename": false,
          "ty": "Vec<Child>"
        },
        {
          "original": "name",
          "renamed": "name",
          "serde_rename": false,
          "ty": "String"
        }
      ]
    },
    {
      "key": "scc_crate::Root",
      "kind": "struct",
      "original": "Root",
      "renamed": "Root",
      "serde_rename": false,
      "crate": "scc_crate",
      "module": [],
      "generic_params": [],
      "fields": [
        {
          "original": "first",
          "renamed": "first",
          "serde_rename": false,
          "ty": "Parent"
        },
        {
          "original": "note",
          "renamed": "note",
          "serde_rename": false,
          "ty": "String"
        }
      ]
    }
  ],
  "edges": [
    {
      "from": "scc_crate::Child",
      "to": "scc_crate::Parent",
      "from_module": [],
      "to_module": [],
      "to_original": "Parent",
      "to_renamed": "Parent",
      "site": "field:parent",
      "via_rename_reconcile": false
    },
    {
      "from": "scc_crate::Parent",
      "to": "scc_crate::Child",
      "from_module": [],
      "to_module": [],
      "to_original": "Child",
      "to_renamed": "Child",
      "site": "field:children",
      "via_rename_reconcile": false
    },
    {
      "from": "scc_crate::Root",
      "to": "scc_crate::Parent",
      "from_module": [],
      "to_module": [],
      "to_original": "Parent",
      "to_renamed": "Parent",
      "site": "field:first",
      "via_rename_reconcile": false
    }
  ],
  "sccs": [
    {
      "members": [
        "scc_crate::Child",
        "scc_crate::Parent"
      ],
      "edges": [
        [
          "scc_crate::Child",
          "scc_crate::Parent"
        ],
        [
          "scc_crate::Parent",
          "scc_crate::Child"
        ]
      ],
      "induced_by_rename": false
    }
  ],
  "topo_groups": [
    {
      "level": 0,
      "members": [
        "scc_crate::Child",
        "scc_crate::Parent"
      ]
    },
    {
      "level": 1,
      "members": [
        "scc_crate::Root"
      ]
    }
  ],
  "diagnostics": []
}
"#;
    let parsed = data(
        vec![],
        vec![
            structure(same("Child"), &[], &[], vec![field(same("parent"), named("Parent")), field(same("kind"), builtin("u8"))]),
            structure(same("Parent"), &[], &[], vec![field(same("children"), vec_of(named("Child"))), field(same("name"), builtin("String"))]),
            structure(same("Root"), &[], &[], vec![field(same("first"), named("Parent")), field(same("note"), builtin("String"))]),
        ],
        vec![],
        vec![],
    );
    assert_eq!(render("scc_crate", parsed), EXPECTED);
}

#[test]
fn generic_alias_and_generic_instantiation_edges() {
    const EXPECTED: &str = r#"{
  "nodes": [
    {
      "key": "generic_crate::Holder",
      "kind": "struct",
      "original": "Holder",
      "renamed": "Holder",
      "serde_rename": false,
      "crate": "generic_crate",
      "module": [],
      "generic_params": [],
      "fields": [
        {
          "original": "a",
          "renamed": "a",
          "serde_rename": false,
          "ty": "Wrapper<Inner>"
        },
        {
          "original": "b",
          "renamed": "b",
          "serde_rename": false,
          "ty": "Wrapper<u32>"
        }
      ]
    },
    {
      "key": "generic_crate::Inner",
      "kind": "struct",
      "original": "Inner",
      "renamed": "Inner",
      "serde_rename": false,
      "crate": "generic_crate",
      "module": [],
      "generic_params": [],
      "fields": [
        {
          "original": "value",
          "renamed": "value",
          "serde_rename": false,
          "ty": "u32"
        }
      ]
    },
    {
      "key": "generic_crate::Wrapper",
      "kind": "alias",
      "original": "Wrapper",
      "renamed": "Wrapper",
      "serde_rename": false,
      "crate": "generic_crate",
      "module": [],
      "generic_params": [
        {
          "name": "T",
          "index": 0
        }
      ],
      "aliased_type": "Vec<T>"
    }
  ],
  "edges": [
    {
      "from": "generic_crate::Holder",
      "to": "generic_crate::Inner",
      "from_module": [],
      "to_module": [],
      "to_original": "Inner",
      "to_renamed": "Inner",
      "site": "field:a",
      "via_rename_reconcile": false
    },
    {
      "from": "generic_crate::Holder",
      "to": "generic_crate::Wrapper",
      "from_module": [],
      "to_module": [],
      "to_original": "Wrapper",
      "to_renamed": "Wrapper",
      "site": "field:a",
      "via_rename_reconcile": false
    },
    {
      "from": "generic_crate::Holder",
      "to": "generic_crate::Wrapper",
      "from_module": [],
      "to_module": [],
      "to_original": "Wrapper",
      "to_renamed": "Wrapper",
      "site": "field:b",
      "via_rename_reconcile": false
    }
  ],
  "sccs": [],
  "topo_groups": [
    {
      "level": 0,
      "members": [
        "generic_crate::Wrapper",
        "generic_crate::Inner"
      ]
    },
    {
      "level": 1,
      "members": [
        "generic_crate::Holder"
      ]
    }
  ],
  "diagnostics": []
}
"#;
    let wrapper = RustTypeAlias { id: same("Wrapper"), module: vec![], generic_types: strings(&["T"]), ty: vec_of(named("T")) };
    let parsed = data(
        vec![wrapper],
        vec![
            structure(
                same("Holder"),
                &[],
                &[],
                vec![
                    field(same("a"), generic("Wrapper", vec![named("Inner")])),
                    field(same("b"), generic("Wrapper", vec![builtin("u32")])),
                ],
            ),
            structure(same("Inner"), &[], &[], vec![field(same("value"), builtin("u32"))]),
        ],
        vec![],
        vec![],
    );
    assert_eq!(render("generic_crate", parsed), EXPECTED);
}

#[test]
fn same_name_different_modules_gets_distinct_identities() {
    const EXPECTED: &str = r#"{
  "nodes": [
    {
      "key": "module_crate::Registry",
      "kind": "struct",
      "original": "Registry",
      "renamed": "Registry",
      "serde_rename": false,
      "crate": "module_crate",
      "module": [],
      "generic_params": [],
      "fields": [
        {
          "original": "billing",
          "renamed": "billing",
          "serde_rename": false,
          "ty": "Account"
        },
        {
          "original": "identity",
          "renamed": "identity",
          "serde_rename": false,
          "ty": "Account"
        }
      ]
    },
    {
      "key": "module_crate::billing::Account",
      "kind": "struct",
      "original": "Account",
      "renamed": "Account",
      "serde_rename": false,
      "crate": "module_crate",
      "module": [
        "billing"
      ],
      "generic_params": [],
      "fields": [
        {
          "original": "balance",
          "renamed": "balance",
          "serde_rename": false,
          "ty": "u32"
        }
      ]
    },
    {
      "key": "module_crate::identity::Account",
      "kind": "struct",
      "original": "Account",
      "renamed": "Account",
      "serde_rename": false,
      "crate": "module_crate",
      "module": [
        "identity"
      ],
      "generic_params": [],
      "fields": [
        {
          "original": "display_name",
          "renamed": "display_name",
          "serde_rename": false,
          "ty": "String"
        }
      ]
    }
  ],
  "edges": [],
  "sccs": [],
  "topo_groups": [
    {
      "level": 0,
      "members": [
        "module_crate::billing::Account",
        "module_crate::identity::Account",
        "module_crate::Registry"
      ]
    }
  ],
  "diagnostics": [
    {
      "kind": "same_name_different_module",
      "message": "type `Account` is declared in multiple modules: billing::Account, identity::Account; identity is resolved as crate + module + original name",
      "nodes": [
        "module_crate::billing::Account",
        "module_crate::identity::Account"
      ]
    },
    {
      "kind": "serialized_name_conflict",
      "message": "serialized name `Account` is produced by multiple declarations: billing::Account, identity::Account; generated and wire identities collide",
      "nodes": [
        "module_crate::billing::Account",
        "module_crate::identity::Account"
      ]
    }
  ]
}
"#;
    let parsed = data(
        vec![],
        vec![
            structure(same("Account"), &["billing"], &[], vec![field(same("balance"), builtin("u32"))]),
            structure(same("Account"), &["identity"], &[], vec![field(same("display_name"), builtin("String"))]),
            structure(same("Registry"), &[], &[], vec![field(same("billing"), named("Account")), field(same("identity"), named("Account"))]),
        ],
        vec![],
        vec![],
    );
    assert_eq!(render("module_crate", parsed), EXPECTED);
}

#[test]
fn serialized_name_conflict_is_diagnosed() {
    const EXPECTED: &str = r#"{
  "nodes": [
    {
      "key": "wire_crate::Alpha",
      "kind": "struct",
      "original": "Alpha",
      "renamed": "SharedWireName",
      "serde_rename": true,
      "crate": "wire_crate",
      "module": [],
      "generic_params": [],
      "fields": [
        {
          "original": "value",
          "renamed": "value",
          "serde_rename": false,
          "ty": "u32"
        }
      ]
    },
    {
      "key": "wire_crate::Beta",
      "kind": "struct",
      "original": "Beta",
      "renamed": "SharedWireName",
      "serde_rename": true,
      "crate": "wire_crate",
      "module": [],
      "generic_params": [],
      "fields": [
        {
          "original": "other",
          "renamed": "other",
          "serde_rename": false,
          "ty": "String"
        }
      ]
    }
  ],
  "edges": [],
  "sccs": [],
  "topo_groups": [
    {
      "level": 0,
      "members": [
        "wire_crate::Alpha",
        "wire_crate::Beta"
      ]
    }
  ],
  "diagnostics": [
    {
      "kind": "serialized_name_conflict",
      "message": "serialized name `SharedWireName` is produced by multiple declarations: Alpha, Beta; generated and wire identities collide",
      "nodes": [
        "wire_crate::Alpha",
        "wire_crate::Beta"
      ]
    }
  ]
}
"#;
    let parsed = data(
        vec![],
        vec![
            structure(id("Alpha", "SharedWireName", true), &[], &[], vec![field(same("value"), builtin("u32"))]),
            structure(id("Beta", "SharedWireName", true), &[], &[], vec![field(same("other"), builtin("String"))]),
        ],
        vec![],
        vec![],
    );
    assert_eq!(render("wire_crate", parsed), EXPECTED);
}

#[test]
fn rename_reconcile_and_rename_induced_cycle() {
    const EXPECTED: &str = r#"{
  "nodes": [
    {
      "key": "rename_cycle_crate::OldLeftName",
      "kind": "struct",
      "original": "OldLeftName",
      "renamed": "WireLeft",
      "serde_rename": true,
      "crate": "rename_cycle_crate",
      "module": [],
      "generic_params": [],
      "fields": [
        {
          "original": "points_to",
          "renamed": "points_to",
          "serde_rename": false,
          "ty": "WireRight"
        }
      ]
    },
    {
      "key": "rename_cycle_crate::OldRightName",
      "kind": "struct",
      "original": "OldRightName",
      "renamed": "WireRight",
      "serde_rename": true,
      "crate": "rename_cycle_crate",
      "module": [],
      "generic_params": [],
      "fields": [
        {
          "original": "points_back",
          "renamed": "points_back",
          "serde_rename": false,
          "ty": "WireLeft"
        }
      ]
    }
  ],
  "edges": [
    {
      "from": "rename_cycle_crate::OldLeftName",
      "to": "rename_cycle_crate::OldRightName",
      "from_module": [],
      "to_module": [],
      "to_original": "OldRightName",
      "to_renamed": "WireRight",
      "site": "field:points_to",
      "via_rename_reconcile": true
    },
    {
      "from": "rename_cycle_crate::OldRightName",
      "to": "rename_cycle_crate::OldLeftName",
      "from_module": [],
      "to_module": [],
      "to_original": "OldLeftName",
      "to_renamed": "WireLeft",
      "site": "field:points_back",
      "via_rename_reconcile": true
    }
  ],
  "sccs": [
    {
      "members": [
        "rename_cycle_crate::OldLeftName",
        "rename_cycle_crate::OldRightName"
      ],
      "edges": [
        [
          "rename_cycle_crate::OldLeftName",
          "rename_cycle_crate::OldRightName"
        ],
        [
          "rename_cycle_crate::OldRightName",
          "rename_cycle_crate::OldLeftName"
        ]
      ],
      "induced_by_rename": true
    }
  ],
  "topo_groups": [
    {
      "level": 0,
      "members": [
        "rename_cycle_crate::OldLeftName",
        "rename_cycle_crate::OldRightName"
      ]
    }
  ],
  "diagnostics": [
    {
      "kind": "rename_cycle",
      "message": "strongly connected group [rename_cycle_crate::OldLeftName, rename_cycle_crate::OldRightName] contains a reference rewritten by `serde(rename)`; the cycle is emitted as an SCC with backend-chosen forward declarations",
      "nodes": [
        "rename_cycle_crate::OldLeftName",
        "rename_cycle_crate::OldRightName"
      ]
    }
  ]
}
"#;
    let parsed = data(
        vec![],
        vec![
            structure(id("OldLeftName", "WireLeft", true), &[], &[], vec![field(same("points_to"), named("WireRight"))]),
            structure(id("OldRightName", "WireRight", true), &[], &[], vec![field(same("points_back"), named("WireLeft"))]),
        ],
        vec![],
        vec![],
    );
    assert_eq!(render("rename_cycle_crate", parsed), EXPECTED);
}

#[test]
fn generic_parameter_shadowing_is_diagnosed() {
    const EXPECTED: &str = r#"{
  "nodes": [
    {
      "key": "shadow_crate::BoxOf",
      "kind": "struct",
      "original": "BoxOf",
      "renamed": "BoxOf",
      "serde_rename": false,
      "crate": "shadow_crate",
      "module": [],
      "generic_params": [
        {
          "name": "Thing",
          "index": 0
        }
      ],
      "fields": [
        {
          "original": "item",
          "renamed": "item",
          "serde_rename": false,
          "ty": "Thing"
        }
      ]
    },
    {
      "key": "shadow_crate::PlainHolder",
      "kind": "struct",
      "original": "PlainHolder",
      "renamed": "PlainHolder",
      "serde_rename": false,
      "crate": "shadow_crate",
      "module": [],
      "generic_params": [
        {
          "name": "Item",
          "index": 0
        }
      ],
      "fields": [
        {
          "original": "item",
          "renamed": "item",
          "serde_rename": false,
          "ty": "Item"
        },
        {
          "original": "thing",
          "renamed": "thing",
          "serde_rename": false,
          "ty": "Thing"
        }
      ]
    },
    {
      "key": "shadow_crate::Thing",
      "kind": "struct",
      "original": "Thing",
      "renamed": "Thing",
      "serde_rename": false,
      "crate": "shadow_crate",
      "module": [],
      "generic_params": [],
      "fields": [
        {
          "original": "value",
          "renamed": "value",
          "serde_rename": false,
          "ty": "u32"
        }
      ]
    }
  ],
  "edges": [
    {
      "from": "shadow_crate::PlainHolder",
      "to": "shadow_crate::Thing",
      "from_module": [],
      "to_module": [],
      "to_original": "Thing",
      "to_renamed": "Thing",
      "site": "field:thing",
      "via_rename_reconcile": false
    }
  ],
  "sccs": [],
  "topo_groups": [
    {
      "level": 0,
      "members": [
        "shadow_crate::BoxOf",
        "shadow_crate::Thing"
      ]
    },
    {
      "level": 1,
      "members": [
        "shadow_crate::PlainHolder"
      ]
    }
  ],
  "diagnostics": [
    {
      "kind": "generic_shadowing",
      "message": "generic parameter `Thing` of `BoxOf` shadows a named type; occurrences of `Thing` inside this item resolve to the parameter, not the shadowed type",
      "nodes": [
        "shadow_crate::BoxOf"
      ]
    }
  ]
}
"#;
    let parsed = data(
        vec![],
        vec![
            structure(same("BoxOf"), &[], &["Thing"], vec![field(same("item"), named("Thing"))]),
            structure(same("PlainHolder"), &[], &["Item"], vec![field(same("item"), named("Item")), field(same("thing"), named("Thing"))]),
            structure(same("Thing"), &[], &[], vec![field(same("value"), builtin("u32"))]),
        ],
        vec![],
        vec![],
    );
    assert_eq!(render("shadow_crate", parsed), EXPECTED);
}

#[test]
fn dependency_edges_drive_topological_groups() {
    const EXPECTED: &str = r#"{
  "nodes": [
    {
      "key": "topo_crate::Branch",
      "kind": "struct",
      "original": "Branch",
      "renamed": "Branch",
      "serde_rename": false,
      "crate": "topo_crate",
      "module": [],
      "generic_params": [],
      "fields": [
        {
          "original": "leaves",
          "renamed": "leaves",
          "serde_rename": false,
          "ty": "Vec<Leaf>"
        }
      ]
    },
    {
      "key": "topo_crate::Leaf",
      "kind": "struct",
      "original": "Leaf",
      "renamed": "Leaf",
      "serde_rename": false,
      "crate": "topo_crate",
      "module": [],
      "generic_params": [],
      "fields": [
        {
          "original": "label",
          "renamed": "label",
          "serde_rename": false,
          "ty": "String"
        }
      ]
    },
    {
      "key": "topo_crate::Trunk",
      "kind": "struct",
      "original": "Trunk",
      "renamed": "Trunk",
      "serde_rename": false,
      "crate": "topo_crate",
      "module": [],
      "generic_params": [],
      "fields": [
        {
          "original": "branch",
          "renamed": "branch",
          "serde_rename": false,
          "ty": "Branch"
        },
        {
          "original": "leaf",
          "renamed": "leaf",
          "serde_rename": false,
          "ty": "Leaf"
        }
      ]
    }
  ],
  "edges": [
    {
      "from": "topo_crate::Branch",
      "to": "topo_crate::Leaf",
      "from_module": [],
      "to_module": [],
      "to_original": "Leaf",
      "to_renamed": "Leaf",
      "site": "field:leaves",
      "via_rename_reconcile": false
    },
    {
      "from": "topo_crate::Trunk",
      "to": "topo_crate::Branch",
      "from_module": [],
      "to_module": [],
      "to_original": "Branch",
      "to_renamed": "Branch",
      "site": "field:branch",
      "via_rename_reconcile": false
    },
    {
      "from": "topo_crate::Trunk",
      "to": "topo_crate::Leaf",
      "from_module": [],
      "to_module": [],
      "to_original": "Leaf",
      "to_renamed": "Leaf",
      "site": "field:leaf",
      "via_rename_reconcile": false
    }
  ],
  "sccs": [],
  "topo_groups": [
    {
      "level": 0,
      "members": [
        "topo_crate::Leaf"
      ]
    },
    {
      "level": 1,
      "members": [
        "topo_crate::Branch"
      ]
    },
    {
      "level": 2,
      "members": [
        "topo_crate::Trunk"
      ]
    }
  ],
  "diagnostics": []
}
"#;
    let parsed = data(
        vec![],
        vec![
            structure(same("Branch"), &[], &[], vec![field(same("leaves"), vec_of(named("Leaf")))]),
            structure(same("Leaf"), &[], &[], vec![field(same("label"), builtin("String"))]),
            structure(same("Trunk"), &[], &[], vec![field(same("branch"), named("Branch")), field(same("leaf"), named("Leaf"))]),
        ],
        vec![],
        vec![],
    );
    assert_eq!(render("topo_crate", parsed), EXPECTED);
}
