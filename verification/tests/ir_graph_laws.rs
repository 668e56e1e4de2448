//! Properties of the reconciled graph on small hand-built crates: SCCs are
//! exactly the mutually recursive groups, every node sits in one
//! topological group, groups only depend on earlier ones, and the JSON
//! rendering is exact and deterministic.

use typeshare_core::input::{Id, ParsedData, RustField, RustStruct, RustType, SpecialRustType};
use typeshare_core::ir::edges::index_by_name;
use typeshare_core::ir::json::{render_string, JsonValue};
use typeshare_core::ir::model::IrGraph;

fn plain_id(name: &str) -> Id {
    Id { original: name.to_string(), renamed: name.to_string(), serde_rename: false }
}

fn refers(name: &str) -> RustType {
    RustType::Simple { id: name.to_string() }
}

fn record(name: &str, field_types: Vec<RustType>) -> RustStruct {
    let fields = field_types
        .into_iter()
        .enumerate()
        .map(|(index, ty)| RustField { id: plain_id(&format!("f{index}")), ty })
        .collect();
    RustStruct { id: plain_id(name), module: Vec::new(), generic_types: Vec::new(), fields }
}

fn graph_of(structs: Vec<RustStruct>) -> IrGraph {
    let parsed = ParsedData { aliases: Vec::new(), structs, enums: Vec::new(), consts: Vec::new() };
    IrGraph::from_reconciled(&vec![("k".to_string(), parsed)])
}

fn key(name: &str) -> String {
    format!("k::{name}")
}

fn keys(names: &[&str]) -> Vec<String> {
    names.iter().map(|name| key(name)).collect()
}

fn group_of(graph: &IrGraph, node_key: &str) -> Vec<usize> {
    graph
        .topo_groups
        .iter()
        .filter(|group| group.members.iter().any(|member| member == node_key))
        .map(|group| group.level)
        .collect()
}

fn scc_of(graph: &IrGraph, node_key: &str) -> Option<usize> {
    graph.sccs.iter().position(|scc| scc.members.iter().any(|member| member == node_key))
}

/// A chain of three types closing on itself, a type depending on the chain
/// and a type depending on nothing.
fn cycle_with_dependent() -> IrGraph {
    graph_of(vec![
        record("A", vec![refers("B")]),
        record("B", vec![refers("C")]),
        record("C", vec![refers("A")]),
        record("D", vec![refers("A")]),
        record("E", vec![RustType::Special(SpecialRustType::Builtin("u8".to_string()))]),
    ])
}

#[test]
fn mutually_recursive_chain_is_one_scc() {
    let graph = cycle_with_dependent();
    assert_eq!(graph.sccs.len(), 1);
    assert_eq!(graph.sccs[0].members, keys(&["A", "B", "C"]));
    assert_eq!(
        graph.sccs[0].edges,
        vec![(key("A"), key("B")), (key("B"), key("C")), (key("C"), key("A"))]
    );
    assert!(!graph.sccs[0].induced_by_rename);
    assert_eq!(scc_of(&graph, &key("D")), None);
    assert_eq!(scc_of(&graph, &key("E")), None);
}

#[test]
fn chain_and_dependents_are_layered() {
    let graph = cycle_with_dependent();
    assert_eq!(graph.topo_groups.len(), 2);
    assert_eq!(graph.topo_groups[0].level, 0);
    assert_eq!(graph.topo_groups[0].members, keys(&["A", "B", "C", "E"]));
    assert_eq!(graph.topo_groups[1].level, 1);
    assert_eq!(graph.topo_groups[1].members, keys(&["D"]));
}

#[test]
fn every_node_is_in_exactly_one_group() {
    let graphs = vec![
        cycle_with_dependent(),
        graph_of(vec![
            record("P", vec![refers("Q"), refers("R")]),
            record("Q", vec![refers("P"), refers("S")]),
            record("R", vec![refers("S")]),
            record("S", vec![refers("T")]),
            record("T", vec![refers("S")]),
            record("U", vec![refers("U")]),
            record("V", vec![]),
        ]),
    ];
    for graph in &graphs {
        for node in &graph.nodes {
            assert_eq!(group_of(graph, &node.key).len(), 1, "{}", node.key);
        }
    }
}

#[test]
fn groups_depend_only_on_earlier_groups() {
    let graph = graph_of(vec![
        record("P", vec![refers("Q"), refers("R")]),
        record("Q", vec![refers("P"), refers("S")]),
        record("R", vec![refers("S")]),
        record("S", vec![refers("T")]),
        record("T", vec![refers("S")]),
        record("U", vec![refers("U"), refers("R")]),
    ]);
    for edge in &graph.edges {
        let from_group = group_of(&graph, &edge.from)[0];
        let to_group = group_of(&graph, &edge.to)[0];
        let same_part = edge.from == edge.to
            || matches!((scc_of(&graph, &edge.from), scc_of(&graph, &edge.to)), (Some(a), Some(b)) if a == b);
        if same_part {
            assert_eq!(from_group, to_group);
        } else {
            assert!(to_group < from_group, "{} -> {}", edge.from, edge.to);
        }
    }
    assert_eq!(graph.sccs.len(), 3);
    assert_eq!(graph.sccs[0].members, keys(&["P", "Q"]));
    assert_eq!(graph.sccs[1].members, keys(&["S", "T"]));
    assert_eq!(graph.sccs[2].members, keys(&["U"]));
    let levels: Vec<Vec<String>> = graph.topo_groups.iter().map(|group| group.members.clone()).collect();
    assert_eq!(levels, vec![keys(&["S", "T"]), keys(&["R"]), keys(&["P", "Q", "U"])]);
}

#[test]
fn self_reference_is_a_single_member_scc() {
    let graph = graph_of(vec![
        record("Tree", vec![RustType::Special(SpecialRustType::Vec(Box::new(refers("Tree"))))]),
        record("Leaf", vec![]),
    ]);
    assert_eq!(graph.sccs.len(), 1);
    assert_eq!(graph.sccs[0].members, keys(&["Tree"]));
    assert_eq!(graph.sccs[0].edges, vec![(key("Tree"), key("Tree"))]);
    assert_eq!(scc_of(&graph, &key("Leaf")), None);
}

#[test]
fn type_without_self_edge_is_no_scc() {
    let graph = graph_of(vec![record("Alone", vec![refers("Other")]), record("Other", vec![])]);
    assert!(graph.sccs.is_empty());
    assert_eq!(graph.edges.len(), 1);
    assert_eq!(graph.topo_groups.len(), 2);
    assert_eq!(graph.topo_groups[0].members, keys(&["Other"]));
    assert_eq!(graph.topo_groups[1].members, keys(&["Alone"]));
}

#[test]
fn empty_input_renders_empty_graph() {
    let graph = IrGraph::from_reconciled(&Vec::new());
    assert!(graph.nodes.is_empty() && graph.edges.is_empty() && graph.sccs.is_empty());
    assert!(graph.topo_groups.is_empty() && graph.diagnostics.is_empty());
    assert_eq!(
        graph.to_json_pretty(),
        "{\n  \"nodes\": [],\n  \"edges\": [],\n  \"sccs\": [],\n  \"topo_groups\": [],\n  \"diagnostics\": []\n}\n"
    );
}

#[test]
fn rendering_is_deterministic() {
    let first = cycle_with_dependent().to_json_pretty();
    let second = cycle_with_dependent().to_json_pretty();
    assert_eq!(first, second);
    assert!(first.ends_with("}\n"));
}

#[test]
fn strings_are_escaped() {
    let mut out = String::new();
    render_string("a\"b\\c\nd\te\u{1}f\u{1f}é", &mut out);
    assert_eq!(out, "\"a\\\"b\\\\c\\nd\\te\\u0001f\\u001fé\"");
}

#[test]
fn values_render_with_two_space_indent() {
    let value = JsonValue::Object(vec![
        ("n".to_string(), JsonValue::Number(1234)),
        ("zero".to_string(), JsonValue::Number(0)),
        ("flag".to_string(), JsonValue::Bool(false)),
        ("list".to_string(), JsonValue::Array(vec![JsonValue::string("x".to_string()), JsonValue::Array(Vec::new())])),
        ("empty".to_string(), JsonValue::Object(Vec::new())),
    ]);
    let mut out = String::new();
    value.render(&mut out, 0);
    assert_eq!(
        out,
        "{\n  \"n\": 1234,\n  \"zero\": 0,\n  \"flag\": false,\n  \"list\": [\n    \"x\",\n    []\n  ],\n  \"empty\": {}\n}"
    );
}

#[test]
fn type_names_display_as_written() {
    let nested = RustType::Generic {
        id: "Pair".to_string(),
        parameters: vec![
            refers("A"),
            RustType::Special(SpecialRustType::Vec(Box::new(refers("B")))),
        ],
    };
    assert_eq!(nested.display(), "Pair<A, Vec<B>>");
    let array = RustType::Special(SpecialRustType::Array(Box::new(refers("u8")), 32));
    assert_eq!(array.display(), "[u8; 32]");
}

fn in_module(name: &str, module: &[&str]) -> RustStruct {
    RustStruct {
        id: plain_id(name),
        module: module.iter().map(|part| part.to_string()).collect(),
        generic_types: Vec::new(),
        fields: Vec::new(),
    }
}

fn candidates_of(graph: &IrGraph, name: &str) -> Vec<usize> {
    let index = index_by_name(&graph.nodes);
    index.iter().find(|entry| entry.name == name).map(|entry| entry.candidates.clone()).unwrap_or_default()
}

#[test]
fn name_index_prefers_shallow_modules() {
    let graph = graph_of(vec![in_module("F", &["A"]), in_module("F", &[])]);
    assert_eq!(graph.nodes[0].key, "k::A::F");
    assert_eq!(graph.nodes[1].key, "k::F");
    assert_eq!(candidates_of(&graph, "F"), vec![1, 0]);
}

#[test]
fn name_index_then_prefers_earlier_declarations() {
    let graph = graph_of(vec![in_module("G", &["B"]), in_module("G", &["A"]), in_module("H", &[])]);
    assert_eq!(graph.nodes[0].key, "k::A::G");
    assert_eq!(graph.nodes[1].key, "k::B::G");
    assert_eq!(candidates_of(&graph, "G"), vec![1, 0]);
    assert_eq!(candidates_of(&graph, "H"), vec![2]);
    assert!(candidates_of(&graph, "Missing").is_empty());
}
