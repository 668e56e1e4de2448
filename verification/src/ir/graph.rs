//! Building the reconciled graph from the parsed declarations of the
//! crates.

use vstd::prelude::*;
use crate::text::lex_order;
use crate::input::{ParsedData, RustConst, RustEnum, RustStruct, RustTypeAlias};
use crate::ir::cycles::{presents, presents_cycles, tarjan_sccs};
use crate::ir::order::lemma_key_before;
use crate::ir::scc::is_node_partition;
use crate::ir::diagnostics::{collect_diagnostics, raw_diagnostics, summarizes};
use crate::ir::edge_order::edges_sorted;
use crate::ir::edges::{
    adjacency_of, all_edges, build_adjacency, collect_edges, edge_between, edge_relation, ends_are_nodes, index_by_name,
};
use crate::ir::model::{IrEdgeView, IrGraph, IrNode, IrNodeView};
use crate::ir::nodes::{
    has_key, lemma_key_position,
    alias_node, const_node, enum_node, insert_node, keys_sorted, lists_map, node_from_alias,
    node_from_const, node_from_enum, node_from_struct, struct_node,
};
use crate::ir::reach::adj_relation;
use crate::ir::laws::law_every_node_grouped;
use crate::ir::topo::{condensation_levels, in_group_before, sccs_ok, topo_ok};

verus! {

/// The nodes of type aliases declared from source position `start` on.
pub open spec fn alias_nodes(krate: Seq<char>, items: Seq<RustTypeAlias>, start: int) -> Seq<IrNodeView> {
    Seq::new(items.len(), |j: int| alias_node(krate, items[j], (start + j) as usize))
}

/// The nodes of structs declared from source position `start` on.
pub open spec fn struct_nodes(krate: Seq<char>, items: Seq<RustStruct>, start: int) -> Seq<IrNodeView> {
    Seq::new(items.len(), |j: int| struct_node(krate, items[j], (start + j) as usize))
}

/// The nodes of enums declared from source position `start` on.
pub open spec fn enum_nodes(krate: Seq<char>, items: Seq<RustEnum>, start: int) -> Seq<IrNodeView> {
    Seq::new(items.len(), |j: int| enum_node(krate, items[j], (start + j) as usize))
}

/// The nodes of consts declared from source position `start` on.
pub open spec fn const_nodes(krate: Seq<char>, items: Seq<RustConst>, start: int) -> Seq<IrNodeView> {
    Seq::new(items.len(), |j: int| const_node(krate, items[j], (start + j) as usize))
}

/// The nodes of one crate's declarations, in walk order (aliases, structs,
/// enums, consts), numbered in source order from `start`.
pub open spec fn crate_nodes(krate: Seq<char>, data: ParsedData, start: int) -> Seq<IrNodeView> {
    let a = data.aliases@.len() as int;
    let s = data.structs@.len() as int;
    let e = data.enums@.len() as int;
    alias_nodes(krate, data.aliases@, start) + struct_nodes(krate, data.structs@, start + a) + enum_nodes(
        krate,
        data.enums@,
        start + a + s,
    ) + const_nodes(krate, data.consts@, start + a + s + e)
}

/// The nodes of the declarations of the first `n` crates, in walk order.
pub open spec fn declared_nodes(crates: Seq<(String, ParsedData)>, n: int) -> Seq<IrNodeView>
    decreases n,
{
    if n <= 0 {
        Seq::empty()
    } else {
        let prev = declared_nodes(crates, n - 1);
        prev + crate_nodes(crates[n - 1].0@, crates[n - 1].1, prev.len() as int)
    }
}

/// The number of declarations of the first `n` crates.
pub open spec fn item_count(crates: Seq<(String, ParsedData)>, n: int) -> int
    decreases n,
{
    if n <= 0 {
        0
    } else {
        item_count(crates, n - 1) + crates[n - 1].1.aliases@.len() + crates[n - 1].1.structs@.len()
            + crates[n - 1].1.enums@.len() + crates[n - 1].1.consts@.len()
    }
}

/// Nodes stored by key in walk order: a later node with the key of an
/// earlier one takes its place.
pub open spec fn node_map(ds: Seq<IrNodeView>) -> Map<Seq<char>, IrNodeView>
    decreases ds.len(),
{
    if ds.len() == 0 {
        Map::empty()
    } else {
        node_map(ds.drop_last()).insert(ds.last().key, ds.last())
    }
}

proof fn lemma_declared_len(crates: Seq<(String, ParsedData)>, n: int)
    requires
        0 <= n <= crates.len(),
    ensures
        declared_nodes(crates, n).len() == item_count(crates, n),
        0 <= item_count(crates, n),
    decreases n,
{
    if n > 0 {
        lemma_declared_len(crates, n - 1);
    }
}

proof fn lemma_item_count_mono(crates: Seq<(String, ParsedData)>, m: int, n: int)
    requires
        0 <= m <= n <= crates.len(),
    ensures
        item_count(crates, m) <= item_count(crates, n),
    decreases n - m,
{
    if m < n {
        lemma_item_count_mono(crates, m, n - 1);
    }
}

fn add_alias_nodes(
    nodes: &mut Vec<IrNode>,
    source_order: &mut usize,
    krate: &String,
    items: &Vec<RustTypeAlias>,
    Ghost(ds): Ghost<Seq<IrNodeView>>,
)
    requires
        keys_sorted(old(nodes).deep_view()),
        lists_map(old(nodes).deep_view(), node_map(ds)),
        *old(source_order) == ds.len(),
        ds.len() + items.len() <= usize::MAX,
    ensures
        keys_sorted(final(nodes).deep_view()),
        lists_map(final(nodes).deep_view(), node_map(ds + alias_nodes(krate@, items@, ds.len() as int))),
        *final(source_order) == ds.len() + items.len(),
{
    let ghost added = alias_nodes(krate@, items@, ds.len() as int);
    let mut i: usize = 0;
    assert(ds + added.take(0) =~= ds);
    while i < items.len()
        invariant
            i <= items.len(),
            added == alias_nodes(krate@, items@, ds.len() as int),
            ds.len() + items.len() <= usize::MAX,
            keys_sorted(nodes.deep_view()),
            lists_map(nodes.deep_view(), node_map(ds + added.take(i as int))),
            *source_order == ds.len() + i,
        decreases items.len() - i,
    {
        let node = node_from_alias(krate.as_str(), &items[i], *source_order);
        let ghost cur = ds + added.take(i as int);
        assert(node@ == added[i as int]);
        insert_node(nodes, node, Ghost(node_map(cur)));
        *source_order = *source_order + 1;
        proof {
            let next = ds + added.take(i + 1);
            assert(next =~= cur.push(added[i as int]));
            assert(next.drop_last() =~= cur);
        }
        i = i + 1;
    }
    assert(added.take(items.len() as int) =~= added);
}

fn add_struct_nodes(
    nodes: &mut Vec<IrNode>,
    source_order: &mut usize,
    krate: &String,
    items: &Vec<RustStruct>,
    Ghost(ds): Ghost<Seq<IrNodeView>>,
)
    requires
        keys_sorted(old(nodes).deep_view()),
        lists_map(old(nodes).deep_view(), node_map(ds)),
        *old(source_order) == ds.len(),
        ds.len() + items.len() <= usize::MAX,
    ensures
        keys_sorted(final(nodes).deep_view()),
        lists_map(final(nodes).deep_view(), node_map(ds + struct_nodes(krate@, items@, ds.len() as int))),
        *final(source_order) == ds.len() + items.len(),
{
    let ghost added = struct_nodes(krate@, items@, ds.len() as int);
    let mut i: usize = 0;
    assert(ds + added.take(0) =~= ds);
    while i < items.len()
        invariant
            i <= items.len(),
            added == struct_nodes(krate@, items@, ds.len() as int),
            ds.len() + items.len() <= usize::MAX,
            keys_sorted(nodes.deep_view()),
            lists_map(nodes.deep_view(), node_map(ds + added.take(i as int))),
            *source_order == ds.len() + i,
        decreases items.len() - i,
    {
        let node = node_from_struct(krate.as_str(), &items[i], *source_order);
        let ghost cur = ds + added.take(i as int);
        assert(node@ == added[i as int]);
        insert_node(nodes, node, Ghost(node_map(cur)));
        *source_order = *source_order + 1;
        proof {
            let next = ds + added.take(i + 1);
            assert(next =~= cur.push(added[i as int]));
            assert(next.drop_last() =~= cur);
        }
        i = i + 1;
    }
    assert(added.take(items.len() as int) =~= added);
}

fn add_enum_nodes(
    nodes: &mut Vec<IrNode>,
    source_order: &mut usize,
    krate: &String,
    items: &Vec<RustEnum>,
    Ghost(ds): Ghost<Seq<IrNodeView>>,
)
    requires
        keys_sorted(old(nodes).deep_view()),
        lists_map(old(nodes).deep_view(), node_map(ds)),
        *old(source_order) == ds.len(),
        ds.len() + items.len() <= usize::MAX,
    ensures
        keys_sorted(final(nodes).deep_view()),
        lists_map(final(nodes).deep_view(), node_map(ds + enum_nodes(krate@, items@, ds.len() as int))),
        *final(source_order) == ds.len() + items.len(),
{
    let ghost added = enum_nodes(krate@, items@, ds.len() as int);
    let mut i: usize = 0;
    assert(ds + added.take(0) =~= ds);
    while i < items.len()
        invariant
            i <= items.len(),
            added == enum_nodes(krate@, items@, ds.len() as int),
            ds.len() + items.len() <= usize::MAX,
            keys_sorted(nodes.deep_view()),
            lists_map(nodes.deep_view(), node_map(ds + added.take(i as int))),
            *source_order == ds.len() + i,
        decreases items.len() - i,
    {
        let node = node_from_enum(krate.as_str(), &items[i], *source_order);
        let ghost cur = ds + added.take(i as int);
        assert(node@ == added[i as int]);
        insert_node(nodes, node, Ghost(node_map(cur)));
        *source_order = *source_order + 1;
        proof {
            let next = ds + added.take(i + 1);
            assert(next =~= cur.push(added[i as int]));
            assert(next.drop_last() =~= cur);
        }
        i = i + 1;
    }
    assert(added.take(items.len() as int) =~= added);
}

fn add_const_nodes(
    nodes: &mut Vec<IrNode>,
    source_order: &mut usize,
    krate: &String,
    items: &Vec<RustConst>,
    Ghost(ds): Ghost<Seq<IrNodeView>>,
)
    requires
        keys_sorted(old(nodes).deep_view()),
        lists_map(old(nodes).deep_view(), node_map(ds)),
        *old(source_order) == ds.len(),
        ds.len() + items.len() <= usize::MAX,
    ensures
        keys_sorted(final(nodes).deep_view()),
        lists_map(final(nodes).deep_view(), node_map(ds + const_nodes(krate@, items@, ds.len() as int))),
        *final(source_order) == ds.len() + items.len(),
{
    let ghost added = const_nodes(krate@, items@, ds.len() as int);
    let mut i: usize = 0;
    assert(ds + added.take(0) =~= ds);
    while i < items.len()
        invariant
            i <= items.len(),
            added == const_nodes(krate@, items@, ds.len() as int),
            ds.len() + items.len() <= usize::MAX,
            keys_sorted(nodes.deep_view()),
            lists_map(nodes.deep_view(), node_map(ds + added.take(i as int))),
            *source_order == ds.len() + i,
        decreases items.len() - i,
    {
        let node = node_from_const(krate.as_str(), &items[i], *source_order);
        let ghost cur = ds + added.take(i as int);
        assert(node@ == added[i as int]);
        insert_node(nodes, node, Ghost(node_map(cur)));
        *source_order = *source_order + 1;
        proof {
            let next = ds + added.take(i + 1);
            assert(next =~= cur.push(added[i as int]));
            assert(next.drop_last() =~= cur);
        }
        i = i + 1;
    }
    assert(added.take(items.len() as int) =~= added);
}

/// The serialized names of the serde-renamed nodes.
pub open spec fn renamed_set(nodes: Seq<IrNodeView>) -> Set<Seq<char>> {
    Set::new(|x: Seq<char>| exists|p: int| 0 <= p < nodes.len() && #[trigger] nodes[p].serde_rename && nodes[p].renamed == x)
}

/// The edge relation of the graph on node positions.
fn renamed_names_of(nodes: &Vec<IrNode>) -> (names: Vec<String>)
    ensures
        names.deep_view().to_set() == renamed_set(nodes.deep_view()),
{
    let ghost nv = nodes.deep_view();
    let mut names: Vec<String> = Vec::new();
    let mut p: usize = 0;
    while p < nodes.len()
        invariant
            p <= nodes.len(),
            nv == nodes.deep_view(),
            forall|x: Seq<char>| names.deep_view().contains(x) <==> exists|q: int| 0 <= q < p && #[trigger] nv[q].serde_rename && nv[q].renamed == x,
        decreases nodes.len() - p,
    {
        assert(nv[p as int] == nodes[p as int]@);
        if nodes[p].serde_rename {
            let ghost before = names.deep_view();
            assert(forall|x: Seq<char>| before.contains(x) <==> exists|q: int| 0 <= q < p && #[trigger] nv[q].serde_rename && nv[q].renamed == x);
            names.push(nodes[p].renamed.clone());
            proof {
                assert(names.deep_view() =~= before.push(nv[p as int].renamed));
                assert forall|x: Seq<char>| names.deep_view().contains(x) <==> exists|q: int| 0 <= q < p + 1 && #[trigger] nv[q].serde_rename && nv[q].renamed == x by {
                    if names.deep_view().contains(x) {
                        let k = choose|k: int| 0 <= k < names.deep_view().len() && names.deep_view()[k] == x;
                        if k < before.len() {
                            assert(before[k] == x);
                            assert(before.contains(x));
                            let q = choose|q: int| 0 <= q < p && #[trigger] nv[q].serde_rename && nv[q].renamed == x;
                            assert(0 <= q < p + 1 && nv[q].serde_rename && nv[q].renamed == x);
                        } else {
                            assert(0 <= p < p + 1 && nv[p as int].serde_rename && nv[p as int].renamed == x);
                        }
                    }
                    if exists|q: int| 0 <= q < p + 1 && #[trigger] nv[q].serde_rename && nv[q].renamed == x {
                        let q = choose|q: int| 0 <= q < p + 1 && #[trigger] nv[q].serde_rename && nv[q].renamed == x;
                        if q < p {
                            assert(0 <= q < p && nv[q].serde_rename && nv[q].renamed == x);
                            assert(before.contains(x));
                            let k = choose|k: int| 0 <= k < before.len() && before[k] == x;
                            assert(names.deep_view()[k] == x);
                        } else {
                            assert(names.deep_view()[before.len() as int] == x);
                        }
                    }
                }
            }
        } else {
            proof {
                assert forall|x: Seq<char>| names.deep_view().contains(x) <==> exists|q: int| 0 <= q < p + 1 && #[trigger] nv[q].serde_rename && nv[q].renamed == x by {
                    if exists|q: int| 0 <= q < p + 1 && #[trigger] nv[q].serde_rename && nv[q].renamed == x {
                        let q = choose|q: int| 0 <= q < p + 1 && #[trigger] nv[q].serde_rename && nv[q].renamed == x;
                        assert(q < p);
                    }
                }
            }
        }
        p = p + 1;
    }
    assert(names.deep_view().to_set() =~= renamed_set(nv));
    names
}

/// The SCCs of the graph are non-empty, list node keys only, and share no
/// key: no node belongs to two SCCs or twice to one.
pub proof fn law_sccs_disjoint(sccs: Seq<crate::ir::model::IrSccView>, comps: Seq<Seq<usize>>, origin: Seq<int>, nodes: Seq<IrNodeView>, edges: Set<IrEdgeView>)
    requires
        keys_sorted(nodes),
        presents_cycles(sccs, comps, origin, nodes, edges),
    ensures
        sccs_ok(sccs, nodes),
{
    assert forall|i: int| 0 <= i < sccs.len() implies #[trigger] sccs[i].members.len() > 0 by {
        assert(comps[origin[i]].len() > 0);
    }
    assert forall|i: int, k: int| 0 <= i < sccs.len() && 0 <= k < sccs[i].members.len() implies has_key(nodes, #[trigger] sccs[i].members[k]) by {
        assert(sccs[i].members.contains(sccs[i].members[k]));
        let c = comps[origin[i]];
        let j = choose|j: int| 0 <= j < c.len() && nodes[c[j] as int].key == sccs[i].members[k];
        assert(c[j] < nodes.len());
    }
    assert forall|i: int, k: int, j: int, l: int|
        0 <= i < sccs.len() && 0 <= k < sccs[i].members.len() && 0 <= j < sccs.len() && 0 <= l < sccs[j].members.len()
            && #[trigger] sccs[i].members[k] == #[trigger] sccs[j].members[l] implies i == j && k == l by {
        let key = sccs[i].members[k];
        if i == j {
            if k < l {
                assert(crate::ir::order::key_before(nodes, sccs[i].members[k], sccs[i].members[l]));
                lemma_key_before(nodes, key, key, key);
            } else if l < k {
                assert(crate::ir::order::key_before(nodes, sccs[i].members[l], sccs[i].members[k]));
                lemma_key_before(nodes, key, key, key);
            }
        } else {
            let ci = comps[origin[i]];
            let cj = comps[origin[j]];
            assert(sccs[i].members.contains(key));
            assert(sccs[j].members.contains(key));
            let a = choose|a: int| 0 <= a < ci.len() && nodes[ci[a] as int].key == key;
            let b = choose|b: int| 0 <= b < cj.len() && nodes[cj[b] as int].key == key;
            assert(ci[a] < nodes.len() && cj[b] < nodes.len());
            lemma_key_position(nodes, ci[a] as int);
            lemma_key_position(nodes, cj[b] as int);
            assert(comps[origin[i]][a] == comps[origin[j]][b]);
            if i < j {
                assert(origin[i] != origin[j]);
            } else {
                assert(origin[j] != origin[i]);
            }
        }
    }
}

/// The crate names strictly increase: each crate occurs once, in name order.
pub open spec fn crate_names_sorted(crates: Seq<(String, ParsedData)>) -> bool {
    forall|i: int, j: int| 0 <= i < j < crates.len() ==> lex_order(#[trigger] crates[i].0@, #[trigger] crates[j].0@) < 0
}

impl IrGraph {
    /// Builds the reconciled graph from post-reconcile parsed data, one
    /// entry per crate with the crate names strictly increasing (a map from
    /// crate name to parsed data), walking the crates in name order and, in
    /// each crate, its aliases, structs, enums and consts.
    ///
    /// The nodes are the walked declarations stored by key (a later
    /// declaration with the key of an earlier one takes its place), each
    /// numbered by its walk position; the edges are those of
    /// [`all_edges`]; the SCCs present the cyclic strongly connected parts
    /// of a partition of the nodes; the topological groups layer the parts
    /// as [`topo_ok`] says and list every node; the diagnostics summarize
    /// [`raw_diagnostics`].
    pub fn from_reconciled(crate_parsed_data: &Vec<(String, ParsedData)>) -> (graph: IrGraph)
        requires
            crate_names_sorted(crate_parsed_data@),
            item_count(crate_parsed_data@, crate_parsed_data.len() as int) <= usize::MAX,
        ensures
            keys_sorted(graph.nodes.deep_view()),
            lists_map(graph.nodes.deep_view(), node_map(declared_nodes(crate_parsed_data@, crate_parsed_data.len() as int))),
            edges_sorted(graph.edges.deep_view()),
            ends_are_nodes(graph.edges.deep_view().to_set(), graph.nodes.deep_view()),
            graph.edges.deep_view().to_set() == all_edges(
                graph.nodes.deep_view(),
                renamed_set(graph.nodes.deep_view()),
                crate_parsed_data@,
                crate_parsed_data.len() as int,
            ),
            exists|comps: Seq<Seq<usize>>, origin: Seq<int>|
                #[trigger] presents_cycles(graph.sccs.deep_view(), comps, origin, graph.nodes.deep_view(), graph.edges.deep_view().to_set()),
            topo_ok(
                graph.topo_groups.deep_view(),
                graph.nodes.deep_view(),
                graph.sccs.deep_view(),
                edge_relation(graph.nodes.deep_view(), graph.edges.deep_view().to_set()),
            ),
            forall|u: int|
                0 <= u < graph.nodes.len() ==> #[trigger] in_group_before(
                    graph.topo_groups.deep_view(),
                    graph.topo_groups.len() as int,
                    graph.nodes.deep_view()[u].key,
                ),
            summarizes(graph.diagnostics.deep_view(), raw_diagnostics(graph.nodes.deep_view(), graph.sccs.deep_view())),
    {
        let ghost crates = crate_parsed_data@;
        let mut nodes: Vec<IrNode> = Vec::new();
        let mut source_order: usize = 0;
        let mut c: usize = 0;
        proof {
            assert(nodes.deep_view() =~= Seq::<IrNodeView>::empty());
            lemma_item_count_mono(crates, 0, crates.len() as int);
        }
        while c < crate_parsed_data.len()
            invariant
                c <= crate_parsed_data.len(),
                crates == crate_parsed_data@,
                item_count(crates, crates.len() as int) <= usize::MAX,
                keys_sorted(nodes.deep_view()),
                lists_map(nodes.deep_view(), node_map(declared_nodes(crates, c as int))),
                source_order == declared_nodes(crates, c as int).len(),
            decreases crate_parsed_data.len() - c,
        {
            let krate = &crate_parsed_data[c].0;
            let data = &crate_parsed_data[c].1;
            let ghost d0 = declared_nodes(crates, c as int);
            proof {
                lemma_declared_len(crates, c as int);
                lemma_declared_len(crates, c + 1);
                lemma_item_count_mono(crates, c + 1, crates.len() as int);
            }
            let ghost a = alias_nodes(krate@, data.aliases@, d0.len() as int);
            add_alias_nodes(&mut nodes, &mut source_order, krate, &data.aliases, Ghost(d0));
            let ghost d1 = d0 + a;
            let ghost st = struct_nodes(krate@, data.structs@, d1.len() as int);
            add_struct_nodes(&mut nodes, &mut source_order, krate, &data.structs, Ghost(d1));
            let ghost d2 = d1 + st;
            let ghost en = enum_nodes(krate@, data.enums@, d2.len() as int);
            add_enum_nodes(&mut nodes, &mut source_order, krate, &data.enums, Ghost(d2));
            let ghost d3 = d2 + en;
            let ghost co = const_nodes(krate@, data.consts@, d3.len() as int);
            add_const_nodes(&mut nodes, &mut source_order, krate, &data.consts, Ghost(d3));
            proof {
                assert(d3 + co =~= declared_nodes(crates, c + 1));
            }
            c = c + 1;
        }
        let ghost nv = nodes.deep_view();
        let renamed_names = renamed_names_of(&nodes);
        let by_name = index_by_name(&nodes);
        let edges = collect_edges(&nodes, &by_name, &renamed_names, crate_parsed_data);
        let ghost es = edges.deep_view().to_set();
        let adjacency = build_adjacency(&nodes, &edges);
        let sccs = tarjan_sccs(&nodes, &adjacency, &edges);
        let ghost (comps, origin) = choose|comps: Seq<Seq<usize>>, origin: Seq<int>|
            #[trigger] presents_cycles(sccs.deep_view(), comps, origin, nv, es);
        proof {
            law_sccs_disjoint(sccs.deep_view(), comps, origin, nv, es);
            let adj = adjacency.deep_view();
            assert forall|u: int, k: int| 0 <= u < adjacency.len() && 0 <= k < adjacency@[u]@.len() implies #[trigger] adjacency@[u]@[k] < adjacency.len() by {
                assert(adj[u] == adjacency@[u]@);
            }
        }
        let topo_groups = condensation_levels(&nodes, &sccs, &adjacency);
        proof {
            let adj = adjacency.deep_view();
            assert(adj_relation(adj) =~= edge_relation(nv, es));
        }
        proof {
            assert forall|u: int| 0 <= u < nv.len() implies #[trigger] in_group_before(
                topo_groups.deep_view(),
                topo_groups.len() as int,
                nv[u].key,
            ) by {
                law_every_node_grouped(topo_groups.deep_view(), sccs.deep_view(), comps, origin, nv, es, u);
            }
        }
        let diagnostics = collect_diagnostics(&nodes, &sccs);
        let graph = IrGraph { nodes, edges, sccs, topo_groups, diagnostics };
        assert(presents_cycles(graph.sccs.deep_view(), comps, origin, graph.nodes.deep_view(), graph.edges.deep_view().to_set()));
        graph
    }
}

} // verus!
