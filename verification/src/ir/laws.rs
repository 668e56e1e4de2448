//! Properties of the graph that hold across its parts.

use vstd::prelude::*;
use crate::ir::cycles::{presents, presents_cycles};
use crate::ir::edges::{edge_between, edge_of, is_generic_name, ref_edges, resolve_spec, TypeRefView};
use crate::ir::model::{IrEdgeSiteView, IrEdgeView, IrNodeView};
use crate::ir::nodes::{keys_sorted, lemma_key_position};
use crate::ir::cycles::is_cycle;
use crate::ir::edges::{edge_relation, ends_are_nodes};
use crate::ir::model::{IrSccView, IrTopoGroupView};
use crate::ir::reach::{lemma_reaches_refl, lemma_reaches_step, lemma_reaches_trans, reaches};
use crate::ir::scc::in_some_component;
use crate::ir::topo::{depends_outside, in_group, in_group_before, part_depends_on, together, topo_ok};
use vstd::set_lib::*;
use crate::ir::diagnostics::{
    covers, cycle_case, cycle_message, cycle_set_upto, declared, group_name, identities_named, keys_named,
    lemma_sorted_set_of, name_case, name_diagnostic, name_set_upto, raw_diagnostics, shadow_case, shadow_message,
    shadow_set_upto, sorted_set_of, strictly_sorted, summarizes,
};
use crate::ir::model::{identity_of, IrDiagnosticKind, IrDiagnosticView};
use crate::text::lex_order;

verus! {

/// The edges a list of references gives are exactly one edge per reference
/// that does not name a generic parameter of the referring node and
/// resolves to a node: a generic parameter never becomes an edge target,
/// and an ambiguous name gives no edge.
pub proof fn law_ref_edges(nodes: Seq<IrNodeView>, from: IrNodeView, refs: Seq<TypeRefView>, site: IrEdgeSiteView)
    ensures
        forall|e: IrEdgeView| #[trigger] ref_edges(nodes, from, refs, site).contains(e) <==> exists|k: int|
            0 <= k < refs.len() && !is_generic_name(from, refs[k].name) && (resolve_spec(nodes, from.crate_name, #[trigger] refs[k].name)
                matches Some(t) && e == edge_of(from, nodes[t as int], site, refs[k].via_rename_reconcile)),
    decreases refs.len(),
{
    if refs.len() > 0 {
        let init = refs.drop_last();
        law_ref_edges(nodes, from, init, site);
        assert forall|e: IrEdgeView| #[trigger] ref_edges(nodes, from, refs, site).contains(e) <==> exists|k: int|
            0 <= k < refs.len() && !is_generic_name(from, refs[k].name) && (resolve_spec(nodes, from.crate_name, #[trigger] refs[k].name)
                matches Some(t) && e == edge_of(from, nodes[t as int], site, refs[k].via_rename_reconcile)) by {
            if ref_edges(nodes, from, init, site).contains(e) {
                let k = choose|k: int| 0 <= k < init.len() && !is_generic_name(from, init[k].name) && (resolve_spec(nodes, from.crate_name, #[trigger] init[k].name)
                    matches Some(t) && e == edge_of(from, nodes[t as int], site, init[k].via_rename_reconcile));
                assert(init[k] == refs[k]);
            }
            if exists|k: int| 0 <= k < refs.len() && !is_generic_name(from, refs[k].name) && (resolve_spec(nodes, from.crate_name, #[trigger] refs[k].name)
                matches Some(t) && e == edge_of(from, nodes[t as int], site, refs[k].via_rename_reconcile)) {
                let k = choose|k: int| 0 <= k < refs.len() && !is_generic_name(from, refs[k].name) && (resolve_spec(nodes, from.crate_name, #[trigger] refs[k].name)
                    matches Some(t) && e == edge_of(from, nodes[t as int], site, refs[k].via_rename_reconcile));
                if k < refs.len() - 1 {
                    assert(init[k] == refs[k]);
                }
            }
        }
    }
}

/// A node with an edge to itself is a member of an SCC.
pub proof fn law_self_edge_in_scc(
    sccs: Seq<crate::ir::model::IrSccView>,
    comps: Seq<Seq<usize>>,
    origin: Seq<int>,
    nodes: Seq<IrNodeView>,
    edges: Set<IrEdgeView>,
    u: int,
)
    requires
        presents_cycles(sccs, comps, origin, nodes, edges),
        0 <= u < nodes.len(),
        edge_between(edges, nodes[u].key, nodes[u].key),
    ensures
        exists|i: int| 0 <= i < sccs.len() && #[trigger] sccs[i].members.contains(nodes[u].key),
{
    assert(crate::ir::scc::in_some_component(comps, u));
    let (c, k) = choose|c: int, k: int| 0 <= c < comps.len() && 0 <= k < comps[c].len() && #[trigger] comps[c][k] == u;
    if comps[c].len() == 1 {
        assert(comps[c][0] == u);
    }
    assert(crate::ir::cycles::is_cycle(nodes, edges, comps[c]));
    let i = choose|i: int| 0 <= i < sccs.len() && origin[i] == c;
    assert(presents(sccs[i], comps[c], nodes, edges));
    assert(sccs[i].members.contains(nodes[u].key));
}

/// Two nodes whose keys are members of one SCC reach each other along the
/// edges.
pub proof fn law_scc_members_reach(
    sccs: Seq<IrSccView>,
    comps: Seq<Seq<usize>>,
    origin: Seq<int>,
    nodes: Seq<IrNodeView>,
    edges: Set<IrEdgeView>,
    i: int,
    u: int,
    v: int,
)
    requires
        keys_sorted(nodes),
        presents_cycles(sccs, comps, origin, nodes, edges),
        0 <= i < sccs.len(),
        0 <= u < nodes.len(),
        0 <= v < nodes.len(),
        sccs[i].members.contains(nodes[u].key),
        sccs[i].members.contains(nodes[v].key),
    ensures
        reaches(edge_relation(nodes, edges), u, v),
{
    let c = origin[i];
    assert(presents(sccs[i], comps[c], nodes, edges));
    let k1 = choose|k: int| 0 <= k < comps[c].len() && nodes[comps[c][k] as int].key == nodes[u].key;
    let k2 = choose|k: int| 0 <= k < comps[c].len() && nodes[comps[c][k] as int].key == nodes[v].key;
    assert(comps[c][k1] < nodes.len() && comps[c][k2] < nodes.len());
    lemma_key_position(nodes, u);
    lemma_key_position(nodes, v);
    lemma_key_position(nodes, comps[c][k1] as int);
    lemma_key_position(nodes, comps[c][k2] as int);
    assert(reaches(edge_relation(nodes, edges), comps[c][k1] as int, comps[c][k2] as int));
}

/// Two distinct nodes that reach each other along the edges are members of
/// one SCC: mutually recursive types always form a group.
pub proof fn law_mutual_reach_same_scc(
    sccs: Seq<IrSccView>,
    comps: Seq<Seq<usize>>,
    origin: Seq<int>,
    nodes: Seq<IrNodeView>,
    edges: Set<IrEdgeView>,
    u: int,
    v: int,
)
    requires
        presents_cycles(sccs, comps, origin, nodes, edges),
        0 <= u < nodes.len(),
        0 <= v < nodes.len(),
        u != v,
        reaches(edge_relation(nodes, edges), u, v),
        reaches(edge_relation(nodes, edges), v, u),
    ensures
        exists|i: int|
            0 <= i < sccs.len() && #[trigger] sccs[i].members.contains(nodes[u].key) && sccs[i].members.contains(
                nodes[v].key,
            ),
{
    assert(in_some_component(comps, u));
    assert(in_some_component(comps, v));
    let (c1, k1) = choose|c: int, k: int| 0 <= c < comps.len() && 0 <= k < comps[c].len() && #[trigger] comps[c][k] == u;
    let (c2, k2) = choose|c: int, k: int| 0 <= c < comps.len() && 0 <= k < comps[c].len() && #[trigger] comps[c][k] == v;
    assert(c1 == c2);
    assert(k1 != k2);
    assert(is_cycle(nodes, edges, comps[c1]));
    let i = choose|i: int| 0 <= i < sccs.len() && origin[i] == c1;
    assert(presents(sccs[i], comps[c1], nodes, edges));
    assert(sccs[i].members.contains(nodes[u].key));
    assert(sccs[i].members.contains(nodes[v].key));
}

/// Keys of one part (equal, or of one SCC) belong to nodes that reach each
/// other.
proof fn lemma_together_reaches(
    sccs: Seq<IrSccView>,
    comps: Seq<Seq<usize>>,
    origin: Seq<int>,
    nodes: Seq<IrNodeView>,
    edges: Set<IrEdgeView>,
    a: int,
    b: int,
)
    requires
        keys_sorted(nodes),
        presents_cycles(sccs, comps, origin, nodes, edges),
        0 <= a < nodes.len(),
        0 <= b < nodes.len(),
        together(sccs, nodes[a].key, nodes[b].key),
    ensures
        reaches(edge_relation(nodes, edges), a, b),
{
    if nodes[a].key == nodes[b].key {
        lemma_key_position(nodes, a);
        lemma_key_position(nodes, b);
        lemma_reaches_refl(edge_relation(nodes, edges), a);
    } else {
        let i = choose|i: int| 0 <= i < sccs.len() && #[trigger] sccs[i].members.contains(nodes[a].key) && sccs[i].members.contains(nodes[b].key);
        law_scc_members_reach(sccs, comps, origin, nodes, edges, i, a, b);
    }
}

/// The nodes that node `x` reaches along the edges.
pub open spec fn reach_set(nodes: Seq<IrNodeView>, edges: Set<IrEdgeView>, x: int) -> Set<int> {
    Set::new(|y: int| 0 <= y < nodes.len() && reaches(edge_relation(nodes, edges), x, y))
}

/// A part that depends on another reaches strictly fewer nodes after the
/// step: the step's target cannot reach back, or the two would share an
/// SCC.
proof fn lemma_dependency_shrinks(
    sccs: Seq<IrSccView>,
    comps: Seq<Seq<usize>>,
    origin: Seq<int>,
    nodes: Seq<IrNodeView>,
    edges: Set<IrEdgeView>,
    x: int,
    y: int,
)
    requires
        keys_sorted(nodes),
        presents_cycles(sccs, comps, origin, nodes, edges),
        0 <= x < nodes.len(),
        part_depends_on(nodes, sccs, edge_relation(nodes, edges), x, y),
    ensures
        reach_set(nodes, edges, y).len() < reach_set(nodes, edges, x).len(),
{
    let rel = edge_relation(nodes, edges);
    let w = choose|w: int| together(sccs, nodes[x].key, #[trigger] nodes[w].key) && depends_outside(nodes, sccs, rel, w, y);
    lemma_together_reaches(sccs, comps, origin, nodes, edges, x, w);
    lemma_reaches_step(rel, w, y);
    lemma_reaches_trans(rel, x, w, y);
    let rx = reach_set(nodes, edges, x);
    let ry = reach_set(nodes, edges, y);
    assert forall|z: int| #[trigger] ry.contains(z) implies rx.remove(x).contains(z) by {
        lemma_reaches_trans(rel, x, y, z);
        if z == x {
            lemma_reaches_trans(rel, y, x, w);
            if w == y {
                assert(together(sccs, nodes[w].key, nodes[y].key));
            }
            law_mutual_reach_same_scc(sccs, comps, origin, nodes, edges, w, y);
            let i = choose|i: int|
                0 <= i < sccs.len() && #[trigger] sccs[i].members.contains(nodes[w].key) && sccs[i].members.contains(nodes[y].key);
            assert(together(sccs, nodes[w].key, nodes[y].key));
        }
    }
    lemma_reaches_refl(rel, x);
    assert(rx.contains(x));
    lemma_int_range(0, nodes.len() as int);
    assert(rx.subset_of(set_int_range(0, nodes.len() as int)));
    lemma_len_subset(rx, set_int_range(0, nodes.len() as int));
    lemma_len_subset(ry, rx.remove(x));
}

/// A node that reaches at most `m` nodes is listed in a topological group.
proof fn lemma_grouped_by_size(
    groups: Seq<IrTopoGroupView>,
    sccs: Seq<IrSccView>,
    comps: Seq<Seq<usize>>,
    origin: Seq<int>,
    nodes: Seq<IrNodeView>,
    edges: Set<IrEdgeView>,
    x: int,
    m: nat,
)
    requires
        keys_sorted(nodes),
        presents_cycles(sccs, comps, origin, nodes, edges),
        topo_ok(groups, nodes, sccs, edge_relation(nodes, edges)),
        0 <= x < nodes.len(),
        reach_set(nodes, edges, x).len() <= m,
    ensures
        in_group_before(groups, groups.len() as int, nodes[x].key),
    decreases m,
{
    let rel = edge_relation(nodes, edges);
    if !in_group_before(groups, groups.len() as int, nodes[x].key) {
        let y = choose|y: int| #[trigger] part_depends_on(nodes, sccs, rel, x, y) && !in_group_before(groups, groups.len() as int, nodes[y].key);
        lemma_dependency_shrinks(sccs, comps, origin, nodes, edges, x, y);
        let w = choose|w: int| together(sccs, nodes[x].key, #[trigger] nodes[w].key) && depends_outside(nodes, sccs, rel, w, y);
        assert(0 <= y < nodes.len());
        lemma_grouped_by_size(groups, sccs, comps, origin, nodes, edges, y, (m - 1) as nat);
    }
}

/// Every node is listed in exactly one topological group: the SCCs are
/// maximal, so the condensation has no cycle and no part is left out.
pub proof fn law_every_node_grouped(
    groups: Seq<IrTopoGroupView>,
    sccs: Seq<IrSccView>,
    comps: Seq<Seq<usize>>,
    origin: Seq<int>,
    nodes: Seq<IrNodeView>,
    edges: Set<IrEdgeView>,
    u: int,
)
    requires
        keys_sorted(nodes),
        presents_cycles(sccs, comps, origin, nodes, edges),
        topo_ok(groups, nodes, sccs, edge_relation(nodes, edges)),
        0 <= u < nodes.len(),
    ensures
        exists|g: int| #[trigger] in_group(groups, g, nodes[u].key),
        forall|g1: int, g2: int| in_group(groups, g1, nodes[u].key) && in_group(groups, g2, nodes[u].key) ==> g1 == g2,
{
    let rs = reach_set(nodes, edges, u);
    lemma_int_range(0, nodes.len() as int);
    assert(rs.subset_of(set_int_range(0, nodes.len() as int)));
    lemma_len_subset(rs, set_int_range(0, nodes.len() as int));
    lemma_grouped_by_size(groups, sccs, comps, origin, nodes, edges, u, nodes.len());
    assert forall|g1: int, g2: int| in_group(groups, g1, nodes[u].key) && in_group(groups, g2, nodes[u].key) implies g1 == g2 by {
        assert(in_group(groups, g1, nodes[u].key) && in_group(groups, g2, nodes[u].key));
    }
}


/// Identities, in node order, of the first `n` nodes grouped under `name`.
spec fn identities_upto(nodes: Seq<IrNodeView>, name: Seq<char>, by_renamed: bool, n: int) -> Seq<Seq<char>>
    decreases n,
{
    if n <= 0 {
        Seq::empty()
    } else if group_name(nodes[n - 1], by_renamed) == name {
        identities_upto(nodes, name, by_renamed, n - 1).push(identity_of(nodes[n - 1].module, nodes[n - 1].original))
    } else {
        identities_upto(nodes, name, by_renamed, n - 1)
    }
}

proof fn lemma_identities_upto(nodes: Seq<IrNodeView>, name: Seq<char>, by_renamed: bool, n: int)
    requires
        0 <= n <= nodes.len(),
    ensures
        forall|id: Seq<char>| #[trigger] identities_upto(nodes, name, by_renamed, n).to_set().contains(id) <==> exists|p: int|
            0 <= p < n && group_name(nodes[p], by_renamed) == name && #[trigger] identity_of(nodes[p].module, nodes[p].original) == id,
    decreases n,
{
    if n > 0 {
        lemma_identities_upto(nodes, name, by_renamed, n - 1);
        let prev = identities_upto(nodes, name, by_renamed, n - 1);
        let cur = identities_upto(nodes, name, by_renamed, n);
        assert forall|id: Seq<char>| #[trigger] cur.to_set().contains(id) <==> exists|p: int|
            0 <= p < n && group_name(nodes[p], by_renamed) == name && #[trigger] identity_of(nodes[p].module, nodes[p].original) == id by {
            if cur.contains(id) {
                let k = choose|k: int| 0 <= k < cur.len() && cur[k] == id;
                if k < prev.len() {
                    assert(prev[k] == id);
                    assert(prev.to_set().contains(id));
                } else {
                    assert(identity_of(nodes[n - 1].module, nodes[n - 1].original) == id);
                }
            }
            if exists|p: int| 0 <= p < n && group_name(nodes[p], by_renamed) == name && #[trigger] identity_of(nodes[p].module, nodes[p].original) == id {
                let p = choose|p: int| 0 <= p < n && group_name(nodes[p], by_renamed) == name && #[trigger] identity_of(nodes[p].module, nodes[p].original) == id;
                if p < n - 1 {
                    assert(prev.to_set().contains(id));
                    let k = choose|k: int| 0 <= k < prev.len() && prev[k] == id;
                    assert(cur[k] == id);
                } else {
                    assert(cur[cur.len() - 1] == id);
                }
            }
        }
    }
}

proof fn lemma_keys_named_grow(nodes: Seq<IrNodeView>, name: Seq<char>, by_renamed: bool, m: int, n: int)
    requires
        0 <= m <= n,
    ensures
        keys_named(nodes, name, by_renamed, m).len() <= keys_named(nodes, name, by_renamed, n).len(),
        forall|k: int| 0 <= k < keys_named(nodes, name, by_renamed, m).len() ==> #[trigger] keys_named(nodes, name, by_renamed, n)[k]
            == keys_named(nodes, name, by_renamed, m)[k],
    decreases n - m,
{
    if m < n {
        lemma_keys_named_grow(nodes, name, by_renamed, m, n - 1);
    }
}

/// The keys grouped under the name of two distinct nodes hold both.
proof fn lemma_keys_named_pair(nodes: Seq<IrNodeView>, by_renamed: bool, p: int, q: int)
    requires
        0 <= p < q < nodes.len(),
        group_name(nodes[p], by_renamed) == group_name(nodes[q], by_renamed),
    ensures
        keys_named(nodes, group_name(nodes[p], by_renamed), by_renamed, nodes.len() as int).len() > 1,
        keys_named(nodes, group_name(nodes[p], by_renamed), by_renamed, nodes.len() as int).contains(nodes[p].key),
        keys_named(nodes, group_name(nodes[p], by_renamed), by_renamed, nodes.len() as int).contains(nodes[q].key),
{
    let name = group_name(nodes[p], by_renamed);
    let n = nodes.len() as int;
    lemma_keys_named_grow(nodes, name, by_renamed, 0, p);
    let kp = keys_named(nodes, name, by_renamed, p);
    let kp1 = keys_named(nodes, name, by_renamed, p + 1);
    assert(kp1 == kp.push(nodes[p].key));
    lemma_keys_named_grow(nodes, name, by_renamed, p + 1, q);
    let kq = keys_named(nodes, name, by_renamed, q);
    let kq1 = keys_named(nodes, name, by_renamed, q + 1);
    assert(kq1 == kq.push(nodes[q].key));
    lemma_keys_named_grow(nodes, name, by_renamed, q + 1, n);
    let all = keys_named(nodes, name, by_renamed, n);
    assert(kq[kp.len() as int] == nodes[p].key);
    assert(kq1[kp.len() as int] == nodes[p].key);
    assert(all[kp.len() as int] == nodes[p].key);
    assert(all[kq.len() as int] == nodes[q].key);
}

/// A diagnostic of the raw set is reported with its kind and node list.
proof fn lemma_reported(result: Seq<IrDiagnosticView>, raw: Set<IrDiagnosticView>, d: IrDiagnosticView)
    requires
        summarizes(result, raw),
        raw.contains(d),
    ensures
        exists|k: int| 0 <= k < result.len() && #[trigger] result[k].kind == d.kind && result[k].nodes == d.nodes,
{
    reveal(covers);
    let k = choose|k: int|
        0 <= k < result.len() && result[k].kind == d.kind && result[k].nodes == d.nodes && lex_order(#[trigger] result[k].message, d.message) <= 0;
    assert(result[k].kind == d.kind);
}

/// Declarations that share an original name under distinct module paths
/// are reported together as a same-name diagnostic.
pub proof fn law_same_name_reported(
    result: Seq<IrDiagnosticView>,
    nodes: Seq<IrNodeView>,
    sccs: Seq<IrSccView>,
    p: int,
    q: int,
)
    requires
        summarizes(result, raw_diagnostics(nodes, sccs)),
        0 <= p < q < nodes.len(),
        nodes[p].original == nodes[q].original,
        identity_of(nodes[p].module, nodes[p].original) != identity_of(nodes[q].module, nodes[q].original),
    ensures
        exists|k: int|
            0 <= k < result.len() && #[trigger] result[k].kind == IrDiagnosticKind::SameNameDifferentModule
                && result[k].nodes.contains(nodes[p].key) && result[k].nodes.contains(nodes[q].key),
{
    lemma_name_group_reported(result, nodes, sccs, p, q, false);
}

/// Declarations that serialize under one wire name are reported together
/// as a serialized-name conflict.
pub proof fn law_wire_conflict_reported(
    result: Seq<IrDiagnosticView>,
    nodes: Seq<IrNodeView>,
    sccs: Seq<IrSccView>,
    p: int,
    q: int,
)
    requires
        summarizes(result, raw_diagnostics(nodes, sccs)),
        0 <= p < q < nodes.len(),
        nodes[p].renamed == nodes[q].renamed,
    ensures
        exists|k: int|
            0 <= k < result.len() && #[trigger] result[k].kind == IrDiagnosticKind::SerializedNameConflict
                && result[k].nodes.contains(nodes[p].key) && result[k].nodes.contains(nodes[q].key),
{
    lemma_name_group_reported(result, nodes, sccs, p, q, true);
}

proof fn lemma_name_group_reported(
    result: Seq<IrDiagnosticView>,
    nodes: Seq<IrNodeView>,
    sccs: Seq<IrSccView>,
    p: int,
    q: int,
    by_renamed: bool,
)
    requires
        summarizes(result, raw_diagnostics(nodes, sccs)),
        0 <= p < q < nodes.len(),
        group_name(nodes[p], by_renamed) == group_name(nodes[q], by_renamed),
        !by_renamed ==> identity_of(nodes[p].module, nodes[p].original) != identity_of(nodes[q].module, nodes[q].original),
    ensures
        exists|k: int|
            0 <= k < result.len() && #[trigger] result[k].kind == (if by_renamed {
                IrDiagnosticKind::SerializedNameConflict
            } else {
                IrDiagnosticKind::SameNameDifferentModule
            }) && result[k].nodes.contains(nodes[p].key) && result[k].nodes.contains(nodes[q].key),
{
    let n = nodes.len() as int;
    let name = group_name(nodes[p], by_renamed);
    let listed = identities_upto(nodes, name, by_renamed, n);
    lemma_identities_upto(nodes, name, by_renamed, n);
    assert(listed.to_set() =~= identities_named(nodes, name, by_renamed));
    let ids = sorted_set_of(listed);
    lemma_sorted_set_of(listed);
    let idp = identity_of(nodes[p].module, nodes[p].original);
    let idq = identity_of(nodes[q].module, nodes[q].original);
    if !by_renamed {
        assert(listed.to_set().contains(idp));
        assert(listed.to_set().contains(idq));
        if ids.len() <= 1 {
            assert(ids.contains(idp));
            assert(ids.contains(idq));
            let a = choose|a: int| 0 <= a < ids.len() && ids[a] == idp;
            let b = choose|b: int| 0 <= b < ids.len() && ids[b] == idq;
            assert(false);
        }
    }
    lemma_keys_named_pair(nodes, by_renamed, p, q);
    let d = name_diagnostic(nodes, name, by_renamed, ids);
    assert(name_case(nodes, group_name(nodes[p], by_renamed), by_renamed, ids, d));
    assert(name_set_upto(nodes, by_renamed, n).contains(d));
    assert(raw_diagnostics(nodes, sccs).contains(d));
    lemma_reported(result, raw_diagnostics(nodes, sccs), d);
}

/// An SCC reached through a serde rename is reported as a rename cycle
/// naming exactly its members, in increasing order.
pub proof fn law_rename_cycle_reported(result: Seq<IrDiagnosticView>, nodes: Seq<IrNodeView>, sccs: Seq<IrSccView>, i: int)
    requires
        summarizes(result, raw_diagnostics(nodes, sccs)),
        0 <= i < sccs.len(),
        sccs[i].induced_by_rename,
    ensures
        exists|k: int|
            0 <= k < result.len() && #[trigger] result[k].kind == IrDiagnosticKind::RenameCycle && strictly_sorted(result[k].nodes)
                && result[k].nodes.to_set() == sccs[i].members.to_set(),
{
    let ms = sorted_set_of(sccs[i].members);
    lemma_sorted_set_of(sccs[i].members);
    let d = IrDiagnosticView { kind: IrDiagnosticKind::RenameCycle, message: cycle_message(ms), nodes: ms };
    assert(cycle_case(sccs, i, ms, d));
    assert(cycle_set_upto(sccs, sccs.len() as int).contains(d));
    assert(raw_diagnostics(nodes, sccs).contains(d));
    lemma_reported(result, raw_diagnostics(nodes, sccs), d);
}

/// A generic parameter named like a declared type is reported as shadowing
/// it, on the node that declares the parameter.
pub proof fn law_shadowing_reported(
    result: Seq<IrDiagnosticView>,
    nodes: Seq<IrNodeView>,
    sccs: Seq<IrSccView>,
    p: int,
    j: int,
    q: int,
)
    requires
        summarizes(result, raw_diagnostics(nodes, sccs)),
        0 <= p < nodes.len(),
        0 <= j < nodes[p].generic_params.len(),
        0 <= q < nodes.len(),
        nodes[q].original == nodes[p].generic_params[j].name,
    ensures
        exists|k: int|
            0 <= k < result.len() && #[trigger] result[k].kind == IrDiagnosticKind::GenericShadowing && result[k].nodes == seq![
                nodes[p].key,
            ],
{
    let d = IrDiagnosticView {
        kind: IrDiagnosticKind::GenericShadowing,
        message: shadow_message(nodes[p].generic_params[j].name, identity_of(nodes[p].module, nodes[p].original)),
        nodes: seq![nodes[p].key],
    };
    assert(declared(nodes, nodes[p].generic_params[j].name));
    assert(shadow_case(nodes, p, j, d));
    assert(shadow_set_upto(nodes, nodes.len() as int, 0).contains(d));
    assert(raw_diagnostics(nodes, sccs).contains(d));
    lemma_reported(result, raw_diagnostics(nodes, sccs), d);
}


/// Along every edge, the target lies in the source's topological group
/// when both lie in one part (the same node, or one SCC), and in an earlier
/// group otherwise: group `n` only depends on groups before `n`.
pub proof fn law_edge_levels(
    groups: Seq<IrTopoGroupView>,
    sccs: Seq<IrSccView>,
    comps: Seq<Seq<usize>>,
    origin: Seq<int>,
    nodes: Seq<IrNodeView>,
    edges: Set<IrEdgeView>,
    e: IrEdgeView,
)
    requires
        keys_sorted(nodes),
        presents_cycles(sccs, comps, origin, nodes, edges),
        topo_ok(groups, nodes, sccs, edge_relation(nodes, edges)),
        ends_are_nodes(edges, nodes),
        edges.contains(e),
    ensures
        exists|gf: int, gt: int|
            #[trigger] in_group(groups, gf, e.from) && #[trigger] in_group(groups, gt, e.to) && (if together(sccs, e.from, e.to) {
                gt == gf
            } else {
                gt < gf
            }),
{
    let u = choose|u: int| 0 <= u < nodes.len() && #[trigger] nodes[u].key == e.from;
    let v = choose|v: int| 0 <= v < nodes.len() && #[trigger] nodes[v].key == e.to;
    law_every_node_grouped(groups, sccs, comps, origin, nodes, edges, u);
    let gf = choose|g: int| #[trigger] in_group(groups, g, nodes[u].key);
    assert(edge_relation(nodes, edges)(u, v));
    if together(sccs, e.from, e.to) {
        assert(in_group(groups, gf, nodes[v].key));
        assert(in_group(groups, gf, e.to));
    } else {
        assert(depends_outside(nodes, sccs, edge_relation(nodes, edges), u, v));
        assert(in_group_before(groups, gf, nodes[v].key));
        let gt = choose|h: int| 0 <= h < gf && #[trigger] in_group(groups, h, nodes[v].key);
        assert(in_group(groups, gt, e.to));
    }
}

proof fn lemma_keys_named_sorted(nodes: Seq<IrNodeView>, name: Seq<char>, by_renamed: bool, n: int)
    requires
        keys_sorted(nodes),
        0 <= n <= nodes.len(),
    ensures
        strictly_sorted(keys_named(nodes, name, by_renamed, n)),
        forall|k: int|
            0 <= k < keys_named(nodes, name, by_renamed, n).len() ==> exists|p: int|
                0 <= p < n && #[trigger] nodes[p].key == #[trigger] keys_named(nodes, name, by_renamed, n)[k],
    decreases n,
{
    if n > 0 {
        lemma_keys_named_sorted(nodes, name, by_renamed, n - 1);
        let prev = keys_named(nodes, name, by_renamed, n - 1);
        let cur = keys_named(nodes, name, by_renamed, n);
        if group_name(nodes[n - 1], by_renamed) == name {
            assert forall|i: int, j: int| 0 <= i < j < cur.len() implies lex_order(#[trigger] cur[i], #[trigger] cur[j]) < 0 by {
                assert(cur[i] == prev[i]);
                if j < prev.len() {
                    assert(cur[j] == prev[j]);
                } else {
                    let p = choose|p: int| 0 <= p < n - 1 && #[trigger] nodes[p].key == prev[i];
                    assert(lex_order(nodes[p].key, nodes[n - 1].key) < 0);
                }
            }
            assert forall|k: int| 0 <= k < cur.len() implies exists|p: int| 0 <= p < n && #[trigger] nodes[p].key == #[trigger] cur[k] by {
                if k < prev.len() {
                    assert(cur[k] == prev[k]);
                    let p = choose|p: int| 0 <= p < n - 1 && #[trigger] nodes[p].key == prev[k];
                } else {
                    assert(nodes[n - 1].key == cur[k]);
                }
            }
        }
    }
}

/// Every diagnostic lists its node keys in increasing order, without
/// repeats.
pub proof fn law_diagnostic_nodes_sorted(result: Seq<IrDiagnosticView>, nodes: Seq<IrNodeView>, sccs: Seq<IrSccView>, k: int)
    requires
        keys_sorted(nodes),
        summarizes(result, raw_diagnostics(nodes, sccs)),
        0 <= k < result.len(),
    ensures
        strictly_sorted(result[k].nodes),
{
    let d = result[k];
    assert(raw_diagnostics(nodes, sccs).contains(d));
    let n = nodes.len() as int;
    if name_set_upto(nodes, false, n).contains(d) {
        let (p, ids) = choose|p: int, ids: Seq<Seq<char>>| 0 <= p < n && #[trigger] name_case(nodes, group_name(nodes[p], false), false, ids, d);
        lemma_keys_named_sorted(nodes, group_name(nodes[p], false), false, n);
    } else if name_set_upto(nodes, true, n).contains(d) {
        let (p, ids) = choose|p: int, ids: Seq<Seq<char>>| 0 <= p < n && #[trigger] name_case(nodes, group_name(nodes[p], true), true, ids, d);
        lemma_keys_named_sorted(nodes, group_name(nodes[p], true), true, n);
    } else if cycle_set_upto(sccs, sccs.len() as int).contains(d) {
        let (i, ms) = choose|i: int, ms: Seq<Seq<char>>| i < sccs.len() && #[trigger] cycle_case(sccs, i, ms, d);
    } else {
        assert(shadow_set_upto(nodes, n, 0).contains(d));
        let (p, j) = choose|p: int, j: int| (p < n || (p == n && j < 0)) && #[trigger] shadow_case(nodes, p, j, d);
        assert(d.nodes.len() == 1);
    }
}

} // verus!
