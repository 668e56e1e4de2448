//! Strongly connected components of the node graph, as presented in the
//! graph: the cyclic ones, with their members in source order, their
//! internal edges and whether a serde rename is involved.

use vstd::prelude::*;
use crate::ir::edge_order::edges_sorted;
use crate::ir::edges::{adjacency_of, edge_between, edge_relation, ends_are_nodes};
use crate::ir::levels::list_contains;
use crate::ir::model::{IrEdge, IrEdgeView, IrNode, IrNodeView, IrScc, IrSccView};
use crate::ir::nodes::{keys_sorted, lemma_key_position};
use crate::ir::order::{
    insert_in_source_order, key_before, keys_in_source_order, lemma_key_before, order_of,
    positions_in_source_order,
};
use crate::ir::reach::adj_relation;
use crate::ir::scc::{components_connected, components_maximal, is_node_partition, tarjan_components};
use crate::text::{compare_str, lemma_lex_order_basics, lemma_lex_order_trans, lex_order, strings_contain};

verus! {

/// Three-way order of key pairs: by first key, then by second key.
pub open spec fn pair_order(a: (Seq<char>, Seq<char>), b: (Seq<char>, Seq<char>)) -> int {
    if lex_order(a.0, b.0) != 0 {
        lex_order(a.0, b.0)
    } else {
        lex_order(a.1, b.1)
    }
}

/// Pairs strictly increase along the list.
pub open spec fn pairs_sorted(ps: Seq<(Seq<char>, Seq<char>)>) -> bool {
    forall|i: int, j: int| 0 <= i < j < ps.len() ==> pair_order(#[trigger] ps[i], #[trigger] ps[j]) < 0
}

proof fn lemma_pair_order(a: (Seq<char>, Seq<char>), b: (Seq<char>, Seq<char>), c: (Seq<char>, Seq<char>))
    ensures
        (pair_order(a, b) == 0) == (a == b),
        pair_order(b, a) == -pair_order(a, b),
        pair_order(a, b) < 0 && pair_order(b, c) < 0 ==> pair_order(a, c) < 0,
{
    lemma_lex_order_basics(a.0, b.0);
    lemma_lex_order_basics(a.1, b.1);
    lemma_lex_order_basics(b.0, c.0);
    lemma_lex_order_basics(a.0, c.0);
    if lex_order(a.0, b.0) <= 0 && lex_order(b.0, c.0) <= 0 {
        lemma_lex_order_trans(a.0, b.0, c.0);
    }
    if lex_order(a.0, b.0) == 0 && lex_order(b.0, c.0) == 0 && lex_order(a.1, b.1) < 0 && lex_order(b.1, c.1) < 0 {
        lemma_lex_order_trans(a.1, b.1, c.1);
    }
}

fn compare_pairs(a: &(String, String), b: &(String, String)) -> (r: i8)
    ensures
        r as int == pair_order(a.deep_view(), b.deep_view()),
{
    let c = compare_str(a.0.as_str(), b.0.as_str());
    if c != 0 {
        c
    } else {
        compare_str(a.1.as_str(), b.1.as_str())
    }
}

/// Adds a pair to a strictly increasing pair list unless it is there.
fn insert_pair(list: &mut Vec<(String, String)>, pair: (String, String))
    requires
        pairs_sorted(old(list).deep_view()),
    ensures
        pairs_sorted(final(list).deep_view()),
        forall|x: (Seq<char>, Seq<char>)| #[trigger] final(list).deep_view().contains(x) <==> old(list).deep_view().contains(x) || x == pair.deep_view(),
{
    let ghost l0 = list.deep_view();
    let ghost pv = pair.deep_view();
    let mut i: usize = 0;
    while i < list.len()
        invariant
            i <= list.len(),
            list.deep_view() == l0,
            old(list).deep_view() == l0,
            pv == pair.deep_view(),
            pairs_sorted(l0),
            forall|k: int| 0 <= k < i ==> pair_order(#[trigger] l0[k], pv) < 0,
        decreases list.len() - i,
    {
        let c = compare_pairs(&list[i], &pair);
        assert(l0[i as int] == list[i as int].deep_view());
        if c == 0 {
            proof {
                lemma_pair_order(l0[i as int], pv, pv);
                assert(l0.contains(pv));
            }
            return;
        }
        if c > 0 {
            list.insert(i, pair);
            proof {
                let l1 = list.deep_view();
                assert(l1 =~= l0.insert(i as int, pv));
                lemma_pair_order(l0[i as int], pv, pv);
                assert forall|a: int, b: int| 0 <= a < b < l1.len() implies pair_order(#[trigger] l1[a], #[trigger] l1[b]) < 0 by {
                    if b < i {
                        assert(l1[a] == l0[a] && l1[b] == l0[b]);
                    } else if b == i {
                        assert(l1[a] == l0[a]);
                    } else if a == i {
                        assert(l1[b] == l0[b - 1]);
                        if b - 1 > i {
                            lemma_pair_order(pv, l0[i as int], l0[b - 1]);
                        }
                    } else if a < i {
                        assert(l1[a] == l0[a] && l1[b] == l0[b - 1]);
                        lemma_pair_order(l0[a], pv, l0[i as int]);
                        if b - 1 > i {
                            lemma_pair_order(l0[a], l0[i as int], l0[b - 1]);
                        }
                    } else {
                        assert(l1[a] == l0[a - 1] && l1[b] == l0[b - 1]);
                    }
                }
                assert forall|x: (Seq<char>, Seq<char>)| #[trigger] l1.contains(x) <==> l0.contains(x) || x == pv by {
                    if l1.contains(x) {
                        let k = choose|k: int| 0 <= k < l1.len() && l1[k] == x;
                        if k < i {
                            assert(l0[k] == x);
                        } else if k > i {
                            assert(l0[k - 1] == x);
                        }
                    }
                    if l0.contains(x) {
                        let k = choose|k: int| 0 <= k < l0.len() && l0[k] == x;
                        if k < i {
                            assert(l1[k] == x);
                        } else {
                            assert(l1[k + 1] == x);
                        }
                    }
                    if x == pv {
                        assert(l1[i as int] == x);
                    }
                }
            }
            return;
        }
        proof {
            lemma_pair_order(l0[i as int], pv, pv);
        }
        i = i + 1;
    }
    list.push(pair);
    proof {
        let l1 = list.deep_view();
        assert(l1 =~= l0.push(pv));
        assert forall|a: int, b: int| 0 <= a < b < l1.len() implies pair_order(#[trigger] l1[a], #[trigger] l1[b]) < 0 by {
            assert(l1[a] == l0[a]);
            if b < l0.len() {
                assert(l1[b] == l0[b]);
            }
        }
        assert forall|x: (Seq<char>, Seq<char>)| #[trigger] l1.contains(x) <==> l0.contains(x) || x == pv by {
            if l1.contains(x) {
                let k = choose|k: int| 0 <= k < l1.len() && l1[k] == x;
                if k < l0.len() {
                    assert(l0[k] == x);
                }
            }
            if l0.contains(x) {
                let k = choose|k: int| 0 <= k < l0.len() && l0[k] == x;
                assert(l1[k] == x);
            }
            if x == pv {
                assert(l1[l0.len() as int] == x);
            }
        }
    }
}

/// Both ends of edge `e` are among `members`.
pub open spec fn internal(members: Seq<Seq<char>>, e: IrEdgeView) -> bool {
    members.contains(e.from) && members.contains(e.to)
}

/// The internal edges of `members` as a sorted, repeat-free list of key
/// pairs, and whether one of them came through a serde rename.
fn internal_edges(members: &Vec<String>, edges: &Vec<IrEdge>) -> (r: (Vec<(String, String)>, bool))
    ensures
        pairs_sorted(r.0.deep_view()),
        forall|pr: (Seq<char>, Seq<char>)| #[trigger] r.0.deep_view().contains(pr) <==> exists|e: IrEdgeView|
            #[trigger] edges.deep_view().to_set().contains(e) && internal(members.deep_view(), e) && e.from == pr.0 && e.to == pr.1,
        r.1 <==> exists|e: IrEdgeView|
            #[trigger] edges.deep_view().to_set().contains(e) && e.via_rename_reconcile && internal(members.deep_view(), e),
{
    let ghost mv = members.deep_view();
    let ghost ev = edges.deep_view();
    let mut pairs: Vec<(String, String)> = Vec::new();
    let mut induced = false;
    let mut k: usize = 0;
    while k < edges.len()
        invariant
            k <= edges.len(),
            mv == members.deep_view(),
            ev == edges.deep_view(),
            pairs_sorted(pairs.deep_view()),
            forall|pr: (Seq<char>, Seq<char>)| #[trigger] pairs.deep_view().contains(pr) <==> exists|j: int|
                0 <= j < k && internal(mv, #[trigger] ev[j]) && ev[j].from == pr.0 && ev[j].to == pr.1,
            induced <==> exists|j: int| 0 <= j < k && #[trigger] ev[j].via_rename_reconcile && internal(mv, ev[j]),
        decreases edges.len() - k,
    {
        let edge = &edges[k];
        assert(ev[k as int] == edge@);
        let ghost before = pairs.deep_view();
        if strings_contain(members, &edge.from) && strings_contain(members, &edge.to) {
            let pair = (edge.from.clone(), edge.to.clone());
            assert(pair.deep_view() == (edge.from@, edge.to@));
            insert_pair(&mut pairs, pair);
            if edge.via_rename_reconcile {
                induced = true;
            }
            proof {
                assert forall|pr: (Seq<char>, Seq<char>)| #[trigger] pairs.deep_view().contains(pr) <==> exists|j: int|
                    0 <= j < k + 1 && internal(mv, #[trigger] ev[j]) && ev[j].from == pr.0 && ev[j].to == pr.1 by {
                    if before.contains(pr) {
                        let j = choose|j: int| 0 <= j < k && internal(mv, #[trigger] ev[j]) && ev[j].from == pr.0 && ev[j].to == pr.1;
                        assert(0 <= j < k + 1 && internal(mv, ev[j]) && ev[j].from == pr.0 && ev[j].to == pr.1);
                    }
                    if pr == (edge.from@, edge.to@) {
                        assert(internal(mv, ev[k as int]) && ev[k as int].from == pr.0 && ev[k as int].to == pr.1);
                    }
                }
                if edge.via_rename_reconcile {
                    assert(ev[k as int].via_rename_reconcile && internal(mv, ev[k as int]));
                } else if exists|j: int| 0 <= j < k + 1 && #[trigger] ev[j].via_rename_reconcile && internal(mv, ev[j]) {
                    let j = choose|j: int| 0 <= j < k + 1 && #[trigger] ev[j].via_rename_reconcile && internal(mv, ev[j]);
                    assert(j < k);
                }
                assert(induced <==> exists|j: int| 0 <= j < k + 1 && #[trigger] ev[j].via_rename_reconcile && internal(mv, ev[j]));
            }
        } else {
            proof {
                assert(!internal(mv, ev[k as int]));
                if exists|j: int| 0 <= j < k + 1 && #[trigger] ev[j].via_rename_reconcile && internal(mv, ev[j]) {
                    let j = choose|j: int| 0 <= j < k + 1 && #[trigger] ev[j].via_rename_reconcile && internal(mv, ev[j]);
                    assert(j < k);
                }
                assert forall|pr: (Seq<char>, Seq<char>)| #[trigger] pairs.deep_view().contains(pr) <==> exists|j: int|
                    0 <= j < k + 1 && internal(mv, #[trigger] ev[j]) && ev[j].from == pr.0 && ev[j].to == pr.1 by {
                    if before.contains(pr) {
                        let j = choose|j: int| 0 <= j < k && internal(mv, #[trigger] ev[j]) && ev[j].from == pr.0 && ev[j].to == pr.1;
                        assert(0 <= j < k + 1 && internal(mv, ev[j]) && ev[j].from == pr.0 && ev[j].to == pr.1);
                    }
                }
            }
        }
        k = k + 1;
    }
    proof {
        assert forall|pr: (Seq<char>, Seq<char>)| #[trigger] pairs.deep_view().contains(pr) <==> exists|e: IrEdgeView|
            #[trigger] ev.to_set().contains(e) && internal(mv, e) && e.from == pr.0 && e.to == pr.1 by {
            if pairs.deep_view().contains(pr) {
                let j = choose|j: int| 0 <= j < ev.len() && internal(mv, #[trigger] ev[j]) && ev[j].from == pr.0 && ev[j].to == pr.1;
                assert(ev.to_set().contains(ev[j]));
            }
            if exists|e: IrEdgeView| #[trigger] ev.to_set().contains(e) && internal(mv, e) && e.from == pr.0 && e.to == pr.1 {
                let e = choose|e: IrEdgeView| #[trigger] ev.to_set().contains(e) && internal(mv, e) && e.from == pr.0 && e.to == pr.1;
                let j = choose|j: int| 0 <= j < ev.len() && ev[j] == e;
                assert(internal(mv, ev[j]));
            }
        }
        if exists|e: IrEdgeView| #[trigger] ev.to_set().contains(e) && e.via_rename_reconcile && internal(mv, e) {
            let e = choose|e: IrEdgeView| #[trigger] ev.to_set().contains(e) && e.via_rename_reconcile && internal(mv, e);
            let j = choose|j: int| 0 <= j < ev.len() && ev[j] == e;
            assert(ev[j].via_rename_reconcile && internal(mv, ev[j]));
        }
        if induced {
            let j = choose|j: int| 0 <= j < ev.len() && #[trigger] ev[j].via_rename_reconcile && internal(mv, ev[j]);
            assert(ev.to_set().contains(ev[j]));
        }
    }
    (pairs, induced)
}

/// The nodes at positions `comp` form a cycle: there are several of them,
/// or one with an edge to itself.
pub open spec fn is_cycle(nodes: Seq<IrNodeView>, edges: Set<IrEdgeView>, comp: Seq<usize>) -> bool {
    comp.len() > 1 || (comp.len() == 1 && edge_between(edges, nodes[comp[0] as int].key, nodes[comp[0] as int].key))
}

/// `scc` presents the nodes at positions `comp`: their keys in source
/// order, the edges between them as sorted key pairs, and whether one of
/// those edges came through a serde rename.
pub open spec fn presents(scc: IrSccView, comp: Seq<usize>, nodes: Seq<IrNodeView>, edges: Set<IrEdgeView>) -> bool {
    &&& scc.members.len() == comp.len()
    &&& forall|key: Seq<char>| #[trigger] scc.members.contains(key) <==> exists|k: int| 0 <= k < comp.len() && nodes[comp[k] as int].key == key
    &&& keys_in_source_order(scc.members, nodes)
    &&& pairs_sorted(scc.edges)
    &&& forall|pr: (Seq<char>, Seq<char>)| #[trigger] scc.edges.contains(pr) <==> exists|e: IrEdgeView|
        #[trigger] edges.contains(e) && internal(scc.members, e) && e.from == pr.0 && e.to == pr.1
    &&& scc.induced_by_rename <==> exists|e: IrEdgeView| #[trigger] edges.contains(e) && e.via_rename_reconcile && internal(scc.members, e)
}

/// Source order of the first member of an SCC.
pub open spec fn scc_rank(scc: IrSccView, nodes: Seq<IrNodeView>) -> int {
    if scc.members.len() > 0 {
        order_of(nodes, scc.members[0])
    } else {
        usize::MAX as int
    }
}

/// `sccs` presents, each once, the cyclic parts of the partition `comps` of
/// the nodes into strongly connected components (the nodes of a part reach
/// each other along the edges, and nodes that reach each other share a
/// part); `origin[i]` is the part `sccs[i]` presents. They are ordered by
/// the source order of their first members, ties in the order of `comps`.
pub open spec fn presents_cycles(
    sccs: Seq<IrSccView>,
    comps: Seq<Seq<usize>>,
    origin: Seq<int>,
    nodes: Seq<IrNodeView>,
    edges: Set<IrEdgeView>,
) -> bool {
    &&& is_node_partition(comps, nodes.len() as int)
    &&& components_connected(edge_relation(nodes, edges), comps)
    &&& components_maximal(edge_relation(nodes, edges), comps)
    &&& origin.len() == sccs.len()
    &&& forall|i: int| 0 <= i < sccs.len() ==> 0 <= #[trigger] origin[i] < comps.len() && is_cycle(nodes, edges, comps[origin[i]])
        && presents(sccs[i], comps[origin[i]], nodes, edges)
    &&& forall|c: int| 0 <= c < comps.len() && is_cycle(nodes, edges, #[trigger] comps[c]) ==> exists|i: int| 0 <= i < sccs.len() && origin[i] == c
    &&& forall|i: int, j: int| 0 <= i < j < sccs.len() ==> #[trigger] origin[i] != #[trigger] origin[j]
    &&& forall|i: int, j: int| 0 <= i < j < sccs.len() ==> scc_rank(#[trigger] sccs[i], nodes) < scc_rank(#[trigger] sccs[j], nodes)
        || (scc_rank(sccs[i], nodes) == scc_rank(sccs[j], nodes) && origin[i] < origin[j])
}

/// Presents the nodes at positions `comp`, with the source order of its
/// first member.
fn scc_from_component(comp: &Vec<usize>, nodes: &Vec<IrNode>, edges: &Vec<IrEdge>) -> (r: (IrScc, usize))
    requires
        keys_sorted(nodes.deep_view()),
        comp.len() > 0,
        forall|k: int| 0 <= k < comp.len() ==> #[trigger] comp@[k] < nodes.len(),
        forall|k1: int, k2: int| 0 <= k1 < k2 < comp.len() ==> #[trigger] comp@[k1] != #[trigger] comp@[k2],
    ensures
        presents(r.0@, comp@, nodes.deep_view(), edges.deep_view().to_set()),
        r.1 as int == scc_rank(r.0@, nodes.deep_view()),
{
    let ghost nv = nodes.deep_view();
    let mut ps: Vec<usize> = Vec::new();
    let mut k: usize = 0;
    while k < comp.len()
        invariant
            k <= comp.len(),
            nv == nodes.deep_view(),
            keys_sorted(nv),
            forall|j: int| 0 <= j < comp.len() ==> #[trigger] comp@[j] < nodes.len(),
            forall|k1: int, k2: int| 0 <= k1 < k2 < comp.len() ==> #[trigger] comp@[k1] != #[trigger] comp@[k2],
            positions_in_source_order(ps@, nv),
            ps.len() == k,
            forall|x: usize| #[trigger] ps@.contains(x) <==> exists|j: int| 0 <= j < k && comp@[j] == x,
        decreases comp.len() - k,
    {
        let c = comp[k];
        proof {
            if ps@.contains(c) {
                let j = choose|j: int| 0 <= j < k && comp@[j] == c;
                assert(comp@[j] != comp@[k as int]);
            }
        }
        insert_in_source_order(&mut ps, c, nodes);
        proof {
            assert forall|x: usize| #[trigger] ps@.contains(x) <==> exists|j: int| 0 <= j < k + 1 && comp@[j] == x by {
                if x == c {
                    assert(comp@[k as int] == x);
                }
            }
        }
        k = k + 1;
    }
    let mut members: Vec<String> = Vec::new();
    let mut m: usize = 0;
    while m < ps.len()
        invariant
            m <= ps.len(),
            nv == nodes.deep_view(),
            positions_in_source_order(ps@, nv),
            members.len() == m,
            forall|j: int| 0 <= j < m ==> #[trigger] members.deep_view()[j] == nv[ps@[j] as int].key,
        decreases ps.len() - m,
    {
        let key = nodes[ps[m]].key.clone();
        assert(nv[ps@[m as int] as int] == nodes[ps@[m as int] as int]@);
        assert(key@ == nv[ps@[m as int] as int].key);
        let ghost before = members.deep_view();
        members.push(key);
        proof {
            assert(members.deep_view() =~= before.push(key@));
        }
        m = m + 1;
    }
    let ghost mv = members.deep_view();
    proof {
        assert forall|i: int, j: int| 0 <= i < j < mv.len() implies key_before(nv, #[trigger] mv[i], #[trigger] mv[j]) by {
            assert(mv[i] == nv[ps@[i] as int].key);
            assert(mv[j] == nv[ps@[j] as int].key);
        }
        assert forall|key: Seq<char>| #[trigger] mv.contains(key) <==> exists|k: int| 0 <= k < comp@.len() && nv[comp@[k] as int].key == key by {
            if mv.contains(key) {
                let i = choose|i: int| 0 <= i < mv.len() && mv[i] == key;
                assert(ps@.contains(ps@[i]));
                let j = choose|j: int| 0 <= j < comp.len() && comp@[j] == ps@[i];
                assert(nv[comp@[j] as int].key == key);
            }
            if exists|k: int| 0 <= k < comp@.len() && nv[comp@[k] as int].key == key {
                let j = choose|j: int| 0 <= j < comp@.len() && nv[comp@[j] as int].key == key;
                assert(ps@.contains(comp@[j]));
                let i = choose|i: int| 0 <= i < ps@.len() && ps@[i] == comp@[j];
                assert(mv[i] == key);
            }
        }
        lemma_key_position(nv, ps@[0] as int);
    }
    let (pairs, induced) = internal_edges(&members, edges);
    let rank = nodes[ps[0]].source_order;
    assert(nv[ps@[0] as int] == nodes[ps@[0] as int]@);
    (IrScc { members, edges: pairs, induced_by_rename: induced }, rank)
}

/// Inserts `scc` with source rank `rank` after every entry of rank at most
/// `rank` and before the first of larger rank.
fn insert_ranked(sccs: &mut Vec<IrScc>, ranks: &mut Vec<usize>, scc: IrScc, rank: usize) -> (i: usize)
    requires
        old(sccs).len() == old(ranks).len(),
    ensures
        i <= old(ranks).len(),
        final(sccs).deep_view() == old(sccs).deep_view().insert(i as int, scc@),
        final(ranks)@ == old(ranks)@.insert(i as int, rank),
        forall|j: int| 0 <= j < i ==> #[trigger] old(ranks)@[j] <= rank,
        i < old(ranks).len() ==> old(ranks)@[i as int] > rank,
{
    let ghost before = sccs.deep_view();
    let ghost sv = scc@;
    let mut i: usize = 0;
    while i < ranks.len()
        invariant
            i <= ranks.len(),
            ranks@ == old(ranks)@,
            forall|j: int| 0 <= j < i ==> #[trigger] old(ranks)@[j] <= rank,
        ensures
            i <= ranks.len(),
            ranks@ == old(ranks)@,
            forall|j: int| 0 <= j < i ==> #[trigger] old(ranks)@[j] <= rank,
            i < ranks.len() ==> old(ranks)@[i as int] > rank,
        decreases ranks.len() - i,
    {
        if ranks[i] > rank {
            break;
        }
        i = i + 1;
    }
    sccs.insert(i, scc);
    ranks.insert(i, rank);
    assert(sccs.deep_view() =~= before.insert(i as int, sv));
    i
}

#[verifier::rlimit(40)]
proof fn lemma_insert_keeps_cycles(
    before: Seq<IrSccView>,
    before_origin: Seq<int>,
    before_ranks: Seq<usize>,
    now: Seq<IrSccView>,
    origin: Seq<int>,
    ranks: Seq<usize>,
    i: int,
    c: int,
    rank: usize,
    comps: Seq<Seq<usize>>,
    nv: Seq<IrNodeView>,
    es: Set<IrEdgeView>,
)
    requires
        0 <= c < comps.len(),
        0 <= i <= before.len(),
        before_origin.len() == before.len(),
        before_ranks.len() == before.len(),
        now == before.insert(i, now[i]),
        origin == before_origin.insert(i, c),
        ranks == before_ranks.insert(i, rank),
        is_cycle(nv, es, comps[c]),
        presents(now[i], comps[c], nv, es),
        rank as int == scc_rank(now[i], nv),
        forall|j: int| 0 <= j < i ==> #[trigger] before_ranks[j] <= rank,
        i < before.len() ==> before_ranks[i] > rank,
        forall|j: int| 0 <= j < before.len() ==> #[trigger] before_ranks[j] as int == scc_rank(before[j], nv),
        forall|j: int| 0 <= j < before.len() ==> 0 <= #[trigger] before_origin[j] < c && is_cycle(nv, es, comps[before_origin[j]])
            && presents(before[j], comps[before_origin[j]], nv, es),
        forall|d: int| 0 <= d < c && is_cycle(nv, es, #[trigger] comps[d]) ==> exists|j: int| 0 <= j < before.len() && before_origin[j] == d,
        forall|a: int, b: int| 0 <= a < b < before.len() ==> #[trigger] before_origin[a] != #[trigger] before_origin[b],
        forall|a: int, b: int| 0 <= a < b < before.len() ==> scc_rank(#[trigger] before[a], nv) < scc_rank(#[trigger] before[b], nv)
            || (scc_rank(before[a], nv) == scc_rank(before[b], nv) && before_origin[a] < before_origin[b]),
    ensures
        forall|j: int| 0 <= j < now.len() ==> #[trigger] ranks[j] as int == scc_rank(now[j], nv),
        forall|j: int| 0 <= j < now.len() ==> 0 <= #[trigger] origin[j] < c + 1 && is_cycle(nv, es, comps[origin[j]])
            && presents(now[j], comps[origin[j]], nv, es),
        forall|d: int| 0 <= d < c + 1 && is_cycle(nv, es, #[trigger] comps[d]) ==> exists|j: int| 0 <= j < now.len() && origin[j] == d,
        forall|a: int, b: int| 0 <= a < b < now.len() ==> #[trigger] origin[a] != #[trigger] origin[b],
        forall|a: int, b: int| 0 <= a < b < now.len() ==> scc_rank(#[trigger] now[a], nv) < scc_rank(#[trigger] now[b], nv)
            || (scc_rank(now[a], nv) == scc_rank(now[b], nv) && origin[a] < origin[b]),
{
    assert forall|j: int| 0 <= j < now.len() implies #[trigger] ranks[j] as int == scc_rank(now[j], nv) by {
        if j < i {
            assert(now[j] == before[j]);
        } else if j > i {
            assert(now[j] == before[j - 1]);
        }
    }
    assert forall|j: int| 0 <= j < now.len() implies 0 <= #[trigger] origin[j] < c + 1 && is_cycle(nv, es, comps[origin[j]])
        && presents(now[j], comps[origin[j]], nv, es) by {
        if j < i {
            assert(now[j] == before[j] && origin[j] == before_origin[j]);
        } else if j > i {
            assert(now[j] == before[j - 1] && origin[j] == before_origin[j - 1]);
        }
    }
    assert forall|d: int| 0 <= d < c + 1 && is_cycle(nv, es, #[trigger] comps[d]) implies exists|j: int| 0 <= j < now.len() && origin[j] == d by {
        if d < c {
            let j = choose|j: int| 0 <= j < before.len() && before_origin[j] == d;
            if j < i {
                assert(origin[j] == d);
            } else {
                assert(origin[j + 1] == d);
            }
        } else {
            assert(origin[i] == d);
        }
    }
    assert forall|a: int, b: int| 0 <= a < b < now.len() implies #[trigger] origin[a] != #[trigger] origin[b] by {
        if a < i && b < i {
            assert(origin[a] == before_origin[a] && origin[b] == before_origin[b]);
        } else if a < i && b == i {
            assert(origin[a] == before_origin[a]);
        } else if a < i {
            assert(origin[a] == before_origin[a] && origin[b] == before_origin[b - 1]);
        } else if a == i {
            assert(origin[b] == before_origin[b - 1]);
        } else {
            assert(origin[a] == before_origin[a - 1] && origin[b] == before_origin[b - 1]);
        }
    }
    assert forall|a: int, b: int| 0 <= a < b < now.len() implies scc_rank(#[trigger] now[a], nv) < scc_rank(#[trigger] now[b], nv)
        || (scc_rank(now[a], nv) == scc_rank(now[b], nv) && origin[a] < origin[b]) by {
        assert(ranks[a] as int == scc_rank(now[a], nv));
        assert(ranks[b] as int == scc_rank(now[b], nv));
        if b < i {
            assert(now[a] == before[a] && now[b] == before[b]);
            assert(origin[a] == before_origin[a] && origin[b] == before_origin[b]);
        } else if b == i {
            assert(now[a] == before[a] && origin[a] == before_origin[a]);
            assert(before_ranks[a] <= rank);
        } else if a == i {
            assert(now[b] == before[b - 1] && origin[b] == before_origin[b - 1]);
            if b - 1 > i {
                assert(scc_rank(before[i], nv) <= scc_rank(before[b - 1], nv));
            }
        } else if a < i {
            assert(now[a] == before[a] && origin[a] == before_origin[a]);
            assert(now[b] == before[b - 1] && origin[b] == before_origin[b - 1]);
        } else {
            assert(now[a] == before[a - 1] && origin[a] == before_origin[a - 1]);
            assert(now[b] == before[b - 1] && origin[b] == before_origin[b - 1]);
        }
    }
}

/// The cyclic strongly connected components of the graph (several nodes,
/// or one node with a self edge), each presenting its nodes in source
/// order with its internal edges, ordered by the source order of their
/// first members.
pub fn tarjan_sccs(nodes: &Vec<IrNode>, adjacency: &Vec<Vec<usize>>, edges: &Vec<IrEdge>) -> (sccs: Vec<IrScc>)
    requires
        keys_sorted(nodes.deep_view()),
        adjacency_of(adjacency.deep_view(), nodes.deep_view(), edges.deep_view().to_set()),
    ensures
        exists|comps: Seq<Seq<usize>>, origin: Seq<int>|
            #[trigger] presents_cycles(sccs.deep_view(), comps, origin, nodes.deep_view(), edges.deep_view().to_set()),
{
    let ghost nv = nodes.deep_view();
    let ghost es = edges.deep_view().to_set();
    let ghost adj = adjacency.deep_view();
    proof {
        assert forall|u: int, k: int| 0 <= u < adj.len() && 0 <= k < adj[u].len() implies #[trigger] adj[u][k] < adj.len() by {}
    }
    let components = tarjan_components(adjacency);
    let ghost comps = components.deep_view();
    proof {
        assert(adj_relation(adj) =~= edge_relation(nv, es));
    }
    let mut sccs: Vec<IrScc> = Vec::new();
    let mut ranks: Vec<usize> = Vec::new();
    let ghost mut origin: Seq<int> = Seq::empty();
    let mut c: usize = 0;
    while c < components.len()
        invariant
            c <= components.len(),
            nv == nodes.deep_view(),
            es == edges.deep_view().to_set(),
            adj == adjacency.deep_view(),
            comps == components.deep_view(),
            keys_sorted(nv),
            adjacency_of(adj, nv, es),
            is_node_partition(comps, nv.len() as int),
            components_connected(edge_relation(nv, es), comps),
            components_maximal(edge_relation(nv, es), comps),
            origin.len() == sccs.len(),
            ranks.len() == sccs.len(),
            forall|i: int| 0 <= i < sccs.len() ==> #[trigger] ranks@[i] as int == scc_rank(sccs.deep_view()[i], nv),
            forall|i: int| 0 <= i < sccs.len() ==> 0 <= #[trigger] origin[i] < c && is_cycle(nv, es, comps[origin[i]])
                && presents(sccs.deep_view()[i], comps[origin[i]], nv, es),
            forall|d: int| 0 <= d < c && is_cycle(nv, es, #[trigger] comps[d]) ==> exists|i: int| 0 <= i < sccs.len() && origin[i] == d,
            forall|i: int, j: int| 0 <= i < j < sccs.len() ==> #[trigger] origin[i] != #[trigger] origin[j],
            forall|i: int, j: int| 0 <= i < j < sccs.len() ==> scc_rank(#[trigger] sccs.deep_view()[i], nv) < scc_rank(#[trigger] sccs.deep_view()[j], nv)
                || (scc_rank(sccs.deep_view()[i], nv) == scc_rank(sccs.deep_view()[j], nv) && origin[i] < origin[j]),
        decreases components.len() - c,
    {
        let comp = &components[c];
        assert(comps[c as int] == comp@);
        assert(comp.len() > 0);
        let first = comp[0];
        assert(comps[c as int][0] == first);
        let cyclic = comp.len() > 1 || list_contains(&adjacency[first], first);
        proof {
            assert(first < nv.len());
            assert(adj[first as int] == adjacency@[first as int]@);
            if comp.len() == 1 {
                assert(adj[first as int].contains(first as int as usize) <==> edge_between(es, nv[first as int].key, nv[first as int].key));
                assert(adj[first as int].contains(first) <==> exists|k: int| 0 <= k < adjacency@[first as int]@.len() && adjacency@[first as int]@[k] == first);
            }
        }
        assert(cyclic == is_cycle(nv, es, comp@));
        if cyclic {
            proof {
                assert forall|k: int| 0 <= k < comp.len() implies #[trigger] comp@[k] < nodes.len() by {
                    assert(comps[c as int][k] == comp@[k]);
                }
                assert forall|k1: int, k2: int| 0 <= k1 < k2 < comp.len() implies #[trigger] comp@[k1] != #[trigger] comp@[k2] by {
                    assert(comps[c as int][k1] == comp@[k1]);
                    assert(comps[c as int][k2] == comp@[k2]);
                }
            }
            let (scc, rank) = scc_from_component(comp, nodes, edges);
            let ghost before = sccs.deep_view();
            let ghost before_origin = origin;
            let ghost before_ranks = ranks@;
            let i = insert_ranked(&mut sccs, &mut ranks, scc, rank);
            proof {
                origin = origin.insert(i as int, c as int);
                lemma_insert_keeps_cycles(before, before_origin, before_ranks, sccs.deep_view(), origin, ranks@, i as int, c as int, rank, comps, nv, es);
            }
        }
        c = c + 1;
    }
    assert(presents_cycles(sccs.deep_view(), comps, origin, nv, es));
    sccs
}

} // verus!
