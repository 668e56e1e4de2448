//! Topological dependency groups over the condensation of the graph: every
//! SCC, and every node outside the SCCs, is one part; parts are layered by
//! their dependencies.

use vstd::prelude::*;
use crate::ir::reach::adj_relation;
use crate::ir::edges::insert_sorted;
use crate::ir::levels::{deps_ok, earliest, kahn_layers, layered, left_out_stuck, listed, listed_before};
use crate::ir::model::{IrNode, IrNodeView, IrScc, IrSccView, IrTopoGroup, IrTopoGroupView};
use crate::ir::order::{insert_in_source_order, key_before, keys_in_source_order, positions_in_source_order};
use crate::ir::nodes::{find_node, has_key, keys_sorted, lemma_key_position};

verus! {

/// The SCCs are non-empty, list node keys only, and no key twice (within
/// one SCC or across two).
pub open spec fn sccs_ok(sccs: Seq<IrSccView>, nodes: Seq<IrNodeView>) -> bool {
    &&& forall|i: int| 0 <= i < sccs.len() ==> #[trigger] sccs[i].members.len() > 0
    &&& forall|i: int, k: int| 0 <= i < sccs.len() && 0 <= k < sccs[i].members.len() ==> has_key(nodes, #[trigger] sccs[i].members[k])
    &&& forall|i: int, k: int, j: int, l: int|
        0 <= i < sccs.len() && 0 <= k < sccs[i].members.len() && 0 <= j < sccs.len() && 0 <= l < sccs[j].members.len()
            && #[trigger] sccs[i].members[k] == #[trigger] sccs[j].members[l] ==> i == j && k == l
}

/// `part[p]` numbers the part of node `p` and `members[s]` lists the nodes
/// of part `s`: part `i` of the first `sccs.len()` is the SCC `i`, every
/// other part is a single node outside the SCCs.
pub open spec fn parts_ok(part: Seq<usize>, members: Seq<Seq<usize>>, nodes: Seq<IrNodeView>, sccs: Seq<IrSccView>) -> bool {
    &&& part.len() == nodes.len()
    &&& members.len() >= sccs.len()
    &&& forall|p: int| 0 <= p < part.len() ==> #[trigger] part[p] < members.len()
    &&& forall|s: int, k: int| 0 <= s < members.len() && 0 <= k < members[s].len() ==> #[trigger] members[s][k] < nodes.len()
        && part[members[s][k] as int] == s
    &&& forall|p: int| 0 <= p < part.len() ==> #[trigger] members[part[p] as int].contains(p as usize)
    &&& forall|s: int, k1: int, k2: int| 0 <= s < members.len() && 0 <= k1 < k2 < members[s].len() ==> #[trigger] members[s][k1]
        != #[trigger] members[s][k2]
    &&& forall|s: int| 0 <= s < members.len() ==> #[trigger] members[s].len() > 0
    &&& forall|p: int, i: int| 0 <= p < part.len() && 0 <= i < sccs.len() ==> (#[trigger] part[p] == i <==> #[trigger] sccs[i].members.contains(nodes[p].key))
    &&& forall|p: int| 0 <= p < part.len() && #[trigger] part[p] >= sccs.len() ==> members[part[p] as int].len() == 1
}

/// Numbers the parts: SCC `i` is part `i`, and each node outside the SCCs
/// gets a part of its own, in key order.
fn assign_parts(nodes: &Vec<IrNode>, sccs: &Vec<IrScc>) -> (r: (Vec<usize>, Vec<Vec<usize>>))
    requires
        keys_sorted(nodes.deep_view()),
        sccs_ok(sccs.deep_view(), nodes.deep_view()),
    ensures
        parts_ok(r.0@, r.1.deep_view(), nodes.deep_view(), sccs.deep_view()),
{
    let ghost nv = nodes.deep_view();
    let ghost sv = sccs.deep_view();
    let n = nodes.len();
    let mut part: Vec<usize> = Vec::new();
    let mut p: usize = 0;
    while p < n
        invariant
            p <= n,
            n == nodes.len(),
            part.len() == p,
            forall|q: int| 0 <= q < p ==> #[trigger] part@[q] == usize::MAX,
        decreases n - p,
    {
        part.push(usize::MAX);
        p = p + 1;
    }
    let mut members: Vec<Vec<usize>> = Vec::new();
    let mut i: usize = 0;
    while i < sccs.len()
        invariant
            i <= sccs.len(),
            n == nodes.len(),
            nv == nodes.deep_view(),
            sv == sccs.deep_view(),
            keys_sorted(nv),
            sccs_ok(sv, nv),
            part.len() == n,
            members.len() == i,
            forall|q: int| 0 <= q < n ==> #[trigger] part@[q] == usize::MAX || part@[q] < i,
            forall|s: int, k: int| 0 <= s < members.len() && 0 <= k < members@[s]@.len() ==> #[trigger] members@[s]@[k] < n
                && part@[members@[s]@[k] as int] == s && nv[members@[s]@[k] as int].key == sv[s].members[k],
            forall|s: int| 0 <= s < members.len() ==> #[trigger] members@[s]@.len() == sv[s].members.len(),
            forall|q: int, j: int| 0 <= q < n && 0 <= j < i ==> (#[trigger] part@[q] == j <==> #[trigger] sv[j].members.contains(nv[q].key)),
        decreases sccs.len() - i,
    {
        let scc = &sccs[i];
        assert(sv[i as int] == scc@);
        let mut list: Vec<usize> = Vec::new();
        let mut k: usize = 0;
        let ghost part0 = part@;
        while k < scc.members.len()
            invariant
                k <= scc.members.len(),
                i < sccs.len(),
                n == nodes.len(),
                nv == nodes.deep_view(),
                sv == sccs.deep_view(),
                sv[i as int] == scc@,
                keys_sorted(nv),
                sccs_ok(sv, nv),
                part.len() == n,
                part0.len() == n,
                forall|q: int| 0 <= q < n && #[trigger] part@[q] != part0[q] ==> part@[q] == i && part0[q] == usize::MAX,
                forall|q: int| 0 <= q < n && #[trigger] part@[q] == i ==> exists|l: int| 0 <= l < k && list@[l] == q,
                list.len() == k,
                forall|l: int| 0 <= l < k ==> #[trigger] list@[l] < n && part@[list@[l] as int] == i && nv[list@[l] as int].key == sv[i as int].members[l],
                forall|q: int| 0 <= q < n ==> #[trigger] part0[q] == usize::MAX || part0[q] < i,
                forall|q: int, j: int| 0 <= q < n && 0 <= j < i ==> (#[trigger] part0[q] == j <==> #[trigger] sv[j].members.contains(nv[q].key)),
            decreases scc.members.len() - k,
        {
            let key = &scc.members[k];
            assert(sv[i as int].members[k as int] == key@);
            assert(has_key(nv, key@));
            match find_node(nodes, key) {
                Some(q) => {
                    proof {
                        // the key of `q` belongs to SCC `i` only, at place `k` only
                        if part0[q as int] != usize::MAX {
                            let j = part0[q as int] as int;
                            assert(sv[j].members.contains(nv[q as int].key));
                            let l = choose|l: int| 0 <= l < sv[j].members.len() && sv[j].members[l] == nv[q as int].key;
                            assert(sv[j].members[l] == sv[i as int].members[k as int]);
                        }
                        if part@[q as int] == i {
                            let l = choose|l: int| 0 <= l < k && list@[l] == q;
                            assert(sv[i as int].members[l] == sv[i as int].members[k as int]);
                        }
                    }
                    let ghost old_list = list@;
                    let ghost old_part = part@;
                    part.set(q, i);
                    list.push(q);
                    proof {
                        assert forall|q2: int| 0 <= q2 < n && #[trigger] part@[q2] == i implies exists|l: int| 0 <= l < k + 1 && list@[l] == q2 by {
                            if q2 == q {
                                assert(list@[k as int] == q2);
                            } else {
                                assert(old_part[q2] == i);
                                let l = choose|l: int| 0 <= l < k && old_list[l] == q2;
                                assert(list@[l] == q2);
                            }
                        }
                    }
                },
                None => {
                    proof {
                        let a = choose|a: int| 0 <= a < nv.len() && #[trigger] nv[a].key == key@;
                        lemma_key_position(nv, a);
                    }
                },
            }
            k = k + 1;
        }
        members.push(list);
        proof {
            let ml = members@;
            assert forall|q: int, j: int| 0 <= q < n && 0 <= j < i + 1 implies (#[trigger] part@[q] == j <==> #[trigger] sv[j].members.contains(nv[q].key)) by {
                if j < i {
                    if part@[q] == j {
                        assert(part0[q] == j);
                    }
                    if sv[j].members.contains(nv[q].key) {
                        assert(part0[q] == j);
                    }
                } else {
                    if part@[q] == i {
                        let l = choose|l: int| 0 <= l < scc.members.len() && list@[l] == q;
                        assert(nv[list@[l] as int].key == sv[i as int].members[l]);
                    }
                    if sv[i as int].members.contains(nv[q].key) {
                        let l = choose|l: int| 0 <= l < sv[i as int].members.len() && sv[i as int].members[l] == nv[q].key;
                        assert(nv[list@[l] as int].key == nv[q].key);
                        lemma_key_position(nv, q);
                        lemma_key_position(nv, list@[l] as int);
                        assert(part@[q] == i);
                    }
                }
            }
            assert forall|s: int, k2: int| 0 <= s < members.len() && 0 <= k2 < members@[s]@.len() implies #[trigger] members@[s]@[k2] < n
                && part@[members@[s]@[k2] as int] == s && nv[members@[s]@[k2] as int].key == sv[s].members[k2] by {
                if s < i {
                    assert(part0[members@[s]@[k2] as int] == s);
                }
            }
        }
        i = i + 1;
    }
    let nsccs = sccs.len();
    let mut q: usize = 0;
    while q < n
        invariant
            q <= n,
            n == nodes.len(),
            nsccs == sccs.len(),
            nv == nodes.deep_view(),
            sv == sccs.deep_view(),
            part.len() == n,
            members.len() >= nsccs,
            forall|x: int| 0 <= x < q ==> #[trigger] part@[x] != usize::MAX,
            forall|x: int| 0 <= x < n ==> #[trigger] part@[x] == usize::MAX || part@[x] < members.len(),
            forall|s: int, k: int| 0 <= s < members.len() && 0 <= k < members@[s]@.len() ==> #[trigger] members@[s]@[k] < n
                && part@[members@[s]@[k] as int] == s,
            forall|s: int, k: int| 0 <= s < nsccs && 0 <= k < members@[s]@.len() ==> nv[#[trigger] members@[s]@[k] as int].key == sv[s].members[k],
            forall|x: int| 0 <= x < n && #[trigger] part@[x] != usize::MAX && part@[x] >= nsccs ==> members@[part@[x] as int]@[0] == x,
            sccs_ok(sv, nv),
            keys_sorted(nv),
            forall|s: int| 0 <= s < nsccs ==> #[trigger] members@[s]@.len() == sv[s].members.len(),
            forall|s: int| nsccs <= s < members.len() ==> #[trigger] members@[s]@.len() == 1,
            forall|x: int, j: int| 0 <= x < n && 0 <= j < nsccs ==> (#[trigger] part@[x] == j <==> #[trigger] sv[j].members.contains(nv[x].key)),
        decreases n - q,
    {
        if part[q] == usize::MAX {
            proof {
                assert forall|j: int| 0 <= j < nsccs implies !#[trigger] sv[j].members.contains(nv[q as int].key) by {
                    if sv[j].members.contains(nv[q as int].key) {
                        assert(part@[q as int] == j);
                    }
                }
            }
            let mut single: Vec<usize> = Vec::new();
            single.push(q);
            members.push(single);
            let s = members.len() - 1;
            part.set(q, s);
            proof {
            }
        }
        q = q + 1;
    }
    proof {
        let mv = members.deep_view();
        assert forall|s: int| 0 <= s < mv.len() implies #[trigger] mv[s] == members@[s]@ by {}
        assert forall|x: int| 0 <= x < n implies #[trigger] mv[part@[x] as int].contains(x as usize) by {
            let s = part@[x] as int;
            if s < nsccs {
                assert(sv[s].members.contains(nv[x].key));
                let l = choose|l: int| 0 <= l < sv[s].members.len() && sv[s].members[l] == nv[x].key;
                let y = members@[s]@[l] as int;
                assert(nv[y].key == nv[x].key);
                lemma_key_position(nv, x);
                lemma_key_position(nv, y);
                assert(mv[s][l] == x as usize);
            } else {
                assert(mv[s][0] == x as usize);
            }
        }
        assert forall|s: int, k1: int, k2: int| 0 <= s < mv.len() && 0 <= k1 < k2 < mv[s].len() implies #[trigger] mv[s][k1]
            != #[trigger] mv[s][k2] by {
            if s < nsccs {
                assert(nv[mv[s][k1] as int].key == sv[s].members[k1]);
                assert(nv[mv[s][k2] as int].key == sv[s].members[k2]);
            }
        }
        assert forall|s: int| 0 <= s < mv.len() implies #[trigger] mv[s].len() > 0 by {
            if s < nsccs {
                assert(sv[s].members.len() > 0);
            }
        }
    }
    (part, members)
}

/// Part `s` depends on part `t`: they differ, and a node of `s` has an edge
/// to a node of `t`.
pub open spec fn part_dep(part: Seq<usize>, adj: Seq<Seq<usize>>, s: int, t: int) -> bool {
    s != t && exists|u: int, v: int|
        0 <= u < part.len() && 0 <= v < part.len() && part[u] == s && part[v] == t && #[trigger] adj[u].contains(v as usize)
}

/// The dependency lists of the parts: for part `s` the increasing list of
/// the parts it depends on.
fn part_deps(part: &Vec<usize>, count: usize, adjacency: &Vec<Vec<usize>>) -> (deps: Vec<Vec<usize>>)
    requires
        part.len() == adjacency.len(),
        forall|p: int| 0 <= p < part.len() ==> #[trigger] part@[p] < count,
        forall|u: int, k: int| 0 <= u < adjacency.len() && 0 <= k < adjacency@[u]@.len() ==> #[trigger] adjacency@[u]@[k] < adjacency.len(),
    ensures
        deps.len() == count,
        deps_ok(deps.deep_view()),
        forall|s: int, t: int| 0 <= s < count && 0 <= t < count ==> (#[trigger] deps.deep_view()[s].contains(t as usize) <==> part_dep(part@, adjacency.deep_view(), s, t)),
{
    let ghost pv = part@;
    let ghost adj = adjacency.deep_view();
    let n = part.len();
    let mut deps: Vec<Vec<usize>> = Vec::new();
    let mut s: usize = 0;
    while s < count
        invariant
            s <= count,
            deps.len() == s,
            forall|x: int| 0 <= x < s ==> (#[trigger] deps@[x])@.len() == 0,
        decreases count - s,
    {
        deps.push(Vec::new());
        s = s + 1;
    }
    let mut u: usize = 0;
    while u < n
        invariant
            u <= n,
            n == part.len(),
            n == adjacency.len(),
            pv == part@,
            adj == adjacency.deep_view(),
            forall|p: int| 0 <= p < n ==> #[trigger] pv[p] < count,
            forall|w: int, k: int| 0 <= w < n && 0 <= k < adjacency@[w]@.len() ==> #[trigger] adjacency@[w]@[k] < n,
            deps.len() == count,
            forall|x: int, k: int| 0 <= x < count && 0 <= k < deps@[x]@.len() ==> #[trigger] deps@[x]@[k] < count && deps@[x]@[k] != x,
            forall|x: int, k1: int, k2: int| 0 <= x < count && 0 <= k1 < k2 < deps@[x]@.len() ==> #[trigger] deps@[x]@[k1] < #[trigger] deps@[x]@[k2],
            forall|x: int, t: int| 0 <= x < count && 0 <= t < count ==> (#[trigger] deps@[x]@.contains(t as usize) <==> x != t && exists|w: int, v: int|
                0 <= w < u && 0 <= v < n && pv[w] == x && pv[v] == t && #[trigger] adj[w].contains(v as usize)),
        decreases n - u,
    {
        let su = part[u];
        let mut k: usize = 0;
        assert(adj[u as int] == adjacency@[u as int]@);
        while k < adjacency[u].len()
            invariant
                u < n,
                k <= adjacency@[u as int]@.len(),
                n == part.len(),
                n == adjacency.len(),
                pv == part@,
                adj == adjacency.deep_view(),
                adj[u as int] == adjacency@[u as int]@,
                su == pv[u as int],
                forall|p: int| 0 <= p < n ==> #[trigger] pv[p] < count,
                forall|w: int, j: int| 0 <= w < n && 0 <= j < adjacency@[w]@.len() ==> #[trigger] adjacency@[w]@[j] < n,
                deps.len() == count,
                forall|x: int, j: int| 0 <= x < count && 0 <= j < deps@[x]@.len() ==> #[trigger] deps@[x]@[j] < count && deps@[x]@[j] != x,
                forall|x: int, k1: int, k2: int| 0 <= x < count && 0 <= k1 < k2 < deps@[x]@.len() ==> #[trigger] deps@[x]@[k1] < #[trigger] deps@[x]@[k2],
                forall|x: int, t: int| 0 <= x < count && 0 <= t < count ==> (#[trigger] deps@[x]@.contains(t as usize) <==> x != t && (
                    (exists|w: int, v: int| 0 <= w < u && 0 <= v < n && pv[w] == x && pv[v] == t && #[trigger] adj[w].contains(v as usize))
                    || (exists|j: int| 0 <= j < k && x == su && pv[adj[u as int][j] as int] == t))),
            decreases adjacency@[u as int]@.len() - k,
        {
            let v = adjacency[u][k];
            let sv = part[v];
            let ghost before = deps@;
            if su != sv {
                let mut list = deps[su].clone();
                assert(list@ =~= deps@[su as int]@) by {
                    assert forall|j: int| 0 <= j < list.len() implies list@[j] == deps@[su as int]@[j] by {
                        assert(vstd::pervasive::cloned(deps@[su as int]@[j], list@[j]));
                    }
                }
                insert_sorted(&mut list, sv);
                deps.set(su, list);
                proof {
                    assert forall|x: int, j: int| 0 <= x < count && 0 <= j < deps@[x]@.len() implies #[trigger] deps@[x]@[j] < count && deps@[x]@[j] != x by {
                        if x == su {
                            assert(deps@[x]@.contains(deps@[x]@[j]));
                            if deps@[x]@[j] != sv {
                                assert(before[x]@.contains(deps@[x]@[j]));
                                let j2 = choose|j2: int| 0 <= j2 < before[x]@.len() && before[x]@[j2] == deps@[x]@[j];
                                assert(before[x]@[j2] < count && before[x]@[j2] != x);
                            }
                        } else {
                            assert(deps@[x] == before[x]);
                        }
                    }
                    assert forall|x: int, k1: int, k2: int| 0 <= x < count && 0 <= k1 < k2 < deps@[x]@.len() implies #[trigger] deps@[x]@[k1] < #[trigger] deps@[x]@[k2] by {
                        if x != su {
                            assert(deps@[x] == before[x]);
                        }
                    }
                    assert forall|x: int, t: int| 0 <= x < count && 0 <= t < count implies (#[trigger] deps@[x]@.contains(t as usize) <==> x != t && (
                        (exists|w: int, v2: int| 0 <= w < u && 0 <= v2 < n && pv[w] == x && pv[v2] == t && #[trigger] adj[w].contains(v2 as usize))
                        || (exists|j: int| 0 <= j < k + 1 && x == su && pv[adj[u as int][j] as int] == t))) by {
                        if x != su {
                            assert(deps@[x] == before[x]);
                        } else {
                            if t == sv {
                                assert(adj[u as int][k as int] == v);
                            } else if exists|j: int| 0 <= j < k + 1 && x == su && pv[adj[u as int][j] as int] == t {
                                let j = choose|j: int| 0 <= j < k + 1 && x == su && pv[adj[u as int][j] as int] == t;
                                assert(j < k);
                            }
                        }
                    }
                }
            } else {
                proof {
                    assert forall|x: int, t: int| 0 <= x < count && 0 <= t < count implies (#[trigger] deps@[x]@.contains(t as usize) <==> x != t && (
                        (exists|w: int, v2: int| 0 <= w < u && 0 <= v2 < n && pv[w] == x && pv[v2] == t && #[trigger] adj[w].contains(v2 as usize))
                        || (exists|j: int| 0 <= j < k + 1 && x == su && pv[adj[u as int][j] as int] == t))) by {
                        if x != t && exists|j: int| 0 <= j < k + 1 && x == su && pv[adj[u as int][j] as int] == t {
                            let j = choose|j: int| 0 <= j < k + 1 && x == su && pv[adj[u as int][j] as int] == t;
                            assert(j < k);
                        }
                    }
                }
            }
            k = k + 1;
        }
        proof {
            assert forall|x: int, t: int| 0 <= x < count && 0 <= t < count implies (#[trigger] deps@[x]@.contains(t as usize) <==> x != t && exists|w: int, v: int|
                0 <= w < u + 1 && 0 <= v < n && pv[w] == x && pv[v] == t && #[trigger] adj[w].contains(v as usize)) by {
                if x != t && exists|j: int| 0 <= j < adj[u as int].len() && x == su && pv[adj[u as int][j] as int] == t {
                    let j = choose|j: int| 0 <= j < adj[u as int].len() && x == su && pv[adj[u as int][j] as int] == t;
                    let v = adj[u as int][j] as int;
                    assert(adj[u as int].contains(v as usize));
                }
                if x != t && exists|w: int, v: int| 0 <= w < u + 1 && 0 <= v < n && pv[w] == x && pv[v] == t && #[trigger] adj[w].contains(v as usize) {
                    let (w, v) = choose|w: int, v: int| 0 <= w < u + 1 && 0 <= v < n && pv[w] == x && pv[v] == t && #[trigger] adj[w].contains(v as usize);
                    if w == u {
                        let j = choose|j: int| 0 <= j < adj[u as int].len() && adj[u as int][j] == v as usize;
                        assert(pv[adj[u as int][j] as int] == t);
                    }
                }
            }
        }
        u = u + 1;
    }
    proof {
        let dv = deps.deep_view();
        assert forall|x: int| 0 <= x < count implies #[trigger] dv[x] == deps@[x]@ by {}
        assert forall|x: int, k1: int, k2: int| 0 <= x < dv.len() && 0 <= k1 < k2 < dv[x].len() implies #[trigger] dv[x][k1] != #[trigger] dv[x][k2] by {
            assert(deps@[x]@[k1] < deps@[x]@[k2]);
        }
    }
    deps
}

/// The positions, in source order, of the nodes of the parts in `group`.
fn group_positions(group: &Vec<usize>, members: &Vec<Vec<usize>>, nodes: &Vec<IrNode>, Ghost(part): Ghost<Seq<usize>>) -> (ps: Vec<usize>)
    requires
        keys_sorted(nodes.deep_view()),
        part.len() == nodes.len(),
        forall|k: int| 0 <= k < group.len() ==> #[trigger] group@[k] < members.len(),
        forall|k1: int, k2: int| 0 <= k1 < k2 < group.len() ==> #[trigger] group@[k1] != #[trigger] group@[k2],
        forall|s: int, k: int| 0 <= s < members.len() && 0 <= k < members@[s]@.len() ==> #[trigger] members@[s]@[k] < nodes.len()
            && part[members@[s]@[k] as int] == s,
        forall|p: int| 0 <= p < part.len() ==> #[trigger] part[p] < members.len() && members@[part[p] as int]@.contains(p as usize),
        forall|s: int, k1: int, k2: int| 0 <= s < members.len() && 0 <= k1 < k2 < members@[s]@.len() ==> #[trigger] members@[s]@[k1]
            != #[trigger] members@[s]@[k2],
    ensures
        positions_in_source_order(ps@, nodes.deep_view()),
        forall|x: usize| #[trigger] ps@.contains(x) <==> x < nodes.len() && group@.contains(part[x as int]),
{
    let mut ps: Vec<usize> = Vec::new();
    let mut j: usize = 0;
    while j < group.len()
        invariant
            j <= group.len(),
            keys_sorted(nodes.deep_view()),
            part.len() == nodes.len(),
            forall|k: int| 0 <= k < group.len() ==> #[trigger] group@[k] < members.len(),
            forall|k1: int, k2: int| 0 <= k1 < k2 < group.len() ==> #[trigger] group@[k1] != #[trigger] group@[k2],
            forall|s: int, k: int| 0 <= s < members.len() && 0 <= k < members@[s]@.len() ==> #[trigger] members@[s]@[k] < nodes.len()
                && part[members@[s]@[k] as int] == s,
            forall|p: int| 0 <= p < part.len() ==> #[trigger] part[p] < members.len() && members@[part[p] as int]@.contains(p as usize),
            forall|s: int, k1: int, k2: int| 0 <= s < members.len() && 0 <= k1 < k2 < members@[s]@.len() ==> #[trigger] members@[s]@[k1]
                != #[trigger] members@[s]@[k2],
            positions_in_source_order(ps@, nodes.deep_view()),
            forall|x: usize| #[trigger] ps@.contains(x) <==> x < nodes.len() && group@.take(j as int).contains(part[x as int]),
        decreases group.len() - j,
    {
        let s = group[j];
        let list = &members[s];
        let mut k: usize = 0;
        let ghost ps0 = ps@;
        while k < list.len()
            invariant
                j < group.len(),
                s == group@[j as int],
                list@ == members@[s as int]@,
                k <= list.len(),
                keys_sorted(nodes.deep_view()),
                part.len() == nodes.len(),
                s < members.len(),
                forall|k1: int, k2: int| 0 <= k1 < k2 < group.len() ==> #[trigger] group@[k1] != #[trigger] group@[k2],
                forall|s2: int, k2: int| 0 <= s2 < members.len() && 0 <= k2 < members@[s2]@.len() ==> #[trigger] members@[s2]@[k2] < nodes.len()
                    && part[members@[s2]@[k2] as int] == s2,
                forall|s2: int, k1: int, k2: int| 0 <= s2 < members.len() && 0 <= k1 < k2 < members@[s2]@.len() ==> #[trigger] members@[s2]@[k1]
                    != #[trigger] members@[s2]@[k2],
                forall|x: usize| #[trigger] ps0.contains(x) <==> x < nodes.len() && group@.take(j as int).contains(part[x as int]),
                positions_in_source_order(ps@, nodes.deep_view()),
                forall|x: usize| #[trigger] ps@.contains(x) <==> ps0.contains(x) || exists|l: int| 0 <= l < k && list@[l] == x,
            decreases list.len() - k,
        {
            let p = list[k];
            assert(members@[s as int]@[k as int] == p);
            proof {
                if ps@.contains(p) {
                    if ps0.contains(p) {
                        assert(group@.take(j as int).contains(part[p as int]));
                        let k2 = choose|k2: int| 0 <= k2 < j && group@.take(j as int)[k2] == part[p as int];
                        assert(group@[k2] == group@[j as int]);
                    } else {
                        let l = choose|l: int| 0 <= l < k && list@[l] == p;
                        assert(members@[s as int]@[l] == members@[s as int]@[k as int]);
                    }
                }
            }
            insert_in_source_order(&mut ps, p, nodes);
            proof {
                assert forall|x: usize| #[trigger] ps@.contains(x) <==> ps0.contains(x) || exists|l: int| 0 <= l < k + 1 && list@[l] == x by {
                    if x == p {
                        assert(list@[k as int] == x);
                    }
                    if exists|l: int| 0 <= l < k + 1 && list@[l] == x {
                        let l = choose|l: int| 0 <= l < k + 1 && list@[l] == x;
                        if l < k {
                            assert(exists|l2: int| 0 <= l2 < k && list@[l2] == x);
                        }
                    }
                }
            }
            k = k + 1;
        }
        proof {
            let g1 = group@.take(j + 1);
            let g0 = group@.take(j as int);
            assert(g1 =~= g0.push(s));
            assert forall|x: usize| #[trigger] ps@.contains(x) <==> x < nodes.len() && g1.contains(part[x as int]) by {
                if ps@.contains(x) {
                    if !ps0.contains(x) {
                        let l = choose|l: int| 0 <= l < list.len() && list@[l] == x;
                        assert(part[x as int] == s);
                        assert(g1[j as int] == s);
                    } else {
                        let k2 = choose|k2: int| 0 <= k2 < j && g0[k2] == part[x as int];
                        assert(g1[k2] == part[x as int]);
                    }
                }
                if x < nodes.len() && g1.contains(part[x as int]) {
                    let k2 = choose|k2: int| 0 <= k2 < j + 1 && g1[k2] == part[x as int];
                    if k2 < j {
                        assert(g0[k2] == part[x as int]);
                    } else {
                        assert(part[x as int] == s);
                        assert(members@[s as int]@.contains(x));
                        let l = choose|l: int| 0 <= l < list.len() && list@[l] == x;
                        assert(exists|l2: int| 0 <= l2 < list.len() && list@[l2] == x);
                    }
                }
            }
        }
        j = j + 1;
    }
    assert(group@.take(group.len() as int) =~= group@);
    ps
}

/// The keys of the nodes at positions `ps`, in the same order.
fn keys_at(ps: &Vec<usize>, nodes: &Vec<IrNode>) -> (keys: Vec<String>)
    requires
        forall|k: int| 0 <= k < ps.len() ==> #[trigger] ps@[k] < nodes.len(),
    ensures
        keys.len() == ps.len(),
        forall|k: int| 0 <= k < ps.len() ==> #[trigger] keys.deep_view()[k] == nodes.deep_view()[ps@[k] as int].key,
{
    let ghost nv = nodes.deep_view();
    let mut keys: Vec<String> = Vec::new();
    let mut m: usize = 0;
    while m < ps.len()
        invariant
            m <= ps.len(),
            nv == nodes.deep_view(),
            forall|k: int| 0 <= k < ps.len() ==> #[trigger] ps@[k] < nodes.len(),
            keys.len() == m,
            forall|j: int| 0 <= j < m ==> #[trigger] keys.deep_view()[j] == nv[ps@[j] as int].key,
        decreases ps.len() - m,
    {
        let key = nodes[ps[m]].key.clone();
        assert(nv[ps@[m as int] as int] == nodes[ps@[m as int] as int]@);
        let ghost before = keys.deep_view();
        keys.push(key);
        proof {
            assert(keys.deep_view() =~= before.push(key@));
        }
        m = m + 1;
    }
    keys
}

/// Keys `a` and `b` are in the same part: equal, or members of one SCC.
pub open spec fn together(sccs: Seq<IrSccView>, a: Seq<char>, b: Seq<char>) -> bool {
    a == b || exists|i: int| 0 <= i < sccs.len() && #[trigger] sccs[i].members.contains(a) && sccs[i].members.contains(b)
}

/// Group `g` lists `key`.
pub open spec fn in_group(groups: Seq<IrTopoGroupView>, g: int, key: Seq<char>) -> bool {
    0 <= g < groups.len() && groups[g].members.contains(key)
}

/// A group before `g` lists `key`.
pub open spec fn in_group_before(groups: Seq<IrTopoGroupView>, g: int, key: Seq<char>) -> bool {
    exists|h: int| 0 <= h < g && #[trigger] in_group(groups, h, key)
}

/// Node `u` has an edge (in `dep`) to node `v` of another part.
pub open spec fn depends_outside(nodes: Seq<IrNodeView>, sccs: Seq<IrSccView>, dep: spec_fn(int, int) -> bool, u: int, v: int) -> bool {
    &&& 0 <= u < nodes.len()
    &&& 0 <= v < nodes.len()
    &&& dep(u, v)
    &&& !together(sccs, nodes[u].key, nodes[v].key)
}

/// Some node of the part of node `u` has an edge to node `v` of another
/// part.
pub open spec fn part_depends_on(nodes: Seq<IrNodeView>, sccs: Seq<IrSccView>, dep: spec_fn(int, int) -> bool, u: int, v: int) -> bool {
    exists|w: int| together(sccs, nodes[u].key, #[trigger] nodes[w].key) && depends_outside(nodes, sccs, dep, w, v)
}

/// The groups layer the parts of the nodes (each SCC, and each node outside
/// the SCCs) by their dependencies: group `g` has level `g` and lists keys
/// in source order; a key is listed at most once, and a part all in one
/// group; whatever a listed node depends on outside its part is listed in
/// an earlier group; a part in a later group depends on a node of the group
/// just before; and a part left out depends on a node left out.
pub open spec fn topo_ok(groups: Seq<IrTopoGroupView>, nodes: Seq<IrNodeView>, sccs: Seq<IrSccView>, dep: spec_fn(int, int) -> bool) -> bool {
    &&& forall|g: int| 0 <= g < groups.len() ==> #[trigger] groups[g].level == g && groups[g].members.len() > 0
        && keys_in_source_order(groups[g].members, nodes)
    &&& forall|g: int, k: int| 0 <= g < groups.len() && 0 <= k < groups[g].members.len() ==> has_key(nodes, #[trigger] groups[g].members[k])
    &&& forall|g1: int, g2: int, key: Seq<char>| #[trigger] in_group(groups, g1, key) && #[trigger] in_group(groups, g2, key) ==> g1 == g2
    &&& forall|g: int, u: int, v: int|
        0 <= u < nodes.len() && 0 <= v < nodes.len() && #[trigger] in_group(groups, g, nodes[u].key) && #[trigger] together(sccs, nodes[u].key, nodes[v].key)
            ==> in_group(groups, g, nodes[v].key)
    &&& forall|g: int, u: int, v: int|
        #[trigger] in_group(groups, g, nodes[u].key) && #[trigger] depends_outside(nodes, sccs, dep, u, v) ==> in_group_before(groups, g, nodes[v].key)
    &&& forall|g: int, u: int|
        0 < g && 0 <= u < nodes.len() && #[trigger] in_group(groups, g, nodes[u].key) ==> exists|v: int|
            #[trigger] part_depends_on(nodes, sccs, dep, u, v) && in_group(groups, g - 1, nodes[v].key)
    &&& forall|u: int|
        0 <= u < nodes.len() && !#[trigger] in_group_before(groups, groups.len() as int, nodes[u].key) ==> exists|v: int|
            #[trigger] part_depends_on(nodes, sccs, dep, u, v) && !in_group_before(groups, groups.len() as int, nodes[v].key)
}

/// What the groups built from the part layers hold.
pub open spec fn built_from(groups: Seq<IrTopoGroupView>, layers: Seq<Seq<usize>>, part: Seq<usize>, nodes: Seq<IrNodeView>) -> bool {
    &&& groups.len() == layers.len()
    &&& forall|g: int| 0 <= g < groups.len() ==> #[trigger] groups[g].level == g && keys_in_source_order(groups[g].members, nodes)
    &&& forall|g: int, key: Seq<char>| 0 <= g < groups.len() ==> (#[trigger] groups[g].members.contains(key) <==> exists|x: int|
        0 <= x < nodes.len() && layers[g].contains(part[x]) && #[trigger] nodes[x].key == key)
}

proof fn lemma_together_part(
    part: Seq<usize>,
    members: Seq<Seq<usize>>,
    nodes: Seq<IrNodeView>,
    sccs: Seq<IrSccView>,
    p: int,
    q: int,
)
    requires
        keys_sorted(nodes),
        parts_ok(part, members, nodes, sccs),
        nodes.len() <= usize::MAX,
        0 <= p < nodes.len(),
        0 <= q < nodes.len(),
    ensures
        together(sccs, nodes[p].key, nodes[q].key) <==> part[p] == part[q],
{
    if together(sccs, nodes[p].key, nodes[q].key) {
        if nodes[p].key == nodes[q].key {
            lemma_key_position(nodes, p);
            lemma_key_position(nodes, q);
        } else {
            let i = choose|i: int| 0 <= i < sccs.len() && #[trigger] sccs[i].members.contains(nodes[p].key) && sccs[i].members.contains(nodes[q].key);
            assert(part[p] == i);
            assert(part[q] == i);
        }
    }
    if part[p] == part[q] {
        let s = part[p] as int;
        if s < sccs.len() {
            assert(sccs[s].members.contains(nodes[p].key));
            assert(sccs[s].members.contains(nodes[q].key));
        } else {
            assert(members[s].contains(p as usize));
            assert(members[s].contains(q as usize));
            assert(members[s].len() == 1);
            let k1 = choose|k1: int| 0 <= k1 < members[s].len() && members[s][k1] == p as usize;
            let k2 = choose|k2: int| 0 <= k2 < members[s].len() && members[s][k2] == q as usize;
            assert(p == q);
        }
    }
}

proof fn lemma_topo(
    groups: Seq<IrTopoGroupView>,
    layers: Seq<Seq<usize>>,
    deps: Seq<Seq<usize>>,
    part: Seq<usize>,
    members: Seq<Seq<usize>>,
    nodes: Seq<IrNodeView>,
    sccs: Seq<IrSccView>,
    adj: Seq<Seq<usize>>,
    dep: spec_fn(int, int) -> bool,
)
    requires
        keys_sorted(nodes),
        nodes.len() <= usize::MAX,
        sccs_ok(sccs, nodes),
        parts_ok(part, members, nodes, sccs),
        deps.len() == members.len(),
        deps_ok(deps),
        forall|s: int, t: int| 0 <= s < deps.len() && 0 <= t < deps.len() ==> (#[trigger] deps[s].contains(t as usize) <==> part_dep(part, adj, s, t)),
        layered(layers, deps),
        earliest(layers, deps),
        left_out_stuck(layers, deps),
        built_from(groups, layers, part, nodes),
        forall|u: int, v: int| 0 <= u < nodes.len() && 0 <= v < nodes.len() ==> #[trigger] dep(u, v) == adj[u].contains(v as usize),
    ensures
        topo_ok(groups, nodes, sccs, dep),
{
    let n = nodes.len() as int;
    // listing of a node key follows the listing of its part
    assert forall|g: int, p: int| 0 <= g < groups.len() && 0 <= p < n implies (#[trigger] groups[g].members.contains(nodes[p].key) <==> layers[g].contains(part[p])) by {
        if groups[g].members.contains(nodes[p].key) {
            let x = choose|x: int| 0 <= x < n && layers[g].contains(part[x]) && #[trigger] nodes[x].key == nodes[p].key;
            lemma_key_position(nodes, x);
            lemma_key_position(nodes, p);
        }
    }
    assert forall|p: int, q: int| 0 <= p < n && 0 <= q < n implies (#[trigger] together(sccs, nodes[p].key, nodes[q].key) <==> part[p] == part[q]) by {
        lemma_together_part(part, members, nodes, sccs, p, q);
    }
    assert forall|g: int| 0 <= g < groups.len() implies #[trigger] groups[g].level == g && groups[g].members.len() > 0
        && keys_in_source_order(groups[g].members, nodes) by {
        let s = layers[g][0] as int;
        assert(layers[g][0] == s as usize);
        assert(layers[g].contains(s as usize));
        assert(0 <= s < members.len());
        assert(members[s].len() > 0);
        let p = members[s][0] as int;
        assert(part[p] == s);
        assert(layers[g].contains(part[p]));
        assert(groups[g].members.contains(nodes[p].key));
        assert(groups[g].members.len() > 0);
        assert(groups[g].level == g);
        assert(keys_in_source_order(groups[g].members, nodes));
    }
    assert forall|g: int, k: int| 0 <= g < groups.len() && 0 <= k < groups[g].members.len() implies has_key(nodes, #[trigger] groups[g].members[k]) by {
        assert(groups[g].members.contains(groups[g].members[k]));
        let x = choose|x: int| 0 <= x < n && layers[g].contains(part[x]) && #[trigger] nodes[x].key == groups[g].members[k];
    }
    // a listed key is some node's key
    assert forall|g: int, key: Seq<char>| #[trigger] in_group(groups, g, key) implies exists|p: int| 0 <= p < n && nodes[p].key == key
        && layers[g].contains(part[p]) by {
        let x = choose|x: int| 0 <= x < n && layers[g].contains(part[x]) && #[trigger] nodes[x].key == key;
    }
    assert forall|g1: int, g2: int, key: Seq<char>| #[trigger] in_group(groups, g1, key) && #[trigger] in_group(groups, g2, key) implies g1 == g2 by {
        let p = choose|p: int| 0 <= p < n && nodes[p].key == key && layers[g1].contains(part[p]);
        assert(layers[g2].contains(part[p]));
        let k1 = choose|k1: int| 0 <= k1 < layers[g1].len() && layers[g1][k1] == part[p];
        let k2 = choose|k2: int| 0 <= k2 < layers[g2].len() && layers[g2][k2] == part[p];
    }
    assert forall|g: int, u: int, v: int|
        0 <= u < n && 0 <= v < n && #[trigger] in_group(groups, g, nodes[u].key) && #[trigger] together(sccs, nodes[u].key, nodes[v].key)
            implies in_group(groups, g, nodes[v].key) by {
        assert(part[u] == part[v]);
    }
    // part-level listing before `g`
    assert forall|g: int, p: int| 0 <= g <= groups.len() && 0 <= p < n implies (#[trigger] in_group_before(groups, g, nodes[p].key) <==> listed_before(layers, g, part[p] as int)) by {
        if in_group_before(groups, g, nodes[p].key) {
            let h = choose|h: int| 0 <= h < g && #[trigger] in_group(groups, h, nodes[p].key);
            let k = choose|k: int| 0 <= k < layers[h].len() && layers[h][k] == part[p];
            assert(listed(layers, h, part[p] as int));
        }
        if listed_before(layers, g, part[p] as int) {
            let h = choose|h: int| 0 <= h < g && h < layers.len() && #[trigger] listed(layers, h, part[p] as int);
            let k = choose|k: int| 0 <= k < layers[h].len() && #[trigger] layers[h][k] == part[p] as int;
            assert(layers[h].contains(part[p]));
            assert(in_group(groups, h, nodes[p].key));
        }
    }
    assert forall|g: int, u: int, v: int|
        #[trigger] in_group(groups, g, nodes[u].key) && #[trigger] depends_outside(nodes, sccs, dep, u, v) implies in_group_before(groups, g, nodes[v].key) by {
        let su = part[u] as int;
        let sv = part[v] as int;
        assert(part_dep(part, adj, su, sv));
        assert(deps[su].contains(sv as usize));
        let d = choose|d: int| 0 <= d < deps[su].len() && deps[su][d] == sv as usize;
        let k = choose|k: int| 0 <= k < layers[g].len() && layers[g][k] == su as usize;
        assert(listed_before(layers, g, deps[layers[g][k] as int][d] as int));
    }
    assert forall|g: int, u: int|
        0 < g && 0 <= u < n && #[trigger] in_group(groups, g, nodes[u].key) implies exists|v: int|
            #[trigger] part_depends_on(nodes, sccs, dep, u, v) && in_group(groups, g - 1, nodes[v].key) by {
        let su = part[u] as int;
        let k = choose|k: int| 0 <= k < layers[g].len() && layers[g][k] == su as usize;
        assert(crate::ir::levels::depends_on_group(deps, layers[g][k] as int, layers, g - 1));
        let d = choose|d: int| 0 <= d < deps[su].len() && listed(layers, g - 1, deps[su][d] as int);
        let t = deps[su][d] as int;
        assert(deps[su].contains(t as usize));
        assert(part_dep(part, adj, su, t));
        let (w, v) = choose|w: int, v: int| 0 <= w < n && 0 <= v < n && part[w] == su && part[v] == t && #[trigger] adj[w].contains(v as usize);
        assert(together(sccs, nodes[u].key, nodes[w].key));
        assert(!together(sccs, nodes[w].key, nodes[v].key));
        assert(depends_outside(nodes, sccs, dep, w, v));
        assert(part_depends_on(nodes, sccs, dep, u, v));
        let kk = choose|kk: int| 0 <= kk < layers[g - 1].len() && #[trigger] layers[g - 1][kk] == t;
        assert(layers[g - 1].contains(part[v]));
    }
    assert forall|u: int|
        0 <= u < n && !#[trigger] in_group_before(groups, groups.len() as int, nodes[u].key) implies exists|v: int|
            #[trigger] part_depends_on(nodes, sccs, dep, u, v) && !in_group_before(groups, groups.len() as int, nodes[v].key) by {
        let su = part[u] as int;
        assert(!listed_before(layers, layers.len() as int, su));
        let d = choose|d: int| 0 <= d < deps[su].len() && !listed_before(layers, layers.len() as int, deps[su][d] as int);
        let t = deps[su][d] as int;
        assert(deps[su].contains(t as usize));
        assert(part_dep(part, adj, su, t));
        let (w, v) = choose|w: int, v: int| 0 <= w < n && 0 <= v < n && part[w] == su && part[v] == t && #[trigger] adj[w].contains(v as usize);
        assert(together(sccs, nodes[u].key, nodes[w].key));
        assert(!together(sccs, nodes[w].key, nodes[v].key));
        assert(depends_outside(nodes, sccs, dep, w, v));
        assert(part_depends_on(nodes, sccs, dep, u, v));
    }
}

/// Kahn levels over the SCC condensation: group `g` lists, in source order,
/// the nodes of the parts whose dependencies all lie in earlier groups and
/// that depend on the group just before (see [`topo_ok`]).
pub fn condensation_levels(nodes: &Vec<IrNode>, sccs: &Vec<IrScc>, adjacency: &Vec<Vec<usize>>) -> (groups: Vec<IrTopoGroup>)
    requires
        keys_sorted(nodes.deep_view()),
        sccs_ok(sccs.deep_view(), nodes.deep_view()),
        adjacency.len() == nodes.len(),
        forall|u: int, k: int| 0 <= u < adjacency.len() && 0 <= k < adjacency@[u]@.len() ==> #[trigger] adjacency@[u]@[k] < adjacency.len(),
    ensures
        topo_ok(groups.deep_view(), nodes.deep_view(), sccs.deep_view(), adj_relation(adjacency.deep_view())),
{
    let ghost nv = nodes.deep_view();
    let (part, members) = assign_parts(nodes, sccs);
    let ghost mv = members.deep_view();
    let count = members.len();
    proof {
        assert forall|p: int| 0 <= p < part.len() implies #[trigger] part@[p] < count by {}
    }
    let deps = part_deps(&part, count, adjacency);
    let layers = kahn_layers(&deps);
    let ghost lv = layers.deep_view();
    let mut groups: Vec<IrTopoGroup> = Vec::new();
    let mut g: usize = 0;
    proof {
        assert forall|s: int, k: int| 0 <= s < members.len() && 0 <= k < members@[s]@.len() implies #[trigger] members@[s]@[k] < nodes.len()
            && part@[members@[s]@[k] as int] == s by {
            assert(mv[s] == members@[s]@);
        }
        assert forall|p: int| 0 <= p < part.len() implies #[trigger] part@[p] < members.len() && members@[part@[p] as int]@.contains(p as usize) by {
            assert(mv[part@[p] as int] == members@[part@[p] as int]@);
        }
        assert forall|s: int, k1: int, k2: int| 0 <= s < members.len() && 0 <= k1 < k2 < members@[s]@.len() implies #[trigger] members@[s]@[k1]
            != #[trigger] members@[s]@[k2] by {
            assert(mv[s] == members@[s]@);
        }
    }
    while g < layers.len()
        invariant
            g <= layers.len(),
            nv == nodes.deep_view(),
            mv == members.deep_view(),
            lv == layers.deep_view(),
            keys_sorted(nv),
            count == members.len(),
            part.len() == nodes.len(),
            layered(lv, deps.deep_view()),
            deps.len() == count,
            forall|s: int, k: int| 0 <= s < members.len() && 0 <= k < members@[s]@.len() ==> #[trigger] members@[s]@[k] < nodes.len()
                && part@[members@[s]@[k] as int] == s,
            forall|p: int| 0 <= p < part.len() ==> #[trigger] part@[p] < members.len() && members@[part@[p] as int]@.contains(p as usize),
            forall|s: int, k1: int, k2: int| 0 <= s < members.len() && 0 <= k1 < k2 < members@[s]@.len() ==> #[trigger] members@[s]@[k1]
                != #[trigger] members@[s]@[k2],
            groups.len() == g,
            built_from(groups.deep_view(), lv.take(g as int), part@, nv),
        decreases layers.len() - g,
    {
        let group = &layers[g];
        assert(lv[g as int] == group@);
        proof {
            assert forall|k: int| 0 <= k < group.len() implies #[trigger] group@[k] < members.len() by {
                assert(lv[g as int][k] == group@[k]);
            }
            assert forall|k1: int, k2: int| 0 <= k1 < k2 < group.len() implies #[trigger] group@[k1] != #[trigger] group@[k2] by {
                assert(lv[g as int][k1] == group@[k1]);
                assert(lv[g as int][k2] == group@[k2]);
            }
        }
        let ps = group_positions(group, &members, nodes, Ghost(part@));
        let keys = keys_at(&ps, nodes);
        let ghost kv = keys.deep_view();
        let ghost before = groups.deep_view();
        groups.push(IrTopoGroup { level: g, members: keys });
        proof {
            let gv = groups.deep_view();
            assert(gv =~= before.push(IrTopoGroupView { level: g, members: kv }));
            assert(lv.take(g + 1) =~= lv.take(g as int).push(lv[g as int]));
            assert forall|i: int, j: int| 0 <= i < j < kv.len() implies key_before(nv, #[trigger] kv[i], #[trigger] kv[j]) by {
                assert(kv[i] == nv[ps@[i] as int].key);
                assert(kv[j] == nv[ps@[j] as int].key);
            }
            assert forall|key: Seq<char>| #[trigger] kv.contains(key) <==> exists|x: int|
                0 <= x < nv.len() && lv.take(g + 1)[g as int].contains(part@[x]) && #[trigger] nv[x].key == key by {
                if kv.contains(key) {
                    let i = choose|i: int| 0 <= i < kv.len() && kv[i] == key;
                    assert(ps@.contains(ps@[i]));
                    let x = ps@[i] as int;
                    assert(nv[x].key == key);
                }
                if exists|x: int| 0 <= x < nv.len() && lv.take(g + 1)[g as int].contains(part@[x]) && #[trigger] nv[x].key == key {
                    let x = choose|x: int| 0 <= x < nv.len() && lv.take(g + 1)[g as int].contains(part@[x]) && #[trigger] nv[x].key == key;
                    assert(ps@.contains(x as usize));
                    let i = choose|i: int| 0 <= i < ps@.len() && ps@[i] == x as usize;
                    assert(kv[i] == key);
                }
            }
            assert forall|h: int| 0 <= h < gv.len() implies #[trigger] gv[h].level == h && keys_in_source_order(gv[h].members, nv) by {
                if h < g {
                    assert(gv[h] == before[h]);
                }
            }
            assert forall|h: int, key: Seq<char>| 0 <= h < gv.len() implies (#[trigger] gv[h].members.contains(key) <==> exists|x: int|
                0 <= x < nv.len() && lv.take(g + 1)[h].contains(part@[x]) && #[trigger] nv[x].key == key) by {
                if h < g {
                    assert(gv[h] == before[h]);
                    assert(lv.take(g + 1)[h] == lv.take(g as int)[h]);
                }
            }
        }
        g = g + 1;
    }
    proof {
        assert(lv.take(layers.len() as int) =~= lv);
        lemma_topo(groups.deep_view(), lv, deps.deep_view(), part@, mv, nv, sccs.deep_view(), adjacency.deep_view(), adj_relation(adjacency.deep_view()));
    }
    groups
}

} // verus!
