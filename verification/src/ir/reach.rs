//! Reachability along a relation between node positions, and along the
//! adjacency lists of the graph.

use vstd::prelude::*;

verus! {

/// `path` is a walk along `rel`: node positions, each related to the next.
pub open spec fn is_walk(rel: spec_fn(int, int) -> bool, path: Seq<int>) -> bool {
    &&& path.len() > 0
    &&& forall|i: int| 0 <= i < path.len() - 1 ==> #[trigger] rel(path[i], path[i + 1])
}

/// Node `v` can be reached from node `u` along `rel` (in zero or more
/// steps).
pub closed spec fn reaches(rel: spec_fn(int, int) -> bool, u: int, v: int) -> bool {
    exists|path: Seq<int>| #[trigger] is_walk(rel, path) && path[0] == u && path.last() == v
}

/// Every node reaches itself.
pub proof fn lemma_reaches_refl(rel: spec_fn(int, int) -> bool, u: int)
    ensures
        reaches(rel, u, u),
{
    let path = seq![u];
    assert(is_walk(rel, path));
}

/// A related pair is a step of reachability.
pub proof fn lemma_reaches_step(rel: spec_fn(int, int) -> bool, u: int, v: int)
    requires
        rel(u, v),
    ensures
        reaches(rel, u, v),
{
    let path = seq![u, v];
    assert(is_walk(rel, path));
}

/// Reachability is transitive.
pub proof fn lemma_reaches_trans(rel: spec_fn(int, int) -> bool, u: int, v: int, w: int)
    requires
        reaches(rel, u, v),
        reaches(rel, v, w),
    ensures
        reaches(rel, u, w),
{
    let p1 = choose|path: Seq<int>| #[trigger] is_walk(rel, path) && path[0] == u && path.last() == v;
    let p2 = choose|path: Seq<int>| #[trigger] is_walk(rel, path) && path[0] == v && path.last() == w;
    let p = p1 + p2.drop_first();
    assert forall|i: int| 0 <= i < p.len() - 1 implies #[trigger] rel(p[i], p[i + 1]) by {
        if i < p1.len() - 1 {
            assert(p[i] == p1[i] && p[i + 1] == p1[i + 1]);
        } else if i == p1.len() - 1 {
            assert(p[i] == p1[i]);
            assert(p[i + 1] == p2[1]);
            assert(p1[i] == v && p2[0] == v);
        } else {
            assert(p[i] == p2[i - p1.len() + 1]);
            assert(p[i + 1] == p2[i - p1.len() + 2]);
        }
    }
    if p2.len() == 1 {
        assert(p =~= p1);
    } else {
        assert(p.last() == p2.last());
    }
    assert(is_walk(rel, p));
}

proof fn lemma_closed_along_walk(rel: spec_fn(int, int) -> bool, closed: spec_fn(int) -> bool, path: Seq<int>, i: int)
    requires
        forall|x: int, y: int| closed(x) && #[trigger] rel(x, y) ==> closed(y),
        is_walk(rel, path),
        0 <= i < path.len(),
        closed(path[i]),
    ensures
        closed(path.last()),
    decreases path.len() - i,
{
    if i < path.len() - 1 {
        assert(rel(path[i], path[i + 1]));
        lemma_closed_along_walk(rel, closed, path, i + 1);
    }
}

/// A set of nodes closed under `rel` holds everything its members reach.
pub proof fn lemma_reaches_closed(rel: spec_fn(int, int) -> bool, closed: spec_fn(int) -> bool, u: int, v: int)
    requires
        forall|x: int, y: int| closed(x) && #[trigger] rel(x, y) ==> closed(y),
        closed(u),
        reaches(rel, u, v),
    ensures
        closed(v),
{
    let path = choose|path: Seq<int>| #[trigger] is_walk(rel, path) && path[0] == u && path.last() == v;
    lemma_closed_along_walk(rel, closed, path, 0);
}

/// The edge relation of an adjacency: node `u` has an edge to node `v`.
pub open spec fn adj_relation(adj: Seq<Seq<usize>>) -> spec_fn(int, int) -> bool {
    |u: int, v: int| 0 <= u < adj.len() && 0 <= v < adj.len() && adj[u].contains(v as usize)
}

/// Node `v` can be reached from node `u` along the adjacency lists.
pub open spec fn reach(adj: Seq<Seq<usize>>, u: int, v: int) -> bool {
    reaches(adj_relation(adj), u, v)
}

/// Every node reaches itself.
pub proof fn lemma_reach_refl(adj: Seq<Seq<usize>>, u: int)
    ensures
        reach(adj, u, u),
{
    lemma_reaches_refl(adj_relation(adj), u);
}

/// An edge is a step of reachability.
pub proof fn lemma_reach_edge(adj: Seq<Seq<usize>>, u: int, v: int)
    requires
        0 <= u < adj.len(),
        0 <= v < adj.len(),
        adj[u].contains(v as usize),
    ensures
        reach(adj, u, v),
{
    lemma_reaches_step(adj_relation(adj), u, v);
}

/// Reachability is transitive.
pub proof fn lemma_reach_trans(adj: Seq<Seq<usize>>, u: int, v: int, w: int)
    requires
        reach(adj, u, v),
        reach(adj, v, w),
    ensures
        reach(adj, u, w),
{
    lemma_reaches_trans(adj_relation(adj), u, v, w);
}

/// A set of nodes closed under edges holds everything its members reach.
pub proof fn lemma_reach_closed(adj: Seq<Seq<usize>>, closed: spec_fn(int) -> bool, u: int, v: int)
    requires
        forall|x: int, k: int| closed(x) && 0 <= x < adj.len() && 0 <= k < adj[x].len() ==> closed(#[trigger] adj[x][k] as int),
        adj.len() <= usize::MAX,
        closed(u),
        reach(adj, u, v),
    ensures
        closed(v),
{
    let rel = adj_relation(adj);
    assert forall|x: int, y: int| closed(x) && #[trigger] rel(x, y) implies closed(y) by {
        let k = choose|k: int| 0 <= k < adj[x].len() && adj[x][k] == y as usize;
        assert(closed(adj[x][k] as int));
    }
    lemma_reaches_closed(rel, closed, u, v);
}

} // verus!
