//! What the depth-first search of the component walk knows of
//! reachability, and how each step of the walk keeps it.

use vstd::prelude::*;
use crate::ir::reach::{adj_relation, lemma_reach_closed, lemma_reach_edge, lemma_reach_refl, lemma_reach_trans, reach};
use crate::ir::scc::{adjacency_ok, components_connected, components_maximal, in_some_component, occurs};

verus! {

/// The frames' nodes have strictly increasing indices.
pub open spec fn frames_increasing(indices: Seq<usize>, frames: Seq<(usize, usize)>) -> bool {
    forall|k1: int, k2: int|
        0 <= k1 < k2 < frames.len() ==> indices[(#[trigger] frames[k1]).0 as int]
            < indices[(#[trigger] frames[k2]).0 as int]
}

/// Node `x` lies in the stretch of frame `k`: its index is at least that of
/// the frame's node and below that of the next frame's node.
pub open spec fn owned_by(indices: Seq<usize>, frames: Seq<(usize, usize)>, k: int, x: int) -> bool {
    &&& 0 <= k < frames.len()
    &&& indices[frames[k].0 as int] <= indices[x]
    &&& (k + 1 < frames.len() ==> indices[x] < indices[frames[k + 1].0 as int])
}

/// Node `x` is the node of a frame.
pub open spec fn is_frame(frames: Seq<(usize, usize)>, x: int) -> bool {
    exists|k: int| 0 <= k < frames.len() && #[trigger] frames[k].0 == x
}

/// Neighbour `j` of node `x` has been looked at: below the count of its
/// frame, or any neighbour once the node has left the frames.
pub open spec fn looked_at(frames: Seq<(usize, usize)>, adj: Seq<Seq<usize>>, x: int, j: int) -> bool {
    if is_frame(frames, x) {
        exists|k: int| 0 <= k < frames.len() && #[trigger] frames[k].0 == x && j < frames[k].1
    } else {
        j < adj[x].len()
    }
}

/// What the depth-first search knows of reachability between steps:
/// consecutive frames are joined by an edge; each stack node and the frame
/// whose stretch it lies in reach each other, and the node's lowlink is not
/// below the frame's; each stack node reaches a stack node whose index is
/// its lowlink; and every looked-at neighbour of a stack node is visited,
/// with an index not below the node's lowlink while it is on the stack.
pub open spec fn search_ok(
    adj: Seq<Seq<usize>>,
    indices: Seq<usize>,
    lowlink: Seq<usize>,
    on_stack: Seq<bool>,
    stack: Seq<usize>,
    frames: Seq<(usize, usize)>,
    visited: Set<int>,
) -> bool {
    &&& frames_joined(adj, frames)
    &&& stretches_ok(adj, indices, lowlink, stack, frames)
    &&& lowlinks_witnessed(adj, indices, lowlink, stack)
    &&& looked_ok(adj, indices, lowlink, on_stack, stack, frames, visited)
}

/// Consecutive frames are joined by an edge.
pub open spec fn frames_joined(adj: Seq<Seq<usize>>, frames: Seq<(usize, usize)>) -> bool {
    forall|k: int| 0 <= k < frames.len() - 1 ==> adj[(#[trigger] frames[k]).0 as int].contains(frames[k + 1].0)
}

/// Each stack node and the frame whose stretch it lies in reach each other,
/// and the node's lowlink is not below the frame's.
pub open spec fn stretches_ok(adj: Seq<Seq<usize>>, indices: Seq<usize>, lowlink: Seq<usize>, stack: Seq<usize>, frames: Seq<(usize, usize)>) -> bool {
    forall|i: int, k: int|
        0 <= i < stack.len() && #[trigger] owned_by(indices, frames, k, stack[i] as int) ==> reach(adj, frames[k].0 as int, stack[i] as int)
            && reach(adj, stack[i] as int, frames[k].0 as int) && lowlink[frames[k].0 as int] <= lowlink[stack[i] as int]
}

/// Each stack node reaches a stack node whose index is its lowlink.
pub open spec fn lowlinks_witnessed(adj: Seq<Seq<usize>>, indices: Seq<usize>, lowlink: Seq<usize>, stack: Seq<usize>) -> bool {
    forall|i: int| 0 <= i < stack.len() ==> #[trigger] witnessed_at(adj, indices, lowlink, stack, i)
}

/// Stack node `i` reaches a stack node whose index is its lowlink.
pub open spec fn witnessed_at(adj: Seq<Seq<usize>>, indices: Seq<usize>, lowlink: Seq<usize>, stack: Seq<usize>, i: int) -> bool {
    exists|j: int|
        0 <= j < stack.len() && #[trigger] indices[stack[j] as int] == lowlink[stack[i] as int] && reach(
            adj,
            stack[i] as int,
            stack[j] as int,
        )
}

/// Every looked-at neighbour of a stack node is visited, with an index not
/// below the node's lowlink while it is on the stack.
pub open spec fn looked_ok(
    adj: Seq<Seq<usize>>,
    indices: Seq<usize>,
    lowlink: Seq<usize>,
    on_stack: Seq<bool>,
    stack: Seq<usize>,
    frames: Seq<(usize, usize)>,
    visited: Set<int>,
) -> bool {
    forall|i: int, j: int|
        0 <= i < stack.len() && 0 <= j < adj[stack[i] as int].len() && #[trigger] looked_at(frames, adj, stack[i] as int, j) ==> visited.contains(
            adj[stack[i] as int][j] as int,
        ) && (on_stack[adj[stack[i] as int][j] as int] ==> lowlink[stack[i] as int] <= indices[adj[stack[i] as int][j] as int])
}

/// The completed components are closed under edges (every neighbour of
/// their nodes is visited and off the stack), their nodes reach each other,
/// and nodes that reach each other lie in one component.
pub open spec fn comps_ok(adj: Seq<Seq<usize>>, comps: Seq<Seq<usize>>, on_stack: Seq<bool>, visited: Set<int>) -> bool {
    &&& forall|c: int, k: int, j: int|
        0 <= c < comps.len() && 0 <= k < comps[c].len() && 0 <= j < adj[comps[c][k] as int].len() ==> visited.contains(
            #[trigger] adj[comps[c][k] as int][j] as int,
        ) && !on_stack[adj[comps[c][k] as int][j] as int]
    &&& components_connected(adj_relation(adj), comps)
    &&& components_maximal(adj_relation(adj), comps)
}

/// Frames reach the frames after them.
proof fn lemma_chain_reach(adj: Seq<Seq<usize>>, frames: Seq<(usize, usize)>, a: int, b: int)
    requires
        adjacency_ok(adj),
        forall|k: int| 0 <= k < frames.len() - 1 ==> adj[(#[trigger] frames[k]).0 as int].contains(frames[k + 1].0),
        forall|k: int| 0 <= k < frames.len() ==> (#[trigger] frames[k]).0 < adj.len(),
        0 <= a <= b < frames.len(),
    ensures
        reach(adj, frames[a].0 as int, frames[b].0 as int),
    decreases b - a,
{
    if a == b {
        lemma_reach_refl(adj, frames[a].0 as int);
    } else {
        lemma_chain_reach(adj, frames, a, b - 1);
        assert(adj[frames[b - 1].0 as int].contains(frames[b].0));
        lemma_reach_edge(adj, frames[b - 1].0 as int, frames[b].0 as int);
        lemma_reach_trans(adj, frames[a].0 as int, frames[b - 1].0 as int, frames[b].0 as int);
    }
}

/// The frames after moving the top frame to its next neighbour keep their
/// nodes: stretches and frame membership are unchanged.
proof fn lemma_advance_same_nodes(indices: Seq<usize>, frames: Seq<(usize, usize)>, v: usize, next: usize)
    requires
        frames.len() > 0,
        frames.last() == (v, next),
    ensures
        forall|k: int, x: int| #[trigger] owned_by(indices, frames.update(frames.len() - 1, (v, (next + 1) as usize)), k, x) == owned_by(indices, frames, k, x),
        forall|x: int| #[trigger] is_frame(frames.update(frames.len() - 1, (v, (next + 1) as usize)), x) == is_frame(frames, x),
        forall|k: int| 0 <= k < frames.len() ==> #[trigger] frames.update(frames.len() - 1, (v, (next + 1) as usize))[k].0 == frames[k].0,
{
    let last = frames.len() - 1;
    let frames2 = frames.update(last, (v, (next + 1) as usize));
    assert forall|k: int| 0 <= k < frames.len() implies #[trigger] frames2[k].0 == frames[k].0 by {}
    assert forall|k: int, x: int| #[trigger] owned_by(indices, frames2, k, x) == owned_by(indices, frames, k, x) by {
        if 0 <= k < frames.len() {
            assert(frames2[k].0 == frames[k].0);
            if k + 1 < frames.len() {
                assert(frames2[k + 1].0 == frames[k + 1].0);
            }
        }
    }
    assert forall|x: int| #[trigger] is_frame(frames2, x) == is_frame(frames, x) by {
        if is_frame(frames, x) {
            let k = choose|k: int| 0 <= k < frames.len() && #[trigger] frames[k].0 == x;
            assert(frames2[k].0 == x);
        }
        if is_frame(frames2, x) {
            let k = choose|k: int| 0 <= k < frames2.len() && #[trigger] frames2[k].0 == x;
            assert(frames[k].0 == x);
        }
    }
}


/// The frames after moving the top frame to its next neighbour.
pub open spec fn advanced(frames: Seq<(usize, usize)>) -> Seq<(usize, usize)> {
    frames.update(frames.len() - 1, (frames.last().0, (frames.last().1 + 1) as usize))
}

/// A node of the frames lies in no stretch but its own frame's.
proof fn lemma_frame_owns_itself(indices: Seq<usize>, frames: Seq<(usize, usize)>, k: int, k2: int)
    requires
        frames_increasing(indices, frames),
        0 <= k < frames.len(),
        owned_by(indices, frames, k2, frames[k].0 as int),
    ensures
        k2 == k,
{
    if k2 < k {
        if k2 + 1 < k {
            assert(indices[frames[k2 + 1].0 as int] < indices[frames[k].0 as int]);
        }
    } else if k2 > k {
        assert(indices[frames[k].0 as int] < indices[frames[k2].0 as int]);
    }
}

/// Each node of the frames is the node of one frame only.
proof fn lemma_frame_unique(indices: Seq<usize>, frames: Seq<(usize, usize)>, k: int, k2: int)
    requires
        frames_increasing(indices, frames),
        0 <= k < frames.len(),
        0 <= k2 < frames.len(),
        frames[k2].0 == frames[k].0,
    ensures
        k2 == k,
{
    if k2 < k {
        assert(indices[frames[k2].0 as int] < indices[frames[k].0 as int]);
    } else if k2 > k {
        assert(indices[frames[k].0 as int] < indices[frames[k2].0 as int]);
    }
}

/// A node whose index is not below the first frame's lies in some stretch at
/// or below frame `k`.
proof fn lemma_owner(indices: Seq<usize>, frames: Seq<(usize, usize)>, x: int, k: int) -> (r: int)
    requires
        0 <= k < frames.len(),
        indices[frames[0].0 as int] <= indices[x],
        k + 1 < frames.len() ==> indices[x] < indices[frames[k + 1].0 as int],
    ensures
        owned_by(indices, frames, r, x),
        r <= k,
    decreases k,
{
    if indices[frames[k].0 as int] <= indices[x] {
        k
    } else {
        lemma_owner(indices, frames, x, k - 1)
    }
}

/// Moving the top frame to its next neighbour keeps the frames joined and
/// the stretches.
proof fn lemma_advance_search(
    adj: Seq<Seq<usize>>,
    indices: Seq<usize>,
    lowlink: Seq<usize>,
    stack: Seq<usize>,
    frames: Seq<(usize, usize)>,
)
    requires
        frames_joined(adj, frames),
        stretches_ok(adj, indices, lowlink, stack, frames),
        frames.len() > 0,
    ensures
        frames_joined(adj, advanced(frames)),
        stretches_ok(adj, indices, lowlink, stack, advanced(frames)),
        frames_increasing(indices, frames) ==> frames_increasing(indices, advanced(frames)),
        advanced(frames).len() == frames.len(),
        forall|k: int| 0 <= k < frames.len() ==> #[trigger] advanced(frames)[k].0 == frames[k].0,
        forall|x: int| #[trigger] is_frame(advanced(frames), x) == is_frame(frames, x),
{
    let (v, next) = frames.last();
    let frames2 = advanced(frames);
    lemma_advance_same_nodes(indices, frames, v, next);
    assert forall|k: int| 0 <= k < frames2.len() - 1 implies adj[(#[trigger] frames2[k]).0 as int].contains(
        frames2[k + 1].0,
    ) by {
        assert(frames2[k].0 == frames[k].0);
        assert(frames2[k + 1].0 == frames[k + 1].0);
        assert(adj[frames[k].0 as int].contains(frames[k + 1].0));
    }
    assert forall|i: int, k: int|
        0 <= i < stack.len() && #[trigger] owned_by(indices, frames2, k, stack[i] as int) implies reach(
            adj,
            frames2[k].0 as int,
            stack[i] as int,
        ) && reach(adj, stack[i] as int, frames2[k].0 as int) && lowlink[frames2[k].0 as int]
            <= lowlink[stack[i] as int] by {
        assert(owned_by(indices, frames, k, stack[i] as int));
        assert(frames2[k].0 == frames[k].0);
    }
    if frames_increasing(indices, frames) {
        assert forall|k1: int, k2: int| 0 <= k1 < k2 < frames2.len() implies indices[(
        #[trigger] frames2[k1]).0 as int] < indices[(#[trigger] frames2[k2]).0 as int] by {
            assert(frames2[k1].0 == frames[k1].0);
            assert(frames2[k2].0 == frames[k2].0);
        }
    }
}

/// Lowering the lowlink of the top frame's node keeps the stretches.
proof fn lemma_lower_stretches(
    adj: Seq<Seq<usize>>,
    indices: Seq<usize>,
    lowlink: Seq<usize>,
    stack: Seq<usize>,
    frames: Seq<(usize, usize)>,
    lw: usize,
)
    requires
        stretches_ok(adj, indices, lowlink, stack, frames),
        frames_increasing(indices, frames),
        frames.len() > 0,
        frames.last().0 < lowlink.len(),
        lw <= lowlink[frames.last().0 as int],
        forall|i: int| 0 <= i < stack.len() ==> #[trigger] stack[i] < lowlink.len(),
        forall|k: int| 0 <= k < frames.len() ==> (#[trigger] frames[k]).0 < lowlink.len(),
    ensures
        stretches_ok(adj, indices, lowlink.update(frames.last().0 as int, lw), stack, frames),
{
    let v = frames.last().0;
    let last = frames.len() - 1;
    let lowlink2 = lowlink.update(v as int, lw);
    assert forall|i: int, k: int|
        0 <= i < stack.len() && #[trigger] owned_by(indices, frames, k, stack[i] as int) implies reach(
            adj,
            frames[k].0 as int,
            stack[i] as int,
        ) && reach(adj, stack[i] as int, frames[k].0 as int) && lowlink2[frames[k].0 as int]
            <= lowlink2[stack[i] as int] by {
        assert(frames[last].0 == v);
        if stack[i] == v {
            lemma_frame_owns_itself(indices, frames, last, k);
        }
    }
}

/// Lowering the lowlink of stack node `u` to the index of stack node `t`
/// that `u` reaches keeps every lowlink witnessed.
proof fn lemma_lower_witnessed(
    adj: Seq<Seq<usize>>,
    indices: Seq<usize>,
    lowlink: Seq<usize>,
    stack: Seq<usize>,
    u: usize,
    t: usize,
)
    requires
        lowlinks_witnessed(adj, indices, lowlink, stack),
        occurs(stack, t as int),
        reach(adj, u as int, t as int),
        u < lowlink.len(),
        forall|i: int| 0 <= i < stack.len() ==> #[trigger] stack[i] < lowlink.len(),
    ensures
        lowlinks_witnessed(adj, indices, lowlink.update(u as int, indices[t as int]), stack),
{
    let lowlink2 = lowlink.update(u as int, indices[t as int]);
    assert forall|i: int| 0 <= i < stack.len() implies #[trigger] witnessed_at(adj, indices, lowlink2, stack, i) by {
        if stack[i] == u {
            let it = choose|it: int| 0 <= it < stack.len() && stack[it] == t;
            assert(indices[stack[it] as int] == lowlink2[stack[i] as int]);
        } else {
            assert(witnessed_at(adj, indices, lowlink, stack, i));
            let j = choose|j: int|
                0 <= j < stack.len() && #[trigger] indices[stack[j] as int] == lowlink[stack[i] as int] && reach(
                    adj,
                    stack[i] as int,
                    stack[j] as int,
                );
            assert(indices[stack[j] as int] == lowlink2[stack[i] as int]);
        }
    }
}

/// The lowlink of the top frame's node `v` after looking at its neighbour
/// `w`: lowered to `w`'s index when `w` is on the stack with a smaller one.
pub open spec fn looked_lowlink(indices: Seq<usize>, lowlink: Seq<usize>, on_stack: Seq<bool>, v: int, w: int) -> Seq<usize> {
    if on_stack[w] && indices[w] < lowlink[v] {
        lowlink.update(v, indices[w])
    } else {
        lowlink
    }
}

/// Looking at the next neighbour of the top frame's node, visited already,
/// keeps every looked-at neighbour accounted for.
proof fn lemma_look_looked(
    adj: Seq<Seq<usize>>,
    indices: Seq<usize>,
    lowlink: Seq<usize>,
    on_stack: Seq<bool>,
    stack: Seq<usize>,
    frames: Seq<(usize, usize)>,
    visited: Set<int>,
)
    requires
        looked_ok(adj, indices, lowlink, on_stack, stack, frames, visited),
        frames_increasing(indices, frames),
        frames.len() > 0,
        frames.last().0 < adj.len(),
        frames.last().0 < lowlink.len(),
        frames.last().1 < adj[frames.last().0 as int].len(),
        visited.contains(adj[frames.last().0 as int][frames.last().1 as int] as int),
        forall|i: int| 0 <= i < stack.len() ==> #[trigger] stack[i] < lowlink.len(),
    ensures
        looked_ok(
            adj,
            indices,
            looked_lowlink(indices, lowlink, on_stack, frames.last().0 as int, adj[frames.last().0 as int][frames.last().1 as int] as int),
            on_stack,
            stack,
            advanced(frames),
            visited,
        ),
{
    let (v, next) = frames.last();
    let w = adj[v as int][next as int];
    let last = frames.len() - 1;
    let frames2 = advanced(frames);
    let lowlink2 = looked_lowlink(indices, lowlink, on_stack, v as int, w as int);
    lemma_advance_same_nodes(indices, frames, v, next);
    assert(frames[last].0 == v);
    assert forall|i: int, j: int|
        0 <= i < stack.len() && 0 <= j < adj[stack[i] as int].len() && #[trigger] looked_at(
            frames2,
            adj,
            stack[i] as int,
            j,
        ) implies visited.contains(adj[stack[i] as int][j] as int) && (on_stack[adj[stack[i] as int][j] as int]
            ==> lowlink2[stack[i] as int] <= indices[adj[stack[i] as int][j] as int]) by {
        let x = stack[i] as int;
        if is_frame(frames, x) {
            let k = choose|k: int| 0 <= k < frames2.len() && #[trigger] frames2[k].0 == x && j < frames2[k].1;
            if k == last {
                if j < next {
                    assert(frames[last].0 == x && j < frames[last].1);
                    assert(looked_at(frames, adj, x, j));
                } else {
                    assert(x == v && j == next);
                }
            } else {
                assert(frames[k] == frames2[k]);
                assert(looked_at(frames, adj, x, j));
            }
        } else {
            assert(looked_at(frames, adj, x, j));
        }
    }
}

/// Looking at the next neighbour `w` of the top frame's node `v`, visited
/// already, keeps the search consistent; `v`'s lowlink drops to `w`'s index
/// when `w` is on the stack with a smaller one.
pub proof fn lemma_search_look(
    adj: Seq<Seq<usize>>,
    indices: Seq<usize>,
    lowlink: Seq<usize>,
    on_stack: Seq<bool>,
    stack: Seq<usize>,
    frames: Seq<(usize, usize)>,
    visited: Set<int>,
)
    requires
        adjacency_ok(adj),
        search_ok(adj, indices, lowlink, on_stack, stack, frames, visited),
        frames_increasing(indices, frames),
        frames.len() > 0,
        frames.last().0 < adj.len(),
        frames.last().0 < lowlink.len(),
        frames.last().1 < adj[frames.last().0 as int].len(),
        visited.contains(adj[frames.last().0 as int][frames.last().1 as int] as int),
        forall|i: int| 0 <= i < stack.len() ==> #[trigger] stack[i] < lowlink.len(),
        forall|k: int| 0 <= k < frames.len() ==> (#[trigger] frames[k]).0 < lowlink.len(),
        forall|x: int| 0 <= x < on_stack.len() && #[trigger] on_stack[x] ==> occurs(stack, x),
        on_stack.len() == lowlink.len(),
        lowlink.len() == adj.len(),
    ensures
        search_ok(
            adj,
            indices,
            looked_lowlink(indices, lowlink, on_stack, frames.last().0 as int, adj[frames.last().0 as int][frames.last().1 as int] as int),
            on_stack,
            stack,
            advanced(frames),
            visited,
        ),
{
    let (v, next) = frames.last();
    let w = adj[v as int][next as int];
    let frames2 = advanced(frames);
    lemma_advance_search(adj, indices, lowlink, stack, frames);
    lemma_look_looked(adj, indices, lowlink, on_stack, stack, frames, visited);
    if on_stack[w as int] && indices[w as int] < lowlink[v as int] {
        assert(frames2.last().0 == v);
        assert forall|k: int| 0 <= k < frames2.len() implies (#[trigger] frames2[k]).0 < lowlink.len() by {
            assert(frames2[k].0 == frames[k].0);
        }
        lemma_lower_stretches(adj, indices, lowlink, stack, frames2, indices[w as int]);
        assert(adj[v as int].contains(w));
        lemma_reach_edge(adj, v as int, w as int);
        lemma_lower_witnessed(adj, indices, lowlink, stack, v, w);
    }
}


/// The next neighbour of the top frame's node.
pub open spec fn next_of(adj: Seq<Seq<usize>>, frames: Seq<(usize, usize)>) -> int {
    adj[frames.last().0 as int][frames.last().1 as int] as int
}

/// Entering a fresh node `w` keeps the stretches: the new frame's stretch is
/// `w` alone, the others keep their nodes.
proof fn lemma_visit_stretches(
    adj: Seq<Seq<usize>>,
    index: usize,
    indices: Seq<usize>,
    lowlink: Seq<usize>,
    stack: Seq<usize>,
    frames: Seq<(usize, usize)>,
    w: usize,
)
    requires
        stretches_ok(adj, indices, lowlink, stack, frames),
        w < adj.len(),
        w < indices.len(),
        w < lowlink.len(),
        forall|i: int|
            0 <= i < stack.len() ==> #[trigger] stack[i] != w && stack[i] < indices.len() && stack[i] < lowlink.len()
                && indices[stack[i] as int] < index,
        forall|k: int|
            0 <= k < frames.len() ==> (#[trigger] frames[k]).0 != w && frames[k].0 < indices.len() && frames[k].0
                < lowlink.len() && indices[frames[k].0 as int] < index,
    ensures
        stretches_ok(
            adj,
            indices.update(w as int, index),
            lowlink.update(w as int, index),
            stack.push(w),
            frames.push((w, 0)),
        ),
{
    let indices2 = indices.update(w as int, index);
    let lowlink2 = lowlink.update(w as int, index);
    let stack2 = stack.push(w);
    let frames2 = frames.push((w, 0usize));
    assert forall|i: int, k: int|
        0 <= i < stack2.len() && #[trigger] owned_by(indices2, frames2, k, stack2[i] as int) implies reach(
            adj,
            frames2[k].0 as int,
            stack2[i] as int,
        ) && reach(adj, stack2[i] as int, frames2[k].0 as int) && lowlink2[frames2[k].0 as int]
            <= lowlink2[stack2[i] as int] by {
        if i < stack.len() {
            assert(stack2[i] == stack[i]);
            if k == frames.len() {
                assert(frames2[k].0 == w);
            }
            assert(frames2[k] == frames[k]);
            if k + 1 < frames.len() {
                assert(frames2[k + 1] == frames[k + 1]);
            }
            assert(owned_by(indices, frames, k, stack[i] as int));
        } else {
            assert(stack2[i] == w);
            if k < frames.len() {
                assert(frames2[k] == frames[k]);
                if k + 1 < frames.len() {
                    assert(frames2[k + 1] == frames[k + 1]);
                } else {
                    assert(frames2[k + 1].0 == w);
                }
            }
            assert(frames2[k].0 == w);
            lemma_reach_refl(adj, w as int);
        }
    }
}

/// Entering a fresh node `w` keeps every lowlink witnessed; `w` witnesses
/// its own.
proof fn lemma_visit_witnessed(
    adj: Seq<Seq<usize>>,
    index: usize,
    indices: Seq<usize>,
    lowlink: Seq<usize>,
    stack: Seq<usize>,
    w: usize,
)
    requires
        lowlinks_witnessed(adj, indices, lowlink, stack),
        w < adj.len(),
        w < indices.len(),
        w < lowlink.len(),
        forall|i: int|
            0 <= i < stack.len() ==> #[trigger] stack[i] != w && stack[i] < indices.len() && stack[i] < lowlink.len(),
    ensures
        lowlinks_witnessed(adj, indices.update(w as int, index), lowlink.update(w as int, index), stack.push(w)),
{
    let indices2 = indices.update(w as int, index);
    let lowlink2 = lowlink.update(w as int, index);
    let stack2 = stack.push(w);
    assert forall|i: int| 0 <= i < stack2.len() implies #[trigger] witnessed_at(adj, indices2, lowlink2, stack2, i) by {
        if i < stack.len() {
            assert(witnessed_at(adj, indices, lowlink, stack, i));
            let j = choose|j: int|
                0 <= j < stack.len() && #[trigger] indices[stack[j] as int] == lowlink[stack[i] as int] && reach(
                    adj,
                    stack[i] as int,
                    stack[j] as int,
                );
            assert(stack2[j] == stack[j]);
            assert(stack2[i] == stack[i]);
            assert(indices2[stack2[j] as int] == lowlink2[stack2[i] as int]);
        } else {
            lemma_reach_refl(adj, w as int);
            assert(stack2[i] == w);
            assert(indices2[stack2[i] as int] == lowlink2[stack2[i] as int]);
        }
    }
}

/// Entering the fresh next neighbour `w` of the top frame's node keeps every
/// looked-at neighbour accounted for: `w` itself is visited and its index
/// is above every lowlink.
proof fn lemma_visit_looked(
    adj: Seq<Seq<usize>>,
    index: usize,
    indices: Seq<usize>,
    lowlink: Seq<usize>,
    on_stack: Seq<bool>,
    stack: Seq<usize>,
    frames: Seq<(usize, usize)>,
    visited: Set<int>,
)
    requires
        adjacency_ok(adj),
        looked_ok(adj, indices, lowlink, on_stack, stack, frames, visited),
        frames_increasing(indices, frames),
        frames.len() > 0,
        frames.last().0 < adj.len(),
        frames.last().1 < adj[frames.last().0 as int].len(),
        !visited.contains(next_of(adj, frames)),
        indices.len() == adj.len(),
        lowlink.len() == adj.len(),
        on_stack.len() == adj.len(),
        forall|i: int| 0 <= i < stack.len() ==> #[trigger] stack[i] < adj.len() && visited.contains(stack[i] as int),
        forall|k: int| 0 <= k < frames.len() ==> visited.contains((#[trigger] frames[k]).0 as int),
        forall|u: int|
            0 <= u < adj.len() && #[trigger] visited.contains(u) ==> indices[u] < index && lowlink[u] <= indices[u],
    ensures
        looked_ok(
            adj,
            indices.update(next_of(adj, frames), index),
            lowlink.update(next_of(adj, frames), index),
            on_stack.update(next_of(adj, frames), true),
            stack.push(next_of(adj, frames) as usize),
            advanced(frames).push((next_of(adj, frames) as usize, 0)),
            visited.insert(next_of(adj, frames)),
        ),
{
    let (v, next) = frames.last();
    let w = adj[v as int][next as int];
    let last = frames.len() - 1;
    let fa = advanced(frames);
    let frames2 = fa.push((w, 0usize));
    let indices2 = indices.update(w as int, index);
    let lowlink2 = lowlink.update(w as int, index);
    let on2 = on_stack.update(w as int, true);
    let stack2 = stack.push(w);
    let visited2 = visited.insert(w as int);
    lemma_advance_same_nodes(indices, frames, v, next);
    assert(frames[last].0 == v);
    assert(w < adj.len());
    assert forall|i: int, j: int|
        0 <= i < stack2.len() && 0 <= j < adj[stack2[i] as int].len() && #[trigger] looked_at(
            frames2,
            adj,
            stack2[i] as int,
            j,
        ) implies visited2.contains(adj[stack2[i] as int][j] as int) && (on2[adj[stack2[i] as int][j] as int]
            ==> lowlink2[stack2[i] as int] <= indices2[adj[stack2[i] as int][j] as int]) by {
        if i == stack.len() {
            assert(stack2[i] == w);
            assert(frames2[frames.len() as int].0 == w);
            let k = choose|k: int| 0 <= k < frames2.len() && #[trigger] frames2[k].0 == w && j < frames2[k].1;
            if k < frames.len() {
                assert(frames2[k] == fa[k]);
                assert(fa[k].0 == frames[k].0);
                assert(visited.contains(frames[k].0 as int));
            }
        } else {
            let x = stack[i] as int;
            assert(stack2[i] == stack[i]);
            assert(visited.contains(x));
            if x == v as int && j == next as int {
                assert(adj[x][j] == w);
                assert(visited.contains(v as int));
            } else {
                if is_frame(frames2, x) {
                    let k = choose|k: int| 0 <= k < frames2.len() && #[trigger] frames2[k].0 == x && j < frames2[k].1;
                    assert(k < frames.len());
                    assert(frames2[k] == fa[k]);
                    if k == last {
                        assert(frames[last].0 == x && j < frames[last].1);
                        assert(looked_at(frames, adj, x, j));
                    } else {
                        assert(fa[k] == frames[k]);
                        assert(looked_at(frames, adj, x, j));
                    }
                } else {
                    if is_frame(frames, x) {
                        let k = choose|k: int| 0 <= k < frames.len() && #[trigger] frames[k].0 == x;
                        assert(frames2[k] == fa[k]);
                        assert(fa[k].0 == frames[k].0);
                    }
                    assert(looked_at(frames, adj, x, j));
                }
                let u = adj[x][j];
                assert(visited.contains(u as int));
                assert(u != w);
            }
        }
    }
}

/// Entering the fresh next neighbour `w` of the top frame's node keeps the
/// search consistent: `w` gets the next index, goes on the stack and gets a
/// frame of its own.
pub proof fn lemma_search_visit(
    adj: Seq<Seq<usize>>,
    index: usize,
    indices: Seq<usize>,
    lowlink: Seq<usize>,
    on_stack: Seq<bool>,
    stack: Seq<usize>,
    frames: Seq<(usize, usize)>,
    visited: Set<int>,
)
    requires
        adjacency_ok(adj),
        search_ok(adj, indices, lowlink, on_stack, stack, frames, visited),
        frames_increasing(indices, frames),
        frames.len() > 0,
        frames.last().0 < adj.len(),
        frames.last().1 < adj[frames.last().0 as int].len(),
        !visited.contains(next_of(adj, frames)),
        indices.len() == adj.len(),
        lowlink.len() == adj.len(),
        on_stack.len() == adj.len(),
        forall|i: int| 0 <= i < stack.len() ==> #[trigger] stack[i] < adj.len() && visited.contains(stack[i] as int),
        forall|k: int| 0 <= k < frames.len() ==> (#[trigger] frames[k]).0 < adj.len() && visited.contains(frames[k].0 as int),
        forall|u: int|
            0 <= u < adj.len() && #[trigger] visited.contains(u) ==> indices[u] < index && lowlink[u] <= indices[u],
    ensures
        search_ok(
            adj,
            indices.update(next_of(adj, frames), index),
            lowlink.update(next_of(adj, frames), index),
            on_stack.update(next_of(adj, frames), true),
            stack.push(next_of(adj, frames) as usize),
            advanced(frames).push((next_of(adj, frames) as usize, 0)),
            visited.insert(next_of(adj, frames)),
        ),
{
    let (v, next) = frames.last();
    let w = adj[v as int][next as int];
    let fa = advanced(frames);
    lemma_advance_search(adj, indices, lowlink, stack, frames);
    assert(w < adj.len());
    assert forall|i: int| 0 <= i < stack.len() implies #[trigger] stack[i] != w && stack[i] < indices.len()
        && stack[i] < lowlink.len() && indices[stack[i] as int] < index by {
        assert(visited.contains(stack[i] as int));
    }
    assert forall|k: int| 0 <= k < fa.len() implies (#[trigger] fa[k]).0 != w && fa[k].0 < indices.len()
        && fa[k].0 < lowlink.len() && indices[fa[k].0 as int] < index by {
        assert(fa[k].0 == frames[k].0);
        assert(visited.contains(frames[k].0 as int));
    }
    lemma_visit_stretches(adj, index, indices, lowlink, stack, fa, w);
    lemma_visit_witnessed(adj, index, indices, lowlink, stack, w);
    lemma_visit_looked(adj, index, indices, lowlink, on_stack, stack, frames, visited);
    let frames2 = fa.push((w, 0usize));
    assert forall|k: int| 0 <= k < frames2.len() - 1 implies adj[(#[trigger] frames2[k]).0 as int].contains(
        frames2[k + 1].0,
    ) by {
        assert(frames2[k] == fa[k]);
        if k + 1 < fa.len() {
            assert(frames2[k + 1] == fa[k + 1]);
            assert(adj[fa[k].0 as int].contains(fa[k + 1].0));
        } else {
            assert(fa[k].0 == v);
            assert(adj[v as int][next as int] == w);
        }
    }
}


/// The lowlinks after the top frame's node `v` finishes and hands its
/// lowlink down to the frame below when that is smaller.
pub open spec fn finished_lowlink(lowlink: Seq<usize>, frames: Seq<(usize, usize)>) -> Seq<usize> {
    let v = frames.last().0 as int;
    let parent = frames[frames.len() - 2].0 as int;
    if lowlink[v] < lowlink[parent] {
        lowlink.update(parent, lowlink[v])
    } else {
        lowlink
    }
}

/// A node other than the top frame's keeps what was looked at of it when
/// the top frame leaves.
proof fn lemma_drop_looked_at(
    indices: Seq<usize>,
    frames: Seq<(usize, usize)>,
    adj: Seq<Seq<usize>>,
    x: int,
    j: int,
)
    requires
        frames.len() > 0,
        x != frames.last().0,
        looked_at(frames.drop_last(), adj, x, j),
    ensures
        looked_at(frames, adj, x, j),
{
    let frames2 = frames.drop_last();
    if is_frame(frames2, x) {
        let k = choose|k: int| 0 <= k < frames2.len() && #[trigger] frames2[k].0 == x && j < frames2[k].1;
        assert(frames[k] == frames2[k]);
    } else {
        if is_frame(frames, x) {
            let k = choose|k: int| 0 <= k < frames.len() && #[trigger] frames[k].0 == x;
            assert(k < frames2.len());
            assert(frames2[k] == frames[k]);
        }
    }
}

/// When the top frame's node `v` finishes without closing a component, the
/// nodes of its stretch join the stretch of the frame below: they reach `v`,
/// which reaches a stack node below its own index, hence that frame.
proof fn lemma_finish_stretches(
    adj: Seq<Seq<usize>>,
    indices: Seq<usize>,
    lowlink: Seq<usize>,
    stack: Seq<usize>,
    frames: Seq<(usize, usize)>,
)
    requires
        adjacency_ok(adj),
        frames_joined(adj, frames),
        stretches_ok(adj, indices, lowlink, stack, frames),
        lowlinks_witnessed(adj, indices, lowlink, stack),
        frames_increasing(indices, frames),
        frames.len() > 1,
        lowlink[frames.last().0 as int] < indices[frames.last().0 as int],
        occurs(stack, frames.last().0 as int),
        lowlink.len() == adj.len(),
        forall|i: int|
            0 <= i < stack.len() ==> #[trigger] stack[i] < adj.len() && indices[frames[0].0 as int]
                <= indices[stack[i] as int],
        forall|k: int| 0 <= k < frames.len() ==> (#[trigger] frames[k]).0 < adj.len(),
    ensures
        stretches_ok(adj, indices, finished_lowlink(lowlink, frames), stack, frames.drop_last()),
        reach(adj, frames.last().0 as int, frames[frames.len() - 2].0 as int),
{
    let last = frames.len() - 1;
    let v = frames[last].0;
    let parent = frames[last - 1].0;
    let frames2 = frames.drop_last();
    let lowlink2 = finished_lowlink(lowlink, frames);
    let iv = choose|iv: int| 0 <= iv < stack.len() && stack[iv] == v;
    assert(witnessed_at(adj, indices, lowlink, stack, iv));
    let jz = choose|j: int|
        0 <= j < stack.len() && #[trigger] indices[stack[j] as int] == lowlink[stack[iv] as int] && reach(
            adj,
            stack[iv] as int,
            stack[j] as int,
        );
    let z = stack[jz];
    let r = lemma_owner(indices, frames, z as int, last);
    assert(r < last);
    assert(owned_by(indices, frames, r, stack[jz] as int));
    lemma_chain_reach(adj, frames, r, last - 1);
    lemma_reach_trans(adj, z as int, frames[r].0 as int, parent as int);
    lemma_reach_trans(adj, v as int, z as int, parent as int);
    assert(adj[frames[last - 1].0 as int].contains(frames[last].0));
    lemma_reach_edge(adj, parent as int, v as int);
    assert(lowlink2[parent as int] <= lowlink[v as int]);
    assert(lowlink2[parent as int] <= lowlink[parent as int]);
    assert forall|i: int, k: int|
        0 <= i < stack.len() && #[trigger] owned_by(indices, frames2, k, stack[i] as int) implies reach(
            adj,
            frames2[k].0 as int,
            stack[i] as int,
        ) && reach(adj, stack[i] as int, frames2[k].0 as int) && lowlink2[frames2[k].0 as int]
            <= lowlink2[stack[i] as int] by {
        let x = stack[i];
        assert(frames2[k] == frames[k]);
        if k < last - 1 {
            assert(frames2[k + 1] == frames[k + 1]);
            assert(owned_by(indices, frames, k, x as int));
            if x == parent {
                lemma_frame_owns_itself(indices, frames, last - 1, k);
            }
        } else if indices[x as int] < indices[v as int] {
            assert(owned_by(indices, frames, k, x as int));
        } else {
            assert(owned_by(indices, frames, last, x as int));
            lemma_reach_trans(adj, parent as int, v as int, x as int);
            lemma_reach_trans(adj, x as int, v as int, parent as int);
            assert(indices[parent as int] < indices[v as int]);
        }
    }
}

/// The top frame's node `v` finishes without closing a component: the search
/// stays consistent with its frame gone and its lowlink handed down.
pub proof fn lemma_search_finish(
    adj: Seq<Seq<usize>>,
    indices: Seq<usize>,
    lowlink: Seq<usize>,
    on_stack: Seq<bool>,
    stack: Seq<usize>,
    frames: Seq<(usize, usize)>,
    visited: Set<int>,
)
    requires
        adjacency_ok(adj),
        search_ok(adj, indices, lowlink, on_stack, stack, frames, visited),
        frames_increasing(indices, frames),
        frames.len() > 1,
        frames.last().1 == adj[frames.last().0 as int].len(),
        lowlink[frames.last().0 as int] < indices[frames.last().0 as int],
        occurs(stack, frames.last().0 as int),
        lowlink.len() == adj.len(),
        forall|i: int|
            0 <= i < stack.len() ==> #[trigger] stack[i] < adj.len() && indices[frames[0].0 as int]
                <= indices[stack[i] as int],
        forall|k: int| 0 <= k < frames.len() ==> (#[trigger] frames[k]).0 < adj.len(),
    ensures
        search_ok(adj, indices, finished_lowlink(lowlink, frames), on_stack, stack, frames.drop_last(), visited),
{
    let last = frames.len() - 1;
    let v = frames[last].0;
    let parent = frames[last - 1].0;
    let frames2 = frames.drop_last();
    let lowlink2 = finished_lowlink(lowlink, frames);
    lemma_finish_stretches(adj, indices, lowlink, stack, frames);
    if lowlink[v as int] < lowlink[parent as int] {
        let iv = choose|iv: int| 0 <= iv < stack.len() && stack[iv] == v;
        assert(witnessed_at(adj, indices, lowlink, stack, iv));
        let jz = choose|j: int|
            0 <= j < stack.len() && #[trigger] indices[stack[j] as int] == lowlink[stack[iv] as int] && reach(
                adj,
                stack[iv] as int,
                stack[j] as int,
            );
        assert(adj[frames[last - 1].0 as int].contains(frames[last].0));
        lemma_reach_edge(adj, parent as int, v as int);
        lemma_reach_trans(adj, parent as int, v as int, stack[jz] as int);
        lemma_lower_witnessed(adj, indices, lowlink, stack, parent, stack[jz]);
    }
    assert forall|k: int| 0 <= k < frames2.len() - 1 implies adj[(#[trigger] frames2[k]).0 as int].contains(
        frames2[k + 1].0,
    ) by {
        assert(frames2[k] == frames[k]);
        assert(frames2[k + 1] == frames[k + 1]);
        assert(adj[frames[k].0 as int].contains(frames[k + 1].0));
    }
    assert forall|i: int, j: int|
        0 <= i < stack.len() && 0 <= j < adj[stack[i] as int].len() && #[trigger] looked_at(
            frames2,
            adj,
            stack[i] as int,
            j,
        ) implies visited.contains(adj[stack[i] as int][j] as int) && (on_stack[adj[stack[i] as int][j] as int]
            ==> lowlink2[stack[i] as int] <= indices[adj[stack[i] as int][j] as int]) by {
        let x = stack[i] as int;
        if x == v {
            if is_frame(frames2, x) {
                let k = choose|k: int| 0 <= k < frames2.len() && #[trigger] frames2[k].0 == x;
                assert(frames2[k] == frames[k]);
                lemma_frame_unique(indices, frames, last, k);
            }
            assert(frames[last].0 == x && j < frames[last].1);
            assert(looked_at(frames, adj, x, j));
        } else {
            lemma_drop_looked_at(indices, frames, adj, x, j);
        }
    }
}

/// Closing the component of the top frame's node `v` (the stack from
/// position `p` up) keeps the search consistent for the nodes left.
pub proof fn lemma_search_pop(
    adj: Seq<Seq<usize>>,
    indices: Seq<usize>,
    lowlink: Seq<usize>,
    on_stack: Seq<bool>,
    stack: Seq<usize>,
    frames: Seq<(usize, usize)>,
    visited: Set<int>,
    on2: Seq<bool>,
    p: int,
)
    requires
        adjacency_ok(adj),
        search_ok(adj, indices, lowlink, on_stack, stack, frames, visited),
        frames_increasing(indices, frames),
        frames.len() > 0,
        0 <= p < stack.len(),
        stack[p] == frames.last().0,
        forall|i: int, j: int|
            0 <= i < j < stack.len() ==> indices[#[trigger] stack[i] as int] < indices[#[trigger] stack[j] as int],
        forall|i: int| 0 <= i < stack.len() ==> lowlink[#[trigger] stack[i] as int] <= indices[stack[i] as int],
        forall|i: int| 0 <= i < stack.len() ==> #[trigger] stack[i] < adj.len(),
        on_stack.len() == adj.len(),
        on2.len() == on_stack.len(),
        forall|x: int|
            0 <= x < on_stack.len() ==> #[trigger] on2[x] == (on_stack[x] && !(exists|i: int|
                p <= i < stack.len() && stack[i] == x)),
    ensures
        search_ok(adj, indices, lowlink, on2, stack.take(p), frames.drop_last(), visited),
{
    let last = frames.len() - 1;
    let v = frames[last].0;
    let frames2 = frames.drop_last();
    let stack2 = stack.take(p);
    assert forall|k: int| 0 <= k < frames2.len() - 1 implies adj[(#[trigger] frames2[k]).0 as int].contains(
        frames2[k + 1].0,
    ) by {
        assert(frames2[k] == frames[k]);
        assert(frames2[k + 1] == frames[k + 1]);
        assert(adj[frames[k].0 as int].contains(frames[k + 1].0));
    }
    assert forall|i: int, k: int|
        0 <= i < stack2.len() && #[trigger] owned_by(indices, frames2, k, stack2[i] as int) implies reach(
            adj,
            frames2[k].0 as int,
            stack2[i] as int,
        ) && reach(adj, stack2[i] as int, frames2[k].0 as int) && lowlink[frames2[k].0 as int]
            <= lowlink[stack2[i] as int] by {
        assert(stack2[i] == stack[i]);
        assert(frames2[k] == frames[k]);
        if k + 1 < frames2.len() {
            assert(frames2[k + 1] == frames[k + 1]);
        }
        assert(indices[stack[i] as int] < indices[stack[p] as int]);
        assert(owned_by(indices, frames, k, stack[i] as int));
    }
    assert forall|i: int| 0 <= i < stack2.len() implies #[trigger] witnessed_at(adj, indices, lowlink, stack2, i) by {
        assert(stack2[i] == stack[i]);
        assert(witnessed_at(adj, indices, lowlink, stack, i));
        let j = choose|j: int|
            0 <= j < stack.len() && #[trigger] indices[stack[j] as int] == lowlink[stack[i] as int] && reach(
                adj,
                stack[i] as int,
                stack[j] as int,
            );
        assert(indices[stack[i] as int] < indices[stack[p] as int]);
        if j > p {
            assert(indices[stack[p] as int] < indices[stack[j] as int]);
        }
        assert(j < p);
        assert(stack2[j] == stack[j]);
        assert(indices[stack2[j] as int] == lowlink[stack2[i] as int]);
    }
    assert forall|i: int, j: int|
        0 <= i < stack2.len() && 0 <= j < adj[stack2[i] as int].len() && #[trigger] looked_at(
            frames2,
            adj,
            stack2[i] as int,
            j,
        ) implies visited.contains(adj[stack2[i] as int][j] as int) && (on2[adj[stack2[i] as int][j] as int]
            ==> lowlink[stack2[i] as int] <= indices[adj[stack2[i] as int][j] as int]) by {
        let x = stack[i] as int;
        assert(stack2[i] == stack[i]);
        assert(indices[stack[i] as int] < indices[stack[p] as int]);
        lemma_drop_looked_at(indices, frames, adj, x, j);
        assert(adj[x][j] < adj.len());
    }
}


/// The search right after the walk enters a fresh root `r`.
pub proof fn lemma_search_root(
    adj: Seq<Seq<usize>>,
    indices: Seq<usize>,
    lowlink: Seq<usize>,
    on_stack: Seq<bool>,
    visited: Set<int>,
    r: usize,
)
    requires
        r < adj.len(),
        indices[r as int] == lowlink[r as int],
    ensures
        search_ok(adj, indices, lowlink, on_stack, seq![r], seq![(r, 0usize)], visited),
{
    let stack = seq![r];
    let frames = seq![(r, 0usize)];
    lemma_reach_refl(adj, r as int);
    assert forall|i: int, k: int|
        0 <= i < stack.len() && #[trigger] owned_by(indices, frames, k, stack[i] as int) implies reach(
            adj,
            frames[k].0 as int,
            stack[i] as int,
        ) && reach(adj, stack[i] as int, frames[k].0 as int) && lowlink[frames[k].0 as int]
            <= lowlink[stack[i] as int] by {}
    assert forall|i: int| 0 <= i < stack.len() implies #[trigger] witnessed_at(adj, indices, lowlink, stack, i) by {
        assert(indices[stack[0] as int] == lowlink[stack[i] as int]);
    }
    assert forall|i: int, j: int|
        0 <= i < stack.len() && 0 <= j < adj[stack[i] as int].len() && #[trigger] looked_at(
            frames,
            adj,
            stack[i] as int,
            j,
        ) implies visited.contains(adj[stack[i] as int][j] as int) && (on_stack[adj[stack[i] as int][j] as int]
            ==> lowlink[stack[i] as int] <= indices[adj[stack[i] as int][j] as int]) by {
        assert(frames[0].0 == stack[i]);
        let k = choose|k: int| 0 <= k < frames.len() && #[trigger] frames[k].0 == stack[i] as int && j < frames[k].1;
        assert(k == 0);
    }
}

/// Visiting a fresh node keeps the completed components as they were.
pub proof fn lemma_comps_visit(
    adj: Seq<Seq<usize>>,
    comps: Seq<Seq<usize>>,
    on_stack: Seq<bool>,
    visited: Set<int>,
    w: usize,
)
    requires
        adjacency_ok(adj),
        comps_ok(adj, comps, on_stack, visited),
        !visited.contains(w as int),
        w < adj.len(),
        on_stack.len() == adj.len(),
        forall|c: int, k: int| 0 <= c < comps.len() && 0 <= k < comps[c].len() ==> #[trigger] comps[c][k] < adj.len(),
    ensures
        comps_ok(adj, comps, on_stack.update(w as int, true), visited.insert(w as int)),
{
    let on2 = on_stack.update(w as int, true);
    assert forall|c: int, k: int, j: int|
        0 <= c < comps.len() && 0 <= k < comps[c].len() && 0 <= j < adj[comps[c][k] as int].len() implies visited.insert(
            w as int,
        ).contains(#[trigger] adj[comps[c][k] as int][j] as int) && !on2[adj[comps[c][k] as int][j] as int] by {
        assert(comps[c][k] < adj.len());
        let u = adj[comps[c][k] as int][j];
        assert(u < adj.len());
        assert(visited.contains(u as int) && !on_stack[u as int]);
        assert(u != w);
        assert(on2[u as int] == on_stack[u as int]);
    }
}

/// Closing the component of the top frame's node `v` keeps the completed
/// components consistent: the new one is closed, since every neighbour of
/// its nodes left on the stack would have an index below `v`'s own, its
/// nodes reach each other through `v`, and no earlier component reaches it,
/// since the earlier ones are closed and it was on the stack.
pub proof fn lemma_comps_pop(
    adj: Seq<Seq<usize>>,
    indices: Seq<usize>,
    lowlink: Seq<usize>,
    on_stack: Seq<bool>,
    stack: Seq<usize>,
    frames: Seq<(usize, usize)>,
    visited: Set<int>,
    comps: Seq<Seq<usize>>,
    on2: Seq<bool>,
    comp: Seq<usize>,
    p: int,
)
    requires
        adjacency_ok(adj),
        adj.len() <= usize::MAX,
        comps_ok(adj, comps, on_stack, visited),
        search_ok(adj, indices, lowlink, on_stack, stack, frames, visited),
        frames_increasing(indices, frames),
        frames.len() > 0,
        frames.last().1 == adj[frames.last().0 as int].len(),
        lowlink[frames.last().0 as int] == indices[frames.last().0 as int],
        0 <= p < stack.len(),
        stack[p] == frames.last().0,
        comp.len() == stack.len() - p,
        forall|j: int| 0 <= j < comp.len() ==> #[trigger] comp[j] == stack[stack.len() - 1 - j],
        forall|i: int, j: int|
            0 <= i < j < stack.len() ==> indices[#[trigger] stack[i] as int] < indices[#[trigger] stack[j] as int],
        forall|i: int| 0 <= i < stack.len() ==> #[trigger] stack[i] < adj.len() && on_stack[stack[i] as int],
        forall|x: int| 0 <= x < adj.len() && #[trigger] on_stack[x] ==> occurs(stack, x),
        forall|c: int, k: int|
            0 <= c < comps.len() && 0 <= k < comps[c].len() ==> #[trigger] comps[c][k] < adj.len()
                && !on_stack[comps[c][k] as int],
        forall|x: int| 0 <= x < adj.len() && #[trigger] visited.contains(x) && !on_stack[x] ==> in_some_component(comps, x),
        on_stack.len() == adj.len(),
        on2.len() == on_stack.len(),
        forall|x: int|
            0 <= x < on_stack.len() ==> #[trigger] on2[x] == (on_stack[x] && !(exists|i: int|
                p <= i < stack.len() && stack[i] == x)),
    ensures
        comps_ok(adj, comps.push(comp), on2, visited),
{
    let last = frames.len() - 1;
    let v = frames[last].0;
    let comps2 = comps.push(comp);
    let cn = comps.len() as int;
    let top = stack.len() - 1;
    assert(frames[last].0 == v);
    assert forall|k: int| 0 <= k < comp.len() implies #[trigger] owned_by(indices, frames, last, comp[k] as int) by {
        let i = top - k;
        assert(comp[k] == stack[i]);
        if i > p {
            assert(indices[stack[p] as int] < indices[stack[i] as int]);
        }
    }
    assert forall|c: int, k: int, j: int|
        0 <= c < comps2.len() && 0 <= k < comps2[c].len() && 0 <= j < adj[comps2[c][k] as int].len() implies visited.contains(
            #[trigger] adj[comps2[c][k] as int][j] as int,
        ) && !on2[adj[comps2[c][k] as int][j] as int] by {
        if c < cn {
            assert(comps2[c] == comps[c]);
            assert(comps[c][k] < adj.len());
            assert(adj[comps[c][k] as int][j] < adj.len());
        } else {
            let i = top - k;
            let x = stack[i];
            assert(comps2[c] == comp);
            assert(comp[k] == x);
            assert(owned_by(indices, frames, last, comp[k] as int));
            if x == v {
                assert(frames[last].0 == x && j < frames[last].1);
            } else if is_frame(frames, x as int) {
                let kf = choose|kf: int| 0 <= kf < frames.len() && #[trigger] frames[kf].0 == x as int;
                if kf < last {
                    assert(indices[frames[kf].0 as int] < indices[frames[last].0 as int]);
                }
            }
            assert(looked_at(frames, adj, x as int, j));
            let u = adj[x as int][j];
            assert(u < adj.len());
            if on2[u as int] {
                assert(on_stack[u as int]);
                assert(occurs(stack, u as int));
                let q = choose|q: int| 0 <= q < stack.len() && stack[q] == u as int;
                if q >= p {
                    assert(p <= q < stack.len() && stack[q] == u);
                    assert(false);
                }
                assert(indices[stack[q] as int] < indices[stack[p] as int]);
                assert(false);
            }
        }
    }
    assert forall|c: int, k1: int, k2: int|
        0 <= c < comps2.len() && 0 <= k1 < comps2[c].len() && 0 <= k2 < comps2[c].len() implies reach(
            adj,
            #[trigger] comps2[c][k1] as int,
            #[trigger] comps2[c][k2] as int,
        ) by {
        if c < cn {
            assert(comps2[c] == comps[c]);
        } else {
            assert(comps2[c] == comp);
            let i1 = top - k1;
            let i2 = top - k2;
            assert(comp[k1] == stack[i1]);
            assert(comp[k2] == stack[i2]);
            assert(owned_by(indices, frames, last, comp[k1] as int));
            assert(owned_by(indices, frames, last, comp[k2] as int));
            lemma_reach_trans(adj, stack[i1] as int, v as int, stack[i2] as int);
        }
    }
    let closed = |u: int| in_some_component(comps, u);
    assert forall|x: int, k: int| closed(x) && 0 <= x < adj.len() && 0 <= k < adj[x].len() implies closed(
        #[trigger] adj[x][k] as int,
    ) by {
        let (c, kk) = choose|c: int, kk: int| 0 <= c < comps.len() && 0 <= kk < comps[c].len() && #[trigger] comps[c][kk] == x;
        assert(adj[comps[c][kk] as int][k] == adj[x][k]);
        assert(visited.contains(adj[comps[c][kk] as int][k] as int));
    }
    assert forall|c1: int, k1: int, c2: int, k2: int|
        0 <= c1 < comps2.len() && 0 <= k1 < comps2[c1].len() && 0 <= c2 < comps2.len() && 0 <= k2 < comps2[c2].len()
            && reach(adj, #[trigger] comps2[c1][k1] as int, #[trigger] comps2[c2][k2] as int) && reach(
            adj,
            comps2[c2][k2] as int,
            comps2[c1][k1] as int,
        ) implies c1 == c2 by {
        if c1 < cn && c2 < cn {
            assert(comps2[c1] == comps[c1]);
            assert(comps2[c2] == comps[c2]);
        } else if c1 != c2 {
            let (co, ko, kn) = if c1 < cn { (c1, k1, k2) } else { (c2, k2, k1) };
            assert(comps2[co] == comps[co]);
            let y = comps[co][ko];
            let i = top - kn;
            let x = stack[i];
            assert(comps2[cn][kn] == comp[kn]);
            assert(comp[kn] == x);
            assert(closed(y as int));
            lemma_reach_closed(adj, closed, y as int, x as int);
            let (c, kk) = choose|c: int, kk: int| 0 <= c < comps.len() && 0 <= kk < comps[c].len() && #[trigger] comps[c][kk] == x as int;
            assert(!on_stack[comps[c][kk] as int]);
            assert(on_stack[stack[i] as int]);
        }
    }
}

} // verus!
