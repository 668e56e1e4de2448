//! Strongly connected components (iterative Tarjan) of the node graph.

use vstd::prelude::*;
use vstd::set_lib::*;
use crate::ir::reach::{adj_relation, reaches};
use crate::ir::dfs::{
    advanced, comps_ok, finished_lowlink, lemma_comps_pop, lemma_comps_visit, lemma_search_finish,
    lemma_search_look, lemma_search_pop, lemma_search_root, lemma_search_visit, looked_lowlink, search_ok,
};

verus! {

/// Every neighbour of every node is a node.
pub open spec fn adjacency_ok(adj: Seq<Seq<usize>>) -> bool {
    forall|u: int, k: int| 0 <= u < adj.len() && 0 <= k < adj[u].len() ==> #[trigger] adj[u][k] < adj.len()
}

/// Node `x` occurs in one of the components.
pub open spec fn in_some_component(comps: Seq<Seq<usize>>, x: int) -> bool {
    exists|c: int, k: int| 0 <= c < comps.len() && 0 <= k < comps[c].len() && #[trigger] comps[c][k] == x
}

/// No node occurs twice in the components.
pub open spec fn components_disjoint(comps: Seq<Seq<usize>>) -> bool {
    forall|c1: int, k1: int, c2: int, k2: int|
        0 <= c1 < comps.len() && 0 <= k1 < comps[c1].len() && 0 <= c2 < comps.len() && 0 <= k2
            < comps[c2].len() && #[trigger] comps[c1][k1] == #[trigger] comps[c2][k2] ==> c1 == c2
            && k1 == k2
}

/// The components split the nodes `0..n`: each component is non-empty and
/// every node occurs in exactly one component, exactly once.
pub open spec fn is_node_partition(comps: Seq<Seq<usize>>, n: int) -> bool {
    &&& forall|c: int| 0 <= c < comps.len() ==> #[trigger] comps[c].len() > 0
    &&& forall|c: int, k: int|
        0 <= c < comps.len() && 0 <= k < comps[c].len() ==> #[trigger] comps[c][k] < n
    &&& components_disjoint(comps)
    &&& forall|x: int| 0 <= x < n ==> in_some_component(comps, x)
}

/// Nodes of one component reach each other along `rel`.
pub open spec fn components_connected(rel: spec_fn(int, int) -> bool, comps: Seq<Seq<usize>>) -> bool {
    forall|c: int, k1: int, k2: int|
        0 <= c < comps.len() && 0 <= k1 < comps[c].len() && 0 <= k2 < comps[c].len() ==> reaches(
            rel,
            #[trigger] comps[c][k1] as int,
            #[trigger] comps[c][k2] as int,
        )
}

/// Nodes that reach each other along `rel` lie in one component.
pub open spec fn components_maximal(rel: spec_fn(int, int) -> bool, comps: Seq<Seq<usize>>) -> bool {
    forall|c1: int, k1: int, c2: int, k2: int|
        0 <= c1 < comps.len() && 0 <= k1 < comps[c1].len() && 0 <= c2 < comps.len() && 0 <= k2 < comps[c2].len()
            && reaches(rel, #[trigger] comps[c1][k1] as int, #[trigger] comps[c2][k2] as int) && reaches(
            rel,
            comps[c2][k2] as int,
            comps[c1][k1] as int,
        ) ==> c1 == c2
}

/// Value `x` occurs in `s`.
pub open spec fn occurs(s: Seq<usize>, x: int) -> bool {
    exists|i: int| 0 <= i < s.len() && s[i] == x
}

/// What holds of the traversal state between steps.
pub open spec fn walk_ok(
    adj: Seq<Seq<usize>>,
    index: usize,
    indices: Seq<usize>,
    lowlink: Seq<usize>,
    on_stack: Seq<bool>,
    stack: Seq<usize>,
    comps: Seq<Seq<usize>>,
    visited: Set<int>,
) -> bool {
    let n = adj.len();
    &&& adjacency_ok(adj)
    &&& indices.len() == n
    &&& lowlink.len() == n
    &&& on_stack.len() == n
    &&& index <= n
    &&& visited.finite()
    &&& visited.len() == index
    &&& forall|v: int| #[trigger] visited.contains(v) ==> 0 <= v < n
    &&& forall|v: int| 0 <= v < n ==> (#[trigger] visited.contains(v) <==> indices[v] != usize::MAX)
    &&& forall|v: int|
        0 <= v < n && #[trigger] visited.contains(v) ==> indices[v] < index && lowlink[v]
            <= indices[v]
    &&& forall|i: int|
        0 <= i < stack.len() ==> #[trigger] stack[i] < n && visited.contains(stack[i] as int)
            && on_stack[stack[i] as int]
    &&& forall|i: int, j: int|
        0 <= i < j < stack.len() ==> indices[#[trigger] stack[i] as int] < indices[#[trigger] stack[j] as int]
    &&& forall|v: int| 0 <= v < n && #[trigger] on_stack[v] ==> occurs(stack, v)
    &&& forall|c: int, k: int|
        0 <= c < comps.len() && 0 <= k < comps[c].len() ==> #[trigger] comps[c][k] < n
            && visited.contains(comps[c][k] as int) && !on_stack[comps[c][k] as int]
    &&& forall|c: int| 0 <= c < comps.len() ==> #[trigger] comps[c].len() > 0
    &&& components_disjoint(comps)
    &&& forall|v: int|
        0 <= v < n && #[trigger] visited.contains(v) && !on_stack[v] ==> in_some_component(comps, v)
}

/// What holds of the depth-first walk from `root` between steps.
pub open spec fn frames_ok(
    adj: Seq<Seq<usize>>,
    root: int,
    indices: Seq<usize>,
    lowlink: Seq<usize>,
    on_stack: Seq<bool>,
    stack: Seq<usize>,
    frames: Seq<(usize, usize)>,
    visited: Set<int>,
) -> bool {
    let n = adj.len();
    let base = indices[root];
    &&& 0 <= root < n
    &&& visited.contains(root)
    &&& forall|i: int| 0 <= i < stack.len() ==> indices[#[trigger] stack[i] as int] >= base
    &&& forall|v: int|
        0 <= v < n && #[trigger] visited.contains(v) && indices[v] >= base ==> lowlink[v] >= base
    &&& frames.len() > 0 ==> frames[0].0 == root
    &&& frames.len() == 0 ==> stack.len() == 0
    &&& forall|k: int|
        0 <= k < frames.len() ==> (#[trigger] frames[k]).0 < n && on_stack[frames[k].0 as int]
            && frames[k].1 <= adj[frames[k].0 as int].len()
    &&& forall|k1: int, k2: int|
        0 <= k1 < k2 < frames.len() ==> indices[(#[trigger] frames[k1]).0 as int]
            < indices[(#[trigger] frames[k2]).0 as int]
}

/// Remaining work of the frames of the walk.
pub open spec fn frames_measure(frames: Seq<(usize, usize)>, adj: Seq<Seq<usize>>) -> int
    decreases frames.len(),
{
    if frames.len() == 0 {
        0
    } else {
        frames_measure(frames.drop_last(), adj) + (adj[frames.last().0 as int].len()
            - frames.last().1) + 1
    }
}

fn filled_usize(n: usize, value: usize) -> (v: Vec<usize>)
    ensures
        v@ == Seq::new(n as nat, |i: int| value),
{
    let mut v: Vec<usize> = Vec::new();
    let mut i: usize = 0;
    while i < n
        invariant
            i <= n,
            v@ =~= Seq::new(i as nat, |j: int| value),
        decreases n - i,
    {
        v.push(value);
        i = i + 1;
    }
    v
}

fn filled_bool(n: usize, value: bool) -> (v: Vec<bool>)
    ensures
        v@ == Seq::new(n as nat, |i: int| value),
{
    let mut v: Vec<bool> = Vec::new();
    let mut i: usize = 0;
    while i < n
        invariant
            i <= n,
            v@ =~= Seq::new(i as nat, |j: int| value),
        decreases n - i,
    {
        v.push(value);
        i = i + 1;
    }
    v
}

proof fn lemma_frames_measure_step(frames: Seq<(usize, usize)>, adj: Seq<Seq<usize>>, v: usize, next: usize)
    requires
        frames.len() > 0,
        frames.last() == (v, next),
        next < usize::MAX,
    ensures
        frames_measure(frames.update(frames.len() - 1, (v, (next + 1) as usize)), adj)
            == frames_measure(frames, adj) - 1,
{
    let updated = frames.update(frames.len() - 1, (v, (next + 1) as usize));
    assert(updated.drop_last() =~= frames.drop_last());
}

proof fn lemma_frames_measure_nonneg(frames: Seq<(usize, usize)>, adj: Seq<Seq<usize>>)
    requires
        forall|k: int|
            0 <= k < frames.len() ==> (#[trigger] frames[k]).1 <= adj[frames[k].0 as int].len(),
    ensures
        frames_measure(frames, adj) >= 0,
    decreases frames.len(),
{
    if frames.len() > 0 {
        assert forall|k: int| 0 <= k < frames.drop_last().len() implies (#[trigger] frames.drop_last()[k]).1
            <= adj[frames.drop_last()[k].0 as int].len() by {
            assert(frames.drop_last()[k] == frames[k]);
        }
        lemma_frames_measure_nonneg(frames.drop_last(), adj);
        assert(frames[frames.len() - 1].1 <= adj[frames[frames.len() - 1].0 as int].len());
    }
}

proof fn lemma_frames_measure_pop(frames: Seq<(usize, usize)>, adj: Seq<Seq<usize>>, v: usize, next: usize)
    requires
        frames.len() > 0,
        frames.last() == (v, next),
    ensures
        frames_measure(frames.drop_last(), adj) == frames_measure(frames, adj) - (adj[v as int].len()
            - next) - 1,
{
}

proof fn lemma_frames_measure_push(frames: Seq<(usize, usize)>, adj: Seq<Seq<usize>>, w: usize)
    ensures
        frames_measure(frames.push((w, 0)), adj) == frames_measure(frames, adj) + adj[w as int].len() + 1,
{
    assert(frames.push((w, 0)).drop_last() =~= frames);
}

/// Visiting a fresh node keeps the traversal state consistent.
proof fn lemma_visit(
    adj: Seq<Seq<usize>>,
    index: usize,
    indices: Seq<usize>,
    lowlink: Seq<usize>,
    on_stack: Seq<bool>,
    stack: Seq<usize>,
    comps: Seq<Seq<usize>>,
    visited: Set<int>,
    x: usize,
)
    requires
        walk_ok(adj, index, indices, lowlink, on_stack, stack, comps, visited),
        x < adj.len(),
        !visited.contains(x as int),
        index < adj.len(),
        adj.len() <= usize::MAX,
    ensures
        walk_ok(
            adj,
            (index + 1) as usize,
            indices.update(x as int, index),
            lowlink.update(x as int, index),
            on_stack.update(x as int, true),
            stack.push(x),
            comps,
            visited.insert(x as int),
        ),
{
    let n = adj.len();
    let indices2 = indices.update(x as int, index);
    let lowlink2 = lowlink.update(x as int, index);
    let on2 = on_stack.update(x as int, true);
    let stack2 = stack.push(x);
    let visited2 = visited.insert(x as int);
    assert forall|c: int, k: int| 0 <= c < comps.len() && 0 <= k < comps[c].len() implies #[trigger] comps[c][k]
        != x by {
        assert(visited.contains(comps[c][k] as int));
    }
    assert forall|i: int| 0 <= i < stack.len() implies #[trigger] stack[i] != x by {
        assert(visited.contains(stack[i] as int));
    }
    assert forall|v: int| 0 <= v < n && #[trigger] on2[v] implies occurs(stack2, v) by {
        if v != x {
            assert(on_stack[v]);
            let i = choose|i: int| 0 <= i < stack.len() && stack[i] == v;
            assert(stack2[i] == v);
        } else {
            assert(stack2[stack.len() as int] == x);
        }
    }
    assert forall|i: int| 0 <= i < stack2.len() implies #[trigger] stack2[i] < n && visited2.contains(
        stack2[i] as int,
    ) && on2[stack2[i] as int] by {
        if i < stack.len() {
            assert(stack2[i] == stack[i]);
        }
    }
    assert forall|i: int, j: int| 0 <= i < j < stack2.len() implies indices2[#[trigger] stack2[i] as int]
        < indices2[#[trigger] stack2[j] as int] by {
        assert(stack2[i] == stack[i]);
        assert(visited.contains(stack[i] as int));
        if j < stack.len() {
            assert(stack2[j] == stack[j]);
        }
    }
    assert forall|v: int|
        0 <= v < n && #[trigger] visited2.contains(v) && !on2[v] implies in_some_component(comps, v) by {
        assert(v != x);
        assert(visited.contains(v));
    }
    assert(visited2.len() == index + 1);
    assert forall|v: int| 0 <= v < n implies (#[trigger] visited2.contains(v) <==> indices2[v] != usize::MAX) by {
        if v != x {
            assert(visited.contains(v) <==> indices[v] != usize::MAX);
        }
    }
    assert forall|v: int| 0 <= v < n && #[trigger] visited2.contains(v) implies indices2[v] < index + 1 && lowlink2[v]
        <= indices2[v] by {
        if v != x {
            assert(visited.contains(v));
        }
    }
    assert forall|c: int, k: int| 0 <= c < comps.len() && 0 <= k < comps[c].len() implies #[trigger] comps[c][k]
        < n && visited2.contains(comps[c][k] as int) && !on2[comps[c][k] as int] by {
        assert(comps[c][k] != x);
    }
}

/// Entering a new frame for a freshly visited node keeps the walk
/// consistent.
proof fn lemma_visit_frames(
    adj: Seq<Seq<usize>>,
    root: int,
    index: usize,
    indices: Seq<usize>,
    lowlink: Seq<usize>,
    on_stack: Seq<bool>,
    stack: Seq<usize>,
    comps: Seq<Seq<usize>>,
    frames: Seq<(usize, usize)>,
    visited: Set<int>,
    x: usize,
)
    requires
        walk_ok(adj, index, indices, lowlink, on_stack, stack, comps, visited),
        frames_ok(adj, root, indices, lowlink, on_stack, stack, frames, visited),
        frames.len() > 0,
        x < adj.len(),
        !visited.contains(x as int),
        index < adj.len(),
    ensures
        frames_ok(
            adj,
            root,
            indices.update(x as int, index),
            lowlink.update(x as int, index),
            on_stack.update(x as int, true),
            stack.push(x),
            frames.push((x, 0)),
            visited.insert(x as int),
        ),
{
    let n = adj.len();
    let indices2 = indices.update(x as int, index);
    let lowlink2 = lowlink.update(x as int, index);
    let on2 = on_stack.update(x as int, true);
    let stack2 = stack.push(x);
    let frames2 = frames.push((x, 0));
    let visited2 = visited.insert(x as int);
    assert(x != root);
    assert forall|i: int| 0 <= i < stack2.len() implies indices2[#[trigger] stack2[i] as int]
        >= indices2[root] by {
        if i < stack.len() {
            assert(stack2[i] == stack[i]);
            assert(visited.contains(stack[i] as int));
        }
    }
    assert forall|k: int| 0 <= k < frames2.len() implies (#[trigger] frames2[k]).0 < n && on2[frames2[k].0 as int]
        && frames2[k].1 <= adj[frames2[k].0 as int].len() by {
        if k < frames.len() {
            assert(frames2[k] == frames[k]);
        }
    }
    assert forall|k1: int, k2: int| 0 <= k1 < k2 < frames2.len() implies indices2[(#[trigger] frames2[k1]).0 as int]
        < indices2[(#[trigger] frames2[k2]).0 as int] by {
        assert(frames2[k1] == frames[k1]);
        assert(on_stack[frames[k1].0 as int]);
        assert(occurs(stack, frames[k1].0 as int));
        let i = choose|i: int| 0 <= i < stack.len() && stack[i] == frames[k1].0;
        assert(visited.contains(stack[i] as int));
        if k2 < frames.len() {
            assert(frames2[k2] == frames[k2]);
        }
    }
}

/// Moving the top frame to its next neighbour keeps the walk consistent.
proof fn lemma_advance_frame(
    adj: Seq<Seq<usize>>,
    root: int,
    indices: Seq<usize>,
    lowlink: Seq<usize>,
    on_stack: Seq<bool>,
    stack: Seq<usize>,
    frames: Seq<(usize, usize)>,
    visited: Set<int>,
    v: usize,
    next: usize,
)
    requires
        frames_ok(adj, root, indices, lowlink, on_stack, stack, frames, visited),
        frames.len() > 0,
        frames.last() == (v, next),
        next < adj[v as int].len(),
    ensures
        frames_ok(
            adj,
            root,
            indices,
            lowlink,
            on_stack,
            stack,
            frames.update(frames.len() - 1, (v, (next + 1) as usize)),
            visited,
        ),
{
    let frames2 = frames.update(frames.len() - 1, (v, (next + 1) as usize));
    assert forall|k: int| 0 <= k < frames2.len() implies (#[trigger] frames2[k]).0 < adj.len() && on_stack[frames2[k].0 as int]
        && frames2[k].1 <= adj[frames2[k].0 as int].len() by {
        if k < frames.len() - 1 {
            assert(frames2[k] == frames[k]);
        } else {
            assert(frames[k] == (v, next));
        }
    }
    assert forall|k1: int, k2: int| 0 <= k1 < k2 < frames2.len() implies indices[(#[trigger] frames2[k1]).0 as int]
        < indices[(#[trigger] frames2[k2]).0 as int] by {
        assert(frames2[k1].0 == frames[k1].0);
        assert(frames2[k2].0 == frames[k2].0);
    }
}

/// Pops the stack down to and including `v`; the popped nodes, top first.
fn pop_component(
    v: usize,
    stack: &mut Vec<usize>,
    on_stack: &mut Vec<bool>,
    Ghost(indices): Ghost<Seq<usize>>,
) -> (res: (Vec<usize>, Ghost<int>))
    requires
        occurs(old(stack)@, v as int),
        forall|i: int| 0 <= i < old(stack)@.len() ==> #[trigger] old(stack)@[i] < old(on_stack)@.len(),
        forall|i: int, j: int|
            0 <= i < j < old(stack)@.len() ==> indices[#[trigger] old(stack)@[i] as int]
                < indices[#[trigger] old(stack)@[j] as int],
    ensures
        0 <= res.1@ < old(stack)@.len(),
        old(stack)@[res.1@] == v,
        final(stack)@ == old(stack)@.take(res.1@),
        res.0@.len() == old(stack)@.len() - res.1@,
        forall|j: int| 0 <= j < res.0@.len() ==> #[trigger] res.0@[j] == old(stack)@[old(stack)@.len() - 1 - j],
        final(on_stack)@.len() == old(on_stack)@.len(),
        forall|x: int|
            0 <= x < old(on_stack)@.len() ==> #[trigger] final(on_stack)@[x] == (old(on_stack)@[x] && !(exists|i: int|
                res.1@ <= i < old(stack)@.len() && old(stack)@[i] == x)),
{
    let ghost s0 = stack@;
    let ghost on0 = on_stack@;
    let ghost p = choose|i: int| 0 <= i < s0.len() && s0[i] == v;
    let mut component: Vec<usize> = Vec::new();
    loop
        invariant_except_break
            stack.len() > p,
        invariant
            on_stack.len() == on0.len(),
            0 <= p < s0.len(),
            s0[p] == v,
            forall|i: int| 0 <= i < s0.len() ==> #[trigger] s0[i] < on0.len(),
            forall|i: int, j: int|
                0 <= i < j < s0.len() ==> indices[#[trigger] s0[i] as int] < indices[#[trigger] s0[j] as int],
            stack.len() >= p,
            stack.len() <= s0.len(),
            stack@ == s0.take(stack.len() as int),
            component.len() == s0.len() - stack.len(),
            forall|j: int| 0 <= j < component.len() ==> #[trigger] component@[j] == s0[s0.len() - 1 - j],
            forall|x: int|
                0 <= x < on0.len() ==> #[trigger] on_stack@[x] == (on0[x] && !(exists|i: int|
                    stack.len() <= i < s0.len() && s0[i] == x)),
        ensures
            stack.len() == p,
        decreases stack.len(),
    {
        let ghost len0 = stack.len();
        let w = stack.pop().unwrap();
        assert(w == s0[len0 - 1]);
        on_stack.set(w, false);
        component.push(w);
        assert(stack@ =~= s0.take(stack.len() as int));
        proof {
            assert forall|x: int| 0 <= x < on0.len() implies #[trigger] on_stack@[x] == (on0[x] && !(exists|i: int|
                stack.len() <= i < s0.len() && s0[i] == x)) by {
                if x == w {
                    assert(stack.len() <= len0 - 1 < s0.len() && s0[len0 - 1] == x);
                }
            }
        }
        if w == v {
            assert(stack.len() == p) by {
                if stack.len() > p {
                    assert(indices[s0[p] as int] < indices[s0[len0 - 1] as int]);
                }
            }
            break;
        }
    }
    (component, Ghost(p))
}

/// Recording the popped nodes as a component keeps the traversal state
/// consistent, and every frame below the popped one stays on the stack.
proof fn lemma_after_pop(
    adj: Seq<Seq<usize>>,
    root: int,
    index: usize,
    indices: Seq<usize>,
    lowlink: Seq<usize>,
    on_stack: Seq<bool>,
    stack: Seq<usize>,
    comps: Seq<Seq<usize>>,
    frames: Seq<(usize, usize)>,
    visited: Set<int>,
    on2: Seq<bool>,
    comp: Seq<usize>,
    p: int,
)
    requires
        walk_ok(adj, index, indices, lowlink, on_stack, stack, comps, visited),
        frames_ok(adj, root, indices, lowlink, on_stack, stack, frames, visited),
        frames.len() > 0,
        lowlink[frames.last().0 as int] == indices[frames.last().0 as int],
        0 <= p < stack.len(),
        stack[p] == frames.last().0,
        comp.len() == stack.len() - p,
        forall|j: int| 0 <= j < comp.len() ==> #[trigger] comp[j] == stack[stack.len() - 1 - j],
        on2.len() == on_stack.len(),
        forall|x: int|
            0 <= x < on_stack.len() ==> #[trigger] on2[x] == (on_stack[x] && !(exists|i: int|
                p <= i < stack.len() && stack[i] == x)),
    ensures
        walk_ok(adj, index, indices, lowlink, on2, stack.take(p), comps.push(comp), visited),
        frames_ok(adj, root, indices, lowlink, on2, stack.take(p), frames.drop_last(), visited),
{
    let n = adj.len();
    let v = frames.last().0;
    let comps2 = comps.push(comp);
    let stack2 = stack.take(p);
    let frames2 = frames.drop_last();
    assert forall|i: int| p <= i < stack.len() implies !on2[#[trigger] stack[i] as int] by {}
    assert forall|i: int| 0 <= i < p implies on2[#[trigger] stack[i] as int] by {
        if exists|i2: int| p <= i2 < stack.len() && stack[i2] == stack[i] {
            let i2 = choose|i2: int| p <= i2 < stack.len() && stack[i2] == stack[i];
            assert(indices[stack[i] as int] < indices[stack[i2] as int]);
        }
    }
    assert forall|c: int| 0 <= c < comps2.len() implies #[trigger] comps2[c].len() > 0 by {
        if c < comps.len() {
            assert(comps2[c] == comps[c]);
        } else {
            assert(comp[0] == stack[stack.len() - 1]);
        }
    }
    assert forall|c: int, k: int| 0 <= c < comps2.len() && 0 <= k < comps2[c].len() implies #[trigger] comps2[c][k]
        < n && visited.contains(comps2[c][k] as int) && !on2[comps2[c][k] as int] by {
        if c < comps.len() {
            assert(comps2[c] == comps[c]);
        } else {
            let i = stack.len() - 1 - k;
            assert(comps2[c][k] == stack[i]);
        }
    }
    assert forall|c1: int, k1: int, c2: int, k2: int|
        0 <= c1 < comps2.len() && 0 <= k1 < comps2[c1].len() && 0 <= c2 < comps2.len() && 0 <= k2 < comps2[c2].len()
            && #[trigger] comps2[c1][k1] == #[trigger] comps2[c2][k2] implies c1 == c2 && k1 == k2 by {
        let last = comps.len() as int;
        if c1 == last && c2 == last {
            let i1 = stack.len() - 1 - k1;
            let i2 = stack.len() - 1 - k2;
            assert(comps2[c1][k1] == stack[i1]);
            assert(comps2[c2][k2] == stack[i2]);
            if i1 < i2 {
                assert(indices[stack[i1] as int] < indices[stack[i2] as int]);
            } else if i2 < i1 {
                assert(indices[stack[i2] as int] < indices[stack[i1] as int]);
            }
        } else if c1 == last {
            assert(comps2[c2] == comps[c2]);
            let i1 = stack.len() - 1 - k1;
            assert(comps2[c1][k1] == stack[i1]);
            assert(on_stack[stack[i1] as int]);
            assert(!on_stack[comps[c2][k2] as int]);
        } else if c2 == last {
            assert(comps2[c1] == comps[c1]);
            let i2 = stack.len() - 1 - k2;
            assert(comps2[c2][k2] == stack[i2]);
            assert(on_stack[stack[i2] as int]);
            assert(!on_stack[comps[c1][k1] as int]);
        } else {
            assert(comps2[c1] == comps[c1]);
            assert(comps2[c2] == comps[c2]);
        }
    }
    assert forall|x: int| 0 <= x < n && #[trigger] visited.contains(x) && !on2[x] implies in_some_component(
        comps2,
        x,
    ) by {
        if on_stack[x] {
            let i = choose|i: int| p <= i < stack.len() && stack[i] == x;
            let k = stack.len() - 1 - i;
            assert(comps2[comps.len() as int][k] == x);
        } else {
            let (c, k) = choose|c: int, k: int| 0 <= c < comps.len() && 0 <= k < comps[c].len() && comps[c][k] == x;
            assert(comps2[c] == comps[c]);
            assert(comps2[c][k] == x);
        }
    }
    assert forall|x: int| 0 <= x < n && #[trigger] on2[x] implies occurs(stack2, x) by {
        let i = choose|i: int| 0 <= i < stack.len() && stack[i] == x;
        assert(i < p);
        assert(stack2[i] == x);
    }
    assert forall|i: int| 0 <= i < stack2.len() implies #[trigger] stack2[i] < n && visited.contains(
        stack2[i] as int,
    ) && on2[stack2[i] as int] by {
        assert(stack2[i] == stack[i]);
    }
    assert forall|i: int, j: int| 0 <= i < j < stack2.len() implies indices[#[trigger] stack2[i] as int]
        < indices[#[trigger] stack2[j] as int] by {
        assert(stack2[i] == stack[i]);
        assert(stack2[j] == stack[j]);
    }
    assert forall|i: int| 0 <= i < stack2.len() implies indices[#[trigger] stack2[i] as int] >= indices[root] by {
        assert(stack2[i] == stack[i]);
    }
    assert forall|k: int| 0 <= k < frames2.len() implies (#[trigger] frames2[k]).0 < n && on2[frames2[k].0 as int]
        && frames2[k].1 <= adj[frames2[k].0 as int].len() by {
        let f = frames[k].0;
        assert(frames2[k] == frames[k]);
        assert(indices[f as int] < indices[v as int]);
        let i = choose|i: int| 0 <= i < stack.len() && stack[i] == f;
        if i >= p {
            if i > p {
                assert(indices[stack[p] as int] < indices[stack[i] as int]);
            }
            assert(false);
        }
    }
    assert forall|k1: int, k2: int| 0 <= k1 < k2 < frames2.len() implies indices[(#[trigger] frames2[k1]).0 as int]
        < indices[(#[trigger] frames2[k2]).0 as int] by {
        assert(frames2[k1] == frames[k1]);
        assert(frames2[k2] == frames[k2]);
    }
    if frames.len() == 1 {
        assert(v == root);
        if p > 0 {
            assert(indices[stack[0] as int] < indices[stack[p] as int]);
            assert(false);
        }
    }
    if frames2.len() > 0 {
        assert(frames2[0] == frames[0]);
    }
}

/// Iterative Tarjan over `adjacency` (recursion depth is unbounded on user
/// input): the components, each listed in the order its nodes leave the
/// stack, in the order the components are completed. They split the nodes,
/// the nodes of each reach each other, and nodes that reach each other
/// share one.
pub fn tarjan_components(adjacency: &Vec<Vec<usize>>) -> (components: Vec<Vec<usize>>)
    requires
        adjacency_ok(adjacency.deep_view()),
    ensures
        is_node_partition(components.deep_view(), adjacency.len() as int),
        components_connected(adj_relation(adjacency.deep_view()), components.deep_view()),
        components_maximal(adj_relation(adjacency.deep_view()), components.deep_view()),
{
    let ghost adj = adjacency.deep_view();
    let n = adjacency.len();
    let mut index: usize = 0;
    let mut indices = filled_usize(n, usize::MAX);
    let mut lowlink = filled_usize(n, 0);
    let mut on_stack = filled_bool(n, false);
    let mut stack: Vec<usize> = Vec::new();
    let mut components: Vec<Vec<usize>> = Vec::new();
    let ghost mut visited: Set<int> = Set::empty();
    proof {
        lemma_int_range(0, n as int);
        assert(adj.len() == n);
    }
    let mut root: usize = 0;
    while root < n
        invariant
            n == adjacency.len(),
            adj == adjacency.deep_view(),
            adj.len() == n,
            root <= n,
            walk_ok(adj, index, indices@, lowlink@, on_stack@, stack@, components.deep_view(), visited),
            comps_ok(adj, components.deep_view(), on_stack@, visited),
            stack.len() == 0,
            forall|v: int| 0 <= v < root ==> #[trigger] visited.contains(v),
        decreases n - root,
    {
        if indices[root] != usize::MAX {
            root = root + 1;
            continue;
        }
        proof {
            assert(!visited.contains(root as int));
            lemma_int_range(0, n as int);
            assert(visited.insert(root as int).subset_of(set_int_range(0, n as int)));
            lemma_len_subset(visited.insert(root as int), set_int_range(0, n as int));
            lemma_visit(adj, index, indices@, lowlink@, on_stack@, stack@, components.deep_view(), visited, root);
            lemma_comps_visit(adj, components.deep_view(), on_stack@, visited, root);
        }
        let mut call_stack: Vec<(usize, usize)> = Vec::new();
        call_stack.push((root, 0));
        indices.set(root, index);
        lowlink.set(root, index);
        index = index + 1;
        stack.push(root);
        on_stack.set(root, true);
        proof {
            visited = visited.insert(root as int);
            assert(stack@ =~= seq![root]);
            assert(call_stack@ =~= seq![(root, 0usize)]);
            lemma_search_root(adj, indices@, lowlink@, on_stack@, visited, root);
        }
        while call_stack.len() > 0
            invariant
                n == adjacency.len(),
                adj == adjacency.deep_view(),
                adj.len() == n,
                root < n,
                walk_ok(adj, index, indices@, lowlink@, on_stack@, stack@, components.deep_view(), visited),
                frames_ok(adj, root as int, indices@, lowlink@, on_stack@, stack@, call_stack@, visited),
                search_ok(adj, indices@, lowlink@, on_stack@, stack@, call_stack@, visited),
                comps_ok(adj, components.deep_view(), on_stack@, visited),
                forall|v: int| 0 <= v < root ==> #[trigger] visited.contains(v),
            decreases n - index, frames_measure(call_stack@, adj),
        {
            let top = call_stack.len() - 1;
            let (v, next) = call_stack[top];
            assert(call_stack@[top as int] == (v, next));
            if next < adjacency[v].len() {
                let w = adjacency[v][next];
                assert(adj[v as int][next as int] == w);
                let ghost frames0 = call_stack@;
                let ghost lowlink0 = lowlink@;
                proof {
                    lemma_frames_measure_step(call_stack@, adj, v, next);
                    lemma_advance_frame(adj, root as int, indices@, lowlink@, on_stack@, stack@, call_stack@, visited, v, next);
                }
                call_stack.set(top, (v, next + 1));
                assert(call_stack@ == advanced(frames0));
                if indices[w] == usize::MAX {
                    proof {
                        assert(!visited.contains(w as int));
                        lemma_int_range(0, n as int);
                        assert(visited.insert(w as int).subset_of(set_int_range(0, n as int)));
                        lemma_len_subset(visited.insert(w as int), set_int_range(0, n as int));
                        lemma_visit(adj, index, indices@, lowlink@, on_stack@, stack@, components.deep_view(), visited, w);
                        lemma_visit_frames(adj, root as int, index, indices@, lowlink@, on_stack@, stack@, components.deep_view(), call_stack@, visited, w);
                        lemma_frames_measure_push(call_stack@, adj, w);
                        assert forall|k: int| 0 <= k < frames0.len() implies (#[trigger] frames0[k]).0 < adj.len()
                            && visited.contains(frames0[k].0 as int) by {
                            assert(on_stack@[frames0[k].0 as int]);
                            assert(occurs(stack@, frames0[k].0 as int));
                        }
                        lemma_search_visit(adj, index, indices@, lowlink@, on_stack@, stack@, frames0, visited);
                        lemma_comps_visit(adj, components.deep_view(), on_stack@, visited, w);
                    }
                    indices.set(w, index);
                    lowlink.set(w, index);
                    index = index + 1;
                    stack.push(w);
                    on_stack.set(w, true);
                    call_stack.push((w, 0));
                    proof {
                        visited = visited.insert(w as int);
                    }
                } else {
                    proof {
                        lemma_search_look(adj, indices@, lowlink@, on_stack@, stack@, frames0, visited);
                    }
                    if on_stack[w] {
                        if indices[w] < lowlink[v] {
                            proof {
                                let i = choose|i: int| 0 <= i < stack@.len() && stack@[i] == w;
                                assert(indices@[stack@[i] as int] >= indices@[root as int]);
                            }
                            lowlink.set(v, indices[w]);
                        }
                    }
                    assert(lowlink@ == looked_lowlink(indices@, lowlink0, on_stack@, v as int, w as int));
                }
                proof {
                    lemma_frames_measure_nonneg(call_stack@, adj);
                }
            } else {
                proof {
                    lemma_frames_measure_pop(call_stack@, adj, v, next);
                }
                let ghost frames0 = call_stack@;
                let ghost lowlink0 = lowlink@;
                assert(on_stack@[v as int]);
                assert(occurs(stack@, v as int));
                assert forall|i: int| 0 <= i < stack@.len() implies #[trigger] stack@[i] < adj.len()
                    && indices@[frames0[0].0 as int] <= indices@[stack@[i] as int] by {}
                if lowlink[v] == indices[v] {
                    let ghost s0 = stack@;
                    let ghost on0 = on_stack@;
                    let ghost comps0 = components.deep_view();
                    let (component, Ghost(p)) = pop_component(v, &mut stack, &mut on_stack, Ghost(indices@));
                    let ghost comp = component@;
                    assert(component.deep_view() =~= comp);
                    components.push(component);
                    proof {
                        lemma_after_pop(adj, root as int, index, indices@, lowlink@, on0, s0, comps0, call_stack@, visited, on_stack@, comp, p);
                        lemma_search_pop(adj, indices@, lowlink@, on0, s0, call_stack@, visited, on_stack@, p);
                        lemma_comps_pop(adj, indices@, lowlink@, on0, s0, call_stack@, visited, comps0, on_stack@, comp, p);
                        assert(components.deep_view() =~= comps0.push(comp));
                    }
                } else {
                    proof {
                        if frames0.len() == 1 {
                            assert(frames0[0].0 == root);
                        }
                        lemma_search_finish(adj, indices@, lowlink@, on_stack@, stack@, call_stack@, visited);
                    }
                }
                call_stack.pop();
                assert(call_stack@ == frames0.drop_last());
                if call_stack.len() > 0 {
                    let parent = call_stack[call_stack.len() - 1].0;
                    assert(parent == frames0[frames0.len() - 2].0);
                    if lowlink[v] < lowlink[parent] {
                        proof {
                            if lowlink0[v as int] == indices@[v as int] {
                                assert(indices@[frames0[frames0.len() - 2].0 as int] < indices@[frames0[frames0.len() - 1].0 as int]);
                                assert(on_stack@[parent as int]);
                                assert(occurs(stack@, parent as int));
                            }
                        }
                        lowlink.set(parent, lowlink[v]);
                    }
                }
                assert(lowlink0[v as int] != indices@[v as int] ==> lowlink@ == finished_lowlink(lowlink0, frames0));
                proof {
                    lemma_frames_measure_nonneg(call_stack@, adj);
                }
            }
        }
        root = root + 1;
    }
    proof {
        assert forall|x: int| 0 <= x < n implies in_some_component(components.deep_view(), x) by {
            assert(visited.contains(x));
            if on_stack@[x] {
                assert(occurs(stack@, x));
                assert(false);
            }
        }
    }
    components
}

} // verus!
