//! Kahn levels over the condensation of the graph.

use vstd::prelude::*;
use vstd::set_lib::*;

verus! {

/// Group `g` lists `s`.
pub open spec fn listed(groups: Seq<Seq<usize>>, g: int, s: int) -> bool {
    exists|k: int| 0 <= k < groups[g].len() && #[trigger] groups[g][k] == s
}

/// `s` is listed in some group before `level`.
pub open spec fn listed_before(groups: Seq<Seq<usize>>, level: int, s: int) -> bool {
    exists|g: int| 0 <= g < level && g < groups.len() && #[trigger] listed(groups, g, s)
}

/// The dependency lists name groups `0..count`, and no list names a group
/// twice or the group itself.
pub open spec fn deps_ok(deps: Seq<Seq<usize>>) -> bool {
    &&& forall|s: int, k: int| 0 <= s < deps.len() && 0 <= k < deps[s].len() ==> #[trigger] deps[s][k] < deps.len()
    &&& forall|s: int, k: int| 0 <= s < deps.len() && 0 <= k < deps[s].len() ==> #[trigger] deps[s][k] != s
    &&& forall|s: int, k1: int, k2: int|
        0 <= s < deps.len() && 0 <= k1 < k2 < deps[s].len() ==> #[trigger] deps[s][k1] != #[trigger] deps[s][k2]
}

/// Kahn layering: every listed item is listed once, every dependency of an
/// item of group `g` is listed in a group before `g`, an item of group 0 has
/// no dependency, and no group is empty.
pub open spec fn layered(groups: Seq<Seq<usize>>, deps: Seq<Seq<usize>>) -> bool {
    &&& forall|g: int, k: int| 0 <= g < groups.len() && 0 <= k < groups[g].len() ==> #[trigger] groups[g][k] < deps.len()
    &&& forall|g1: int, k1: int, g2: int, k2: int|
        0 <= g1 < groups.len() && 0 <= k1 < groups[g1].len() && 0 <= g2 < groups.len() && 0 <= k2 < groups[g2].len()
            && #[trigger] groups[g1][k1] == #[trigger] groups[g2][k2] ==> g1 == g2 && k1 == k2
    &&& forall|g: int, k: int, d: int|
        0 <= g < groups.len() && 0 <= k < groups[g].len() && 0 <= d < deps[groups[g][k] as int].len()
            ==> listed_before(groups, g, #[trigger] deps[groups[g][k] as int][d] as int)
    &&& forall|k: int| 0 < groups.len() && 0 <= k < groups[0].len() ==> #[trigger] deps[groups[0][k] as int].len() == 0
    &&& forall|g: int| 0 <= g < groups.len() ==> #[trigger] groups[g].len() > 0
}

/// Every item of a group after the first depends on an item of the group
/// just before it: each item sits at the earliest level its dependencies
/// allow.
pub open spec fn earliest(groups: Seq<Seq<usize>>, deps: Seq<Seq<usize>>) -> bool {
    forall|g: int, k: int|
        0 < g < groups.len() && 0 <= k < groups[g].len() ==> depends_on_group(deps, #[trigger] groups[g][k] as int, groups, g - 1)
}

/// Item `t` depends on an item listed in group `g`.
pub open spec fn depends_on_group(dv: Seq<Seq<usize>>, t: int, groups: Seq<Seq<usize>>, g: int) -> bool {
    exists|d: int| 0 <= d < dv[t].len() && listed(groups, g, dv[t][d] as int)
}

/// Every item left out of the groups depends on an item left out.
pub open spec fn left_out_stuck(groups: Seq<Seq<usize>>, deps: Seq<Seq<usize>>) -> bool {
    forall|s: int|
        0 <= s < deps.len() && !#[trigger] listed_before(groups, groups.len() as int, s) ==> exists|d: int|
            0 <= d < deps[s].len() && !listed_before(groups, groups.len() as int, deps[s][d] as int)
}

/// Number of entries of `list` not in `done`.
pub open spec fn pending_count(list: Seq<usize>, done: Set<int>) -> int
    decreases list.len(),
{
    if list.len() == 0 {
        0
    } else {
        pending_count(list.drop_last(), done) + if done.contains(list.last() as int) {
            0int
        } else {
            1int
        }
    }
}

proof fn lemma_pending_count_bounds(list: Seq<usize>, done: Set<int>)
    ensures
        0 <= pending_count(list, done) <= list.len(),
        pending_count(list, done) == 0 <==> forall|k: int| 0 <= k < list.len() ==> done.contains(#[trigger] list[k] as int),
    decreases list.len(),
{
    if list.len() > 0 {
        lemma_pending_count_bounds(list.drop_last(), done);
        assert forall|k: int| 0 <= k < list.len() - 1 implies #[trigger] list.drop_last()[k] == list[k] by {}
        if pending_count(list, done) == 0 {
            assert forall|k: int| 0 <= k < list.len() implies done.contains(#[trigger] list[k] as int) by {
                if k < list.len() - 1 {
                    assert(list.drop_last()[k] == list[k]);
                }
            }
        }
    }
}

proof fn lemma_pending_count_insert(list: Seq<usize>, done: Set<int>, x: int)
    requires
        !done.contains(x),
        forall|k1: int, k2: int| 0 <= k1 < k2 < list.len() ==> #[trigger] list[k1] != #[trigger] list[k2],
    ensures
        pending_count(list, done.insert(x)) == pending_count(list, done) - if exists|k: int|
            0 <= k < list.len() && list[k] == x {
            1int
        } else {
            0int
        },
    decreases list.len(),
{
    if list.len() > 0 {
        let init = list.drop_last();
        assert forall|k1: int, k2: int| 0 <= k1 < k2 < init.len() implies #[trigger] init[k1] != #[trigger] init[k2] by {
            assert(init[k1] == list[k1]);
            assert(init[k2] == list[k2]);
        }
        lemma_pending_count_insert(init, done, x);
        if list.last() == x {
            if exists|k: int| 0 <= k < init.len() && init[k] == x {
                let k = choose|k: int| 0 <= k < init.len() && init[k] == x;
                assert(list[k] == list[list.len() - 1]);
            }
        } else {
            if exists|k: int| 0 <= k < list.len() && list[k] == x {
                let k = choose|k: int| 0 <= k < list.len() && list[k] == x;
                assert(init[k] == x);
            }
            if exists|k: int| 0 <= k < init.len() && init[k] == x {
                let k = choose|k: int| 0 <= k < init.len() && init[k] == x;
                assert(list[k] == x);
            }
        }
    }
}

proof fn lemma_pending_count_none_done(list: Seq<usize>)
    ensures
        pending_count(list, Set::empty()) == list.len(),
    decreases list.len(),
{
    if list.len() > 0 {
        lemma_pending_count_none_done(list.drop_last());
    }
}

/// Whether `list` holds `x`.
pub fn list_contains(list: &Vec<usize>, x: usize) -> (r: bool)
    ensures
        r == (exists|k: int| 0 <= k < list.len() && list@[k] == x),
{
    let mut i: usize = 0;
    while i < list.len()
        invariant
            i <= list.len(),
            forall|k: int| 0 <= k < i ==> list@[k] != x,
        decreases list.len() - i,
    {
        if list[i] == x {
            return true;
        }
        i = i + 1;
    }
    false
}

/// Every item not yet placed counts its dependencies not yet placed.
pub open spec fn counts_ok(dv: Seq<Seq<usize>>, indegree: Seq<usize>, done: Set<int>) -> bool {
    &&& indegree.len() == dv.len()
    &&& forall|t: int| 0 <= t < dv.len() && !done.contains(t) ==> #[trigger] indegree[t] == pending_count(dv[t], done)
}

/// The ready items: unplaced, with no pending dependency, listed once, none
/// of them in the current level; and every other unplaced item without
/// pending dependencies is still to be placed at the current level.
pub open spec fn ready_base_ok(
    dv: Seq<Seq<usize>>,
    indegree: Seq<usize>,
    ready: Seq<usize>,
    done: Set<int>,
    current: Seq<usize>,
    from: int,
) -> bool {
    &&& forall|k: int| 0 <= k < ready.len() ==> #[trigger] ready[k] < dv.len() && !done.contains(ready[k] as int)
        && indegree[ready[k] as int] == 0
    &&& forall|k: int, j: int| 0 <= k < ready.len() && 0 <= j < current.len() ==> #[trigger] ready[k] != #[trigger] current[j]
    &&& forall|k1: int, k2: int| 0 <= k1 < k2 < ready.len() ==> #[trigger] ready[k1] != #[trigger] ready[k2]
    &&& forall|t: int|
        0 <= t < dv.len() && !done.contains(t) && indegree[t] == 0 ==> (exists|k: int| 0 <= k < ready.len() && #[trigger] ready[k] == t)
            || (exists|k: int| from <= k < current.len() && current[k] == t)
}

/// The items that became ready while placing the items of the current level,
/// each depending on an item placed at the current level.
pub open spec fn ready_ok(
    dv: Seq<Seq<usize>>,
    indegree: Seq<usize>,
    ready: Seq<usize>,
    done: Set<int>,
    done0: Set<int>,
    current: Seq<usize>,
    from: int,
) -> bool {
    &&& ready_base_ok(dv, indegree, ready, done, current, from)
    &&& forall|k: int| 0 <= k < ready.len() ==> depends_on_some(dv, #[trigger] ready[k] as int, current, from)
}

/// Item `t` depends on one of the first `from` items of `current`.
pub open spec fn depends_on_some(dv: Seq<Seq<usize>>, t: int, current: Seq<usize>, from: int) -> bool {
    exists|j: int, d: int| 0 <= j < from && 0 <= d < dv[t].len() && #[trigger] dv[t][d] == #[trigger] current[j]
}

/// The items of the current level: unplaced before it, listed once, each
/// with every dependency already placed.
pub open spec fn current_ok(dv: Seq<Seq<usize>>, current: Seq<usize>, done0: Set<int>) -> bool {
    &&& forall|k: int| 0 <= k < current.len() ==> #[trigger] current[k] < dv.len() && !done0.contains(current[k] as int)
    &&& forall|k1: int, k2: int| 0 <= k1 < k2 < current.len() ==> #[trigger] current[k1] != #[trigger] current[k2]
    &&& forall|k: int, d: int|
        0 <= k < current.len() && 0 <= d < dv[current[k] as int].len() ==> done0.contains(#[trigger] dv[current[k] as int][d] as int)
}

/// Every dependency of a placed item is placed.
pub open spec fn closed(dv: Seq<Seq<usize>>, done: Set<int>) -> bool {
    forall|t: int, d: int|
        done.contains(t) && 0 <= t < dv.len() && 0 <= d < dv[t].len() ==> done.contains(#[trigger] dv[t][d] as int)
}

/// Placing `current[i]`: lowers the pending counts of the items that depend
/// on it and records those that reach zero as ready.
fn release_dependents(
    deps: &Vec<Vec<usize>>,
    scc_index: usize,
    indegree: &mut Vec<usize>,
    ready: &mut Vec<usize>,
    Ghost(done_before): Ghost<Set<int>>,
    Ghost(done0): Ghost<Set<int>>,
    Ghost(current): Ghost<Seq<usize>>,
    Ghost(i): Ghost<int>,
)
    requires
        deps_ok(deps.deep_view()),
        0 <= i < current.len(),
        current[i] == scc_index,
        current_ok(deps.deep_view(), current, done0),
        !done_before.contains(scc_index as int),
        !done0.contains(scc_index as int),
        closed(deps.deep_view(), done_before),
        counts_ok(deps.deep_view(), old(indegree)@, done_before),
        ready_ok(deps.deep_view(), old(indegree)@, old(ready)@, done_before.insert(scc_index as int), done0, current, i + 1),
    ensures
        counts_ok(deps.deep_view(), final(indegree)@, done_before.insert(scc_index as int)),
        ready_ok(deps.deep_view(), final(indegree)@, final(ready)@, done_before.insert(scc_index as int), done0, current, i + 1),
{
    let ghost dv = deps.deep_view();
    let ghost done = done_before.insert(scc_index as int);
    let count = deps.len();
    let mut dependent: usize = 0;
    while dependent < count
        invariant
            count == deps.len(),
            dv == deps.deep_view(),
            deps_ok(dv),
            dependent <= count,
            0 <= i < current.len(),
            current[i] == scc_index,
            current_ok(dv, current, done0),
            !done_before.contains(scc_index as int),
            !done0.contains(scc_index as int),
            done == done_before.insert(scc_index as int),
            closed(dv, done_before),
            indegree.len() == count,
            forall|t: int| dependent <= t < count && !done_before.contains(t) ==> #[trigger] indegree@[t] == pending_count(dv[t], done_before),
            forall|t: int| 0 <= t < dependent && !done.contains(t) ==> #[trigger] indegree@[t] == pending_count(dv[t], done),
            ready_ok(dv, indegree@, ready@, done, done0, current, i + 1),
        decreases count - dependent,
    {
        let ghost t = dependent as int;
        let ghost old_ready = ready@;
        let ghost old_indegree = indegree@;
        proof {
            lemma_pending_count_insert(dv[t], done_before, scc_index as int);
            lemma_pending_count_bounds(dv[t], done_before);
            lemma_pending_count_bounds(dv[t], done);
        }
        let contains = list_contains(&deps[dependent], scc_index);
        assert(deps@[t].deep_view() =~= deps@[t]@);
        assert(dv[t] == deps@[t]@);
        if contains {
            let ghost d = choose|d: int| 0 <= d < dv[t].len() && dv[t][d] == scc_index;
            assert(!done_before.contains(t)) by {
                if done_before.contains(t) {
                    assert(done_before.contains(dv[t][d] as int));
                }
            }
            assert(t != scc_index);
            assert forall|j: int| 0 <= j < current.len() implies current[j] != t by {
                if current[j] == t {
                    assert(done0.contains(dv[current[j] as int][d] as int));
                }
            }
            indegree.set(dependent, indegree[dependent] - 1);
            if indegree[dependent] == 0 {
                ready.push(dependent);
                proof {
                    assert(ready@[ready.len() - 1] == dependent);
                    assert forall|k: int| 0 <= k < ready.len() implies depends_on_some(dv, #[trigger] ready@[k] as int, current, i + 1) by {
                        if k < old_ready.len() {
                            assert(ready@[k] == old_ready[k]);
                        } else {
                            assert(0 <= i < i + 1 && 0 <= d < dv[ready@[k] as int].len() && dv[ready@[k] as int][d] == current[i]);
                        }
                    }
                    assert forall|t2: int|
                        0 <= t2 < count && !done.contains(t2) && indegree@[t2] == 0 implies (exists|k: int| 0 <= k < ready.len() && #[trigger] ready@[k] == t2)
                            || (exists|k: int| i + 1 <= k < current.len() && current[k] == t2) by {
                        if t2 == t {
                            assert(ready@[ready.len() - 1] == t2);
                        } else if exists|k: int| 0 <= k < old_ready.len() && old_ready[k] == t2 {
                            let k = choose|k: int| 0 <= k < old_ready.len() && old_ready[k] == t2;
                            assert(ready@[k] == t2);
                        }
                    }
                    assert forall|k: int| 0 <= k < ready.len() implies #[trigger] ready@[k] < count && !done.contains(ready@[k] as int)
                        && indegree@[ready@[k] as int] == 0 by {
                        if k < old_ready.len() {
                            assert(old_indegree[old_ready[k] as int] == 0);
                        }
                    }
                    assert forall|k1: int, k2: int| 0 <= k1 < k2 < ready.len() implies #[trigger] ready@[k1] != #[trigger] ready@[k2] by {
                        if k2 == ready.len() - 1 {
                            assert(old_indegree[old_ready[k1] as int] == 0);
                        }
                    }
                }
            } else {
                proof {
                    assert forall|k: int| 0 <= k < ready.len() implies #[trigger] ready@[k] < count && !done.contains(ready@[k] as int)
                        && indegree@[ready@[k] as int] == 0 by {
                        assert(old_indegree[ready@[k] as int] == 0);
                    }
                }
            }
        }
        dependent = dependent + 1;
    }
}

/// Closing a level: the items of the current level form the next group.
proof fn lemma_close_level(
    dv: Seq<Seq<usize>>,
    groups0: Seq<Seq<usize>>,
    current: Seq<usize>,
    done0: Set<int>,
    done: Set<int>,
    indegree: Seq<usize>,
    ready: Seq<usize>,
)
    requires
        deps_ok(dv),
        layered(groups0, dv),
        current.len() > 0,
        current_ok(dv, current, done0),
        forall|t: int| #[trigger] done0.contains(t) <==> listed_before(groups0, groups0.len() as int, t),
        forall|t: int| #[trigger] done.contains(t) <==> (done0.contains(t) || exists|k: int| 0 <= k < current.len() && current[k] == t),
        forall|k: int| 0 <= k < current.len() && groups0.len() == 0 ==> dv[#[trigger] current[k] as int].len() == 0,
        ready_ok(dv, indegree, ready, done, done0, current, current.len() as int),
    ensures
        layered(groups0.push(current), dv),
        forall|t: int| #[trigger] done.contains(t) <==> listed_before(groups0.push(current), (groups0.len() + 1) as int, t),
{
    let gv = groups0.push(current);
    let level = groups0.len() as int;
    assert forall|g: int, t: int| 0 <= g < level implies #[trigger] listed(gv, g, t) == listed(groups0, g, t) by {
        assert(gv[g] == groups0[g]);
    }
    assert forall|t: int| #[trigger] listed(gv, level, t) <==> (exists|k: int| 0 <= k < current.len() && current[k] == t) by {
        assert(gv[level] == current);
        if exists|k: int| 0 <= k < current.len() && current[k] == t {
            let k = choose|k: int| 0 <= k < current.len() && current[k] == t;
            assert(gv[level][k] == t);
        }
    }
    assert forall|t: int| #[trigger] done.contains(t) <==> listed_before(gv, gv.len() as int, t) by {
        if done.contains(t) {
            if done0.contains(t) {
                let g = choose|g: int| 0 <= g < level && g < groups0.len() && listed(groups0, g, t);
                assert(listed(gv, g, t));
            } else {
                assert(listed(gv, level, t));
            }
        }
        if listed_before(gv, gv.len() as int, t) {
            let g = choose|g: int| 0 <= g < gv.len() && listed(gv, g, t);
            if g < level {
                assert(listed(groups0, g, t));
                assert(listed_before(groups0, level, t));
            }
        }
    }
    assert forall|g: int, k: int| 0 <= g < gv.len() && 0 <= k < gv[g].len() implies #[trigger] gv[g][k] < dv.len() by {
        if g < level {
            assert(gv[g] == groups0[g]);
        }
    }
    assert forall|g1: int, k1: int, g2: int, k2: int|
        0 <= g1 < gv.len() && 0 <= k1 < gv[g1].len() && 0 <= g2 < gv.len() && 0 <= k2 < gv[g2].len()
            && #[trigger] gv[g1][k1] == #[trigger] gv[g2][k2] implies g1 == g2 && k1 == k2 by {
        if g1 < level && g2 < level {
            assert(gv[g1] == groups0[g1]);
            assert(gv[g2] == groups0[g2]);
        } else if g1 == level && g2 == level {
        } else if g1 == level {
            assert(gv[g2] == groups0[g2]);
            assert(listed(groups0, g2, gv[g2][k2] as int));
            assert(listed_before(groups0, level, gv[g2][k2] as int));
            assert(done0.contains(current[k1] as int));
        } else {
            assert(gv[g1] == groups0[g1]);
            assert(listed(groups0, g1, gv[g1][k1] as int));
            assert(listed_before(groups0, level, gv[g1][k1] as int));
            assert(done0.contains(current[k2] as int));
        }
    }
    assert forall|g: int, k: int, d: int|
        0 <= g < gv.len() && 0 <= k < gv[g].len() && 0 <= d < dv[gv[g][k] as int].len()
            implies listed_before(gv, g, #[trigger] dv[gv[g][k] as int][d] as int) by {
        let x = dv[gv[g][k] as int][d] as int;
        if g < level {
            assert(gv[g] == groups0[g]);
            assert(listed_before(groups0, g, x));
            let g2 = choose|g2: int| 0 <= g2 < g && g2 < groups0.len() && listed(groups0, g2, x);
            assert(listed(gv, g2, x));
        } else {
            assert(gv[g][k] == current[k]);
            assert(done0.contains(x));
            let g2 = choose|g2: int| 0 <= g2 < level && g2 < groups0.len() && listed(groups0, g2, x);
            assert(listed(gv, g2, x));
        }
    }
    assert forall|k: int| 0 < gv.len() && 0 <= k < gv[0].len() implies #[trigger] dv[gv[0][k] as int].len() == 0 by {
        if level > 0 {
            assert(gv[0] == groups0[0]);
        } else {
            assert(gv[0][k] == current[k]);
        }
    }
    assert forall|g: int| 0 <= g < gv.len() implies #[trigger] gv[g].len() > 0 by {
        if g < level {
            assert(gv[g] == groups0[g]);
        }
    }
}

proof fn lemma_earliest_step(dv: Seq<Seq<usize>>, groups0: Seq<Seq<usize>>, current: Seq<usize>)
    requires
        earliest(groups0, dv),
        forall|k: int| 0 <= k < current.len() && groups0.len() > 0 ==> depends_on_group(dv, #[trigger] current[k] as int, groups0, groups0.len() - 1),
    ensures
        earliest(groups0.push(current), dv),
{
    let gv = groups0.push(current);
    let level = groups0.len() as int;
    assert forall|g: int, k: int| 0 < g < gv.len() && 0 <= k < gv[g].len() implies depends_on_group(dv, #[trigger] gv[g][k] as int, gv, g - 1) by {
        assert(gv[g - 1] == groups0[g - 1]);
        let t = gv[g][k] as int;
        if g < level {
            assert(gv[g] == groups0[g]);
            assert(depends_on_group(dv, groups0[g][k] as int, groups0, g - 1));
        } else {
            assert(gv[g] == current);
            assert(depends_on_group(dv, current[k] as int, groups0, level - 1));
        }
        let d = choose|d: int| 0 <= d < dv[t].len() && listed(groups0, g - 1, dv[t][d] as int);
        let kk = choose|kk: int| 0 <= kk < groups0[g - 1].len() && #[trigger] groups0[g - 1][kk] == dv[t][d] as int;
        assert(gv[g - 1][kk] == groups0[g - 1][kk]);
        assert(listed(gv, g - 1, dv[t][d] as int));
    }
}

/// Kahn layering of `deps.len()` items, each depending on the items listed
/// in its entry of `deps`: group `g` lists, in the order they became ready,
/// the items whose dependencies all lie in groups before `g`.  Items on a
/// dependency cycle are never ready and are left out.
pub fn kahn_layers(deps: &Vec<Vec<usize>>) -> (groups: Vec<Vec<usize>>)
    requires
        deps_ok(deps.deep_view()),
    ensures
        layered(groups.deep_view(), deps.deep_view()),
        earliest(groups.deep_view(), deps.deep_view()),
        left_out_stuck(groups.deep_view(), deps.deep_view()),
{
    let ghost dv = deps.deep_view();
    let count = deps.len();
    let mut indegree: Vec<usize> = Vec::new();
    let mut s: usize = 0;
    while s < count
        invariant
            s <= count,
            count == deps.len(),
            dv == deps.deep_view(),
            indegree.len() == s,
            forall|t: int| 0 <= t < s ==> #[trigger] indegree@[t] == dv[t].len(),
        decreases count - s,
    {
        indegree.push(deps[s].len());
        s = s + 1;
    }
    let mut ready: Vec<usize> = Vec::new();
    let mut s: usize = 0;
    while s < count
        invariant
            s <= count,
            count == deps.len(),
            dv == deps.deep_view(),
            indegree.len() == count,
            forall|t: int| 0 <= t < count ==> #[trigger] indegree@[t] == dv[t].len(),
            forall|k: int| 0 <= k < ready.len() ==> #[trigger] ready@[k] < s && dv[ready@[k] as int].len() == 0,
            forall|k1: int, k2: int| 0 <= k1 < k2 < ready.len() ==> #[trigger] ready@[k1] < #[trigger] ready@[k2],
            forall|t: int| 0 <= t < s && dv[t].len() == 0 ==> exists|k: int| 0 <= k < ready.len() && #[trigger] ready@[k] == t,
        decreases count - s,
    {
        let ghost old_ready = ready@;
        if indegree[s] == 0 {
            ready.push(s);
            assert(ready@[ready.len() - 1] == s);
        }
        proof {
            assert forall|t: int| 0 <= t < s && dv[t].len() == 0 implies exists|k: int| 0 <= k < ready.len() && #[trigger] ready@[k] == t by {
                let k = choose|k: int| 0 <= k < old_ready.len() && old_ready[k] == t;
                assert(ready@[k] == t);
            }
        }
        s = s + 1;
    }
    let mut groups: Vec<Vec<usize>> = Vec::new();
    let ghost mut done: Set<int> = Set::empty();
    proof {
        lemma_int_range(0, count as int);
        assert forall|t: int| 0 <= t < count implies #[trigger] indegree@[t] == pending_count(dv[t], done) by {
            lemma_pending_count_none_done(dv[t]);
        }
        assert forall|t: int| #[trigger] done.contains(t) <==> listed_before(groups.deep_view(), groups.len() as int, t) by {}
    }
    while ready.len() > 0
        invariant
            count == deps.len(),
            dv == deps.deep_view(),
            deps_ok(dv),
            done.finite(),
            done.subset_of(set_int_range(0, count as int)),
            layered(groups.deep_view(), dv),
            counts_ok(dv, indegree@, done),
            forall|t: int| #[trigger] done.contains(t) <==> listed_before(groups.deep_view(), groups.len() as int, t),
            closed(dv, done),
            ready_base_ok(dv, indegree@, ready@, done, Seq::empty(), 0),
            forall|k: int| 0 <= k < ready.len() && groups.len() == 0 ==> dv[#[trigger] ready@[k] as int].len() == 0,
            earliest(groups.deep_view(), dv),
            forall|k: int| 0 <= k < ready.len() && groups.len() > 0 ==> depends_on_group(dv, #[trigger] ready@[k] as int, groups.deep_view(), groups.len() - 1),
        decreases count - done.len(),
    {
        let ghost done0 = done;
        let ghost groups0 = groups.deep_view();
        let current = ready;
        ready = Vec::new();
        let mut members: Vec<usize> = Vec::new();
        proof {
            assert forall|k: int, d: int|
                0 <= k < current.len() && 0 <= d < dv[current@[k] as int].len() implies done0.contains(#[trigger] dv[current@[k] as int][d] as int) by {
                let t = current@[k] as int;
                lemma_pending_count_bounds(dv[t], done0);
                assert(dv[t][d] == dv[t][d]);
            }
            assert(current_ok(dv, current@, done0));
            assert forall|t: int|
                0 <= t < dv.len() && !done.contains(t) && indegree@[t] == 0 implies (exists|k: int| 0 <= k < ready@.len() && #[trigger] ready@[k] == t)
                    || (exists|k: int| 0 <= k < current@.len() && current@[k] == t) by {
                assert(exists|k: int| 0 <= k < current@.len() && #[trigger] current@[k] == t);
            }
        }
        let mut i: usize = 0;
        while i < current.len()
            invariant
                count == deps.len(),
                dv == deps.deep_view(),
                deps_ok(dv),
                i <= current.len(),
                done0.finite(),
                done.finite(),
                current_ok(dv, current@, done0),
                closed(dv, done0),
                forall|t: int| #[trigger] done.contains(t) <==> (done0.contains(t) || exists|k: int| 0 <= k < i && current@[k] == t),
                members@ == current@.take(i as int),
                counts_ok(dv, indegree@, done),
                ready_ok(dv, indegree@, ready@, done, done0, current@, i as int),
            decreases current.len() - i,
        {
            let scc_index = current[i];
            let ghost done_before = done;
            proof {
                done = done.insert(scc_index as int);
                assert(closed(dv, done_before)) by {
                    assert forall|t: int, d: int|
                        done_before.contains(t) && 0 <= t < dv.len() && 0 <= d < dv[t].len() implies done_before.contains(#[trigger] dv[t][d] as int) by {
                        if !done0.contains(t) {
                            let k = choose|k: int| 0 <= k < i && current@[k] == t;
                            assert(dv[current@[k] as int][d] == dv[t][d]);
                        }
                    }
                }
                assert forall|t: int|
                    0 <= t < dv.len() && !done.contains(t) && indegree@[t] == 0 implies (exists|k: int| 0 <= k < ready@.len() && #[trigger] ready@[k] == t)
                        || (exists|k: int| i + 1 <= k < current@.len() && current@[k] == t) by {
                    if !(exists|k: int| 0 <= k < ready@.len() && ready@[k] == t) {
                        let k = choose|k: int| i <= k < current@.len() && current@[k] == t;
                        assert(k != i);
                    }
                }
                assert forall|k: int| 0 <= k < ready@.len() implies depends_on_some(dv, #[trigger] ready@[k] as int, current@, i + 1) by {
                    assert(depends_on_some(dv, ready@[k] as int, current@, i as int));
                    let (j, d) = choose|j: int, d: int|
                        0 <= j < i && 0 <= d < dv[ready@[k] as int].len() && #[trigger] dv[ready@[k] as int][d] == #[trigger] current@[j];
                    assert(0 <= j < i + 1 && 0 <= d < dv[ready@[k] as int].len() && dv[ready@[k] as int][d] == current@[j]);
                }
                assert(ready_ok(dv, indegree@, ready@, done, done0, current@, i + 1));
            }
            release_dependents(deps, scc_index, &mut indegree, &mut ready, Ghost(done_before), Ghost(done0), Ghost(current@), Ghost(i as int));
            members.push(scc_index);
            assert(members@ =~= current@.take(i + 1));
            i = i + 1;
            proof {
                assert forall|t: int| #[trigger] done.contains(t) <==> (done0.contains(t) || exists|k: int| 0 <= k < i && current@[k] == t) by {
                    if t == scc_index {
                        assert(current@[i - 1] == t);
                    }
                }
            }
        }
        assert(members@ =~= current@);
        let ghost members_view = members@;
        assert(members.deep_view() =~= members_view);
        groups.push(members);
        proof {
            assert(groups.deep_view() =~= groups0.push(members_view));
            lemma_close_level(dv, groups0, members_view, done0, done, indegree@, ready@);
            assert(done0.insert(current@[0] as int).subset_of(done));
            lemma_len_subset(done0.insert(current@[0] as int), done);
            assert(done.subset_of(set_int_range(0, count as int)));
            lemma_int_range(0, count as int);
            lemma_len_subset(done, set_int_range(0, count as int));
            assert(closed(dv, done)) by {
                assert forall|t: int, d: int|
                    done.contains(t) && 0 <= t < dv.len() && 0 <= d < dv[t].len() implies done.contains(#[trigger] dv[t][d] as int) by {
                    if !done0.contains(t) {
                        let k = choose|k: int| 0 <= k < current@.len() && current@[k] == t;
                        assert(dv[current@[k] as int][d] == dv[t][d]);
                    }
                }
            }
            assert(ready_base_ok(dv, indegree@, ready@, done, Seq::empty(), 0));
            let gv = groups.deep_view();
            let level = groups0.len() as int;
            assert(gv[level] == members_view);
            assert forall|k: int| 0 <= k < ready.len() && gv.len() > 0 implies depends_on_group(dv, #[trigger] ready@[k] as int, gv, gv.len() - 1) by {
                assert(depends_on_some(dv, ready@[k] as int, current@, current@.len() as int));
                let (j, d) = choose|j: int, d: int|
                    0 <= j < current@.len() && 0 <= d < dv[ready@[k] as int].len() && #[trigger] dv[ready@[k] as int][d] == #[trigger] current@[j];
                assert(gv[level][j] == dv[ready@[k] as int][d]);
                assert(listed(gv, level, dv[ready@[k] as int][d] as int));
            }
            assert(gv =~= groups0.push(members_view));
            lemma_earliest_step(dv, groups0, members_view);
        }
    }
    proof {
        let gv = groups.deep_view();
        assert forall|t: int|
            0 <= t < dv.len() && !#[trigger] listed_before(gv, gv.len() as int, t) implies exists|d: int|
                0 <= d < dv[t].len() && !listed_before(gv, gv.len() as int, dv[t][d] as int) by {
            assert(!done.contains(t));
            lemma_pending_count_bounds(dv[t], done);
            if indegree@[t] == 0 {
                assert(exists|k: int| 0 <= k < ready@.len() && #[trigger] ready@[k] == t);
                let k = choose|k: int| 0 <= k < ready@.len() && #[trigger] ready@[k] == t;
                assert(false);
            }
            let d = choose|d: int| 0 <= d < dv[t].len() && !done.contains(#[trigger] dv[t][d] as int);
            assert(!listed_before(gv, gv.len() as int, dv[t][d] as int));
        }
    }
    groups
}

} // verus!
