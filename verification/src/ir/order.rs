//! Source-declaration order of node keys and the ordered lists built with
//! it.

use vstd::prelude::*;
use crate::ir::model::{IrNode, IrNodeView};
use crate::ir::nodes::{key_position, keys_sorted, lemma_key_position};
use crate::text::{compare_str, lemma_lex_order_basics, lemma_lex_order_trans, lex_order};

verus! {

/// Source-declaration order of the node with key `key` (`-1` for a key of
/// no node).
pub open spec fn order_of(nodes: Seq<IrNodeView>, key: Seq<char>) -> int {
    match key_position(nodes, key) {
        Some(i) => nodes[i].source_order as int,
        None => -1,
    }
}

/// Key `a` comes before key `b`: its node was declared earlier, or at the
/// same position with a smaller key.
#[verifier::opaque]
pub open spec fn key_before(nodes: Seq<IrNodeView>, a: Seq<char>, b: Seq<char>) -> bool {
    order_of(nodes, a) < order_of(nodes, b) || (order_of(nodes, a) == order_of(nodes, b) && lex_order(a, b) < 0)
}

/// `key_before` is a strict total order.
pub proof fn lemma_key_before(nodes: Seq<IrNodeView>, a: Seq<char>, b: Seq<char>, c: Seq<char>)
    ensures
        !key_before(nodes, a, a),
        key_before(nodes, a, b) ==> !key_before(nodes, b, a),
        a != b ==> key_before(nodes, a, b) || key_before(nodes, b, a),
        key_before(nodes, a, b) && key_before(nodes, b, c) ==> key_before(nodes, a, c),
{
    reveal(key_before);
    lemma_lex_order_basics(a, a);
    lemma_lex_order_basics(a, b);
    lemma_lex_order_basics(b, c);
    if lex_order(a, b) < 0 && lex_order(b, c) < 0 {
        lemma_lex_order_trans(a, b, c);
    }
}

/// Keys strictly increase along the list in [`key_before`] order.
pub open spec fn keys_in_source_order(keys: Seq<Seq<char>>, nodes: Seq<IrNodeView>) -> bool {
    forall|i: int, j: int| 0 <= i < j < keys.len() ==> key_before(nodes, #[trigger] keys[i], #[trigger] keys[j])
}

/// Positions of nodes whose keys strictly increase in [`key_before`] order.
pub open spec fn positions_in_source_order(ps: Seq<usize>, nodes: Seq<IrNodeView>) -> bool {
    &&& forall|i: int| 0 <= i < ps.len() ==> #[trigger] ps[i] < nodes.len()
    &&& forall|i: int, j: int| 0 <= i < j < ps.len() ==> key_before(nodes, nodes[#[trigger] ps[i] as int].key, nodes[#[trigger] ps[j] as int].key)
}

/// Whether the node at position `a` comes before the node at position `b`.
fn node_before(nodes: &Vec<IrNode>, a: usize, b: usize) -> (r: bool)
    requires
        keys_sorted(nodes.deep_view()),
        a < nodes.len(),
        b < nodes.len(),
    ensures
        r == key_before(nodes.deep_view(), nodes.deep_view()[a as int].key, nodes.deep_view()[b as int].key),
{
    let ghost nv = nodes.deep_view();
    proof {
        reveal(key_before);
        lemma_key_position(nv, a as int);
        lemma_key_position(nv, b as int);
    }
    assert(nv[a as int] == nodes[a as int]@);
    assert(nv[b as int] == nodes[b as int]@);
    let oa = nodes[a].source_order;
    let ob = nodes[b].source_order;
    if oa < ob {
        true
    } else if oa > ob {
        false
    } else {
        compare_str(nodes[a].key.as_str(), nodes[b].key.as_str()) < 0
    }
}

/// Inserts the position `p` of a node into a list of positions kept in
/// source order.
pub fn insert_in_source_order(list: &mut Vec<usize>, p: usize, nodes: &Vec<IrNode>)
    requires
        keys_sorted(nodes.deep_view()),
        p < nodes.len(),
        positions_in_source_order(old(list)@, nodes.deep_view()),
        !old(list)@.contains(p),
    ensures
        positions_in_source_order(final(list)@, nodes.deep_view()),
        final(list)@.len() == old(list)@.len() + 1,
        forall|x: usize| #[trigger] final(list)@.contains(x) <==> old(list)@.contains(x) || x == p,
{
    let ghost nv = nodes.deep_view();
    let ghost l0 = list@;
    let mut i: usize = 0;
    while i < list.len()
        invariant
            i <= list.len(),
            list@ == l0,
            old(list)@ == l0,
            nv == nodes.deep_view(),
            keys_sorted(nv),
            p < nodes.len(),
            positions_in_source_order(l0, nv),
            !l0.contains(p),
            forall|k: int| 0 <= k < i ==> key_before(nv, nv[#[trigger] l0[k] as int].key, nv[p as int].key),
        ensures
            i <= list.len(),
            list@ == l0,
            i < list.len() ==> key_before(nv, nv[p as int].key, nv[l0[i as int] as int].key),
            forall|k: int| 0 <= k < i ==> key_before(nv, nv[#[trigger] l0[k] as int].key, nv[p as int].key),
        decreases list.len() - i,
    {
        if node_before(nodes, p, list[i]) {
            break;
        }
        proof {
            assert(l0[i as int] != p);
            lemma_key_position(nv, p as int);
            lemma_key_position(nv, l0[i as int] as int);
            lemma_key_before(nv, nv[p as int].key, nv[l0[i as int] as int].key, nv[p as int].key);
        }
        i = i + 1;
    }
    list.insert(i, p);
    proof {
        let l1 = list@;
        assert(l1 =~= l0.insert(i as int, p));
        assert forall|a: int, b: int| 0 <= a < b < l1.len() implies key_before(nv, nv[#[trigger] l1[a] as int].key, nv[#[trigger] l1[b] as int].key) by {
            if b < i {
                assert(l1[a] == l0[a] && l1[b] == l0[b]);
            } else if b == i {
                assert(l1[a] == l0[a]);
            } else if a == i {
                assert(l1[b] == l0[b - 1]);
                if b - 1 > i {
                    lemma_key_before(nv, nv[p as int].key, nv[l0[i as int] as int].key, nv[l0[b - 1] as int].key);
                }
            } else if a < i {
                assert(l1[a] == l0[a] && l1[b] == l0[b - 1]);
                if b - 1 >= i {
                    if b - 1 > i {
                        lemma_key_before(nv, nv[l0[a] as int].key, nv[l0[i as int] as int].key, nv[l0[b - 1] as int].key);
                    }
                }
            } else {
                assert(l1[a] == l0[a - 1] && l1[b] == l0[b - 1]);
            }
        }
        assert forall|x: usize| #[trigger] l1.contains(x) <==> l0.contains(x) || x == p by {
            if l1.contains(x) {
                let k = choose|k: int| 0 <= k < l1.len() && l1[k] == x;
                if k < i {
                    assert(l0[k] == x);
                } else if k > i {
                    assert(l0[k - 1] == x);
                }
            }
            if l0.contains(x) {
                let k = choose|k: int| 0 <= k < l0.len() && l0[k] == x;
                if k < i {
                    assert(l1[k] == x);
                } else {
                    assert(l1[k + 1] == x);
                }
            }
            if x == p {
                assert(l1[i as int] == x);
            }
        }
    }
}

} // verus!
