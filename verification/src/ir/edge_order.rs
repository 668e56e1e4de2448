//! The total order of dependency edges (the derived order of `IrEdge`) and
//! the sorted edge set.

use vstd::prelude::*;
use crate::ir::model::{IrEdge, IrEdgeSite, IrEdgeSiteView, IrEdgeView};
use crate::text::{
    compare_str, compare_strings, lemma_lex_order_basics, lemma_lex_order_trans,
    lemma_list_order_basics, lemma_list_order_trans, lex_order, list_order,
};

verus! {

/// Position of a site shape in the declaration order of the shapes.
pub open spec fn site_rank(s: IrEdgeSiteView) -> int {
    match s {
        IrEdgeSiteView::Field(_) => 0,
        IrEdgeSiteView::TupleVariant(_) => 1,
        IrEdgeSiteView::AliasRhs => 2,
        IrEdgeSiteView::ConstType => 3,
    }
}

/// Three-way comparison of sites: by shape, then by the carried name.
pub open spec fn site_order(a: IrEdgeSiteView, b: IrEdgeSiteView) -> int {
    if site_rank(a) < site_rank(b) {
        -1
    } else if site_rank(a) > site_rank(b) {
        1
    } else {
        match (a, b) {
            (IrEdgeSiteView::Field(x), IrEdgeSiteView::Field(y)) => lex_order(x, y),
            (IrEdgeSiteView::TupleVariant(x), IrEdgeSiteView::TupleVariant(y)) => lex_order(x, y),
            _ => 0,
        }
    }
}

/// Three-way comparison of booleans, `false` first.
pub open spec fn bool_order(a: bool, b: bool) -> int {
    if a == b {
        0
    } else if !a {
        -1
    } else {
        1
    }
}

/// Three-way comparison of edges: field by field in declaration order.
pub open spec fn edge_order(a: IrEdgeView, b: IrEdgeView) -> int {
    if lex_order(a.from, b.from) != 0 {
        lex_order(a.from, b.from)
    } else if list_order(a.from_module, b.from_module) != 0 {
        list_order(a.from_module, b.from_module)
    } else if lex_order(a.to, b.to) != 0 {
        lex_order(a.to, b.to)
    } else if list_order(a.to_module, b.to_module) != 0 {
        list_order(a.to_module, b.to_module)
    } else if lex_order(a.to_original, b.to_original) != 0 {
        lex_order(a.to_original, b.to_original)
    } else if lex_order(a.to_renamed, b.to_renamed) != 0 {
        lex_order(a.to_renamed, b.to_renamed)
    } else if site_order(a.site, b.site) != 0 {
        site_order(a.site, b.site)
    } else {
        bool_order(a.via_rename_reconcile, b.via_rename_reconcile)
    }
}

proof fn lemma_site_order_basics(a: IrEdgeSiteView, b: IrEdgeSiteView)
    ensures
        -1 <= site_order(a, b) <= 1,
        (site_order(a, b) == 0) == (a == b),
        site_order(b, a) == -site_order(a, b),
{
    match (a, b) {
        (IrEdgeSiteView::Field(x), IrEdgeSiteView::Field(y)) => lemma_lex_order_basics(x, y),
        (IrEdgeSiteView::TupleVariant(x), IrEdgeSiteView::TupleVariant(y)) => lemma_lex_order_basics(x, y),
        _ => {},
    }
}

proof fn lemma_site_order_trans(a: IrEdgeSiteView, b: IrEdgeSiteView, c: IrEdgeSiteView)
    requires
        site_order(a, b) <= 0,
        site_order(b, c) <= 0,
    ensures
        site_order(a, c) <= 0,
        (site_order(a, b) < 0 || site_order(b, c) < 0) ==> site_order(a, c) < 0,
{
    match (a, b, c) {
        (IrEdgeSiteView::Field(x), IrEdgeSiteView::Field(y), IrEdgeSiteView::Field(z)) => lemma_lex_order_trans(x, y, z),
        (IrEdgeSiteView::TupleVariant(x), IrEdgeSiteView::TupleVariant(y), IrEdgeSiteView::TupleVariant(z)) => lemma_lex_order_trans(x, y, z),
        _ => {},
    }
}

/// `edge_order` is a three-way result, zero exactly on equal edges, and
/// antisymmetric.
pub proof fn lemma_edge_order_basics(a: IrEdgeView, b: IrEdgeView)
    ensures
        -1 <= edge_order(a, b) <= 1,
        (edge_order(a, b) == 0) == (a == b),
        edge_order(b, a) == -edge_order(a, b),
{
    lemma_lex_order_basics(a.from, b.from);
    lemma_list_order_basics(a.from_module, b.from_module);
    lemma_lex_order_basics(a.to, b.to);
    lemma_list_order_basics(a.to_module, b.to_module);
    lemma_lex_order_basics(a.to_original, b.to_original);
    lemma_lex_order_basics(a.to_renamed, b.to_renamed);
    lemma_site_order_basics(a.site, b.site);
}

/// `edge_order` orders transitively.
pub proof fn lemma_edge_order_trans(a: IrEdgeView, b: IrEdgeView, c: IrEdgeView)
    requires
        edge_order(a, b) < 0,
        edge_order(b, c) < 0,
    ensures
        edge_order(a, c) < 0,
{
    lemma_edge_order_basics(a, b);
    lemma_edge_order_basics(b, c);
    lemma_edge_order_basics(a, c);
    lemma_lex_order_basics(a.from, b.from);
    lemma_lex_order_basics(b.from, c.from);
    lemma_lex_order_basics(a.from, c.from);
    lemma_list_order_basics(a.from_module, b.from_module);
    lemma_list_order_basics(b.from_module, c.from_module);
    lemma_list_order_basics(a.from_module, c.from_module);
    lemma_lex_order_basics(a.to, b.to);
    lemma_lex_order_basics(b.to, c.to);
    lemma_lex_order_basics(a.to, c.to);
    lemma_list_order_basics(a.to_module, b.to_module);
    lemma_list_order_basics(b.to_module, c.to_module);
    lemma_list_order_basics(a.to_module, c.to_module);
    lemma_lex_order_basics(a.to_original, b.to_original);
    lemma_lex_order_basics(b.to_original, c.to_original);
    lemma_lex_order_basics(a.to_original, c.to_original);
    lemma_lex_order_basics(a.to_renamed, b.to_renamed);
    lemma_lex_order_basics(b.to_renamed, c.to_renamed);
    lemma_lex_order_basics(a.to_renamed, c.to_renamed);
    lemma_site_order_basics(a.site, b.site);
    lemma_site_order_basics(b.site, c.site);
    lemma_site_order_basics(a.site, c.site);
    if lex_order(a.from, b.from) <= 0 && lex_order(b.from, c.from) <= 0 {
        lemma_lex_order_trans(a.from, b.from, c.from);
    }
    if list_order(a.from_module, b.from_module) <= 0 && list_order(b.from_module, c.from_module) <= 0 {
        lemma_list_order_trans(a.from_module, b.from_module, c.from_module);
    }
    if lex_order(a.to, b.to) <= 0 && lex_order(b.to, c.to) <= 0 {
        lemma_lex_order_trans(a.to, b.to, c.to);
    }
    if list_order(a.to_module, b.to_module) <= 0 && list_order(b.to_module, c.to_module) <= 0 {
        lemma_list_order_trans(a.to_module, b.to_module, c.to_module);
    }
    if lex_order(a.to_original, b.to_original) <= 0 && lex_order(b.to_original, c.to_original) <= 0 {
        lemma_lex_order_trans(a.to_original, b.to_original, c.to_original);
    }
    if lex_order(a.to_renamed, b.to_renamed) <= 0 && lex_order(b.to_renamed, c.to_renamed) <= 0 {
        lemma_lex_order_trans(a.to_renamed, b.to_renamed, c.to_renamed);
    }
    if site_order(a.site, b.site) <= 0 && site_order(b.site, c.site) <= 0 {
        lemma_site_order_trans(a.site, b.site, c.site);
    }
}

fn site_position(s: &IrEdgeSite) -> (r: u8)
    ensures
        r as int == site_rank(s@),
{
    match s {
        IrEdgeSite::Field(_) => 0,
        IrEdgeSite::TupleVariant(_) => 1,
        IrEdgeSite::AliasRhs => 2,
        IrEdgeSite::ConstType => 3,
    }
}

fn compare_sites(a: &IrEdgeSite, b: &IrEdgeSite) -> (r: i8)
    ensures
        r as int == site_order(a@, b@),
{
    let ra = site_position(a);
    let rb = site_position(b);
    if ra < rb {
        -1
    } else if ra > rb {
        1
    } else {
        match (a, b) {
            (IrEdgeSite::Field(x), IrEdgeSite::Field(y)) => compare_str(x.as_str(), y.as_str()),
            (IrEdgeSite::TupleVariant(x), IrEdgeSite::TupleVariant(y)) => compare_str(x.as_str(), y.as_str()),
            _ => 0,
        }
    }
}

/// Compares two edges by [`edge_order`].
pub fn compare_edges(a: &IrEdge, b: &IrEdge) -> (r: i8)
    ensures
        r as int == edge_order(a@, b@),
{
    let c = compare_str(a.from.as_str(), b.from.as_str());
    if c != 0 {
        return c;
    }
    let c = compare_strings(&a.from_module, &b.from_module);
    if c != 0 {
        return c;
    }
    let c = compare_str(a.to.as_str(), b.to.as_str());
    if c != 0 {
        return c;
    }
    let c = compare_strings(&a.to_module, &b.to_module);
    if c != 0 {
        return c;
    }
    let c = compare_str(a.to_original.as_str(), b.to_original.as_str());
    if c != 0 {
        return c;
    }
    let c = compare_str(a.to_renamed.as_str(), b.to_renamed.as_str());
    if c != 0 {
        return c;
    }
    let c = compare_sites(&a.site, &b.site);
    if c != 0 {
        return c;
    }
    if a.via_rename_reconcile == b.via_rename_reconcile {
        0
    } else if !a.via_rename_reconcile {
        -1
    } else {
        1
    }
}

/// Edges strictly increase along the list.
pub open spec fn edges_sorted(edges: Seq<IrEdgeView>) -> bool {
    forall|i: int, j: int| 0 <= i < j < edges.len() ==> edge_order(#[trigger] edges[i], #[trigger] edges[j]) < 0
}

/// Adds an edge to a strictly increasing edge list unless it is there
/// already (the behaviour of `BTreeSet::insert` on an ordered list).
pub fn insert_edge(edges: &mut Vec<IrEdge>, edge: IrEdge)
    requires
        edges_sorted(old(edges).deep_view()),
    ensures
        edges_sorted(final(edges).deep_view()),
        final(edges).deep_view().to_set() == old(edges).deep_view().to_set().insert(edge@),
{
    let ghost old_edges = edges.deep_view();
    let ghost ev = edge@;
    let mut i: usize = 0;
    while i < edges.len()
        invariant
            i <= edges.len(),
            edges.deep_view() == old_edges,
            old(edges).deep_view() == old_edges,
            ev == edge@,
            edges_sorted(old_edges),
            forall|j: int| 0 <= j < i ==> edge_order(#[trigger] old_edges[j], ev) < 0,
        decreases edges.len() - i,
    {
        let c = compare_edges(&edges[i], &edge);
        assert(old_edges[i as int] == edges[i as int]@);
        if c == 0 {
            proof {
                lemma_edge_order_basics(old_edges[i as int], ev);
                assert(old_edges[i as int] == ev);
                assert(old_edges.contains(ev));
                assert(old_edges.to_set().contains(ev));
                assert(old_edges.to_set().insert(ev) =~= old_edges.to_set());
            }
            return;
        }
        if c > 0 {
            edges.insert(i, edge);
            proof {
                let nn = edges.deep_view();
                assert(nn =~= old_edges.insert(i as int, ev));
                lemma_edge_order_basics(old_edges[i as int], ev);
                assert forall|a: int, b: int| 0 <= a < b < nn.len() implies edge_order(#[trigger] nn[a], #[trigger] nn[b]) < 0 by {
                    if b < i {
                        assert(nn[a] == old_edges[a]);
                        assert(nn[b] == old_edges[b]);
                    } else if b == i {
                        assert(nn[a] == old_edges[a]);
                    } else if a == i {
                        assert(nn[b] == old_edges[b - 1]);
                        if b - 1 > i {
                            lemma_edge_order_trans(ev, old_edges[i as int], old_edges[b - 1]);
                        }
                    } else if a < i {
                        assert(nn[a] == old_edges[a]);
                        assert(nn[b] == old_edges[b - 1]);
                        lemma_edge_order_trans(old_edges[a], ev, old_edges[i as int]);
                        if b - 1 > i {
                            lemma_edge_order_trans(old_edges[a], old_edges[i as int], old_edges[b - 1]);
                        }
                    } else {
                        assert(nn[a] == old_edges[a - 1]);
                        assert(nn[b] == old_edges[b - 1]);
                    }
                }
                assert forall|x: IrEdgeView| nn.to_set().contains(x) <==> old_edges.to_set().insert(ev).contains(x) by {
                    if nn.contains(x) {
                        let a = choose|a: int| 0 <= a < nn.len() && nn[a] == x;
                        if a < i {
                            assert(old_edges[a] == x);
                        } else if a > i {
                            assert(old_edges[a - 1] == x);
                        }
                    }
                    if old_edges.contains(x) {
                        let a = choose|a: int| 0 <= a < old_edges.len() && old_edges[a] == x;
                        if a < i {
                            assert(nn[a] == x);
                        } else {
                            assert(nn[a + 1] == x);
                        }
                    }
                    if x == ev {
                        assert(nn[i as int] == x);
                    }
                }
                assert(nn.to_set() =~= old_edges.to_set().insert(ev));
            }
            return;
        }
        proof {
            lemma_edge_order_basics(old_edges[i as int], ev);
        }
        i = i + 1;
    }
    edges.push(edge);
    proof {
        let nn = edges.deep_view();
        assert(nn =~= old_edges.push(ev));
        assert forall|a: int, b: int| 0 <= a < b < nn.len() implies edge_order(#[trigger] nn[a], #[trigger] nn[b]) < 0 by {
            assert(nn[a] == old_edges[a]);
            if b < old_edges.len() {
                assert(nn[b] == old_edges[b]);
            }
        }
        assert forall|x: IrEdgeView| nn.to_set().contains(x) <==> old_edges.to_set().insert(ev).contains(x) by {
            if nn.contains(x) {
                let a = choose|a: int| 0 <= a < nn.len() && nn[a] == x;
                if a < old_edges.len() {
                    assert(old_edges[a] == x);
                }
            }
            if old_edges.contains(x) {
                let a = choose|a: int| 0 <= a < old_edges.len() && old_edges[a] == x;
                assert(nn[a] == x);
            }
            if x == ev {
                assert(nn[old_edges.len() as int] == x);
            }
        }
        assert(nn.to_set() =~= old_edges.to_set().insert(ev));
    }
}

} // verus!
