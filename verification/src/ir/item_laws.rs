//! Properties of single operations of the graph, over all their inputs:
//! which named types a type mentions, how a name resolves, which kind a
//! node has, and how sites and types are written.

use vstd::prelude::*;
use crate::input::{RustConst, RustEnum, RustField, RustStruct, RustType, RustTypeAlias, SpecialRustType, type_display};
use crate::ir::edges::{
    edge_of, fields_edges, is_candidate, is_generic_name, lemma_prefer_before, lemma_preferred_upto, preference_sorted,
    preferred, ref_edges, resolve_spec, same_crate, type_refs, TypeRefView,
};
use crate::ir::laws::law_ref_edges;
use crate::ir::model::{IrEdgeSiteView, IrNodeKind, IrNodeView};
use crate::ir::nodes::{alias_node, const_node, enum_node, struct_node};

verus! {

/// Wrapping a type in `Option`, `Vec`, an array or a slice mentions exactly
/// the named types of the wrapped type; a map mentions those of its key,
/// then those of its value; a builtin type mentions none; and a plain name
/// mentions itself, marked as reached through a rename when it is a
/// renamed name.
pub proof fn law_type_refs_structure(t: RustType, u: RustType, size: usize, builtin: String, id: String, renamed: Set<Seq<char>>)
    ensures
        type_refs(RustType::Special(SpecialRustType::Option(Box::new(t))), renamed) == type_refs(t, renamed),
        type_refs(RustType::Special(SpecialRustType::Vec(Box::new(t))), renamed) == type_refs(t, renamed),
        type_refs(RustType::Special(SpecialRustType::Slice(Box::new(t))), renamed) == type_refs(t, renamed),
        type_refs(RustType::Special(SpecialRustType::Array(Box::new(t), size)), renamed) == type_refs(t, renamed),
        type_refs(RustType::Special(SpecialRustType::HashMap(Box::new(t), Box::new(u))), renamed) == type_refs(t, renamed)
            + type_refs(u, renamed),
        type_refs(RustType::Special(SpecialRustType::Builtin(builtin)), renamed).len() == 0,
        type_refs(RustType::Simple { id }, renamed) == seq![TypeRefView { name: id@, via_rename_reconcile: renamed.contains(id@) }],
{
}

/// A field of type `Option<X>`, `X` a plain name that is no generic
/// parameter of the node and resolves to node `t`, gives the edge to `t`
/// at that field.
pub proof fn law_option_field_edge(
    nodes: Seq<IrNodeView>,
    renamed: Set<Seq<char>>,
    from: IrNodeView,
    fields: Seq<RustField>,
    n: int,
    k: int,
    x: String,
    t: usize,
)
    requires
        0 <= k < n <= fields.len(),
        fields[k].ty == RustType::Special(SpecialRustType::Option(Box::new(RustType::Simple { id: x }))),
        !is_generic_name(from, x@),
        resolve_spec(nodes, from.crate_name, x@) == Some(t),
    ensures
        fields_edges(nodes, renamed, from, fields, n).contains(
            edge_of(from, nodes[t as int], IrEdgeSiteView::Field(fields[k].id.renamed@), renamed.contains(x@)),
        ),
    decreases n,
{
    if k < n - 1 {
        law_option_field_edge(nodes, renamed, from, fields, n - 1, k, x, t);
    } else {
        let refs = type_refs(fields[k].ty, renamed);
        let site = IrEdgeSiteView::Field(fields[k].id.renamed@);
        let inner = RustType::Simple { id: x };
        law_type_refs_structure(inner, inner, 0, x, x, renamed);
        assert(fields[k].ty == RustType::Special(SpecialRustType::Option(Box::new(inner))));
        assert(refs == seq![TypeRefView { name: x@, via_rename_reconcile: renamed.contains(x@) }]);
        law_ref_edges(nodes, from, refs, site);
        assert(refs[0].name == x@);
        assert(ref_edges(nodes, from, refs, site).contains(edge_of(from, nodes[t as int], site, refs[0].via_rename_reconcile)));
    }
}

/// Node `j` answers to `name` from crate `krate`.
pub open spec fn in_crate_candidate(nodes: Seq<IrNodeView>, krate: Seq<char>, name: Seq<char>, j: int) -> bool {
    0 <= j < nodes.len() && is_candidate(nodes[j], name) && nodes[j].crate_name == krate
}

/// Node `j` answers to `name`.
pub open spec fn any_candidate(nodes: Seq<IrNodeView>, name: Seq<char>, j: int) -> bool {
    0 <= j < nodes.len() && is_candidate(nodes[j], name)
}

proof fn lemma_same_crate(nodes: Seq<IrNodeView>, cands: Seq<usize>, krate: Seq<char>)
    requires
        preference_sorted(nodes, cands),
    ensures
        preference_sorted(nodes, same_crate(nodes, cands, krate)),
        forall|k: int|
            0 <= k < same_crate(nodes, cands, krate).len() ==> cands.contains(#[trigger] same_crate(nodes, cands, krate)[k])
                && nodes[same_crate(nodes, cands, krate)[k] as int].crate_name == krate,
        forall|i: int|
            0 <= i < cands.len() && nodes[#[trigger] cands[i] as int].crate_name == krate ==> same_crate(nodes, cands, krate).contains(
                cands[i],
            ),
    decreases cands.len(),
{
    if cands.len() > 0 {
        let init = cands.drop_last();
        assert forall|k1: int, k2: int| 0 <= k1 < k2 < init.len() implies crate::ir::edges::prefer_before(nodes, #[trigger] init[k1], #[trigger] init[k2]) by {
            assert(init[k1] == cands[k1] && init[k2] == cands[k2]);
        }
        lemma_same_crate(nodes, init, krate);
        let prev = same_crate(nodes, init, krate);
        let cur = same_crate(nodes, cands, krate);
        let last = cands.last();
        assert(cands[cands.len() - 1] == last);
        if nodes[last as int].crate_name == krate {
            assert(cur == prev.push(last));
            assert forall|k1: int, k2: int| 0 <= k1 < k2 < cur.len() implies crate::ir::edges::prefer_before(nodes, #[trigger] cur[k1], #[trigger] cur[k2]) by {
                assert(cur[k1] == prev[k1]);
                if k2 < prev.len() {
                    assert(cur[k2] == prev[k2]);
                } else {
                    assert(init.contains(prev[k1]));
                    let i = choose|i: int| 0 <= i < init.len() && init[i] == prev[k1];
                    assert(cands[i] == prev[k1]);
                }
            }
            assert forall|k: int| 0 <= k < cur.len() implies cands.contains(#[trigger] cur[k]) && nodes[cur[k] as int].crate_name == krate by {
                if k < prev.len() {
                    assert(cur[k] == prev[k]);
                    assert(init.contains(prev[k]));
                    let i = choose|i: int| 0 <= i < init.len() && init[i] == prev[k];
                    assert(cands[i] == prev[k]);
                } else {
                    assert(cands[cands.len() - 1] == cur[k]);
                }
            }
            assert forall|i: int| 0 <= i < cands.len() && nodes[#[trigger] cands[i] as int].crate_name == krate implies cur.contains(cands[i]) by {
                if i < init.len() {
                    assert(init[i] == cands[i]);
                    assert(prev.contains(cands[i]));
                    let k = choose|k: int| 0 <= k < prev.len() && prev[k] == cands[i];
                    assert(cur[k] == cands[i]);
                } else {
                    assert(cur[cur.len() - 1] == cands[i]);
                }
            }
        } else {
            assert(cur == prev);
            assert forall|k: int| 0 <= k < cur.len() implies cands.contains(#[trigger] cur[k]) && nodes[cur[k] as int].crate_name == krate by {
                assert(init.contains(prev[k]));
                let i = choose|i: int| 0 <= i < init.len() && init[i] == prev[k];
                assert(cands[i] == prev[k]);
            }
            assert forall|i: int| 0 <= i < cands.len() && nodes[#[trigger] cands[i] as int].crate_name == krate implies cur.contains(cands[i]) by {
                assert(i < init.len());
                assert(init[i] == cands[i]);
            }
        }
    }
}

/// What the candidate list and its same-crate part hold.
proof fn lemma_resolution_lists(nodes: Seq<IrNodeView>, krate: Seq<char>, name: Seq<char>)
    requires
        nodes.len() <= usize::MAX,
    ensures
        forall|k: int| 0 <= k < preferred(nodes, name).len() ==> any_candidate(nodes, name, #[trigger] preferred(nodes, name)[k] as int),
        forall|j: int| #[trigger] any_candidate(nodes, name, j) ==> preferred(nodes, name).contains(j as usize),
        forall|k: int|
            0 <= k < same_crate(nodes, preferred(nodes, name), krate).len() ==> in_crate_candidate(
                nodes,
                krate,
                name,
                #[trigger] same_crate(nodes, preferred(nodes, name), krate)[k] as int,
            ),
        forall|j: int| #[trigger] in_crate_candidate(nodes, krate, name, j) ==> same_crate(nodes, preferred(nodes, name), krate).contains(
            j as usize,
        ),
        preference_sorted(nodes, preferred(nodes, name)),
        preference_sorted(nodes, same_crate(nodes, preferred(nodes, name), krate)),
{
    let n = nodes.len() as int;
    let p = preferred(nodes, name);
    lemma_preferred_upto(nodes, name, n);
    lemma_same_crate(nodes, p, krate);
    let s = same_crate(nodes, p, krate);
    assert forall|k: int| 0 <= k < s.len() implies in_crate_candidate(nodes, krate, name, #[trigger] s[k] as int) by {
        assert(p.contains(s[k]));
        let i = choose|i: int| 0 <= i < p.len() && p[i] == s[k];
        assert(p[i] < n && is_candidate(nodes[p[i] as int], name));
    }
    assert forall|j: int| #[trigger] in_crate_candidate(nodes, krate, name, j) implies s.contains(j as usize) by {
        assert(p.contains(j as usize));
        let i = choose|i: int| 0 <= i < p.len() && p[i] == j as usize;
        assert(nodes[p[i] as int].crate_name == krate);
    }
}

/// A duplicate-free list all of whose entries are `t` has at most one.
proof fn lemma_single(nodes: Seq<IrNodeView>, s: Seq<usize>, t: usize)
    requires
        preference_sorted(nodes, s),
        forall|k: int| 0 <= k < s.len() ==> #[trigger] s[k] == t,
    ensures
        s.len() <= 1,
{
    if s.len() > 1 {
        assert(crate::ir::edges::prefer_before(nodes, s[0], s[1]));
        lemma_prefer_before(nodes, t, t, t);
    }
}

/// A name with exactly one declaration in the referring crate resolves to
/// it, whatever other crates declare.
pub proof fn law_resolve_own_crate(nodes: Seq<IrNodeView>, krate: Seq<char>, name: Seq<char>, t: int)
    requires
        nodes.len() <= usize::MAX,
        in_crate_candidate(nodes, krate, name, t),
        forall|j: int| #[trigger] in_crate_candidate(nodes, krate, name, j) ==> j == t,
    ensures
        resolve_spec(nodes, krate, name) == Some(t as usize),
{
    lemma_resolution_lists(nodes, krate, name);
    let s = same_crate(nodes, preferred(nodes, name), krate);
    assert(s.contains(t as usize));
    assert forall|k: int| 0 <= k < s.len() implies #[trigger] s[k] == t as usize by {
        assert(in_crate_candidate(nodes, krate, name, s[k] as int));
    }
    lemma_single(nodes, s, t as usize);
}

/// A name with two declarations in the referring crate is ambiguous and
/// resolves to nothing.
pub proof fn law_resolve_ambiguous(nodes: Seq<IrNodeView>, krate: Seq<char>, name: Seq<char>, a: int, b: int)
    requires
        nodes.len() <= usize::MAX,
        a != b,
        in_crate_candidate(nodes, krate, name, a),
        in_crate_candidate(nodes, krate, name, b),
    ensures
        resolve_spec(nodes, krate, name) == None::<usize>,
{
    lemma_resolution_lists(nodes, krate, name);
    let s = same_crate(nodes, preferred(nodes, name), krate);
    assert(s.contains(a as usize));
    assert(s.contains(b as usize));
    let ia = choose|i: int| 0 <= i < s.len() && s[i] == a as usize;
    let ib = choose|i: int| 0 <= i < s.len() && s[i] == b as usize;
    assert(ia != ib);
}

/// A name the referring crate does not declare resolves to its only
/// declaration in another crate.
pub proof fn law_resolve_other_crate(nodes: Seq<IrNodeView>, krate: Seq<char>, name: Seq<char>, t: int)
    requires
        nodes.len() <= usize::MAX,
        any_candidate(nodes, name, t),
        forall|j: int| #[trigger] any_candidate(nodes, name, j) ==> j == t,
        forall|j: int| !#[trigger] in_crate_candidate(nodes, krate, name, j),
    ensures
        resolve_spec(nodes, krate, name) == Some(t as usize),
{
    lemma_resolution_lists(nodes, krate, name);
    let p = preferred(nodes, name);
    let s = same_crate(nodes, p, krate);
    if s.len() > 0 {
        assert(in_crate_candidate(nodes, krate, name, s[0] as int));
    }
    assert(p.contains(t as usize));
    assert forall|k: int| 0 <= k < p.len() implies #[trigger] p[k] == t as usize by {
        assert(any_candidate(nodes, name, p[k] as int));
    }
    lemma_single(nodes, p, t as usize);
}

/// A name the referring crate does not declare and that no node or several
/// nodes answer to resolves to nothing.
pub proof fn law_resolve_unresolved(nodes: Seq<IrNodeView>, krate: Seq<char>, name: Seq<char>, a: int, b: int)
    requires
        nodes.len() <= usize::MAX,
        forall|j: int| !#[trigger] in_crate_candidate(nodes, krate, name, j),
        (forall|j: int| !#[trigger] any_candidate(nodes, name, j)) || (a != b && any_candidate(nodes, name, a)
            && any_candidate(nodes, name, b)),
    ensures
        resolve_spec(nodes, krate, name) == None::<usize>,
{
    lemma_resolution_lists(nodes, krate, name);
    let p = preferred(nodes, name);
    let s = same_crate(nodes, p, krate);
    if s.len() > 0 {
        assert(in_crate_candidate(nodes, krate, name, s[0] as int));
    }
    if p.len() > 0 {
        assert(any_candidate(nodes, name, p[0] as int));
    }
    if a != b && any_candidate(nodes, name, a) && any_candidate(nodes, name, b) {
        assert(p.contains(a as usize));
        assert(p.contains(b as usize));
        let ia = choose|i: int| 0 <= i < p.len() && p[i] == a as usize;
        let ib = choose|i: int| 0 <= i < p.len() && p[i] == b as usize;
        assert(ia != ib);
    }
}

/// Each node has the kind of the declaration it was built from, and the
/// kinds are written with distinct labels.
pub proof fn law_node_kinds(
    krate: Seq<char>,
    alias: RustTypeAlias,
    structure: RustStruct,
    enumeration: RustEnum,
    constant: RustConst,
    order: usize,
    k1: IrNodeKind,
    k2: IrNodeKind,
)
    ensures
        alias_node(krate, alias, order).kind == IrNodeKind::Alias,
        struct_node(krate, structure, order).kind == IrNodeKind::Struct,
        enum_node(krate, enumeration, order).kind == IrNodeKind::Enum,
        const_node(krate, constant, order).kind == IrNodeKind::Const,
        k1.label() == k2.label() ==> k1 == k2,
{
    reveal_strlit("struct");
    reveal_strlit("enum");
    reveal_strlit("alias");
    reveal_strlit("const");
    if k1.label() == k2.label() && k1 != k2 {
        assert(k1.label()[0] != k2.label()[0] || k1.label().len() != k2.label().len() || k1.label()[1] != k2.label()[1]);
    }
}

/// Distinct edge sites are written with distinct labels, and the label of
/// an alias's right-hand side is `alias_rhs`.
pub proof fn law_site_labels(a: IrEdgeSiteView, b: IrEdgeSiteView)
    ensures
        a.label() == b.label() ==> a == b,
        IrEdgeSiteView::AliasRhs.label() == "alias_rhs"@,
{
    reveal_strlit("field:");
    reveal_strlit("tuple_variant:");
    reveal_strlit("alias_rhs");
    reveal_strlit("const_type");
    if a.label() == b.label() {
        let l = a.label();
        match (a, b) {
            (IrEdgeSiteView::Field(x), IrEdgeSiteView::Field(y)) => {
                assert(x =~= l.subrange(6, l.len() as int));
                assert(y =~= l.subrange(6, l.len() as int));
            },
            (IrEdgeSiteView::TupleVariant(x), IrEdgeSiteView::TupleVariant(y)) => {
                assert(x =~= l.subrange(14, l.len() as int));
                assert(y =~= l.subrange(14, l.len() as int));
            },
            _ => {
                assert(a.label()[0] == b.label()[0]);
                assert(a.label()[1] == b.label()[1]);
            },
        }
    }
}

/// `Option<T>` and `Vec<T>` are written around `T` and never as `T`
/// itself, nor as each other, and the wrapped type can be read back.
pub proof fn law_display_wrappers(t: RustType, u: RustType)
    ensures
        type_display(RustType::Special(SpecialRustType::Option(Box::new(t)))) != type_display(t),
        type_display(RustType::Special(SpecialRustType::Vec(Box::new(t)))) != type_display(t),
        type_display(RustType::Special(SpecialRustType::Option(Box::new(t)))) != type_display(
            RustType::Special(SpecialRustType::Vec(Box::new(u))),
        ),
        type_display(RustType::Special(SpecialRustType::Option(Box::new(t)))) == type_display(
            RustType::Special(SpecialRustType::Option(Box::new(u))),
        ) ==> type_display(t) == type_display(u),
{
    reveal_strlit("Option<");
    reveal_strlit("Vec<");
    reveal_strlit(">");
    let ot = type_display(RustType::Special(SpecialRustType::Option(Box::new(t))));
    let ou = type_display(RustType::Special(SpecialRustType::Option(Box::new(u))));
    let vu = type_display(RustType::Special(SpecialRustType::Vec(Box::new(u))));
    assert(ot.len() == type_display(t).len() + 8);
    assert(ot[0] == 'O');
    assert(vu[0] == 'V');
    if ot == ou {
        assert(type_display(t) =~= ot.subrange(7, ot.len() - 1));
        assert(type_display(u) =~= ou.subrange(7, ou.len() - 1));
    }
}

} // verus!
