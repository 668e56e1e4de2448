//! Dependency edges: the named types a declaration refers to, resolved to
//! graph nodes.

use vstd::prelude::*;
use crate::input::{
    ParsedData, RustConst, RustEnum, RustEnumVariant, RustField, RustStruct, RustType,
    RustTypeAlias, SpecialRustType,
};
use crate::ir::edge_order::{edges_sorted, insert_edge};
use crate::ir::model::{IrEdge, IrEdgeSite, IrEdgeSiteView, IrEdgeView, IrNode, IrNodeView};
use crate::ir::nodes::{find_node, has_key, key_of, key_position, keys_sorted, lemma_key_position, make_key};
use crate::text::{clone_strings, compare_str, lemma_lex_order_basics, lemma_lex_order_trans, lex_order, strings_contain};

verus! {

/// Reference that reached a user-declared type by its (post-reconcile) name.
pub struct TypeRef {
    /// Type id as it appears after reconcile.
    pub name: String,
    /// True when the id is the serialized name of a serde-renamed node.
    pub via_rename_reconcile: bool,
}

/// View of a [`TypeRef`].
pub struct TypeRefView {
    pub name: Seq<char>,
    pub via_rename_reconcile: bool,
}

impl View for TypeRef {
    type V = TypeRefView;

    open spec fn view(&self) -> TypeRefView {
        TypeRefView { name: self.name@, via_rename_reconcile: self.via_rename_reconcile }
    }
}

impl DeepView for TypeRef {
    type V = TypeRefView;

    open spec fn deep_view(&self) -> TypeRefView {
        self@
    }
}

/// The reference made by naming `id`; it came through reconcile when `id` is
/// one of the serialized names of serde-renamed nodes.
pub open spec fn type_ref(id: Seq<char>, renamed: Set<Seq<char>>) -> TypeRefView {
    TypeRefView { name: id, via_rename_reconcile: renamed.contains(id) }
}

/// The named types a type expression mentions, outermost first, left to
/// right.  Builtin types mention nothing.
pub open spec fn type_refs(t: RustType, renamed: Set<Seq<char>>) -> Seq<TypeRefView>
    decreases t, 0int,
{
    match t {
        RustType::Simple { id } => seq![type_ref(id@, renamed)],
        RustType::Generic { id, parameters } => seq![type_ref(id@, renamed)] + params_refs(
            parameters@,
            parameters@.len() as int,
            renamed,
        ),
        RustType::Special(special) => match special {
            SpecialRustType::Vec(inner) => type_refs(*inner, renamed),
            SpecialRustType::Array(inner, _) => type_refs(*inner, renamed),
            SpecialRustType::Slice(inner) => type_refs(*inner, renamed),
            SpecialRustType::Option(inner) => type_refs(*inner, renamed),
            SpecialRustType::HashMap(key, value) => type_refs(*key, renamed) + type_refs(
                *value,
                renamed,
            ),
            SpecialRustType::Builtin(_) => Seq::empty(),
        },
    }
}

/// The references of the first `n` type arguments, in order.
pub open spec fn params_refs(ps: Seq<RustType>, n: int, renamed: Set<Seq<char>>) -> Seq<TypeRefView>
    decreases ps, n,
{
    if n <= 0 || n > ps.len() {
        Seq::empty()
    } else {
        params_refs(ps, n - 1, renamed) + type_refs(ps[n - 1], renamed)
    }
}

fn make_ref(id: &String, renamed_names: &Vec<String>) -> (r: TypeRef)
    ensures
        r@ == type_ref(id@, renamed_names.deep_view().to_set()),
{
    let hit = strings_contain(renamed_names, id);
    let name = id.clone();
    TypeRef { name, via_rename_reconcile: hit }
}

/// Appends to `out` the named types `ty` mentions.
pub fn collect_type_refs(ty: &RustType, out: &mut Vec<TypeRef>, renamed_names: &Vec<String>)
    ensures
        final(out).deep_view() == old(out).deep_view() + type_refs(*ty, renamed_names.deep_view().to_set()),
    decreases ty,
{
    let ghost renamed = renamed_names.deep_view().to_set();
    let ghost start = out.deep_view();
    match ty {
        RustType::Simple { id } => {
            out.push(make_ref(id, renamed_names));
            assert(out.deep_view() =~= start + type_refs(*ty, renamed));
        },
        RustType::Generic { id, parameters } => {
            out.push(make_ref(id, renamed_names));
            assert(out.deep_view() =~= start + seq![type_ref(id@, renamed)]);
            let mut i: usize = 0;
            assert(forall|j: int|
                0 <= j < parameters.len() ==> decreases_to!(*ty => #[trigger] parameters@[j]));
            assert(out.deep_view() =~= start + seq![type_ref(id@, renamed)] + params_refs(parameters@, 0, renamed));
            while i < parameters.len()
                invariant
                    i <= parameters.len(),
                    forall|j: int|
                        0 <= j < parameters.len() ==> decreases_to!(*ty => #[trigger] parameters@[j]),
                    renamed == renamed_names.deep_view().to_set(),
                    out.deep_view() == start + seq![type_ref(id@, renamed)] + params_refs(parameters@, i as int, renamed),
                decreases parameters.len() - i,
            {
                let ghost before = out.deep_view();
                collect_type_refs(&parameters[i], out, renamed_names);
                assert(params_refs(parameters@, i + 1, renamed) == params_refs(parameters@, i as int, renamed) + type_refs(parameters@[i as int], renamed));
                assert(out.deep_view() =~= start + seq![type_ref(id@, renamed)] + params_refs(parameters@, i + 1, renamed));
                i = i + 1;
            }
            assert(out.deep_view() =~= start + type_refs(*ty, renamed));
        },
        RustType::Special(special) => match special {
            SpecialRustType::Vec(inner) => collect_type_refs(inner, out, renamed_names),
            SpecialRustType::Array(inner, _) => collect_type_refs(inner, out, renamed_names),
            SpecialRustType::Slice(inner) => collect_type_refs(inner, out, renamed_names),
            SpecialRustType::Option(inner) => collect_type_refs(inner, out, renamed_names),
            SpecialRustType::HashMap(key, value) => {
                collect_type_refs(key, out, renamed_names);
                collect_type_refs(value, out, renamed_names);
                assert(out.deep_view() =~= start + type_refs(*ty, renamed));
            },
            SpecialRustType::Builtin(_) => {
                assert(out.deep_view() =~= start + type_refs(*ty, renamed));
            },
        },
    }
}

/// Node `node` answers to `name`: its serialized or its original name.
pub open spec fn is_candidate(node: IrNodeView, name: Seq<char>) -> bool {
    node.renamed == name || node.original == name
}

/// Three-way preference between two nodes answering to one name: fewer
/// module levels first, then the earlier source declaration, then the
/// smaller key.
pub open spec fn prefer_order(a: IrNodeView, b: IrNodeView) -> int {
    if a.module.len() < b.module.len() {
        -1
    } else if a.module.len() > b.module.len() {
        1
    } else if a.source_order < b.source_order {
        -1
    } else if a.source_order > b.source_order {
        1
    } else {
        lex_order(a.key, b.key)
    }
}

/// Node position `a` is listed before `b` among the candidates of a name:
/// it is preferred, or as much preferred and earlier in the node list.
pub open spec fn prefer_before(nodes: Seq<IrNodeView>, a: usize, b: usize) -> bool {
    prefer_order(nodes[a as int], nodes[b as int]) < 0 || (prefer_order(nodes[a as int], nodes[b as int]) == 0 && a < b)
}

/// The positions are listed in order of preference.
pub open spec fn preference_sorted(nodes: Seq<IrNodeView>, ps: Seq<usize>) -> bool {
    forall|k1: int, k2: int| 0 <= k1 < k2 < ps.len() ==> prefer_before(nodes, #[trigger] ps[k1], #[trigger] ps[k2])
}

/// Listing before is a strict total order on node positions.
pub proof fn lemma_prefer_before(nodes: Seq<IrNodeView>, a: usize, b: usize, c: usize)
    ensures
        !prefer_before(nodes, a, a),
        a != b ==> (prefer_before(nodes, a, b) <==> !prefer_before(nodes, b, a)),
        prefer_before(nodes, a, b) && prefer_before(nodes, b, c) ==> prefer_before(nodes, a, c),
{
    let ka = nodes[a as int].key;
    let kb = nodes[b as int].key;
    let kc = nodes[c as int].key;
    lemma_lex_order_basics(ka, ka);
    lemma_lex_order_basics(ka, kb);
    lemma_lex_order_basics(kb, kc);
    lemma_lex_order_basics(ka, kc);
    if lex_order(ka, kb) <= 0 && lex_order(kb, kc) <= 0 {
        lemma_lex_order_trans(ka, kb, kc);
    }
}

/// `x` put in its place in the preference-ordered list `ps`.
pub open spec fn prefer_insert(nodes: Seq<IrNodeView>, ps: Seq<usize>, x: usize) -> Seq<usize>
    decreases ps.len(),
{
    if ps.len() == 0 {
        seq![x]
    } else if prefer_before(nodes, x, ps[0]) {
        seq![x] + ps
    } else {
        seq![ps[0]] + prefer_insert(nodes, ps.drop_first(), x)
    }
}

/// Positions of the nodes before `n` that answer to `name`, most preferred
/// first.
pub open spec fn preferred_upto(nodes: Seq<IrNodeView>, name: Seq<char>, n: int) -> Seq<usize>
    decreases n,
{
    if n <= 0 {
        Seq::empty()
    } else if is_candidate(nodes[n - 1], name) {
        prefer_insert(nodes, preferred_upto(nodes, name, n - 1), (n - 1) as usize)
    } else {
        preferred_upto(nodes, name, n - 1)
    }
}

/// Positions of the nodes that answer to `name`, most preferred first:
/// fewest module levels, then earliest source declaration, then smallest
/// key (the reference resolution's deterministic preference).
pub open spec fn preferred(nodes: Seq<IrNodeView>, name: Seq<char>) -> Seq<usize> {
    preferred_upto(nodes, name, nodes.len() as int)
}

proof fn lemma_prefer_insert(nodes: Seq<IrNodeView>, ps: Seq<usize>, x: usize)
    requires
        preference_sorted(nodes, ps),
        !ps.contains(x),
    ensures
        preference_sorted(nodes, prefer_insert(nodes, ps, x)),
        prefer_insert(nodes, ps, x).to_set() == ps.to_set().insert(x),
    decreases ps.len(),
{
    let r = prefer_insert(nodes, ps, x);
    if ps.len() == 0 {
        assert(r.to_set() =~= ps.to_set().insert(x)) by {
            assert(r[0] == x);
        }
    } else if prefer_before(nodes, x, ps[0]) {
        assert forall|i: int, j: int| 0 <= i < j < r.len() implies prefer_before(nodes, #[trigger] r[i], #[trigger] r[j]) by {
            if i == 0 {
                assert(r[j] == ps[j - 1]);
                if j > 1 {
                    assert(prefer_before(nodes, ps[0], ps[j - 1]));
                    lemma_prefer_before(nodes, x, ps[0], ps[j - 1]);
                }
            } else {
                assert(r[i] == ps[i - 1] && r[j] == ps[j - 1]);
            }
        }
        assert forall|y: usize| r.to_set().contains(y) <==> ps.to_set().insert(x).contains(y) by {
            if r.contains(y) {
                let k = choose|k: int| 0 <= k < r.len() && r[k] == y;
                if k > 0 {
                    assert(ps[k - 1] == y);
                }
            }
            if ps.contains(y) {
                let k = choose|k: int| 0 <= k < ps.len() && ps[k] == y;
                assert(r[k + 1] == y);
            }
            if y == x {
                assert(r[0] == y);
            }
        }
        assert(r.to_set() =~= ps.to_set().insert(x));
    } else {
        assert(ps[0] != x);
        lemma_prefer_before(nodes, x, ps[0], x);
        let tail = ps.drop_first();
        assert forall|i: int, j: int| 0 <= i < j < tail.len() implies prefer_before(nodes, #[trigger] tail[i], #[trigger] tail[j]) by {
            assert(tail[i] == ps[i + 1] && tail[j] == ps[j + 1]);
        }
        if tail.contains(x) {
            let k = choose|k: int| 0 <= k < tail.len() && tail[k] == x;
            assert(ps[k + 1] == x);
        }
        lemma_prefer_insert(nodes, tail, x);
        let rest = prefer_insert(nodes, tail, x);
        assert(r == seq![ps[0]] + rest);
        assert forall|i: int, j: int| 0 <= i < j < r.len() implies prefer_before(nodes, #[trigger] r[i], #[trigger] r[j]) by {
            if i == 0 {
                let y = rest[j - 1];
                assert(r[j] == y);
                assert(rest.contains(y));
                assert(rest.to_set().contains(y));
                if y != x {
                    assert(tail.to_set().contains(y));
                    let k = choose|k: int| 0 <= k < tail.len() && tail[k] == y;
                    assert(ps[k + 1] == y);
                }
            } else {
                assert(r[i] == rest[i - 1] && r[j] == rest[j - 1]);
            }
        }
        assert forall|y: usize| r.to_set().contains(y) <==> ps.to_set().insert(x).contains(y) by {
            if r.contains(y) {
                let k = choose|k: int| 0 <= k < r.len() && r[k] == y;
                if k > 0 {
                    assert(rest[k - 1] == y);
                    assert(rest.to_set().contains(y));
                    if y != x {
                        assert(tail.to_set().contains(y));
                        let t = choose|t: int| 0 <= t < tail.len() && tail[t] == y;
                        assert(ps[t + 1] == y);
                    }
                } else {
                    assert(ps[0] == y);
                }
            }
            if ps.contains(y) {
                let k = choose|k: int| 0 <= k < ps.len() && ps[k] == y;
                if k == 0 {
                    assert(r[0] == y);
                } else {
                    assert(tail[k - 1] == y);
                    assert(tail.to_set().contains(y));
                    assert(rest.to_set().contains(y));
                    let t = choose|t: int| 0 <= t < rest.len() && rest[t] == y;
                    assert(r[t + 1] == y);
                }
            }
            if y == x {
                assert(rest.to_set().contains(x));
                let t = choose|t: int| 0 <= t < rest.len() && rest[t] == x;
                assert(r[t + 1] == x);
            }
        }
        assert(r.to_set() =~= ps.to_set().insert(x));
    }
}

/// The preferred positions before `n` are exactly those of the nodes
/// before `n` answering to `name`, each once, in order of preference.
pub proof fn lemma_preferred_upto(nodes: Seq<IrNodeView>, name: Seq<char>, n: int)
    requires
        0 <= n <= nodes.len() <= usize::MAX,
    ensures
        forall|k: int|
            0 <= k < preferred_upto(nodes, name, n).len() ==> #[trigger] preferred_upto(nodes, name, n)[k] < n
                && is_candidate(nodes[preferred_upto(nodes, name, n)[k] as int], name),
        preference_sorted(nodes, preferred_upto(nodes, name, n)),
        forall|j: int|
            0 <= j < n && #[trigger] is_candidate(nodes[j], name) ==> preferred_upto(nodes, name, n).contains(j as usize),
    decreases n,
{
    if n > 0 {
        lemma_preferred_upto(nodes, name, n - 1);
        let prev = preferred_upto(nodes, name, n - 1);
        let cur = preferred_upto(nodes, name, n);
        let x = (n - 1) as usize;
        if is_candidate(nodes[n - 1], name) {
            if prev.contains(x) {
                let k = choose|k: int| 0 <= k < prev.len() && prev[k] == x;
                assert(prev[k] < n - 1);
            }
            lemma_prefer_insert(nodes, prev, x);
            assert forall|k: int| 0 <= k < cur.len() implies #[trigger] cur[k] < n && is_candidate(nodes[cur[k] as int], name) by {
                assert(cur.contains(cur[k]));
                assert(cur.to_set().contains(cur[k]));
                if cur[k] != x {
                    assert(prev.to_set().contains(cur[k]));
                    let t = choose|t: int| 0 <= t < prev.len() && prev[t] == cur[k];
                    assert(prev[t] < n - 1);
                }
            }
            assert forall|j: int| 0 <= j < n && #[trigger] is_candidate(nodes[j], name) implies cur.contains(j as usize) by {
                if j < n - 1 {
                    assert(prev.contains(j as usize));
                    assert(prev.to_set().contains(j as usize));
                }
                assert(cur.to_set().contains(j as usize));
            }
        }
    }
}

/// Whether node `a` is listed before node `b` among the candidates of a
/// name.
fn prefers(nodes: &Vec<IrNode>, a: usize, b: usize) -> (r: bool)
    requires
        a < nodes.len(),
        b < nodes.len(),
    ensures
        r == prefer_before(nodes.deep_view(), a, b),
{
    let na = &nodes[a];
    let nb = &nodes[b];
    assert(nodes.deep_view()[a as int] == na@);
    assert(nodes.deep_view()[b as int] == nb@);
    let order: i8 = if na.module.len() < nb.module.len() {
        -1
    } else if na.module.len() > nb.module.len() {
        1
    } else if na.source_order < nb.source_order {
        -1
    } else if na.source_order > nb.source_order {
        1
    } else {
        compare_str(na.key.as_str(), nb.key.as_str())
    };
    order < 0 || (order == 0 && a < b)
}

proof fn lemma_prefer_insert_at(nodes: Seq<IrNodeView>, ps: Seq<usize>, x: usize, pos: int)
    requires
        0 <= pos <= ps.len(),
        forall|k: int| 0 <= k < pos ==> !prefer_before(nodes, x, #[trigger] ps[k]),
        pos < ps.len() ==> prefer_before(nodes, x, ps[pos]),
    ensures
        prefer_insert(nodes, ps, x) == ps.insert(pos, x),
    decreases pos,
{
    if pos == 0 {
        assert(prefer_insert(nodes, ps, x) =~= ps.insert(0, x));
    } else {
        let tail = ps.drop_first();
        assert(!prefer_before(nodes, x, ps[0]));
        assert forall|k: int| 0 <= k < pos - 1 implies !prefer_before(nodes, x, #[trigger] tail[k]) by {
            assert(tail[k] == ps[k + 1]);
        }
        if pos - 1 < tail.len() {
            assert(tail[pos - 1] == ps[pos]);
        }
        lemma_prefer_insert_at(nodes, tail, x, pos - 1);
        assert(prefer_insert(nodes, ps, x) =~= ps.insert(pos, x));
    }
}

/// Puts node position `x` in its place in the preference-ordered list.
fn insert_preferred(cands: &mut Vec<usize>, x: usize, nodes: &Vec<IrNode>)
    requires
        x < nodes.len(),
        forall|k: int| 0 <= k < old(cands).len() ==> #[trigger] old(cands)@[k] < nodes.len(),
    ensures
        final(cands)@ == prefer_insert(nodes.deep_view(), old(cands)@, x),
{
    let ghost ps = cands@;
    let ghost nv = nodes.deep_view();
    let mut pos: usize = 0;
    while pos < cands.len()
        invariant
            cands@ == ps,
            nv == nodes.deep_view(),
            pos <= ps.len(),
            x < nodes.len(),
            forall|k: int| 0 <= k < ps.len() ==> #[trigger] ps[k] < nodes.len(),
            forall|k: int| 0 <= k < pos ==> !prefer_before(nv, x, #[trigger] ps[k]),
        ensures
            cands@ == ps,
            pos <= ps.len(),
            forall|k: int| 0 <= k < pos ==> !prefer_before(nv, x, #[trigger] ps[k]),
            pos < ps.len() ==> prefer_before(nv, x, ps[pos as int]),
        decreases ps.len() - pos,
    {
        if prefers(nodes, x, cands[pos]) {
            break;
        }
        pos = pos + 1;
    }
    proof {
        lemma_prefer_insert_at(nv, ps, x, pos as int);
    }
    cands.insert(pos, x);
}

/// An entry of the name index: a name and the positions of the nodes that
/// answer to it.
pub struct NameEntry {
    /// Serialized or original name.
    pub name: String,
    /// Positions of the nodes answering to `name`, most preferred first.
    pub candidates: Vec<usize>,
}

/// View of a [`NameEntry`].
pub struct NameEntryView {
    pub name: Seq<char>,
    pub candidates: Seq<usize>,
}

impl View for NameEntry {
    type V = NameEntryView;

    open spec fn view(&self) -> NameEntryView {
        NameEntryView { name: self.name@, candidates: self.candidates@ }
    }
}

impl DeepView for NameEntry {
    type V = NameEntryView;

    open spec fn deep_view(&self) -> NameEntryView {
        self@
    }
}

/// The index lists each name at most once, with its exact candidates (at
/// least one) in order of preference, and
/// lists every serialized and every original name of the nodes.
pub open spec fn index_ok(index: Seq<NameEntryView>, nodes: Seq<IrNodeView>) -> bool {
    &&& forall|e: int| 0 <= e < index.len() ==> #[trigger] index[e].candidates == preferred(nodes, index[e].name)
        && index[e].candidates.len() > 0
    &&& forall|e1: int, e2: int| 0 <= e1 < e2 < index.len() ==> #[trigger] index[e1].name != #[trigger] index[e2].name
    &&& forall|j: int| 0 <= j < nodes.len() ==> #[trigger] names_indexed(index, nodes[j])
}

/// The index has an entry for `name`.
pub open spec fn has_entry(index: Seq<NameEntryView>, name: Seq<char>) -> bool {
    exists|e: int| 0 <= e < index.len() && #[trigger] index[e].name == name
}

/// Both names of `node` have an entry.
pub open spec fn names_indexed(index: Seq<NameEntryView>, node: IrNodeView) -> bool {
    has_entry(index, node.renamed) && has_entry(index, node.original)
}

fn find_entry(index: &Vec<NameEntry>, name: &String) -> (r: Option<usize>)
    ensures
        match r {
            Some(e) => e < index.len() && index[e as int].name@ == name@,
            None => forall|e: int| 0 <= e < index.len() ==> #[trigger] index[e].name@ != name@,
        },
{
    let mut e: usize = 0;
    while e < index.len()
        invariant
            e <= index.len(),
            forall|f: int| 0 <= f < e ==> #[trigger] index[f].name@ != name@,
        decreases index.len() - e,
    {
        if index[e].name == *name {
            return Some(e);
        }
        e = e + 1;
    }
    None
}

proof fn lemma_preferred_extend(nodes: Seq<IrNodeView>, name: Seq<char>, i: int)
    requires
        0 <= i < nodes.len(),
    ensures
        preferred_upto(nodes, name, i + 1) == if is_candidate(nodes[i], name) {
            prefer_insert(nodes, preferred_upto(nodes, name, i), i as usize)
        } else {
            preferred_upto(nodes, name, i)
        },
{
}

/// How many leading nodes the entry for `name` accounts for while node `i`
/// is being recorded under the names in `done`.
pub open spec fn indexed_upto(name: Seq<char>, i: int, done: Set<Seq<char>>) -> int {
    if done.contains(name) {
        i + 1
    } else {
        i
    }
}

/// Records node `i` under `name`, one of its names not yet recorded.
fn index_name(
    index: &mut Vec<NameEntry>,
    name: &String,
    i: usize,
    node_list: &Vec<IrNode>,
    Ghost(nodes): Ghost<Seq<IrNodeView>>,
    Ghost(done): Ghost<Set<Seq<char>>>,
)
    requires
        nodes == node_list.deep_view(),
        0 <= i < nodes.len() <= usize::MAX,
        is_candidate(nodes[i as int], name@),
        !done.contains(name@),
        forall|e: int| 0 <= e < old(index).len() ==> #[trigger] old(index)[e].candidates@ == preferred_upto(
            nodes,
            old(index)[e].name@,
            indexed_upto(old(index)[e].name@, i as int, done),
        ),
        forall|e1: int, e2: int| 0 <= e1 < e2 < old(index).len() ==> #[trigger] old(index)[e1].name@ != #[trigger] old(index)[e2].name@,
        forall|j: int| 0 <= j < i ==> #[trigger] names_indexed(old(index).deep_view(), nodes[j]),
        forall|e: int| 0 <= e < old(index).len() ==> #[trigger] old(index)[e].candidates.len() > 0,
    ensures
        forall|e: int| 0 <= e < final(index).len() ==> #[trigger] final(index)[e].candidates.len() > 0,
        forall|e: int| 0 <= e < final(index).len() ==> #[trigger] final(index)[e].candidates@ == preferred_upto(
            nodes,
            final(index)[e].name@,
            indexed_upto(final(index)[e].name@, i as int, done.insert(name@)),
        ),
        forall|e1: int, e2: int| 0 <= e1 < e2 < final(index).len() ==> #[trigger] final(index)[e1].name@ != #[trigger] final(index)[e2].name@,
        forall|j: int| 0 <= j < i ==> #[trigger] names_indexed(final(index).deep_view(), nodes[j]),
        has_entry(final(index).deep_view(), name@),
        forall|x: Seq<char>| #[trigger] has_entry(old(index).deep_view(), x) ==> has_entry(final(index).deep_view(), x),
{
    let ghost old_index = index.deep_view();
    let ghost done2 = done.insert(name@);
    proof {
        lemma_preferred_extend(nodes, name@, i as int);
    }
    match find_entry(index, name) {
        Some(e) => {
            proof {
                assert(old_index[e as int] == index[e as int]@);
                lemma_preferred_upto(nodes, name@, i as int);
            }
            let mut entry = index.remove(e);
            insert_preferred(&mut entry.candidates, i, node_list);
            index.insert(e, entry);
            proof {
                let nv = index.deep_view();
                assert forall|f: int| 0 <= f < index.len() implies #[trigger] index[f].name@ == old_index[f].name by {
                    assert(nv[f] == index[f]@);
                }
                assert forall|f: int| 0 <= f < index.len() && f != e implies #[trigger] index[f].candidates@ == old_index[f].candidates by {
                    assert(nv[f] == index[f]@);
                }
                assert forall|f: int| 0 <= f < index.len() implies #[trigger] index[f].candidates@ == preferred_upto(
                    nodes,
                    index[f].name@,
                    indexed_upto(index[f].name@, i as int, done2),
                ) by {
                    if f != e {
                        assert(old_index[f].name != name@);
                    }
                }
                assert(nv[e as int].name == name@);
                assert forall|x: Seq<char>| #[trigger] has_entry(old_index, x) implies has_entry(nv, x) by {
                    let f = choose|f: int| 0 <= f < old_index.len() && #[trigger] old_index[f].name == x;
                    assert(nv[f].name == x);
                }
                assert forall|j: int| 0 <= j < i implies #[trigger] names_indexed(nv, nodes[j]) by {
                    assert(names_indexed(old_index, nodes[j]));
                }
            }
        },
        None => {
            let mut candidates: Vec<usize> = Vec::new();
            candidates.push(i);
            proof {
                assert forall|j: int| 0 <= j < i implies !#[trigger] is_candidate(nodes[j], name@) by {
                    assert(names_indexed(old_index, nodes[j]));
                    if is_candidate(nodes[j], name@) {
                        assert(has_entry(old_index, name@));
                        let e1 = choose|e1: int| 0 <= e1 < old_index.len() && #[trigger] old_index[e1].name == name@;
                        assert(index[e1].name@ == name@);
                    }
                }
                lemma_preferred_upto(nodes, name@, i as int);
                if preferred_upto(nodes, name@, i as int).len() > 0 {
                    let j = preferred_upto(nodes, name@, i as int)[0];
                    assert(is_candidate(nodes[j as int], name@));
                }
                assert(candidates@ =~= preferred_upto(nodes, name@, i as int + 1));
            }
            let entry = NameEntry { name: name.clone(), candidates };
            index.push(entry);
            proof {
                let nv = index.deep_view();
                assert forall|f: int| 0 <= f < old_index.len() implies #[trigger] index[f]@ == old_index[f] by {
                    assert(nv[f] == index[f]@);
                }
                assert forall|f: int| 0 <= f < index.len() implies #[trigger] index[f].candidates@ == preferred_upto(
                    nodes,
                    index[f].name@,
                    indexed_upto(index[f].name@, i as int, done2),
                ) by {
                    if f < old_index.len() {
                        assert(old_index[f].name != name@);
                    }
                }
                assert(nv[old_index.len() as int].name == name@);
                assert forall|x: Seq<char>| #[trigger] has_entry(old_index, x) implies has_entry(nv, x) by {
                    let f = choose|f: int| 0 <= f < old_index.len() && #[trigger] old_index[f].name == x;
                    assert(nv[f].name == x);
                }
                assert forall|j: int| 0 <= j < i implies #[trigger] names_indexed(nv, nodes[j]) by {
                    assert(names_indexed(old_index, nodes[j]));
                }
            }
        },
    }
}

/// Indexes the nodes by serialized name and by original name; each name
/// lists its candidates most preferred first.
pub fn index_by_name(nodes: &Vec<IrNode>) -> (index: Vec<NameEntry>)
    ensures
        index_ok(index.deep_view(), nodes.deep_view()),
{
    let ghost nv = nodes.deep_view();
    let mut index: Vec<NameEntry> = Vec::new();
    let mut i: usize = 0;
    while i < nodes.len()
        invariant
            i <= nodes.len(),
            nv == nodes.deep_view(),
            forall|e: int| 0 <= e < index.len() ==> #[trigger] index[e].candidates@ == preferred_upto(nv, index[e].name@, i as int),
            forall|e1: int, e2: int| 0 <= e1 < e2 < index.len() ==> #[trigger] index[e1].name@ != #[trigger] index[e2].name@,
            forall|j: int| 0 <= j < i ==> #[trigger] names_indexed(index.deep_view(), nv[j]),
            forall|e: int| 0 <= e < index.len() ==> #[trigger] index[e].candidates.len() > 0,
        decreases nodes.len() - i,
    {
        let node = &nodes[i];
        assert(nv[i as int] == node@);
        let ghost none: Set<Seq<char>> = Set::empty();
        let ghost one: Set<Seq<char>> = none.insert(node.renamed@);
        index_name(&mut index, &node.renamed, i, nodes, Ghost(nv), Ghost(none));
        let ghost two: Set<Seq<char>> = one.insert(node.original@);
        let ghost done: Set<Seq<char>> = if node.renamed@ == node.original@ { one } else { two };
        if node.renamed != node.original {
            index_name(&mut index, &node.original, i, nodes, Ghost(nv), Ghost(one));
            assert(node.renamed@ != node.original@);
            assert(done == one.insert(node.original@));
            assert(forall|e: int| 0 <= e < index.len() ==> #[trigger] index[e].candidates@ == preferred_upto(nv, index[e].name@, indexed_upto(index[e].name@, i as int, done)));
        } else {
            assert(node.renamed@ == node.original@);
            assert(done == none.insert(node.renamed@));
            assert(forall|e: int| 0 <= e < index.len() ==> #[trigger] index[e].candidates@ == preferred_upto(nv, index[e].name@, indexed_upto(index[e].name@, i as int, done)));
        }
        proof {
            assert forall|e: int| 0 <= e < index.len() implies #[trigger] index[e].candidates@ == preferred_upto(nv, index[e].name@, i as int + 1) by {
                let name = index[e].name@;
                assert(index[e].candidates@ == preferred_upto(nv, name, indexed_upto(name, i as int, done)));
                if !done.contains(name) {
                    assert(!is_candidate(nv[i as int], name));
                    lemma_preferred_extend(nv, name, i as int);
                }
            }
            let iv = index.deep_view();
            assert(names_indexed(iv, nv[i as int]));
        }
        i = i + 1;
    }
    proof {
        let iv = index.deep_view();
        assert forall|e: int| 0 <= e < iv.len() implies #[trigger] iv[e].candidates == preferred(nv, iv[e].name)
            && iv[e].candidates.len() > 0 by {
            assert(iv[e] == index[e]@);
            assert(index[e].candidates.len() > 0);
        }
        assert forall|e1: int, e2: int| 0 <= e1 < e2 < iv.len() implies #[trigger] iv[e1].name != #[trigger] iv[e2].name by {
            assert(iv[e1] == index[e1]@);
            assert(iv[e2] == index[e2]@);
        }
    }
    index
}

/// The candidates among `cands` declared in crate `krate`, in order.
pub open spec fn same_crate(nodes: Seq<IrNodeView>, cands: Seq<usize>, krate: Seq<char>) -> Seq<usize>
    decreases cands.len(),
{
    if cands.len() == 0 {
        Seq::empty()
    } else if nodes[cands.last() as int].crate_name == krate {
        same_crate(nodes, cands.drop_last(), krate).push(cands.last())
    } else {
        same_crate(nodes, cands.drop_last(), krate)
    }
}

proof fn lemma_same_crate_bound(nodes: Seq<IrNodeView>, cands: Seq<usize>, krate: Seq<char>, bound: int)
    requires
        forall|k: int| 0 <= k < cands.len() ==> #[trigger] cands[k] < bound,
    ensures
        forall|k: int| 0 <= k < same_crate(nodes, cands, krate).len() ==> #[trigger] same_crate(nodes, cands, krate)[k] < bound,
    decreases cands.len(),
{
    if cands.len() > 0 {
        assert forall|k: int| 0 <= k < cands.drop_last().len() implies #[trigger] cands.drop_last()[k] < bound by {
            assert(cands.drop_last()[k] == cands[k]);
        }
        assert(cands.last() == cands[cands.len() - 1]);
        lemma_same_crate_bound(nodes, cands.drop_last(), krate, bound);
        let prev = same_crate(nodes, cands.drop_last(), krate);
        let cur = same_crate(nodes, cands, krate);
        assert forall|k: int| 0 <= k < cur.len() implies #[trigger] cur[k] < bound by {
            if k < prev.len() {
                assert(cur[k] == prev[k]);
            }
        }
    }
}

/// The node a reference by `name` made from crate `krate` resolves to: the
/// only candidate of that crate; none when that crate has several; with no
/// candidate in that crate, the only candidate, if there is exactly one.
pub open spec fn resolve_spec(nodes: Seq<IrNodeView>, krate: Seq<char>, name: Seq<char>) -> Option<usize> {
    let cands = preferred(nodes, name);
    let same = same_crate(nodes, cands, krate);
    if same.len() == 1 {
        Some(same[0])
    } else if same.len() > 1 {
        None
    } else if cands.len() == 1 {
        Some(cands[0])
    } else {
        None
    }
}

/// A resolved reference names a node.
pub proof fn lemma_resolve_in_range(nodes: Seq<IrNodeView>, krate: Seq<char>, name: Seq<char>)
    requires
        nodes.len() <= usize::MAX,
    ensures
        resolve_spec(nodes, krate, name) matches Some(t) ==> t < nodes.len(),
{
    lemma_preferred_upto(nodes, name, nodes.len() as int);
    lemma_same_crate_bound(nodes, preferred(nodes, name), krate, nodes.len() as int);
}

/// Resolves a reference by `name` made from `referrer`, to the position of
/// the node it names.
pub fn resolve_node(referrer: &IrNode, name: &String, by_name: &Vec<NameEntry>, nodes: &Vec<IrNode>) -> (r: Option<usize>)
    requires
        index_ok(by_name.deep_view(), nodes.deep_view()),
    ensures
        r == resolve_spec(nodes.deep_view(), referrer.crate_name@, name@),
        r matches Some(t) ==> t < nodes.len(),
{
    let ghost nv = nodes.deep_view();
    let ghost krate = referrer.crate_name@;
    proof {
        assert(nv.len() == nodes.len());
        lemma_preferred_upto(nv, name@, nv.len() as int);
        lemma_resolve_in_range(nv, krate, name@);
    }
    match find_entry(by_name, name) {
        None => {
            proof {
                let cands = preferred(nv, name@);
                if cands.len() > 0 {
                    let j = cands[0] as int;
                    assert(is_candidate(nv[j], name@));
                    assert(names_indexed(by_name.deep_view(), nv[j]));
                    assert(has_entry(by_name.deep_view(), name@));
                    let e = choose|e: int| 0 <= e < by_name.deep_view().len() && #[trigger] by_name.deep_view()[e].name == name@;
                    assert(by_name.deep_view()[e] == by_name[e]@);
                    assert(false);
                }
            }
            None
        },
        Some(e) => {
            let cands = &by_name[e].candidates;
            assert(by_name.deep_view()[e as int] == by_name[e as int]@);
            assert(by_name.deep_view()[e as int].candidates == preferred(nv, by_name.deep_view()[e as int].name));
            assert(cands@ == preferred(nv, name@));
            let mut same: Vec<usize> = Vec::new();
            let mut k: usize = 0;
            assert(cands@.take(0) =~= Seq::<usize>::empty());
            while k < cands.len()
                invariant
                    k <= cands.len(),
                    nv == nodes.deep_view(),
                    krate == referrer.crate_name@,
                    cands@ == preferred(nv, name@),
                    forall|j: int| 0 <= j < cands.len() ==> #[trigger] cands@[j] < nv.len(),
                    same@ == same_crate(nv, cands@.take(k as int), krate),
                decreases cands.len() - k,
            {
                let c = cands[k];
                assert(cands@.take(k + 1).drop_last() =~= cands@.take(k as int));
                assert(cands@.take(k + 1).last() == c);
                assert(nv[c as int] == nodes[c as int]@);
                if nodes[c].crate_name == referrer.crate_name {
                    same.push(c);
                }
                k = k + 1;
            }
            assert(cands@.take(cands.len() as int) =~= cands@);
            if same.len() == 1 {
                Some(same[0])
            } else if same.len() > 1 {
                None
            } else if cands.len() == 1 {
                Some(cands[0])
            } else {
                None
            }
        },
    }
}

/// The edge from `from` to `to` collected at `site`.
pub open spec fn edge_of(from: IrNodeView, to: IrNodeView, site: IrEdgeSiteView, via_rename_reconcile: bool) -> IrEdgeView {
    IrEdgeView {
        from: from.key,
        from_module: from.module,
        to: to.key,
        to_module: to.module,
        to_original: to.original,
        to_renamed: to.renamed,
        site,
        via_rename_reconcile,
    }
}

/// Adds the edge from `from` to `to` to the sorted edge set (self edges
/// included, so self-recursive types form components).
pub fn push_edge(edges: &mut Vec<IrEdge>, from: &IrNode, to: &IrNode, site: IrEdgeSite, via_rename_reconcile: bool)
    requires
        edges_sorted(old(edges).deep_view()),
    ensures
        edges_sorted(final(edges).deep_view()),
        final(edges).deep_view().to_set() == old(edges).deep_view().to_set().insert(
            edge_of(from@, to@, site@, via_rename_reconcile),
        ),
{
    let edge = IrEdge {
        from: from.key.clone(),
        from_module: clone_strings(&from.module),
        to: to.key.clone(),
        to_module: clone_strings(&to.module),
        to_original: to.original.clone(),
        to_renamed: to.renamed.clone(),
        site,
        via_rename_reconcile,
    };
    insert_edge(edges, edge);
}

/// `name` is one of the generic parameters declared on `node`.
pub open spec fn is_generic_name(node: IrNodeView, name: Seq<char>) -> bool {
    exists|k: int| 0 <= k < node.generic_params.len() && #[trigger] node.generic_params[k].name == name
}

fn declares_generic(node: &IrNode, name: &String) -> (r: bool)
    ensures
        r == is_generic_name(node@, name@),
{
    let mut k: usize = 0;
    while k < node.generic_params.len()
        invariant
            k <= node.generic_params.len(),
            forall|j: int| 0 <= j < k ==> #[trigger] node.generic_params@[j].name@ != name@,
        decreases node.generic_params.len() - k,
    {
        assert(node@.generic_params[k as int] == node.generic_params@[k as int]@);
        if node.generic_params[k].name == *name {
            assert(node@.generic_params[k as int].name == name@);
            return true;
        }
        k = k + 1;
    }
    proof {
        if is_generic_name(node@, name@) {
            let j = choose|j: int| 0 <= j < node@.generic_params.len() && #[trigger] node@.generic_params[j].name == name@;
            assert(node@.generic_params[j] == node.generic_params@[j]@);
        }
    }
    false
}

/// The edges the references `refs` of `from`, collected at `site`, give:
/// one per reference that is not a generic parameter of `from` and resolves.
pub open spec fn ref_edges(nodes: Seq<IrNodeView>, from: IrNodeView, refs: Seq<TypeRefView>, site: IrEdgeSiteView) -> Set<IrEdgeView>
    decreases refs.len(),
{
    if refs.len() == 0 {
        Set::empty()
    } else {
        let prev = ref_edges(nodes, from, refs.drop_last(), site);
        let r = refs.last();
        if is_generic_name(from, r.name) {
            prev
        } else {
            match resolve_spec(nodes, from.crate_name, r.name) {
                Some(t) => prev.insert(edge_of(from, nodes[t as int], site, r.via_rename_reconcile)),
                None => prev,
            }
        }
    }
}

/// Both ends of every edge of `edges` are node keys.
pub open spec fn ends_are_nodes(edges: Set<IrEdgeView>, nodes: Seq<IrNodeView>) -> bool {
    forall|e: IrEdgeView| #[trigger] edges.contains(e) ==> has_key(nodes, e.from) && has_key(nodes, e.to)
}

/// Adds the edges of the references `refs` of `from` collected at `site`.
pub fn resolve_and_push(
    edges: &mut Vec<IrEdge>,
    from: &IrNode,
    refs: &Vec<TypeRef>,
    site: IrEdgeSite,
    by_name: &Vec<NameEntry>,
    nodes: &Vec<IrNode>,
)
    requires
        edges_sorted(old(edges).deep_view()),
        index_ok(by_name.deep_view(), nodes.deep_view()),
    ensures
        edges_sorted(final(edges).deep_view()),
        final(edges).deep_view().to_set() == old(edges).deep_view().to_set().union(
            ref_edges(nodes.deep_view(), from@, refs.deep_view(), site@),
        ),
        has_key(nodes.deep_view(), from.key@) && ends_are_nodes(old(edges).deep_view().to_set(), nodes.deep_view())
            ==> ends_are_nodes(final(edges).deep_view().to_set(), nodes.deep_view()),
{
    let ghost nv = nodes.deep_view();
    let ghost start = edges.deep_view().to_set();
    let ghost rv = refs.deep_view();
    let mut k: usize = 0;
    assert(rv.take(0) =~= Seq::<TypeRefView>::empty());
    assert(start.union(Set::empty()) =~= start);
    while k < refs.len()
        invariant
            k <= refs.len(),
            nv == nodes.deep_view(),
            rv == refs.deep_view(),
            index_ok(by_name.deep_view(), nv),
            edges_sorted(edges.deep_view()),
            edges.deep_view().to_set() == start.union(ref_edges(nv, from@, rv.take(k as int), site@)),
            has_key(nv, from.key@) && ends_are_nodes(start, nv) ==> ends_are_nodes(edges.deep_view().to_set(), nv),
        decreases refs.len() - k,
    {
        let reference = &refs[k];
        let ghost before = edges.deep_view().to_set();
        assert(rv.take(k + 1).drop_last() =~= rv.take(k as int));
        assert(rv.take(k + 1).last() == rv[k as int]);
        assert(rv[k as int] == reference@);
        if !declares_generic(from, &reference.name) {
            match resolve_node(from, &reference.name, by_name, nodes) {
                Some(t) => {
                    let target = &nodes[t];
                    assert(nv[t as int] == target@);
                    let site_copy = site.duplicate();
                    push_edge(edges, from, target, site_copy, reference.via_rename_reconcile);
                    proof {
                        let e = edge_of(from@, target@, site@, reference.via_rename_reconcile);
                        assert(edges.deep_view().to_set() =~= start.union(ref_edges(nv, from@, rv.take(k + 1), site@)));
                        if has_key(nv, from.key@) && ends_are_nodes(start, nv) {
                            assert(has_key(nv, e.to));
                            assert forall|x: IrEdgeView| #[trigger] edges.deep_view().to_set().contains(x) implies has_key(nv, x.from) && has_key(nv, x.to) by {
                                if x != e {
                                    assert(before.contains(x));
                                }
                            }
                        }
                    }
                },
                None => {
                    assert(edges.deep_view().to_set() =~= start.union(ref_edges(nv, from@, rv.take(k + 1), site@)));
                },
            }
        } else {
            assert(edges.deep_view().to_set() =~= start.union(ref_edges(nv, from@, rv.take(k + 1), site@)));
        }
        k = k + 1;
    }
    assert(rv.take(refs.len() as int) =~= rv);
}

/// The edges of a type alias: those of its right-hand side.
pub open spec fn alias_item_edges(nodes: Seq<IrNodeView>, renamed: Set<Seq<char>>, krate: Seq<char>, item: RustTypeAlias) -> Set<IrEdgeView> {
    match key_position(nodes, key_of(krate, item.module.deep_view(), item.id.original@)) {
        Some(i) => ref_edges(nodes, nodes[i], type_refs(item.ty, renamed), IrEdgeSiteView::AliasRhs),
        None => Set::empty(),
    }
}

/// The edges of the first `n` type aliases.
pub open spec fn aliases_edges(nodes: Seq<IrNodeView>, renamed: Set<Seq<char>>, krate: Seq<char>, items: Seq<RustTypeAlias>, n: int) -> Set<IrEdgeView>
    decreases n,
{
    if n <= 0 {
        Set::empty()
    } else {
        aliases_edges(nodes, renamed, krate, items, n - 1).union(alias_item_edges(nodes, renamed, krate, items[n - 1]))
    }
}

/// The edges of the first `n` fields of `from`, each collected at its field.
pub open spec fn fields_edges(nodes: Seq<IrNodeView>, renamed: Set<Seq<char>>, from: IrNodeView, fields: Seq<RustField>, n: int) -> Set<IrEdgeView>
    decreases n,
{
    if n <= 0 {
        Set::empty()
    } else {
        fields_edges(nodes, renamed, from, fields, n - 1).union(
            ref_edges(nodes, from, type_refs(fields[n - 1].ty, renamed), IrEdgeSiteView::Field(fields[n - 1].id.renamed@)),
        )
    }
}

/// The edges of a struct: those of its fields.
pub open spec fn struct_item_edges(nodes: Seq<IrNodeView>, renamed: Set<Seq<char>>, krate: Seq<char>, item: RustStruct) -> Set<IrEdgeView> {
    match key_position(nodes, key_of(krate, item.module.deep_view(), item.id.original@)) {
        Some(i) => fields_edges(nodes, renamed, nodes[i], item.fields@, item.fields@.len() as int),
        None => Set::empty(),
    }
}

/// The edges of the first `n` structs.
pub open spec fn structs_edges(nodes: Seq<IrNodeView>, renamed: Set<Seq<char>>, krate: Seq<char>, items: Seq<RustStruct>, n: int) -> Set<IrEdgeView>
    decreases n,
{
    if n <= 0 {
        Set::empty()
    } else {
        structs_edges(nodes, renamed, krate, items, n - 1).union(struct_item_edges(nodes, renamed, krate, items[n - 1]))
    }
}

/// The edges of the first `n` variants of `from`: those of the payloads of
/// its tuple variants (anonymous-struct payloads become inline helper types
/// and give no edge).
pub open spec fn variants_edges(nodes: Seq<IrNodeView>, renamed: Set<Seq<char>>, from: IrNodeView, variants: Seq<RustEnumVariant>, n: int) -> Set<IrEdgeView>
    decreases n,
{
    if n <= 0 {
        Set::empty()
    } else {
        variants_edges(nodes, renamed, from, variants, n - 1).union(
            match variants[n - 1] {
                RustEnumVariant::Tuple { ty, shared } => ref_edges(
                    nodes,
                    from,
                    type_refs(ty, renamed),
                    IrEdgeSiteView::TupleVariant(shared.id.renamed@),
                ),
                _ => Set::empty(),
            },
        )
    }
}

/// The edges of an enum: those of the variants of an algebraic enum.
pub open spec fn enum_item_edges(nodes: Seq<IrNodeView>, renamed: Set<Seq<char>>, krate: Seq<char>, item: RustEnum) -> Set<IrEdgeView> {
    let shared = item.spec_shared();
    match key_position(nodes, key_of(krate, shared.module.deep_view(), shared.id.original@)) {
        Some(i) => match item {
            RustEnum::Algebraic { .. } => variants_edges(nodes, renamed, nodes[i], shared.variants@, shared.variants@.len() as int),
            RustEnum::Unit(_) => Set::empty(),
        },
        None => Set::empty(),
    }
}

/// The edges of the first `n` enums.
pub open spec fn enums_edges(nodes: Seq<IrNodeView>, renamed: Set<Seq<char>>, krate: Seq<char>, items: Seq<RustEnum>, n: int) -> Set<IrEdgeView>
    decreases n,
{
    if n <= 0 {
        Set::empty()
    } else {
        enums_edges(nodes, renamed, krate, items, n - 1).union(enum_item_edges(nodes, renamed, krate, items[n - 1]))
    }
}

/// The edges of a const: those of its type.
pub open spec fn const_item_edges(nodes: Seq<IrNodeView>, renamed: Set<Seq<char>>, krate: Seq<char>, item: RustConst) -> Set<IrEdgeView> {
    match key_position(nodes, key_of(krate, item.module.deep_view(), item.id.original@)) {
        Some(i) => ref_edges(nodes, nodes[i], type_refs(item.ty, renamed), IrEdgeSiteView::ConstType),
        None => Set::empty(),
    }
}

/// The edges of the first `n` consts.
pub open spec fn consts_edges(nodes: Seq<IrNodeView>, renamed: Set<Seq<char>>, krate: Seq<char>, items: Seq<RustConst>, n: int) -> Set<IrEdgeView>
    decreases n,
{
    if n <= 0 {
        Set::empty()
    } else {
        consts_edges(nodes, renamed, krate, items, n - 1).union(const_item_edges(nodes, renamed, krate, items[n - 1]))
    }
}

/// The edges of the declarations of one crate.
pub open spec fn crate_edges(nodes: Seq<IrNodeView>, renamed: Set<Seq<char>>, krate: Seq<char>, data: ParsedData) -> Set<IrEdgeView> {
    aliases_edges(nodes, renamed, krate, data.aliases@, data.aliases@.len() as int).union(
        structs_edges(nodes, renamed, krate, data.structs@, data.structs@.len() as int),
    ).union(enums_edges(nodes, renamed, krate, data.enums@, data.enums@.len() as int)).union(
        consts_edges(nodes, renamed, krate, data.consts@, data.consts@.len() as int),
    )
}

/// The edges of the declarations of the first `n` crates.
pub open spec fn all_edges(nodes: Seq<IrNodeView>, renamed: Set<Seq<char>>, crates: Seq<(String, ParsedData)>, n: int) -> Set<IrEdgeView>
    decreases n,
{
    if n <= 0 {
        Set::empty()
    } else {
        all_edges(nodes, renamed, crates, n - 1).union(crate_edges(nodes, renamed, crates[n - 1].0@, crates[n - 1].1))
    }
}

/// What holds of the edge list while edges are collected.
pub open spec fn collecting(edges: Seq<IrEdgeView>, nodes: Seq<IrNodeView>, by_name: Seq<NameEntryView>) -> bool {
    &&& edges_sorted(edges)
    &&& keys_sorted(nodes)
    &&& index_ok(by_name, nodes)
    &&& ends_are_nodes(edges.to_set(), nodes)
}

fn collect_alias_edges(
    edges: &mut Vec<IrEdge>,
    krate: &String,
    items: &Vec<RustTypeAlias>,
    nodes: &Vec<IrNode>,
    by_name: &Vec<NameEntry>,
    renamed_names: &Vec<String>,
)
    requires
        collecting(old(edges).deep_view(), nodes.deep_view(), by_name.deep_view()),
    ensures
        collecting(final(edges).deep_view(), nodes.deep_view(), by_name.deep_view()),
        final(edges).deep_view().to_set() == old(edges).deep_view().to_set().union(
            aliases_edges(nodes.deep_view(), renamed_names.deep_view().to_set(), krate@, items@, items.len() as int),
        ),
{
    let ghost nv = nodes.deep_view();
    let ghost renamed = renamed_names.deep_view().to_set();
    let ghost start = edges.deep_view().to_set();
    let mut k: usize = 0;
    assert(start.union(Set::empty()) =~= start);
    while k < items.len()
        invariant
            k <= items.len(),
            nv == nodes.deep_view(),
            renamed == renamed_names.deep_view().to_set(),
            collecting(edges.deep_view(), nv, by_name.deep_view()),
            edges.deep_view().to_set() == start.union(aliases_edges(nv, renamed, krate@, items@, k as int)),
        decreases items.len() - k,
    {
        let item = &items[k];
        let key = make_key(krate.as_str(), &item.module, item.id.original.as_str());
        let ghost before = edges.deep_view().to_set();
        match find_node(nodes, &key) {
            Some(i) => {
                let from = &nodes[i];
                assert(nv[i as int] == from@);
                let mut refs: Vec<TypeRef> = Vec::new();
                collect_type_refs(&item.ty, &mut refs, renamed_names);
                assert(refs.deep_view() =~= type_refs(item.ty, renamed));
                assert(has_key(nv, from.key@));
                resolve_and_push(edges, from, &refs, IrEdgeSite::AliasRhs, by_name, nodes);
            },
            None => {},
        }
        assert(edges.deep_view().to_set() =~= start.union(aliases_edges(nv, renamed, krate@, items@, k + 1)));
        k = k + 1;
    }
}

fn collect_struct_edges(
    edges: &mut Vec<IrEdge>,
    krate: &String,
    items: &Vec<RustStruct>,
    nodes: &Vec<IrNode>,
    by_name: &Vec<NameEntry>,
    renamed_names: &Vec<String>,
)
    requires
        collecting(old(edges).deep_view(), nodes.deep_view(), by_name.deep_view()),
    ensures
        collecting(final(edges).deep_view(), nodes.deep_view(), by_name.deep_view()),
        final(edges).deep_view().to_set() == old(edges).deep_view().to_set().union(
            structs_edges(nodes.deep_view(), renamed_names.deep_view().to_set(), krate@, items@, items.len() as int),
        ),
{
    let ghost nv = nodes.deep_view();
    let ghost renamed = renamed_names.deep_view().to_set();
    let ghost start = edges.deep_view().to_set();
    let mut k: usize = 0;
    assert(start.union(Set::empty()) =~= start);
    while k < items.len()
        invariant
            k <= items.len(),
            nv == nodes.deep_view(),
            renamed == renamed_names.deep_view().to_set(),
            collecting(edges.deep_view(), nv, by_name.deep_view()),
            edges.deep_view().to_set() == start.union(structs_edges(nv, renamed, krate@, items@, k as int)),
        decreases items.len() - k,
    {
        let item = &items[k];
        let key = make_key(krate.as_str(), &item.module, item.id.original.as_str());
        let ghost before = edges.deep_view().to_set();
        match find_node(nodes, &key) {
            Some(i) => {
                let from = &nodes[i];
                assert(nv[i as int] == from@);
                assert(has_key(nv, from.key@));
                let mut f: usize = 0;
                assert(before.union(Set::empty()) =~= before);
                while f < item.fields.len()
                    invariant
                        f <= item.fields.len(),
                        nv == nodes.deep_view(),
                        from@ == nv[i as int],
                        has_key(nv, from.key@),
                        renamed == renamed_names.deep_view().to_set(),
                        collecting(edges.deep_view(), nv, by_name.deep_view()),
                        edges.deep_view().to_set() == before.union(fields_edges(nv, renamed, from@, item.fields@, f as int)),
                    decreases item.fields.len() - f,
                {
                    let field = &item.fields[f];
                    let mut refs: Vec<TypeRef> = Vec::new();
                    collect_type_refs(&field.ty, &mut refs, renamed_names);
                    assert(refs.deep_view() =~= type_refs(field.ty, renamed));
                    let site = IrEdgeSite::Field(field.id.renamed.clone());
                    assert(site@ == IrEdgeSiteView::Field(field.id.renamed@));
                    resolve_and_push(edges, from, &refs, site, by_name, nodes);
                    assert(edges.deep_view().to_set() =~= before.union(fields_edges(nv, renamed, from@, item.fields@, f + 1)));
                    f = f + 1;
                }
            },
            None => {},
        }
        assert(edges.deep_view().to_set() =~= start.union(structs_edges(nv, renamed, krate@, items@, k + 1)));
        k = k + 1;
    }
}

fn collect_enum_edges(
    edges: &mut Vec<IrEdge>,
    krate: &String,
    items: &Vec<RustEnum>,
    nodes: &Vec<IrNode>,
    by_name: &Vec<NameEntry>,
    renamed_names: &Vec<String>,
)
    requires
        collecting(old(edges).deep_view(), nodes.deep_view(), by_name.deep_view()),
    ensures
        collecting(final(edges).deep_view(), nodes.deep_view(), by_name.deep_view()),
        final(edges).deep_view().to_set() == old(edges).deep_view().to_set().union(
            enums_edges(nodes.deep_view(), renamed_names.deep_view().to_set(), krate@, items@, items.len() as int),
        ),
{
    let ghost nv = nodes.deep_view();
    let ghost renamed = renamed_names.deep_view().to_set();
    let ghost start = edges.deep_view().to_set();
    let mut k: usize = 0;
    assert(start.union(Set::empty()) =~= start);
    while k < items.len()
        invariant
            k <= items.len(),
            nv == nodes.deep_view(),
            renamed == renamed_names.deep_view().to_set(),
            collecting(edges.deep_view(), nv, by_name.deep_view()),
            edges.deep_view().to_set() == start.union(enums_edges(nv, renamed, krate@, items@, k as int)),
        decreases items.len() - k,
    {
        let item = &items[k];
        let shared = item.shared();
        let key = make_key(krate.as_str(), &shared.module, shared.id.original.as_str());
        let ghost before = edges.deep_view().to_set();
        match find_node(nodes, &key) {
            Some(i) => {
                let from = &nodes[i];
                assert(nv[i as int] == from@);
                assert(has_key(nv, from.key@));
                if let RustEnum::Algebraic { .. } = item {
                    let mut v: usize = 0;
                    assert(before.union(Set::empty()) =~= before);
                    while v < shared.variants.len()
                        invariant
                            v <= shared.variants.len(),
                            nv == nodes.deep_view(),
                            from@ == nv[i as int],
                            has_key(nv, from.key@),
                            renamed == renamed_names.deep_view().to_set(),
                            collecting(edges.deep_view(), nv, by_name.deep_view()),
                            edges.deep_view().to_set() == before.union(variants_edges(nv, renamed, from@, shared.variants@, v as int)),
                        decreases shared.variants.len() - v,
                    {
                        let variant = &shared.variants[v];
                        if let RustEnumVariant::Tuple { ty, shared: variant_shared } = variant {
                            let mut refs: Vec<TypeRef> = Vec::new();
                            collect_type_refs(ty, &mut refs, renamed_names);
                            assert(refs.deep_view() =~= type_refs(*ty, renamed));
                            let site = IrEdgeSite::TupleVariant(variant_shared.id.renamed.clone());
                            assert(site@ == IrEdgeSiteView::TupleVariant(variant_shared.id.renamed@));
                            resolve_and_push(edges, from, &refs, site, by_name, nodes);
                        }
                        assert(edges.deep_view().to_set() =~= before.union(variants_edges(nv, renamed, from@, shared.variants@, v + 1)));
                        v = v + 1;
                    }
                }
            },
            None => {},
        }
        assert(edges.deep_view().to_set() =~= start.union(enums_edges(nv, renamed, krate@, items@, k + 1)));
        k = k + 1;
    }
}

fn collect_const_edges(
    edges: &mut Vec<IrEdge>,
    krate: &String,
    items: &Vec<RustConst>,
    nodes: &Vec<IrNode>,
    by_name: &Vec<NameEntry>,
    renamed_names: &Vec<String>,
)
    requires
        collecting(old(edges).deep_view(), nodes.deep_view(), by_name.deep_view()),
    ensures
        collecting(final(edges).deep_view(), nodes.deep_view(), by_name.deep_view()),
        final(edges).deep_view().to_set() == old(edges).deep_view().to_set().union(
            consts_edges(nodes.deep_view(), renamed_names.deep_view().to_set(), krate@, items@, items.len() as int),
        ),
{
    let ghost nv = nodes.deep_view();
    let ghost renamed = renamed_names.deep_view().to_set();
    let ghost start = edges.deep_view().to_set();
    let mut k: usize = 0;
    assert(start.union(Set::empty()) =~= start);
    while k < items.len()
        invariant
            k <= items.len(),
            nv == nodes.deep_view(),
            renamed == renamed_names.deep_view().to_set(),
            collecting(edges.deep_view(), nv, by_name.deep_view()),
            edges.deep_view().to_set() == start.union(consts_edges(nv, renamed, krate@, items@, k as int)),
        decreases items.len() - k,
    {
        let item = &items[k];
        let key = make_key(krate.as_str(), &item.module, item.id.original.as_str());
        let ghost before = edges.deep_view().to_set();
        match find_node(nodes, &key) {
            Some(i) => {
                let from = &nodes[i];
                assert(nv[i as int] == from@);
                let mut refs: Vec<TypeRef> = Vec::new();
                collect_type_refs(&item.ty, &mut refs, renamed_names);
                assert(refs.deep_view() =~= type_refs(item.ty, renamed));
                assert(has_key(nv, from.key@));
                resolve_and_push(edges, from, &refs, IrEdgeSite::ConstType, by_name, nodes);
            },
            None => {},
        }
        assert(edges.deep_view().to_set() =~= start.union(consts_edges(nv, renamed, krate@, items@, k + 1)));
        k = k + 1;
    }
}

/// Collects the dependency edges of every declaration of every crate: a
/// sorted list without repeats whose elements are exactly [`all_edges`].
pub fn collect_edges(
    nodes: &Vec<IrNode>,
    by_name: &Vec<NameEntry>,
    renamed_names: &Vec<String>,
    crate_parsed_data: &Vec<(String, ParsedData)>,
) -> (edges: Vec<IrEdge>)
    requires
        keys_sorted(nodes.deep_view()),
        index_ok(by_name.deep_view(), nodes.deep_view()),
    ensures
        edges_sorted(edges.deep_view()),
        edges.deep_view().to_set() == all_edges(
            nodes.deep_view(),
            renamed_names.deep_view().to_set(),
            crate_parsed_data@,
            crate_parsed_data.len() as int,
        ),
        ends_are_nodes(edges.deep_view().to_set(), nodes.deep_view()),
{
    let ghost nv = nodes.deep_view();
    let ghost renamed = renamed_names.deep_view().to_set();
    let mut edges: Vec<IrEdge> = Vec::new();
    proof {
        assert(edges.deep_view().to_set() =~= Set::empty());
    }
    let mut c: usize = 0;
    while c < crate_parsed_data.len()
        invariant
            c <= crate_parsed_data.len(),
            nv == nodes.deep_view(),
            renamed == renamed_names.deep_view().to_set(),
            collecting(edges.deep_view(), nv, by_name.deep_view()),
            edges.deep_view().to_set() == all_edges(nv, renamed, crate_parsed_data@, c as int),
        decreases crate_parsed_data.len() - c,
    {
        let krate = &crate_parsed_data[c].0;
        let data = &crate_parsed_data[c].1;
        collect_alias_edges(&mut edges, krate, &data.aliases, nodes, by_name, renamed_names);
        collect_struct_edges(&mut edges, krate, &data.structs, nodes, by_name, renamed_names);
        collect_enum_edges(&mut edges, krate, &data.enums, nodes, by_name, renamed_names);
        collect_const_edges(&mut edges, krate, &data.consts, nodes, by_name, renamed_names);
        assert(edges.deep_view().to_set() =~= all_edges(nv, renamed, crate_parsed_data@, c + 1));
        c = c + 1;
    }
    edges
}

/// Some edge of `edges` leads from key `from` to key `to`.
pub open spec fn edge_between(edges: Set<IrEdgeView>, from: Seq<char>, to: Seq<char>) -> bool {
    exists|e: IrEdgeView| #[trigger] edges.contains(e) && e.from == from && e.to == to
}

/// The edge relation of the nodes under `edges`: node `u` has an edge to
/// node `v`.
pub open spec fn edge_relation(nodes: Seq<IrNodeView>, edges: Set<IrEdgeView>) -> spec_fn(int, int) -> bool {
    |u: int, v: int| 0 <= u < nodes.len() && 0 <= v < nodes.len() && edge_between(edges, nodes[u].key, nodes[v].key)
}

/// `adj` is the adjacency of the nodes under `edges`: one increasing,
/// repeat-free list of node positions per node, holding `v` for node `u`
/// exactly when an edge leads from node `u` to node `v`.
pub open spec fn adjacency_of(adj: Seq<Seq<usize>>, nodes: Seq<IrNodeView>, edges: Set<IrEdgeView>) -> bool {
    &&& adj.len() == nodes.len()
    &&& forall|u: int, k: int| 0 <= u < adj.len() && 0 <= k < adj[u].len() ==> #[trigger] adj[u][k] < adj.len()
    &&& forall|u: int, k1: int, k2: int| 0 <= u < adj.len() && 0 <= k1 < k2 < adj[u].len() ==> #[trigger] adj[u][k1] < #[trigger] adj[u][k2]
    &&& forall|u: int, v: int|
        0 <= u < adj.len() && 0 <= v < adj.len() ==> (#[trigger] adj[u].contains(v as usize) <==> edge_between(edges, nodes[u].key, nodes[v].key))
}

/// Adds `x` to a strictly increasing list unless it is there.
pub fn insert_sorted(list: &mut Vec<usize>, x: usize)
    requires
        forall|k1: int, k2: int| 0 <= k1 < k2 < old(list).len() ==> #[trigger] old(list)@[k1] < #[trigger] old(list)@[k2],
    ensures
        forall|k1: int, k2: int| 0 <= k1 < k2 < final(list).len() ==> #[trigger] final(list)@[k1] < #[trigger] final(list)@[k2],
        forall|y: usize| #[trigger] final(list)@.contains(y) <==> old(list)@.contains(y) || y == x,
{
    let ghost l0 = list@;
    let mut i: usize = 0;
    while i < list.len()
        invariant
            i <= list.len(),
            list@ == l0,
            old(list)@ == l0,
            forall|k1: int, k2: int| 0 <= k1 < k2 < l0.len() ==> #[trigger] l0[k1] < #[trigger] l0[k2],
            forall|k: int| 0 <= k < i ==> #[trigger] l0[k] < x,
        decreases list.len() - i,
    {
        if list[i] == x {
            assert(l0[i as int] == x);
            assert(l0.contains(x));
            return;
        }
        if list[i] > x {
            list.insert(i, x);
            proof {
                let l1 = list@;
                assert(l1 =~= l0.insert(i as int, x));
                assert forall|k1: int, k2: int| 0 <= k1 < k2 < l1.len() implies #[trigger] l1[k1] < #[trigger] l1[k2] by {
                    if k1 < i && k2 > i {
                        assert(l1[k2] == l0[k2 - 1]);
                    } else if k1 > i {
                        assert(l1[k1] == l0[k1 - 1]);
                        assert(l1[k2] == l0[k2 - 1]);
                    } else if k1 == i {
                        assert(l1[k2] == l0[k2 - 1]);
                        if k2 - 1 > i {
                            assert(l0[i as int] < l0[k2 - 1]);
                        }
                    }
                }
                assert forall|y: usize| #[trigger] l1.contains(y) <==> l0.contains(y) || y == x by {
                    if l1.contains(y) {
                        let k = choose|k: int| 0 <= k < l1.len() && l1[k] == y;
                        if k < i {
                            assert(l0[k] == y);
                        } else if k > i {
                            assert(l0[k - 1] == y);
                        }
                    }
                    if l0.contains(y) {
                        let k = choose|k: int| 0 <= k < l0.len() && l0[k] == y;
                        if k < i {
                            assert(l1[k] == y);
                        } else {
                            assert(l1[k + 1] == y);
                        }
                    }
                    if y == x {
                        assert(l1[i as int] == y);
                    }
                }
            }
            return;
        }
        i = i + 1;
    }
    list.push(x);
    proof {
        let l1 = list@;
        assert(l1 =~= l0.push(x));
        assert forall|y: usize| #[trigger] l1.contains(y) <==> l0.contains(y) || y == x by {
            if l1.contains(y) {
                let k = choose|k: int| 0 <= k < l1.len() && l1[k] == y;
                if k < l0.len() {
                    assert(l0[k] == y);
                }
            }
            if l0.contains(y) {
                let k = choose|k: int| 0 <= k < l0.len() && l0[k] == y;
                assert(l1[k] == y);
            }
            if y == x {
                assert(l1[l0.len() as int] == y);
            }
        }
    }
}

/// The adjacency lists of the nodes: for every node the increasing,
/// repeat-free positions of the nodes it has an edge to.
pub fn build_adjacency(nodes: &Vec<IrNode>, edges: &Vec<IrEdge>) -> (adjacency: Vec<Vec<usize>>)
    requires
        keys_sorted(nodes.deep_view()),
        ends_are_nodes(edges.deep_view().to_set(), nodes.deep_view()),
    ensures
        adjacency_of(adjacency.deep_view(), nodes.deep_view(), edges.deep_view().to_set()),
{
    let ghost nv = nodes.deep_view();
    let ghost ev = edges.deep_view();
    let n = nodes.len();
    let mut adjacency: Vec<Vec<usize>> = Vec::new();
    let mut u: usize = 0;
    while u < n
        invariant
            u <= n,
            n == nodes.len(),
            adjacency.len() == u,
            forall|w: int| 0 <= w < u ==> (#[trigger] adjacency@[w])@.len() == 0,
        decreases n - u,
    {
        adjacency.push(Vec::new());
        u = u + 1;
    }
    let mut k: usize = 0;
    while k < edges.len()
        invariant
            k <= edges.len(),
            n == nodes.len(),
            nv == nodes.deep_view(),
            ev == edges.deep_view(),
            keys_sorted(nv),
            ends_are_nodes(ev.to_set(), nv),
            adjacency.len() == n,
            forall|w: int, j: int| 0 <= w < n && 0 <= j < adjacency@[w]@.len() ==> #[trigger] adjacency@[w]@[j] < n,
            forall|w: int, j1: int, j2: int| 0 <= w < n && 0 <= j1 < j2 < adjacency@[w]@.len() ==> #[trigger] adjacency@[w]@[j1] < #[trigger] adjacency@[w]@[j2],
            forall|w: int, v: int| 0 <= w < n && 0 <= v < n ==> (#[trigger] adjacency@[w]@.contains(v as usize) <==> exists|j: int| 0 <= j < k && #[trigger] ev[j].from == nv[w].key && ev[j].to == nv[v].key),
        decreases edges.len() - k,
    {
        let edge = &edges[k];
        assert(ev[k as int] == edge@);
        assert(ev.to_set().contains(edge@));
        let from = find_node(nodes, &edge.from);
        let to = find_node(nodes, &edge.to);
        match (from, to) {
            (Some(f), Some(t)) => {
                let ghost before = adjacency@;
                let mut list = adjacency[f].clone();
                assert(list@ =~= adjacency@[f as int]@) by {
                    assert forall|j: int| 0 <= j < list.len() implies list@[j] == adjacency@[f as int]@[j] by {
                        assert(vstd::pervasive::cloned(adjacency@[f as int]@[j], list@[j]));
                    }
                }
                insert_sorted(&mut list, t);
                adjacency.set(f, list);
                proof {
                    assert forall|w: int, j: int| 0 <= w < n && 0 <= j < adjacency@[w]@.len() implies #[trigger] adjacency@[w]@[j] < n by {
                        if w == f {
                            assert(adjacency@[w]@.contains(adjacency@[w]@[j]));
                            if adjacency@[w]@[j] != t {
                                assert(before[w]@.contains(adjacency@[w]@[j]));
                                let j2 = choose|j2: int| 0 <= j2 < before[w]@.len() && before[w]@[j2] == adjacency@[w]@[j];
                                assert(before[w]@[j2] < n);
                            }
                        } else {
                            assert(adjacency@[w] == before[w]);
                        }
                    }
                    assert forall|w: int, v: int| 0 <= w < n && 0 <= v < n implies (#[trigger] adjacency@[w]@.contains(v as usize) <==> exists|j: int| 0 <= j < k + 1 && #[trigger] ev[j].from == nv[w].key && ev[j].to == nv[v].key) by {
                        if w != f {
                            assert(adjacency@[w] == before[w]);
                            if exists|j: int| 0 <= j < k + 1 && #[trigger] ev[j].from == nv[w].key && ev[j].to == nv[v].key {
                                let j = choose|j: int| 0 <= j < k + 1 && #[trigger] ev[j].from == nv[w].key && ev[j].to == nv[v].key;
                                if j == k {
                                    lemma_key_position(nv, w);
                                    assert(false);
                                }
                            }
                        } else {
                            if exists|j: int| 0 <= j < k + 1 && #[trigger] ev[j].from == nv[w].key && ev[j].to == nv[v].key {
                                let j = choose|j: int| 0 <= j < k + 1 && #[trigger] ev[j].from == nv[w].key && ev[j].to == nv[v].key;
                                if j == k {
                                    lemma_key_position(nv, v);
                                    assert(v == t);
                                } else {
                                    assert(before[w]@.contains(v as usize));
                                }
                            }
                            if adjacency@[w]@.contains(v as usize) {
                                if v as usize == t {
                                    lemma_key_position(nv, v);
                                    assert(ev[k as int].from == nv[w].key && ev[k as int].to == nv[v].key);
                                } else {
                                    assert(before[w]@.contains(v as usize));
                                }
                            }
                        }
                    }
                }
            },
            _ => {
                proof {
                    assert(has_key(nv, edge.from@) && has_key(nv, edge.to@));
                    let a = choose|a: int| 0 <= a < nv.len() && #[trigger] nv[a].key == edge.from@;
                    let b = choose|b: int| 0 <= b < nv.len() && #[trigger] nv[b].key == edge.to@;
                    lemma_key_position(nv, a);
                    lemma_key_position(nv, b);
                    assert(false);
                }
            },
        }
        k = k + 1;
    }
    proof {
        let av = adjacency.deep_view();
        assert forall|w: int| 0 <= w < n implies #[trigger] av[w] == adjacency@[w]@ by {}
        assert forall|w: int, v: int| 0 <= w < n && 0 <= v < n implies (#[trigger] av[w].contains(v as usize) <==> edge_between(ev.to_set(), nv[w].key, nv[v].key)) by {
            assert(av[w] == adjacency@[w]@);
            if edge_between(ev.to_set(), nv[w].key, nv[v].key) {
                let e = choose|e: IrEdgeView| #[trigger] ev.to_set().contains(e) && e.from == nv[w].key && e.to == nv[v].key;
                assert(ev.contains(e));
                let j = choose|j: int| 0 <= j < ev.len() && ev[j] == e;
                assert(ev[j].from == nv[w].key && ev[j].to == nv[v].key);
            }
            if av[w].contains(v as usize) {
                let j = choose|j: int| 0 <= j < ev.len() && #[trigger] ev[j].from == nv[w].key && ev[j].to == nv[v].key;
                assert(ev.to_set().contains(ev[j]));
            }
        }
    }
    adjacency
}

} // verus!
