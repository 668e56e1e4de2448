//! Identity diagnostics: ambiguous names, wire-name collisions,
//! rename-induced cycles and generic parameters shadowing named types.

use vstd::prelude::*;
use itertools::Itertools;
use vstd::string::StringExecFns;
use crate::ir::model::{identity_of, IrDiagnostic, IrDiagnosticKind, IrDiagnosticView, IrNode, IrNodeView, IrScc, IrSccView};
use crate::ir::order::keys_in_source_order;
use crate::ir::topo::sccs_ok;
use crate::text::{
    join_strings, seq_join, compare_str, compare_strings, lemma_lex_order_basics, lemma_lex_order_trans,
    lemma_list_order_basics, lemma_list_order_trans, lex_order, list_order,
};

verus! {

/// Three-way order of diagnostics by kind, then by node list.
#[verifier::opaque]
pub open spec fn diag_key_order(a: IrDiagnosticView, b: IrDiagnosticView) -> int {
    if a.kind.rank() < b.kind.rank() {
        -1
    } else if a.kind.rank() > b.kind.rank() {
        1
    } else {
        list_order(a.nodes, b.nodes)
    }
}

/// Diagnostics strictly increase by kind and node list.
pub open spec fn diags_sorted(ds: Seq<IrDiagnosticView>) -> bool {
    forall|i: int, j: int| 0 <= i < j < ds.len() ==> diag_key_order(#[trigger] ds[i], #[trigger] ds[j]) < 0
}

proof fn lemma_diag_key_order(a: IrDiagnosticView, b: IrDiagnosticView, c: IrDiagnosticView)
    ensures
        (diag_key_order(a, b) == 0) == (a.kind == b.kind && a.nodes == b.nodes),
        diag_key_order(b, a) == -diag_key_order(a, b),
        diag_key_order(a, b) < 0 && diag_key_order(b, c) < 0 ==> diag_key_order(a, c) < 0,
        a.kind == b.kind && a.nodes == b.nodes ==> diag_key_order(a, c) == diag_key_order(b, c) && diag_key_order(c, a) == diag_key_order(c, b),
{
    reveal(diag_key_order);
    lemma_list_order_basics(a.nodes, b.nodes);
    lemma_list_order_basics(b.nodes, c.nodes);
    if list_order(a.nodes, b.nodes) <= 0 && list_order(b.nodes, c.nodes) <= 0 {
        lemma_list_order_trans(a.nodes, b.nodes, c.nodes);
    }
    assert(a.kind.rank() == b.kind.rank() ==> a.kind == b.kind);
}

/// Every diagnostic of `raw` has one in `result` with its kind and node
/// list and a message not after its message.
#[verifier::opaque]
pub open spec fn covers(result: Seq<IrDiagnosticView>, raw: Set<IrDiagnosticView>) -> bool {
    forall|d: IrDiagnosticView| #[trigger] raw.contains(d) ==> exists|i: int|
        0 <= i < result.len() && result[i].kind == d.kind && result[i].nodes == d.nodes && lex_order(
            #[trigger] result[i].message,
            d.message,
        ) <= 0
}

/// `result` is what sorting the diagnostics `raw` by kind, node list and
/// message, then dropping every diagnostic whose kind and node list equal
/// those of the one before, leaves: sorted by kind and node list, each a
/// diagnostic of `raw`, and [`covers`] `raw`.
pub open spec fn summarizes(result: Seq<IrDiagnosticView>, raw: Set<IrDiagnosticView>) -> bool {
    &&& diags_sorted(result)
    &&& forall|i: int| 0 <= i < result.len() ==> raw.contains(#[trigger] result[i])
    &&& covers(result, raw)
}

fn compare_diag_keys(a: &IrDiagnostic, b: &IrDiagnostic) -> (r: i8)
    ensures
        r as int == diag_key_order(a@, b@),
{
    reveal(diag_key_order);
    let ra = a.kind.position();
    let rb = b.kind.position();
    if ra < rb {
        -1
    } else if ra > rb {
        1
    } else {
        compare_strings(&a.nodes, &b.nodes)
    }
}

fn find_diag_slot(result: &Vec<IrDiagnostic>, d: &IrDiagnostic) -> (i: usize)
    requires
        diags_sorted(result.deep_view()),
    ensures
        i <= result.len(),
        forall|k: int| 0 <= k < i ==> diag_key_order(#[trigger] result.deep_view()[k], d@) < 0,
        i < result.len() ==> diag_key_order(result.deep_view()[i as int], d@) >= 0,
{
    let ghost r0 = result.deep_view();
    let mut i: usize = 0;
    while i < result.len()
        invariant
            i <= result.len(),
            r0 == result.deep_view(),
            forall|k: int| 0 <= k < i ==> diag_key_order(#[trigger] r0[k], d@) < 0,
        decreases result.len() - i,
    {
        assert(r0[i as int] == result[i as int]@);
        if compare_diag_keys(&result[i], d) >= 0 {
            return i;
        }
        i = i + 1;
    }
    i
}

proof fn lemma_replace_sorted(r0: Seq<IrDiagnosticView>, dv: IrDiagnosticView, i: int)
    requires
        diags_sorted(r0),
        0 <= i < r0.len(),
        diag_key_order(r0[i], dv) == 0,
    ensures
        diags_sorted(r0.update(i, dv)),
{
    let r1 = r0.update(i, dv);
    lemma_diag_key_order(r0[i], dv, dv);
    assert forall|a: int, b: int| 0 <= a < b < r1.len() implies diag_key_order(#[trigger] r1[a], #[trigger] r1[b]) < 0 by {
        if a != i && b != i {
            assert(r1[a] == r0[a] && r1[b] == r0[b]);
        } else if a == i {
            assert(r1[b] == r0[b]);
            lemma_diag_key_order(r0[i], dv, r0[b]);
        } else {
            assert(r1[a] == r0[a]);
            lemma_diag_key_order(r0[i], dv, r0[a]);
        }
    }
}

#[verifier::rlimit(40)]
proof fn lemma_replace_cover(r0: Seq<IrDiagnosticView>, raw: Set<IrDiagnosticView>, dv: IrDiagnosticView, i: int)
    requires
        summarizes(r0, raw),
        0 <= i < r0.len(),
        r0[i].kind == dv.kind,
        r0[i].nodes == dv.nodes,
        lex_order(dv.message, r0[i].message) < 0,
    ensures
        covers(r0.update(i, dv), raw.insert(dv)),
{
    reveal(covers);
    let r1 = r0.update(i, dv);
    assert forall|x: IrDiagnosticView| #[trigger] raw.insert(dv).contains(x) implies exists|k: int|
        0 <= k < r1.len() && r1[k].kind == x.kind && r1[k].nodes == x.nodes && lex_order(#[trigger] r1[k].message, x.message) <= 0 by {
        if x == dv {
            lemma_lex_order_basics(dv.message, dv.message);
            assert(r1[i] == dv);
        } else {
            assert(raw.contains(x));
            let k = choose|k: int| 0 <= k < r0.len() && r0[k].kind == x.kind && r0[k].nodes == x.nodes && lex_order(#[trigger] r0[k].message, x.message) <= 0;
            if k == i {
                lemma_lex_order_trans(dv.message, r0[k].message, x.message);
                assert(r1[i] == dv);
            } else {
                assert(r1[k] == r0[k]);
            }
        }
    }
}

proof fn lemma_record_replace(r0: Seq<IrDiagnosticView>, raw: Set<IrDiagnosticView>, dv: IrDiagnosticView, i: int)
    requires
        summarizes(r0, raw),
        0 <= i < r0.len(),
        diag_key_order(r0[i], dv) == 0,
        lex_order(dv.message, r0[i].message) < 0,
    ensures
        summarizes(r0.update(i, dv), raw.insert(dv)),
{
    let r1 = r0.update(i, dv);
    let raw2 = raw.insert(dv);
    lemma_diag_key_order(r0[i], dv, dv);
    lemma_replace_sorted(r0, dv, i);
    lemma_replace_cover(r0, raw, dv, i);
    assert forall|k: int| 0 <= k < r1.len() implies raw2.contains(#[trigger] r1[k]) by {
        if k != i {
            assert(r1[k] == r0[k]);
        }
    }
}

proof fn lemma_record_keep(r0: Seq<IrDiagnosticView>, raw: Set<IrDiagnosticView>, dv: IrDiagnosticView, i: int)
    requires
        summarizes(r0, raw),
        0 <= i < r0.len(),
        diag_key_order(r0[i], dv) == 0,
        lex_order(dv.message, r0[i].message) >= 0,
    ensures
        summarizes(r0, raw.insert(dv)),
{
    reveal(covers);
    let raw2 = raw.insert(dv);
    lemma_diag_key_order(r0[i], dv, dv);
    lemma_lex_order_basics(dv.message, r0[i].message);
    assert forall|x: IrDiagnosticView| #[trigger] raw2.contains(x) implies exists|k: int|
        0 <= k < r0.len() && r0[k].kind == x.kind && r0[k].nodes == x.nodes && lex_order(#[trigger] r0[k].message, x.message) <= 0 by {
        if x == dv {
            assert(r0[i].kind == x.kind && r0[i].nodes == x.nodes);
        }
    }
}

proof fn lemma_insert_sorted(r0: Seq<IrDiagnosticView>, dv: IrDiagnosticView, i: int)
    requires
        diags_sorted(r0),
        0 <= i <= r0.len(),
        forall|k: int| 0 <= k < i ==> diag_key_order(#[trigger] r0[k], dv) < 0,
        i < r0.len() ==> diag_key_order(r0[i], dv) > 0,
    ensures
        diags_sorted(r0.insert(i, dv)),
{
    let r1 = r0.insert(i, dv);
    if i < r0.len() {
        lemma_diag_key_order(r0[i], dv, dv);
    }
    assert forall|a: int, b: int| 0 <= a < b < r1.len() implies diag_key_order(#[trigger] r1[a], #[trigger] r1[b]) < 0 by {
        if b < i {
            assert(r1[a] == r0[a] && r1[b] == r0[b]);
        } else if b == i {
            assert(r1[a] == r0[a]);
        } else if a == i {
            assert(r1[b] == r0[b - 1]);
            if b - 1 > i {
                lemma_diag_key_order(dv, r0[i], r0[b - 1]);
            }
        } else if a < i {
            assert(r1[a] == r0[a] && r1[b] == r0[b - 1]);
            lemma_diag_key_order(r0[a], dv, r0[i]);
            if b - 1 > i {
                lemma_diag_key_order(r0[a], r0[i], r0[b - 1]);
            }
        } else {
            assert(r1[a] == r0[a - 1] && r1[b] == r0[b - 1]);
        }
    }
}

#[verifier::rlimit(40)]
proof fn lemma_insert_cover(r0: Seq<IrDiagnosticView>, raw: Set<IrDiagnosticView>, dv: IrDiagnosticView, i: int)
    requires
        summarizes(r0, raw),
        0 <= i <= r0.len(),
    ensures
        covers(r0.insert(i, dv), raw.insert(dv)),
{
    reveal(covers);
    let r1 = r0.insert(i, dv);
    assert forall|x: IrDiagnosticView| #[trigger] raw.insert(dv).contains(x) implies exists|k: int|
        0 <= k < r1.len() && r1[k].kind == x.kind && r1[k].nodes == x.nodes && lex_order(#[trigger] r1[k].message, x.message) <= 0 by {
        if x == dv {
            lemma_lex_order_basics(dv.message, dv.message);
            assert(r1[i] == dv);
        } else {
            assert(raw.contains(x));
            let k = choose|k: int| 0 <= k < r0.len() && r0[k].kind == x.kind && r0[k].nodes == x.nodes && lex_order(#[trigger] r0[k].message, x.message) <= 0;
            if k < i {
                assert(r1[k] == r0[k]);
            } else {
                assert(r1[k + 1] == r0[k]);
            }
        }
    }
}

#[verifier::rlimit(40)]
proof fn lemma_record_insert(r0: Seq<IrDiagnosticView>, raw: Set<IrDiagnosticView>, dv: IrDiagnosticView, i: int)
    requires
        summarizes(r0, raw),
        0 <= i <= r0.len(),
        forall|k: int| 0 <= k < i ==> diag_key_order(#[trigger] r0[k], dv) < 0,
        i < r0.len() ==> diag_key_order(r0[i], dv) > 0,
    ensures
        summarizes(r0.insert(i, dv), raw.insert(dv)),
{
    let r1 = r0.insert(i, dv);
    let raw2 = raw.insert(dv);
    lemma_insert_sorted(r0, dv, i);
    lemma_insert_cover(r0, raw, dv, i);
    assert forall|k: int| 0 <= k < r1.len() implies raw2.contains(#[trigger] r1[k]) by {
        if k < i {
            assert(r1[k] == r0[k]);
        } else if k > i {
            assert(r1[k] == r0[k - 1]);
        }
    }
}

/// Adds a diagnostic to a summary: it takes the place of a diagnostic with
/// its kind and node list and a later message, or is dropped after one with
/// a message not after its own.
pub(crate) fn record(result: &mut Vec<IrDiagnostic>, d: IrDiagnostic, Ghost(raw): Ghost<Set<IrDiagnosticView>>)
    requires
        summarizes(old(result).deep_view(), raw),
    ensures
        summarizes(final(result).deep_view(), raw.insert(d@)),
{
    let ghost r0 = result.deep_view();
    let ghost dv = d@;
    let i = find_diag_slot(result, &d);
    if i < result.len() && compare_diag_keys(&result[i], &d) == 0 {
        assert(r0[i as int] == result[i as int]@);
        if compare_str(d.message.as_str(), result[i].message.as_str()) < 0 {
            result.set(i, d);
            proof {
                assert(result.deep_view() =~= r0.update(i as int, dv));
                lemma_record_replace(r0, raw, dv, i as int);
            }
        } else {
            proof {
                lemma_record_keep(r0, raw, dv, i as int);
            }
        }
    } else {
        proof {
            if i < r0.len() {
                assert(r0[i as int] == result[i as int]@);
            }
        }
        result.insert(i, d);
        proof {
            assert(result.deep_view() =~= r0.insert(i as int, dv));
            lemma_record_insert(r0, raw, dv, i as int);
        }
    }
}

/// Strings strictly increase along the list.
pub open spec fn strictly_sorted(ss: Seq<Seq<char>>) -> bool {
    forall|i: int, j: int| 0 <= i < j < ss.len() ==> lex_order(#[trigger] ss[i], #[trigger] ss[j]) < 0
}

/// Two strictly increasing lists with the same elements are equal.
pub proof fn lemma_sorted_unique(a: Seq<Seq<char>>, b: Seq<Seq<char>>)
    requires
        strictly_sorted(a),
        strictly_sorted(b),
        a.to_set() == b.to_set(),
    ensures
        a == b,
    decreases a.len() + b.len(),
{
    if a.len() == 0 {
        if b.len() > 0 {
            assert(b.to_set().contains(b[0]));
            assert(!a.contains(b[0]));
        }
        assert(a =~= b);
    } else if b.len() == 0 {
        assert(a.to_set().contains(a[0]));
    } else {
        // the first elements are the least of the common elements
        assert(a.to_set().contains(a[0]));
        assert(b.to_set().contains(b[0]));
        let ka = choose|k: int| 0 <= k < b.len() && b[k] == a[0];
        let kb = choose|k: int| 0 <= k < a.len() && a[k] == b[0];
        lemma_lex_order_basics(a[0], b[0]);
        if a[0] != b[0] {
            if ka > 0 {
                assert(lex_order(b[0], b[ka]) < 0);
            }
            if kb > 0 {
                assert(lex_order(a[0], a[kb]) < 0);
            }
            lemma_lex_order_basics(b[0], a[0]);
            assert(false);
        }
        let a1 = a.drop_first();
        let b1 = b.drop_first();
        assert forall|i: int, j: int| 0 <= i < j < a1.len() implies lex_order(#[trigger] a1[i], #[trigger] a1[j]) < 0 by {
            assert(a1[i] == a[i + 1] && a1[j] == a[j + 1]);
        }
        assert forall|i: int, j: int| 0 <= i < j < b1.len() implies lex_order(#[trigger] b1[i], #[trigger] b1[j]) < 0 by {
            assert(b1[i] == b[i + 1] && b1[j] == b[j + 1]);
        }
        assert forall|x: Seq<char>| a1.to_set().contains(x) <==> b1.to_set().contains(x) by {
            if a1.contains(x) {
                let i = choose|i: int| 0 <= i < a1.len() && a1[i] == x;
                assert(a[i + 1] == x);
                lemma_lex_order_basics(a[0], x);
                assert(lex_order(a[0], a[i + 1]) < 0);
                assert(a.to_set().contains(x));
                let j = choose|j: int| 0 <= j < b.len() && b[j] == x;
                assert(j != 0);
                assert(b1[j - 1] == x);
            }
            if b1.contains(x) {
                let i = choose|i: int| 0 <= i < b1.len() && b1[i] == x;
                assert(b[i + 1] == x);
                lemma_lex_order_basics(b[0], x);
                assert(lex_order(b[0], b[i + 1]) < 0);
                assert(b.to_set().contains(x));
                let j = choose|j: int| 0 <= j < a.len() && a[j] == x;
                assert(j != 0);
                assert(a1[j - 1] == x);
            }
        }
        assert(a1.to_set() =~= b1.to_set());
        lemma_sorted_unique(a1, b1);
        assert(a =~= b) by {
            assert forall|i: int| 0 <= i < a.len() implies a[i] == b[i] by {
                if i > 0 {
                    assert(a[i] == a1[i - 1] && b[i] == b1[i - 1]);
                }
            }
        }
    }
}

/// `x` put in its place in the increasing list `ms`, unless it is there.
pub open spec fn sorted_insert(ms: Seq<Seq<char>>, x: Seq<char>) -> Seq<Seq<char>>
    decreases ms.len(),
{
    if ms.len() == 0 {
        seq![x]
    } else if lex_order(x, ms[0]) < 0 {
        seq![x] + ms
    } else if x == ms[0] {
        ms
    } else {
        seq![ms[0]] + sorted_insert(ms.drop_first(), x)
    }
}

/// The elements of `s`, increasing and without repeats.
pub open spec fn sorted_set_of(s: Seq<Seq<char>>) -> Seq<Seq<char>>
    decreases s.len(),
{
    if s.len() == 0 {
        Seq::empty()
    } else {
        sorted_insert(sorted_set_of(s.drop_last()), s.last())
    }
}

proof fn lemma_sorted_insert(ms: Seq<Seq<char>>, x: Seq<char>)
    requires
        strictly_sorted(ms),
    ensures
        strictly_sorted(sorted_insert(ms, x)),
        sorted_insert(ms, x).to_set() == ms.to_set().insert(x),
    decreases ms.len(),
{
    if ms.len() == 0 {
        assert(seq![x].to_set() =~= ms.to_set().insert(x)) by {
            assert(seq![x][0] == x);
        }
    } else {
        lemma_lex_order_basics(x, ms[0]);
        if lex_order(x, ms[0]) < 0 {
            let r = seq![x] + ms;
            assert forall|i: int, j: int| 0 <= i < j < r.len() implies lex_order(#[trigger] r[i], #[trigger] r[j]) < 0 by {
                if i == 0 {
                    assert(r[j] == ms[j - 1]);
                    if j > 1 {
                        assert(lex_order(ms[0], ms[j - 1]) < 0);
                        lemma_lex_order_trans(x, ms[0], ms[j - 1]);
                    }
                } else {
                    assert(r[i] == ms[i - 1] && r[j] == ms[j - 1]);
                }
            }
            assert forall|y: Seq<char>| r.to_set().contains(y) <==> ms.to_set().insert(x).contains(y) by {
                if r.contains(y) {
                    let k = choose|k: int| 0 <= k < r.len() && r[k] == y;
                    if k > 0 {
                        assert(ms[k - 1] == y);
                    }
                }
                if ms.contains(y) {
                    let k = choose|k: int| 0 <= k < ms.len() && ms[k] == y;
                    assert(r[k + 1] == y);
                }
                if y == x {
                    assert(r[0] == y);
                }
            }
            assert(r.to_set() =~= ms.to_set().insert(x));
        } else if x == ms[0] {
            assert(ms.contains(x));
            assert(ms.to_set().insert(x) =~= ms.to_set());
        } else {
            let tail = ms.drop_first();
            assert forall|i: int, j: int| 0 <= i < j < tail.len() implies lex_order(#[trigger] tail[i], #[trigger] tail[j]) < 0 by {
                assert(tail[i] == ms[i + 1] && tail[j] == ms[j + 1]);
            }
            lemma_sorted_insert(tail, x);
            let rest = sorted_insert(tail, x);
            let r = seq![ms[0]] + rest;
            assert forall|i: int, j: int| 0 <= i < j < r.len() implies lex_order(#[trigger] r[i], #[trigger] r[j]) < 0 by {
                if i == 0 {
                    let y = rest[j - 1];
                    assert(r[j] == y);
                    assert(rest.contains(y));
                    assert(rest.to_set().contains(y));
                    if y != x {
                        assert(tail.to_set().contains(y));
                        let k = choose|k: int| 0 <= k < tail.len() && tail[k] == y;
                        assert(ms[k + 1] == y);
                        assert(lex_order(ms[0], ms[k + 1]) < 0);
                    }
                } else {
                    assert(r[i] == rest[i - 1] && r[j] == rest[j - 1]);
                }
            }
            assert forall|y: Seq<char>| r.to_set().contains(y) <==> ms.to_set().insert(x).contains(y) by {
                if r.contains(y) {
                    let k = choose|k: int| 0 <= k < r.len() && r[k] == y;
                    if k > 0 {
                        assert(rest[k - 1] == y);
                        assert(rest.to_set().contains(y));
                        if y != x {
                            assert(tail.to_set().contains(y));
                            let t = choose|t: int| 0 <= t < tail.len() && tail[t] == y;
                            assert(ms[t + 1] == y);
                        }
                    } else {
                        assert(ms[0] == y);
                    }
                }
                if ms.contains(y) {
                    let k = choose|k: int| 0 <= k < ms.len() && ms[k] == y;
                    if k == 0 {
                        assert(r[0] == y);
                    } else {
                        assert(tail[k - 1] == y);
                        assert(tail.to_set().contains(y));
                        assert(rest.to_set().contains(y));
                        let t = choose|t: int| 0 <= t < rest.len() && rest[t] == y;
                        assert(r[t + 1] == y);
                    }
                }
                if y == x {
                    assert(rest.to_set().contains(x));
                    let t = choose|t: int| 0 <= t < rest.len() && rest[t] == x;
                    assert(r[t + 1] == x);
                }
            }
            assert(r.to_set() =~= ms.to_set().insert(x));
        }
    }
}

/// The elements of `s` sorted increase strictly and are those of `s`.
pub proof fn lemma_sorted_set_of(s: Seq<Seq<char>>)
    ensures
        strictly_sorted(sorted_set_of(s)),
        sorted_set_of(s).to_set() == s.to_set(),
    decreases s.len(),
{
    if s.len() == 0 {
        assert(sorted_set_of(s).to_set() =~= s.to_set());
    } else {
        let init = s.drop_last();
        lemma_sorted_set_of(init);
        lemma_sorted_insert(sorted_set_of(init), s.last());
        assert forall|y: Seq<char>| s.to_set().contains(y) <==> init.to_set().insert(s.last()).contains(y) by {
            if s.contains(y) {
                let k = choose|k: int| 0 <= k < s.len() && s[k] == y;
                if k < s.len() - 1 {
                    assert(init[k] == y);
                }
            }
            if init.contains(y) {
                let k = choose|k: int| 0 <= k < init.len() && init[k] == y;
                assert(s[k] == y);
            }
            if y == s.last() {
                assert(s[s.len() - 1] == y);
            }
        }
        assert(s.to_set() =~= init.to_set().insert(s.last()));
    }
}

/// Adds `x` to a strictly increasing list of strings unless it is there.
fn insert_string(list: &mut Vec<String>, x: String)
    requires
        strictly_sorted(old(list).deep_view()),
    ensures
        strictly_sorted(final(list).deep_view()),
        final(list).deep_view().to_set() == old(list).deep_view().to_set().insert(x@),
{
    let ghost l0 = list.deep_view();
    let ghost xv = x@;
    let mut i: usize = 0;
    while i < list.len()
        invariant
            i <= list.len(),
            list.deep_view() == l0,
            old(list).deep_view() == l0,
            xv == x@,
            strictly_sorted(l0),
            forall|k: int| 0 <= k < i ==> lex_order(#[trigger] l0[k], xv) < 0,
        decreases list.len() - i,
    {
        let c = compare_str(list[i].as_str(), x.as_str());
        assert(l0[i as int] == list[i as int]@);
        if c == 0 {
            proof {
                lemma_lex_order_basics(l0[i as int], xv);
                assert(l0.contains(xv));
                assert(l0.to_set().insert(xv) =~= l0.to_set());
            }
            return;
        }
        if c > 0 {
            list.insert(i, x);
            proof {
                let l1 = list.deep_view();
                assert(l1 =~= l0.insert(i as int, xv));
                lemma_lex_order_basics(l0[i as int], xv);
                assert forall|a: int, b: int| 0 <= a < b < l1.len() implies lex_order(#[trigger] l1[a], #[trigger] l1[b]) < 0 by {
                    if b < i {
                        assert(l1[a] == l0[a] && l1[b] == l0[b]);
                    } else if b == i {
                        assert(l1[a] == l0[a]);
                    } else if a == i {
                        assert(l1[b] == l0[b - 1]);
                        if b - 1 > i {
                            lemma_lex_order_trans(xv, l0[i as int], l0[b - 1]);
                        }
                    } else if a < i {
                        assert(l1[a] == l0[a] && l1[b] == l0[b - 1]);
                        lemma_lex_order_trans(l0[a], xv, l0[i as int]);
                        if b - 1 > i {
                            lemma_lex_order_trans(l0[a], l0[i as int], l0[b - 1]);
                        }
                    } else {
                        assert(l1[a] == l0[a - 1] && l1[b] == l0[b - 1]);
                    }
                }
                assert forall|y: Seq<char>| l1.to_set().contains(y) <==> l0.to_set().insert(xv).contains(y) by {
                    if l1.contains(y) {
                        let k = choose|k: int| 0 <= k < l1.len() && l1[k] == y;
                        if k < i {
                            assert(l0[k] == y);
                        } else if k > i {
                            assert(l0[k - 1] == y);
                        }
                    }
                    if l0.contains(y) {
                        let k = choose|k: int| 0 <= k < l0.len() && l0[k] == y;
                        if k < i {
                            assert(l1[k] == y);
                        } else {
                            assert(l1[k + 1] == y);
                        }
                    }
                    if y == xv {
                        assert(l1[i as int] == y);
                    }
                }
                assert(l1.to_set() =~= l0.to_set().insert(xv));
            }
            return;
        }
        proof {
            lemma_lex_order_basics(l0[i as int], xv);
        }
        i = i + 1;
    }
    list.push(x);
    proof {
        let l1 = list.deep_view();
        assert(l1 =~= l0.push(xv));
        assert forall|a: int, b: int| 0 <= a < b < l1.len() implies lex_order(#[trigger] l1[a], #[trigger] l1[b]) < 0 by {
            assert(l1[a] == l0[a]);
            if b < l0.len() {
                assert(l1[b] == l0[b]);
            }
        }
        assert forall|y: Seq<char>| l1.to_set().contains(y) <==> l0.to_set().insert(xv).contains(y) by {
            if l1.contains(y) {
                let k = choose|k: int| 0 <= k < l1.len() && l1[k] == y;
                if k < l0.len() {
                    assert(l0[k] == y);
                }
            }
            if l0.contains(y) {
                let k = choose|k: int| 0 <= k < l0.len() && l0[k] == y;
                assert(l1[k] == y);
            }
            if y == xv {
                assert(l1[l0.len() as int] == y);
            }
        }
        assert(l1.to_set() =~= l0.to_set().insert(xv));
    }
}

/// The name a node is grouped by: its serialized name when `by_renamed`,
/// else its original name.
pub open spec fn group_name(node: IrNodeView, by_renamed: bool) -> Seq<char> {
    if by_renamed {
        node.renamed
    } else {
        node.original
    }
}

/// Keys, in node order, of the first `n` nodes grouped under `name`.
pub open spec fn keys_named(nodes: Seq<IrNodeView>, name: Seq<char>, by_renamed: bool, n: int) -> Seq<Seq<char>>
    decreases n,
{
    if n <= 0 {
        Seq::empty()
    } else if group_name(nodes[n - 1], by_renamed) == name {
        keys_named(nodes, name, by_renamed, n - 1).push(nodes[n - 1].key)
    } else {
        keys_named(nodes, name, by_renamed, n - 1)
    }
}

/// Identities of the nodes grouped under `name`.
pub open spec fn identities_named(nodes: Seq<IrNodeView>, name: Seq<char>, by_renamed: bool) -> Set<Seq<char>> {
    Set::new(|id: Seq<char>| exists|p: int| 0 <= p < nodes.len() && group_name(nodes[p], by_renamed) == name
        && #[trigger] identity_of(nodes[p].module, nodes[p].original) == id)
}

/// The keys of the nodes grouped under `name`, in node order, and their
/// identities, increasing and without repeats.
fn name_group(nodes: &Vec<IrNode>, name: &String, by_renamed: bool) -> (r: (Vec<String>, Vec<String>))
    ensures
        r.0.deep_view() == keys_named(nodes.deep_view(), name@, by_renamed, nodes.len() as int),
        strictly_sorted(r.1.deep_view()),
        r.1.deep_view().to_set() == identities_named(nodes.deep_view(), name@, by_renamed),
{
    let ghost nv = nodes.deep_view();
    let mut keys: Vec<String> = Vec::new();
    let mut ids: Vec<String> = Vec::new();
    let mut p: usize = 0;
    while p < nodes.len()
        invariant
            p <= nodes.len(),
            nv == nodes.deep_view(),
            keys.deep_view() == keys_named(nv, name@, by_renamed, p as int),
            strictly_sorted(ids.deep_view()),
            forall|id: Seq<char>| ids.deep_view().to_set().contains(id) <==> exists|q: int| 0 <= q < p && group_name(nv[q], by_renamed) == name@
                && #[trigger] identity_of(nv[q].module, nv[q].original) == id,
        decreases nodes.len() - p,
    {
        let node = &nodes[p];
        assert(nv[p as int] == node@);
        let hit = if by_renamed {
            node.renamed == *name
        } else {
            node.original == *name
        };
        let ghost ids0 = ids.deep_view();
        if hit {
            let ghost keys0 = keys.deep_view();
            keys.push(node.key.clone());
            assert(keys.deep_view() =~= keys0.push(node.key@));
            let id = node.identity();
            insert_string(&mut ids, id);
            proof {
                assert forall|x: Seq<char>| ids.deep_view().to_set().contains(x) <==> exists|q: int| 0 <= q < p + 1 && group_name(nv[q], by_renamed) == name@
                    && #[trigger] identity_of(nv[q].module, nv[q].original) == x by {
                    if x == id@ {
                        assert(identity_of(nv[p as int].module, nv[p as int].original) == x);
                    }
                    if exists|q: int| 0 <= q < p + 1 && group_name(nv[q], by_renamed) == name@ && #[trigger] identity_of(nv[q].module, nv[q].original) == x {
                        let q = choose|q: int| 0 <= q < p + 1 && group_name(nv[q], by_renamed) == name@ && #[trigger] identity_of(nv[q].module, nv[q].original) == x;
                        if q < p {
                            assert(ids0.to_set().contains(x));
                        }
                    }
                }
            }
        } else {
            proof {
                assert forall|x: Seq<char>| ids.deep_view().to_set().contains(x) <==> exists|q: int| 0 <= q < p + 1 && group_name(nv[q], by_renamed) == name@
                    && #[trigger] identity_of(nv[q].module, nv[q].original) == x by {
                    if exists|q: int| 0 <= q < p + 1 && group_name(nv[q], by_renamed) == name@ && #[trigger] identity_of(nv[q].module, nv[q].original) == x {
                        let q = choose|q: int| 0 <= q < p + 1 && group_name(nv[q], by_renamed) == name@ && #[trigger] identity_of(nv[q].module, nv[q].original) == x;
                        assert(q < p);
                    }
                }
            }
        }
        p = p + 1;
    }
    assert(ids.deep_view().to_set() =~= identities_named(nv, name@, by_renamed));
    (keys, ids)
}

/// Joins strings with a separator.
///
/// Trusted: calls `Itertools::join` (itertools 0.13) on an iterator over the
/// strings, which gives the empty string for no items and otherwise the
/// first item followed, for each further item, by the separator and the
/// item, each item written through `Display` (a `String` writes its text
/// unchanged).
#[verifier::external_body]
fn join_with(values: &Vec<String>, sep: &str) -> (res: String)
    ensures
        res@ == seq_join(values.deep_view(), sep@),
{
    values.iter().join(sep)
}

/// Message of a same-name diagnostic.
pub open spec fn same_name_message(name: Seq<char>, ids: Seq<Seq<char>>) -> Seq<char> {
    "type `"@ + name + "` is declared in multiple modules: "@ + seq_join(ids, ", "@)
        + "; identity is resolved as crate + module + original name"@
}

/// Message of a serialized-name conflict.
pub open spec fn conflict_message(name: Seq<char>, ids: Seq<Seq<char>>) -> Seq<char> {
    "serialized name `"@ + name + "` is produced by multiple declarations: "@ + seq_join(ids, ", "@)
        + "; generated and wire identities collide"@
}

/// Message of a rename-induced cycle.
pub open spec fn cycle_message(members: Seq<Seq<char>>) -> Seq<char> {
    "strongly connected group ["@ + seq_join(members, ", "@)
        + "] contains a reference rewritten by `serde(rename)`; the cycle is emitted as an SCC with backend-chosen forward declarations"@
}

/// Message of a shadowing generic parameter.
pub open spec fn shadow_message(name: Seq<char>, identity: Seq<char>) -> Seq<char> {
    "generic parameter `"@ + name + "` of `"@ + identity + "` shadows a named type; occurrences of `"@ + name
        + "` inside this item resolve to the parameter, not the shadowed type"@
}

/// The diagnostic of the nodes grouped under `name` (by serialized name: a
/// wire-name conflict; by original name: a same-name diagnostic), with
/// their identities `ids`.
pub open spec fn name_diagnostic(nodes: Seq<IrNodeView>, name: Seq<char>, by_renamed: bool, ids: Seq<Seq<char>>) -> IrDiagnosticView {
    IrDiagnosticView {
        kind: if by_renamed {
            IrDiagnosticKind::SerializedNameConflict
        } else {
            IrDiagnosticKind::SameNameDifferentModule
        },
        message: if by_renamed {
            conflict_message(name, ids)
        } else {
            same_name_message(name, ids)
        },
        nodes: keys_named(nodes, name, by_renamed, nodes.len() as int),
    }
}

/// `d` is the diagnostic of the nodes grouped under `name`: there are
/// several, `ids` are their identities increasing, and (by original name)
/// there are several identities.
pub open spec fn name_case(nodes: Seq<IrNodeView>, name: Seq<char>, by_renamed: bool, ids: Seq<Seq<char>>, d: IrDiagnosticView) -> bool {
    &&& keys_named(nodes, name, by_renamed, nodes.len() as int).len() > 1
    &&& strictly_sorted(ids)
    &&& ids.to_set() == identities_named(nodes, name, by_renamed)
    &&& (by_renamed || ids.len() > 1)
    &&& d == name_diagnostic(nodes, name, by_renamed, ids)
}

/// `d` is the rename-cycle diagnostic of an SCC reached through a serde
/// rename, its members sorted.
pub open spec fn cycle_case(sccs: Seq<IrSccView>, i: int, ms: Seq<Seq<char>>, d: IrDiagnosticView) -> bool {
    &&& 0 <= i < sccs.len()
    &&& sccs[i].induced_by_rename
    &&& strictly_sorted(ms)
    &&& ms.to_set() == sccs[i].members.to_set()
    &&& d == IrDiagnosticView { kind: IrDiagnosticKind::RenameCycle, message: cycle_message(ms), nodes: ms }
}

/// Some node has original name `name`.
pub open spec fn declared(nodes: Seq<IrNodeView>, name: Seq<char>) -> bool {
    exists|q: int| 0 <= q < nodes.len() && #[trigger] nodes[q].original == name
}

/// `d` is the diagnostic of generic parameter `k` of node `p` having the
/// original name of a node.
pub open spec fn shadow_case(nodes: Seq<IrNodeView>, p: int, k: int, d: IrDiagnosticView) -> bool {
    &&& 0 <= p < nodes.len()
    &&& 0 <= k < nodes[p].generic_params.len()
    &&& declared(nodes, nodes[p].generic_params[k].name)
    &&& d == IrDiagnosticView {
        kind: IrDiagnosticKind::GenericShadowing,
        message: shadow_message(nodes[p].generic_params[k].name, identity_of(nodes[p].module, nodes[p].original)),
        nodes: seq![nodes[p].key],
    }
}

/// The diagnostics of the name groups of the first `q` nodes (grouped by
/// serialized name when `by_renamed`, else by original name).
pub open spec fn name_set_upto(nodes: Seq<IrNodeView>, by_renamed: bool, q: int) -> Set<IrDiagnosticView> {
    Set::new(|d: IrDiagnosticView| exists|p: int, ids: Seq<Seq<char>>|
        0 <= p < q && #[trigger] name_case(nodes, group_name(nodes[p], by_renamed), by_renamed, ids, d))
}

/// The diagnostics of the rename-induced cycles among the first `q` SCCs.
pub open spec fn cycle_set_upto(sccs: Seq<IrSccView>, q: int) -> Set<IrDiagnosticView> {
    Set::new(|d: IrDiagnosticView| exists|i: int, ms: Seq<Seq<char>>| i < q && #[trigger] cycle_case(sccs, i, ms, d))
}

/// The diagnostics of shadowing generic parameters of the first `q` nodes
/// (and the first `k` parameters of node `q`).
pub open spec fn shadow_set_upto(nodes: Seq<IrNodeView>, q: int, k: int) -> Set<IrDiagnosticView> {
    Set::new(|d: IrDiagnosticView| exists|p: int, j: int| (p < q || (p == q && j < k)) && #[trigger] shadow_case(nodes, p, j, d))
}

/// Every diagnostic the graph gives, before sorting and merging: name
/// groups by original name, name groups by serialized name, rename-induced
/// cycles, shadowing generic parameters.
pub open spec fn raw_diagnostics(nodes: Seq<IrNodeView>, sccs: Seq<IrSccView>) -> Set<IrDiagnosticView> {
    name_set_upto(nodes, false, nodes.len() as int).union(name_set_upto(nodes, true, nodes.len() as int)).union(
        cycle_set_upto(sccs, sccs.len() as int),
    ).union(shadow_set_upto(nodes, nodes.len() as int, 0))
}

fn name_message(name: &String, ids: &Vec<String>, by_renamed: bool) -> (message: String)
    ensures
        message@ == if by_renamed {
            conflict_message(name@, ids.deep_view())
        } else {
            same_name_message(name@, ids.deep_view())
        },
{
    if by_renamed {
        let mut message = String::from_str("serialized name `");
        message.append(name.as_str());
        message.append("` is produced by multiple declarations: ");
        let joined = join_strings(ids, ", ");
        message.append(joined.as_str());
        message.append("; generated and wire identities collide");
        assert(message@ =~= conflict_message(name@, ids.deep_view()));
        message
    } else {
        let mut message = String::from_str("type `");
        message.append(name.as_str());
        message.append("` is declared in multiple modules: ");
        let joined = join_with(ids, ", ");
        message.append(joined.as_str());
        message.append("; identity is resolved as crate + module + original name");
        assert(message@ =~= same_name_message(name@, ids.deep_view()));
        message
    }
}

/// Records the diagnostics of the name groups.
fn name_diagnostics(result: &mut Vec<IrDiagnostic>, nodes: &Vec<IrNode>, by_renamed: bool, Ghost(s0): Ghost<Set<IrDiagnosticView>>)
    requires
        summarizes(old(result).deep_view(), s0),
    ensures
        summarizes(final(result).deep_view(), s0.union(name_set_upto(nodes.deep_view(), by_renamed, nodes.len() as int))),
{
    let ghost nv = nodes.deep_view();
    let ghost mut s = s0;
    let mut p: usize = 0;
    proof {
        assert(s0.union(name_set_upto(nv, by_renamed, 0)) =~= s0);
    }
    while p < nodes.len()
        invariant
            p <= nodes.len(),
            nv == nodes.deep_view(),
            summarizes(result.deep_view(), s),
            s == s0.union(name_set_upto(nv, by_renamed, p as int)),
        decreases nodes.len() - p,
    {
        let node = &nodes[p];
        assert(nv[p as int] == node@);
        let name = if by_renamed {
            &node.renamed
        } else {
            &node.original
        };
        assert(name@ == group_name(nv[p as int], by_renamed));
        let (keys, ids) = name_group(nodes, name, by_renamed);
        let ghost s_before = s;
        if keys.len() > 1 && (by_renamed || ids.len() > 1) {
            let message = name_message(name, &ids, by_renamed);
            let kind = if by_renamed {
                IrDiagnosticKind::SerializedNameConflict
            } else {
                IrDiagnosticKind::SameNameDifferentModule
            };
            let ghost idv = ids.deep_view();
            let d = IrDiagnostic { kind, message, nodes: keys };
            let ghost dv = d@;
            assert(name_case(nv, name@, by_renamed, idv, dv));
            record(result, d, Ghost(s));
            proof {
                s = s.insert(dv);
                assert forall|x: IrDiagnosticView| #[trigger] s.contains(x) <==> s0.union(name_set_upto(nv, by_renamed, p + 1)).contains(x) by {
                    if exists|q: int, i2: Seq<Seq<char>>| 0 <= q < p + 1 && #[trigger] name_case(nv, group_name(nv[q], by_renamed), by_renamed, i2, x) {
                        let (q, i2) = choose|q: int, i2: Seq<Seq<char>>| 0 <= q < p + 1 && #[trigger] name_case(nv, group_name(nv[q], by_renamed), by_renamed, i2, x);
                        if q == p {
                            lemma_sorted_unique(i2, idv);
                        } else {
                            assert(name_set_upto(nv, by_renamed, p as int).contains(x));
                        }
                    }
                    if x == dv {
                        assert(name_case(nv, group_name(nv[p as int], by_renamed), by_renamed, idv, x));
                    }
                    if name_set_upto(nv, by_renamed, p as int).contains(x) {
                        let (q, i2) = choose|q: int, i2: Seq<Seq<char>>| 0 <= q < p && #[trigger] name_case(nv, group_name(nv[q], by_renamed), by_renamed, i2, x);
                        assert(0 <= q < p + 1 && name_case(nv, group_name(nv[q], by_renamed), by_renamed, i2, x));
                    }
                }
                assert(s =~= s0.union(name_set_upto(nv, by_renamed, p + 1)));
            }
        } else {
            proof {
                assert forall|x: IrDiagnosticView| #[trigger] s.contains(x) <==> s0.union(name_set_upto(nv, by_renamed, p + 1)).contains(x) by {
                    if exists|q: int, i2: Seq<Seq<char>>| 0 <= q < p + 1 && #[trigger] name_case(nv, group_name(nv[q], by_renamed), by_renamed, i2, x) {
                        let (q, i2) = choose|q: int, i2: Seq<Seq<char>>| 0 <= q < p + 1 && #[trigger] name_case(nv, group_name(nv[q], by_renamed), by_renamed, i2, x);
                        if q == p {
                            lemma_sorted_unique(i2, ids.deep_view());
                            assert(false);
                        } else {
                            assert(name_set_upto(nv, by_renamed, p as int).contains(x));
                        }
                    }
                    if name_set_upto(nv, by_renamed, p as int).contains(x) {
                        let (q, i2) = choose|q: int, i2: Seq<Seq<char>>| 0 <= q < p && #[trigger] name_case(nv, group_name(nv[q], by_renamed), by_renamed, i2, x);
                        assert(0 <= q < p + 1 && name_case(nv, group_name(nv[q], by_renamed), by_renamed, i2, x));
                    }
                }
                assert(s =~= s0.union(name_set_upto(nv, by_renamed, p + 1)));
            }
        }
        p = p + 1;
    }
}

/// The members of an SCC, sorted and without repeats.
fn sorted_members(members: &Vec<String>) -> (ms: Vec<String>)
    ensures
        strictly_sorted(ms.deep_view()),
        ms.deep_view().to_set() == members.deep_view().to_set(),
{
    let mut ms: Vec<String> = Vec::new();
    let mut k: usize = 0;
    proof {
        assert(ms.deep_view().to_set() =~= members.deep_view().take(0).to_set());
    }
    while k < members.len()
        invariant
            k <= members.len(),
            strictly_sorted(ms.deep_view()),
            ms.deep_view().to_set() == members.deep_view().take(k as int).to_set(),
        decreases members.len() - k,
    {
        let m = members[k].clone();
        assert(m@ == members.deep_view()[k as int]);
        insert_string(&mut ms, m);
        proof {
            let t1 = members.deep_view().take(k + 1);
            let t0 = members.deep_view().take(k as int);
            assert(t1 =~= t0.push(m@));
            assert forall|x: Seq<char>| t1.to_set().contains(x) <==> t0.to_set().insert(m@).contains(x) by {
                if t1.contains(x) {
                    let i = choose|i: int| 0 <= i < t1.len() && t1[i] == x;
                    if i < k {
                        assert(t0[i] == x);
                    }
                }
                if t0.contains(x) {
                    let i = choose|i: int| 0 <= i < t0.len() && t0[i] == x;
                    assert(t1[i] == x);
                }
                if x == m@ {
                    assert(t1[k as int] == x);
                }
            }
            assert(t1.to_set() =~= t0.to_set().insert(m@));
        }
        k = k + 1;
    }
    assert(members.deep_view().take(members.len() as int) =~= members.deep_view());
    ms
}

/// Records the diagnostics of the SCCs reached through a serde rename.
fn cycle_diagnostics(result: &mut Vec<IrDiagnostic>, sccs: &Vec<IrScc>, Ghost(s0): Ghost<Set<IrDiagnosticView>>)
    requires
        summarizes(old(result).deep_view(), s0),
    ensures
        summarizes(final(result).deep_view(), s0.union(cycle_set_upto(sccs.deep_view(), sccs.len() as int))),
{
    let ghost sv = sccs.deep_view();
    let ghost mut s = s0;
    let mut i: usize = 0;
    proof {
        assert(s0.union(cycle_set_upto(sv, 0)) =~= s0);
    }
    while i < sccs.len()
        invariant
            i <= sccs.len(),
            sv == sccs.deep_view(),
            summarizes(result.deep_view(), s),
            s == s0.union(cycle_set_upto(sv, i as int)),
        decreases sccs.len() - i,
    {
        let scc = &sccs[i];
        assert(sv[i as int] == scc@);
        if scc.induced_by_rename {
            let ms = sorted_members(&scc.members);
            let mut message = String::from_str("strongly connected group [");
            let joined = join_strings(&ms, ", ");
            message.append(joined.as_str());
            message.append("] contains a reference rewritten by `serde(rename)`; the cycle is emitted as an SCC with backend-chosen forward declarations");
            let ghost msv = ms.deep_view();
            assert(message@ =~= cycle_message(msv));
            let d = IrDiagnostic { kind: IrDiagnosticKind::RenameCycle, message, nodes: ms };
            let ghost dv = d@;
            assert(cycle_case(sv, i as int, msv, dv));
            record(result, d, Ghost(s));
            proof {
                s = s.insert(dv);
                assert forall|x: IrDiagnosticView| #[trigger] s.contains(x) <==> s0.union(cycle_set_upto(sv, i + 1)).contains(x) by {
                    if exists|j: int, m2: Seq<Seq<char>>| j < i + 1 && #[trigger] cycle_case(sv, j, m2, x) {
                        let (j, m2) = choose|j: int, m2: Seq<Seq<char>>| j < i + 1 && #[trigger] cycle_case(sv, j, m2, x);
                        if j == i {
                            lemma_sorted_unique(m2, msv);
                        } else {
                            assert(cycle_set_upto(sv, i as int).contains(x));
                        }
                    }
                    if cycle_set_upto(sv, i as int).contains(x) {
                        let (j, m2) = choose|j: int, m2: Seq<Seq<char>>| j < i && #[trigger] cycle_case(sv, j, m2, x);
                        assert(j < i + 1 && cycle_case(sv, j, m2, x));
                    }
                }
                assert(s =~= s0.union(cycle_set_upto(sv, i + 1)));
            }
        } else {
            proof {
                assert forall|x: IrDiagnosticView| #[trigger] s.contains(x) <==> s0.union(cycle_set_upto(sv, i + 1)).contains(x) by {
                    if exists|j: int, m2: Seq<Seq<char>>| j < i + 1 && #[trigger] cycle_case(sv, j, m2, x) {
                        let (j, m2) = choose|j: int, m2: Seq<Seq<char>>| j < i + 1 && #[trigger] cycle_case(sv, j, m2, x);
                        assert(j != i);
                        assert(cycle_set_upto(sv, i as int).contains(x));
                    }
                    if cycle_set_upto(sv, i as int).contains(x) {
                        let (j, m2) = choose|j: int, m2: Seq<Seq<char>>| j < i && #[trigger] cycle_case(sv, j, m2, x);
                        assert(j < i + 1 && cycle_case(sv, j, m2, x));
                    }
                }
                assert(s =~= s0.union(cycle_set_upto(sv, i + 1)));
            }
        }
        i = i + 1;
    }
}

fn is_declared(nodes: &Vec<IrNode>, name: &String) -> (r: bool)
    ensures
        r == declared(nodes.deep_view(), name@),
{
    let ghost nv = nodes.deep_view();
    let mut q: usize = 0;
    while q < nodes.len()
        invariant
            q <= nodes.len(),
            nv == nodes.deep_view(),
            forall|j: int| 0 <= j < q ==> #[trigger] nv[j].original != name@,
        decreases nodes.len() - q,
    {
        assert(nv[q as int] == nodes[q as int]@);
        if nodes[q].original == *name {
            assert(nv[q as int].original == name@);
            return true;
        }
        q = q + 1;
    }
    false
}

/// Records the diagnostics of generic parameters named like a node.
fn shadow_diagnostics(result: &mut Vec<IrDiagnostic>, nodes: &Vec<IrNode>, Ghost(s0): Ghost<Set<IrDiagnosticView>>)
    requires
        summarizes(old(result).deep_view(), s0),
    ensures
        summarizes(final(result).deep_view(), s0.union(shadow_set_upto(nodes.deep_view(), nodes.len() as int, 0))),
{
    let ghost nv = nodes.deep_view();
    let ghost mut s = s0;
    let mut p: usize = 0;
    proof {
        assert(s0.union(shadow_set_upto(nv, 0, 0)) =~= s0);
    }
    while p < nodes.len()
        invariant
            p <= nodes.len(),
            nv == nodes.deep_view(),
            summarizes(result.deep_view(), s),
            s == s0.union(shadow_set_upto(nv, p as int, 0)),
        decreases nodes.len() - p,
    {
        let node = &nodes[p];
        assert(nv[p as int] == node@);
        let identity = node.identity();
        let mut k: usize = 0;
        proof {
            assert(shadow_set_upto(nv, p as int, 0) =~= shadow_set_upto(nv, p as int, 0));
        }
        while k < node.generic_params.len()
            invariant
                p < nodes.len(),
                k <= node.generic_params.len(),
                nv == nodes.deep_view(),
                nv[p as int] == node@,
                identity@ == identity_of(node.module.deep_view(), node.original@),
                summarizes(result.deep_view(), s),
                s == s0.union(shadow_set_upto(nv, p as int, k as int)),
            decreases node.generic_params.len() - k,
        {
            let name = &node.generic_params[k].name;
            assert(nv[p as int].generic_params[k as int] == node.generic_params@[k as int]@);
            if is_declared(nodes, name) {
                let mut message = String::from_str("generic parameter `");
                message.append(name.as_str());
                message.append("` of `");
                message.append(identity.as_str());
                message.append("` shadows a named type; occurrences of `");
                message.append(name.as_str());
                message.append("` inside this item resolve to the parameter, not the shadowed type");
                assert(message@ =~= shadow_message(name@, identity@));
                let mut keys: Vec<String> = Vec::new();
                keys.push(node.key.clone());
                assert(keys.deep_view() =~= seq![node.key@]);
                let d = IrDiagnostic { kind: IrDiagnosticKind::GenericShadowing, message, nodes: keys };
                let ghost dv = d@;
                assert(shadow_case(nv, p as int, k as int, dv));
                record(result, d, Ghost(s));
                proof {
                    s = s.insert(dv);
                    assert forall|x: IrDiagnosticView| #[trigger] s.contains(x) <==> s0.union(shadow_set_upto(nv, p as int, k + 1)).contains(x) by {
                        if exists|q: int, j: int| (q < p || (q == p && j < k + 1)) && #[trigger] shadow_case(nv, q, j, x) {
                            let (q, j) = choose|q: int, j: int| (q < p || (q == p && j < k + 1)) && #[trigger] shadow_case(nv, q, j, x);
                            if !(q == p && j == k) {
                                assert(shadow_set_upto(nv, p as int, k as int).contains(x));
                            }
                        }
                        if shadow_set_upto(nv, p as int, k as int).contains(x) {
                            let (q, j) = choose|q: int, j: int| (q < p || (q == p && j < k)) && #[trigger] shadow_case(nv, q, j, x);
                            assert((q < p || (q == p && j < k + 1)) && shadow_case(nv, q, j, x));
                        }
                    }
                    assert(s =~= s0.union(shadow_set_upto(nv, p as int, k + 1)));
                }
            } else {
                proof {
                    assert forall|x: IrDiagnosticView| #[trigger] s.contains(x) <==> s0.union(shadow_set_upto(nv, p as int, k + 1)).contains(x) by {
                        if exists|q: int, j: int| (q < p || (q == p && j < k + 1)) && #[trigger] shadow_case(nv, q, j, x) {
                            let (q, j) = choose|q: int, j: int| (q < p || (q == p && j < k + 1)) && #[trigger] shadow_case(nv, q, j, x);
                            assert(!(q == p && j == k));
                            assert(shadow_set_upto(nv, p as int, k as int).contains(x));
                        }
                        if shadow_set_upto(nv, p as int, k as int).contains(x) {
                            let (q, j) = choose|q: int, j: int| (q < p || (q == p && j < k)) && #[trigger] shadow_case(nv, q, j, x);
                            assert((q < p || (q == p && j < k + 1)) && shadow_case(nv, q, j, x));
                        }
                    }
                    assert(s =~= s0.union(shadow_set_upto(nv, p as int, k + 1)));
                }
            }
            k = k + 1;
        }
        proof {
            assert forall|x: IrDiagnosticView| #[trigger] shadow_set_upto(nv, p as int, k as int).contains(x) <==> shadow_set_upto(nv, p + 1, 0).contains(x) by {
                if shadow_set_upto(nv, p as int, k as int).contains(x) {
                    let (q, j) = choose|q: int, j: int| (q < p || (q == p && j < k)) && #[trigger] shadow_case(nv, q, j, x);
                    assert(q < p + 1 && shadow_case(nv, q, j, x));
                }
                if shadow_set_upto(nv, p + 1, 0).contains(x) {
                    let (q, j) = choose|q: int, j: int| (q < p + 1 || (q == p + 1 && j < 0)) && #[trigger] shadow_case(nv, q, j, x);
                    if q == p {
                        assert(j < nv[p as int].generic_params.len());
                    }
                    assert((q < p || (q == p && j < k)) && shadow_case(nv, q, j, x));
                }
            }
            assert(shadow_set_upto(nv, p as int, k as int) =~= shadow_set_upto(nv, p + 1, 0));
        }
        p = p + 1;
    }
}

/// The identity diagnostics of the graph: every diagnostic of
/// [`raw_diagnostics`], sorted by kind, node list and message, keeping the
/// first of each kind and node list.
pub fn collect_diagnostics(nodes: &Vec<IrNode>, sccs: &Vec<IrScc>) -> (diagnostics: Vec<IrDiagnostic>)
    ensures
        summarizes(diagnostics.deep_view(), raw_diagnostics(nodes.deep_view(), sccs.deep_view())),
{
    let ghost nv = nodes.deep_view();
    let ghost sv = sccs.deep_view();
    let mut diagnostics: Vec<IrDiagnostic> = Vec::new();
    let ghost s0: Set<IrDiagnosticView> = Set::empty();
    let ghost s1 = s0.union(name_set_upto(nv, false, nv.len() as int));
    let ghost s2 = s1.union(name_set_upto(nv, true, nv.len() as int));
    let ghost s3 = s2.union(cycle_set_upto(sv, sv.len() as int));
    proof {
        reveal(covers);
        assert(summarizes(diagnostics.deep_view(), s0));
    }
    name_diagnostics(&mut diagnostics, nodes, false, Ghost(s0));
    name_diagnostics(&mut diagnostics, nodes, true, Ghost(s1));
    cycle_diagnostics(&mut diagnostics, sccs, Ghost(s2));
    shadow_diagnostics(&mut diagnostics, nodes, Ghost(s3));
    assert(s3.union(shadow_set_upto(nv, nv.len() as int, 0)) =~= raw_diagnostics(nv, sv));
    diagnostics
}

} // verus!
