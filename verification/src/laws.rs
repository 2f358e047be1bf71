//! The library's general guarantees about the transforms, proved once and
//! for all: contiguity of the renumbered chain, preservation of everything
//! that is not a stage, and the two transforms undoing one another.

use vstd::prelude::*;
use crate::chars::{dec_rep, digits_val, lemma_dec_rep_val};
use crate::classify::object_key;
use crate::errors::Error;
use crate::registry::EffectV;
use crate::table::{EntryV, NodeV, TableV};
use crate::transform::{
    is_chain_key, lemma_chain_key_val, lemma_same_keys_index, marker_stage_v, spec_unwrap,
    spec_wrap, unwrap_entry_v, wrap_entry_v,
};

verus! {

/// How every lookup in the unwrapped table relates to the original.
proof fn lemma_unwrap_lookup(t: TableV, n: nat, k: Seq<char>)
    requires
        t.wf(),
        t.is_chain_len(n),
        n >= 1,
    ensures
        ({
            let u = spec_unwrap(t, n);
            &&& u.entries.len() == t.entries.len() - 1
            &&& !u.has_key(dec_rep((n - 1) as nat))
            &&& (k != dec_rep((n - 1) as nat) ==> u.has_key(k) == t.has_key(k))
            &&& (k != dec_rep((n - 1) as nat) && t.has_key(k) ==> {
                let e = unwrap_entry_v(t, n, t.entries[t.index_of_key(k)]);
                &&& u.sub_at(k) == (match e.node {
                    NodeV::Sub(s) => Some(s),
                    NodeV::Leaf(_) => None,
                })
                &&& u.leaf_at(k) == (match e.node {
                    NodeV::Sub(_) => None::<Seq<char>>,
                    NodeV::Leaf(v) => Some(v),
                })
            })
        }),
{
    let u = spec_unwrap(t, n);
    let m = TableV { entries: t.entries.map_values(|e: EntryV| unwrap_entry_v(t, n, e)) };
    assert(t.stage((n - 1) as nat) is Some);
    assert(t.has_key(dec_rep((n - 1) as nat)));
    let p = t.index_of_key(dec_rep((n - 1) as nat));
    assert(forall|j: int|
        0 <= j < t.entries.len() ==> (#[trigger] m.entries[j]).key == t.entries[j].key);
    assert(u.entries =~= m.entries.remove(p));
    // no entry of u carries the removed key
    assert forall|w: int| 0 <= w < u.entries.len() implies u.entries[w].key != dec_rep(
        (n - 1) as nat,
    ) by {
        let w0 = if w < p {
            w
        } else {
            w + 1
        };
        assert(u.entries[w] == m.entries[w0]);
        if t.entries[w0].key == dec_rep((n - 1) as nat) {
            assert(t.entries[p].key == dec_rep((n - 1) as nat));
        }
    }
    if u.has_key(dec_rep((n - 1) as nat)) {
        let w = u.index_of_key(dec_rep((n - 1) as nat));
        assert(u.entries[w].key == dec_rep((n - 1) as nat));
    }
    if k != dec_rep((n - 1) as nat) {
        if t.has_key(k) {
            let q = t.index_of_key(k);
            assert(t.entries[q].key == k);
            assert(q != p);
            let uq = if q < p {
                q
            } else {
                q - 1
            };
            assert(u.entries[uq] == m.entries[q]);
            assert(u.entries[uq].key == k);
            assert(u.has_key(k));
            let w = u.index_of_key(k);
            assert(u.entries[w].key == k);
            if w != uq {
                let w0 = if w < p {
                    w
                } else {
                    w + 1
                };
                assert(u.entries[w] == m.entries[w0]);
                assert(t.entries[w0].key == k);
                assert(t.entries[q].key == k);
                assert(w0 == q);
            }
            assert(u.entries[u.index_of_key(k)] == m.entries[q]);
            assert(m.entries[q] == unwrap_entry_v(t, n, t.entries[q]));
        } else {
            if u.has_key(k) {
                let w = u.index_of_key(k);
                let w0 = if w < p {
                    w
                } else {
                    w + 1
                };
                assert(u.entries[w] == m.entries[w0]);
                assert(t.entries[w0].key == k);
                assert(t.has_key(k));
            }
        }
    }
}

/// How every lookup in the wrapped table relates to the original.
proof fn lemma_wrap_lookup(t: TableV, n: nat, k: Seq<char>)
    requires
        t.wf(),
        t.is_chain_len(n),
        n >= 1,
    ensures
        ({
            let u = spec_wrap(t, n);
            &&& u.sub_at(dec_rep(n)) == t.stage((n - 1) as nat)
            &&& (k != dec_rep(n) && t.has_key(k) ==> {
                let e = wrap_entry_v(t, n, t.entries[t.index_of_key(k)]);
                &&& u.has_key(k)
                &&& u.sub_at(k) == (match e.node {
                    NodeV::Sub(s) => Some(s),
                    NodeV::Leaf(_) => None,
                })
                &&& u.leaf_at(k) == (match e.node {
                    NodeV::Sub(_) => None::<Seq<char>>,
                    NodeV::Leaf(v) => Some(v),
                })
            })
            &&& (k != dec_rep(n) && !t.has_key(k) ==> !u.has_key(k))
        }),
{
    let u = spec_wrap(t, n);
    let m = TableV { entries: t.entries.map_values(|e: EntryV| wrap_entry_v(t, n, e)) };
    let top = EntryV { key: dec_rep(n), node: NodeV::Sub(t.stage((n - 1) as nat)->Some_0) };
    assert(t.stage((n - 1) as nat) is Some);
    assert(forall|j: int|
        0 <= j < t.entries.len() ==> (#[trigger] m.entries[j]).key == t.entries[j].key);
    if t.has_key(dec_rep(n)) {
        let q = t.index_of_key(dec_rep(n));
        assert(u.entries =~= m.entries.update(q, top));
        assert(forall|j: int|
            0 <= j < u.entries.len() ==> (#[trigger] u.entries[j]).key == t.entries[j].key);
        lemma_same_keys_index(t, u, dec_rep(n));
        assert(u.entries[q].node == top.node);
        assert(u.sub_at(dec_rep(n)) == t.stage((n - 1) as nat));
        if k != dec_rep(n) {
            if t.has_key(k) {
                lemma_same_keys_index(t, u, k);
                let w = t.index_of_key(k);
                if w == q {
                    assert(t.entries[q].key == dec_rep(n));
                }
                assert(u.entries[w] == m.entries[w]);
            } else {
                if u.has_key(k) {
                    let w = u.index_of_key(k);
                    assert(t.entries[w].key == k);
                }
            }
        }
    } else {
        assert(u.entries =~= m.entries.push(top));
        assert(u.entries[t.entries.len() as int] == top);
        assert(u.has_key(dec_rep(n)));
        let w = u.index_of_key(dec_rep(n));
        if w != t.entries.len() {
            assert(u.entries[w] == m.entries[w]);
            assert(t.entries[w].key == dec_rep(n));
        }
        assert(u.sub_at(dec_rep(n)) == t.stage((n - 1) as nat));
        if k != dec_rep(n) {
            if t.has_key(k) {
                let q = t.index_of_key(k);
                assert(u.entries[q].key == k);
                assert(u.has_key(k));
                let w2 = u.index_of_key(k);
                if w2 != q {
                    if w2 == t.entries.len() {
                        assert(u.entries[w2].key == dec_rep(n));
                    } else {
                        assert(t.entries[w2].key == k);
                        assert(t.entries[q].key == k);
                    }
                }
                assert(u.entries[u.index_of_key(k)] == m.entries[q]);
            } else {
                if u.has_key(k) {
                    let w2 = u.index_of_key(k);
                    if w2 == t.entries.len() {
                        assert(u.entries[w2].key == dec_rep(n));
                    } else {
                        assert(t.entries[w2].key == k);
                    }
                }
            }
        }
    }
}

/// Index contiguity: after unwrapping a chain of `n >= 1` stages whose
/// numeric keys are exactly `0 .. n-1`, the numeric keys form `0 .. n-2`
/// with no gaps.
pub proof fn lemma_unwrap_contiguity(t: TableV, n: nat)
    requires
        t.wf(),
        t.is_chain_len(n),
        n >= 1,
        forall|i: nat| i >= n ==> !t.has_key(#[trigger] dec_rep(i)),
    ensures
        spec_unwrap(t, n).is_chain_len((n - 1) as nat),
        forall|i: nat| i >= n - 1 ==> !spec_unwrap(t, n).has_key(#[trigger] dec_rep(i)),
{
    let u = spec_unwrap(t, n);
    assert forall|i: nat| i < n - 1 implies (#[trigger] u.stage(i)) is Some by {
        lemma_unwrap_lookup(t, n, dec_rep(i));
        crate::chars::lemma_dec_rep_distinct(i, (n - 1) as nat);
        assert(t.stage(i) is Some);
        assert(t.has_key(dec_rep(i)));
        let e = unwrap_entry_v(t, n, t.entries[t.index_of_key(dec_rep(i))]);
        assert(t.entries[t.index_of_key(dec_rep(i))].key == dec_rep(i));
        assert(is_chain_key(dec_rep(i), n));
        lemma_dec_rep_val(i);
        assert(e.node is Sub);
    }
    assert forall|i: nat| i >= n - 1 implies !u.has_key(#[trigger] dec_rep(i)) by {
        lemma_unwrap_lookup(t, n, dec_rep(i));
        if i >= n {
            crate::chars::lemma_dec_rep_distinct(i, (n - 1) as nat);
            assert(!t.has_key(dec_rep(i)));
        }
    }
    assert(u.stage((n - 1) as nat) is None);
}

/// Index contiguity: after wrapping a chain of `n >= 1` stages whose numeric
/// keys are exactly `0 .. n-1`, the numeric keys form `0 .. n` with no gaps.
pub proof fn lemma_wrap_contiguity(t: TableV, n: nat)
    requires
        t.wf(),
        t.is_chain_len(n),
        n >= 1,
        forall|i: nat| i >= n ==> !t.has_key(#[trigger] dec_rep(i)),
    ensures
        spec_wrap(t, n).is_chain_len((n + 1) as nat),
        spec_wrap(t, n).stage(0) == Some(marker_stage_v()),
        forall|i: nat| i > n ==> !spec_wrap(t, n).has_key(#[trigger] dec_rep(i)),
{
    let u = spec_wrap(t, n);
    assert forall|i: nat| i < n + 1 implies (#[trigger] u.stage(i)) is Some by {
        lemma_wrap_lookup(t, n, dec_rep(i));
        if i < n {
            crate::chars::lemma_dec_rep_distinct(i, n);
            assert(t.stage(i) is Some);
            assert(t.has_key(dec_rep(i)));
            let e = wrap_entry_v(t, n, t.entries[t.index_of_key(dec_rep(i))]);
            assert(t.entries[t.index_of_key(dec_rep(i))].key == dec_rep(i));
            assert(is_chain_key(dec_rep(i), n));
            assert(e.node is Sub);
        }
    }
    assert(u.stage(0) is Some) by {
        lemma_wrap_lookup(t, n, dec_rep(0));
        crate::chars::lemma_dec_rep_distinct(0, n);
        assert(t.stage(0) is Some);
        assert(t.has_key(dec_rep(0)));
        let e = wrap_entry_v(t, n, t.entries[t.index_of_key(dec_rep(0))]);
        assert(t.entries[t.index_of_key(dec_rep(0))].key == dec_rep(0));
        assert(is_chain_key(dec_rep(0), n));
        lemma_dec_rep_val(0);
    }
    assert(u.stage(0) == Some(marker_stage_v())) by {
        lemma_wrap_lookup(t, n, dec_rep(0));
        crate::chars::lemma_dec_rep_distinct(0, n);
        let e = wrap_entry_v(t, n, t.entries[t.index_of_key(dec_rep(0))]);
        assert(t.entries[t.index_of_key(dec_rep(0))].key == dec_rep(0));
        assert(is_chain_key(dec_rep(0), n));
        lemma_dec_rep_val(0);
        assert(digits_val(dec_rep(0)) == 0);
    }
    assert forall|i: nat| i > n implies !u.has_key(#[trigger] dec_rep(i)) by {
        lemma_wrap_lookup(t, n, dec_rep(i));
        crate::chars::lemma_dec_rep_distinct(i, n);
        assert(!t.has_key(dec_rep(i)));
    }
    assert(u.stage((n + 1) as nat) is None);
}

/// Non-numeric preservation: a transform leaves every entry of the `Object`
/// table whose key is not a stage key untouched, present or absent alike.
pub proof fn lemma_transforms_preserve_non_numeric(t: TableV, n: nat, k: Seq<char>)
    requires
        t.wf(),
        t.is_chain_len(n),
        n >= 1,
        forall|i: nat| k != #[trigger] dec_rep(i),
    ensures
        spec_unwrap(t, n).has_key(k) == t.has_key(k),
        spec_unwrap(t, n).sub_at(k) == t.sub_at(k),
        spec_unwrap(t, n).leaf_at(k) == t.leaf_at(k),
        spec_wrap(t, n).has_key(k) == t.has_key(k),
        spec_wrap(t, n).sub_at(k) == t.sub_at(k),
        spec_wrap(t, n).leaf_at(k) == t.leaf_at(k),
{
    lemma_unwrap_lookup(t, n, k);
    lemma_wrap_lookup(t, n, k);
    if t.has_key(k) {
        let e = t.entries[t.index_of_key(k)];
        assert(e.key == k);
        if is_chain_key(k, n) {
            let i = choose|i: nat| i < n && k == dec_rep(i);
            assert(k == dec_rep(i));
        }
        assert(unwrap_entry_v(t, n, e) == e);
        assert(wrap_entry_v(t, n, e) == e);
    }
}

/// Non-numeric preservation at the document level: a successful transform
/// replaces the `Object` entry and leaves every other entry of the alias,
/// and so every other section, exactly as it was.
pub proof fn lemma_alias_preserves_other_sections(a: TableV, b: TableV, k: Seq<char>)
    requires
        a.wf(),
        a.has_key(object_key()),
        b.entries =~= a.entries.update(
            a.index_of_key(object_key()),
            EntryV { key: object_key(), node: b.entries[a.index_of_key(object_key())].node },
        ),
        k != object_key(),
    ensures
        b.has_key(k) == a.has_key(k),
        b.sub_at(k) == a.sub_at(k),
        b.leaf_at(k) == a.leaf_at(k),
{
    let p = a.index_of_key(object_key());
    assert(a.entries[p].key == object_key());
    assert(forall|j: int|
        0 <= j < a.entries.len() ==> (#[trigger] b.entries[j]).key == a.entries[j].key);
    if a.has_key(k) {
        lemma_same_keys_index(a, b, k);
        let q = a.index_of_key(k);
        if q == p {
            assert(a.entries[p].key == k);
        }
        assert(b.entries[q] == a.entries[q]);
    } else {
        if b.has_key(k) {
            let w = b.index_of_key(k);
            assert(a.entries[w].key == k);
        }
    }
}

/// The unwrapped table is well-formed.
pub proof fn lemma_unwrap_wf(t: TableV, n: nat)
    requires
        t.wf(),
        t.is_chain_len(n),
        n >= 1,
    ensures
        spec_unwrap(t, n).wf(),
{
    let u = spec_unwrap(t, n);
    let m = TableV { entries: t.entries.map_values(|e: EntryV| unwrap_entry_v(t, n, e)) };
    assert(t.stage((n - 1) as nat) is Some);
    assert(t.has_key(dec_rep((n - 1) as nat)));
    let p = t.index_of_key(dec_rep((n - 1) as nat));
    assert(u.entries =~= m.entries.remove(p));
    assert forall|a: int, b: int|
        0 <= a < b < u.entries.len() implies u.entries[a].key != u.entries[b].key by {
        let a0 = if a < p {
            a
        } else {
            a + 1
        };
        let b0 = if b < p {
            b
        } else {
            b + 1
        };
        assert(u.entries[a] == m.entries[a0]);
        assert(u.entries[b] == m.entries[b0]);
        assert(t.entries[a0].key != t.entries[b0].key);
    }
    assert forall|w: int| 0 <= w < u.entries.len() implies match #[trigger] u.entries[w].node {
        NodeV::Sub(s) => s.wf(),
        NodeV::Leaf(_) => true,
    } by {
        let w0 = if w < p {
            w
        } else {
            w + 1
        };
        assert(u.entries[w] == m.entries[w0]);
        assert(m.entries[w0] == unwrap_entry_v(t, n, t.entries[w0]));
        assert(match t.entries[w0].node {
            NodeV::Sub(s) => s.wf(),
            NodeV::Leaf(_) => true,
        });
        if is_chain_key(t.entries[w0].key, n) && digits_val(t.entries[w0].key) + 1 < n {
            let i = (digits_val(t.entries[w0].key) + 1) as nat;
            assert(t.stage(i) is Some);
            t.lemma_sub_at_wf(dec_rep(i));
        }
    }
}

/// The wrapped table is well-formed.
pub proof fn lemma_wrap_wf(t: TableV, n: nat)
    requires
        t.wf(),
        t.is_chain_len(n),
        n >= 1,
    ensures
        spec_wrap(t, n).wf(),
{
    let u = spec_wrap(t, n);
    let m = TableV { entries: t.entries.map_values(|e: EntryV| wrap_entry_v(t, n, e)) };
    assert(t.stage((n - 1) as nat) is Some);
    t.lemma_sub_at_wf(dec_rep((n - 1) as nat));
    assert(marker_stage_v().wf());
    assert forall|w: int| 0 <= w < m.entries.len() implies match #[trigger] m.entries[w].node {
        NodeV::Sub(s) => s.wf(),
        NodeV::Leaf(_) => true,
    } by {
        assert(m.entries[w] == wrap_entry_v(t, n, t.entries[w]));
        assert(match t.entries[w].node {
            NodeV::Sub(s) => s.wf(),
            NodeV::Leaf(_) => true,
        });
        if is_chain_key(t.entries[w].key, n) && digits_val(t.entries[w].key) >= 1 {
            let i = (digits_val(t.entries[w].key) - 1) as nat;
            lemma_chain_key_val(t.entries[w].key, n);
            assert(t.stage(i) is Some);
            t.lemma_sub_at_wf(dec_rep(i));
        }
    }
    if t.has_key(dec_rep(n)) {
        let q = t.index_of_key(dec_rep(n));
        assert(u.entries =~= m.entries.update(
            q,
            EntryV { key: dec_rep(n), node: NodeV::Sub(t.stage((n - 1) as nat)->Some_0) },
        ));
        assert(t.entries[q].key == dec_rep(n));
        assert forall|a: int, b: int|
            0 <= a < b < u.entries.len() implies u.entries[a].key != u.entries[b].key by {
            assert(t.entries[a].key != t.entries[b].key);
            assert(u.entries[a].key == t.entries[a].key);
            assert(u.entries[b].key == t.entries[b].key);
        }
        assert forall|w: int| 0 <= w < u.entries.len() implies match #[trigger] u.entries[w].node {
            NodeV::Sub(s) => s.wf(),
            NodeV::Leaf(_) => true,
        } by {
            if w != q {
                assert(u.entries[w] == m.entries[w]);
            }
        }
    } else {
        assert forall|a: int, b: int|
            0 <= a < b < u.entries.len() implies u.entries[a].key != u.entries[b].key by {
            if b < t.entries.len() {
                assert(u.entries[a].key == t.entries[a].key);
                assert(u.entries[b].key == t.entries[b].key);
                assert(t.entries[a].key != t.entries[b].key);
            } else {
                assert(u.entries[b].key == dec_rep(n));
                assert(u.entries[a].key == t.entries[a].key);
                if t.entries[a].key == dec_rep(n) {
                    assert(t.has_key(dec_rep(n)));
                }
            }
        }
        assert forall|w: int| 0 <= w < u.entries.len() implies match #[trigger] u.entries[w].node {
            NodeV::Sub(s) => s.wf(),
            NodeV::Leaf(_) => true,
        } by {
            if w < t.entries.len() {
                assert(u.entries[w] == m.entries[w]);
            }
        }
    }
}

/// Idempotent pairing, one direction: wrapping the unwrapped form of a
/// well-formed Filter Object whose marker stage is the minimal one restores
/// the stage chain exactly, stage for stage.
pub proof fn lemma_wrap_after_unwrap(t: TableV, n: nat)
    requires
        t.wf(),
        t.is_chain_len(n),
        n >= 2,
        t.stage(0) == Some(marker_stage_v()),
        forall|i: nat| i >= n ==> !t.has_key(#[trigger] dec_rep(i)),
    ensures
        spec_unwrap(t, n).is_chain_len((n - 1) as nat),
        forall|i: nat|
            i < n ==> #[trigger] spec_wrap(spec_unwrap(t, n), (n - 1) as nat).stage(i) == t.stage(
                i,
            ),
        spec_wrap(spec_unwrap(t, n), (n - 1) as nat).is_chain_len(n),
{
    let u = spec_unwrap(t, n);
    lemma_unwrap_contiguity(t, n);
    lemma_unwrap_wf(t, n);
    lemma_wrap_contiguity(u, (n - 1) as nat);
    let w = spec_wrap(u, (n - 1) as nat);
    assert forall|i: nat| i < n implies #[trigger] w.stage(i) == t.stage(i) by {
        lemma_wrap_lookup(u, (n - 1) as nat, dec_rep(i));
        if i == 0 {
            assert(w.stage(0) == Some(marker_stage_v()));
        } else if i < n - 1 {
            crate::chars::lemma_dec_rep_distinct(i, (n - 1) as nat);
            assert(u.stage(i) is Some);
            assert(u.has_key(dec_rep(i)));
            let e = wrap_entry_v(u, (n - 1) as nat, u.entries[u.index_of_key(dec_rep(i))]);
            assert(u.entries[u.index_of_key(dec_rep(i))].key == dec_rep(i));
            assert(is_chain_key(dec_rep(i), (n - 1) as nat));
            lemma_dec_rep_val(i);
            assert(w.stage(i) == u.stage((i - 1) as nat));
            lemma_unwrap_lookup(t, n, dec_rep((i - 1) as nat));
            crate::chars::lemma_dec_rep_distinct((i - 1) as nat, (n - 1) as nat);
            assert(t.has_key(dec_rep((i - 1) as nat)));
            let e2 = unwrap_entry_v(t, n, t.entries[t.index_of_key(dec_rep((i - 1) as nat))]);
            assert(t.entries[t.index_of_key(dec_rep((i - 1) as nat))].key == dec_rep(
                (i - 1) as nat,
            ));
            assert(is_chain_key(dec_rep((i - 1) as nat), n));
            lemma_dec_rep_val((i - 1) as nat);
            assert(u.stage((i - 1) as nat) == t.stage(i));
        } else {
            assert(i == n - 1);
            assert(w.sub_at(dec_rep((n - 1) as nat)) == u.stage((n - 2) as nat));
            lemma_unwrap_lookup(t, n, dec_rep((n - 2) as nat));
            crate::chars::lemma_dec_rep_distinct((n - 2) as nat, (n - 1) as nat);
            assert(t.has_key(dec_rep((n - 2) as nat)));
            let e2 = unwrap_entry_v(t, n, t.entries[t.index_of_key(dec_rep((n - 2) as nat))]);
            assert(t.entries[t.index_of_key(dec_rep((n - 2) as nat))].key == dec_rep(
                (n - 2) as nat,
            ));
            assert(is_chain_key(dec_rep((n - 2) as nat), n));
            lemma_dec_rep_val((n - 2) as nat);
            assert(u.stage((n - 2) as nat) == t.stage((n - 1) as nat));
        }
    }
}

/// Idempotent pairing, the other direction: unwrapping the wrapped form of a
/// well-formed Filter Effect restores the stage chain exactly.
pub proof fn lemma_unwrap_after_wrap(t: TableV, n: nat)
    requires
        t.wf(),
        t.is_chain_len(n),
        n >= 1,
        forall|i: nat| i >= n ==> !t.has_key(#[trigger] dec_rep(i)),
    ensures
        spec_wrap(t, n).is_chain_len((n + 1) as nat),
        forall|i: nat|
            i < n ==> #[trigger] spec_unwrap(spec_wrap(t, n), (n + 1) as nat).stage(i) == t.stage(
                i,
            ),
{
    let w = spec_wrap(t, n);
    lemma_wrap_contiguity(t, n);
    lemma_wrap_wf(t, n);
    assert forall|i: nat| i < n implies #[trigger] spec_unwrap(w, (n + 1) as nat).stage(i)
        == t.stage(i) by {
        lemma_unwrap_lookup(w, (n + 1) as nat, dec_rep(i));
        crate::chars::lemma_dec_rep_distinct(i, n);
        assert(w.stage(i) is Some);
        assert(w.has_key(dec_rep(i)));
        let e = unwrap_entry_v(w, (n + 1) as nat, w.entries[w.index_of_key(dec_rep(i))]);
        assert(w.entries[w.index_of_key(dec_rep(i))].key == dec_rep(i));
        assert(is_chain_key(dec_rep(i), (n + 1) as nat));
        lemma_dec_rep_val(i);
        assert(spec_unwrap(w, (n + 1) as nat).stage(i) == w.stage((i + 1) as nat));
        lemma_wrap_lookup(t, n, dec_rep((i + 1) as nat));
        if i + 1 < n {
            crate::chars::lemma_dec_rep_distinct((i + 1) as nat, n);
            assert(t.stage((i + 1) as nat) is Some);
            assert(t.has_key(dec_rep((i + 1) as nat)));
            let e2 = wrap_entry_v(t, n, t.entries[t.index_of_key(dec_rep((i + 1) as nat))]);
            assert(t.entries[t.index_of_key(dec_rep((i + 1) as nat))].key == dec_rep(
                (i + 1) as nat,
            ));
            assert(is_chain_key(dec_rep((i + 1) as nat), n));
            lemma_dec_rep_val((i + 1) as nat);
            assert(w.stage((i + 1) as nat) == t.stage(i));
        } else {
            assert(w.stage((i + 1) as nat) == w.sub_at(dec_rep(n)));
            assert(w.sub_at(dec_rep(n)) == t.stage((n - 1) as nat));
        }
    }
}

/// Classification negative case: an alias whose stage-0 name is present but
/// matches neither the marker nor any registered Filter effect classifies as
/// no shape at all, and never as an error.
pub proof fn lemma_classify_negative(reg: Seq<EffectV>, a: TableV)
    requires
        crate::classify::stage_effect_name(a, 0) is Some,
        crate::classify::stage_effect_name(a, 0)->Some_0 != crate::classify::marker_name(),
        !crate::registry::has_filter(reg, crate::classify::stage_effect_name(a, 0)->Some_0),
    ensures
        crate::classify::spec_classify(reg, a) == Ok::<
            Option<(crate::classify::ObjectType, EffectV)>,
            Error,
        >(None),
{
}

} // verus!
