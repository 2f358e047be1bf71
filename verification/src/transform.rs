//! The two splice transforms over an `Object` table: wrap inserts the marker
//! stage at index 0 and shifts every stage up; unwrap drops the marker and
//! shifts every stage down. Both renumber the chain and touch nothing else.

use vstd::prelude::*;
use crate::chars::{chars_of, dec_rep, digits_val, index_key_chars, lemma_dec_rep_val};
use crate::classify::{check_object_type, marker_name, object_key, spec_classify, stage_effect_name, ObjectType};
use crate::errors::Error;
use crate::registry::{EffectRegistry, EffectV, reg_wf};
use crate::table::{AliasTable, Entry, EntryV, Node, NodeV, TableV, lemma_node_view_sub, lemma_table_at_path_append};

verus! {

/// The minimal marker stage: a single `effect.name` value, under its
/// literal key, holding the reserved marker name.
pub open spec fn marker_stage_v() -> TableV {
    TableV {
        entries: seq![EntryV { key: "effect.name"@, node: NodeV::Leaf(marker_name()) }],
    }
}

/// The marker stage as a table.
pub fn build_marker_stage() -> (r: AliasTable)
    ensures
        r@ =~= marker_stage_v(),
        r@.wf(),
{
    let mut entries: Vec<Entry> = Vec::new();
    entries.push(
        Entry { key: chars_of("effect.name"), node: Node::Leaf(chars_of("フィルタオブジェクト")) },
    );
    let r = AliasTable { entries };
    proof {
        assert(r@.entries =~= marker_stage_v().entries);
        assert(r@.wf());
    }
    r
}

/// A key that addresses one of the first `n` stages of the chain.
pub open spec fn is_chain_key(k: Seq<char>, n: nat) -> bool {
    exists|i: nat| i < n && k == dec_rep(i)
}

/// The length of the contiguous stage chain.
pub open spec fn chain_len_of(t: TableV) -> nat {
    choose|n: nat| t.is_chain_len(n)
}

/// Chain lengths are unique.
pub proof fn lemma_chain_len_unique(t: TableV, a: nat, b: nat)
    requires
        t.is_chain_len(a),
        t.is_chain_len(b),
    ensures
        a == b,
{
    if a < b {
        assert(t.stage(a) is Some);
    } else if b < a {
        assert(t.stage(b) is Some);
    }
}

/// What unwrapping does to one entry: a stage below the marker's successor
/// chain takes the contents of the stage above it; everything else stays.
pub open spec fn unwrap_entry_v(t: TableV, n: nat, e: EntryV) -> EntryV {
    if is_chain_key(e.key, n) && digits_val(e.key) + 1 < n {
        EntryV { key: e.key, node: NodeV::Sub(t.stage((digits_val(e.key) + 1) as nat)->Some_0) }
    } else {
        e
    }
}

/// The unwrapped `Object` table: stage 0 (the marker) is dropped, stage `i`
/// takes the contents of stage `i + 1`, the entry of the last stage key is
/// removed, and every other entry stays in place.
pub open spec fn spec_unwrap(t: TableV, n: nat) -> TableV {
    TableV {
        entries: t.entries.map_values(|e: EntryV| unwrap_entry_v(t, n, e)).remove(
            t.index_of_key(dec_rep((n - 1) as nat)),
        ),
    }
}

/// What wrapping does to one entry: stage 0 becomes the marker stage, stage
/// `i` takes the contents of stage `i - 1`; everything else stays.
pub open spec fn wrap_entry_v(t: TableV, n: nat, e: EntryV) -> EntryV {
    if is_chain_key(e.key, n) {
        EntryV {
            key: e.key,
            node: NodeV::Sub(
                if digits_val(e.key) == 0 {
                    marker_stage_v()
                } else {
                    t.stage((digits_val(e.key) - 1) as nat)->Some_0
                },
            ),
        }
    } else {
        e
    }
}

/// The wrapped `Object` table: every stage moves up one index, the marker
/// stage lands at index 0, and the old last stage lands under the key one
/// past the old chain (appended, or replacing a stray scalar entry there).
pub open spec fn spec_wrap(t: TableV, n: nat) -> TableV {
    let mapped = t.entries.map_values(|e: EntryV| wrap_entry_v(t, n, e));
    let top = EntryV { key: dec_rep(n), node: NodeV::Sub(t.stage((n - 1) as nat)->Some_0) };
    TableV {
        entries: if t.has_key(dec_rep(n)) {
            mapped.update(t.index_of_key(dec_rep(n)), top)
        } else {
            mapped.push(top)
        },
    }
}

/// Lookups agree between two tables with the same keys in the same order.
pub proof fn lemma_same_keys_index(t: TableV, m: TableV, k: Seq<char>)
    requires
        t.wf(),
        m.entries.len() == t.entries.len(),
        forall|j: int| 0 <= j < t.entries.len() ==> m.entries[j].key == t.entries[j].key,
        t.has_key(k),
    ensures
        m.has_key(k),
        m.index_of_key(k) == t.index_of_key(k),
{
    let i = t.index_of_key(k);
    assert(m.entries[i].key == k);
    assert(m.has_key(k));
    let w = m.index_of_key(k);
    assert(m.entries[w].key == k);
    if w != i {
        assert(t.entries[w].key == k);
        assert(t.entries[i].key == k);
    }
}

/// A chain key below `n` is the canonical key of exactly its numeric value.
pub proof fn lemma_chain_key_val(k: Seq<char>, n: nat)
    requires
        is_chain_key(k, n),
    ensures
        digits_val(k) < n,
        k == dec_rep(digits_val(k)),
{
    let i = choose|i: nat| i < n && k == dec_rep(i);
    lemma_dec_rep_val(i);
}

/// Unwrap the `Object` table of a Filter Object: drop the marker stage and
/// renumber the remaining stages down by one.
pub fn unwrap_object(obj: &AliasTable) -> (r: AliasTable)
    requires
        obj@.wf(),
        obj@.stage(0) is Some,
    ensures
        obj@.is_chain_len(chain_len_of(obj@)),
        chain_len_of(obj@) >= 1,
        r@ =~= spec_unwrap(obj@, chain_len_of(obj@)),
        r@.wf(),
{
    let ghost t = obj@;
    let c = obj.chain();
    let n = c.len();
    proof {
        assert(t.is_chain_len(n as nat));
        if n == 0 {
            assert(t.stage(0) is None);
        }
        lemma_chain_len_unique(t, n as nat, chain_len_of(t));
    }
    let ghost m = t.entries.map_values(|e: EntryV| unwrap_entry_v(t, n as nat, e));
    let mut nt = obj.deep_copy();
    let mut i: usize = 0;
    while i + 1 < n
        invariant
            t.wf(),
            t == obj@,
            t.is_chain_len(n as nat),
            1 <= n <= usize::MAX,
            n == c@.len(),
            forall|j: int| 0 <= j < n ==> t.stage(j as nat) == Some(#[trigger] c@[j]@),
            m == t.entries.map_values(|e: EntryV| unwrap_entry_v(t, n as nat, e)),
            i + 1 <= n,
            nt@.wf(),
            nt@.entries.len() == t.entries.len(),
            forall|j: int|
                0 <= j < t.entries.len() ==> (#[trigger] nt@.entries[j]).key == t.entries[j].key,
            forall|j: int|
                0 <= j < t.entries.len() ==> #[trigger] nt@.entries[j] == (if is_chain_key(
                    t.entries[j].key,
                    i as nat,
                ) && digits_val(t.entries[j].key) + 1 < n {
                    m[j]
                } else {
                    t.entries[j]
                }),
        decreases n - i,
    {
        let key = index_key_chars(i);
        let stage = {
            let s = &c[i + 1];
            s.deep_copy()
        };
        let ghost before = nt@;
        proof {
            assert(t.stage(i as nat) is Some);
            assert(t.has_key(dec_rep(i as nat)));
            lemma_same_keys_index(t, before, dec_rep(i as nat));
        }
        nt.set_sub(key, stage);
        proof {
            let p = t.index_of_key(dec_rep(i as nat));
            lemma_dec_rep_val(i as nat);
            assert(t.entries[p].key == dec_rep(i as nat));
            assert(stage@ == c@[i as int + 1]@);
            assert(t.stage((i + 1) as nat) == Some(stage@));
            assert(m[p] == unwrap_entry_v(t, n as nat, t.entries[p]));
            assert(is_chain_key(t.entries[p].key, n as nat));
            assert(digits_val(t.entries[p].key) == i as nat);
            assert(m[p] == EntryV { key: dec_rep(i as nat), node: NodeV::Sub(stage@) });
            assert(nt@.entries =~= before.entries.update(p, m[p]));
            assert forall|j: int| 0 <= j < t.entries.len() implies #[trigger] nt@.entries[j] == (
            if is_chain_key(t.entries[j].key, (i + 1) as nat) && digits_val(t.entries[j].key) + 1
                < n {
                m[j]
            } else {
                t.entries[j]
            }) by {
                if j == p {
                    assert(is_chain_key(t.entries[j].key, (i + 1) as nat));
                } else {
                    assert(nt@.entries[j] == before.entries[j]);
                    if is_chain_key(t.entries[j].key, (i + 1) as nat) && digits_val(
                        t.entries[j].key,
                    ) + 1 < n {
                        lemma_chain_key_val(t.entries[j].key, (i + 1) as nat);
                        if digits_val(t.entries[j].key) == i as nat {
                            assert(t.entries[j].key == dec_rep(i as nat));
                            assert(t.entries[p].key == dec_rep(i as nat));
                            assert(j == p);
                        } else {
                            assert(is_chain_key(t.entries[j].key, i as nat));
                        }
                    } else {
                        if is_chain_key(t.entries[j].key, i as nat) {
                            let w = choose|w: nat| w < i as nat && t.entries[j].key == dec_rep(w);
                            assert(w < (i + 1) as nat);
                            assert(is_chain_key(t.entries[j].key, (i + 1) as nat));
                        }
                    }
                }
            }
        }
        i += 1;
    }
    // every entry now matches the mapped sequence
    proof {
        assert forall|j: int| 0 <= j < t.entries.len() implies #[trigger] nt@.entries[j] == m[j] by {
            assert(m[j] == unwrap_entry_v(t, n as nat, t.entries[j]));
            if is_chain_key(t.entries[j].key, i as nat) && digits_val(t.entries[j].key) + 1 < n {
            } else {
                if is_chain_key(t.entries[j].key, n as nat) && digits_val(t.entries[j].key) + 1
                    < n {
                    lemma_chain_key_val(t.entries[j].key, n as nat);
                    assert(digits_val(t.entries[j].key) < i as nat);
                    assert(t.entries[j].key == dec_rep(digits_val(t.entries[j].key)));
                    assert(is_chain_key(t.entries[j].key, i as nat));
                }
            }
        }
        assert(nt@.entries =~= m);
    }
    let last_key = index_key_chars(n - 1);
    let ghost before = nt@;
    proof {
        assert(t.stage((n - 1) as nat) is Some);
        assert(t.has_key(dec_rep((n - 1) as nat)));
        lemma_same_keys_index(t, before, dec_rep((n - 1) as nat));
        let p = t.index_of_key(dec_rep((n - 1) as nat));
        assert(m[p] == unwrap_entry_v(t, n as nat, t.entries[p]));
        lemma_dec_rep_val((n - 1) as nat);
        assert(digits_val(t.entries[p].key) == (n - 1) as nat);
        assert(m[p] == t.entries[p]);
        assert(t.entries[p].node == t.entries[t.index_of_key(dec_rep((n - 1) as nat))].node);
        assert(t.stage((n - 1) as nat) == Some(t.entries[p].node->Sub_0));
        assert(before.entries[p].node is Sub);
        assert(before.index_of_key(dec_rep((n - 1) as nat)) == p);
        assert(before.sub_at(dec_rep((n - 1) as nat)) is Some);
    }
    nt.remove_sub(&last_key);
    proof {
        assert(nt@.entries =~= m.remove(t.index_of_key(dec_rep((n - 1) as nat))));
    }
    nt
}

/// Wrap the `Object` table of a Filter Effect: shift every stage up by one
/// and put the marker stage at index 0.
pub fn wrap_object(obj: &AliasTable) -> (r: AliasTable)
    requires
        obj@.wf(),
        obj@.stage(0) is Some,
    ensures
        obj@.is_chain_len(chain_len_of(obj@)),
        chain_len_of(obj@) >= 1,
        r@ =~= spec_wrap(obj@, chain_len_of(obj@)),
        r@.wf(),
{
    let ghost t = obj@;
    let c = obj.chain();
    let n = c.len();
    proof {
        assert(t.is_chain_len(n as nat));
        if n == 0 {
            assert(t.stage(0) is None);
        }
        lemma_chain_len_unique(t, n as nat, chain_len_of(t));
    }
    let ghost m = t.entries.map_values(|e: EntryV| wrap_entry_v(t, n as nat, e));
    let mut nt = obj.deep_copy();
    proof {
        assert forall|j: int| 0 <= j < t.entries.len() implies !(is_chain_key(
            t.entries[j].key,
            1nat,
        ) && digits_val(t.entries[j].key) >= 1) by {
            if is_chain_key(t.entries[j].key, 1nat) {
                lemma_chain_key_val(t.entries[j].key, 1nat);
            }
        }
    }
    let mut i: usize = 1;
    while i < n
        invariant
            t.wf(),
            t == obj@,
            t.is_chain_len(n as nat),
            1 <= n <= usize::MAX,
            n == c@.len(),
            forall|j: int| 0 <= j < n ==> t.stage(j as nat) == Some(#[trigger] c@[j]@),
            m == t.entries.map_values(|e: EntryV| wrap_entry_v(t, n as nat, e)),
            1 <= i <= n,
            nt@.wf(),
            nt@.entries.len() == t.entries.len(),
            forall|j: int|
                0 <= j < t.entries.len() ==> (#[trigger] nt@.entries[j]).key == t.entries[j].key,
            forall|j: int|
                0 <= j < t.entries.len() ==> #[trigger] nt@.entries[j] == (if is_chain_key(
                    t.entries[j].key,
                    i as nat,
                ) && digits_val(t.entries[j].key) >= 1 {
                    m[j]
                } else {
                    t.entries[j]
                }),
        decreases n - i,
    {
        let key = index_key_chars(i);
        let stage = {
            let s = &c[i - 1];
            s.deep_copy()
        };
        let ghost before = nt@;
        proof {
            assert(t.stage(i as nat) is Some);
            assert(t.has_key(dec_rep(i as nat)));
            lemma_same_keys_index(t, before, dec_rep(i as nat));
        }
        nt.set_sub(key, stage);
        proof {
            let p = t.index_of_key(dec_rep(i as nat));
            lemma_dec_rep_val(i as nat);
            assert(t.entries[p].key == dec_rep(i as nat));
            assert(stage@ == c@[i as int - 1]@);
            assert(t.stage((i - 1) as nat) == Some(stage@));
            assert(m[p] == wrap_entry_v(t, n as nat, t.entries[p]));
            assert(is_chain_key(t.entries[p].key, n as nat));
            assert(digits_val(t.entries[p].key) == i as nat);
            assert(m[p] == EntryV { key: dec_rep(i as nat), node: NodeV::Sub(stage@) });
            assert(nt@.entries =~= before.entries.update(p, m[p]));
            assert forall|j: int| 0 <= j < t.entries.len() implies #[trigger] nt@.entries[j] == (
            if is_chain_key(t.entries[j].key, (i + 1) as nat) && digits_val(t.entries[j].key)
                >= 1 {
                m[j]
            } else {
                t.entries[j]
            }) by {
                if j == p {
                    assert(is_chain_key(t.entries[j].key, (i + 1) as nat));
                } else {
                    assert(nt@.entries[j] == before.entries[j]);
                    if is_chain_key(t.entries[j].key, (i + 1) as nat) && digits_val(
                        t.entries[j].key,
                    ) >= 1 {
                        lemma_chain_key_val(t.entries[j].key, (i + 1) as nat);
                        if digits_val(t.entries[j].key) == i as nat {
                            assert(t.entries[j].key == dec_rep(i as nat));
                            assert(j == p);
                        } else {
                            assert(is_chain_key(t.entries[j].key, i as nat));
                        }
                    } else {
                        if is_chain_key(t.entries[j].key, i as nat) && digits_val(
                            t.entries[j].key,
                        ) >= 1 {
                            let w = choose|w: nat| w < i as nat && t.entries[j].key == dec_rep(w);
                            assert(is_chain_key(t.entries[j].key, (i + 1) as nat));
                        }
                    }
                }
            }
        }
        i += 1;
    }
    // the marker stage lands at index 0
    let marker = build_marker_stage();
    let ghost before = nt@;
    proof {
        assert(t.stage(0) is Some);
        assert(t.has_key(dec_rep(0)));
        lemma_same_keys_index(t, before, dec_rep(0));
    }
    nt.set_sub(index_key_chars(0), marker);
    proof {
        let p = t.index_of_key(dec_rep(0));
        lemma_dec_rep_val(0);
        assert(t.entries[p].key == dec_rep(0));
        assert(m[p] == wrap_entry_v(t, n as nat, t.entries[p]));
        assert(is_chain_key(t.entries[p].key, n as nat));
        assert(digits_val(t.entries[p].key) == 0);
        assert(m[p] == EntryV { key: dec_rep(0), node: NodeV::Sub(marker_stage_v()) });
        assert(nt@.entries =~= before.entries.update(p, m[p]));
        assert forall|j: int| 0 <= j < t.entries.len() implies #[trigger] nt@.entries[j] == m[j] by {
            assert(m[j] == wrap_entry_v(t, n as nat, t.entries[j]));
            if j != p {
                assert(nt@.entries[j] == before.entries[j]);
                if is_chain_key(t.entries[j].key, n as nat) {
                    lemma_chain_key_val(t.entries[j].key, n as nat);
                    if digits_val(t.entries[j].key) == 0 {
                        assert(t.entries[j].key == dec_rep(0));
                        assert(j == p);
                    } else {
                        assert(is_chain_key(t.entries[j].key, n as nat) && digits_val(
                            t.entries[j].key,
                        ) >= 1);
                        if !(is_chain_key(t.entries[j].key, n as nat) && digits_val(
                            t.entries[j].key,
                        ) >= 1) {
                        }
                    }
                }
            }
        }
        assert(nt@.entries =~= m);
    }
    // the old last stage lands one past the old chain
    let top_key = index_key_chars(n);
    let top_stage = {
        let s = &c[n - 1];
        s.deep_copy()
    };
    let ghost before2 = nt@;
    proof {
        if t.has_key(dec_rep(n as nat)) {
            lemma_same_keys_index(t, before2, dec_rep(n as nat));
        } else {
            if before2.has_key(dec_rep(n as nat)) {
                let w = before2.index_of_key(dec_rep(n as nat));
                assert(t.entries[w].key == dec_rep(n as nat));
                assert(t.has_key(dec_rep(n as nat)));
            }
        }
    }
    nt.set_sub(top_key, top_stage);
    proof {
        assert(t.stage((n - 1) as nat) == Some(top_stage@));
        assert(nt@.entries =~= spec_wrap(t, n as nat).entries);
    }
    nt
}

/// An alias with its `Object` table replaced, everything else untouched.
pub open spec fn spec_replace_object(a: TableV, nt: TableV) -> TableV {
    TableV {
        entries: a.entries.update(
            a.index_of_key(object_key()),
            EntryV { key: object_key(), node: NodeV::Sub(nt) },
        ),
    }
}

/// What converting a Filter Object to a Filter Effect yields.
pub open spec fn spec_unwrap_alias(reg: Seq<EffectV>, a: TableV) -> Result<TableV, Error> {
    match spec_classify(reg, a) {
        Err(e) => Err(e),
        Ok(None) => Err(Error::NotApplicable),
        Ok(Some((ot, eff))) => if ot != ObjectType::FilterObject {
            Err(Error::NotApplicable)
        } else {
            match a.sub_at(object_key()) {
                None => Err(Error::MissingField),
                Some(obj) => Ok(spec_replace_object(a, spec_unwrap(obj, chain_len_of(obj)))),
            }
        },
    }
}

/// What converting a Filter Effect to a Filter Object yields.
pub open spec fn spec_wrap_alias(reg: Seq<EffectV>, a: TableV) -> Result<TableV, Error> {
    match spec_classify(reg, a) {
        Err(e) => Err(e),
        Ok(None) => Err(Error::NotApplicable),
        Ok(Some((ot, eff))) => if ot != ObjectType::FilterEffect {
            Err(Error::NotApplicable)
        } else if !eff.as_filter {
            Err(Error::NotFilterCapable)
        } else {
            match a.sub_at(object_key()) {
                None => Err(Error::MissingField),
                Some(obj) => Ok(spec_replace_object(a, spec_wrap(obj, chain_len_of(obj)))),
            }
        },
    }
}

/// What toggling yields: the transform away from the classified shape.
pub open spec fn spec_toggle_alias(reg: Seq<EffectV>, a: TableV) -> Result<TableV, Error> {
    match spec_classify(reg, a) {
        Err(e) => Err(e),
        Ok(None) => Err(Error::NotApplicable),
        Ok(Some((ot, eff))) => if ot == ObjectType::FilterObject {
            spec_unwrap_alias(reg, a)
        } else {
            spec_wrap_alias(reg, a)
        },
    }
}

/// An alias whose stage `i` effect name reads back holds `Object` with a
/// stage `i` table.
pub proof fn lemma_classified_has_stage(a: TableV, i: nat)
    requires
        a.wf(),
        stage_effect_name(a, i) is Some,
    ensures
        a.sub_at(object_key()) is Some,
        a.sub_at(object_key())->Some_0.stage(i) is Some,
{
    let p = seq![object_key(), dec_rep(i), "effect.name"@];
    assert(a.value_at_path(p) is Some);
    assert(a.table_at_path(p.drop_last()) is Some);
    let q = p.drop_last();
    lemma_table_at_path_append(a, seq![object_key()], q.drop_first());
    assert(seq![object_key()] + q.drop_first() =~= q);
    assert(q[0] == object_key());
    let single = seq![object_key()];
    if a.sub_at(object_key()) is None {
        assert(single[0] == object_key());
        assert(a.table_at_path(single) is None);
        assert(a.table_at_path(q) is None);
    }
    assert(single.drop_first() =~= Seq::<Seq<char>>::empty());
    let obj = a.sub_at(object_key())->Some_0;
    assert(single[0] == object_key());
    assert(obj.table_at_path(single.drop_first()) == Some(obj));
    assert(a.table_at_path(single) == Some(obj));
    let rest = q.drop_first();
    assert(obj.table_at_path(rest) is Some);
    assert(rest[0] == dec_rep(i));
    assert(obj.sub_at(dec_rep(i)) is Some);
}

/// Convert a Filter Object to a Filter Effect, leaving every other part of
/// the alias untouched.
pub fn filter_object_to_effect(reg: &EffectRegistry, alias: &AliasTable) -> (r: Result<
    AliasTable,
    Error,
>)
    requires
        reg_wf(reg@),
        alias@.wf(),
    ensures
        match r {
            Ok(nt) => spec_unwrap_alias(reg@, alias@) == Ok::<TableV, Error>(nt@) && nt@.wf(),
            Err(e) => spec_unwrap_alias(reg@, alias@) == Err::<TableV, Error>(e),
        },
{
    match check_object_type(reg, alias) {
        Err(e) => Err(e),
        Ok(None) => Err(Error::NotApplicable),
        Ok(Some((ot, _eff))) => match ot {
            ObjectType::FilterEffect => Err(Error::NotApplicable),
            ObjectType::FilterObject => {
                proof {
                    lemma_classified_has_stage(alias@, 0);
                }
                let object_key_chars = chars_of("Object");
                match alias.get_sub(&object_key_chars) {
                    None => Err(Error::MissingField),
                    Some(obj) => {
                        proof {
                            alias@.lemma_sub_at_wf(object_key());
                        }
                        let nt = unwrap_object(obj);
                        let mut res = alias.deep_copy();
                        res.set_sub(chars_of("Object"), nt);
                        proof {
                            assert(res@.entries =~= spec_replace_object(
                                alias@,
                                spec_unwrap(obj@, chain_len_of(obj@)),
                            ).entries);
                        }
                        Ok(res)
                    },
                }
            },
        },
    }
}

/// Convert a Filter Effect to a Filter Object, leaving every other part of
/// the alias untouched.
pub fn filter_effect_to_object(reg: &EffectRegistry, alias: &AliasTable) -> (r: Result<
    AliasTable,
    Error,
>)
    requires
        reg_wf(reg@),
        alias@.wf(),
    ensures
        match r {
            Ok(nt) => spec_wrap_alias(reg@, alias@) == Ok::<TableV, Error>(nt@) && nt@.wf(),
            Err(e) => spec_wrap_alias(reg@, alias@) == Err::<TableV, Error>(e),
        },
{
    match check_object_type(reg, alias) {
        Err(e) => Err(e),
        Ok(None) => Err(Error::NotApplicable),
        Ok(Some((ot, eff))) => match ot {
            ObjectType::FilterObject => Err(Error::NotApplicable),
            ObjectType::FilterEffect => {
                if !eff.as_filter {
                    return Err(Error::NotFilterCapable);
                }
                proof {
                    lemma_classified_has_stage(alias@, 0);
                }
                let object_key_chars = chars_of("Object");
                match alias.get_sub(&object_key_chars) {
                    None => Err(Error::MissingField),
                    Some(obj) => {
                        proof {
                            alias@.lemma_sub_at_wf(object_key());
                        }
                        let nt = wrap_object(obj);
                        let mut res = alias.deep_copy();
                        res.set_sub(chars_of("Object"), nt);
                        proof {
                            assert(res@.entries =~= spec_replace_object(
                                alias@,
                                spec_wrap(obj@, chain_len_of(obj@)),
                            ).entries);
                        }
                        Ok(res)
                    },
                }
            },
        },
    }
}

/// Toggle between the two shapes: classify, then convert away from the
/// current shape.
pub fn toggle_object(reg: &EffectRegistry, alias: &AliasTable) -> (r: Result<AliasTable, Error>)
    requires
        reg_wf(reg@),
        alias@.wf(),
    ensures
        match r {
            Ok(nt) => spec_toggle_alias(reg@, alias@) == Ok::<TableV, Error>(nt@) && nt@.wf(),
            Err(e) => spec_toggle_alias(reg@, alias@) == Err::<TableV, Error>(e),
        },
{
    match check_object_type(reg, alias) {
        Err(e) => Err(e),
        Ok(None) => Err(Error::NotApplicable),
        Ok(Some((ot, _eff))) => match ot {
            ObjectType::FilterObject => filter_object_to_effect(reg, alias),
            ObjectType::FilterEffect => filter_effect_to_object(reg, alias),
        },
    }
}

} // verus!
