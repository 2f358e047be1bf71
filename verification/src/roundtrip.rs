//! Round-trip of the codec: parsing a serialized table yields the table
//! back. Proved here for a document of scalar entries at the root and for a
//! document of sections each holding scalar entries; the supporting lemmas
//! describe how the parser walks one serialized line.

use vstd::prelude::*;
use crate::chars::{split_acc, split_sep};
use crate::codec::{
    eq_at, has_eq, is_blank, ser_subs, ser_values, spec_lines, spec_parse, spec_parse_line,
    spec_parse_lines, strip_cr, value_line,
};
use crate::errors::Error;
use crate::table::{EntryV, NodeV, TableV, with_value_at_v};

verus! {

/// A key the text format can carry as a section name segment: headers are
/// split at dots, so a segment carries none.
pub open spec fn key_ok(k: Seq<char>) -> bool {
    k.len() > 0 && (forall|i: int|
        0 <= i < k.len() ==> !(k[i] == '.' || k[i] == '=' || k[i] == '[' || k[i] == ']' || k[i]
            == '\n'))
}

/// A key the text format can carry in a `key=value` line; the parser takes
/// it literally, so it may hold dots.
pub open spec fn value_key_ok(k: Seq<char>) -> bool {
    k.len() > 0 && (forall|i: int|
        0 <= i < k.len() ==> !(k[i] == '=' || k[i] == '[' || k[i] == ']' || k[i] == '\n'))
}

/// A value the text format can carry on one line.
pub open spec fn value_ok(v: Seq<char>) -> bool {
    forall|i: int| 0 <= i < v.len() ==> v[i] != '\n'
}

/// A document of scalar entries at the root, with carriable keys and values.
pub open spec fn flat_canonical(t: TableV) -> bool {
    &&& t.wf()
    &&& (forall|i: int|
        0 <= i < t.entries.len() ==> (#[trigger] t.entries[i]).node is Leaf)
    &&& (forall|i: int|
        0 <= i < t.entries.len() ==> value_key_ok((#[trigger] t.entries[i]).key))
    &&& (forall|i: int|
        0 <= i < t.entries.len() ==> value_ok((#[trigger] t.entries[i]).node->Leaf_0))
}

/// Splitting a separator-free text yields it whole, appended to the open
/// segment.
proof fn lemma_split_acc_no_sep(s: Seq<char>, sep: char, cur: Seq<char>)
    requires
        forall|i: int| 0 <= i < s.len() ==> s[i] != sep,
    ensures
        split_acc(s, sep, cur) == seq![cur + s],
    decreases s.len(),
{
    if s.len() == 0 {
        assert(cur + s =~= cur);
    } else {
        lemma_split_acc_no_sep(s.drop_first(), sep, cur.push(s[0]));
        assert(cur.push(s[0]) + s.drop_first() =~= cur + s);
    }
}

/// Splitting text that opens with a separator-free stretch, the separator,
/// and a remainder: the stretch closes the open segment, the remainder is
/// split afresh.
proof fn lemma_split_acc_through(a: Seq<char>, b: Seq<char>, sep: char, cur: Seq<char>)
    requires
        forall|i: int| 0 <= i < a.len() ==> a[i] != sep,
    ensures
        split_acc(a + seq![sep] + b, sep, cur) == seq![cur + a] + split_acc(b, sep, Seq::empty()),
    decreases a.len(),
{
    let s = a + seq![sep] + b;
    if a.len() == 0 {
        assert(s[0] == sep);
        assert(s.drop_first() =~= b);
        assert(cur + a =~= cur);
    } else {
        assert(s[0] == a[0]);
        assert(s.drop_first() =~= a.drop_first() + seq![sep] + b);
        lemma_split_acc_through(a.drop_first(), b, sep, cur.push(a[0]));
        assert(cur.push(a[0]) + a.drop_first() =~= cur + a);
    }
}

/// The lines of a value line followed by more text: the `key=value` pair,
/// then the lines of the rest.
proof fn lemma_lines_of_value_line(k: Seq<char>, v: Seq<char>, rest: Seq<char>)
    requires
        value_key_ok(k),
        value_ok(v),
    ensures
        spec_lines(value_line(k, v) + rest) == seq![k + seq!['='] + v] + spec_lines(rest),
{
    let body = k + seq!['='] + v + seq!['\r'];
    assert forall|i: int| 0 <= i < body.len() implies body[i] != '\n' by {
        if i < k.len() {
            assert(body[i] == k[i]);
        } else if i == k.len() {
        } else if i < k.len() + 1 + v.len() {
            assert(body[i] == v[i - k.len() - 1]);
        }
    }
    assert(value_line(k, v) + rest =~= body + seq!['\n'] + rest);
    lemma_split_acc_through(body, rest, '\n', Seq::empty());
    assert(Seq::<char>::empty() + body =~= body);
    assert(split_sep(value_line(k, v) + rest, '\n') == seq![body] + split_sep(rest, '\n'));
    assert(strip_cr(body) =~= k + seq!['='] + v);
    assert(spec_lines(value_line(k, v) + rest) =~= seq![k + seq!['='] + v] + spec_lines(rest));
}

/// How the parser reads one `key=value` line at the root: the scalar is
/// appended to the document.
proof fn lemma_parse_value_line(root: TableV, k: Seq<char>, v: Seq<char>)
    requires
        value_key_ok(k),
        value_ok(v),
        !root.has_key(k),
    ensures
        spec_parse_line((Seq::<Seq<char>>::empty(), root), k + seq!['='] + v) == Ok::<_, Error>(
            (
                Seq::<Seq<char>>::empty(),
                TableV { entries: root.entries.push(EntryV { key: k, node: NodeV::Leaf(v) }) },
            ),
        ),
{
    let l = k + seq!['='] + v;
    assert(l.len() == k.len() + 1 + v.len());
    assert(l[k.len() as int] == '=');
    assert(!is_blank(l)) by {
        assert(l[k.len() as int] == '=');
    }
    assert(l[0] == k[0]);
    assert(l[0] != '[');
    assert(has_eq(l));
    let e = eq_at(l);
    assert forall|j: int| 0 <= j < k.len() implies l[j] != '=' by {
        assert(l[j] == k[j]);
    }
    assert(0 <= k.len() < l.len() && l[k.len() as int] == '=' && (forall|j: int|
        0 <= j < k.len() ==> l[j] != '='));
    assert(e == k.len()) by {
        if e < k.len() {
            assert(l[e] != '=');
        } else if e > k.len() {
            assert(l[k.len() as int] != '=');
        }
    }
    assert(l.subrange(0, e) =~= k);
    assert(l.subrange(e + 1, l.len() as int) =~= v);
    let path = Seq::<Seq<char>>::empty() + seq![k];
    assert(path =~= seq![k]);
    assert(with_value_at_v(root, path, 0, v) == Some(
        TableV { entries: root.entries.push(EntryV { key: k, node: NodeV::Leaf(v) }) },
    ));
}

/// The serializer writes nothing for subtables of a flat document.
proof fn lemma_flat_no_subs(t: TableV, i: int)
    requires
        forall|j: int| 0 <= j < t.entries.len() ==> (#[trigger] t.entries[j]).node is Leaf,
        0 <= i,
    ensures
        ser_subs(t, Seq::empty(), i) == Seq::<char>::empty(),
    decreases t.entries.len() - i,
{
    if i < t.entries.len() {
        lemma_flat_no_subs(t, i + 1);
    }
}

/// Parsing the value lines of the remaining entries extends the document by
/// exactly those entries.
#[verifier::rlimit(100)]
proof fn lemma_flat_values_rt(t: TableV, i: int, acc: TableV)
    requires
        flat_canonical(t),
        0 <= i <= t.entries.len(),
        acc.entries == t.entries.subrange(0, i),
    ensures
        spec_parse_lines(
            spec_lines(ser_values(t.entries.subrange(i, t.entries.len() as int))),
            (Seq::<Seq<char>>::empty(), acc),
        ) == Ok::<_, Error>((Seq::<Seq<char>>::empty(), TableV { entries: t.entries })),
    decreases t.entries.len() - i,
{
    let rem = t.entries.subrange(i, t.entries.len() as int);
    if i == t.entries.len() {
        assert(rem =~= Seq::<EntryV>::empty());
        assert(ser_values(rem) == Seq::<char>::empty());
        let ls = spec_lines(Seq::<char>::empty());
        assert(split_acc(Seq::<char>::empty(), '\n', Seq::empty()) == seq![
            Seq::<char>::empty(),
        ]);
        assert(ls =~= seq![Seq::<char>::empty()]);
        assert(is_blank(Seq::<char>::empty()));
        assert(spec_parse_line((Seq::<Seq<char>>::empty(), acc), Seq::empty()) == Ok::<_, Error>(
            (Seq::<Seq<char>>::empty(), acc),
        ));
        assert(ls.drop_first() =~= Seq::<Seq<char>>::empty());
        assert(spec_parse_lines(ls, (Seq::<Seq<char>>::empty(), acc)) == spec_parse_lines(
            ls.drop_first(),
            (Seq::<Seq<char>>::empty(), acc),
        ));
        assert(acc.entries =~= t.entries);
        assert(acc =~= TableV { entries: t.entries });
    } else {
        let e = t.entries[i];
        assert(rem[0] == e);
        assert(e.node is Leaf);
        let k = e.key;
        let v = e.node->Leaf_0;
        let rest = ser_values(t.entries.subrange(i + 1, t.entries.len() as int));
        assert(rem.drop_first() =~= t.entries.subrange(i + 1, t.entries.len() as int));
        assert(ser_values(rem) == value_line(k, v) + rest);
        lemma_lines_of_value_line(k, v, rest);
        assert(!acc.has_key(k)) by {
            if acc.has_key(k) {
                let w = acc.index_of_key(k);
                assert(acc.entries[w] == t.entries[w]);
                assert(t.entries[w].key == t.entries[i].key);
            }
        }
        lemma_parse_value_line(acc, k, v);
        let acc2 = TableV { entries: acc.entries.push(EntryV { key: k, node: NodeV::Leaf(v) }) };
        assert(EntryV { key: k, node: NodeV::Leaf(v) } == e);
        assert(acc2.entries =~= t.entries.subrange(0, i + 1));
        let ls = spec_lines(ser_values(rem));
        assert(ls == seq![k + seq!['='] + v] + spec_lines(rest));
        assert(ls[0] == k + seq!['='] + v);
        assert(ls.drop_first() =~= spec_lines(rest));
        lemma_flat_values_rt(t, i + 1, acc2);
        let st0 = (Seq::<Seq<char>>::empty(), acc);
        let st2 = (Seq::<Seq<char>>::empty(), acc2);
        assert(spec_parse_line(st0, ls[0]) == Ok::<_, Error>(st2));
        assert(spec_parse_lines(ls, st0) == spec_parse_lines(ls.drop_first(), st2));
        assert(spec_parse_lines(spec_lines(rest), st2) == Ok::<_, Error>(
            (Seq::<Seq<char>>::empty(), TableV { entries: t.entries }),
        ));
        assert(spec_parse_lines(ls.drop_first(), st2) == spec_parse_lines(spec_lines(rest), st2));
    }
}

/// Round trip for a document of scalar entries at the root: parsing its
/// serialization yields it back unchanged.
pub proof fn lemma_flat_round_trip(t: TableV)
    requires
        flat_canonical(t),
    ensures
        spec_parse(crate::codec::spec_serialize(t)) == Ok::<TableV, Error>(t),
{
    lemma_flat_no_subs(t, 0);
    assert(crate::codec::spec_serialize(t) =~= ser_values(t.entries));
    assert(t.entries.subrange(0, t.entries.len() as int) =~= t.entries);
    assert(t.entries.subrange(0, 0) =~= Seq::<EntryV>::empty());
    let empty_acc = TableV { entries: Seq::empty() };
    assert(empty_acc.entries == t.entries.subrange(0, 0));
    lemma_flat_values_rt(t, 0, empty_acc);
    assert(TableV { entries: t.entries } =~= t);
}

/// Inserting along a two-segment path whose section is absent: the section's
/// table is created at the end of the document, holding the one scalar.
proof fn lemma_insert_fresh_section(base: TableV, kj: Seq<char>, k: Seq<char>, v: Seq<char>)
    requires
        !base.has_key(kj),
    ensures
        with_value_at_v(base, seq![kj, k], 0, v) == Some(
            TableV {
                entries: base.entries.push(
                    EntryV {
                        key: kj,
                        node: NodeV::Sub(
                            TableV { entries: seq![EntryV { key: k, node: NodeV::Leaf(v) }] },
                        ),
                    },
                ),
            },
        ),
{
    let path = seq![kj, k];
    assert(path[0] == kj && path[1] == k);
    let empty_t = TableV { entries: Seq::<EntryV>::empty() };
    assert(!empty_t.has_key(k));
    assert(with_value_at_v(empty_t, path, 1, v) == Some(
        TableV { entries: Seq::<EntryV>::empty().push(EntryV { key: k, node: NodeV::Leaf(v) }) },
    ));
    assert(Seq::<EntryV>::empty().push(EntryV { key: k, node: NodeV::Leaf(v) }) =~= seq![
        EntryV { key: k, node: NodeV::Leaf(v) },
    ]);
}

/// How the parser reads a section's first `key=value` line: the section's
/// table is created at the end of the document, holding the one scalar.
proof fn lemma_parse_section_first_line(base: TableV, kj: Seq<char>, k: Seq<char>, v: Seq<char>)
    requires
        key_ok(kj),
        value_key_ok(k),
        value_ok(v),
        !base.has_key(kj),
    ensures
        spec_parse_line((seq![kj], base), k + seq!['='] + v) == Ok::<_, Error>(
            (
                seq![kj],
                TableV {
                    entries: base.entries.push(
                        EntryV {
                            key: kj,
                            node: NodeV::Sub(
                                TableV { entries: seq![EntryV { key: k, node: NodeV::Leaf(v) }] },
                            ),
                        },
                    ),
                },
            ),
        ),
{
    let l = k + seq!['='] + v;
    assert(l.len() == k.len() + 1 + v.len());
    assert(l[k.len() as int] == '=');
    assert(!is_blank(l)) by {
        assert(l[k.len() as int] == '=');
    }
    assert(l[0] == k[0]);
    assert(l[0] != '[');
    assert(has_eq(l));
    let e = eq_at(l);
    assert forall|j: int| 0 <= j < k.len() implies l[j] != '=' by {
        assert(l[j] == k[j]);
    }
    assert(0 <= k.len() < l.len() && l[k.len() as int] == '=' && (forall|j: int|
        0 <= j < k.len() ==> l[j] != '='));
    assert(e == k.len()) by {
        if e < k.len() {
            assert(l[e] != '=');
        } else if e > k.len() {
            assert(l[k.len() as int] != '=');
        }
    }
    assert(l.subrange(0, e) =~= k);
    assert(l.subrange(e + 1, l.len() as int) =~= v);
    let path = seq![kj] + seq![k];
    assert(path =~= seq![kj, k]);
    lemma_insert_fresh_section(base, kj, k, v);
}

/// Inserting along a two-segment path whose section exists as the last
/// entry of the document: the scalar lands in that section's table.
proof fn lemma_insert_into_last_section(
    base: TableV,
    kj: Seq<char>,
    partial: TableV,
    k: Seq<char>,
    v: Seq<char>,
)
    requires
        !base.has_key(kj),
        !partial.has_key(k),
    ensures
        with_value_at_v(
            TableV { entries: base.entries.push(EntryV { key: kj, node: NodeV::Sub(partial) }) },
            seq![kj, k],
            0,
            v,
        ) == Some(
            TableV {
                entries: base.entries.push(
                    EntryV {
                        key: kj,
                        node: NodeV::Sub(
                            TableV {
                                entries: partial.entries.push(
                                    EntryV { key: k, node: NodeV::Leaf(v) },
                                ),
                            },
                        ),
                    },
                ),
            },
        ),
{
    let root = TableV {
        entries: base.entries.push(EntryV { key: kj, node: NodeV::Sub(partial) }),
    };
    let path = seq![kj, k];
    let last = base.entries.len() as int;
    assert(root.entries[last].key == kj);
    assert(root.has_key(kj));
    assert(root.index_of_key(kj) == last) by {
        let w = root.index_of_key(kj);
        if w != last {
            assert(root.entries[w] == base.entries[w]);
            assert(base.has_key(kj));
        }
    }
    assert(path[0] == kj && path[1] == k);
    assert(with_value_at_v(partial, path, 1, v) == Some(
        TableV { entries: partial.entries.push(EntryV { key: k, node: NodeV::Leaf(v) }) },
    ));
    let partial2 = TableV {
        entries: partial.entries.push(EntryV { key: k, node: NodeV::Leaf(v) }),
    };
    assert(root.entries.update(last, EntryV { key: kj, node: NodeV::Sub(partial2) })
        =~= base.entries.push(EntryV { key: kj, node: NodeV::Sub(partial2) }));
}

/// How the parser reads a section's later `key=value` line: the scalar is
/// appended to the section's table, the last entry of the document.
proof fn lemma_parse_section_value_line(
    base: TableV,
    kj: Seq<char>,
    partial: TableV,
    k: Seq<char>,
    v: Seq<char>,
)
    requires
        key_ok(kj),
        value_key_ok(k),
        value_ok(v),
        !base.has_key(kj),
        !partial.has_key(k),
    ensures
        spec_parse_line(
            (
                seq![kj],
                TableV { entries: base.entries.push(EntryV { key: kj, node: NodeV::Sub(partial) }) },
            ),
            k + seq!['='] + v,
        ) == Ok::<_, Error>(
            (
                seq![kj],
                TableV {
                    entries: base.entries.push(
                        EntryV {
                            key: kj,
                            node: NodeV::Sub(
                                TableV {
                                    entries: partial.entries.push(
                                        EntryV { key: k, node: NodeV::Leaf(v) },
                                    ),
                                },
                            ),
                        },
                    ),
                },
            ),
        ),
{
    let l = k + seq!['='] + v;
    assert(l.len() == k.len() + 1 + v.len());
    assert(l[k.len() as int] == '=');
    assert(!is_blank(l)) by {
        assert(l[k.len() as int] == '=');
    }
    assert(l[0] == k[0]);
    assert(l[0] != '[');
    assert(has_eq(l));
    let e = eq_at(l);
    assert forall|j: int| 0 <= j < k.len() implies l[j] != '=' by {
        assert(l[j] == k[j]);
    }
    assert(0 <= k.len() < l.len() && l[k.len() as int] == '=' && (forall|j: int|
        0 <= j < k.len() ==> l[j] != '='));
    assert(e == k.len()) by {
        if e < k.len() {
            assert(l[e] != '=');
        } else if e > k.len() {
            assert(l[k.len() as int] != '=');
        }
    }
    assert(l.subrange(0, e) =~= k);
    assert(l.subrange(e + 1, l.len() as int) =~= v);
    let path = seq![kj] + seq![k];
    assert(path =~= seq![kj, k]);
    lemma_insert_into_last_section(base, kj, partial, k, v);
}

/// The lines of a section header followed by more text.
proof fn lemma_lines_of_header_line(k: Seq<char>, rest: Seq<char>)
    requires
        key_ok(k),
    ensures
        spec_lines(crate::codec::header_line(k) + rest) == seq![seq!['['] + k + seq![']']]
            + spec_lines(rest),
{
    let body = seq!['['] + k + seq![']'] + seq!['\r'];
    assert forall|i: int| 0 <= i < body.len() implies body[i] != '\n' by {
        if 1 <= i < k.len() + 1 {
            assert(body[i] == k[i - 1]);
        }
    }
    assert(crate::codec::header_line(k) + rest =~= body + seq!['\n'] + rest);
    lemma_split_acc_through(body, rest, '\n', Seq::empty());
    assert(Seq::<char>::empty() + body =~= body);
    assert(strip_cr(body) =~= seq!['['] + k + seq![']']);
    assert(spec_lines(crate::codec::header_line(k) + rest) =~= seq![seq!['['] + k + seq![']']]
        + spec_lines(rest));
}

/// How the parser reads one section header: the current path becomes the
/// named section, the document is untouched.
proof fn lemma_parse_header(cp: Seq<Seq<char>>, root: TableV, k: Seq<char>)
    requires
        key_ok(k),
    ensures
        spec_parse_line((cp, root), seq!['['] + k + seq![']']) == Ok::<_, Error>((seq![k], root)),
{
    let l = seq!['['] + k + seq![']'];
    assert(l.len() == k.len() + 2);
    assert(l[0] == '[');
    assert(!is_blank(l)) by {
        assert(l[0] == '[');
    }
    assert(l.last() == ']');
    let inner = l.subrange(1, l.len() - 1);
    assert(inner =~= k);
    lemma_split_acc_no_sep(k, '.', Seq::empty());
    assert(Seq::<char>::empty() + k =~= k);
    assert(split_sep(inner, '.') == seq![k]);
}

/// A table of scalar entries only, at least one, with carriable keys and
/// values: the shape of one section's body.
pub open spec fn leaf_table(s: TableV) -> bool {
    &&& s.wf()
    &&& s.entries.len() >= 1
    &&& (forall|i: int| 0 <= i < s.entries.len() ==> (#[trigger] s.entries[i]).node is Leaf)
    &&& (forall|i: int|
        0 <= i < s.entries.len() ==> value_key_ok((#[trigger] s.entries[i]).key))
    &&& (forall|i: int|
        0 <= i < s.entries.len() ==> value_ok((#[trigger] s.entries[i]).node->Leaf_0))
}

/// A document of sections at the root, each holding scalar entries: the
/// shape an alias document takes.
pub open spec fn sectioned_canonical(t: TableV) -> bool {
    &&& t.wf()
    &&& (forall|i: int| 0 <= i < t.entries.len() ==> (#[trigger] t.entries[i]).node is Sub)
    &&& (forall|i: int| 0 <= i < t.entries.len() ==> key_ok((#[trigger] t.entries[i]).key))
    &&& (forall|i: int|
        0 <= i < t.entries.len() ==> leaf_table((#[trigger] t.entries[i]).node->Sub_0))
}

/// The serializer writes no value lines for a table of subtables.
proof fn lemma_no_values(entries: Seq<EntryV>)
    requires
        forall|j: int| 0 <= j < entries.len() ==> (#[trigger] entries[j]).node is Sub,
    ensures
        ser_values(entries) == Seq::<char>::empty(),
    decreases entries.len(),
{
    if entries.len() > 0 {
        lemma_no_values(entries.drop_first());
    }
}

/// The serializer writes nothing for the subtables of a table of scalars.
proof fn lemma_leaf_table_no_subs(s: TableV, prefix: Seq<char>, i: int)
    requires
        forall|j: int| 0 <= j < s.entries.len() ==> (#[trigger] s.entries[j]).node is Leaf,
        0 <= i,
    ensures
        ser_subs(s, prefix, i) == Seq::<char>::empty(),
    decreases s.entries.len() - i,
{
    if i < s.entries.len() {
        lemma_leaf_table_no_subs(s, prefix, i + 1);
    }
}

/// Parsing the remaining value lines of a section extends its table, the
/// last entry of the document, by exactly those scalars.
proof fn lemma_section_leaves_rt(base: TableV, kj: Seq<char>, s: TableV, m: int, rest: Seq<char>)
    requires
        leaf_table(s),
        key_ok(kj),
        1 <= m <= s.entries.len(),
        !base.has_key(kj),
    ensures
        spec_parse_lines(
            spec_lines(ser_values(s.entries.subrange(m, s.entries.len() as int)) + rest),
            (
                seq![kj],
                TableV {
                    entries: base.entries.push(
                        EntryV {
                            key: kj,
                            node: NodeV::Sub(TableV { entries: s.entries.subrange(0, m) }),
                        },
                    ),
                },
            ),
        ) == spec_parse_lines(
            spec_lines(rest),
            (
                seq![kj],
                TableV { entries: base.entries.push(EntryV { key: kj, node: NodeV::Sub(s) }) },
            ),
        ),
    decreases s.entries.len() - m,
{
    let rem = s.entries.subrange(m, s.entries.len() as int);
    if m == s.entries.len() {
        assert(rem =~= Seq::<EntryV>::empty());
        assert(ser_values(rem) == Seq::<char>::empty());
        assert(Seq::<char>::empty() + rest =~= rest);
        assert(s.entries.subrange(0, m) =~= s.entries);
        assert(TableV { entries: s.entries.subrange(0, m) } =~= s);
    } else {
        let e = s.entries[m];
        assert(rem[0] == e);
        assert(e.node is Leaf);
        let k = e.key;
        let v = e.node->Leaf_0;
        let tail = ser_values(s.entries.subrange(m + 1, s.entries.len() as int));
        assert(rem.drop_first() =~= s.entries.subrange(m + 1, s.entries.len() as int));
        assert(ser_values(rem) == value_line(k, v) + tail);
        assert(ser_values(rem) + rest =~= value_line(k, v) + (tail + rest));
        lemma_lines_of_value_line(k, v, tail + rest);
        let partial = TableV { entries: s.entries.subrange(0, m) };
        assert(!partial.has_key(k)) by {
            if partial.has_key(k) {
                let w = partial.index_of_key(k);
                assert(partial.entries[w] == s.entries[w]);
                assert(s.entries[w].key == s.entries[m as int].key);
            }
        }
        lemma_parse_section_value_line(base, kj, partial, k, v);
        let partial2 = TableV {
            entries: partial.entries.push(EntryV { key: k, node: NodeV::Leaf(v) }),
        };
        assert(partial2.entries =~= s.entries.subrange(0, m + 1));
        assert(EntryV { key: k, node: NodeV::Leaf(v) } == e);
        let ls = spec_lines(ser_values(rem) + rest);
        assert(ls == seq![k + seq!['='] + v] + spec_lines(tail + rest));
        assert(ls[0] == k + seq!['='] + v);
        assert(ls.drop_first() =~= spec_lines(tail + rest));
        lemma_section_leaves_rt(base, kj, s, m + 1, rest);
        assert(TableV { entries: s.entries.subrange(0, m + 1) } =~= partial2);
    }
}

/// Parsing a section's value lines from just after its header: the
/// section's table is created and filled, then the rest of the text runs on.
#[verifier::rlimit(100)]
proof fn lemma_section_body_rt(base: TableV, kj: Seq<char>, s: TableV, rest: Seq<char>)
    requires
        leaf_table(s),
        key_ok(kj),
        !base.has_key(kj),
    ensures
        spec_parse_lines(spec_lines(ser_values(s.entries) + rest), (seq![kj], base))
            == spec_parse_lines(
            spec_lines(rest),
            (
                seq![kj],
                TableV { entries: base.entries.push(EntryV { key: kj, node: NodeV::Sub(s) }) },
            ),
        ),
{
    let e0 = s.entries[0];
    assert(e0.node is Leaf);
    let k0 = e0.key;
    let v0 = e0.node->Leaf_0;
    let tail0 = ser_values(s.entries.subrange(1, s.entries.len() as int));
    assert(ser_values(s.entries) == value_line(k0, v0) + tail0) by {
        assert(s.entries.len() > 0);
        assert(s.entries[0] == e0);
        assert(s.entries.drop_first() =~= s.entries.subrange(1, s.entries.len() as int));
    }
    assert(ser_values(s.entries) + rest =~= value_line(k0, v0) + (tail0 + rest));
    lemma_lines_of_value_line(k0, v0, tail0 + rest);
    let ls2 = spec_lines(ser_values(s.entries) + rest);
    assert(ls2[0] == k0 + seq!['='] + v0);
    assert(ls2.drop_first() =~= spec_lines(tail0 + rest));
    lemma_parse_section_first_line(base, kj, k0, v0);
    let partial1 = TableV { entries: seq![EntryV { key: k0, node: NodeV::Leaf(v0) }] };
    assert(partial1.entries =~= s.entries.subrange(0, 1));
    assert(EntryV { key: k0, node: NodeV::Leaf(v0) } == e0);
    lemma_section_leaves_rt(base, kj, s, 1, rest);
    assert(TableV { entries: s.entries.subrange(0, 1) } =~= partial1);
    assert(TableV { entries: s.entries.subrange(0, 1) } == partial1);
    assert(spec_parse_lines(ls2, (seq![kj], base)) == spec_parse_lines(
        ls2.drop_first(),
        (
            seq![kj],
            TableV {
                entries: base.entries.push(EntryV { key: kj, node: NodeV::Sub(partial1) }),
            },
        ),
    ));
    assert(ls2.drop_first() == spec_lines(
        ser_values(s.entries.subrange(1, s.entries.len() as int)) + rest,
    ));
}

/// Parsing one serialized section appends the section's table to the
/// document and leaves the parser inside that section.
#[verifier::rlimit(100)]
proof fn lemma_section_rt(cp: Seq<Seq<char>>, base: TableV, kj: Seq<char>, s: TableV, rest: Seq<char>)
    requires
        leaf_table(s),
        key_ok(kj),
        !base.has_key(kj),
    ensures
        spec_parse_lines(
            spec_lines(crate::codec::header_line(kj) + (ser_values(s.entries) + rest)),
            (cp, base),
        ) == spec_parse_lines(
            spec_lines(rest),
            (
                seq![kj],
                TableV { entries: base.entries.push(EntryV { key: kj, node: NodeV::Sub(s) }) },
            ),
        ),
{
    lemma_lines_of_header_line(kj, ser_values(s.entries) + rest);
    lemma_parse_header(cp, base, kj);
    let ls = spec_lines(crate::codec::header_line(kj) + (ser_values(s.entries) + rest));
    assert(ls[0] == seq!['['] + kj + seq![']']);
    assert(ls.drop_first() =~= spec_lines(ser_values(s.entries) + rest));
    assert(spec_parse_lines(ls, (cp, base)) == spec_parse_lines(
        ls.drop_first(),
        (seq![kj], base),
    ));
    lemma_section_body_rt(base, kj, s, rest);
    assert(ls.drop_first() == spec_lines(ser_values(s.entries) + rest));
}

/// Parsing the serialized sections from position `j` on extends the
/// document by exactly those sections.
#[verifier::rlimit(100)]
proof fn lemma_sections_rt(t: TableV, j: int, cp: Seq<Seq<char>>, acc: TableV)
    requires
        sectioned_canonical(t),
        0 <= j <= t.entries.len(),
        acc.entries == t.entries.subrange(0, j),
    ensures
        spec_parse_lines(spec_lines(ser_subs(t, Seq::empty(), j)), (cp, acc)) == Ok::<_, Error>(
            (
                if j == t.entries.len() {
                    cp
                } else {
                    seq![t.entries.last().key]
                },
                TableV { entries: t.entries },
            ),
        ),
    decreases t.entries.len() - j,
{
    if j == t.entries.len() {
        assert(ser_subs(t, Seq::empty(), j) == Seq::<char>::empty());
        let ls = spec_lines(Seq::<char>::empty());
        assert(split_acc(Seq::<char>::empty(), '\n', Seq::empty()) == seq![Seq::<char>::empty()]);
        assert(ls =~= seq![Seq::<char>::empty()]);
        assert(is_blank(Seq::<char>::empty()));
        assert(spec_parse_line((cp, acc), Seq::empty()) == Ok::<_, Error>((cp, acc)));
        assert(ls.drop_first() =~= Seq::<Seq<char>>::empty());
        assert(spec_parse_lines(Seq::<Seq<char>>::empty(), (cp, acc)) == Ok::<_, Error>(
            (cp, acc),
        ));
        assert(ls[0] == Seq::<char>::empty());
        assert(ls.len() == 1);
        assert(spec_parse_lines(ls, (cp, acc)) == Ok::<_, Error>((cp, acc)));
        assert(acc.entries =~= t.entries);
        assert(acc =~= TableV { entries: t.entries });
        assert(acc == TableV { entries: t.entries });
    } else {
        let e = t.entries[j];
        assert(e.node is Sub);
        let kj = e.key;
        let s = e.node->Sub_0;
        assert(leaf_table(s));
        assert(crate::codec::has_direct_values(s)) by {
            assert(s.entries[0].node is Leaf);
        }
        let rest = ser_subs(t, Seq::empty(), j + 1);
        assert(ser_subs(s, (Seq::empty() + kj) + seq!['.'], 0) == Seq::<char>::empty()) by {
            lemma_leaf_table_no_subs(s, (Seq::empty() + kj) + seq!['.'], 0);
        }
        assert(crate::codec::ser_table(s, (Seq::empty() + kj) + seq!['.']) =~= ser_values(
            s.entries,
        ));
        assert(Seq::<char>::empty() + kj =~= kj);
        assert(ser_subs(t, Seq::empty(), j) =~= crate::codec::header_line(kj) + (ser_values(
            s.entries,
        ) + rest));
        assert(!acc.has_key(kj)) by {
            if acc.has_key(kj) {
                let w = acc.index_of_key(kj);
                assert(acc.entries[w] == t.entries[w]);
                assert(t.entries[w].key == t.entries[j].key);
            }
        }
        lemma_section_rt(cp, acc, kj, s, rest);
        let acc2 = TableV { entries: acc.entries.push(EntryV { key: kj, node: NodeV::Sub(s) }) };
        assert(acc2.entries =~= t.entries.subrange(0, j + 1));
        assert(EntryV { key: kj, node: NodeV::Sub(s) } == e);
        assert(spec_lines(ser_subs(t, Seq::empty(), j)) == spec_lines(
            crate::codec::header_line(kj) + (ser_values(s.entries) + rest),
        ));
        lemma_sections_rt(t, j + 1, seq![kj], acc2);
        assert(spec_parse_lines(spec_lines(ser_subs(t, Seq::empty(), j)), (cp, acc))
            == spec_parse_lines(spec_lines(rest), (seq![kj], acc2)));
        if j + 1 == t.entries.len() {
            assert(t.entries.last() == e);
            assert(seq![kj] =~= seq![t.entries.last().key]);
        } else {
            assert(j + 1 < t.entries.len());
        }
    }
}

/// Round trip for a document of sections of scalars — the shape an alias
/// document takes: parsing its serialization yields it back unchanged.
pub proof fn lemma_sectioned_round_trip(t: TableV)
    requires
        sectioned_canonical(t),
    ensures
        spec_parse(crate::codec::spec_serialize(t)) == Ok::<TableV, Error>(t),
{
    lemma_no_values(t.entries);
    assert(crate::codec::spec_serialize(t) =~= ser_subs(t, Seq::empty(), 0));
    assert(t.entries.subrange(0, 0) =~= Seq::<EntryV>::empty());
    let empty_acc = TableV { entries: Seq::<EntryV>::empty() };
    assert(empty_acc.entries == t.entries.subrange(0, 0));
    lemma_sections_rt(t, 0, Seq::<Seq<char>>::empty(), empty_acc);
    assert(TableV { entries: t.entries } =~= t);
}

/// The lines of a two-segment section header followed by more text.
proof fn lemma_lines_of_header2(ks: Seq<char>, kt: Seq<char>, rest: Seq<char>)
    requires
        key_ok(ks),
        key_ok(kt),
    ensures
        spec_lines(crate::codec::header_line(ks + seq!['.'] + kt) + rest) == seq![
            seq!['['] + (ks + seq!['.'] + kt) + seq![']'],
        ] + spec_lines(rest),
{
    let name = ks + seq!['.'] + kt;
    let body = seq!['['] + name + seq![']'] + seq!['\r'];
    assert forall|i: int| 0 <= i < body.len() implies body[i] != '\n' by {
        if 1 <= i < name.len() + 1 {
            let j = i - 1;
            if j < ks.len() {
                assert(name[j] == ks[j]);
            } else if j == ks.len() {
                assert(name[j] == '.');
            } else {
                assert(name[j] == kt[j - ks.len() - 1]);
            }
            assert(body[i] == name[j]);
        }
    }
    assert(crate::codec::header_line(name) + rest =~= body + seq!['\n'] + rest);
    lemma_split_acc_through(body, rest, '\n', Seq::empty());
    assert(Seq::<char>::empty() + body =~= body);
    assert(strip_cr(body) =~= seq!['['] + name + seq![']']);
    assert(spec_lines(crate::codec::header_line(name) + rest) =~= seq![
        seq!['['] + name + seq![']'],
    ] + spec_lines(rest));
}

/// How the parser reads a two-segment section header: the current path
/// becomes the two segments, the document is untouched.
proof fn lemma_parse_header2(cp: Seq<Seq<char>>, root: TableV, ks: Seq<char>, kt: Seq<char>)
    requires
        key_ok(ks),
        key_ok(kt),
    ensures
        spec_parse_line((cp, root), seq!['['] + (ks + seq!['.'] + kt) + seq![']']) == Ok::<
            _,
            Error,
        >((seq![ks, kt], root)),
{
    let name = ks + seq!['.'] + kt;
    let l = seq!['['] + name + seq![']'];
    assert(l.len() == name.len() + 2);
    assert(l[0] == '[');
    assert(!is_blank(l)) by {
        assert(l[0] == '[');
    }
    assert(l.last() == ']');
    let inner = l.subrange(1, l.len() - 1);
    assert(inner =~= name);
    lemma_split_acc_through(ks, kt, '.', Seq::empty());
    lemma_split_acc_no_sep(kt, '.', Seq::empty());
    assert(Seq::<char>::empty() + ks =~= ks);
    assert(Seq::<char>::empty() + kt =~= kt);
    assert(split_sep(name, '.') == seq![ks] + seq![kt]);
    assert(seq![ks] + seq![kt] =~= seq![ks, kt]);
    assert(name.len() > 0) by {
        assert(name.len() == ks.len() + 1 + kt.len());
    }
}

/// Inserting along a three-segment path whose first two levels are absent:
/// the whole spine is created at the end of the document.
proof fn lemma_insert3_fresh_both(base: TableV, ks: Seq<char>, kt: Seq<char>, k: Seq<char>, v: Seq<char>)
    requires
        !base.has_key(ks),
    ensures
        with_value_at_v(base, seq![ks, kt, k], 0, v) == Some(
            TableV {
                entries: base.entries.push(
                    EntryV {
                        key: ks,
                        node: NodeV::Sub(
                            TableV {
                                entries: seq![
                                    EntryV {
                                        key: kt,
                                        node: NodeV::Sub(
                                            TableV {
                                                entries: seq![
                                                    EntryV { key: k, node: NodeV::Leaf(v) },
                                                ],
                                            },
                                        ),
                                    },
                                ],
                            },
                        ),
                    },
                ),
            },
        ),
{
    let path = seq![ks, kt, k];
    assert(path[0] == ks && path[1] == kt && path[2] == k);
    let empty_t = TableV { entries: Seq::<EntryV>::empty() };
    assert(!empty_t.has_key(k));
    assert(!empty_t.has_key(kt));
    assert(with_value_at_v(empty_t, path, 2, v) == Some(
        TableV { entries: Seq::<EntryV>::empty().push(EntryV { key: k, node: NodeV::Leaf(v) }) },
    ));
    assert(Seq::<EntryV>::empty().push(EntryV { key: k, node: NodeV::Leaf(v) }) =~= seq![
        EntryV { key: k, node: NodeV::Leaf(v) },
    ]);
    let u1 = TableV { entries: seq![EntryV { key: k, node: NodeV::Leaf(v) }] };
    assert(with_value_at_v(empty_t, path, 1, v) == Some(
        TableV {
            entries: Seq::<EntryV>::empty().push(EntryV { key: kt, node: NodeV::Sub(u1) }),
        },
    ));
    assert(Seq::<EntryV>::empty().push(EntryV { key: kt, node: NodeV::Sub(u1) }) =~= seq![
        EntryV { key: kt, node: NodeV::Sub(u1) },
    ]);
}

/// Inserting along a three-segment path whose section exists as the last
/// entry of the document but whose subsection is absent: the subsection is
/// created at the end of the section.
proof fn lemma_insert3_fresh_mid(
    base: TableV,
    ks: Seq<char>,
    s: TableV,
    kt: Seq<char>,
    k: Seq<char>,
    v: Seq<char>,
)
    requires
        !base.has_key(ks),
        !s.has_key(kt),
    ensures
        with_value_at_v(
            TableV { entries: base.entries.push(EntryV { key: ks, node: NodeV::Sub(s) }) },
            seq![ks, kt, k],
            0,
            v,
        ) == Some(
            TableV {
                entries: base.entries.push(
                    EntryV {
                        key: ks,
                        node: NodeV::Sub(
                            TableV {
                                entries: s.entries.push(
                                    EntryV {
                                        key: kt,
                                        node: NodeV::Sub(
                                            TableV {
                                                entries: seq![
                                                    EntryV { key: k, node: NodeV::Leaf(v) },
                                                ],
                                            },
                                        ),
                                    },
                                ),
                            },
                        ),
                    },
                ),
            },
        ),
{
    let root = TableV { entries: base.entries.push(EntryV { key: ks, node: NodeV::Sub(s) }) };
    let path = seq![ks, kt, k];
    assert(path[0] == ks && path[1] == kt && path[2] == k);
    let last = base.entries.len() as int;
    assert(root.entries[last].key == ks);
    assert(root.has_key(ks));
    assert(root.index_of_key(ks) == last) by {
        let w = root.index_of_key(ks);
        if w != last {
            assert(root.entries[w] == base.entries[w]);
            assert(base.has_key(ks));
        }
    }
    let empty_t = TableV { entries: Seq::<EntryV>::empty() };
    assert(!empty_t.has_key(k));
    assert(with_value_at_v(empty_t, path, 2, v) == Some(
        TableV { entries: Seq::<EntryV>::empty().push(EntryV { key: k, node: NodeV::Leaf(v) }) },
    ));
    assert(Seq::<EntryV>::empty().push(EntryV { key: k, node: NodeV::Leaf(v) }) =~= seq![
        EntryV { key: k, node: NodeV::Leaf(v) },
    ]);
    let u1 = TableV { entries: seq![EntryV { key: k, node: NodeV::Leaf(v) }] };
    assert(with_value_at_v(s, path, 1, v) == Some(
        TableV { entries: s.entries.push(EntryV { key: kt, node: NodeV::Sub(u1) }) },
    ));
    let s2 = TableV { entries: s.entries.push(EntryV { key: kt, node: NodeV::Sub(u1) }) };
    assert(root.entries.update(last, EntryV { key: ks, node: NodeV::Sub(s2) })
        =~= base.entries.push(EntryV { key: ks, node: NodeV::Sub(s2) }));
}

/// Inserting along a three-segment path whose section and subsection both
/// exist as the last entries of their parents: the scalar lands in the
/// subsection's table.
proof fn lemma_insert3_last(
    base: TableV,
    ks: Seq<char>,
    sbase: TableV,
    kt: Seq<char>,
    u: TableV,
    k: Seq<char>,
    v: Seq<char>,
)
    requires
        !base.has_key(ks),
        !sbase.has_key(kt),
        !u.has_key(k),
    ensures
        ({
            let s = TableV { entries: sbase.entries.push(EntryV { key: kt, node: NodeV::Sub(u) }) };
            let u2 = TableV { entries: u.entries.push(EntryV { key: k, node: NodeV::Leaf(v) }) };
            let s2 = TableV {
                entries: sbase.entries.push(EntryV { key: kt, node: NodeV::Sub(u2) }),
            };
            with_value_at_v(
                TableV { entries: base.entries.push(EntryV { key: ks, node: NodeV::Sub(s) }) },
                seq![ks, kt, k],
                0,
                v,
            ) == Some(
                TableV { entries: base.entries.push(EntryV { key: ks, node: NodeV::Sub(s2) }) },
            )
        }),
{
    let s = TableV { entries: sbase.entries.push(EntryV { key: kt, node: NodeV::Sub(u) }) };
    let u2 = TableV { entries: u.entries.push(EntryV { key: k, node: NodeV::Leaf(v) }) };
    let s2 = TableV { entries: sbase.entries.push(EntryV { key: kt, node: NodeV::Sub(u2) }) };
    let root = TableV { entries: base.entries.push(EntryV { key: ks, node: NodeV::Sub(s) }) };
    let path = seq![ks, kt, k];
    assert(path[0] == ks && path[1] == kt && path[2] == k);
    let last = base.entries.len() as int;
    assert(root.entries[last].key == ks);
    assert(root.has_key(ks));
    assert(root.index_of_key(ks) == last) by {
        let w = root.index_of_key(ks);
        if w != last {
            assert(root.entries[w] == base.entries[w]);
            assert(base.has_key(ks));
        }
    }
    let slast = sbase.entries.len() as int;
    assert(s.entries[slast].key == kt);
    assert(s.has_key(kt));
    assert(s.index_of_key(kt) == slast) by {
        let w = s.index_of_key(kt);
        if w != slast {
            assert(s.entries[w] == sbase.entries[w]);
            assert(sbase.has_key(kt));
        }
    }
    assert(with_value_at_v(u, path, 2, v) == Some(u2));
    assert(with_value_at_v(s, path, 1, v) == Some(
        TableV { entries: s.entries.update(slast, EntryV { key: kt, node: NodeV::Sub(u2) }) },
    ));
    assert(s.entries.update(slast, EntryV { key: kt, node: NodeV::Sub(u2) }) =~= s2.entries);
    assert(with_value_at_v(root, path, 0, v) == Some(
        TableV {
            entries: root.entries.update(last, EntryV { key: ks, node: NodeV::Sub(s2) }),
        },
    ));
    assert(root.entries.update(last, EntryV { key: ks, node: NodeV::Sub(s2) })
        =~= base.entries.push(EntryV { key: ks, node: NodeV::Sub(s2) }));
}

/// A section holding only subsections of scalars: the shape the `Object`
/// section takes, a header written for each subsection but none for the
/// section itself.
pub open spec fn umbrella_ok(s: TableV) -> bool {
    &&& s.wf()
    &&& s.entries.len() >= 1
    &&& (forall|i: int| 0 <= i < s.entries.len() ==> (#[trigger] s.entries[i]).node is Sub)
    &&& (forall|i: int| 0 <= i < s.entries.len() ==> key_ok((#[trigger] s.entries[i]).key))
    &&& (forall|i: int|
        0 <= i < s.entries.len() ==> leaf_table((#[trigger] s.entries[i]).node->Sub_0))
}

/// A document of sections, each of scalars or of subsections of scalars:
/// the shape an alias document and the transforms' outputs take.
pub open spec fn alias_canonical(t: TableV) -> bool {
    &&& t.wf()
    &&& (forall|i: int| 0 <= i < t.entries.len() ==> (#[trigger] t.entries[i]).node is Sub)
    &&& (forall|i: int| 0 <= i < t.entries.len() ==> key_ok((#[trigger] t.entries[i]).key))
    &&& (forall|i: int|
        0 <= i < t.entries.len() ==> (leaf_table((#[trigger] t.entries[i]).node->Sub_0)
            || umbrella_ok(t.entries[i].node->Sub_0)))
}

/// How the parser reads a subsection's later `key=value` line.
#[verifier::rlimit(100)]
proof fn lemma_parse_sub2_value_line(
    base: TableV,
    ks: Seq<char>,
    sbase: TableV,
    kt: Seq<char>,
    u: TableV,
    k: Seq<char>,
    v: Seq<char>,
)
    requires
        value_key_ok(k),
        value_ok(v),
        !base.has_key(ks),
        !sbase.has_key(kt),
        !u.has_key(k),
    ensures
        ({
            let s = TableV { entries: sbase.entries.push(EntryV { key: kt, node: NodeV::Sub(u) }) };
            let u2 = TableV { entries: u.entries.push(EntryV { key: k, node: NodeV::Leaf(v) }) };
            let s2 = TableV {
                entries: sbase.entries.push(EntryV { key: kt, node: NodeV::Sub(u2) }),
            };
            spec_parse_line(
                (
                    seq![ks, kt],
                    TableV { entries: base.entries.push(EntryV { key: ks, node: NodeV::Sub(s) }) },
                ),
                k + seq!['='] + v,
            ) == Ok::<_, Error>(
                (
                    seq![ks, kt],
                    TableV { entries: base.entries.push(EntryV { key: ks, node: NodeV::Sub(s2) }) },
                ),
            )
        }),
{
    let l = k + seq!['='] + v;
    assert(l.len() == k.len() + 1 + v.len());
    assert(l[k.len() as int] == '=');
    assert(!is_blank(l)) by {
        assert(l[k.len() as int] == '=');
    }
    assert(l[0] == k[0]);
    assert(l[0] != '[');
    assert(has_eq(l));
    let e = eq_at(l);
    assert forall|j: int| 0 <= j < k.len() implies l[j] != '=' by {
        assert(l[j] == k[j]);
    }
    assert(0 <= k.len() < l.len() && l[k.len() as int] == '=' && (forall|j: int|
        0 <= j < k.len() ==> l[j] != '='));
    assert(e == k.len()) by {
        if e < k.len() {
            assert(l[e] != '=');
        } else if e > k.len() {
            assert(l[k.len() as int] != '=');
        }
    }
    assert(l.subrange(0, e) =~= k);
    assert(l.subrange(e + 1, l.len() as int) =~= v);
    let path = seq![ks, kt] + seq![k];
    assert(path =~= seq![ks, kt, k]);
    lemma_insert3_last(base, ks, sbase, kt, u, k, v);
}

/// How the parser reads the first `key=value` line of a subsection whose
/// umbrella section already exists as the last entry of the document.
#[verifier::rlimit(100)]
proof fn lemma_parse_sub2_first_line(
    base: TableV,
    ks: Seq<char>,
    sp: TableV,
    kt: Seq<char>,
    k: Seq<char>,
    v: Seq<char>,
)
    requires
        value_key_ok(k),
        value_ok(v),
        !base.has_key(ks),
        !sp.has_key(kt),
    ensures
        ({
            let u1 = TableV { entries: seq![EntryV { key: k, node: NodeV::Leaf(v) }] };
            let s2 = TableV {
                entries: sp.entries.push(EntryV { key: kt, node: NodeV::Sub(u1) }),
            };
            spec_parse_line(
                (
                    seq![ks, kt],
                    TableV { entries: base.entries.push(EntryV { key: ks, node: NodeV::Sub(sp) }) },
                ),
                k + seq!['='] + v,
            ) == Ok::<_, Error>(
                (
                    seq![ks, kt],
                    TableV { entries: base.entries.push(EntryV { key: ks, node: NodeV::Sub(s2) }) },
                ),
            )
        }),
{
    let l = k + seq!['='] + v;
    assert(l.len() == k.len() + 1 + v.len());
    assert(l[k.len() as int] == '=');
    assert(!is_blank(l)) by {
        assert(l[k.len() as int] == '=');
    }
    assert(l[0] == k[0]);
    assert(l[0] != '[');
    assert(has_eq(l));
    let e = eq_at(l);
    assert forall|j: int| 0 <= j < k.len() implies l[j] != '=' by {
        assert(l[j] == k[j]);
    }
    assert(0 <= k.len() < l.len() && l[k.len() as int] == '=' && (forall|j: int|
        0 <= j < k.len() ==> l[j] != '='));
    assert(e == k.len()) by {
        if e < k.len() {
            assert(l[e] != '=');
        } else if e > k.len() {
            assert(l[k.len() as int] != '=');
        }
    }
    assert(l.subrange(0, e) =~= k);
    assert(l.subrange(e + 1, l.len() as int) =~= v);
    let path = seq![ks, kt] + seq![k];
    assert(path =~= seq![ks, kt, k]);
    lemma_insert3_fresh_mid(base, ks, sp, kt, k, v);
}

/// How the parser reads the very first `key=value` line under a fresh
/// umbrella section: both levels are created at once.
#[verifier::rlimit(100)]
proof fn lemma_parse_sub2_fresh_line(
    base: TableV,
    ks: Seq<char>,
    kt: Seq<char>,
    k: Seq<char>,
    v: Seq<char>,
)
    requires
        value_key_ok(k),
        value_ok(v),
        !base.has_key(ks),
    ensures
        ({
            let u1 = TableV { entries: seq![EntryV { key: k, node: NodeV::Leaf(v) }] };
            let s1 = TableV { entries: seq![EntryV { key: kt, node: NodeV::Sub(u1) }] };
            spec_parse_line((seq![ks, kt], base), k + seq!['='] + v) == Ok::<_, Error>(
                (
                    seq![ks, kt],
                    TableV { entries: base.entries.push(EntryV { key: ks, node: NodeV::Sub(s1) }) },
                ),
            )
        }),
{
    let l = k + seq!['='] + v;
    assert(l.len() == k.len() + 1 + v.len());
    assert(l[k.len() as int] == '=');
    assert(!is_blank(l)) by {
        assert(l[k.len() as int] == '=');
    }
    assert(l[0] == k[0]);
    assert(l[0] != '[');
    assert(has_eq(l));
    let e = eq_at(l);
    assert forall|j: int| 0 <= j < k.len() implies l[j] != '=' by {
        assert(l[j] == k[j]);
    }
    assert(0 <= k.len() < l.len() && l[k.len() as int] == '=' && (forall|j: int|
        0 <= j < k.len() ==> l[j] != '='));
    assert(e == k.len()) by {
        if e < k.len() {
            assert(l[e] != '=');
        } else if e > k.len() {
            assert(l[k.len() as int] != '=');
        }
    }
    assert(l.subrange(0, e) =~= k);
    assert(l.subrange(e + 1, l.len() as int) =~= v);
    let path = seq![ks, kt] + seq![k];
    assert(path =~= seq![ks, kt, k]);
    lemma_insert3_fresh_both(base, ks, kt, k, v);
}

/// Parsing the remaining value lines of a subsection extends its table,
/// the last entry of the last section of the document.
#[verifier::rlimit(100)]
proof fn lemma_subsection_leaves_rt(
    base: TableV,
    ks: Seq<char>,
    sbase: TableV,
    kt: Seq<char>,
    u: TableV,
    m: int,
    rest: Seq<char>,
)
    requires
        leaf_table(u),
        1 <= m <= u.entries.len(),
        !base.has_key(ks),
        !sbase.has_key(kt),
    ensures
        ({
            let part = TableV { entries: u.entries.subrange(0, m) };
            let s_m = TableV {
                entries: sbase.entries.push(EntryV { key: kt, node: NodeV::Sub(part) }),
            };
            let s_full = TableV {
                entries: sbase.entries.push(EntryV { key: kt, node: NodeV::Sub(u) }),
            };
            spec_parse_lines(
                spec_lines(ser_values(u.entries.subrange(m, u.entries.len() as int)) + rest),
                (
                    seq![ks, kt],
                    TableV {
                        entries: base.entries.push(EntryV { key: ks, node: NodeV::Sub(s_m) }),
                    },
                ),
            ) == spec_parse_lines(
                spec_lines(rest),
                (
                    seq![ks, kt],
                    TableV {
                        entries: base.entries.push(EntryV { key: ks, node: NodeV::Sub(s_full) }),
                    },
                ),
            )
        }),
    decreases u.entries.len() - m,
{
    let rem = u.entries.subrange(m, u.entries.len() as int);
    if m == u.entries.len() {
        assert(rem =~= Seq::<EntryV>::empty());
        assert(ser_values(rem) == Seq::<char>::empty());
        assert(Seq::<char>::empty() + rest =~= rest);
        assert(u.entries.subrange(0, m) =~= u.entries);
        assert(TableV { entries: u.entries.subrange(0, m) } =~= u);
    } else {
        let e = u.entries[m];
        assert(rem[0] == e);
        assert(e.node is Leaf);
        let k = e.key;
        let v = e.node->Leaf_0;
        let tail = ser_values(u.entries.subrange(m + 1, u.entries.len() as int));
        assert(rem.drop_first() =~= u.entries.subrange(m + 1, u.entries.len() as int));
        assert(ser_values(rem) == value_line(k, v) + tail);
        assert(ser_values(rem) + rest =~= value_line(k, v) + (tail + rest));
        lemma_lines_of_value_line(k, v, tail + rest);
        let part = TableV { entries: u.entries.subrange(0, m) };
        assert(!part.has_key(k)) by {
            if part.has_key(k) {
                let w = part.index_of_key(k);
                assert(part.entries[w] == u.entries[w]);
                assert(u.entries[w].key == u.entries[m as int].key);
            }
        }
        lemma_parse_sub2_value_line(base, ks, sbase, kt, part, k, v);
        let part2 = TableV {
            entries: part.entries.push(EntryV { key: k, node: NodeV::Leaf(v) }),
        };
        assert(part2.entries =~= u.entries.subrange(0, m + 1));
        assert(EntryV { key: k, node: NodeV::Leaf(v) } == e);
        let ls = spec_lines(ser_values(rem) + rest);
        assert(ls == seq![k + seq!['='] + v] + spec_lines(tail + rest));
        assert(ls[0] == k + seq!['='] + v);
        assert(ls.drop_first() =~= spec_lines(tail + rest));
        lemma_subsection_leaves_rt(base, ks, sbase, kt, u, m + 1, rest);
        assert(TableV { entries: u.entries.subrange(0, m + 1) } =~= part2);
    }
}

/// Parsing one serialized subsection of an umbrella section already begun:
/// the subsection's table is appended to the section, the last entry of the
/// document.
#[verifier::rlimit(100)]
proof fn lemma_subsection_rt(
    cp: Seq<Seq<char>>,
    base: TableV,
    ks: Seq<char>,
    sp: TableV,
    kt: Seq<char>,
    u: TableV,
    rest: Seq<char>,
)
    requires
        leaf_table(u),
        key_ok(ks),
        key_ok(kt),
        !base.has_key(ks),
        !sp.has_key(kt),
    ensures
        ({
            let s2 = TableV {
                entries: sp.entries.push(EntryV { key: kt, node: NodeV::Sub(u) }),
            };
            spec_parse_lines(
                spec_lines(
                    crate::codec::header_line(ks + seq!['.'] + kt) + (ser_values(u.entries)
                        + rest),
                ),
                (
                    cp,
                    TableV {
                        entries: base.entries.push(EntryV { key: ks, node: NodeV::Sub(sp) }),
                    },
                ),
            ) == spec_parse_lines(
                spec_lines(rest),
                (
                    seq![ks, kt],
                    TableV {
                        entries: base.entries.push(EntryV { key: ks, node: NodeV::Sub(s2) }),
                    },
                ),
            )
        }),
{
    let root0 = TableV { entries: base.entries.push(EntryV { key: ks, node: NodeV::Sub(sp) }) };
    lemma_lines_of_header2(ks, kt, ser_values(u.entries) + rest);
    lemma_parse_header2(cp, root0, ks, kt);
    let ls = spec_lines(
        crate::codec::header_line(ks + seq!['.'] + kt) + (ser_values(u.entries) + rest),
    );
    assert(ls[0] == seq!['['] + (ks + seq!['.'] + kt) + seq![']']);
    assert(ls.drop_first() =~= spec_lines(ser_values(u.entries) + rest));
    assert(spec_parse_lines(ls, (cp, root0)) == spec_parse_lines(
        ls.drop_first(),
        (seq![ks, kt], root0),
    ));
    let e0 = u.entries[0];
    assert(e0.node is Leaf);
    let k0 = e0.key;
    let v0 = e0.node->Leaf_0;
    let tail0 = ser_values(u.entries.subrange(1, u.entries.len() as int));
    assert(ser_values(u.entries) == value_line(k0, v0) + tail0) by {
        assert(u.entries.len() > 0);
        assert(u.entries[0] == e0);
        assert(u.entries.drop_first() =~= u.entries.subrange(1, u.entries.len() as int));
    }
    assert(ser_values(u.entries) + rest =~= value_line(k0, v0) + (tail0 + rest));
    lemma_lines_of_value_line(k0, v0, tail0 + rest);
    let ls2 = spec_lines(ser_values(u.entries) + rest);
    assert(ls2[0] == k0 + seq!['='] + v0);
    assert(ls2.drop_first() =~= spec_lines(tail0 + rest));
    lemma_parse_sub2_first_line(base, ks, sp, kt, k0, v0);
    let part1 = TableV { entries: seq![EntryV { key: k0, node: NodeV::Leaf(v0) }] };
    assert(part1.entries =~= u.entries.subrange(0, 1));
    assert(EntryV { key: k0, node: NodeV::Leaf(v0) } == e0);
    let s_1 = TableV { entries: sp.entries.push(EntryV { key: kt, node: NodeV::Sub(part1) }) };
    assert(spec_parse_lines(ls2, (seq![ks, kt], root0)) == spec_parse_lines(
        ls2.drop_first(),
        (
            seq![ks, kt],
            TableV { entries: base.entries.push(EntryV { key: ks, node: NodeV::Sub(s_1) }) },
        ),
    ));
    lemma_subsection_leaves_rt(base, ks, sp, kt, u, 1, rest);
    assert(TableV { entries: u.entries.subrange(0, 1) } =~= part1);
    assert(TableV { entries: u.entries.subrange(0, 1) } == part1);
    assert(ls.drop_first() == ls2);
    assert(ls2.drop_first() == spec_lines(
        ser_values(u.entries.subrange(1, u.entries.len() as int)) + rest,
    ));
}

/// Parsing the first serialized subsection of a fresh umbrella section:
/// both the section and its first subsection are created at the end of the
/// document.
#[verifier::rlimit(100)]
proof fn lemma_subsection_fresh_rt(
    cp: Seq<Seq<char>>,
    base: TableV,
    ks: Seq<char>,
    kt: Seq<char>,
    u: TableV,
    rest: Seq<char>,
)
    requires
        leaf_table(u),
        key_ok(ks),
        key_ok(kt),
        !base.has_key(ks),
    ensures
        ({
            let s1 = TableV { entries: seq![EntryV { key: kt, node: NodeV::Sub(u) }] };
            spec_parse_lines(
                spec_lines(
                    crate::codec::header_line(ks + seq!['.'] + kt) + (ser_values(u.entries)
                        + rest),
                ),
                (cp, base),
            ) == spec_parse_lines(
                spec_lines(rest),
                (
                    seq![ks, kt],
                    TableV {
                        entries: base.entries.push(EntryV { key: ks, node: NodeV::Sub(s1) }),
                    },
                ),
            )
        }),
{
    lemma_lines_of_header2(ks, kt, ser_values(u.entries) + rest);
    lemma_parse_header2(cp, base, ks, kt);
    let ls = spec_lines(
        crate::codec::header_line(ks + seq!['.'] + kt) + (ser_values(u.entries) + rest),
    );
    assert(ls[0] == seq!['['] + (ks + seq!['.'] + kt) + seq![']']);
    assert(ls.drop_first() =~= spec_lines(ser_values(u.entries) + rest));
    assert(spec_parse_lines(ls, (cp, base)) == spec_parse_lines(
        ls.drop_first(),
        (seq![ks, kt], base),
    ));
    let e0 = u.entries[0];
    assert(e0.node is Leaf);
    let k0 = e0.key;
    let v0 = e0.node->Leaf_0;
    let tail0 = ser_values(u.entries.subrange(1, u.entries.len() as int));
    assert(ser_values(u.entries) == value_line(k0, v0) + tail0) by {
        assert(u.entries.len() > 0);
        assert(u.entries[0] == e0);
        assert(u.entries.drop_first() =~= u.entries.subrange(1, u.entries.len() as int));
    }
    assert(ser_values(u.entries) + rest =~= value_line(k0, v0) + (tail0 + rest));
    lemma_lines_of_value_line(k0, v0, tail0 + rest);
    let ls2 = spec_lines(ser_values(u.entries) + rest);
    assert(ls2[0] == k0 + seq!['='] + v0);
    assert(ls2.drop_first() =~= spec_lines(tail0 + rest));
    lemma_parse_sub2_fresh_line(base, ks, kt, k0, v0);
    let part1 = TableV { entries: seq![EntryV { key: k0, node: NodeV::Leaf(v0) }] };
    assert(part1.entries =~= u.entries.subrange(0, 1));
    assert(EntryV { key: k0, node: NodeV::Leaf(v0) } == e0);
    let empty_s = TableV { entries: Seq::<EntryV>::empty() };
    let s_1 = TableV { entries: seq![EntryV { key: kt, node: NodeV::Sub(part1) }] };
    assert(s_1.entries =~= empty_s.entries.push(EntryV { key: kt, node: NodeV::Sub(part1) }));
    assert(spec_parse_lines(ls2, (seq![ks, kt], base)) == spec_parse_lines(
        ls2.drop_first(),
        (
            seq![ks, kt],
            TableV { entries: base.entries.push(EntryV { key: ks, node: NodeV::Sub(s_1) }) },
        ),
    ));
    assert(!empty_s.has_key(kt));
    lemma_subsection_leaves_rt(base, ks, empty_s, kt, u, 1, rest);
    assert(TableV { entries: u.entries.subrange(0, 1) } =~= part1);
    assert(TableV { entries: u.entries.subrange(0, 1) } == part1);
    let s_full = TableV {
        entries: empty_s.entries.push(EntryV { key: kt, node: NodeV::Sub(u) }),
    };
    assert(s_full.entries =~= seq![EntryV { key: kt, node: NodeV::Sub(u) }]);
    assert(s_full =~= TableV { entries: seq![EntryV { key: kt, node: NodeV::Sub(u) }] });
    assert(ls.drop_first() == ls2);
    assert(ls2.drop_first() == spec_lines(
        ser_values(u.entries.subrange(1, u.entries.len() as int)) + rest,
    ));
    let s_m = TableV {
        entries: empty_s.entries.push(EntryV { key: kt, node: NodeV::Sub(part1) }),
    };
    assert(s_m =~= s_1);
}

/// Parsing the remaining serialized subsections of an umbrella section
/// already begun extends the section by exactly those subsections.
#[verifier::rlimit(100)]
proof fn lemma_umbrella_tail_rt(
    cp: Seq<Seq<char>>,
    base: TableV,
    ks: Seq<char>,
    s: TableV,
    i: int,
    rest: Seq<char>,
)
    requires
        umbrella_ok(s),
        key_ok(ks),
        !base.has_key(ks),
        1 <= i <= s.entries.len(),
    ensures
        ({
            let part = TableV { entries: s.entries.subrange(0, i) };
            let cp_end = if i == s.entries.len() {
                cp
            } else {
                seq![ks, s.entries.last().key]
            };
            spec_parse_lines(
                spec_lines(ser_subs(s, ks + seq!['.'], i) + rest),
                (
                    cp,
                    TableV {
                        entries: base.entries.push(EntryV { key: ks, node: NodeV::Sub(part) }),
                    },
                ),
            ) == spec_parse_lines(
                spec_lines(rest),
                (
                    cp_end,
                    TableV {
                        entries: base.entries.push(EntryV { key: ks, node: NodeV::Sub(s) }),
                    },
                ),
            )
        }),
    decreases s.entries.len() - i,
{
    let part = TableV { entries: s.entries.subrange(0, i) };
    if i == s.entries.len() {
        assert(ser_subs(s, ks + seq!['.'], i) == Seq::<char>::empty());
        assert(Seq::<char>::empty() + rest =~= rest);
        assert(part.entries =~= s.entries);
        assert(part =~= s);
    } else {
        let e = s.entries[i];
        assert(e.node is Sub);
        let kt = e.key;
        let u = e.node->Sub_0;
        assert(leaf_table(u));
        assert(crate::codec::has_direct_values(u)) by {
            assert(u.entries[0].node is Leaf);
        }
        let tailtext = ser_subs(s, ks + seq!['.'], i + 1);
        assert(ser_subs(u, ((ks + seq!['.']) + kt) + seq!['.'], 0) == Seq::<char>::empty()) by {
            lemma_leaf_table_no_subs(u, ((ks + seq!['.']) + kt) + seq!['.'], 0);
        }
        assert(crate::codec::ser_table(u, ((ks + seq!['.']) + kt) + seq!['.']) =~= ser_values(
            u.entries,
        ));
        assert((ks + seq!['.']) + kt =~= ks + seq!['.'] + kt);
        assert(ser_subs(s, ks + seq!['.'], i) =~= crate::codec::header_line(ks + seq!['.'] + kt)
            + (ser_values(u.entries) + tailtext));
        assert(ser_subs(s, ks + seq!['.'], i) + rest =~= crate::codec::header_line(
            ks + seq!['.'] + kt,
        ) + (ser_values(u.entries) + (tailtext + rest)));
        assert(!part.has_key(kt)) by {
            if part.has_key(kt) {
                let w = part.index_of_key(kt);
                assert(part.entries[w] == s.entries[w]);
                assert(s.entries[w].key == s.entries[i as int].key);
            }
        }
        lemma_subsection_rt(cp, base, ks, part, kt, u, tailtext + rest);
        let part2 = TableV {
            entries: part.entries.push(EntryV { key: kt, node: NodeV::Sub(u) }),
        };
        assert(part2.entries =~= s.entries.subrange(0, i + 1));
        assert(EntryV { key: kt, node: NodeV::Sub(u) } == e);
        lemma_umbrella_tail_rt(seq![ks, kt], base, ks, s, i + 1, rest);
        assert(TableV { entries: s.entries.subrange(0, i + 1) } =~= part2);
        if i + 1 == s.entries.len() {
            assert(s.entries.last() == e);
        }
    }
}

/// Parsing one serialized umbrella section appends the whole section to the
/// document and leaves the parser inside its last subsection.
#[verifier::rlimit(100)]
proof fn lemma_umbrella_rt(
    cp: Seq<Seq<char>>,
    base: TableV,
    ks: Seq<char>,
    s: TableV,
    rest: Seq<char>,
)
    requires
        umbrella_ok(s),
        key_ok(ks),
        !base.has_key(ks),
    ensures
        spec_parse_lines(spec_lines(ser_subs(s, ks + seq!['.'], 0) + rest), (cp, base))
            == spec_parse_lines(
            spec_lines(rest),
            (
                seq![ks, s.entries.last().key],
                TableV { entries: base.entries.push(EntryV { key: ks, node: NodeV::Sub(s) }) },
            ),
        ),
{
    let e = s.entries[0];
    assert(e.node is Sub);
    let kt = e.key;
    let u = e.node->Sub_0;
    assert(leaf_table(u));
    assert(crate::codec::has_direct_values(u)) by {
        assert(u.entries[0].node is Leaf);
    }
    let tailtext = ser_subs(s, ks + seq!['.'], 1);
    assert(ser_subs(u, ((ks + seq!['.']) + kt) + seq!['.'], 0) == Seq::<char>::empty()) by {
        lemma_leaf_table_no_subs(u, ((ks + seq!['.']) + kt) + seq!['.'], 0);
    }
    assert(crate::codec::ser_table(u, ((ks + seq!['.']) + kt) + seq!['.']) =~= ser_values(
        u.entries,
    ));
    assert((ks + seq!['.']) + kt =~= ks + seq!['.'] + kt);
    assert(ser_subs(s, ks + seq!['.'], 0) =~= crate::codec::header_line(ks + seq!['.'] + kt) + (
    ser_values(u.entries) + tailtext));
    assert(ser_subs(s, ks + seq!['.'], 0) + rest =~= crate::codec::header_line(
        ks + seq!['.'] + kt,
    ) + (ser_values(u.entries) + (tailtext + rest)));
    lemma_subsection_fresh_rt(cp, base, ks, kt, u, tailtext + rest);
    let s1 = TableV { entries: seq![EntryV { key: kt, node: NodeV::Sub(u) }] };
    assert(s1.entries =~= s.entries.subrange(0, 1));
    assert(EntryV { key: kt, node: NodeV::Sub(u) } == e);
    lemma_umbrella_tail_rt(seq![ks, kt], base, ks, s, 1, rest);
    assert(TableV { entries: s.entries.subrange(0, 1) } =~= s1);
    if 1 == s.entries.len() {
        assert(s.entries.last() == e);
    }
}

/// Parsing the serialized sections of an alias-shaped document from
/// position `j` on extends the document by exactly those sections.
#[verifier::rlimit(100)]
proof fn lemma_alias_sections_rt(t: TableV, j: int, cp: Seq<Seq<char>>, acc: TableV)
    requires
        alias_canonical(t),
        0 <= j <= t.entries.len(),
        acc.entries == t.entries.subrange(0, j),
    ensures
        (exists|cp2: Seq<Seq<char>>|
            spec_parse_lines(spec_lines(ser_subs(t, Seq::empty(), j)), (cp, acc)) == Ok::<
                _,
                Error,
            >((cp2, TableV { entries: t.entries }))),
    decreases t.entries.len() - j,
{
    if j == t.entries.len() {
        assert(ser_subs(t, Seq::empty(), j) == Seq::<char>::empty());
        let ls = spec_lines(Seq::<char>::empty());
        assert(split_acc(Seq::<char>::empty(), '\n', Seq::empty()) == seq![Seq::<char>::empty()]);
        assert(ls =~= seq![Seq::<char>::empty()]);
        assert(is_blank(Seq::<char>::empty()));
        assert(spec_parse_line((cp, acc), Seq::empty()) == Ok::<_, Error>((cp, acc)));
        assert(ls.drop_first() =~= Seq::<Seq<char>>::empty());
        assert(spec_parse_lines(Seq::<Seq<char>>::empty(), (cp, acc)) == Ok::<_, Error>(
            (cp, acc),
        ));
        assert(ls[0] == Seq::<char>::empty());
        assert(ls.len() == 1);
        assert(spec_parse_lines(ls, (cp, acc)) == Ok::<_, Error>((cp, acc)));
        assert(acc.entries =~= t.entries);
        assert(acc =~= TableV { entries: t.entries });
        assert(acc == TableV { entries: t.entries });
        assert(spec_parse_lines(spec_lines(ser_subs(t, Seq::empty(), j)), (cp, acc)) == Ok::<
            _,
            Error,
        >((cp, TableV { entries: t.entries })));
    } else {
        let e = t.entries[j];
        assert(e.node is Sub);
        let ks = e.key;
        let su = e.node->Sub_0;
        let rest = ser_subs(t, Seq::empty(), j + 1);
        assert(!acc.has_key(ks)) by {
            if acc.has_key(ks) {
                let w = acc.index_of_key(ks);
                assert(acc.entries[w] == t.entries[w]);
                assert(t.entries[w].key == t.entries[j].key);
            }
        }
        let acc2 = TableV { entries: acc.entries.push(EntryV { key: ks, node: NodeV::Sub(su) }) };
        assert(acc2.entries =~= t.entries.subrange(0, j + 1));
        assert(EntryV { key: ks, node: NodeV::Sub(su) } == e);
        if leaf_table(su) {
            assert(crate::codec::has_direct_values(su)) by {
                assert(su.entries[0].node is Leaf);
            }
            assert(ser_subs(su, (Seq::empty() + ks) + seq!['.'], 0) == Seq::<char>::empty()) by {
                lemma_leaf_table_no_subs(su, (Seq::empty() + ks) + seq!['.'], 0);
            }
            assert(crate::codec::ser_table(su, (Seq::empty() + ks) + seq!['.']) =~= ser_values(
                su.entries,
            ));
            assert(Seq::<char>::empty() + ks =~= ks);
            assert(ser_subs(t, Seq::empty(), j) =~= crate::codec::header_line(ks) + (ser_values(
                su.entries,
            ) + rest));
            lemma_section_rt(cp, acc, ks, su, rest);
            assert(spec_parse_lines(spec_lines(ser_subs(t, Seq::empty(), j)), (cp, acc))
                == spec_parse_lines(spec_lines(rest), (seq![ks], acc2)));
            lemma_alias_sections_rt(t, j + 1, seq![ks], acc2);
        } else {
            assert(umbrella_ok(su));
            assert(!crate::codec::has_direct_values(su)) by {
                if crate::codec::has_direct_values(su) {
                    let w = choose|w: int|
                        0 <= w < su.entries.len() && su.entries[w].node is Leaf;
                    assert(su.entries[w].node is Sub);
                }
            }
            assert(ser_values(su.entries) == Seq::<char>::empty()) by {
                lemma_no_values(su.entries);
            }
            assert(Seq::<char>::empty() + ks =~= ks);
            assert((Seq::<char>::empty() + ks) + seq!['.'] =~= ks + seq!['.']);
            assert((Seq::<char>::empty() + ks) + seq!['.'] == ks + seq!['.']);
            assert(crate::codec::ser_table(su, (Seq::empty() + ks) + seq!['.']) =~= Seq::<
                char,
            >::empty() + ser_subs(su, (Seq::empty() + ks) + seq!['.'], 0));
            assert(Seq::<char>::empty() + ser_subs(su, (Seq::empty() + ks) + seq!['.'], 0)
                =~= ser_subs(su, ks + seq!['.'], 0));
            assert(ser_subs(t, Seq::empty(), j) =~= Seq::<char>::empty() + crate::codec::ser_table(
                su,
                (Seq::empty() + ks) + seq!['.'],
            ) + rest);
            assert(ser_subs(t, Seq::empty(), j) =~= ser_subs(su, ks + seq!['.'], 0) + rest);
            lemma_umbrella_rt(cp, acc, ks, su, rest);
            assert(spec_parse_lines(spec_lines(ser_subs(t, Seq::empty(), j)), (cp, acc))
                == spec_parse_lines(
                spec_lines(rest),
                (seq![ks, su.entries.last().key], acc2),
            ));
            lemma_alias_sections_rt(t, j + 1, seq![ks, su.entries.last().key], acc2);
        }
    }
}

/// Round trip for an alias-shaped document — sections of scalars and
/// sections of subsections of scalars, the shape the transforms produce:
/// parsing its serialization yields it back unchanged.
pub proof fn lemma_alias_round_trip(t: TableV)
    requires
        alias_canonical(t),
    ensures
        spec_parse(crate::codec::spec_serialize(t)) == Ok::<TableV, Error>(t),
{
    lemma_no_values(t.entries);
    assert(crate::codec::spec_serialize(t) =~= ser_subs(t, Seq::empty(), 0));
    assert(t.entries.subrange(0, 0) =~= Seq::<EntryV>::empty());
    let empty_acc = TableV { entries: Seq::<EntryV>::empty() };
    assert(empty_acc.entries == t.entries.subrange(0, 0));
    lemma_alias_sections_rt(t, 0, Seq::<Seq<char>>::empty(), empty_acc);
    let cp2 = choose|cp2: Seq<Seq<char>>|
        spec_parse_lines(
            spec_lines(ser_subs(t, Seq::empty(), 0)),
            (Seq::<Seq<char>>::empty(), empty_acc),
        ) == Ok::<_, Error>((cp2, TableV { entries: t.entries }));
    assert(spec_parse_lines(
        spec_lines(crate::codec::spec_serialize(t)),
        (Seq::<Seq<char>>::empty(), TableV { entries: Seq::empty() }),
    ) == Ok::<_, Error>((cp2, TableV { entries: t.entries })));
    assert(TableV { entries: t.entries } =~= t);
}

/// Every character of a canonical decimal key is a digit, so the key can
/// stand in a section name.
proof fn lemma_key_ok_dec_rep(n: nat)
    ensures
        key_ok(crate::chars::dec_rep(n)),
    decreases n,
{
    let d = crate::chars::digit_char(n % 10);
    assert(!(d == '.' || d == '=' || d == '[' || d == ']' || d == '\n'));
    if n < 10 {
        assert(crate::chars::dec_rep(n) == seq![crate::chars::digit_char(n)]);
    } else {
        lemma_key_ok_dec_rep(n / 10);
        assert(crate::chars::dec_rep(n) == crate::chars::dec_rep(n / 10).push(d));
    }
}

/// A well-formed table has some contiguous chain length.
proof fn lemma_exists_chain_len(t: TableV, k: nat)
    requires
        t.wf(),
        t.stage(k) is None,
    ensures
        exists|n: nat| #[trigger] t.is_chain_len(n),
    decreases k,
{
    if forall|j: nat| j < k ==> (#[trigger] t.stage(j)) is Some {
        assert(t.is_chain_len(k));
    } else {
        let j = choose|j: nat| j < k && !(t.stage(j) is Some);
        lemma_exists_chain_len(t, j);
    }
}

/// A well-formed table has some contiguous chain length.
proof fn lemma_chain_exists(t: TableV)
    requires
        t.wf(),
    ensures
        exists|n: nat| #[trigger] t.is_chain_len(n),
{
    let m = (t.entries.len() + 1) as nat;
    if forall|j: nat| j < m ==> (#[trigger] t.stage(j)) is Some {
        assert forall|j: nat| j < m implies t.has_key(#[trigger] crate::chars::dec_rep(j)) by {
            assert(t.stage(j) is Some);
        }
        t.lemma_chain_bound(m);
        assert(false);
    } else {
        let j = choose|j: nat| j < m && !(t.stage(j) is Some);
        lemma_exists_chain_len(t, j);
    }
}

/// Wrapping an umbrella-shaped `Object` table yields an umbrella-shaped one.
#[verifier::rlimit(100)]
proof fn lemma_wrap_keeps_shape(obj: TableV, n: nat)
    requires
        umbrella_ok(obj),
        obj.is_chain_len(n),
        n >= 1,
    ensures
        umbrella_ok(crate::transform::spec_wrap(obj, n)),
{
    let w = crate::transform::spec_wrap(obj, n);
    crate::laws::lemma_wrap_wf(obj, n);
    let m = obj.entries.map_values(
        |e: EntryV| crate::transform::wrap_entry_v(obj, n, e),
    );
    assert(obj.stage((n - 1) as nat) is Some);
    assert(crate::transform::marker_stage_v().entries[0].key == "effect.name"@);
    assert(leaf_table(crate::transform::marker_stage_v())) by {
        reveal_strlit("effect.name");
        reveal_strlit("フィルタオブジェクト");
        assert forall|i: int| 0 <= i < "effect.name"@.len() implies !("effect.name"@[i] == '='
            || "effect.name"@[i] == '[' || "effect.name"@[i] == ']' || "effect.name"@[i]
            == '\n') by {}
        assert(value_key_ok("effect.name"@));
        assert forall|i: int|
            0 <= i < "フィルタオブジェクト"@.len() implies "フィルタオブジェクト"@[i] != '\n' by {}
        assert(value_ok("フィルタオブジェクト"@));
    }
    assert forall|i: int| 0 <= i < m.len() implies (#[trigger] m[i]).node is Sub && key_ok(
        m[i].key,
    ) && leaf_table(m[i].node->Sub_0) by {
        assert(m[i] == crate::transform::wrap_entry_v(obj, n, obj.entries[i]));
        assert(obj.entries[i].node is Sub);
        assert(key_ok(obj.entries[i].key));
        assert(leaf_table(obj.entries[i].node->Sub_0));
        if crate::transform::is_chain_key(obj.entries[i].key, n) {
            let d = crate::chars::digits_val(obj.entries[i].key);
            if d != 0 {
                crate::transform::lemma_chain_key_val(obj.entries[i].key, n);
                assert(obj.stage((d - 1) as nat) is Some);
                obj.lemma_sub_at_wf(crate::chars::dec_rep((d - 1) as nat));
                let q = obj.index_of_key(crate::chars::dec_rep((d - 1) as nat));
                assert(obj.entries[q].node->Sub_0 == obj.stage((d - 1) as nat)->Some_0);
                assert(leaf_table(obj.entries[q].node->Sub_0));
            }
        }
    }
    let top_sub = obj.stage((n - 1) as nat)->Some_0;
    assert(leaf_table(top_sub)) by {
        let q = obj.index_of_key(crate::chars::dec_rep((n - 1) as nat));
        assert(obj.entries[q].node->Sub_0 == top_sub);
        assert(leaf_table(obj.entries[q].node->Sub_0));
    }
    lemma_key_ok_dec_rep(n);
    if obj.has_key(crate::chars::dec_rep(n)) {
        let q = obj.index_of_key(crate::chars::dec_rep(n));
        assert(w.entries =~= m.update(
            q,
            EntryV { key: crate::chars::dec_rep(n), node: NodeV::Sub(top_sub) },
        ));
        assert forall|i: int| 0 <= i < w.entries.len() implies (#[trigger] w.entries[i]).node
            is Sub && key_ok(w.entries[i].key) && leaf_table(w.entries[i].node->Sub_0) by {
            if i != q {
                assert(w.entries[i] == m[i]);
            }
        }
    } else {
        assert(w.entries =~= m.push(
            EntryV { key: crate::chars::dec_rep(n), node: NodeV::Sub(top_sub) },
        ));
        assert forall|i: int| 0 <= i < w.entries.len() implies (#[trigger] w.entries[i]).node
            is Sub && key_ok(w.entries[i].key) && leaf_table(w.entries[i].node->Sub_0) by {
            if i < m.len() {
                assert(w.entries[i] == m[i]);
            }
        }
    }
}

/// Unwrapping an umbrella-shaped `Object` table of two or more stages
/// yields an umbrella-shaped one.
#[verifier::rlimit(100)]
proof fn lemma_unwrap_keeps_shape(obj: TableV, n: nat)
    requires
        umbrella_ok(obj),
        obj.is_chain_len(n),
        n >= 2,
    ensures
        umbrella_ok(crate::transform::spec_unwrap(obj, n)),
{
    let u = crate::transform::spec_unwrap(obj, n);
    crate::laws::lemma_unwrap_wf(obj, n);
    let m = obj.entries.map_values(
        |e: EntryV| crate::transform::unwrap_entry_v(obj, n, e),
    );
    assert(obj.stage((n - 1) as nat) is Some);
    assert(obj.has_key(crate::chars::dec_rep((n - 1) as nat)));
    let p = obj.index_of_key(crate::chars::dec_rep((n - 1) as nat));
    assert(u.entries =~= m.remove(p));
    assert(u.entries.len() == obj.entries.len() - 1);
    assert(obj.entries.len() >= 2) by {
        assert forall|j: nat| j < 2 implies obj.has_key(
            #[trigger] crate::chars::dec_rep(j),
        ) by {
            assert(obj.stage(j) is Some);
        }
        obj.lemma_chain_bound(2);
    }
    assert forall|i: int| 0 <= i < m.len() implies (#[trigger] m[i]).node is Sub && key_ok(
        m[i].key,
    ) && leaf_table(m[i].node->Sub_0) by {
        assert(m[i] == crate::transform::unwrap_entry_v(obj, n, obj.entries[i]));
        assert(obj.entries[i].node is Sub);
        assert(key_ok(obj.entries[i].key));
        assert(leaf_table(obj.entries[i].node->Sub_0));
        if crate::transform::is_chain_key(obj.entries[i].key, n) && crate::chars::digits_val(
            obj.entries[i].key,
        ) + 1 < n {
            let d = crate::chars::digits_val(obj.entries[i].key);
            assert(obj.stage((d + 1) as nat) is Some);
            let q = obj.index_of_key(crate::chars::dec_rep((d + 1) as nat));
            assert(obj.entries[q].node->Sub_0 == obj.stage((d + 1) as nat)->Some_0);
            assert(leaf_table(obj.entries[q].node->Sub_0));
        }
    }
    assert forall|i: int| 0 <= i < u.entries.len() implies (#[trigger] u.entries[i]).node is Sub
        && key_ok(u.entries[i].key) && leaf_table(u.entries[i].node->Sub_0) by {
        let i0 = if i < p {
            i
        } else {
            i + 1
        };
        assert(u.entries[i] == m[i0]);
    }
}

/// Round trip of the wrap output: converting an alias-shaped Filter Effect
/// document yields a document that parses back from its own serialization
/// unchanged — what is handed to the host is exactly what it re-reads.
pub proof fn lemma_wrap_output_round_trips(reg: Seq<crate::registry::EffectV>, a: TableV)
    requires
        alias_canonical(a),
        a.sub_at(crate::classify::object_key()) is Some,
        umbrella_ok(a.sub_at(crate::classify::object_key())->Some_0),
        crate::transform::spec_wrap_alias(reg, a) is Ok,
    ensures
        spec_parse(
            crate::codec::spec_serialize(crate::transform::spec_wrap_alias(reg, a)->Ok_0),
        ) == Ok::<TableV, Error>(crate::transform::spec_wrap_alias(reg, a)->Ok_0),
{
    let objk = crate::classify::object_key();
    let obj = a.sub_at(objk)->Some_0;
    crate::transform::lemma_classified_has_stage(a, 0);
    lemma_chain_exists(obj);
    let n = crate::transform::chain_len_of(obj);
    assert(obj.is_chain_len(n));
    if n == 0 {
        assert(obj.stage(0) is None);
    }
    crate::laws::lemma_wrap_wf(obj, n);
    lemma_wrap_keeps_shape(obj, n);
    let w = crate::transform::spec_wrap(obj, n);
    let b = crate::transform::spec_replace_object(a, w);
    let p = a.index_of_key(objk);
    assert(a.entries[p].key == objk) by {
        assert(a.has_key(objk));
    }
    assert(alias_canonical(b)) by {
        assert(b.entries =~= a.entries.update(p, EntryV { key: objk, node: NodeV::Sub(w) }));
        assert forall|x: int, y: int|
            0 <= x < y < b.entries.len() implies b.entries[x].key != b.entries[y].key by {
            assert(b.entries[x].key == a.entries[x].key);
            assert(b.entries[y].key == a.entries[y].key);
            assert(a.entries[x].key != a.entries[y].key);
        }
        assert forall|x: int| 0 <= x < b.entries.len() implies (match #[trigger] b.entries[x].node {
            NodeV::Sub(t2) => t2.wf(),
            NodeV::Leaf(_) => true,
        }) && b.entries[x].node is Sub && key_ok(b.entries[x].key) && (leaf_table(
            b.entries[x].node->Sub_0,
        ) || umbrella_ok(b.entries[x].node->Sub_0)) by {
            if x != p {
                assert(b.entries[x] == a.entries[x]);
                assert(a.entries[x].node is Sub);
                assert(key_ok(a.entries[x].key));
                assert(leaf_table(a.entries[x].node->Sub_0) || umbrella_ok(
                    a.entries[x].node->Sub_0,
                ));
                assert(match a.entries[x].node {
                    NodeV::Sub(t2) => t2.wf(),
                    NodeV::Leaf(_) => true,
                });
            } else {
                assert(key_ok(a.entries[p].key));
            }
        }
    }
    lemma_alias_round_trip(b);
}

/// Round trip of the unwrap output: converting an alias-shaped Filter
/// Object document yields a document that parses back from its own
/// serialization unchanged.
pub proof fn lemma_unwrap_output_round_trips(reg: Seq<crate::registry::EffectV>, a: TableV)
    requires
        alias_canonical(a),
        a.sub_at(crate::classify::object_key()) is Some,
        umbrella_ok(a.sub_at(crate::classify::object_key())->Some_0),
        crate::transform::spec_unwrap_alias(reg, a) is Ok,
    ensures
        spec_parse(
            crate::codec::spec_serialize(crate::transform::spec_unwrap_alias(reg, a)->Ok_0),
        ) == Ok::<TableV, Error>(crate::transform::spec_unwrap_alias(reg, a)->Ok_0),
{
    let objk = crate::classify::object_key();
    let obj = a.sub_at(objk)->Some_0;
    crate::transform::lemma_classified_has_stage(a, 0);
    crate::transform::lemma_classified_has_stage(a, 1);
    lemma_chain_exists(obj);
    let n = crate::transform::chain_len_of(obj);
    assert(obj.is_chain_len(n));
    if n == 0 {
        assert(obj.stage(0) is None);
    }
    if n == 1 {
        assert(obj.stage(1) is None);
    }
    crate::laws::lemma_unwrap_wf(obj, n);
    lemma_unwrap_keeps_shape(obj, n);
    let w = crate::transform::spec_unwrap(obj, n);
    let b = crate::transform::spec_replace_object(a, w);
    let p = a.index_of_key(objk);
    assert(a.entries[p].key == objk) by {
        assert(a.has_key(objk));
    }
    assert(alias_canonical(b)) by {
        assert(b.entries =~= a.entries.update(p, EntryV { key: objk, node: NodeV::Sub(w) }));
        assert forall|x: int, y: int|
            0 <= x < y < b.entries.len() implies b.entries[x].key != b.entries[y].key by {
            assert(b.entries[x].key == a.entries[x].key);
            assert(b.entries[y].key == a.entries[y].key);
            assert(a.entries[x].key != a.entries[y].key);
        }
        assert forall|x: int| 0 <= x < b.entries.len() implies (match #[trigger] b.entries[x].node {
            NodeV::Sub(t2) => t2.wf(),
            NodeV::Leaf(_) => true,
        }) && b.entries[x].node is Sub && key_ok(b.entries[x].key) && (leaf_table(
            b.entries[x].node->Sub_0,
        ) || umbrella_ok(b.entries[x].node->Sub_0)) by {
            if x != p {
                assert(b.entries[x] == a.entries[x]);
                assert(a.entries[x].node is Sub);
                assert(key_ok(a.entries[x].key));
                assert(leaf_table(a.entries[x].node->Sub_0) || umbrella_ok(
                    a.entries[x].node->Sub_0,
                ));
                assert(match a.entries[x].node {
                    NodeV::Sub(t2) => t2.wf(),
                    NodeV::Leaf(_) => true,
                });
            } else {
                assert(key_ok(a.entries[p].key));
            }
        }
    }
    lemma_alias_round_trip(b);
}

} // verus!
