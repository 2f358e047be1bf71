//! The line-oriented alias text format: `[Path]` section headers and
//! `key=value` lines, CRLF-terminated, nested tables addressed by
//! dot-separated section names.

use vstd::prelude::*;
use crate::chars::{chars_of, copy_chars, split_chars, split_sep, string_of};
use crate::errors::Error;
use crate::table::{AliasTable, EntryV, NodeV, TableV, path_view, with_value_at_v};

verus! {

/// The line terminator the host writes.
pub open spec fn crlf() -> Seq<char> {
    seq!['\r', '\n']
}

/// One `key=value` line.
pub open spec fn value_line(key: Seq<char>, v: Seq<char>) -> Seq<char> {
    key + seq!['='] + v + crlf()
}

/// One `[name]` section header line.
pub open spec fn header_line(name: Seq<char>) -> Seq<char> {
    seq!['['] + name + seq![']'] + crlf()
}

/// The table's direct scalar entries, one line each, in sibling order.
pub open spec fn ser_values(entries: Seq<EntryV>) -> Seq<char>
    decreases entries.len(),
{
    if entries.len() == 0 {
        Seq::empty()
    } else {
        match entries[0].node {
            NodeV::Leaf(v) => value_line(entries[0].key, v) + ser_values(entries.drop_first()),
            NodeV::Sub(_) => ser_values(entries.drop_first()),
        }
    }
}

/// Whether any direct entry is a scalar; only then is a header written.
pub open spec fn has_direct_values(t: TableV) -> bool {
    exists|i: int| 0 <= i < t.entries.len() && t.entries[i].node is Leaf
}

/// The subtable entries from position `i` on: each subtable's header (when
/// it has direct values) followed by its own serialization.
pub open spec fn ser_subs(t: TableV, prefix: Seq<char>, i: int) -> Seq<char>
    decreases t, t.entries.len() - i,
{
    if i < 0 || i >= t.entries.len() {
        Seq::empty()
    } else {
        match t.entries[i].node {
            NodeV::Leaf(_) => ser_subs(t, prefix, i + 1),
            NodeV::Sub(sub) => {
                let name = prefix + t.entries[i].key;
                (if has_direct_values(sub) {
                    header_line(name)
                } else {
                    Seq::empty()
                }) + ser_table(sub, name + seq!['.']) + ser_subs(t, prefix, i + 1)
            },
        }
    }
}

/// A table's serialization under a section-name prefix: its value lines,
/// then its subtables.
pub open spec fn ser_table(t: TableV, prefix: Seq<char>) -> Seq<char>
    decreases t, t.entries.len() + 1,
{
    ser_values(t.entries) + ser_subs(t, prefix, 0)
}

/// The whole document's serialization.
pub open spec fn spec_serialize(t: TableV) -> Seq<char> {
    ser_table(t, Seq::empty())
}

/// A line with its trailing carriage return removed.
pub open spec fn strip_cr(l: Seq<char>) -> Seq<char> {
    if l.len() > 0 && l.last() == '\r' {
        l.drop_last()
    } else {
        l
    }
}

/// The document's lines: split at every line feed, carriage returns stripped.
pub open spec fn spec_lines(s: Seq<char>) -> Seq<Seq<char>> {
    split_sep(s, '\n').map_values(|l: Seq<char>| strip_cr(l))
}

/// A line of nothing but blanks, skipped by the parser.
pub open spec fn is_blank(l: Seq<char>) -> bool {
    forall|i: int| 0 <= i < l.len() ==> (l[i] == ' ' || l[i] == '\t' || l[i] == '\r')
}

/// The line holds an equals sign.
pub open spec fn has_eq(l: Seq<char>) -> bool {
    exists|i: int| 0 <= i < l.len() && l[i] == '='
}

/// The position of the first equals sign.
pub open spec fn eq_at(l: Seq<char>) -> int {
    choose|i: int| 0 <= i < l.len() && l[i] == '=' && (forall|j: int| 0 <= j < i ==> l[j] != '=')
}

/// One parser step: the state is the current section path and the document
/// built so far.
pub open spec fn spec_parse_line(st: (Seq<Seq<char>>, TableV), l: Seq<char>) -> Result<
    (Seq<Seq<char>>, TableV),
    Error,
> {
    if is_blank(l) {
        Ok(st)
    } else if l[0] == '[' {
        if l.len() >= 2 && l.last() == ']' {
            let inner = l.subrange(1, l.len() - 1);
            let newpath = if inner.len() == 0 {
                Seq::<Seq<char>>::empty()
            } else {
                split_sep(inner, '.')
            };
            Ok((newpath, st.1))
        } else {
            Err(Error::FormatError)
        }
    } else if has_eq(l) {
        let e = eq_at(l);
        match with_value_at_v(st.1, st.0 + seq![l.subrange(0, e)], 0, l.subrange(e + 1, l.len() as int)) {
            Some(nr) => Ok((st.0, nr)),
            None => Err(Error::FormatError),
        }
    } else {
        Err(Error::FormatError)
    }
}

/// The parser folded over a sequence of lines.
pub open spec fn spec_parse_lines(ls: Seq<Seq<char>>, st: (Seq<Seq<char>>, TableV)) -> Result<
    (Seq<Seq<char>>, TableV),
    Error,
>
    decreases ls.len(),
{
    if ls.len() == 0 {
        Ok(st)
    } else {
        match spec_parse_line(st, ls[0]) {
            Err(e) => Err(e),
            Ok(st2) => spec_parse_lines(ls.drop_first(), st2),
        }
    }
}

/// What parsing a document yields.
pub open spec fn spec_parse(s: Seq<char>) -> Result<TableV, Error> {
    match spec_parse_lines(
        spec_lines(s),
        (Seq::<Seq<char>>::empty(), TableV { entries: Seq::empty() }),
    ) {
        Ok(st) => Ok(st.1),
        Err(e) => Err(e),
    }
}

/// Append every character of `v` to `out`.
fn append_chars(out: &mut Vec<char>, v: &Vec<char>)
    ensures
        final(out)@ == old(out)@ + v@,
{
    let mut i: usize = 0;
    while i < v.len()
        invariant
            i <= v.len(),
            out@ =~= old(out)@ + v@.subrange(0, i as int),
        decreases v.len() - i,
    {
        out.push(v[i]);
        i += 1;
    }
    proof {
        assert(out@ =~= old(out)@ + v@);
    }
}

impl AliasTable {
    /// Whether any direct entry holds a scalar.
    pub fn has_values(&self) -> (r: bool)
        ensures
            r == has_direct_values(self@),
    {
        let mut i: usize = 0;
        while i < self.entries.len()
            invariant
                i <= self.entries@.len(),
                self@.entries.len() == self.entries@.len(),
                forall|j: int| 0 <= j < i ==> !(self@.entries[j].node is Leaf),
            decreases self.entries@.len() - i,
        {
            let is_leaf = match &self.entries[i].node {
                crate::table::Node::Leaf(_) => true,
                crate::table::Node::Sub(_) => false,
            };
            if is_leaf {
                proof {
                    assert(self@.entries[i as int].node is Leaf);
                }
                return true;
            }
            i += 1;
        }
        false
    }
}

/// The serialization of a table under a section-name prefix.
fn ser_exec(t: &AliasTable, prefix: &Vec<char>) -> (r: Vec<char>)
    ensures
        r@ == ser_table(t@, prefix@),
    decreases *t,
{
    let mut out: Vec<char> = Vec::new();
    let ghost entries = t@.entries;
    // the value lines
    let mut i: usize = 0;
    proof {
        assert(entries.subrange(0, entries.len() as int) =~= entries);
        assert(Seq::<char>::empty() + ser_values(entries) =~= ser_values(entries));
    }
    while i < t.entries.len()
        invariant
            entries == t@.entries,
            entries.len() == t.entries@.len(),
            i <= entries.len(),
            ser_values(entries) == out@ + ser_values(entries.subrange(i as int, entries.len() as int)),
        decreases t.entries@.len() - i,
    {
        let ghost rest = entries.subrange(i as int, entries.len() as int);
        proof {
            assert(rest[0] == entries[i as int]);
            assert(rest.drop_first() =~= entries.subrange(i as int + 1, entries.len() as int));
        }
        let e = &t.entries[i];
        match &e.node {
            crate::table::Node::Leaf(v) => {
                append_chars(&mut out, &e.key);
                out.push('=');
                append_chars(&mut out, v);
                out.push('\r');
                out.push('\n');
                proof {
                    assert(entries[i as int].node is Leaf);
                    assert(ser_values(rest) == value_line(entries[i as int].key, v@) + ser_values(
                        rest.drop_first(),
                    ));
                }
            },
            crate::table::Node::Sub(_) => {
                proof {
                    assert(entries[i as int].node is Sub);
                }
            },
        }
        proof {
            assert(ser_values(entries) =~= out@ + ser_values(
                entries.subrange(i as int + 1, entries.len() as int),
            ));
        }
        i += 1;
    }
    proof {
        assert(entries.subrange(i as int, entries.len() as int) =~= Seq::<EntryV>::empty());
        assert(ser_values(entries) =~= out@);
    }
    // the subtables
    let mut k: usize = 0;
    while k < t.entries.len()
        invariant
            entries == t@.entries,
            entries.len() == t.entries@.len(),
            k <= entries.len(),
            ser_table(t@, prefix@) == out@ + ser_subs(t@, prefix@, k as int),
        decreases t.entries@.len() - k,
    {
        let e = &t.entries[k];
        match &e.node {
            crate::table::Node::Leaf(_) => {
                proof {
                    assert(entries[k as int].node is Leaf);
                }
            },
            crate::table::Node::Sub(sub) => {
                proof {
                    crate::table::lemma_node_view_sub(*sub);
                    assert(entries[k as int].node is Sub);
                    assert(entries[k as int].node->Sub_0 == sub@);
                }
                let mut name = copy_chars(prefix);
                append_chars(&mut name, &e.key);
                if sub.has_values() {
                    out.push('[');
                    append_chars(&mut out, &name);
                    out.push(']');
                    out.push('\r');
                    out.push('\n');
                }
                let mut child_prefix = copy_chars(&name);
                child_prefix.push('.');
                let chunk = ser_exec(sub, &child_prefix);
                append_chars(&mut out, &chunk);
                proof {
                    assert(name@ =~= prefix@ + entries[k as int].key);
                    assert(child_prefix@ =~= (prefix@ + entries[k as int].key) + seq!['.']);
                }
            },
        }
        proof {
            assert(ser_table(t@, prefix@) =~= out@ + ser_subs(t@, prefix@, k as int + 1));
        }
        k += 1;
    }
    proof {
        assert(ser_subs(t@, prefix@, k as int) =~= Seq::<char>::empty());
        assert(out@ =~= ser_table(t@, prefix@));
    }
    out
}

/// Serialize an alias document to its textual form.
pub fn serialize(t: &AliasTable) -> (r: String)
    ensures
        r@ == spec_serialize(t@),
{
    let empty_prefix: Vec<char> = Vec::new();
    let cs = ser_exec(t, &empty_prefix);
    string_of(&cs)
}

/// A copy of `v[a..b]`.
fn copy_range(v: &Vec<char>, a: usize, b: usize) -> (r: Vec<char>)
    requires
        a <= b <= v@.len(),
    ensures
        r@ == v@.subrange(a as int, b as int),
{
    let mut r: Vec<char> = Vec::new();
    let mut i: usize = a;
    while i < b
        invariant
            a <= i <= b <= v@.len(),
            r@ =~= v@.subrange(a as int, i as int),
        decreases b - i,
    {
        r.push(v[i]);
        i += 1;
        proof {
            assert(r@ =~= v@.subrange(a as int, i as int));
        }
    }
    r
}

/// Whether the line is nothing but blanks.
fn is_blank_exec(l: &Vec<char>) -> (r: bool)
    ensures
        r == is_blank(l@),
{
    let mut i: usize = 0;
    while i < l.len()
        invariant
            i <= l.len(),
            forall|j: int| 0 <= j < i ==> (l@[j] == ' ' || l@[j] == '\t' || l@[j] == '\r'),
        decreases l.len() - i,
    {
        let c = l[i];
        if !(c == ' ' || c == '\t' || c == '\r') {
            return false;
        }
        i += 1;
    }
    true
}

/// The position of the first equals sign, if any.
fn find_eq(l: &Vec<char>) -> (r: Option<usize>)
    ensures
        match r {
            Some(e) => {
                &&& 0 <= e < l@.len()
                &&& l@[e as int] == '='
                &&& forall|j: int| 0 <= j < e ==> l@[j] != '='
                &&& has_eq(l@)
                &&& eq_at(l@) == e
            },
            None => !has_eq(l@),
        },
{
    let mut i: usize = 0;
    while i < l.len()
        invariant
            i <= l.len(),
            forall|j: int| 0 <= j < i ==> l@[j] != '=',
        decreases l.len() - i,
    {
        if l[i] == '=' {
            proof {
                assert(has_eq(l@));
                let w = eq_at(l@);
                assert(0 <= w < l@.len() && l@[w] == '=' && (forall|j: int|
                    0 <= j < w ==> l@[j] != '='));
                if w < i {
                    assert(l@[w] != '=');
                } else if w > i {
                    assert(l@[i as int] != '=');
                }
            }
            return Some(i);
        }
        i += 1;
    }
    None
}

/// Parse an alias document from its textual form; `FormatError` on any
/// malformed line.
#[verifier::rlimit(60)]
pub fn parse(text: &str) -> (r: Result<AliasTable, Error>)
    ensures
        match r {
            Ok(t) => spec_parse(text@) == Ok::<TableV, Error>(t@) && t@.wf(),
            Err(e) => spec_parse(text@) == Err::<TableV, Error>(e),
        },
{
    let cs = chars_of(text);
    let raw_lines = split_chars(&cs, '\n');
    let ghost all_lines = spec_lines(text@);
    proof {
        assert(all_lines =~= raw_lines@.map_values(|v: Vec<char>| v@).map_values(
            |l: Seq<char>| strip_cr(l),
        ));
    }
    let mut path: Vec<Vec<char>> = Vec::new();
    let mut root = AliasTable::empty();
    let ghost init: (Seq<Seq<char>>, TableV) = (
        Seq::<Seq<char>>::empty(),
        TableV { entries: Seq::empty() },
    );
    proof {
        assert(path_view(path@) =~= init.0);
        assert(root@ =~= init.1);
        assert(all_lines.subrange(0, all_lines.len() as int) =~= all_lines);
        assert((path_view(path@), root@) == init);
    }
    let mut li: usize = 0;
    while li < raw_lines.len()
        invariant
            all_lines == spec_lines(text@),
            init == (Seq::<Seq<char>>::empty(), TableV { entries: Seq::empty() }),
            all_lines.len() == raw_lines@.len(),
            forall|j: int|
                0 <= j < raw_lines@.len() ==> all_lines[j] == strip_cr(
                    (#[trigger] raw_lines@[j])@,
                ),
            li <= raw_lines@.len(),
            root@.wf(),
            spec_parse_lines(all_lines, init) == spec_parse_lines(
                all_lines.subrange(li as int, all_lines.len() as int),
                (path_view(path@), root@),
            ),
        decreases raw_lines@.len() - li,
    {
        let raw = &raw_lines[li];
        let line = if raw.len() > 0 && raw[raw.len() - 1] == '\r' {
            copy_range(raw, 0, raw.len() - 1)
        } else {
            copy_chars(raw)
        };
        proof {
            if raw@.len() > 0 && raw@.last() == '\r' {
                assert(raw@.subrange(0, raw@.len() - 1) =~= raw@.drop_last());
            }
            assert(line@ == strip_cr(raw@));
            assert(line@ == all_lines[li as int]);
        }
        let ghost st: (Seq<Seq<char>>, TableV) = (path_view(path@), root@);
        let ghost rest = all_lines.subrange(li as int, all_lines.len() as int);
        proof {
            assert(rest[0] == all_lines[li as int]);
            assert(rest.drop_first() =~= all_lines.subrange(
                li as int + 1,
                all_lines.len() as int,
            ));
        }
        if is_blank_exec(&line) {
            proof {
                assert(spec_parse_line(st, line@) == Ok::<_, Error>(st));
            }
        } else if line[0] == '[' {
            if line.len() >= 2 && line[line.len() - 1] == ']' {
                let inner = copy_range(&line, 1, line.len() - 1);
                proof {
                    assert(line@.last() == ']');
                    assert(inner@ == line@.subrange(1, line@.len() - 1));
                }
                let mut newpath: Vec<Vec<char>> = Vec::new();
                if inner.len() > 0 {
                    newpath = split_chars(&inner, '.');
                }
                path = newpath;
                proof {
                    if inner@.len() == 0 {
                        assert(path_view(path@) =~= Seq::<Seq<char>>::empty());
                    } else {
                        assert(path_view(path@) =~= split_sep(inner@, '.'));
                    }
                    assert(spec_parse_line(st, line@) == Ok::<_, Error>(
                        (path_view(path@), root@),
                    ));
                }
            } else {
                proof {
                    assert(!(line@.len() >= 2 && line@.last() == ']')) by {
                        if line@.len() >= 2 {
                            assert(line@.last() == line@[line@.len() - 1]);
                        }
                    }
                    assert(spec_parse_line(st, line@) == Err::<(Seq<Seq<char>>, TableV), _>(
                        Error::FormatError,
                    ));
                    assert(spec_parse_lines(rest, st) == Err::<(Seq<Seq<char>>, TableV), Error>(
                        Error::FormatError,
                    ));
                    assert(spec_parse_lines(all_lines, init) == Err::<
                        (Seq<Seq<char>>, TableV),
                        Error,
                    >(Error::FormatError));
                    assert(spec_lines(text@) == all_lines);
                    assert(spec_parse_lines(
                        spec_lines(text@),
                        (Seq::<Seq<char>>::empty(), TableV { entries: Seq::empty() }),
                    ) == Err::<(Seq<Seq<char>>, TableV), Error>(Error::FormatError));
                    assert(spec_parse(text@) == Err::<TableV, Error>(Error::FormatError));
                }
                return Err(Error::FormatError);
            }
        } else {
            match find_eq(&line) {
                None => {
                    proof {
                        assert(spec_parse_line(st, line@) == Err::<(Seq<Seq<char>>, TableV), _>(
                            Error::FormatError,
                        ));
                        assert(spec_parse_lines(rest, st) == Err::<(Seq<Seq<char>>, TableV), Error>(
                            Error::FormatError,
                        ));
                        assert(spec_parse_lines(all_lines, init) == Err::<
                        (Seq<Seq<char>>, TableV),
                        Error,
                    >(Error::FormatError));
                    assert(spec_lines(text@) == all_lines);
                    assert(spec_parse_lines(
                        spec_lines(text@),
                        (Seq::<Seq<char>>::empty(), TableV { entries: Seq::empty() }),
                    ) == Err::<(Seq<Seq<char>>, TableV), Error>(Error::FormatError));
                    assert(spec_parse(text@) == Err::<TableV, Error>(Error::FormatError));
                    }
                    return Err(Error::FormatError);
                },
                Some(e) => {
                    let keyraw = copy_range(&line, 0, e);
                    let value = copy_range(&line, e + 1, line.len());
                    let mut full: Vec<Vec<char>> = Vec::new();
                    let mut pi: usize = 0;
                    while pi < path.len()
                        invariant
                            pi <= path@.len(),
                            full@.len() == pi,
                            forall|j: int| 0 <= j < pi ==> (#[trigger] full@[j])@ == path@[j]@,
                        decreases path@.len() - pi,
                    {
                        full.push(copy_chars(&path[pi]));
                        pi += 1;
                    }
                    full.push(keyraw);
                    proof {
                        assert forall|j: int| 0 <= j < full@.len() implies path_view(full@)[j]
                            == (path_view(path@) + seq![line@.subrange(0, e as int)])[j] by {
                            if j < path@.len() {
                                assert(full@[j]@ == path@[j]@);
                            } else {
                                assert(full@[j]@ == line@.subrange(0, e as int));
                            }
                        }
                        assert(path_view(full@) =~= path_view(path@) + seq![
                            line@.subrange(0, e as int),
                        ]);
                        assert(full@.len() >= 1);
                    }
                    match root.with_value_at(&full, 0, &value) {
                        Some(nr) => {
                            proof {
                                assert(spec_parse_line(st, line@) == Ok::<_, Error>(
                                    (st.0, nr@),
                                ));
                            }
                            root = nr;
                        },
                        None => {
                            proof {
                                assert(spec_parse_line(st, line@) == Err::<
                                    (Seq<Seq<char>>, TableV),
                                    _,
                                >(Error::FormatError));
                                assert(spec_parse_lines(rest, st) == Err::<
                                    (Seq<Seq<char>>, TableV),
                                    Error,
                                >(Error::FormatError));
                                assert(spec_parse_lines(all_lines, init) == Err::<
                                    (Seq<Seq<char>>, TableV),
                                    Error,
                                >(Error::FormatError));
                                assert(spec_lines(text@) == all_lines);
                                assert(spec_parse_lines(
                                    spec_lines(text@),
                                    (Seq::<Seq<char>>::empty(), TableV { entries: Seq::empty() }),
                                ) == Err::<(Seq<Seq<char>>, TableV), Error>(Error::FormatError));
                                assert(spec_parse(text@) == Err::<TableV, Error>(
                                    Error::FormatError,
                                ));
                            }
                            return Err(Error::FormatError);
                        },
                    }
                },
            }
        }
        li += 1;
        proof {
            assert(spec_parse_lines(all_lines, init) == spec_parse_lines(
                all_lines.subrange(li as int, all_lines.len() as int),
                (path_view(path@), root@),
            ));
        }
    }
    proof {
        assert(all_lines.subrange(li as int, all_lines.len() as int) =~= Seq::<Seq<char>>::empty());
        assert(spec_parse_lines(all_lines, init) == Ok::<_, Error>((path_view(path@), root@)));
    }
    Ok(root)
}

} // verus!
