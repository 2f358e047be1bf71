//! The alias document model: an ordered, path-addressed table whose entries
//! are either scalar values or nested tables.

use vstd::prelude::*;
use crate::chars::{chars_eq, copy_chars, dec_rep, lemma_dec_rep_injective};
use vstd::set_lib::{lemma_len_subset, lemma_int_range, set_int_range};

verus! {

/// One entry's payload: a scalar value or a nested table.
pub enum Node {
    Leaf(Vec<char>),
    Sub(AliasTable),
}

/// One keyed entry of a table.
pub struct Entry {
    pub key: Vec<char>,
    pub node: Node,
}

/// An ordered mapping from path segment to scalar value or nested table.
/// Sibling order is significant for serialization; lookup is by key.
pub struct AliasTable {
    pub entries: Vec<Entry>,
}

/// The mathematical model of a node.
#[verifier::ext_equal]
pub enum NodeV {
    Leaf(Seq<char>),
    Sub(TableV),
}

/// The mathematical model of an entry.
#[verifier::ext_equal]
pub struct EntryV {
    pub key: Seq<char>,
    pub node: NodeV,
}

/// The mathematical model of a table: its entries in sibling order.
#[verifier::ext_equal]
pub struct TableV {
    pub entries: Seq<EntryV>,
}

/// The model of a node, recursively.
pub open spec fn node_view(n: Node) -> NodeV
    decreases n,
{
    match n {
        Node::Leaf(v) => NodeV::Leaf(v@),
        Node::Sub(t) => NodeV::Sub(
            TableV {
                entries: Seq::new(
                    t.entries@.len(),
                    |i: int|
                        if 0 <= i < t.entries@.len() {
                            EntryV { key: t.entries@[i].key@, node: node_view(t.entries@[i].node) }
                        } else {
                            EntryV { key: Seq::empty(), node: NodeV::Leaf(Seq::empty()) }
                        },
                ),
            },
        ),
    }
}

impl View for Node {
    type V = NodeV;

    open spec fn view(&self) -> NodeV {
        node_view(*self)
    }
}

impl View for Entry {
    type V = EntryV;

    open spec fn view(&self) -> EntryV {
        EntryV { key: self.key@, node: node_view(self.node) }
    }
}

impl View for AliasTable {
    type V = TableV;

    open spec fn view(&self) -> TableV {
        TableV { entries: self.entries@.map_values(|e: Entry| e@) }
    }
}

/// The model of a subtable node is the model of its table.
pub broadcast proof fn lemma_node_view_sub(t: AliasTable)
    ensures
        #[trigger] node_view(Node::Sub(t)) == NodeV::Sub(t@),
{
    assert(node_view(Node::Sub(t))->Sub_0.entries =~= t@.entries);
    assert(node_view(Node::Sub(t))->Sub_0 =~= t@);
}

impl TableV {
    /// A key is present among the direct entries.
    pub open spec fn has_key(self, k: Seq<char>) -> bool {
        exists|i: int| 0 <= i < self.entries.len() && self.entries[i].key == k
    }

    /// The position of a present key.
    pub open spec fn index_of_key(self, k: Seq<char>) -> int {
        choose|i: int| 0 <= i < self.entries.len() && self.entries[i].key == k
    }

    /// The direct subtable stored under a key, if any.
    pub open spec fn sub_at(self, k: Seq<char>) -> Option<TableV> {
        if self.has_key(k) {
            match self.entries[self.index_of_key(k)].node {
                NodeV::Sub(t) => Some(t),
                NodeV::Leaf(_) => None,
            }
        } else {
            None
        }
    }

    /// The direct scalar stored under a key, if any.
    pub open spec fn leaf_at(self, k: Seq<char>) -> Option<Seq<char>> {
        if self.has_key(k) {
            match self.entries[self.index_of_key(k)].node {
                NodeV::Sub(_) => None,
                NodeV::Leaf(v) => Some(v),
            }
        } else {
            None
        }
    }

    /// Distinct sibling keys, recursively.
    pub open spec fn wf(self) -> bool
        decreases self,
    {
        &&& (forall|i: int, j: int|
            0 <= i < j < self.entries.len() ==> self.entries[i].key != self.entries[j].key)
        &&& (forall|i: int|
            0 <= i < self.entries.len() ==> match #[trigger] self.entries[i].node {
                NodeV::Sub(t) => t.wf(),
                NodeV::Leaf(_) => true,
            })
    }

    /// The table reached by walking a sequence of path segments.
    pub open spec fn table_at_path(self, path: Seq<Seq<char>>) -> Option<TableV>
        decreases path.len(),
    {
        if path.len() == 0 {
            Some(self)
        } else {
            match self.sub_at(path[0]) {
                Some(t) => t.table_at_path(path.drop_first()),
                None => None,
            }
        }
    }

    /// The scalar reached by walking a path; the last segment names the value.
    pub open spec fn value_at_path(self, path: Seq<Seq<char>>) -> Option<Seq<char>> {
        if path.len() == 0 {
            None
        } else {
            match self.table_at_path(path.drop_last()) {
                Some(t) => t.leaf_at(path.last()),
                None => None,
            }
        }
    }

    /// The stage table at a numeric index of the effect chain.
    pub open spec fn stage(self, i: nat) -> Option<TableV> {
        self.sub_at(dec_rep(i))
    }

    /// `n` is the length of the contiguous chain of stages starting at 0.
    pub open spec fn is_chain_len(self, n: nat) -> bool {
        (forall|i: nat| i < n ==> (#[trigger] self.stage(i)) is Some) && self.stage(n) is None
    }

    /// The sibling keys, in order.
    pub open spec fn keys(self) -> Seq<Seq<char>> {
        self.entries.map_values(|e: EntryV| e.key)
    }

    /// The entry holding a present key sits at the looked-up position.
    pub proof fn lemma_at(self, i: int)
        requires
            self.wf(),
            0 <= i < self.entries.len(),
        ensures
            self.has_key(self.entries[i].key),
            self.index_of_key(self.entries[i].key) == i,
    {
        assert(self.has_key(self.entries[i].key));
        let w = self.index_of_key(self.entries[i].key);
        if w != i {
            assert(self.entries[w].key == self.entries[i].key);
        }
    }

    /// A direct subtable of a well-formed table is well-formed.
    pub proof fn lemma_sub_at_wf(self, k: Seq<char>)
        requires
            self.wf(),
            self.sub_at(k) is Some,
        ensures
            self.sub_at(k)->Some_0.wf(),
    {
        let i = self.index_of_key(k);
        assert(match self.entries[i].node {
            NodeV::Sub(s) => s.wf(),
            NodeV::Leaf(_) => true,
        });
    }

    /// A table reached over a path from a well-formed table is well-formed.
    pub proof fn lemma_table_at_path_wf(self, path: Seq<Seq<char>>)
        requires
            self.wf(),
            self.table_at_path(path) is Some,
        ensures
            self.table_at_path(path)->Some_0.wf(),
        decreases path.len(),
    {
        if path.len() == 0 {
        } else {
            self.lemma_sub_at_wf(path[0]);
            self.sub_at(path[0])->Some_0.lemma_table_at_path_wf(path.drop_first());
        }
    }

    /// A table holding a contiguous chain of `m` stages has at least `m` entries.
    pub proof fn lemma_chain_bound(self, m: nat)
        requires
            self.wf(),
            forall|j: nat| j < m ==> self.has_key(#[trigger] dec_rep(j)),
        ensures
            m <= self.entries.len(),
    {
        let len = self.entries.len() as int;
        let idxs = Seq::<int>::new(m, |j: int| self.index_of_key(dec_rep(j as nat)));
        assert forall|a: int| 0 <= a < m implies 0 <= #[trigger] idxs[a] < len by {
            assert(self.has_key(dec_rep(a as nat)));
        }
        assert forall|a: int, b: int| 0 <= a < b < m implies idxs[a] != idxs[b] by {
            assert(self.has_key(dec_rep(a as nat)));
            assert(self.has_key(dec_rep(b as nat)));
            let ia = self.index_of_key(dec_rep(a as nat));
            let ib = self.index_of_key(dec_rep(b as nat));
            if ia == ib {
                assert(self.entries[ia].key == dec_rep(a as nat));
                assert(self.entries[ib].key == dec_rep(b as nat));
                lemma_dec_rep_injective(a as nat, b as nat);
            }
        }
        assert(idxs.no_duplicates());
        idxs.unique_seq_to_set();
        lemma_int_range(0, len);
        assert(idxs.to_set().subset_of(set_int_range(0, len))) by {
            assert forall|x: int| idxs.to_set().contains(x) implies set_int_range(0, len).contains(
                x,
            ) by {
                assert(idxs.contains(x));
                let a = choose|a: int| 0 <= a < idxs.len() && idxs[a] == x;
                assert(self.has_key(dec_rep(a as nat)));
            }
        }
        lemma_len_subset(idxs.to_set(), set_int_range(0, len));
    }
}

impl AliasTable {
    /// An empty table.
    pub fn empty() -> (r: AliasTable)
        ensures
            r@.entries =~= Seq::<EntryV>::empty(),
            r@.wf(),
    {
        AliasTable { entries: Vec::new() }
    }

    /// The position of a key among the direct entries, if present.
    pub fn find_key(&self, k: &Vec<char>) -> (r: Option<usize>)
        requires
            self@.wf(),
        ensures
            match r {
                Some(i) => {
                    &&& 0 <= i < self@.entries.len()
                    &&& self@.entries[i as int].key == k@
                    &&& self@.has_key(k@)
                    &&& self@.index_of_key(k@) == i
                },
                None => !self@.has_key(k@),
            },
    {
        let mut i: usize = 0;
        while i < self.entries.len()
            invariant
                self@.wf(),
                self@.entries.len() == self.entries@.len(),
                i <= self.entries@.len(),
                forall|j: int| 0 <= j < i ==> self@.entries[j].key != k@,
            decreases self.entries@.len() - i,
        {
            if chars_eq(&self.entries[i].key, k) {
                proof {
                    self@.lemma_at(i as int);
                }
                return Some(i);
            }
            i += 1;
        }
        None
    }

    /// The direct subtable under a key.
    pub fn get_sub(&self, k: &Vec<char>) -> (r: Option<&AliasTable>)
        requires
            self@.wf(),
        ensures
            match r {
                Some(t) => self@.sub_at(k@) == Some(t@),
                None => self@.sub_at(k@) is None,
            },
    {
        match self.find_key(k) {
            Some(i) => match &self.entries[i].node {
                Node::Sub(t) => {
                    proof {
                        lemma_node_view_sub(*t);
                        assert(self@.entries[i as int].node == node_view(self.entries@[i as int].node));
                    }
                    Some(t)
                },
                Node::Leaf(_) => None,
            },
            None => None,
        }
    }

    /// The direct scalar under a key.
    pub fn get_leaf(&self, k: &Vec<char>) -> (r: Option<&Vec<char>>)
        requires
            self@.wf(),
        ensures
            match r {
                Some(v) => self@.leaf_at(k@) == Some(v@),
                None => self@.leaf_at(k@) is None,
            },
    {
        match self.find_key(k) {
            Some(i) => match &self.entries[i].node {
                Node::Leaf(v) => {
                    proof {
                        assert(self@.entries[i as int].node == node_view(self.entries@[i as int].node));
                    }
                    Some(v)
                },
                Node::Sub(_) => None,
            },
            None => None,
        }
    }

    /// A deep copy of this table.
    pub fn deep_copy(&self) -> (r: AliasTable)
        ensures
            r@ == self@,
        decreases *self,
    {
        let mut entries: Vec<Entry> = Vec::new();
        let mut i: usize = 0;
        while i < self.entries.len()
            invariant
                i <= self.entries@.len(),
                entries@.len() == i,
                forall|j: int| 0 <= j < i ==> #[trigger] entries@[j]@ == self.entries@[j]@,
            decreases self.entries@.len() - i,
        {
            let e = &self.entries[i];
            let node = match &e.node {
                Node::Leaf(v) => Node::Leaf(copy_chars(v)),
                Node::Sub(t) => {
                    let c = t.deep_copy();
                    proof {
                        lemma_node_view_sub(c);
                        lemma_node_view_sub(*t);
                    }
                    Node::Sub(c)
                },
            };
            entries.push(Entry { key: copy_chars(&e.key), node });
            i += 1;
        }
        proof {
            assert(entries@.map_values(|e: Entry| e@) =~= self.entries@.map_values(
                |e: Entry| e@,
            ));
        }
        AliasTable { entries }
    }

    /// Store a subtable under a direct key: replaces the entry in place, or
    /// appends a new entry when the key is absent.
    pub fn set_sub(&mut self, key: Vec<char>, t: AliasTable)
        requires
            old(self)@.wf(),
            t@.wf(),
        ensures
            old(self)@.has_key(key@) ==> final(self)@.entries =~= old(self)@.entries.update(
                old(self)@.index_of_key(key@),
                EntryV { key: key@, node: NodeV::Sub(t@) },
            ),
            !old(self)@.has_key(key@) ==> final(self)@.entries =~= old(self)@.entries.push(
                EntryV { key: key@, node: NodeV::Sub(t@) },
            ),
            final(self)@.wf(),
    {
        let ghost tv = t@;
        let ghost oldv = self@;
        proof {
            lemma_node_view_sub(t);
        }
        match self.find_key(&key) {
            Some(i) => {
                self.entries[i] = Entry { key, node: Node::Sub(t) };
                proof {
                    assert(self@.entries =~= oldv.entries.update(
                        i as int,
                        EntryV { key: oldv.entries[i as int].key, node: NodeV::Sub(tv) },
                    ));
                    assert forall|a: int, b: int|
                        0 <= a < b < self@.entries.len() implies self@.entries[a].key
                        != self@.entries[b].key by {
                        assert(oldv.entries[a].key != oldv.entries[b].key);
                    }
                    assert forall|a: int| 0 <= a < self@.entries.len() implies match #[trigger] self@.entries[a].node {
                        NodeV::Sub(s) => s.wf(),
                        NodeV::Leaf(_) => true,
                    } by {
                        if a != i {
                            assert(self@.entries[a] == oldv.entries[a]);
                        }
                    }
                }
            },
            None => {
                self.entries.push(Entry { key, node: Node::Sub(t) });
                proof {
                    assert(self@.entries =~= oldv.entries.push(
                        EntryV { key: key@, node: NodeV::Sub(tv) },
                    ));
                    assert forall|a: int, b: int|
                        0 <= a < b < self@.entries.len() implies self@.entries[a].key
                        != self@.entries[b].key by {
                        if b < oldv.entries.len() {
                            assert(oldv.entries[a].key != oldv.entries[b].key);
                        } else {
                            if self@.entries[a].key == key@ {
                                assert(oldv.has_key(key@));
                            }
                        }
                    }
                    assert forall|a: int| 0 <= a < self@.entries.len() implies match #[trigger] self@.entries[a].node {
                        NodeV::Sub(s) => s.wf(),
                        NodeV::Leaf(_) => true,
                    } by {
                        if a < oldv.entries.len() {
                            assert(self@.entries[a] == oldv.entries[a]);
                        }
                    }
                }
            },
        }
    }

    /// Store a scalar under a direct key: replaces a scalar entry in place,
    /// or appends a new entry when the key is absent; `false` and no change
    /// when a subtable already holds the key.
    pub fn set_leaf(&mut self, key: Vec<char>, value: Vec<char>) -> (r: bool)
        requires
            old(self)@.wf(),
        ensures
            final(self)@.wf(),
            old(self)@.has_key(key@) && old(self)@.leaf_at(key@) is Some && r
                ==> final(self)@.entries =~= old(self)@.entries.update(
                old(self)@.index_of_key(key@),
                EntryV { key: key@, node: NodeV::Leaf(value@) },
            ),
            !old(self)@.has_key(key@) && r ==> final(self)@.entries =~= old(self)@.entries.push(
                EntryV { key: key@, node: NodeV::Leaf(value@) },
            ),
            r == !(old(self)@.has_key(key@) && old(self)@.leaf_at(key@) is None),
            !r ==> final(self)@ == old(self)@,
    {
        let ghost oldv = self@;
        match self.find_key(&key) {
            Some(i) => {
                let is_leaf = match &self.entries[i].node {
                    Node::Leaf(_) => true,
                    Node::Sub(_) => false,
                };
                if !is_leaf {
                    proof {
                        assert(oldv.leaf_at(key@) is None);
                    }
                    return false;
                }
                self.entries[i] = Entry { key, node: Node::Leaf(value) };
                proof {
                    assert(oldv.leaf_at(key@) is Some);
                    assert(self@.entries =~= oldv.entries.update(
                        i as int,
                        EntryV { key: oldv.entries[i as int].key, node: NodeV::Leaf(value@) },
                    ));
                    lemma_wf_update_same_key(oldv, i as int, self@);
                }
                true
            },
            None => {
                self.entries.push(Entry { key, node: Node::Leaf(value) });
                proof {
                    assert(self@.entries =~= oldv.entries.push(
                        EntryV { key: key@, node: NodeV::Leaf(value@) },
                    ));
                    lemma_wf_push_fresh(oldv, self@);
                }
                true
            },
        }
    }

    /// Remove the entry holding a subtable under a direct key; a scalar entry
    /// or an absent key is left untouched.
    pub fn remove_sub(&mut self, key: &Vec<char>)
        requires
            old(self)@.wf(),
        ensures
            (old(self)@.sub_at(key@) is Some) ==> final(self)@.entries =~= old(
                self,
            )@.entries.remove(old(self)@.index_of_key(key@)),
            (old(self)@.sub_at(key@) is None) ==> final(self)@ == old(self)@,
            final(self)@.wf(),
    {
        let ghost oldv = self@;
        match self.find_key(key) {
            Some(i) => {
                let is_sub = match &self.entries[i].node {
                    Node::Sub(_) => true,
                    Node::Leaf(_) => false,
                };
                if is_sub {
                    self.entries.remove(i);
                    proof {
                        assert(self@.entries =~= oldv.entries.remove(i as int));
                        assert forall|a: int, b: int|
                            0 <= a < b < self@.entries.len() implies self@.entries[a].key
                            != self@.entries[b].key by {
                            let a0 = if a < i { a } else { a + 1 };
                            let b0 = if b < i { b } else { b + 1 };
                            assert(self@.entries[a] == oldv.entries[a0]);
                            assert(self@.entries[b] == oldv.entries[b0]);
                            assert(oldv.entries[a0].key != oldv.entries[b0].key);
                        }
                        assert forall|a: int| 0 <= a < self@.entries.len() implies match #[trigger] self@.entries[a].node {
                            NodeV::Sub(s) => s.wf(),
                            NodeV::Leaf(_) => true,
                        } by {
                            let a0 = if a < i { a } else { a + 1 };
                            assert(self@.entries[a] == oldv.entries[a0]);
                        }
                    }
                } else {
                    proof {
                        assert(oldv.sub_at(key@) is None);
                    }
                }
            },
            None => {
            },
        }
    }

    /// The contiguous chain of stage tables at keys "0", "1", ... in order.
    pub fn chain(&self) -> (r: Vec<AliasTable>)
        requires
            self@.wf(),
        ensures
            forall|i: int| 0 <= i < r@.len() ==> self@.stage(i as nat) == Some(#[trigger] r@[i]@),
            self@.is_chain_len(r@.len() as nat),
    {
        let mut out: Vec<AliasTable> = Vec::new();
        loop
            invariant
                self@.wf(),
                out@.len() <= self.entries@.len(),
                self@.entries.len() == self.entries@.len(),
                forall|i: int|
                    0 <= i < out@.len() ==> self@.stage(i as nat) == Some(#[trigger] out@[i]@),
            decreases self.entries@.len() + 1 - out@.len(),
        {
            let key = crate::chars::index_key_chars(out.len());
            match self.get_sub(&key) {
                Some(t) => {
                    let c = t.deep_copy();
                    out.push(c);
                    proof {
                        assert forall|j: nat| j < out@.len() implies self@.has_key(
                            #[trigger] dec_rep(j),
                        ) by {
                            assert(self@.stage(j) == Some(out@[j as int]@));
                        }
                        self@.lemma_chain_bound(out@.len() as nat);
                    }
                },
                None => {
                    proof {
                        assert(self@.stage(out@.len() as nat) is None);
                        assert forall|i: nat| i < out@.len() implies (#[trigger] self@.stage(
                            i,
                        )) is Some by {
                            assert(self@.stage(i) == Some(out@[i as int]@));
                        }
                    }
                    return out;
                },
            }
        }
    }
}

/// Segment sequences seen as their mathematical views.
pub open spec fn path_view(p: Seq<Vec<char>>) -> Seq<Seq<char>> {
    p.map_values(|v: Vec<char>| v@)
}

/// Insertion of a scalar along a path, creating intermediate tables as
/// needed; `None` when an existing entry of the wrong shape is in the way.
pub open spec fn with_value_at_v(t: TableV, path: Seq<Seq<char>>, from: int, value: Seq<char>) -> Option<TableV>
    decreases path.len() - from,
{
    if from < 0 || from >= path.len() {
        None
    } else {
        let seg = path[from];
        if from == path.len() - 1 {
            if t.has_key(seg) {
                match t.entries[t.index_of_key(seg)].node {
                    NodeV::Sub(_) => None,
                    NodeV::Leaf(_) => Some(
                        TableV {
                            entries: t.entries.update(
                                t.index_of_key(seg),
                                EntryV { key: seg, node: NodeV::Leaf(value) },
                            ),
                        },
                    ),
                }
            } else {
                Some(
                    TableV { entries: t.entries.push(EntryV { key: seg, node: NodeV::Leaf(value) }) },
                )
            }
        } else {
            if t.has_key(seg) {
                match t.entries[t.index_of_key(seg)].node {
                    NodeV::Leaf(_) => None,
                    NodeV::Sub(sub) => match with_value_at_v(sub, path, from + 1, value) {
                        None => None,
                        Some(ns) => Some(
                            TableV {
                                entries: t.entries.update(
                                    t.index_of_key(seg),
                                    EntryV { key: seg, node: NodeV::Sub(ns) },
                                ),
                            },
                        ),
                    },
                }
            } else {
                match with_value_at_v(TableV { entries: Seq::empty() }, path, from + 1, value) {
                    None => None,
                    Some(ns) => Some(
                        TableV {
                            entries: t.entries.push(EntryV { key: seg, node: NodeV::Sub(ns) }),
                        },
                    ),
                }
            }
        }
    }
}

impl AliasTable {
    /// A copy of this table with a scalar inserted along a path, creating
    /// intermediate tables as needed.
    pub fn with_value_at(&self, path: &Vec<Vec<char>>, from: usize, value: &Vec<char>) -> (r: Option<
        AliasTable,
    >)
        requires
            self@.wf(),
            from < path@.len(),
        ensures
            match r {
                Some(nt) => {
                    &&& with_value_at_v(self@, path_view(path@), from as int, value@) == Some(nt@)
                    &&& nt@.wf()
                },
                None => with_value_at_v(self@, path_view(path@), from as int, value@) is None,
            },
        decreases path@.len() - from,
    {
        let ghost pv = path_view(path@);
        let ghost oldv = self@;
        let seg = &path[from];
        let last = from == path.len() - 1;
        match self.find_key(seg) {
            Some(i) => {
                let ghost iv = i as int;
                if last {
                    match &self.entries[i].node {
                        Node::Sub(_) => {
                            proof {
                                assert(oldv.entries[iv].node is Sub);
                            }
                            None
                        },
                        Node::Leaf(_) => {
                            let mut nt = self.deep_copy();
                            nt.entries[i] = Entry {
                                key: copy_chars(seg),
                                node: Node::Leaf(copy_chars(value)),
                            };
                            proof {
                                assert(oldv.entries[iv].node is Leaf);
                                assert(nt@.entries =~= oldv.entries.update(
                                    iv,
                                    EntryV { key: pv[from as int], node: NodeV::Leaf(value@) },
                                ));
                                lemma_wf_update_same_key(oldv, iv, nt@);
                            }
                            Some(nt)
                        },
                    }
                } else {
                    match &self.entries[i].node {
                        Node::Leaf(_) => {
                            proof {
                                assert(oldv.entries[iv].node is Leaf);
                            }
                            None
                        },
                        Node::Sub(sub) => {
                            proof {
                                assert(oldv.entries[iv].node == node_view(
                                    self.entries@[iv].node,
                                ));
                                lemma_node_view_sub(*sub);
                                oldv.lemma_at(iv);
                                assert(match oldv.entries[iv].node {
                                    NodeV::Sub(s) => s.wf(),
                                    NodeV::Leaf(_) => true,
                                });
                            }
                            match sub.with_value_at(path, from + 1, value) {
                                None => None,
                                Some(ns) => {
                                    let mut nt = self.deep_copy();
                                    let ghost nsv = ns@;
                                    proof {
                                        lemma_node_view_sub(ns);
                                    }
                                    nt.entries[i] = Entry {
                                        key: copy_chars(seg),
                                        node: Node::Sub(ns),
                                    };
                                    proof {
                                        assert(nt@.entries =~= oldv.entries.update(
                                            iv,
                                            EntryV { key: pv[from as int], node: NodeV::Sub(nsv) },
                                        ));
                                        lemma_wf_update_same_key(oldv, iv, nt@);
                                    }
                                    Some(nt)
                                },
                            }
                        },
                    }
                }
            },
            None => {
                if last {
                    let mut nt = self.deep_copy();
                    nt.entries.push(Entry {
                        key: copy_chars(seg),
                        node: Node::Leaf(copy_chars(value)),
                    });
                    proof {
                        assert(nt@.entries =~= oldv.entries.push(
                            EntryV { key: pv[from as int], node: NodeV::Leaf(value@) },
                        ));
                        lemma_wf_push_fresh(oldv, nt@);
                    }
                    Some(nt)
                } else {
                    let base = AliasTable::empty();
                    match base.with_value_at(path, from + 1, value) {
                        None => None,
                        Some(ns) => {
                            let mut nt = self.deep_copy();
                            let ghost nsv = ns@;
                            proof {
                                lemma_node_view_sub(ns);
                            }
                            nt.entries.push(Entry { key: copy_chars(seg), node: Node::Sub(ns) });
                            proof {
                                assert(base@.entries =~= Seq::<EntryV>::empty());
                                assert(base@ =~= TableV { entries: Seq::empty() });
                                assert(nt@.entries =~= oldv.entries.push(
                                    EntryV { key: pv[from as int], node: NodeV::Sub(nsv) },
                                ));
                                lemma_wf_push_fresh(oldv, nt@);
                            }
                            Some(nt)
                        },
                    }
                }
            },
        }
    }
}

/// Walking a concatenated path is walking its halves in turn.
pub proof fn lemma_table_at_path_append(t: TableV, p: Seq<Seq<char>>, q: Seq<Seq<char>>)
    ensures
        t.table_at_path(p + q) == match t.table_at_path(p) {
            Some(s) => s.table_at_path(q),
            None => None,
        },
    decreases p.len(),
{
    if p.len() == 0 {
        assert(p + q =~= q);
    } else {
        assert((p + q)[0] == p[0]);
        match t.sub_at(p[0]) {
            Some(s) => {
                assert((p + q).drop_first() =~= p.drop_first() + q);
                lemma_table_at_path_append(s, p.drop_first(), q);
            },
            None => {
            },
        }
    }
}

impl AliasTable {
    /// The scalar reached by walking a dot-path given as segments.
    pub fn get_value_path(&self, path: &Vec<Vec<char>>) -> (r: Option<&Vec<char>>)
        requires
            self@.wf(),
            path@.len() >= 1,
        ensures
            match r {
                Some(v) => self@.value_at_path(path_view(path@)) == Some(v@),
                None => self@.value_at_path(path_view(path@)) is None,
            },
    {
        let ghost pv = path_view(path@);
        let mut cur: &AliasTable = self;
        let mut i: usize = 0;
        while i < path.len() - 1
            invariant
                self@.wf(),
                path@.len() >= 1,
                pv == path_view(path@),
                i < path@.len(),
                cur@.wf(),
                self@.table_at_path(pv.subrange(0, i as int)) == Some(cur@),
            decreases path@.len() - i,
        {
            let seg = &path[i];
            match cur.get_sub(seg) {
                Some(t) => {
                    proof {
                        cur@.lemma_sub_at_wf(seg@);
                        lemma_table_at_path_append(
                            self@,
                            pv.subrange(0, i as int),
                            seq![pv[i as int]],
                        );
                        assert(pv.subrange(0, i as int) + seq![pv[i as int]] =~= pv.subrange(
                            0,
                            i as int + 1,
                        ));
                        assert(seg@ == pv[i as int]);
                        let single = seq![pv[i as int]];
                        assert(single.drop_first() =~= Seq::<Seq<char>>::empty());
                        assert(cur@.sub_at(pv[i as int]) == Some(t@));
                        assert(t@.table_at_path(single.drop_first()) == Some(t@));
                        assert(cur@.table_at_path(single) == Some(t@));
                    }
                    cur = t;
                },
                None => {
                    proof {
                        lemma_table_at_path_append(
                            self@,
                            pv.subrange(0, i as int),
                            pv.subrange(i as int, pv.len() as int - 1),
                        );
                        assert(pv.subrange(0, i as int) + pv.subrange(i as int, pv.len() as int - 1)
                            =~= pv.drop_last());
                        if pv.subrange(i as int, pv.len() as int - 1).len() > 0 {
                            assert(pv.subrange(i as int, pv.len() as int - 1)[0] == pv[i as int]);
                        }
                    }
                    return None;
                },
            }
            i += 1;
        }
        let r = cur.get_leaf(&path[i]);
        proof {
            assert(pv.subrange(0, i as int) =~= pv.drop_last());
            assert(pv[i as int] == pv.last());
        }
        r
    }
}

impl AliasTable {
    /// The scalar under a direct key; the key is literal, as the host
    /// addresses values, so a dot in it is part of the key.
    pub fn get_value(&self, key: &str) -> (r: Option<String>)
        requires
            self@.wf(),
        ensures
            match r {
                Some(v) => self@.leaf_at(key@) == Some(v@),
                None => self@.leaf_at(key@) is None,
            },
    {
        let k = crate::chars::chars_of(key);
        match self.get_leaf(&k) {
            Some(v) => Some(crate::chars::string_of(v)),
            None => None,
        }
    }

    /// The table at a dot-separated path.
    pub fn get_table(&self, path: &str) -> (r: Option<&AliasTable>)
        requires
            self@.wf(),
        ensures
            match r {
                Some(t) => self@.table_at_path(crate::chars::split_sep(path@, '.')) == Some(t@),
                None => self@.table_at_path(crate::chars::split_sep(path@, '.')) is None,
            },
    {
        let cs = crate::chars::chars_of(path);
        let segs = crate::chars::split_chars(&cs, '.');
        let ghost pv = path_view(segs@);
        proof {
            assert(pv == crate::chars::split_sep(path@, '.'));
        }
        let mut cur: &AliasTable = self;
        let mut i: usize = 0;
        while i < segs.len()
            invariant
                self@.wf(),
                pv == path_view(segs@),
                pv == crate::chars::split_sep(path@, '.'),
                pv.len() == segs@.len(),
                i <= segs@.len(),
                cur@.wf(),
                self@.table_at_path(pv.subrange(0, i as int)) == Some(cur@),
            decreases segs@.len() - i,
        {
            let seg = &segs[i];
            match cur.get_sub(seg) {
                Some(t) => {
                    proof {
                        cur@.lemma_sub_at_wf(seg@);
                        lemma_table_at_path_append(
                            self@,
                            pv.subrange(0, i as int),
                            seq![pv[i as int]],
                        );
                        assert(pv.subrange(0, i as int) + seq![pv[i as int]] =~= pv.subrange(
                            0,
                            i as int + 1,
                        ));
                        assert(seg@ == pv[i as int]);
                        let single = seq![pv[i as int]];
                        assert(single.drop_first() =~= Seq::<Seq<char>>::empty());
                        assert(cur@.sub_at(pv[i as int]) == Some(t@));
                        assert(t@.table_at_path(single.drop_first()) == Some(t@));
                        assert(single[0] == pv[i as int]);
                        assert(cur@.table_at_path(single) == Some(t@));
                    }
                    cur = t;
                },
                None => {
                    proof {
                        lemma_table_at_path_append(
                            self@,
                            pv.subrange(0, i as int),
                            pv.subrange(i as int, pv.len() as int),
                        );
                        assert(pv.subrange(0, i as int) + pv.subrange(i as int, pv.len() as int)
                            =~= pv);
                        assert(pv.subrange(i as int, pv.len() as int)[0] == pv[i as int]);
                        assert(seg@ == pv[i as int]);
                        assert(cur@.sub_at(pv[i as int]) is None);
                        assert(cur@.table_at_path(pv.subrange(i as int, pv.len() as int)) is None);
                        assert(self@.table_at_path(pv) is None);
                    }
                    return None;
                },
            }
            i += 1;
        }
        proof {
            assert(pv.subrange(0, i as int) =~= pv);
        }
        Some(cur)
    }

    /// Store a scalar under a direct literal key: replaces a scalar entry in
    /// place, or appends a new one; `false` and no change when a subtable
    /// already holds the key.
    pub fn insert_value(&mut self, key: &str, value: &str) -> (r: bool)
        requires
            old(self)@.wf(),
        ensures
            final(self)@.wf(),
            old(self)@.has_key(key@) && old(self)@.leaf_at(key@) is Some && r
                ==> final(self)@.entries =~= old(self)@.entries.update(
                old(self)@.index_of_key(key@),
                EntryV { key: key@, node: NodeV::Leaf(value@) },
            ),
            !old(self)@.has_key(key@) && r ==> final(self)@.entries =~= old(self)@.entries.push(
                EntryV { key: key@, node: NodeV::Leaf(value@) },
            ),
            r == !(old(self)@.has_key(key@) && old(self)@.leaf_at(key@) is None),
            !r ==> final(self)@ == old(self)@,
    {
        let k = crate::chars::chars_of(key);
        let v = crate::chars::chars_of(value);
        self.set_leaf(k, v)
    }

    /// Store a subtable under a direct key, replacing any entry there.
    pub fn insert_table(&mut self, key: &str, t: AliasTable)
        requires
            old(self)@.wf(),
            t@.wf(),
        ensures
            final(self)@.wf(),
            old(self)@.has_key(key@) ==> final(self)@.entries =~= old(self)@.entries.update(
                old(self)@.index_of_key(key@),
                EntryV { key: key@, node: NodeV::Sub(t@) },
            ),
            !old(self)@.has_key(key@) ==> final(self)@.entries =~= old(self)@.entries.push(
                EntryV { key: key@, node: NodeV::Sub(t@) },
            ),
    {
        self.set_sub(crate::chars::chars_of(key), t);
    }

    /// Remove the subtable entry under a direct key; no-op when absent or a
    /// scalar.
    pub fn remove_table(&mut self, key: &str)
        requires
            old(self)@.wf(),
        ensures
            final(self)@.wf(),
            (old(self)@.sub_at(key@) is Some) ==> final(self)@.entries =~= old(
                self,
            )@.entries.remove(old(self)@.index_of_key(key@)),
            (old(self)@.sub_at(key@) is None) ==> final(self)@ == old(self)@,
    {
        let k = crate::chars::chars_of(key);
        self.remove_sub(&k);
    }

    /// The numeric-keyed subtables "0", "1", ... in ascending order, up to
    /// the first missing index.
    pub fn iter_subtables_as_array(&self) -> (r: Vec<AliasTable>)
        requires
            self@.wf(),
        ensures
            forall|i: int| 0 <= i < r@.len() ==> self@.stage(i as nat) == Some(#[trigger] r@[i]@),
            self@.is_chain_len(r@.len() as nat),
    {
        self.chain()
    }
}

/// Updating an entry in place, key unchanged, with a well-formed node keeps
/// the table well-formed.
proof fn lemma_wf_update_same_key(oldv: TableV, i: int, newv: TableV)
    requires
        oldv.wf(),
        0 <= i < oldv.entries.len(),
        newv.entries =~= oldv.entries.update(
            i,
            EntryV { key: oldv.entries[i].key, node: newv.entries[i].node },
        ),
        match newv.entries[i].node {
            NodeV::Sub(s) => s.wf(),
            NodeV::Leaf(_) => true,
        },
    ensures
        newv.wf(),
{
    assert forall|a: int, b: int|
        0 <= a < b < newv.entries.len() implies newv.entries[a].key != newv.entries[b].key by {
        assert(oldv.entries[a].key != oldv.entries[b].key);
    }
    assert forall|a: int| 0 <= a < newv.entries.len() implies match #[trigger] newv.entries[a].node {
        NodeV::Sub(s) => s.wf(),
        NodeV::Leaf(_) => true,
    } by {
        if a != i {
            assert(newv.entries[a] == oldv.entries[a]);
        }
    }
}

/// Appending an entry under a fresh key with a well-formed node keeps the
/// table well-formed.
proof fn lemma_wf_push_fresh(oldv: TableV, newv: TableV)
    requires
        oldv.wf(),
        newv.entries.len() == oldv.entries.len() + 1,
        newv.entries =~= oldv.entries.push(newv.entries.last()),
        !oldv.has_key(newv.entries.last().key),
        match newv.entries.last().node {
            NodeV::Sub(s) => s.wf(),
            NodeV::Leaf(_) => true,
        },
    ensures
        newv.wf(),
{
    assert forall|a: int, b: int|
        0 <= a < b < newv.entries.len() implies newv.entries[a].key != newv.entries[b].key by {
        if b < oldv.entries.len() {
            assert(oldv.entries[a].key != oldv.entries[b].key);
        } else {
            if newv.entries[a].key == newv.entries[b].key {
                assert(oldv.entries[a].key == newv.entries.last().key);
                assert(oldv.has_key(newv.entries.last().key));
            }
        }
    }
    assert forall|a: int| 0 <= a < newv.entries.len() implies match #[trigger] newv.entries[a].node {
        NodeV::Sub(s) => s.wf(),
        NodeV::Leaf(_) => true,
    } by {
        if a < oldv.entries.len() {
            assert(newv.entries[a] == oldv.entries[a]);
        }
    }
}

} // verus!
