//! A generic prefix automaton (trie) over an integer symbol alphabet.
//!
//! The trie is an arena of nodes; node 0 is the root. Each node owns an
//! optional terminal value and a symbol-to-child-index table. The table
//! is a capability interface ([`TrieTab`]) with two implementations: a
//! dense array indexed directly by the symbol for byte-sized alphabets
//! ([`ByteTab`]) and a hash-keyed table for larger, sparser alphabets
//! ([`CharTab`]). Matching is incremental: a [`TrieCursor`] records the
//! progress of a match and is advanced one symbol at a time.

use vstd::prelude::*;
use std::collections::HashMap;

verus! {

broadcast use vstd::std_specs::hash::group_hash_axioms;

/// A symbol table mapping symbols to child node indices: the backing
/// storage a trie node uses for its outgoing edges.
pub trait TrieTab: Sized {
    /// The table's contents as a mathematical map.
    spec fn entries(&self) -> Map<u32, usize>;

    /// Structural well-formedness of the backing storage.
    spec fn inv(&self) -> bool;

    /// Which symbols this table can store.
    spec fn supports(sym: u32) -> bool;

    /// A table with no entry at all.
    fn empty() -> (r: Self)
        ensures
            r.inv(),
            r.entries() == Map::<u32, usize>::empty(),
    ;

    /// Looks the symbol up; any symbol may be asked for, also one the
    /// table cannot store.
    fn get(&self, sym: u32) -> (r: Option<usize>)
        requires
            self.inv(),
        ensures
            r == (if self.entries().contains_key(sym) {
                Some(self.entries()[sym])
            } else {
                None::<usize>
            }),
    ;

    /// Binds the symbol to a child index, replacing any prior binding.
    fn set(&mut self, sym: u32, idx: usize)
        requires
            old(self).inv(),
            Self::supports(sym),
        ensures
            final(self).inv(),
            final(self).entries() == old(self).entries().insert(sym, idx),
    ;
}

/// Dense table for byte-sized alphabets: one slot per possible symbol,
/// looked up by direct indexing.
pub struct ByteTab {
    slots: Vec<Option<usize>>,
}

impl TrieTab for ByteTab {
    closed spec fn entries(&self) -> Map<u32, usize> {
        Map::new(
            |sym: u32| sym < 256 && self.slots@[sym as int] is Some,
            |sym: u32| self.slots@[sym as int]->Some_0,
        )
    }

    closed spec fn inv(&self) -> bool {
        self.slots@.len() == 256
    }

    open spec fn supports(sym: u32) -> bool {
        sym < 256
    }

    fn empty() -> (r: Self) {
        let mut slots: Vec<Option<usize>> = Vec::new();
        let mut i: usize = 0;
        while i < 256
            invariant
                i <= 256,
                slots@.len() == i,
                forall|j: int| 0 <= j < i ==> slots@[j] is None,
            decreases 256 - i,
        {
            slots.push(None);
            i = i + 1;
        }
        let r = ByteTab { slots };
        proof {
            assert(r.entries() =~= Map::<u32, usize>::empty());
        }
        r
    }

    fn get(&self, sym: u32) -> (r: Option<usize>) {
        if sym < 256 {
            self.slots[sym as usize]
        } else {
            None
        }
    }

    fn set(&mut self, sym: u32, idx: usize) {
        self.slots[sym as usize] = Some(idx);
        proof {
            assert(self.entries() =~= old(self).entries().insert(sym, idx));
        }
    }
}

/// Hash-keyed table for large or sparse alphabets.
pub struct CharTab {
    map: HashMap<u32, usize>,
}

impl TrieTab for CharTab {
    closed spec fn entries(&self) -> Map<u32, usize> {
        self.map@
    }

    closed spec fn inv(&self) -> bool {
        true
    }

    open spec fn supports(sym: u32) -> bool {
        true
    }

    fn empty() -> (r: Self) {
        CharTab { map: HashMap::new() }
    }

    fn get(&self, sym: u32) -> (r: Option<usize>) {
        match self.map.get(&sym) {
            Some(idx) => Some(*idx),
            None => None,
        }
    }

    fn set(&mut self, sym: u32, idx: usize) {
        self.map.insert(sym, idx);
    }
}

} // verus!

verus! {

/// One arena node: an optional terminal value plus the outgoing edges.
pub struct TrieNode<V, TT> {
    pub value: Option<V>,
    pub tab: TT,
}

/// The arena of nodes; node 0 is the root, afterwards the order is the
/// order of creation. Nodes are never removed and never move.
pub struct Trie<V, TT> {
    pub nodes: Vec<TrieNode<V, TT>>,
}

/// The progress of an incremental match through a trie.
#[derive(Clone, Copy, PartialEq, Eq, Structural, Debug)]
pub enum TrieCursor {
    /// No symbol consumed yet.
    Start,
    /// Some symbols consumed, all of them on a live path; `is_partial`
    /// is true iff the node reached carries no terminal value.
    Match { idx: usize, is_partial: bool },
    /// A symbol had no transition; sticky until reset.
    NoMatch,
}

impl<V, TT: TrieTab> Trie<V, TT> {
    /// The backing table of every node is well formed.
    pub open spec fn tabs_ok(self) -> bool {
        forall|i: int| 0 <= i < self.nodes@.len() ==> (#[trigger] self.nodes@[i].tab).inv()
    }

    /// The edge out of node `i` labelled `sym`, if any.
    pub open spec fn child(self, i: int, sym: u32) -> Option<int> {
        if 0 <= i < self.nodes@.len() {
            if self.nodes@[i].tab.entries().contains_key(sym) {
                Some(self.nodes@[i].tab.entries()[sym] as int)
            } else {
                None
            }
        } else {
            None
        }
    }

    /// The terminal value stored at node `i`, if any.
    pub open spec fn value_at(self, i: int) -> Option<V> {
        if 0 <= i < self.nodes@.len() {
            self.nodes@[i].value
        } else {
            None
        }
    }

    /// The node reached from node `i` along the symbols of `s`.
    pub open spec fn node_at(self, i: int, s: Seq<u32>) -> Option<int>
        decreases s.len(),
    {
        if s.len() == 0 {
            Some(i)
        } else {
            match self.child(i, s[0]) {
                Some(c) => self.node_at(c, s.subrange(1, s.len() as int)),
                None => None,
            }
        }
    }

    /// The value stored at the end of path `s` out of node `i`.
    pub open spec fn sub_lookup(self, i: int, s: Seq<u32>) -> Option<V> {
        match self.node_at(i, s) {
            Some(n) => self.value_at(n),
            None => None,
        }
    }

    /// The value the trie associates with the key `s`: the trie's
    /// mathematical content, as a partial map from keys to values.
    pub open spec fn lookup(self, s: Seq<u32>) -> Option<V> {
        self.sub_lookup(0, s)
    }

    /// Every edge points forward in the arena: creation order gives a
    /// strictly increasing index along every path.
    pub open spec fn edges_ok(self) -> bool {
        forall|i: int, sym: u32| (#[trigger] self.child(i, sym)) is Some
            ==> i < self.child(i, sym)->Some_0 < self.nodes@.len()
    }

    /// No two edges share a target: every node has at most one parent,
    /// so every node is reached by at most one path.
    pub open spec fn edges_unique(self) -> bool {
        forall|i1: int, sym1: u32, i2: int, sym2: u32|
            (#[trigger] self.child(i1, sym1)) is Some
            && self.child(i1, sym1) == #[trigger] self.child(i2, sym2)
            ==> i1 == i2 && sym1 == sym2
    }

    /// There is a path from node `i` to node `tgt`.
    pub open spec fn reaches(self, i: int, tgt: int) -> bool {
        exists|s: Seq<u32>| #[trigger] self.node_at(i, s) == Some(tgt)
    }

    /// Some path out of node `i` ends at a value.
    pub open spec fn node_productive(self, i: int) -> bool {
        exists|s: Seq<u32>| (#[trigger] self.sub_lookup(i, s)) is Some
    }

    /// Every node other than the root either carries a value or leads
    /// to one: insertion never leaves a dead branch behind.
    pub open spec fn productive(self) -> bool {
        forall|i: int| 1 <= i < self.nodes@.len() ==> #[trigger] self.node_productive(i)
    }

    /// Like `productive`, but a node may instead lead to `tgt`: the
    /// shape insertion passes through before the final value is set.
    pub open spec fn productive_or_reaches(self, tgt: int) -> bool {
        forall|i: int| 1 <= i < self.nodes@.len()
            ==> #[trigger] self.node_productive(i) || self.reaches(i, tgt)
    }

    /// Well-formedness of the whole trie.
    pub open spec fn wf(self) -> bool {
        &&& self.nodes@.len() >= 1
        &&& self.tabs_ok()
        &&& self.edges_ok()
        &&& self.edges_unique()
        &&& self.productive()
    }

    /// The cursor speaks of a real node, and its `is_partial` flag says
    /// whether that node carries a value.
    pub open spec fn cursor_wf(self, cur: TrieCursor) -> bool {
        match cur {
            TrieCursor::Start => true,
            TrieCursor::Match { idx, is_partial } => idx < self.nodes@.len() && is_partial == (
            self.value_at(idx as int) is None),
            TrieCursor::NoMatch => true,
        }
    }

    /// The node a non-failed cursor stands on.
    pub open spec fn cursor_node(cur: TrieCursor) -> int {
        match cur {
            TrieCursor::Start => 0,
            TrieCursor::Match { idx, .. } => idx as int,
            TrieCursor::NoMatch => -1,
        }
    }

    /// What `advance` returns: take the edge labelled `sym` if there is
    /// one, fail otherwise, and stay failed once failed.
    pub open spec fn advance_spec(self, cur: TrieCursor, sym: u32) -> TrieCursor {
        if cur is NoMatch {
            TrieCursor::NoMatch
        } else {
            match self.child(Self::cursor_node(cur), sym) {
                Some(c) => TrieCursor::Match {
                    idx: c as usize,
                    is_partial: self.value_at(c) is None,
                },
                None => TrieCursor::NoMatch,
            }
        }
    }

    /// What `get` returns: the value at the cursor's node, if the
    /// cursor stands on one.
    pub open spec fn cursor_value(self, cur: TrieCursor) -> Option<V> {
        match cur {
            TrieCursor::Match { idx, .. } => self.value_at(idx as int),
            _ => None,
        }
    }
}

} // verus!

verus! {

impl<V, TT: TrieTab> Trie<V, TT> {
    /// Walking `s + t` is walking `s`, then walking `t` from where `s`
    /// ended.
    pub proof fn lemma_node_at_concat(self, i: int, s: Seq<u32>, t: Seq<u32>)
        ensures
            self.node_at(i, s + t) == (match self.node_at(i, s) {
                Some(n) => self.node_at(n, t),
                None => None::<int>,
            }),
        decreases s.len(),
    {
        if s.len() == 0 {
            assert(s + t =~= t);
        } else {
            assert((s + t)[0] == s[0]);
            match self.child(i, s[0]) {
                Some(c) => {
                    assert((s + t).subrange(1, (s + t).len() as int) =~= s.subrange(
                        1,
                        s.len() as int,
                    ) + t);
                    self.lemma_node_at_concat(c, s.subrange(1, s.len() as int), t);
                },
                None => {},
            }
        }
    }

    /// Walking one more symbol takes the edge out of the node reached
    /// so far.
    pub proof fn lemma_node_at_snoc(self, i: int, s: Seq<u32>, x: u32)
        ensures
            self.node_at(i, s.push(x)) == (match self.node_at(i, s) {
                Some(n) => self.child(n, x),
                None => None::<int>,
            }),
    {
        assert(s.push(x) =~= s + seq![x]);
        self.lemma_node_at_concat(i, s, seq![x]);
        match self.node_at(i, s) {
            Some(n) => {
                assert(seq![x][0] == x);
                assert(seq![x].subrange(1, 1) =~= Seq::<u32>::empty());
                match self.child(n, x) {
                    Some(c) => {
                        assert(self.node_at(c, Seq::<u32>::empty()) == Some(c));
                        assert(self.node_at(n, seq![x]) == Some(c));
                    },
                    None => {},
                }
            },
            None => {},
        }
    }

    /// A reached node lies in the arena, no earlier than the start; a
    /// nonempty path moves strictly forward.
    pub proof fn lemma_node_at_in_range(self, i: int, s: Seq<u32>)
        requires
            self.edges_ok(),
            0 <= i < self.nodes@.len(),
            self.node_at(i, s) is Some,
        ensures
            i <= self.node_at(i, s)->Some_0 < self.nodes@.len(),
            s.len() > 0 ==> i < self.node_at(i, s)->Some_0,
        decreases s.len(),
    {
        if s.len() > 0 {
            match self.child(i, s[0]) {
                Some(c) => {
                    self.lemma_node_at_in_range(c, s.subrange(1, s.len() as int));
                },
                None => {},
            }
        }
    }

    /// A nonempty walk decomposes into its last edge.
    pub proof fn lemma_node_at_last(self, i: int, s: Seq<u32>)
        requires
            s.len() > 0,
            self.node_at(i, s) is Some,
        ensures
            self.node_at(i, s.drop_last()) is Some,
            self.child(self.node_at(i, s.drop_last())->Some_0, s.last()) == self.node_at(i, s),
    {
        assert(s =~= s.drop_last().push(s.last()));
        self.lemma_node_at_snoc(i, s.drop_last(), s.last());
    }

    /// With forward, target-unique edges, at most one path leads from
    /// the root to any node.
    pub proof fn lemma_unique_path(self, s1: Seq<u32>, s2: Seq<u32>)
        requires
            self.edges_ok(),
            self.edges_unique(),
            self.node_at(0, s1) is Some,
            self.node_at(0, s1) == self.node_at(0, s2),
        ensures
            s1 == s2,
        decreases s1.len(),
    {
        let n = self.node_at(0, s1)->Some_0;
        if s1.len() == 0 {
            if s2.len() > 0 {
                self.lemma_node_at_last(0, s2);
                let p2 = self.node_at(0, s2.drop_last())->Some_0;
                assert(self.child(p2, s2.last()) == Some(0int));
                assert(p2 < 0 && 0 <= p2);
            }
            assert(s1 =~= s2);
        } else if s2.len() == 0 {
            self.lemma_node_at_last(0, s1);
            let p1 = self.node_at(0, s1.drop_last())->Some_0;
            assert(self.child(p1, s1.last()) == Some(0int));
            assert(p1 < 0 && 0 <= p1);
        } else {
            self.lemma_node_at_last(0, s1);
            self.lemma_node_at_last(0, s2);
            let p1 = self.node_at(0, s1.drop_last())->Some_0;
            let p2 = self.node_at(0, s2.drop_last())->Some_0;
            assert(self.child(p1, s1.last()) is Some);
            assert(self.child(p1, s1.last()) == self.child(p2, s2.last()));
            assert(p1 == p2 && s1.last() == s2.last());
            self.lemma_unique_path(s1.drop_last(), s2.drop_last());
            assert(s1 =~= s1.drop_last().push(s1.last()));
            assert(s2 =~= s2.drop_last().push(s2.last()));
        }
    }

    /// Two tries with the same edges walk every path alike.
    pub proof fn lemma_node_at_congruence(self, other: Self, i: int, s: Seq<u32>)
        requires
            forall|j: int, y: u32| #[trigger] self.child(j, y) == other.child(j, y),
        ensures
            self.node_at(i, s) == other.node_at(i, s),
        decreases s.len(),
    {
        if s.len() > 0 {
            match self.child(i, s[0]) {
                Some(c) => {
                    self.lemma_node_at_congruence(other, c, s.subrange(1, s.len() as int));
                },
                None => {},
            }
        }
    }

    /// A nonempty path is alive exactly when it is a prefix of some
    /// key the trie holds.
    pub proof fn lemma_reachable_iff_prefix(self, s: Seq<u32>)
        requires
            self.wf(),
            s.len() > 0,
        ensures
            self.node_at(0, s) is Some <==> exists|k: Seq<u32>|
                (#[trigger] self.lookup(k)) is Some && s.is_prefix_of(k),
    {
        if self.node_at(0, s) is Some {
            let n = self.node_at(0, s)->Some_0;
            self.lemma_node_at_in_range(0, s);
            assert(self.node_productive(n));
            let t = choose|t: Seq<u32>| (#[trigger] self.sub_lookup(n, t)) is Some;
            self.lemma_node_at_concat(0, s, t);
            assert(self.lookup(s + t) is Some);
            assert(s.is_prefix_of(s + t)) by {
                assert((s + t).subrange(0, s.len() as int) =~= s);
            }
        }
        if exists|k: Seq<u32>| (#[trigger] self.lookup(k)) is Some && s.is_prefix_of(k) {
            let k = choose|k: Seq<u32>| (#[trigger] self.lookup(k)) is Some && s.is_prefix_of(k);
            let t = k.subrange(s.len() as int, k.len() as int);
            assert(k =~= s + t);
            self.lemma_node_at_concat(0, s, t);
        }
    }
}

} // verus!

verus! {

impl<V, TT: TrieTab> Trie<V, TT> {
    /// How one added edge to one fresh node changes the walks: paths
    /// alive before stay as they were; a path alive only now ends at
    /// the fresh node; no path dies.
    proof fn lemma_step_node_at(pre: Self, post: Self, cur: int, sym: u32, i: int, s: Seq<u32>)
        requires
            pre.edges_ok(),
            0 <= cur < pre.nodes@.len(),
            post.nodes@.len() == pre.nodes@.len() + 1,
            pre.child(cur, sym) is None,
            post.child(cur, sym) == Some(pre.nodes@.len() as int),
            forall|j: int, y: u32| !(j == cur && y == sym) ==> #[trigger] post.child(j, y)
                == pre.child(j, y),
            0 <= i < pre.nodes@.len(),
        ensures
            pre.node_at(i, s) is Some ==> post.node_at(i, s) == pre.node_at(i, s),
            post.node_at(i, s) is Some && post.node_at(i, s)->Some_0 != pre.nodes@.len()
                ==> post.node_at(i, s) == pre.node_at(i, s),
            post.node_at(i, s) == Some(pre.nodes@.len() as int) ==> pre.node_at(i, s) is None,
            post.node_at(i, s) is None ==> pre.node_at(i, s) is None,
        decreases s.len(),
    {
        if s.len() > 0 {
            let rest = s.subrange(1, s.len() as int);
            let newi = pre.nodes@.len() as int;
            if i == cur && s[0] == sym {
                if rest.len() == 0 {
                    assert(post.node_at(newi, rest) == Some(newi));
                } else {
                    assert(post.child(newi, rest[0]) == pre.child(newi, rest[0]));
                    assert(post.node_at(newi, rest) is None);
                }
            } else {
                assert(post.child(i, s[0]) == pre.child(i, s[0]));
                match pre.child(i, s[0]) {
                    Some(c) => {
                        Self::lemma_step_node_at(pre, post, cur, sym, c, rest);
                    },
                    None => {},
                }
            }
        }
    }

    /// An empty trie: one root node, no edges, no value.
    pub fn new() -> (r: Self)
        ensures
            r.wf(),
            forall|s: Seq<u32>| (#[trigger] r.lookup(s)) is None,
    {
        let mut nodes: Vec<TrieNode<V, TT>> = Vec::new();
        nodes.push(TrieNode { value: None, tab: TT::empty() });
        let r = Trie { nodes };
        proof {
            assert forall|i: int, sym: u32| (#[trigger] r.child(i, sym)) is None by {
                if 0 <= i < r.nodes@.len() {
                    assert(!r.nodes@[i].tab.entries().contains_key(sym));
                }
            }
            assert forall|s: Seq<u32>| (#[trigger] r.lookup(s)) is None by {
                if s.len() > 0 {
                    assert(r.child(0, s[0]) is None);
                }
            }
        }
        r
    }

    /// From a live cursor, take the transition labelled `sym`, landing
    /// on a match (partial iff the node reached holds no value) or on
    /// `NoMatch`; a failed cursor stays failed.
    pub fn advance(&self, cursor: TrieCursor, sym: u32) -> (r: TrieCursor)
        requires
            self.wf(),
            self.cursor_wf(cursor),
        ensures
            r == self.advance_spec(cursor, sym),
            self.cursor_wf(r),
    {
        let node: &TrieNode<V, TT> = match cursor {
            TrieCursor::Start => &self.nodes[0],
            TrieCursor::Match { idx, .. } => &self.nodes[idx],
            TrieCursor::NoMatch => {
                return TrieCursor::NoMatch;
            },
        };
        match node.tab.get(sym) {
            Some(idx) => TrieCursor::Match { idx, is_partial: self.nodes[idx].value.is_none() },
            None => TrieCursor::NoMatch,
        }
    }

    /// Whether the trie holds `seq` as a key: walk the whole of `seq`
    /// and ask for a value at the end.
    pub fn contains(&self, seq: &Vec<u32>) -> (r: bool)
        requires
            self.wf(),
        ensures
            r == (self.lookup(seq@) is Some),
    {
        let mut cursor = TrieCursor::Start;
        let mut j: usize = 0;
        proof {
            assert(seq@.subrange(0, 0) =~= Seq::<u32>::empty());
        }
        while j < seq.len()
            invariant
                self.wf(),
                j <= seq@.len(),
                self.cursor_wf(cursor),
                !(cursor is NoMatch),
                cursor is Start ==> j == 0,
                self.node_at(0, seq@.subrange(0, j as int)) == Some(Self::cursor_node(cursor)),
            decreases seq@.len() - j,
        {
            let ghost prefix = seq@.subrange(0, j as int);
            cursor = self.advance(cursor, seq[j]);
            proof {
                self.lemma_node_at_snoc(0, prefix, seq@[j as int]);
                assert(seq@.subrange(0, j as int + 1) =~= prefix.push(seq@[j as int]));
            }
            if let TrieCursor::NoMatch = cursor {
                proof {
                    let done = seq@.subrange(0, j as int + 1);
                    let rest = seq@.subrange(j as int + 1, seq@.len() as int);
                    assert(seq@ =~= done + rest);
                    self.lemma_node_at_concat(0, done, rest);
                }
                return false;
            }
            j = j + 1;
        }
        proof {
            assert(seq@.subrange(0, seq@.len() as int) =~= seq@);
        }
        match cursor {
            TrieCursor::Start => self.nodes[0].value.is_some(),
            TrieCursor::Match { is_partial, .. } => !is_partial,
            TrieCursor::NoMatch => false,
        }
    }
}

impl<V: Copy, TT: TrieTab> Trie<V, TT> {
    /// The terminal value at the cursor, present only when the cursor
    /// stands on a node that carries one.
    pub fn get(&self, cursor: TrieCursor) -> (r: Option<V>)
        requires
            self.wf(),
            self.cursor_wf(cursor),
        ensures
            r == self.cursor_value(cursor),
    {
        match cursor {
            TrieCursor::Match { idx, .. } => self.nodes[idx].value,
            _ => None,
        }
    }
}

} // verus!

verus! {

impl<V, TT: TrieTab> Trie<V, TT> {
    /// Stores `value` at the key `seq`, creating nodes on demand and
    /// replacing any value previously stored at that exact key; every
    /// other key keeps the value it had.
    pub fn insert(&mut self, seq: &Vec<u32>, value: V)
        requires
            old(self).wf(),
            forall|j: int| 0 <= j < seq@.len() ==> TT::supports(#[trigger] seq@[j]),
        ensures
            final(self).wf(),
            final(self).lookup(seq@) == Some(value),
            forall|s: Seq<u32>| s != seq@ ==> #[trigger] final(self).lookup(s) == old(
                self,
            ).lookup(s),
    {
        let ghost t0 = *self;
        let mut cur: usize = 0;
        let mut k: usize = 0;
        proof {
            assert(seq@.subrange(0, 0) =~= Seq::<u32>::empty());
        }
        while k < seq.len()
            invariant
                t0 == *old(self),
                t0.wf(),
                k <= seq@.len(),
                forall|j: int| 0 <= j < seq@.len() ==> TT::supports(#[trigger] seq@[j]),
                self.nodes@.len() >= 1,
                self.tabs_ok(),
                self.edges_ok(),
                self.edges_unique(),
                self.productive_or_reaches(cur as int),
                cur < self.nodes@.len(),
                self.node_at(0, seq@.subrange(0, k as int)) == Some(cur as int),
                forall|s: Seq<u32>| #[trigger] self.lookup(s) == t0.lookup(s),
            decreases seq@.len() - k,
        {
            let sym = seq[k];
            let ghost prefix = seq@.subrange(0, k as int);
            let next_opt = self.nodes[cur].tab.get(sym);
            let ghost pre = *self;
            match next_opt {
                Some(n) => {
                    proof {
                        assert(self.child(cur as int, sym) == Some(n as int));
                        self.lemma_node_at_snoc(0, prefix, sym);
                        assert(seq@.subrange(0, k as int + 1) =~= prefix.push(sym));
                        assert forall|i: int| 1 <= i < self.nodes@.len() implies
                            #[trigger] self.node_productive(i) || self.reaches(i, n as int) by {
                            if !self.node_productive(i) {
                                let s = choose|s: Seq<u32>| #[trigger] self.node_at(i, s) == Some(
                                    cur as int,
                                );
                                self.lemma_node_at_snoc(i, s, sym);
                                assert(self.node_at(i, s.push(sym)) == Some(n as int));
                            }
                        }
                    }
                    cur = n;
                },
                None => {
                    let idx = self.nodes.len();
                    self.nodes.push(TrieNode { value: None, tab: TT::empty() });
                    let node = &mut self.nodes[cur];
                    node.tab.set(sym, idx);
                    proof {
                        let post = *self;
                        let newi = pre.nodes@.len() as int;
                        assert(post.nodes@.len() == pre.nodes@.len() + 1);
                        assert(post.nodes@[cur as int].tab.entries() == pre.nodes@[
                            cur as int
                        ].tab.entries().insert(sym, idx));
                        assert(post.nodes@[cur as int].value == pre.nodes@[cur as int].value);
                        assert forall|j: int| 0 <= j < post.nodes@.len() && j != cur implies
                            post.nodes@[j] == (if j < newi {
                                pre.nodes@[j]
                            } else {
                                TrieNode::<V, TT> { value: None, tab: post.nodes@[newi].tab }
                            }) by {}
                        assert(post.child(cur as int, sym) == Some(newi));
                        assert(pre.child(cur as int, sym) is None);
                        assert forall|j: int, y: u32| !(j == cur as int && y == sym) implies
                            #[trigger] post.child(j, y) == pre.child(j, y) by {
                            if j == newi {
                                assert(!post.nodes@[j].tab.entries().contains_key(y));
                            }
                        }
                        // the values: unchanged on old nodes, none on the new one
                        assert forall|j: int| #[trigger] post.value_at(j) == (if j == newi {
                            None::<V>
                        } else {
                            pre.value_at(j)
                        }) by {}
                        // well-formedness pieces
                        assert forall|j: int, y: u32| (#[trigger] post.child(j, y)) is Some
                            implies j < post.child(j, y)->Some_0 < post.nodes@.len() by {
                            if !(j == cur as int && y == sym) {
                                assert(post.child(j, y) == pre.child(j, y));
                            }
                        }
                        assert forall|j1: int, y1: u32, j2: int, y2: u32|
                            (#[trigger] post.child(j1, y1)) is Some && post.child(j1, y1)
                                == #[trigger] post.child(j2, y2) implies j1 == j2 && y1 == y2 by {
                            if !(j1 == cur as int && y1 == sym) {
                                assert(post.child(j1, y1) == pre.child(j1, y1));
                                assert(post.child(j1, y1)->Some_0 < newi);
                            }
                            if !(j2 == cur as int && y2 == sym) {
                                assert(post.child(j2, y2) == pre.child(j2, y2));
                            }
                        }
                        // the walked prefix still ends at cur, then steps to the new node
                        Self::lemma_step_node_at(pre, post, cur as int, sym, 0, prefix);
                        assert(post.node_at(0, prefix) == Some(cur as int));
                        post.lemma_node_at_snoc(0, prefix, sym);
                        assert(seq@.subrange(0, k as int + 1) =~= prefix.push(sym));
                        assert(post.node_at(0, seq@.subrange(0, k as int + 1)) == Some(newi));
                        // no lookup changes: the new node holds no value
                        assert forall|s: Seq<u32>| #[trigger] post.lookup(s) == t0.lookup(s) by {
                            Self::lemma_step_node_at(pre, post, cur as int, sym, 0, s);
                            assert(pre.lookup(s) == t0.lookup(s));
                        }
                        // every old node still leads to a value or to the new node
                        assert forall|i: int| 1 <= i < post.nodes@.len() implies
                            #[trigger] post.node_productive(i) || post.reaches(i, newi) by {
                            if i == newi {
                                assert(post.node_at(i, Seq::<u32>::empty()) == Some(i));
                            } else if pre.node_productive(i) {
                                let s = choose|s: Seq<u32>|
                                    (#[trigger] pre.sub_lookup(i, s)) is Some;
                                Self::lemma_step_node_at(pre, post, cur as int, sym, i, s);
                                let m = pre.node_at(i, s)->Some_0;
                                pre.lemma_node_at_in_range(i, s);
                                assert(post.sub_lookup(i, s) is Some);
                            } else {
                                let s = choose|s: Seq<u32>| #[trigger] pre.node_at(i, s) == Some(
                                    cur as int,
                                );
                                Self::lemma_step_node_at(pre, post, cur as int, sym, i, s);
                                post.lemma_node_at_snoc(i, s, sym);
                                assert(post.node_at(i, s.push(sym)) == Some(newi));
                            }
                        }
                    }
                    cur = idx;
                },
            }
            k = k + 1;
        }
        let ghost pre2 = *self;
        let node = &mut self.nodes[cur];
        node.value = Some(value);
        proof {
            let post = *self;
            assert(seq@.subrange(0, seq@.len() as int) =~= seq@);
            assert(pre2.node_at(0, seq@) == Some(cur as int));
            assert forall|j: int, y: u32| #[trigger] post.child(j, y) == pre2.child(j, y) by {
                if 0 <= j < post.nodes@.len() {
                    assert(post.nodes@[j].tab == pre2.nodes@[j].tab);
                }
            }
            assert forall|j: int| #[trigger] post.value_at(j) == (if j == cur as int {
                Some(value)
            } else {
                pre2.value_at(j)
            }) by {}
            // the edge structure is untouched
            assert forall|j: int, y: u32| (#[trigger] post.child(j, y)) is Some implies j
                < post.child(j, y)->Some_0 < post.nodes@.len() by {
                assert(post.child(j, y) == pre2.child(j, y));
            }
            assert forall|j1: int, y1: u32, j2: int, y2: u32|
                (#[trigger] post.child(j1, y1)) is Some && post.child(j1, y1)
                    == #[trigger] post.child(j2, y2) implies j1 == j2 && y1 == y2 by {
                assert(post.child(j1, y1) == pre2.child(j1, y1));
                assert(post.child(j2, y2) == pre2.child(j2, y2));
            }
            post.lemma_node_at_congruence(pre2, 0, seq@);
            assert(post.lookup(seq@) == Some(value));
            assert forall|s: Seq<u32>| s != seq@ implies #[trigger] post.lookup(s) == t0.lookup(
                s,
            ) by {
                post.lemma_node_at_congruence(pre2, 0, s);
                match post.node_at(0, s) {
                    Some(m) => {
                        if m == cur as int {
                            post.lemma_unique_path(s, seq@);
                        } else {
                            assert(post.value_at(m) == pre2.value_at(m));
                        }
                    },
                    None => {},
                }
                assert(pre2.lookup(s) == t0.lookup(s));
            }
            assert forall|i: int| 1 <= i < post.nodes@.len() implies
                #[trigger] post.node_productive(i) by {
                if pre2.node_productive(i) {
                    let s = choose|s: Seq<u32>| (#[trigger] pre2.sub_lookup(i, s)) is Some;
                    post.lemma_node_at_congruence(pre2, i, s);
                    assert(post.sub_lookup(i, s) is Some);
                } else {
                    let s = choose|s: Seq<u32>| #[trigger] pre2.node_at(i, s) == Some(cur as int);
                    post.lemma_node_at_congruence(pre2, i, s);
                    assert(post.sub_lookup(i, s) is Some);
                }
            }
        }
    }
}

} // verus!

verus! {

/// The map a trie holds after the key/value pairs of `pairs` are
/// inserted, in order, into a fresh trie: the later insertion of a key
/// wins.
pub open spec fn inserted_map<V>(pairs: Seq<(Seq<u32>, V)>) -> Map<Seq<u32>, V>
    decreases pairs.len(),
{
    if pairs.len() == 0 {
        Map::empty()
    } else {
        inserted_map(pairs.drop_last()).insert(pairs.last().0, pairs.last().1)
    }
}

/// The domain of `inserted_map` is exactly the set of inserted keys.
pub proof fn lemma_inserted_map_domain<V>(pairs: Seq<(Seq<u32>, V)>)
    ensures
        forall|s: Seq<u32>| #[trigger] inserted_map(pairs).contains_key(s) <==> exists|i: int|
            0 <= i < pairs.len() && (#[trigger] pairs[i]).0 == s,
    decreases pairs.len(),
{
    if pairs.len() > 0 {
        lemma_inserted_map_domain(pairs.drop_last());
        assert forall|s: Seq<u32>| #[trigger] inserted_map(pairs).contains_key(s) implies exists|
            i: int,
        | 0 <= i < pairs.len() && (#[trigger] pairs[i]).0 == s by {
            if s == pairs.last().0 {
                assert((pairs[pairs.len() - 1]).0 == s);
            } else {
                assert(inserted_map(pairs.drop_last()).contains_key(s));
                let i = choose|i: int|
                    0 <= i < pairs.drop_last().len() && (#[trigger] pairs.drop_last()[i]).0 == s;
                assert(pairs.drop_last()[i] == pairs[i]);
                assert((pairs[i]).0 == s);
            }
        }
        assert forall|s: Seq<u32>|
            (exists|i: int| 0 <= i < pairs.len() && (#[trigger] pairs[i]).0 == s) implies
            #[trigger] inserted_map(pairs).contains_key(s) by {
            let i = choose|i: int| 0 <= i < pairs.len() && (#[trigger] pairs[i]).0 == s;
            if i < pairs.len() - 1 {
                assert(pairs.drop_last()[i] == pairs[i]);
                assert((pairs.drop_last()[i]).0 == s);
                assert(inserted_map(pairs.drop_last()).contains_key(s));
            } else {
                assert(s == pairs.last().0);
            }
        }
    }
}

/// Law: a trie that was built by inserting the pairs of `pairs` into a
/// fresh trie — so that it holds `inserted_map(pairs)`, which is what
/// the contracts of `Trie::new` and `Trie::insert` yield — answers
/// `lookup` (and so `contains`) positively for every inserted key,
/// the empty key included, and for no other key.
pub proof fn lemma_trie_contains_exactly_inserted<V, TT: TrieTab>(
    t: Trie<V, TT>,
    pairs: Seq<(Seq<u32>, V)>,
)
    requires
        forall|s: Seq<u32>| #[trigger] t.lookup(s) == (if inserted_map(pairs).contains_key(s) {
            Some(inserted_map(pairs)[s])
        } else {
            None
        }),
    ensures
        forall|s: Seq<u32>| (#[trigger] t.lookup(s)) is Some <==> exists|i: int|
            0 <= i < pairs.len() && (#[trigger] pairs[i]).0 == s,
{
    lemma_inserted_map_domain(pairs);
}

} // verus!
