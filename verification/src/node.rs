//! Decision nodes and the handles that name them.

use vstd::prelude::*;

use crate::store::{Allocator, NodeStore};
use crate::hash;

verus! {

/// A handle of a node: its place in the node store. No node has the handle [`NULL`].
pub type Bdd = usize;

/// The handle of no node.
pub const NULL: usize = 0;

/// Set in a node's `level` while a collection has found the node to be alive.
pub const MARK: usize = usize::MAX / 2 + 1;

/// What a node is looked up by: its level, its low child and its high child.
pub type NodeKey = (usize, Bdd, Bdd);

#[derive(Clone, Copy)]
pub struct Node {
    pub ref_cnt: usize,
    pub level: usize,
    pub low: Bdd,
    pub high: Bdd,
    /// The next node of the same bucket.
    pub next: Bdd,
    pub hash: u64,
}

/// The order of node keys: by level, then by low child, then by high child.
pub open spec fn key_lt(a: NodeKey, b: NodeKey) -> bool {
    ||| a.0 < b.0
    ||| a.0 == b.0 && a.1 < b.1
    ||| a.0 == b.0 && a.1 == b.1 && a.2 < b.2
}

/// Whether `a` comes strictly before `b` in the order of node keys.
pub fn key_less(a: NodeKey, b: NodeKey) -> (r: bool)
    ensures
        r == key_lt(a, b),
{
    if a.0 != b.0 {
        a.0 < b.0
    } else if a.1 != b.1 {
        a.1 < b.1
    } else {
        a.2 < b.2
    }
}

/// Whether two node keys are the same.
pub fn key_same(a: NodeKey, b: NodeKey) -> (r: bool)
    ensures
        r == (a == b),
{
    a.0 == b.0 && a.1 == b.1 && a.2 == b.2
}

/// The hash that belongs to a node key.
pub open spec fn key_hash(k: NodeKey) -> u64 {
    hash::mix3(k.0 as u64, k.1 as u64, k.2 as u64)
}

/// Keys are ordered by their levels; where these are the same, by their low children; and where
/// these are too, by their high children. Of two different keys, one comes first.
pub proof fn law_key_order(a: NodeKey, b: NodeKey, c: NodeKey)
    ensures
        !key_lt(a, a),
        a != b ==> key_lt(a, b) != key_lt(b, a),
        key_lt(a, b) && key_lt(b, c) ==> key_lt(a, c),
        a.0 < b.0 ==> key_lt(a, b),
        a.0 == b.0 && a.1 < b.1 ==> key_lt(a, b),
        a.0 == b.0 && a.1 == b.1 ==> (key_lt(a, b) <==> a.2 < b.2),
{
}

/// The hash of a key holds that of its high child, turned by seven places, beside that of its level
/// and that of its low child, turned by one. So keys with the same level and low child have the
/// same hash just if they are the same.
pub proof fn law_key_hash(a: NodeKey, b: NodeKey)
    ensures
        hash::rotated_right(
            hash::unmixed(key_hash(a)) ^ hash::mix1(a.0 as u64) ^ hash::rotated_left(
                hash::mix1(a.1 as u64),
                1,
            ),
            7,
        ) == hash::mix1(a.2 as u64),
        a.0 == b.0 && a.1 == b.1 ==> (key_hash(a) == key_hash(b) <==> a == b),
{
    hash::law_mix3(a.0 as u64, a.1 as u64, a.2 as u64);
    hash::law_mix3(b.0 as u64, b.1 as u64, b.2 as u64);
    hash::law_mix1(a.2 as u64, b.2 as u64);
}

impl Node {
    /// Whether a collection has marked the node.
    pub open spec fn marked(self) -> bool {
        self.level >= MARK
    }

    /// The node's level without the mark.
    pub open spec fn plain_level(self) -> usize {
        if self.level >= MARK {
            (self.level - MARK) as usize
        } else {
            self.level
        }
    }

    /// The node's key, marked or not.
    pub open spec fn plain_key(self) -> NodeKey {
        (self.plain_level(), self.low, self.high)
    }

    pub fn key(&self) -> (r: NodeKey)
        ensures
            r == (self.level, self.low, self.high),
    {
        (self.level, self.low, self.high)
    }

    pub fn new(level: usize) -> (r: Self)
        ensures
            r == (Node {
                ref_cnt: 0,
                level,
                low: NULL,
                high: NULL,
                next: NULL,
                hash: key_hash((level, NULL, NULL)),
            }),
    {
        Node {
            ref_cnt: 0,
            level,
            low: NULL,
            high: NULL,
            next: NULL,
            hash: hash::splitmix64_3(level as u64, 0, 0),
        }
    }

    pub fn from(level: usize, low: Bdd, high: Bdd) -> (r: Self)
        ensures
            r == (Node {
                ref_cnt: 0,
                level,
                low,
                high,
                next: NULL,
                hash: key_hash((level, low, high)),
            }),
    {
        Node {
            ref_cnt: 0,
            level,
            low,
            high,
            next: NULL,
            hash: hash::splitmix64_3(level as u64, low as u64, high as u64),
        }
    }
}

/// The upper half of the numbers is for marked nodes: an unmarked node holds its level, and a
/// marked one holds that and half of all numbers on top. Either way its key has its level and its
/// children.
pub proof fn law_mark(node: Node, level: usize)
    requires
        2 * level < usize::MAX,
    ensures
        2 * MARK == usize::MAX + 1,
        !(Node { level, ..node }).marked(),
        (Node { level, ..node }).plain_key() == (level, node.low, node.high),
        (Node { level: (MARK + level) as usize, ..node }).marked(),
        (Node { level: (MARK + level) as usize, ..node }).plain_key() == (
            level,
            node.low,
            node.high,
        ),
{
    assert(usize::MAX % 2 == 1) by {
        assert(usize::MAX == 0xffff_ffff || usize::MAX == 0xffff_ffff_ffff_ffff);
    }
}

impl Default for Node {
    fn default() -> (r: Self)
        ensures
            r == (Node { ref_cnt: 0, level: 0, low: NULL, high: NULL, next: NULL, hash: 0 }),
    {
        Node { ref_cnt: 0, level: 0, low: NULL, high: NULL, next: NULL, hash: 0 }
    }
}

/// Access to the node that a handle names, in the store that holds it.
pub trait NodePtr: Sized {
    /// The place in a store that the handle stands for.
    spec fn place(self) -> Bdd;

    fn node_hash(self, store: &NodeStore) -> (r: u64)
        requires
            store.wf(),
            store.nodes().contains_key(self.place()),
        ensures
            r == store.nodes()[self.place()].hash,
    ;

    /// Brings the stored hash in line with the node's level and children.
    fn rehash(self, store: &mut NodeStore)
        requires
            old(store).wf(),
            old(store).nodes().contains_key(self.place()),
        ensures
            final(store).wf(),
            final(store).nodes() == old(store).nodes().insert(
                self.place(),
                ({
                    let n = old(store).nodes()[self.place()];
                    Node { hash: key_hash((n.level, n.low, n.high)), ..n }
                }),
            ),
    ;

    fn level(self, store: &NodeStore) -> (r: usize)
        requires
            store.wf(),
            store.nodes().contains_key(self.place()),
        ensures
            r == store.nodes()[self.place()].level,
    ;

    fn low(self, store: &NodeStore) -> (r: Bdd)
        requires
            store.wf(),
            store.nodes().contains_key(self.place()),
        ensures
            r == store.nodes()[self.place()].low,
    ;

    fn high(self, store: &NodeStore) -> (r: Bdd)
        requires
            store.wf(),
            store.nodes().contains_key(self.place()),
        ensures
            r == store.nodes()[self.place()].high,
    ;

    fn ref_cnt(self, store: &NodeStore) -> (r: usize)
        requires
            store.wf(),
            store.nodes().contains_key(self.place()),
        ensures
            r == store.nodes()[self.place()].ref_cnt,
    ;

    fn next(self, store: &NodeStore) -> (r: Bdd)
        requires
            store.wf(),
            store.nodes().contains_key(self.place()),
        ensures
            r == store.nodes()[self.place()].next,
    ;
}

impl NodePtr for usize {
    open spec fn place(self) -> Bdd {
        self
    }

    fn node_hash(self, store: &NodeStore) -> (r: u64) {
        assert(self.place() == self);
        store.index(self).hash
    }

    fn rehash(self, store: &mut NodeStore) {
        assert(self.place() == self);
        let mut node = *store.index(self);
        node.hash = hash::splitmix64_3(node.level as u64, node.low as u64, node.high as u64);
        *store.index_mut(self) = node;
    }

    fn level(self, store: &NodeStore) -> (r: usize) {
        assert(self.place() == self);
        store.index(self).level
    }

    fn low(self, store: &NodeStore) -> (r: Bdd) {
        assert(self.place() == self);
        store.index(self).low
    }

    fn high(self, store: &NodeStore) -> (r: Bdd) {
        assert(self.place() == self);
        store.index(self).high
    }

    fn ref_cnt(self, store: &NodeStore) -> (r: usize) {
        assert(self.place() == self);
        store.index(self).ref_cnt
    }

    fn next(self, store: &NodeStore) -> (r: Bdd) {
        assert(self.place() == self);
        store.index(self).next
    }
}

} // verus!
