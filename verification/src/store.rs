//! Where nodes live.

use vstd::prelude::*;

use crate::node::{Bdd, Node, NULL};

verus! {

/// A store of nodes that hands out a handle for each node put in.
pub trait Allocator: Sized {
    /// The nodes in the store, by handle.
    spec fn nodes(&self) -> Map<Bdd, Node>;

    spec fn wf(&self) -> bool;

    /// Puts a node in, under a handle that no node in the store has.
    fn allocate(&mut self, node: Node) -> (idx: Bdd)
        requires
            old(self).wf(),
        ensures
            final(self).wf(),
            idx != NULL,
            !old(self).nodes().contains_key(idx),
            final(self).nodes() == old(self).nodes().insert(idx, node),
    ;

    /// Takes a node out. Its handle may be handed out again.
    fn free(&mut self, idx: Bdd)
        requires
            old(self).wf(),
            old(self).nodes().contains_key(idx),
        ensures
            final(self).wf(),
            final(self).nodes() == old(self).nodes().remove(idx),
    ;

    fn index(&self, idx: Bdd) -> (node: &Node)
        requires
            self.wf(),
            self.nodes().contains_key(idx),
        ensures
            *node == self.nodes()[idx],
    ;

    fn index_mut(&mut self, idx: Bdd) -> (node: &mut Node)
        requires
            old(self).wf(),
            old(self).nodes().contains_key(idx),
        ensures
            *node == old(self).nodes()[idx],
            final(self).wf(),
            final(self).nodes() == old(self).nodes().insert(idx, *final(node)),
    ;
}

/// A growable node store that reuses the places of freed nodes.
pub struct NodeStore {
    slots: Vec<Node>,
    live: Vec<bool>,
    free: Vec<Bdd>,
}

impl NodeStore {
    /// An empty store.
    pub fn new() -> (r: Self)
        ensures
            r.wf(),
            r.nodes() == Map::<Bdd, Node>::empty(),
    {
        let mut slots: Vec<Node> = Vec::new();
        let mut live: Vec<bool> = Vec::new();
        slots.push(Node::new(0));
        live.push(false);
        let r = NodeStore { slots, live, free: Vec::new() };
        assert(r.nodes() =~= Map::<Bdd, Node>::empty());
        r
    }

    /// Whether a node has this handle.
    pub fn contains(&self, idx: Bdd) -> (r: bool)
        requires
            self.wf(),
        ensures
            r == self.nodes().contains_key(idx),
    {
        idx < self.live.len() && self.live[idx]
    }

    /// The store holds finitely many nodes, few enough to be counted in a `usize`, and none of
    /// them has the handle [`NULL`].
    pub proof fn lemma_bounded(&self)
        requires
            self.wf(),
        ensures
            self.nodes().dom().finite(),
            self.nodes().dom().len() < usize::MAX,
            !self.nodes().contains_key(NULL),
    {
        let len = self.slots.len();
        let places = Set::new(|i: int| 1 <= i < len);
        vstd::set_lib::lemma_int_range(1, len as int);
        assert(places =~= vstd::set_lib::set_int_range(1, len as int));
        let f = |i: int| i as usize;
        let ids = places.map(f);
        places.lemma_map_finite(f);
        vstd::set_lib::lemma_map_size(places, ids, f);
        assert forall|id: Bdd| self.nodes().dom().contains(id) implies ids.contains(id) by {
            assert(places.contains(id as int));
            assert(f(id as int) == id);
        }
        vstd::set_lib::lemma_len_subset(self.nodes().dom(), ids);
    }
}

impl Allocator for NodeStore {
    closed spec fn nodes(&self) -> Map<Bdd, Node> {
        Map::new(
            |i: Bdd| i < self.live@.len() && self.live@[i as int],
            |i: Bdd| self.slots@[i as int],
        )
    }

    closed spec fn wf(&self) -> bool {
        &&& self.slots@.len() == self.live@.len()
        &&& self.slots@.len() > 0
        &&& !self.live@[0]
        &&& self.free@.no_duplicates()
        &&& forall|k: int|
            #![trigger self.free@[k]]
            0 <= k < self.free@.len() ==> 0 < self.free@[k] < self.live@.len()
                && !self.live@[self.free@[k] as int]
    }

    fn allocate(&mut self, node: Node) -> (idx: Bdd) {
        let ghost before = *self;
        match self.free.pop() {
            Some(idx) => {
                assert(before.free@[before.free@.len() - 1] == idx);
                self.slots[idx] = node;
                self.live[idx] = true;
                assert(self.nodes() =~= before.nodes().insert(idx, node));
                idx
            },
            None => {
                let idx: usize = self.slots.len();
                self.slots.push(node);
                self.live.push(true);
                assert(self.nodes() =~= before.nodes().insert(idx, node));
                idx
            },
        }
    }

    fn free(&mut self, idx: Bdd) {
        let ghost before = *self;
        self.live[idx] = false;
        self.free.push(idx);
        assert(self.nodes() =~= before.nodes().remove(idx));
    }

    fn index(&self, idx: Bdd) -> (node: &Node) {
        &self.slots[idx]
    }

    fn index_mut(&mut self, idx: Bdd) -> (node: &mut Node) {
        &mut self.slots[idx]
    }
}

} // verus!
