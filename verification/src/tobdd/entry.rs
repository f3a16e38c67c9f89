//! Whether an operation can start.

use vstd::prelude::*;

use super::{Manager, MAX_LOAD_FACTOR, MIN_GC_BUCKETS};
use crate::cache::Cache;
use crate::node::{Bdd, NULL};
use crate::set::NodeSet;
use crate::sizing::{lemma_size_range, MAX_SIZE_EXP};
use crate::BddOp;

verus! {

impl Manager {
    /// Whether `bdd` is a node of the diagram.
    pub fn is_node(&self, bdd: Bdd) -> (r: bool)
        requires
            self.wf(),
        ensures
            r == self.diagram().has_node(bdd),
    {
        self.set.contains(bdd)
    }

    /// Whether all of `ids` are marked nodes.
    fn all_marked(&self, ids: &[Bdd]) -> (r: bool)
        requires
            self.set.wf(),
        ensures
            r == forall|i: int|
                0 <= i < ids@.len() ==> self.set.marks().contains(#[trigger] ids@[i]),
    {
        let len: usize = ids.len();
        let mut i: usize = 0;
        proof {
            self.set.lemma_table();
        }
        while i < len
            invariant
                self.set.wf(),
                self.set.marks().subset_of(self.set.table().dom()),
                len == ids@.len(),
                i <= len,
                forall|k: int| 0 <= k < i ==> self.set.marks().contains(#[trigger] ids@[k]),
            decreases len - i,
        {
            if !self.set.contains(ids[i]) {
                assert(!self.set.table().dom().contains(ids@[i as int]));
                assert(!self.set.marks().contains(ids@[i as int]));
                return false;
            }
            if !self.set.is_marked(ids[i]) {
                assert(!self.set.marks().contains(ids@[i as int]));
                return false;
            }
            i = i + 1;
        }
        true
    }

    /// Whether all of `ids` are nodes.
    fn all_nodes(&self, ids: &[Bdd]) -> (r: bool)
        requires
            self.set.wf(),
        ensures
            r == forall|i: int| 0 <= i < ids@.len() ==> self.model().has_node(#[trigger] ids@[i]),
    {
        let len: usize = ids.len();
        let mut i: usize = 0;
        while i < len
            invariant
                self.set.wf(),
                len == ids@.len(),
                i <= len,
                forall|k: int| 0 <= k < i ==> self.model().has_node(#[trigger] ids@[k]),
            decreases len - i,
        {
            if !self.set.contains(ids[i]) {
                assert(!self.model().has_node(ids@[i as int]));
                return false;
            }
            i = i + 1;
        }
        true
    }

    /// Whether the terminals and the literals are marked.
    fn builtins_marked(&self) -> (r: bool)
        requires
            self.set.wf(),
            self.model().wf(),
            self.set.marks() == self.model().live(),
        ensures
            r == self.model().grounded(),
    {
        let ghost d = self.model();
        proof {
            assert(d.is_vertex(d.true_id, 1, NULL, NULL));
            assert(d.is_vertex(d.false_id, 0, NULL, NULL));
        }
        if !self.set.is_marked(self.true_id) {
            return false;
        }
        if !self.set.is_marked(self.false_id) {
            return false;
        }
        let vars: bool = self.all_marked(self.vars.as_slice());
        let nvars: bool = self.all_marked(self.nvars.as_slice());
        proof {
            if vars {
                assert forall|i: int|
                    #![trigger d.vars[i]]
                    0 <= i < d.vars.len() implies d.live().contains(d.vars[i]) by {
                    assert(self.set.marks().contains(self.vars@[i]));
                }
            }
            if nvars {
                assert forall|i: int|
                    #![trigger d.nvars[i]]
                    0 <= i < d.nvars.len() implies d.live().contains(d.nvars[i]) by {
                    assert(self.set.marks().contains(self.nvars@[i]));
                }
            }
        }
        vars && nvars
    }

    /// Whether a collection keeps the terminals and the literals.
    pub fn is_grounded(&mut self) -> (r: bool)
        requires
            old(self).wf(),
        ensures
            final(self).wf(),
            final(self).diagram() == old(self).diagram(),
            final(self).tally() == old(self).tally(),
            final(self).same_memory(old(self)),
            r == old(self).diagram().grounded(),
    {
        let ghost d = self.model();
        proof {
            d.lemma_live();
        }
        self.set.mark_nodes();
        assert(self.model() == d);
        let r: bool = self.builtins_marked();
        self.set.unmark_nodes();
        assert(self.model() == d);
        proof {
            self.lemma_caches_extend(d);
        }
        r
    }

    /// Whether an operation on `operands` can start.
    pub fn admits(&mut self, operands: &[Bdd]) -> (r: bool)
        requires
            old(self).wf(),
        ensures
            final(self).wf(),
            final(self).diagram() == old(self).diagram(),
            final(self).tally() == old(self).tally(),
            final(self).same_memory(old(self)),
            r == (old(self).diagram().ready() && forall|i: int|
                0 <= i < operands@.len() ==> old(self).diagram().operand(#[trigger] operands@[i])),
    {
        let ghost d = self.model();
        proof {
            d.lemma_live();
            self.set.lemma_table();
            lemma_size_range(d.table_exp);
            self.not_cache.lemma_entries();
        }
        let entry_num: usize = self.set.entry_num();
        let bucket_size: usize = self.set.bucket_size();
        if entry_num < bucket_size * MAX_LOAD_FACTOR {
            assert(d.entered() == d);
            return self.all_nodes(operands);
        }
        let marked: usize = self.set.mark_nodes();
        assert(self.model() == d);
        let r: bool = if entry_num - marked < bucket_size / MIN_GC_BUCKETS {
            proof {
                assert forall|id: Bdd| #[trigger] d.operand(id) == d.has_node(id) by {}
            }
            let nodes: bool = self.all_nodes(operands);
            self.set.size_exp() < MAX_SIZE_EXP && self.not_cache.size_exp() < MAX_SIZE_EXP && nodes
        } else {
            proof {
                assert forall|id: Bdd| #[trigger] d.operand(id) == d.live().contains(id) by {
                    assert(d.collected().nodes.dom() =~= d.live());
                    assert(d.collected().nodes.dom().contains(id) == d.live().contains(id));
                }
            }
            let operands_marked: bool = self.all_marked(operands);
            self.builtins_marked() && operands_marked
        };
        self.set.unmark_nodes();
        assert(self.model() == d);
        proof {
            self.lemma_caches_extend(d);
        }
        r
    }
}

} // verus!
