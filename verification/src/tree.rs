//! Decision trees: what a node stands for, apart from any diagram.

use vstd::prelude::*;

use crate::diagram::{Assignment, Diagram};
use crate::memo::makes;
use crate::node::Bdd;

verus! {

/// A decision tree: a truth value, or a variable with the tree for its being false and the tree
/// for its being true.
pub enum Tree {
    Leaf(bool),
    Branch(nat, Box<Tree>, Box<Tree>),
}

impl Tree {
    pub open spec fn eval(self, env: Assignment) -> bool
        decreases self,
    {
        match self {
            Tree::Leaf(value) => value,
            Tree::Branch(l, low, high) => if env(l) {
                high.eval(env)
            } else {
                low.eval(env)
            },
        }
    }

    /// The first of `n` variables that the tree asks for; `n` for a leaf.
    pub open spec fn top(self, n: nat) -> nat {
        match self {
            Tree::Leaf(_) => n,
            Tree::Branch(l, _, _) => l,
        }
    }

    /// The tree that asks for `l`, unless the answer does not matter.
    pub open spec fn join(l: nat, low: Tree, high: Tree) -> Tree {
        if low == high {
            low
        } else {
            Tree::Branch(l, Box::new(low), Box::new(high))
        }
    }
}

impl Diagram {
    /// The tree that a node unfolds to.
    pub open spec fn tree(self, id: Bdd) -> Tree
        decreases self.rank(id),
        when self.wf() && self.has_node(id)
    {
        proof {
            if !self.terminal(id) {
                self.lemma_decides(id);
            }
        }
        if id == self.true_id {
            Tree::Leaf(true)
        } else if id == self.false_id {
            Tree::Leaf(false)
        } else {
            Tree::Branch(
                self.top(id),
                Box::new(self.tree(self.low(id))),
                Box::new(self.tree(self.high(id))),
            )
        }
    }

    /// Each node of a diagram has a tree of its own.
    pub proof fn lemma_tree_injective(self, a: Bdd, b: Bdd)
        requires
            self.wf(),
            self.has_node(a),
            self.has_node(b),
            self.tree(a) == self.tree(b),
        ensures
            a == b,
        decreases self.rank(a),
    {
        if !self.terminal(a) && !self.terminal(b) {
            self.lemma_decides(a);
            self.lemma_decides(b);
            self.lemma_tree_injective(self.low(a), self.low(b));
            self.lemma_tree_injective(self.high(a), self.high(b));
            assert(self.nodes[a].key() == self.nodes[b].key());
        }
    }

    /// A node and its tree stand for the same function.
    pub proof fn lemma_tree_eval(self, id: Bdd, env: Assignment)
        requires
            self.wf(),
            self.has_node(id),
        ensures
            self.tree(id).eval(env) == self.eval(id, env),
        decreases self.rank(id),
    {
        if !self.terminal(id) {
            self.lemma_decides(id);
            self.lemma_tree_eval(self.low(id), env);
            self.lemma_tree_eval(self.high(id), env);
        }
    }

    /// A node keeps its tree while the diagram is extended.
    pub proof fn lemma_tree_extends(self, before: Diagram, id: Bdd)
        requires
            before.wf(),
            self.wf(),
            self.extends(before),
            before.has_node(id),
        ensures
            self.has_node(id),
            self.tree(id) == before.tree(id),
        decreases before.rank(id),
    {
        if !before.terminal(id) {
            before.lemma_decides(id);
            self.lemma_tree_extends(before, before.low(id));
            self.lemma_tree_extends(before, before.high(id));
        }
    }

    pub proof fn lemma_tree_top(self, id: Bdd)
        requires
            self.wf(),
            self.has_node(id),
        ensures
            self.tree(id).top(self.num_vars()) == self.top(id),
    {
    }

    /// The tree of a node that was made of two others.
    pub proof fn lemma_tree_makes(self, l: nat, low: Bdd, high: Bdd, r: Bdd)
        requires
            self.wf(),
            self.has_node(low),
            self.has_node(high),
            makes(self, l, low, high, r),
        ensures
            self.tree(r) == Tree::join(l, self.tree(low), self.tree(high)),
    {
        if low != high && self.tree(low) == self.tree(high) {
            self.lemma_tree_injective(low, high);
        }
    }
}

} // verus!
