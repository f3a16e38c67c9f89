//! The mathematical model: a shared, reduced, ordered decision diagram.

use vstd::arithmetic::power2::pow2;
use vstd::prelude::*;

use crate::graph::{
    closed_in, lemma_closed, lemma_reaches_self, lemma_reaches_step, lemma_subgraph, lemma_trans,
    reaches, Edges,
};
use crate::node::{Bdd, NULL};
use crate::set::{complete, edges_of, live, referenced, Vertex};
use crate::sizing::MAX_SIZE_EXP;

verus! {

/// A value for each variable.
pub type Assignment = spec_fn(nat) -> bool;

/// The nodes of a manager, its built-in handles and its table sizes.
pub struct Diagram {
    pub nodes: Map<Bdd, Vertex>,
    pub true_id: Bdd,
    pub false_id: Bdd,
    pub vars: Seq<Bdd>,
    pub nvars: Seq<Bdd>,
    pub table_exp: nat,
    pub cache_exp: nat,
}

/// `env` with another value for variable `l`.
pub open spec fn assigned(env: Assignment, l: nat, value: bool) -> Assignment {
    |k: nat|
        if k == l {
            value
        } else {
            env(k)
        }
}

impl Diagram {
    pub open spec fn num_vars(self) -> nat {
        self.vars.len()
    }

    pub open spec fn terminal(self, id: Bdd) -> bool {
        id == self.true_id || id == self.false_id
    }

    /// Two different nodes, none of them a terminal.
    pub open spec fn branches(self, a: Bdd, b: Bdd) -> bool {
        a != b && !self.terminal(a) && !self.terminal(b)
    }

    pub open spec fn has_node(self, id: Bdd) -> bool {
        self.nodes.contains_key(id)
    }

    pub open spec fn low(self, id: Bdd) -> Bdd {
        self.nodes[id].low
    }

    pub open spec fn high(self, id: Bdd) -> Bdd {
        self.nodes[id].high
    }

    /// The first variable that a node asks for; past the last one for a terminal.
    pub open spec fn top(self, id: Bdd) -> nat {
        if self.terminal(id) {
            self.num_vars()
        } else {
            self.nodes[id].level as nat
        }
    }

    /// How many variables come at or after the first one that a node asks for.
    pub open spec fn rank(self, id: Bdd) -> nat {
        if self.top(id) <= self.num_vars() {
            (self.num_vars() - self.top(id)) as nat
        } else {
            0
        }
    }

    /// A decision node: it asks for a variable, and its two different children are nodes that ask
    /// for later ones.
    #[verifier::opaque]
    pub open spec fn decides(self, id: Bdd) -> bool {
        &&& self.has_node(self.low(id))
        &&& self.has_node(self.high(id))
        &&& self.low(id) != self.high(id)
        &&& self.top(id) < self.num_vars()
        &&& self.top(id) < self.top(self.low(id))
        &&& self.top(id) < self.top(self.high(id))
    }

    /// A node with this level and these children.
    pub open spec fn is_vertex(self, id: Bdd, i: int, low: Bdd, high: Bdd) -> bool {
        &&& self.has_node(id)
        &&& self.nodes[id].level == i
        &&& self.low(id) == low
        &&& self.high(id) == high
    }

    /// The terminals and the literals are nodes of the diagram.
    pub open spec fn has_builtins(self) -> bool {
        &&& self.true_id != self.false_id
        &&& self.is_vertex(self.true_id, 1, NULL, NULL)
        &&& self.is_vertex(self.false_id, 0, NULL, NULL)
        &&& self.nvars.len() == self.vars.len()
        &&& forall|i: int|
            #![trigger self.vars[i]]
            0 <= i < self.vars.len() ==> self.is_vertex(
                self.vars[i],
                i,
                self.false_id,
                self.true_id,
            )
        &&& forall|i: int|
            #![trigger self.nvars[i]]
            0 <= i < self.nvars.len() ==> self.is_vertex(
                self.nvars[i],
                i,
                self.true_id,
                self.false_id,
            )
    }

    /// No two nodes have the same key.
    pub open spec fn unique(self) -> bool {
        forall|a: Bdd, b: Bdd| #[trigger]
            self.has_node(a) && #[trigger] self.has_node(b) && self.nodes[a].key()
                == self.nodes[b].key() ==> a == b
    }

    pub open spec fn wf(self) -> bool {
        &&& self.nodes.dom().finite()
        &&& !self.has_node(NULL)
        &&& self.has_builtins()
        &&& self.unique()
        &&& forall|id: Bdd| #[trigger]
            self.has_node(id) && !self.terminal(id) ==> self.decides(id)
    }

    /// The truth value of the function that a node stands for.
    pub open spec fn eval(self, id: Bdd, env: Assignment) -> bool
        decreases self.rank(id),
        when self.wf() && self.has_node(id)
    {
        proof {
            if !self.terminal(id) {
                self.lemma_decides(id);
            }
        }
        if id == self.true_id {
            true
        } else if id == self.false_id {
            false
        } else if env(self.top(id)) {
            self.eval(self.high(id), env)
        } else {
            self.eval(self.low(id), env)
        }
    }

    /// Two nodes stand for the same function.
    pub open spec fn same_function(self, a: Bdd, b: Bdd) -> bool {
        forall|env: Assignment| #[trigger] self.eval(a, env) == self.eval(b, env)
    }

    /// The built-in handles are those of `other`.
    pub open spec fn same_builtins(self, other: Diagram) -> bool {
        &&& self.true_id == other.true_id
        &&& self.false_id == other.false_id
        &&& self.vars == other.vars
        &&& self.nvars == other.nvars
    }

    /// Each node of `before` is still there, with the same level and children.
    pub open spec fn extends(self, before: Diagram) -> bool {
        &&& self.same_builtins(before)
        &&& forall|id: Bdd| #[trigger]
            before.has_node(id) ==> self.has_node(id) && self.nodes[id].key()
                == before.nodes[id].key()
    }

    pub open spec fn edges(self) -> Edges {
        edges_of(self.nodes)
    }

    /// `to` can be reached from `from`.
    pub open spec fn reaches(self, from: Bdd, to: Bdd) -> bool {
        reaches(self.edges(), from, to)
    }

    /// The nodes that can be reached from a referenced one.
    pub open spec fn live(self) -> Set<Bdd> {
        live(self.nodes)
    }

    /// The terminals and the literals are kept by a collection.
    pub open spec fn grounded(self) -> bool {
        &&& self.live().contains(self.true_id)
        &&& self.live().contains(self.false_id)
        &&& forall|i: int|
            #![trigger self.vars[i]]
            0 <= i < self.vars.len() ==> self.live().contains(self.vars[i])
        &&& forall|i: int|
            #![trigger self.nvars[i]]
            0 <= i < self.nvars.len() ==> self.live().contains(self.nvars[i])
    }

    /// The diagram without the nodes that no referenced one reaches.
    pub open spec fn collected(self) -> Diagram {
        Diagram { nodes: self.nodes.restrict(self.live()), ..self }
    }

    /// There are as many nodes as buckets, or more.
    pub open spec fn full(self) -> bool {
        self.nodes.dom().len() >= pow2(self.table_exp)
    }

    /// A full table is collected where that frees a quarter as many nodes as there are buckets.
    pub open spec fn will_collect(self) -> bool {
        self.full() && self.nodes.dom().len() - self.live().len() >= pow2(self.table_exp) / 4
    }

    /// Else it is grown.
    pub open spec fn will_grow(self) -> bool {
        self.full() && !self.will_collect()
    }

    /// The diagram that an operation starts from: collected, grown, or as it was.
    pub open spec fn entered(self) -> Diagram {
        if self.will_collect() {
            self.collected()
        } else if self.will_grow() {
            Diagram { table_exp: self.table_exp + 1, cache_exp: self.cache_exp + 1, ..self }
        } else {
            self
        }
    }

    /// An operation can start: what it collects are not the built-in nodes, and what it grows can
    /// be grown.
    pub open spec fn ready(self) -> bool {
        &&& self.will_collect() ==> self.grounded()
        &&& self.will_grow() ==> self.table_exp < MAX_SIZE_EXP && self.cache_exp < MAX_SIZE_EXP
    }

    /// `id` can be an operand: it is a node that is still there when the operation starts.
    pub open spec fn operand(self, id: Bdd) -> bool {
        self.entered().has_node(id)
    }

    /// The node `id` with `refs` references.
    pub open spec fn with_refs(self, id: Bdd, refs: usize) -> Diagram {
        Diagram { nodes: self.nodes.insert(id, Vertex { refs, ..self.nodes[id] }), ..self }
    }

    /// The diagram with one more reference to `id`.
    pub open spec fn referenced(self, id: Bdd) -> Diagram {
        self.with_refs(id, self.nodes[id].refs.wrapping_add(1))
    }

    /// The diagram with one reference less to `id`.
    pub open spec fn dereferenced(self, id: Bdd) -> Diagram {
        self.with_refs(id, self.nodes[id].refs.wrapping_sub(1))
    }

    /// The diagram has grown from `before` by what a result needs: what is new can be reached
    /// from `ret` and is not referenced, and nothing else has changed.
    pub open spec fn grown(self, before: Diagram, ret: Bdd) -> bool {
        &&& self.wf()
        &&& self.extends(before)
        &&& self.table_exp == before.table_exp
        &&& self.cache_exp == before.cache_exp
        &&& self.has_node(ret)
        &&& forall|id: Bdd| #[trigger]
            before.has_node(id) ==> self.nodes[id].refs == before.nodes[id].refs
        &&& forall|id: Bdd| #[trigger]
            self.has_node(id) && !before.has_node(id) ==> self.nodes[id].refs == 0 && self.reaches(
                ret,
                id,
            )
    }

    /// What an operation on `before` may leave behind: grown by its result, which has one more
    /// reference.
    pub open spec fn concludes(self, before: Diagram, ret: Bdd) -> bool {
        exists|d: Diagram|
            #![trigger d.grown(before.entered(), ret)]
            d.grown(before.entered(), ret) && self == d.referenced(ret)
    }

    // Nodes and their functions.

    /// Two nodes branch just if both decide, and they differ.
    pub proof fn law_branches(self, a: Bdd, b: Bdd)
        requires
            self.wf(),
            self.nodes.contains_key(a),
            self.nodes.contains_key(b),
        ensures
            self.branches(a, b) <==> a != b && self.nodes[a].low != self.nodes[a].high
                && self.nodes[b].low != self.nodes[b].high,
    {
        assert(self.has_node(a) && self.has_node(b));
        if !self.terminal(a) {
            self.lemma_decides(a);
        }
        if !self.terminal(b) {
            self.lemma_decides(b);
        }
    }

    /// A node that is not a terminal decides.
    pub proof fn lemma_decides(self, id: Bdd)
        requires
            self.wf(),
            self.has_node(id),
            !self.terminal(id),
        ensures
            self.has_node(self.low(id)),
            self.has_node(self.high(id)),
            self.low(id) != self.high(id),
            self.top(id) < self.num_vars(),
            self.top(id) < self.top(self.low(id)),
            self.top(id) < self.top(self.high(id)),
            self.rank(self.low(id)) < self.rank(id),
            self.rank(self.high(id)) < self.rank(id),
    {
        reveal(Diagram::decides);
    }

    /// No node asks for a variable past the last one.
    pub proof fn lemma_top(self, id: Bdd)
        requires
            self.wf(),
            self.has_node(id),
        ensures
            self.top(id) <= self.num_vars(),
            self.top(id) == self.num_vars() <==> self.terminal(id),
    {
        if !self.terminal(id) {
            self.lemma_decides(id);
        }
    }

    /// The function of a node does not depend on the variables before its own.
    pub proof fn lemma_eval_agree(self, id: Bdd, e1: Assignment, e2: Assignment)
        requires
            self.wf(),
            self.has_node(id),
            forall|l: nat| self.top(id) <= l ==> #[trigger] e1(l) == e2(l),
        ensures
            self.eval(id, e1) == self.eval(id, e2),
        decreases self.rank(id),
    {
        if !self.terminal(id) {
            self.lemma_decides(id);
            self.lemma_eval_agree(self.low(id), e1, e2);
            self.lemma_eval_agree(self.high(id), e1, e2);
        }
    }

    /// The children of a node give its function's values where its variable is fixed.
    pub proof fn lemma_eval_cofactor(self, id: Bdd, l: nat, env: Assignment, value: bool)
        requires
            self.wf(),
            self.has_node(id),
            l <= self.top(id),
        ensures
            l < self.top(id) ==> self.eval(id, assigned(env, l, value)) == self.eval(id, env),
            l == self.top(id) && !self.terminal(id) ==> self.eval(id, assigned(env, l, value))
                == self.eval(
                if value {
                    self.high(id)
                } else {
                    self.low(id)
                },
                env,
            ),
    {
        let e = assigned(env, l, value);
        if l < self.top(id) {
            self.lemma_eval_agree(id, e, env);
        } else if !self.terminal(id) {
            self.lemma_decides(id);
            self.lemma_eval_agree(self.low(id), e, env);
            self.lemma_eval_agree(self.high(id), e, env);
        }
    }

    /// A diagram is canonical: two nodes that stand for the same function are the same node.
    pub proof fn law_canonical(self, a: Bdd, b: Bdd)
        requires
            self.wf(),
            self.has_node(a),
            self.has_node(b),
        ensures
            self.same_function(a, b) <==> a == b,
    {
        if self.same_function(a, b) {
            self.lemma_canonical(a, b);
        }
    }

    /// The rank of the one of two nodes that asks for the earlier variable.
    spec fn earlier_rank(self, a: Bdd, b: Bdd) -> nat {
        if self.rank(a) < self.rank(b) {
            self.rank(b)
        } else {
            self.rank(a)
        }
    }

    proof fn lemma_canonical(self, a: Bdd, b: Bdd)
        requires
            self.wf(),
            self.has_node(a),
            self.has_node(b),
            self.same_function(a, b),
        ensures
            a == b,
        decreases self.earlier_rank(a, b), 1nat,
    {
        if self.terminal(a) && self.terminal(b) {
            let env: Assignment = |k: nat| true;
            assert(self.eval(a, env) == self.eval(b, env));
        } else if self.top(a) < self.top(b) {
            self.lemma_depends(a, b);
        } else if self.top(b) < self.top(a) {
            assert(self.same_function(b, a));
            self.lemma_depends(b, a);
        } else {
            if self.terminal(a) {
                self.lemma_decides(b);
            } else if self.terminal(b) {
                self.lemma_decides(a);
            }
            self.lemma_decides(a);
            self.lemma_decides(b);
            let l = self.top(a);
            assert forall|env: Assignment| #[trigger]
                self.eval(self.low(a), env) == self.eval(self.low(b), env) by {
                self.lemma_eval_cofactor(a, l, env, false);
                self.lemma_eval_cofactor(b, l, env, false);
                assert(self.eval(a, assigned(env, l, false)) == self.eval(
                    b,
                    assigned(env, l, false),
                ));
            }
            assert forall|env: Assignment| #[trigger]
                self.eval(self.high(a), env) == self.eval(self.high(b), env) by {
                self.lemma_eval_cofactor(a, l, env, true);
                self.lemma_eval_cofactor(b, l, env, true);
                assert(self.eval(a, assigned(env, l, true)) == self.eval(
                    b,
                    assigned(env, l, true),
                ));
            }
            self.lemma_canonical(self.low(a), self.low(b));
            self.lemma_canonical(self.high(a), self.high(b));
            assert(self.nodes[a].key() == self.nodes[b].key());
        }
    }

    /// A node depends on its variable, so it does not stand for a function of later ones.
    proof fn lemma_depends(self, a: Bdd, b: Bdd)
        requires
            self.wf(),
            self.has_node(a),
            self.has_node(b),
            self.top(a) < self.top(b),
        ensures
            !self.same_function(a, b),
        decreases self.earlier_rank(a, b), 0nat,
    {
        assert(!self.terminal(a)) by {
            if self.terminal(a) && !self.terminal(b) {
                self.lemma_decides(b);
            }
        }
        self.lemma_decides(a);
        let l = self.top(a);
        if self.same_function(a, b) {
            assert forall|env: Assignment| #[trigger]
                self.eval(self.low(a), env) == self.eval(self.high(a), env) by {
                self.lemma_eval_cofactor(a, l, env, false);
                self.lemma_eval_cofactor(a, l, env, true);
                self.lemma_eval_cofactor(b, l, env, false);
                self.lemma_eval_cofactor(b, l, env, true);
                assert(self.eval(a, assigned(env, l, false)) == self.eval(
                    b,
                    assigned(env, l, false),
                ));
                assert(self.eval(a, assigned(env, l, true)) == self.eval(
                    b,
                    assigned(env, l, true),
                ));
            }
            self.lemma_canonical(self.low(a), self.high(a));
        }
    }

    /// A variable's node stands for its value, and its negation's node for the opposite.
    pub proof fn law_literals(self, i: int, env: Assignment)
        requires
            self.wf(),
            0 <= i < self.num_vars(),
        ensures
            self.has_node(self.vars[i]),
            self.has_node(self.nvars[i]),
            self.eval(self.vars[i], env) == env(i as nat),
            self.eval(self.nvars[i], env) == !env(i as nat),
    {
        assert(self.is_vertex(self.vars[i], i, self.false_id, self.true_id));
        assert(self.is_vertex(self.nvars[i], i, self.true_id, self.false_id));
        assert(self.is_vertex(self.true_id, 1, NULL, NULL));
        assert(self.is_vertex(self.false_id, 0, NULL, NULL));
        assert(self.eval(self.true_id, env) && !self.eval(self.false_id, env));
    }

    // Growing, collecting and counting references.

    /// A node keeps its function while the diagram is extended.
    pub proof fn law_extends(self, before: Diagram, id: Bdd, env: Assignment)
        requires
            before.wf(),
            self.wf(),
            self.extends(before),
            before.has_node(id),
        ensures
            self.has_node(id),
            self.top(id) == before.top(id),
            self.eval(id, env) == before.eval(id, env),
        decreases before.rank(id),
    {
        if !before.terminal(id) {
            before.lemma_decides(id);
            self.law_extends(before, before.low(id), env);
            self.law_extends(before, before.high(id), env);
        }
    }

    /// Extending is transitive.
    pub proof fn lemma_extends_trans(self, middle: Diagram, before: Diagram)
        requires
            self.extends(middle),
            middle.extends(before),
        ensures
            self.extends(before),
    {
    }

    /// A path of a diagram is a path of each diagram that extends it.
    pub proof fn lemma_reaches_extends(self, before: Diagram, from: Bdd, to: Bdd)
        requires
            self.extends(before),
            before.reaches(from, to),
        ensures
            self.reaches(from, to),
    {
        assert forall|id: Bdd| #[trigger] before.edges().contains_key(id) implies self.edges()
            .contains_key(id) && self.edges()[id] == before.edges()[id] by {
            assert(before.has_node(id));
        }
        lemma_subgraph(before.edges(), self.edges(), from, to);
    }

    /// Nothing has to grow for a node that is there.
    pub proof fn lemma_grown_self(self, ret: Bdd)
        requires
            self.wf(),
            self.has_node(ret),
        ensures
            self.grown(self, ret),
    {
    }

    /// A new decision node.
    pub open spec fn with_node(self, id: Bdd, level: usize, low: Bdd, high: Bdd) -> Diagram {
        Diagram { nodes: self.nodes.insert(id, Vertex { level, low, high, refs: 0 }), ..self }
    }

    /// A new decision node grows the diagram by itself.
    pub proof fn lemma_with_node(self, id: Bdd, level: usize, low: Bdd, high: Bdd)
        requires
            self.wf(),
            !self.has_node(id),
            id != NULL,
            self.has_node(low),
            self.has_node(high),
            low != high,
            level < self.num_vars(),
            level < self.top(low),
            level < self.top(high),
            forall|x: Bdd| #[trigger]
                self.has_node(x) ==> self.nodes[x].key() != (level, low, high),
        ensures
            self.with_node(id, level, low, high).grown(self, id),
    {
        let d = self.with_node(id, level, low, high);
        assert forall|x: Bdd| #[trigger] d.has_node(x) implies x == id || self.has_node(x) by {}
        assert forall|x: Bdd| #[trigger] d.has_node(x) && !d.terminal(x) implies d.decides(x) by {
            reveal(Diagram::decides);
            if x != id {
                self.lemma_decides(x);
                assert(d.has_node(self.low(x)));
                assert(d.has_node(self.high(x)));
            }
        }
        assert forall|i: int|
            #![trigger d.vars[i]]
            0 <= i < d.vars.len() implies d.is_vertex(d.vars[i], i, d.false_id, d.true_id) by {
            assert(self.has_node(self.vars[i]));
        }
        assert forall|i: int|
            #![trigger d.nvars[i]]
            0 <= i < d.nvars.len() implies d.is_vertex(d.nvars[i], i, d.true_id, d.false_id) by {
            assert(self.has_node(self.nvars[i]));
        }
        assert(d.unique()) by {
            assert forall|a: Bdd, b: Bdd| #[trigger]
                d.has_node(a) && #[trigger] d.has_node(b) && d.nodes[a].key()
                    == d.nodes[b].key() implies a == b by {
                if a != id && b != id {
                    assert(self.has_node(a) && self.has_node(b));
                } else if a != id {
                    assert(self.has_node(a));
                } else if b != id {
                    assert(self.has_node(b));
                }
            }
        }
        lemma_reaches_self(d.edges(), id);
    }

    /// A node made of two results grows the diagram by what both needed.
    pub proof fn lemma_grown_join(
        self,
        d2: Diagram,
        d1: Diagram,
        before: Diagram,
        low: Bdd,
        high: Bdd,
        ret: Bdd,
    )
        requires
            d1.grown(before, low),
            d2.grown(d1, high),
            self.grown(d2, ret),
            low == high && ret == low || !self.terminal(ret) && self.low(ret) == low && self.high(
                ret,
            ) == high,
        ensures
            self.grown(before, ret),
    {
        self.lemma_extends_trans(d2, d1);
        self.lemma_extends_trans(d1, before);
        assert forall|id: Bdd| #[trigger] self.has_node(id) && !before.has_node(
            id,
        ) implies self.nodes[id].refs == 0 && self.reaches(ret, id) by {
            let g = self.edges();
            lemma_reaches_self(g, ret);
            if d1.has_node(id) {
                self.lemma_reaches_extends(d1, low, id);
                if low != high || ret != low {
                    lemma_reaches_step(g, ret, id);
                }
            } else if d2.has_node(id) {
                self.lemma_reaches_extends(d2, high, id);
                if low != high || ret != low {
                    lemma_reaches_step(g, ret, id);
                }
            }
        }
    }

    /// The live nodes are nodes, with their children.
    pub proof fn lemma_live(self)
        requires
            self.wf(),
        ensures
            self.live().subset_of(self.nodes.dom()),
            self.live().finite(),
            self.live().len() <= self.nodes.dom().len(),
            complete(self.nodes),
            forall|id: Bdd| #[trigger]
                self.live().contains(id) && !self.terminal(id) ==> self.live().contains(
                    self.low(id),
                ) && self.live().contains(self.high(id)),
            forall|id: Bdd| #[trigger]
                self.has_node(id) && self.nodes[id].refs != 0 ==> self.live().contains(id),
    {
        let g = self.edges();
        assert forall|id: Bdd| #[trigger] self.nodes.contains_key(id) implies {
            &&& self.nodes[id].low == NULL || self.nodes.contains_key(self.nodes[id].low)
            &&& self.nodes[id].high == NULL || self.nodes.contains_key(self.nodes[id].high)
        } by {
            assert(self.has_node(id));
            if !self.terminal(id) {
                self.lemma_decides(id);
            }
        }
        let all = self.nodes.dom();
        assert(closed_in(g, all));
        assert forall|id: Bdd| self.live().contains(id) implies all.contains(id) by {
            let r = choose|r: Bdd| referenced(self.nodes).contains(r) && reaches(g, r, id);
            lemma_closed(g, all, r, id);
        }
        assert forall|id: Bdd| #[trigger] self.live().contains(id) && !self.terminal(
            id,
        ) implies self.live().contains(self.low(id)) && self.live().contains(self.high(id)) by {
            assert(self.has_node(id));
            self.lemma_decides(id);
            let r = choose|r: Bdd| referenced(self.nodes).contains(r) && reaches(g, r, id);
            lemma_reaches_self(g, self.low(id));
            lemma_reaches_self(g, self.high(id));
            lemma_reaches_step(g, id, self.low(id));
            lemma_reaches_step(g, id, self.high(id));
            lemma_trans(g, r, id, self.low(id));
            lemma_trans(g, r, id, self.high(id));
        }
        assert forall|id: Bdd| #[trigger] self.has_node(id) && self.nodes[id].refs
            != 0 implies self.live().contains(id) by {
            lemma_reaches_self(g, id);
            assert(referenced(self.nodes).contains(id) && reaches(g, id, id));
        }
        vstd::set_lib::lemma_len_subset(self.live(), all);
    }

    /// A collection keeps the live nodes, referenced or reached from a referenced one, with their
    /// functions, and no others.
    pub proof fn law_collected(self)
        requires
            self.wf(),
            self.grounded(),
        ensures
            self.collected().wf(),
            self.extends(self.collected()),
            self.collected().nodes.dom() == self.live(),
            self.collected().nodes.dom().len() == self.live().len(),
            forall|id: Bdd, env: Assignment|
                self.live().contains(id) ==> #[trigger] self.collected().eval(id, env)
                    == self.eval(id, env),
    {
        let d = self.collected();
        self.lemma_live();
        assert(d.nodes.dom() =~= self.live());
        assert forall|id: Bdd| #[trigger] d.has_node(id) implies self.has_node(id) && d.nodes[id]
            == self.nodes[id] && self.live().contains(id) by {
            assert(d.nodes.dom().contains(id));
        }
        assert forall|id: Bdd| #[trigger] self.live().contains(id) implies d.has_node(id) by {
            assert(d.nodes.dom().contains(id));
        }
        assert forall|id: Bdd| #[trigger] d.has_node(id) && !d.terminal(id) implies d.decides(
            id,
        ) by {
            reveal(Diagram::decides);
            assert(self.has_node(id));
            self.lemma_decides(id);
            assert(self.live().contains(id));
            assert(self.live().contains(self.low(id)) && self.live().contains(self.high(id)));
        }
        assert(d.unique()) by {
            assert forall|a: Bdd, b: Bdd| #[trigger]
                d.has_node(a) && #[trigger] d.has_node(b) && d.nodes[a].key()
                    == d.nodes[b].key() implies a == b by {
                assert(self.has_node(a) && self.has_node(b));
            }
        }
        assert(self.live().contains(self.true_id) && self.live().contains(self.false_id));
        assert(d.has_builtins()) by {
            assert(d.has_node(d.true_id) && d.has_node(d.false_id));
            assert(d.is_vertex(d.true_id, 1, NULL, NULL));
            assert(d.is_vertex(d.false_id, 0, NULL, NULL));
            assert forall|i: int|
                #![trigger d.vars[i]]
                0 <= i < d.vars.len() implies d.is_vertex(d.vars[i], i, d.false_id, d.true_id) by {
                assert(self.live().contains(self.vars[i]));
                assert(self.is_vertex(self.vars[i], i, self.false_id, self.true_id));
            }
            assert forall|i: int|
                #![trigger d.nvars[i]]
                0 <= i < d.nvars.len() implies d.is_vertex(
                d.nvars[i],
                i,
                d.true_id,
                d.false_id,
            ) by {
                assert(self.live().contains(self.nvars[i]));
                assert(self.is_vertex(self.nvars[i], i, self.true_id, self.false_id));
            }
        }
        assert(self.extends(d));
        assert forall|id: Bdd, env: Assignment| self.live().contains(id) implies #[trigger] d.eval(
            id,
            env,
        ) == self.eval(id, env) by {
            self.law_extends(d, id, env);
        }
    }

    /// What an operation starts from is a diagram with the same functions.
    pub proof fn lemma_entered(self)
        requires
            self.wf(),
            self.ready(),
        ensures
            self.entered().wf(),
            self.extends(self.entered()),
            forall|id: Bdd, env: Assignment|
                self.operand(id) ==> #[trigger] self.entered().eval(id, env) == self.eval(id, env),
    {
        if self.will_collect() {
            self.law_collected();
            assert forall|id: Bdd, env: Assignment| self.operand(id) implies #[trigger]
                self.entered().eval(id, env) == self.eval(id, env) by {
                assert(self.collected().nodes.dom().contains(id));
            }
        } else {
            let d = self.entered();
            self.lemma_alike(d);
            assert forall|id: Bdd, env: Assignment| self.operand(id) implies #[trigger] d.eval(
                id,
                env,
            ) == self.eval(id, env) by {
                self.law_extends(d, id, env);
            }
        }
    }

    /// A diagram with the same nodes, but for their references, is one too.
    pub proof fn lemma_alike(self, d: Diagram)
        requires
            self.wf(),
            d.same_builtins(self),
            d.nodes.dom() == self.nodes.dom(),
            forall|x: Bdd| #[trigger]
                self.has_node(x) ==> d.nodes[x].key() == self.nodes[x].key(),
        ensures
            d.wf(),
            d.extends(self),
            self.extends(d),
    {
        assert forall|x: Bdd| #[trigger] d.has_node(x) <==> self.has_node(x) by {
            assert(d.nodes.dom().contains(x) == self.nodes.dom().contains(x));
        }
        assert forall|x: Bdd| #[trigger] self.has_node(x) implies d.has_node(x) by {
            assert(d.has_node(x) == self.has_node(x));
        }
        assert forall|x: Bdd| #[trigger] d.has_node(x) && !d.terminal(x) implies d.decides(x) by {
            reveal(Diagram::decides);
            assert(self.has_node(x));
            self.lemma_decides(x);
            assert(self.has_node(self.low(x)) && self.has_node(self.high(x)));
        }
        assert(d.has_builtins()) by {
            assert(self.has_node(self.true_id) && self.has_node(self.false_id));
            assert(d.is_vertex(d.true_id, 1, NULL, NULL));
            assert(d.is_vertex(d.false_id, 0, NULL, NULL));
            assert forall|i: int|
                #![trigger d.vars[i]]
                0 <= i < d.vars.len() implies d.is_vertex(d.vars[i], i, d.false_id, d.true_id) by {
                assert(self.is_vertex(self.vars[i], i, self.false_id, self.true_id));
            }
            assert forall|i: int|
                #![trigger d.nvars[i]]
                0 <= i < d.nvars.len() implies d.is_vertex(
                d.nvars[i],
                i,
                d.true_id,
                d.false_id,
            ) by {
                assert(self.is_vertex(self.nvars[i], i, self.true_id, self.false_id));
            }
        }
        assert(d.unique()) by {
            assert forall|a: Bdd, b: Bdd| #[trigger]
                d.has_node(a) && #[trigger] d.has_node(b) && d.nodes[a].key()
                    == d.nodes[b].key() implies a == b by {
                assert(self.has_node(a) && self.has_node(b));
            }
        }
    }

    /// Counting references changes no function and no edge.
    pub proof fn lemma_with_refs(self, id: Bdd, refs: usize)
        requires
            self.wf(),
            self.has_node(id),
        ensures
            self.with_refs(id, refs).wf(),
            self.with_refs(id, refs).extends(self),
            self.extends(self.with_refs(id, refs)),
            self.with_refs(id, refs).nodes.dom() == self.nodes.dom(),
            self.with_refs(id, refs).edges() == self.edges(),
            forall|x: Bdd| #[trigger]
                self.with_refs(id, refs).has_node(x) ==> self.with_refs(id, refs).top(x)
                    == self.top(x),
            forall|x: Bdd, env: Assignment|
                self.has_node(x) ==> #[trigger] self.with_refs(id, refs).eval(x, env) == self.eval(
                    x,
                    env,
                ),
    {
        let d = self.with_refs(id, refs);
        assert(d.nodes.dom() =~= self.nodes.dom());
        assert(d.edges() =~= self.edges());
        assert forall|x: Bdd| #[trigger] d.has_node(x) implies self.has_node(x)
            && d.nodes[x].key() == self.nodes[x].key() by {}
        assert forall|x: Bdd| #[trigger] self.has_node(x) implies d.has_node(x) && d.nodes[x].key()
            == self.nodes[x].key() by {}
        self.lemma_alike(d);
        assert forall|x: Bdd, env: Assignment| self.has_node(x) implies #[trigger] d.eval(x, env)
            == self.eval(x, env) by {
            d.law_extends(self, x, env);
        }
    }
}

} // verus!
