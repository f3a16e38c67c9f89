//! The manager of a decision diagram.

use cpu_time::ThreadTime;
use vstd::arithmetic::power2::pow2;
use vstd::prelude::*;

use crate::cache::{all_unused, lemma_unused_null, Cache, CacheStat, LockFreeCache};
use crate::clock::{micros_since, thread_now};
use crate::counts::{counts_more, law_cache_counts, law_looked_up, looks};
use crate::diagram::{Assignment, Diagram};
use crate::keeping::{law_collection, law_operation};
use crate::memo::{
    apply, computes, held, held_not, lemma_held_not_unused, lemma_held_unused,
    lemma_recalls_extends, lemma_recalls_not_extends, made, negates, recalls, recalls_not,
};
use crate::node::{key_hash, Bdd, Node, MARK, NULL};
use crate::op_stat::OpStat;
use crate::set::{has_key, live, LockFreeSet, NodeSet, Vertex};
use crate::sizing::{lemma_double, lemma_size_range, lemma_size_unique, MAX_SIZE_EXP};
use crate::spin::distributed_rw::{DistributedRwLock, WriteAttempt};
use crate::spin::rw_w_pre::RwLockStat;
use crate::{BddManager, BddOp, BddOpType};

mod debug;
mod entry;
mod io;
mod ops;
mod print;

verus! {

/// The reader slot of the lock that a manager uses.
const SLOT: usize = 0;

/// A table is full when it has this many nodes per bucket.
const MAX_LOAD_FACTOR: usize = 1;

/// A full table is collected, not grown, if that frees one node for this many buckets.
const MIN_GC_BUCKETS: usize = 4;

/// A decision diagram with its operation caches.
pub struct Manager {
    set: LockFreeSet,
    rw_lock: DistributedRwLock,
    num_vars: usize,
    true_id: Bdd,
    false_id: Bdd,
    vars: Vec<Bdd>,
    nvars: Vec<Bdd>,
    /// A spare node that is not in the set, for the next lookup.
    free_id: Bdd,
    not_cache: LockFreeCache<Bdd, Bdd>,
    and_cache: LockFreeCache<(Bdd, Bdd), Bdd>,
    or_cache: LockFreeCache<(Bdd, Bdd), Bdd>,
    comp_cache: LockFreeCache<(Bdd, Bdd), Bdd>,
    quant_exist_cache: LockFreeCache<(Bdd, Bdd), Bdd>,
    quant_forall_cache: LockFreeCache<(Bdd, Bdd), Bdd>,
    op_stat: OpStat,
    timer: Option<ThreadTime>,
}

/// A cache that has forgotten everything remembers nothing wrong.
proof fn lemma_unused_recalls(d: Diagram, op: BddOpType, entries: Seq<((Bdd, Bdd), Bdd)>)
    requires
        all_unused(entries),
    ensures
        recalls(d, op, entries),
{
    reveal(recalls);
    assert forall|i: int| #![trigger entries[i]] 0 <= i < entries.len() implies entries[i].1
        == NULL by {
        lemma_unused_null(entries, i);
    }
}

proof fn lemma_unused_recalls_not(d: Diagram, entries: Seq<(Bdd, Bdd)>)
    requires
        all_unused(entries),
    ensures
        recalls_not(d, entries),
{
    reveal(recalls_not);
    assert forall|i: int| #![trigger entries[i]] 0 <= i < entries.len() implies entries[i].1
        == NULL by {
        lemma_unused_null(entries, i);
    }
}

/// What the counts of a cache are once an operation on `d` has started.
pub open spec fn entered_stat(stat: CacheStat, d: Diagram) -> CacheStat {
    if d.will_collect() {
        stat.cleared()
    } else if d.will_grow() {
        stat.grown()
    } else {
        stat
    }
}

/// What an operation leaves behind, and what its result stands for.
proof fn lemma_concludes(d: Diagram, g: Diagram, op: BddOpType, lhs: Bdd, rhs: Bdd, ret: Bdd)
    requires
        d.wf(),
        d.ready(),
        d.operand(lhs),
        d.operand(rhs),
        g.grown(d.entered(), ret),
        computes(g, op, lhs, rhs, ret),
    ensures
        g.referenced(ret).concludes(d, ret),
        forall|env: Assignment| #[trigger]
            g.referenced(ret).eval(ret, env) == apply(op, d.eval(lhs, env), d.eval(rhs, env)),
{
    d.lemma_entered();
    g.lemma_with_refs(ret, g.nodes[ret].refs.wrapping_add(1));
    assert forall|env: Assignment| #[trigger] g.referenced(ret).eval(ret, env) == apply(
        op,
        d.eval(lhs, env),
        d.eval(rhs, env),
    ) by {
        reveal(computes);
        g.law_extends(d.entered(), lhs, env);
        g.law_extends(d.entered(), rhs, env);
        assert(g.eval(ret, env) == apply(op, g.eval(lhs, env), g.eval(rhs, env)));
    }
}

proof fn lemma_not_concludes(d: Diagram, g: Diagram, bdd: Bdd, ret: Bdd)
    requires
        d.wf(),
        d.ready(),
        d.operand(bdd),
        g.grown(d.entered(), ret),
        negates(g, bdd, ret),
    ensures
        g.referenced(ret).concludes(d, ret),
        forall|env: Assignment| #[trigger]
            g.referenced(ret).eval(ret, env) == !d.eval(bdd, env),
{
    d.lemma_entered();
    g.lemma_with_refs(ret, g.nodes[ret].refs.wrapping_add(1));
    assert forall|env: Assignment| #[trigger] g.referenced(ret).eval(ret, env) == !d.eval(
        bdd,
        env,
    ) by {
        reveal(negates);
        g.law_extends(d.entered(), bdd, env);
        assert(g.eval(ret, env) == !g.eval(bdd, env));
    }
}

/// The table of the terminals and the first `n` pairs of literals, each referenced once.
spec fn planted(
    t: Map<Bdd, Vertex>,
    true_id: Bdd,
    false_id: Bdd,
    vars: Seq<Bdd>,
    nvars: Seq<Bdd>,
    n: int,
) -> bool {
    &&& vars.len() == n
    &&& nvars.len() == n
    &&& t.dom().finite()
    &&& t.dom().len() == 2 + 2 * n
    &&& true_id != false_id
    &&& true_id != NULL
    &&& false_id != NULL
    &&& t.contains_key(true_id)
    &&& t.contains_key(false_id)
    &&& t[true_id] == (Vertex { level: 1, low: NULL, high: NULL, refs: 1 })
    &&& t[false_id] == (Vertex { level: 0, low: NULL, high: NULL, refs: 1 })
    &&& forall|i: int|
        #![trigger vars[i]]
        0 <= i < n ==> t.contains_key(vars[i]) && vars[i] != true_id && vars[i] != false_id
            && t[vars[i]] == (Vertex { level: i as usize, low: false_id, high: true_id, refs: 1 })
    &&& forall|i: int|
        #![trigger nvars[i]]
        0 <= i < n ==> t.contains_key(nvars[i]) && nvars[i] != true_id && nvars[i] != false_id
            && t[nvars[i]] == (Vertex { level: i as usize, low: true_id, high: false_id, refs: 1 })
    &&& forall|id: Bdd| #[trigger]
        t.contains_key(id) ==> id == true_id || id == false_id || vars.contains(id)
            || nvars.contains(id)
}

/// Puts a node into a set that has none of its key, and references it.
fn plant(set: &mut LockFreeSet, node: Node) -> (id: Bdd)
    requires
        old(set).wf(),
        old(set).marks() == Set::<Bdd>::empty(),
        node.ref_cnt == 0,
        !node.marked(),
        node.hash == key_hash(node.plain_key()),
        !has_key(old(set).table(), node.plain_key()),
    ensures
        final(set).wf(),
        final(set).marks() == Set::<Bdd>::empty(),
        final(set).exp() == old(set).exp(),
        id != NULL,
        !old(set).table().contains_key(id),
        final(set).table() == old(set).table().insert(
            id,
            Vertex { level: node.level, low: node.low, high: node.high, refs: 1 },
        ),
{
    let ghost t = set.table();
    let id: Bdd = set.new_node(node);
    set.get_or_insert(id);
    set.ref_node(id);
    assert(set.table() =~= t.insert(
        id,
        Vertex { level: node.level, low: node.low, high: node.high, refs: 1 },
    ));
    id
}

/// The terminals and the literals make up a diagram.
proof fn lemma_planted_wf(d: Diagram)
    requires
        planted(d.nodes, d.true_id, d.false_id, d.vars, d.nvars, d.vars.len() as int),
        d.vars.len() <= usize::MAX,
        !d.has_node(NULL),
        d.unique(),
    ensures
        d.wf(),
        forall|id: Bdd| #[trigger] d.has_node(id) ==> d.nodes[id].refs == 1,
{
    assert forall|id: Bdd| #[trigger] d.has_node(id) implies d.nodes[id].refs == 1 && (
    !d.terminal(id) ==> d.decides(id)) by {
        assert(d.nodes.contains_key(id));
        reveal(Diagram::decides);
        if !d.terminal(id) {
            if d.vars.contains(id) {
                let k = choose|k: int| 0 <= k < d.vars.len() && d.vars[k] == id;
                assert(d.nodes[d.vars[k]].level == k);
            } else {
                let k = choose|k: int| 0 <= k < d.nvars.len() && d.nvars[k] == id;
                assert(d.nodes[d.nvars[k]].level == k);
            }
        }
    }
}

/// One more pair of literals.
proof fn lemma_planted(
    t: Map<Bdd, Vertex>,
    true_id: Bdd,
    false_id: Bdd,
    vars: Seq<Bdd>,
    nvars: Seq<Bdd>,
    n: usize,
    var_id: Bdd,
    nvar_id: Bdd,
)
    requires
        planted(t, true_id, false_id, vars, nvars, n as int),
        !t.contains_key(var_id),
        !t.contains_key(nvar_id),
        var_id != nvar_id,
    ensures
        planted(
            t.insert(var_id, Vertex { level: n, low: false_id, high: true_id, refs: 1 }).insert(
                nvar_id,
                Vertex { level: n, low: true_id, high: false_id, refs: 1 },
            ),
            true_id,
            false_id,
            vars.push(var_id),
            nvars.push(nvar_id),
            n + 1,
        ),
{
    let t1 = t.insert(var_id, Vertex { level: n, low: false_id, high: true_id, refs: 1 });
    let t2 = t1.insert(nvar_id, Vertex { level: n, low: true_id, high: false_id, refs: 1 });
    let vars1 = vars.push(var_id);
    let nvars1 = nvars.push(nvar_id);
    assert(t1.dom() =~= t.dom().insert(var_id));
    assert(t2.dom() =~= t1.dom().insert(nvar_id));
    assert forall|id: Bdd| #[trigger] t2.contains_key(id) implies id == true_id || id == false_id
        || vars1.contains(id) || nvars1.contains(id) by {
        if id == var_id {
            assert(vars1[n as int] == id);
        } else if id == nvar_id {
            assert(nvars1[n as int] == id);
        } else if id != true_id && id != false_id {
            assert(t.contains_key(id));
            if vars.contains(id) {
                let k = choose|k: int| 0 <= k < vars.len() && vars[k] == id;
                assert(vars1[k] == id);
            } else {
                let k = choose|k: int| 0 <= k < nvars.len() && nvars[k] == id;
                assert(nvars1[k] == id);
            }
        }
    }
}

impl Manager {
    spec fn model(&self) -> Diagram {
        Diagram {
            nodes: self.set.table(),
            true_id: self.true_id,
            false_id: self.false_id,
            vars: self.vars@,
            nvars: self.nvars@,
            table_exp: self.set.exp(),
            cache_exp: self.not_cache.exp(),
        }
    }

    /// The counts of the cache of an operation.
    pub closed spec fn cache_stat(&self, op: BddOpType) -> CacheStat {
        match op {
            BddOpType::Not => self.not_cache.stats(),
            BddOpType::And => self.and_cache.stats(),
            BddOpType::Or => self.or_cache.stats(),
            BddOpType::Comp => self.comp_cache.stats(),
            BddOpType::QuantExist => self.quant_exist_cache.stats(),
            BddOpType::QuantForall => self.quant_forall_cache.stats(),
        }
    }

    /// What the cache of an operation holds for its operands, if anything. A negation has only the
    /// first operand; the order of the operands of a conjunction or a disjunction does not matter.
    pub closed spec fn recalled(&self, op: BddOpType, a: Bdd, b: Bdd) -> Option<Bdd> {
        let (lo, hi) = if a >= b {
            (b, a)
        } else {
            (a, b)
        };
        match op {
            BddOpType::Not => held_not(self.not_cache.entries(), a),
            BddOpType::And => held(self.and_cache.entries(), lo, hi),
            BddOpType::Or => held(self.or_cache.entries(), lo, hi),
            BddOpType::Comp => held(self.comp_cache.entries(), a, b),
            BddOpType::QuantExist => held(self.quant_exist_cache.entries(), a, b),
            BddOpType::QuantForall => held(self.quant_forall_cache.entries(), a, b),
        }
    }

    /// What the caches hold and have counted, and what the lock has counted, is as in `other`.
    pub open spec fn same_memory(&self, other: &Self) -> bool {
        &&& self.lock_stats() == other.lock_stats()
        &&& self.same_cached(other)
    }

    /// What the caches hold and have counted is as in `other`.
    pub open spec fn same_cached(&self, other: &Self) -> bool {
        &&& forall|op: BddOpType| #[trigger] self.cache_stat(op) == other.cache_stat(op)
        &&& forall|op: BddOpType, a: Bdd, b: Bdd| #[trigger]
            self.recalled(op, a, b) == other.recalled(op, a, b)
    }

    /// An operation on `before` has asked its cache for the result, and the cache holds it now. If
    /// it held it when the operation started, there was one hit.
    pub open spec fn remembered(
        &self,
        before: &Self,
        op: BddOpType,
        a: Bdd,
        b: Bdd,
        ret: Bdd,
    ) -> bool {
        let stat = entered_stat(before.cache_stat(op), before.diagram());
        &&& self.recalled(op, a, b) == Some(ret)
        &&& self.cache_stat(op).consulted(stat)
        &&& !before.diagram().full() && before.recalled(op, a, b) is Some ==> {
            &&& before.recalled(op, a, b) == Some(ret)
            &&& self.cache_stat(op) == stat.hit()
            &&& self.diagram() == before.diagram().referenced(ret)
        }
    }

    /// The counts of the lock.
    pub closed spec fn lock_stats(&self) -> RwLockStat {
        self.rw_lock.stats()
    }

    /// The node set and the spare node are in order.
    spec fn store_wf(&self) -> bool {
        &&& self.set.wf()
        &&& self.num_vars == self.vars@.len()
        &&& self.num_vars < MARK
        &&& self.free_id != NULL ==> self.set.outside().contains_key(self.free_id)
            && self.set.outside()[self.free_id].ref_cnt == 0
    }

    /// The caches are of one size.
    spec fn caches_wf(&self) -> bool {
        &&& self.not_cache.wf()
        &&& self.and_cache.wf()
        &&& self.or_cache.wf()
        &&& self.comp_cache.wf()
        &&& self.quant_exist_cache.wf()
        &&& self.quant_forall_cache.wf()
        &&& self.and_cache.exp() == self.not_cache.exp()
        &&& self.or_cache.exp() == self.not_cache.exp()
        &&& self.comp_cache.exp() == self.not_cache.exp()
        &&& self.quant_exist_cache.exp() == self.not_cache.exp()
        &&& self.quant_forall_cache.exp() == self.not_cache.exp()
    }

    /// What the caches remember is right.
    spec fn caches_right(&self, d: Diagram) -> bool {
        &&& recalls_not(d, self.not_cache.entries())
        &&& recalls(d, BddOpType::And, self.and_cache.entries())
        &&& recalls(d, BddOpType::Or, self.or_cache.entries())
        &&& recalls(d, BddOpType::Comp, self.comp_cache.entries())
        &&& all_unused(self.quant_exist_cache.entries())
        &&& all_unused(self.quant_forall_cache.entries())
    }

    /// The caches hold nothing.
    spec fn forgotten(&self) -> bool {
        &&& all_unused(self.not_cache.entries())
        &&& all_unused(self.and_cache.entries())
        &&& all_unused(self.or_cache.entries())
        &&& all_unused(self.comp_cache.entries())
        &&& all_unused(self.quant_exist_cache.entries())
        &&& all_unused(self.quant_forall_cache.entries())
    }

    /// The caches are those of `other`, but for those of two operations.
    spec fn same_caches_but(&self, other: &Self, p: BddOpType, q: BddOpType) -> bool {
        &&& p != BddOpType::Not && q != BddOpType::Not ==> self.not_cache == other.not_cache
        &&& p != BddOpType::And && q != BddOpType::And ==> self.and_cache == other.and_cache
        &&& p != BddOpType::Or && q != BddOpType::Or ==> self.or_cache == other.or_cache
        &&& p != BddOpType::Comp && q != BddOpType::Comp ==> self.comp_cache == other.comp_cache
        &&& self.quant_exist_cache == other.quant_exist_cache
        &&& self.quant_forall_cache == other.quant_forall_cache
    }

    /// The caches are those of `other`.
    spec fn same_caches(&self, other: &Self) -> bool {
        &&& self.not_cache == other.not_cache
        &&& self.and_cache == other.and_cache
        &&& self.or_cache == other.or_cache
        &&& self.comp_cache == other.comp_cache
        &&& self.quant_exist_cache == other.quant_exist_cache
        &&& self.quant_forall_cache == other.quant_forall_cache
    }

    /// The diagram and the caches are those of `before`.
    spec fn untouched(&self, before: &Self) -> bool {
        &&& self.same_caches(before)
        &&& self.model() == before.model()
    }

    /// The cache of an operation was asked for a result and holds it. If it held it before, there
    /// was one hit, and the diagram is as it was.
    spec fn remembers(&self, before: &Self, op: BddOpType, a: Bdd, b: Bdd, ret: Bdd) -> bool {
        &&& self.recalled(op, a, b) == Some(ret)
        &&& self.cache_stat(op).consulted(before.cache_stat(op))
        &&& before.recalled(op, a, b) is Some ==> {
            &&& before.recalled(op, a, b) == Some(ret)
            &&& self.cache_stat(op) == before.cache_stat(op).hit()
            &&& self.model() == before.model()
        }
    }

    /// The same caches hold and have counted the same.
    proof fn lemma_same_caches(&self, other: &Self)
        requires
            self.same_caches(other),
        ensures
            self.same_cached(other),
    {
    }

    /// What a cache remembers of an operation, once the result is referenced.
    proof fn lemma_remembered(
        &self,
        done: &Self,
        start: &Self,
        before: &Self,
        op: BddOpType,
        a: Bdd,
        b: Bdd,
        ret: Bdd,
    )
        requires
            start.model() == before.model().entered(),
            start.cache_stat(op) == entered_stat(before.cache_stat(op), before.model()),
            !before.model().full() ==> start.same_caches(before),
            done.remembers(start, op, a, b, ret),
            self.same_caches(done),
            self.model() == done.model().referenced(ret),
        ensures
            self.remembered(before, op, a, b, ret),
    {
        self.lemma_same_caches(done);
        if !before.model().full() {
            start.lemma_same_caches(before);
        }
    }

    /// What the caches have counted after an operation that uses none of them.
    proof fn lemma_untouched(&self, done: &Self, mid: &Self, before: &Self, d: Diagram)
        requires
            forall|op: BddOpType| #[trigger]
                mid.cache_stat(op) == entered_stat(before.cache_stat(op), d),
            done.same_caches(mid),
            self.same_caches(done),
        ensures
            forall|op: BddOpType| #[trigger]
                self.cache_stat(op) == entered_stat(before.cache_stat(op), d),
    {
        assert forall|op: BddOpType| #[trigger] self.cache_stat(op) == entered_stat(
            before.cache_stat(op),
            d,
        ) by {
            assert(self.cache_stat(op) == mid.cache_stat(op));
        }
    }

    /// What the caches have counted after an operation that uses those of `p` and `q`.
    proof fn lemma_lookups(&self, mid: &Self, before: &Self, d: Diagram, p: BddOpType, q: BddOpType)
        requires
            forall|op: BddOpType| #[trigger]
                mid.cache_stat(op) == entered_stat(before.cache_stat(op), d),
            self.same_caches_but(mid, p, q),
            self.cache_stat(p).looked_up(mid.cache_stat(p)),
            self.cache_stat(q).looked_up(mid.cache_stat(q)),
        ensures
            forall|op: BddOpType| #[trigger]
                self.cache_stat(op).looked_up(entered_stat(before.cache_stat(op), d)),
            forall|op: BddOpType|
                op != p && op != q ==> #[trigger] self.cache_stat(op) == entered_stat(
                    before.cache_stat(op),
                    d,
                ),
    {
        assert forall|op: BddOpType| op != p && op != q implies #[trigger] self.cache_stat(op)
            == entered_stat(before.cache_stat(op), d) by {
            assert(self.cache_stat(op) == mid.cache_stat(op));
        }
        assert forall|op: BddOpType| #[trigger]
            self.cache_stat(op).looked_up(entered_stat(before.cache_stat(op), d)) by {
            assert(mid.cache_stat(op) == entered_stat(before.cache_stat(op), d));
            mid.cache_stat(op).lemma_looked_up_self();
        }
    }

    /// Caches that have forgotten everything remember nothing wrong, and hold nothing.
    proof fn lemma_forgotten(&self, d: Diagram)
        requires
            self.caches_wf(),
            self.forgotten(),
        ensures
            self.caches_right(d),
            forall|op: BddOpType, a: Bdd, b: Bdd| #[trigger] self.recalled(op, a, b) is None,
    {
        lemma_unused_recalls_not(d, self.not_cache.entries());
        lemma_unused_recalls(d, BddOpType::And, self.and_cache.entries());
        lemma_unused_recalls(d, BddOpType::Or, self.or_cache.entries());
        lemma_unused_recalls(d, BddOpType::Comp, self.comp_cache.entries());
        self.not_cache.lemma_entries();
        self.and_cache.lemma_entries();
        self.or_cache.lemma_entries();
        self.comp_cache.lemma_entries();
        self.quant_exist_cache.lemma_entries();
        self.quant_forall_cache.lemma_entries();
        assert forall|op: BddOpType, a: Bdd, b: Bdd| #[trigger]
            self.recalled(op, a, b) is None by {
            let (lo, hi) = if a >= b {
                (b, a)
            } else {
                (a, b)
            };
            lemma_held_not_unused(self.not_cache.entries(), a);
            lemma_held_unused(self.and_cache.entries(), lo, hi);
            lemma_held_unused(self.or_cache.entries(), lo, hi);
            lemma_held_unused(self.comp_cache.entries(), a, b);
            lemma_held_unused(self.quant_exist_cache.entries(), a, b);
            lemma_held_unused(self.quant_forall_cache.entries(), a, b);
        }
    }

    /// What a cache holds is right: operands and result are nodes of the diagram, and the result
    /// is that of the operation. So no cache names a node that was collected.
    pub proof fn law_recalled(&self, op: BddOpType, a: Bdd, b: Bdd, r: Bdd)
        requires
            self.wf(),
            self.recalled(op, a, b) == Some(r),
        ensures
            self.diagram().has_node(a),
            self.diagram().has_node(r),
            op == BddOpType::Not ==> forall|env: Assignment| #[trigger]
                self.diagram().eval(r, env) == !self.diagram().eval(a, env),
            op != BddOpType::Not ==> self.diagram().has_node(b),
            op != BddOpType::Not ==> forall|env: Assignment| #[trigger]
                self.diagram().eval(r, env) == apply(
                    op,
                    self.diagram().eval(a, env),
                    self.diagram().eval(b, env),
                ),
            op != BddOpType::QuantExist,
            op != BddOpType::QuantForall,
    {
        reveal(recalls);
        reveal(recalls_not);
        reveal(computes);
        reveal(negates);
        self.not_cache.lemma_entries();
        self.and_cache.lemma_entries();
        self.or_cache.lemma_entries();
        self.comp_cache.lemma_entries();
        self.quant_exist_cache.lemma_entries();
        self.quant_forall_cache.lemma_entries();
        lemma_held_unused(self.quant_exist_cache.entries(), a, b);
        lemma_held_unused(self.quant_forall_cache.entries(), a, b);
    }

    /// The order of the operands of a conjunction or a disjunction does not matter to its cache. A
    /// negation has only the first operand.
    pub proof fn law_recalled_alike(&self, a: Bdd, b: Bdd)
        ensures
            self.recalled(BddOpType::And, a, b) == self.recalled(BddOpType::And, b, a),
            self.recalled(BddOpType::Or, a, b) == self.recalled(BddOpType::Or, b, a),
            self.recalled(BddOpType::Not, a, b) == self.recalled(BddOpType::Not, a, a),
    {
    }

    /// With the same memory, each cache holds the same for any operands and has counted the same,
    /// and so has the lock.
    pub proof fn law_same_memory(&self, other: &Self, op: BddOpType, a: Bdd, b: Bdd)
        ensures
            self.same_memory(other) ==> {
                &&& self.lock_stats() == other.lock_stats()
                &&& self.cache_stat(op) == other.cache_stat(op)
                &&& self.recalled(op, a, b) == other.recalled(op, a, b)
            },
            self.same_cached(other) ==> {
                &&& self.cache_stat(op) == other.cache_stat(op)
                &&& self.recalled(op, a, b) == other.recalled(op, a, b)
            },
    {
    }

    /// An operation that is asked for once more on the same operands gives the same result, with
    /// one hit in its cache and no miss. All that it changes in the diagram is that the result has
    /// one reference more.
    pub proof fn law_asked_twice(
        &self,
        mid: &Self,
        before: &Self,
        op: BddOpType,
        a: Bdd,
        b: Bdd,
        first: Bdd,
        second: Bdd,
    )
        requires
            mid.remembered(before, op, a, b, first),
            self.remembered(mid, op, a, b, second),
            mid.diagram().nodes.dom().len() < pow2(mid.diagram().table_exp),
        ensures
            mid.recalled(op, a, b) == Some(first),
            self.recalled(op, a, b) == Some(first),
            second == first,
            counts_more(mid.cache_stat(op).unique_hit, 1, self.cache_stat(op).unique_hit),
            counts_more(mid.cache_stat(op).last_hit, 1, self.cache_stat(op).last_hit),
            self.cache_stat(op).unique_miss == mid.cache_stat(op).unique_miss,
            self.cache_stat(op).last_miss == mid.cache_stat(op).last_miss,
            self.cache_stat(op).grow_cnt == mid.cache_stat(op).grow_cnt,
            self.cache_stat(op).clear_cnt == mid.cache_stat(op).clear_cnt,
            self.diagram() == mid.diagram().referenced(first),
    {
        law_cache_counts(mid.cache_stat(op));
    }

    /// An operation has looked into its cache at least once, and the cache holds the result after
    /// it. With fewer nodes than buckets, what the cache held before is the result.
    pub proof fn law_remembered(&self, before: &Self, op: BddOpType, a: Bdd, b: Bdd, ret: Bdd)
        requires
            self.remembered(before, op, a, b, ret),
        ensures
            self.recalled(op, a, b) == Some(ret),
            before.diagram().nodes.dom().len() < pow2(before.diagram().table_exp) ==> {
                &&& exists|hits: nat, misses: nat|
                    hits + misses > 0 && #[trigger] looks(
                        before.cache_stat(op),
                        hits,
                        misses,
                        self.cache_stat(op),
                    )
                &&& before.recalled(op, a, b) is Some ==> before.recalled(op, a, b) == Some(ret)
            },
    {
        law_looked_up(
            entered_stat(before.cache_stat(op), before.diagram()),
            self.cache_stat(op),
        );
    }

    /// Everything but the lock is in order.
    spec fn inner_wf(&self) -> bool {
        &&& self.store_wf()
        &&& self.set.marks() == Set::<Bdd>::empty()
        &&& self.model().wf()
        &&& self.caches_wf()
        &&& self.caches_right(self.model())
    }

    /// The lock, the counts and the clock are those of `other`.
    spec fn same_frame(&self, other: &Self) -> bool {
        &&& self.rw_lock == other.rw_lock
        &&& self.op_stat == other.op_stat
        &&& self.timer == other.timer
    }

    /// The built-in handles are those of `other`.
    spec fn same_builtins(&self, other: &Self) -> bool {
        &&& self.num_vars == other.num_vars
        &&& self.true_id == other.true_id
        &&& self.false_id == other.false_id
        &&& self.vars@ == other.vars@
        &&& self.nvars@ == other.nvars@
        &&& self.free_id == other.free_id
    }

    /// Forgets everything that the caches hold.
    fn invalidate_caches(&mut self)
        requires
            old(self).caches_wf(),
        ensures
            final(self).caches_wf(),
            final(self).not_cache.exp() == old(self).not_cache.exp(),
            final(self).forgotten(),
            forall|op: BddOpType| #[trigger]
                final(self).cache_stat(op) == old(self).cache_stat(op).cleared(),
            final(self).set == old(self).set,
            final(self).same_frame(old(self)),
            final(self).same_builtins(old(self)),
    {
        self.and_cache.invalidate_all();
        self.or_cache.invalidate_all();
        self.comp_cache.invalidate_all();
        self.not_cache.invalidate_all();
        self.quant_exist_cache.invalidate_all();
        self.quant_forall_cache.invalidate_all();
    }

    /// Doubles the caches, which forget everything.
    fn grow_caches(&mut self)
        requires
            old(self).caches_wf(),
            old(self).not_cache.exp() < MAX_SIZE_EXP,
        ensures
            final(self).caches_wf(),
            final(self).not_cache.exp() == old(self).not_cache.exp() + 1,
            final(self).forgotten(),
            forall|op: BddOpType| #[trigger]
                final(self).cache_stat(op) == old(self).cache_stat(op).grown(),
            final(self).set == old(self).set,
            final(self).same_frame(old(self)),
            final(self).same_builtins(old(self)),
    {
        self.and_cache.grow();
        self.or_cache.grow();
        self.comp_cache.grow();
        self.not_cache.grow();
        self.quant_exist_cache.grow();
        self.quant_forall_cache.grow();
    }

    /// Frees what is not marked and takes the marks off.
    fn sweep(&mut self, Ghost(d): Ghost<Diagram>)
        requires
            d.wf(),
            d.grounded(),
            d == old(self).model(),
            old(self).store_wf(),
            old(self).caches_wf(),
            old(self).set.marks() == d.live(),
            old(self).set.mark_count() == d.live().len(),
        ensures
            final(self).inner_wf(),
            final(self).model() == d.collected(),
            final(self).same_frame(old(self)),
            final(self).forgotten(),
            forall|op: BddOpType| #[trigger]
                final(self).cache_stat(op) == old(self).cache_stat(op).cleared(),
    {
        self.set.gc_unmarked();
        self.set.unmark_nodes();
        self.invalidate_caches();
        proof {
            self.lemma_forgotten(d.collected());
            d.law_collected();
            assert(self.model() == d.collected());
        }
    }

    /// Starts an operation: collects or grows a full table, then takes the lock for reading.
    fn enter_op(&mut self)
        requires
            old(self).wf(),
            old(self).diagram().ready(),
        ensures
            final(self).inner_wf(),
            final(self).model() == old(self).diagram().entered(),
            final(self).op_stat.counts_as(
                old(self).tally().after_enter(old(self).diagram()),
            ),
            final(self).op_stat.times_from(old(self).tally(), old(self).diagram()),
            old(self).diagram().full() ==> final(self).forgotten(),
            !old(self).diagram().full() ==> final(self).same_caches(old(self)),
            forall|op: BddOpType| #[trigger]
                final(self).cache_stat(op) == entered_stat(
                    old(self).cache_stat(op),
                    old(self).diagram(),
                ),
            final(self).entered(),
            final(self).lock_stats() == old(self).lock_stats().acquired(),
    {
        let ghost d = self.model();
        proof {
            d.lemma_live();
            d.lemma_entered();
            self.set.lemma_table();
            lemma_size_range(d.table_exp);
            self.not_cache.lemma_entries();
        }
        let ghost mut sized = *self;
        let entry_num: usize = self.set.entry_num();
        let bucket_size: usize = self.set.bucket_size();
        if entry_num >= bucket_size * MAX_LOAD_FACTOR {
            if let WriteAttempt::Locked(guard) = self.rw_lock.try_write() {
                let marked: usize = self.set.mark_nodes();
                if entry_num - marked < bucket_size / MIN_GC_BUCKETS {
                    let micros: u64 = micros_since(&self.timer);
                    self.op_stat.begin_grow(micros);
                    self.set.unmark_nodes();
                    self.set.grow();
                    let ghost small = *self;
                    self.grow_caches();
                    proof {
                        self.lemma_forgotten(d.entered());
                        small.lemma_same_caches(old(self));
                        sized = *self;
                    }
                    let new_bucket_size: usize = self.set.bucket_size();
                    let newed: usize = new_bucket_size.saturating_sub(bucket_size);
                    let micros: u64 = micros_since(&self.timer);
                    self.op_stat.end_grow(micros, newed);
                    proof {
                        lemma_double(d.table_exp);
                        assert(self.model() == d.entered());
                    }
                } else {
                    let micros: u64 = micros_since(&self.timer);
                    self.op_stat.begin_gc(micros);
                    let ghost cluttered = *self;
                    self.sweep(Ghost(d));
                    proof {
                        cluttered.lemma_same_caches(old(self));
                        sized = *self;
                    }
                    let freed: usize = entry_num.saturating_sub(marked);
                    let micros: u64 = micros_since(&self.timer);
                    self.op_stat.end_gc(micros, freed);
                }
                self.rw_lock.release_write(guard);
            }
        }
        proof {
            self.rw_lock.lemma_slots();
        }
        let ghost lock0 = self.rw_lock;
        let entered: bool = self.rw_lock.read_lock(SLOT);
        proof {
            assert(entered);
            assert(self.rw_lock.state().left(SLOT as int).slots =~= lock0.state().slots);
            self.lemma_same_caches(&sized);
            assert forall|op: BddOpType| #[trigger] self.cache_stat(op) == entered_stat(
                old(self).cache_stat(op),
                d,
            ) by {
                assert(self.cache_stat(op) == sized.cache_stat(op));
            }
        }
    }

    /// Ends an operation: gives the lock back.
    fn exit_op(&mut self)
        requires
            old(self).inner_wf(),
            old(self).entered(),
        ensures
            final(self).wf(),
            final(self).diagram() == old(self).model(),
            final(self).tally() == old(self).op_stat,
            final(self).lock_stats() == old(self).lock_stats(),
            final(self).same_caches(old(self)),
    {
        self.rw_lock.read_unlock(SLOT);
    }

    /// The lock is held for reading, by this manager alone.
    spec fn entered(&self) -> bool {
        &&& self.rw_lock.wf()
        &&& !self.rw_lock.state().pending
        &&& !self.rw_lock.state().locked
        &&& self.rw_lock.state().slots[SLOT as int] == 1
        &&& self.rw_lock.state().left(SLOT as int).drained()
    }

    /// Makes a node, or finds it if it is there.
    fn make_node(&mut self, level: usize, low: Bdd, high: Bdd) -> (ret: Bdd)
        requires
            old(self).inner_wf(),
            old(self).model().has_node(low),
            old(self).model().has_node(high),
            low != high ==> level < old(self).model().num_vars(),
            low != high ==> level < old(self).model().top(low),
            low != high ==> level < old(self).model().top(high),
        ensures
            final(self).inner_wf(),
            final(self).same_frame(old(self)),
            final(self).same_caches(old(self)),
            made(final(self).model(), old(self).model(), level as nat, low, high, ret),
    {
        let ghost d = self.model();
        if low == high {
            proof {
                d.lemma_grown_self(low);
            }
            return low;
        }
        let mut ptr: Bdd = self.free_id;
        if ptr == NULL {
            ptr = self.set.new_node(Node::new(0));
            self.free_id = ptr;
        }
        assert(self.model() == d);
        self.set.refill(ptr, level, low, high);
        assert(self.model() == d);
        let (present, inserted) = self.set.get_or_insert(ptr);
        if !inserted {
            assert(self.model() == d);
            proof {
                assert(d.has_node(present));
                assert(d.nodes[present].key() == (level, low, high));
                if d.terminal(present) {
                    assert(d.is_vertex(d.true_id, 1, NULL, NULL));
                    assert(d.is_vertex(d.false_id, 0, NULL, NULL));
                }
                d.lemma_grown_self(present);
            }
            present
        } else {
            proof {
                assert forall|x: Bdd| #[trigger] d.has_node(x) implies d.nodes[x].key() != (
                    level,
                    low,
                    high,
                ) by {
                    assert(d.nodes.contains_key(x));
                }
                d.lemma_with_node(ptr, level, low, high);
                assert(self.model() == d.with_node(ptr, level, low, high));
                self.lemma_caches_extend(d);
                assert(self.model().is_vertex(d.true_id, 1, NULL, NULL));
                assert(self.model().is_vertex(d.false_id, 0, NULL, NULL));
            }
            let ghost e = self.model();
            self.free_id = self.set.new_node(Node::new(0));
            assert(self.model() == e);
            ptr
        }
    }

    /// The caches stay right while the diagram is extended.
    proof fn lemma_caches_extend(&self, before: Diagram)
        requires
            before.wf(),
            self.model().wf(),
            self.model().extends(before),
            self.caches_right(before),
        ensures
            self.caches_right(self.model()),
    {
        let d = self.model();
        lemma_recalls_not_extends(d, before, self.not_cache.entries());
        lemma_recalls_extends(d, before, BddOpType::And, self.and_cache.entries());
        lemma_recalls_extends(d, before, BddOpType::Or, self.or_cache.entries());
        lemma_recalls_extends(d, before, BddOpType::Comp, self.comp_cache.entries());
    }

    /// Adds one reference to `bdd`.
    pub fn ref_bdd(&mut self, bdd: Bdd)
        requires
            old(self).wf(),
            old(self).diagram().has_node(bdd),
        ensures
            final(self).wf(),
            final(self).diagram() == old(self).diagram().referenced(bdd),
            final(self).tally() == old(self).tally(),
            final(self).same_memory(old(self)),
    {
        self.ref_inner(bdd);
    }

    fn ref_inner(&mut self, bdd: Bdd)
        requires
            old(self).inner_wf(),
            old(self).model().has_node(bdd),
        ensures
            final(self).inner_wf(),
            final(self).same_frame(old(self)),
            final(self).same_caches(old(self)),
            final(self).model() == old(self).model().referenced(bdd),
    {
        let ghost d = self.model();
        self.set.ref_node(bdd);
        proof {
            let refs = d.nodes[bdd].refs.wrapping_add(1);
            d.lemma_with_refs(bdd, refs);
            assert(self.model() == d.with_refs(bdd, refs));
            self.lemma_caches_extend(d);
        }
    }

    fn deref_inner(&mut self, bdd: Bdd)
        requires
            old(self).inner_wf(),
            old(self).model().has_node(bdd),
        ensures
            final(self).inner_wf(),
            final(self).same_frame(old(self)),
            final(self).same_caches(old(self)),
            final(self).model() == old(self).model().dereferenced(bdd),
    {
        let ghost d = self.model();
        self.set.deref_node(bdd);
        proof {
            let refs = d.nodes[bdd].refs.wrapping_sub(1);
            d.lemma_with_refs(bdd, refs);
            assert(self.model() == d.with_refs(bdd, refs));
            self.lemma_caches_extend(d);
        }
    }
}

impl BddOp for Manager {
    closed spec fn wf(&self) -> bool {
        &&& self.inner_wf()
        &&& self.rw_lock.wf()
        &&& self.rw_lock.state().idle()
    }

    closed spec fn diagram(&self) -> Diagram {
        self.model()
    }

    closed spec fn tally(&self) -> OpStat {
        self.op_stat
    }

    proof fn law_diagram(&self) {
    }

    fn not(&mut self, bdd: Bdd) -> (ret: Bdd)
        ensures
            final(self).lock_stats() == old(self).lock_stats().acquired(),
            forall|op: BddOpType| #[trigger]
                final(self).cache_stat(op).looked_up(
                    entered_stat(old(self).cache_stat(op), old(self).diagram()),
                ),
            forall|op: BddOpType|
                op != BddOpType::Not ==> #[trigger] final(self).cache_stat(op) == entered_stat(
                    old(self).cache_stat(op),
                    old(self).diagram(),
                ),
            !old(self).diagram().terminal(bdd) ==> final(self).remembered(
                old(self),
                BddOpType::Not,
                bdd,
                bdd,
                ret,
            ),
            old(self).diagram().terminal(bdd) ==> {
                &&& final(self).diagram() == old(self).diagram().entered().referenced(ret)
                &&& forall|op: BddOpType| #[trigger]
                    final(self).cache_stat(op) == entered_stat(
                        old(self).cache_stat(op),
                        old(self).diagram(),
                    )
            },
    {
        let ghost d = self.model();
        self.enter_op();
        let ghost mid = *self;
        self.op_stat.count(BddOpType::Not);
        let ghost start = *self;
        let ret: Bdd = self._not_rec(bdd);
        let ghost done = *self;
        let ghost g = self.model();
        self.ref_inner(ret);
        self.exit_op();
        proof {
            lemma_not_concludes(d, g, bdd, ret);
            law_operation(d, self.model(), ret, Set::empty());
            self.lemma_lookups(&mid, old(self), d, BddOpType::Not, BddOpType::Not);
            if !d.terminal(bdd) {
                assert(start.cache_stat(BddOpType::Not) == mid.cache_stat(BddOpType::Not));
                self.lemma_remembered(&done, &start, old(self), BddOpType::Not, bdd, bdd, ret);
            } else {
                self.lemma_untouched(&done, &mid, old(self), d);
            }
        }
        ret
    }

    fn and(&mut self, lhs: Bdd, rhs: Bdd) -> (ret: Bdd)
        ensures
            final(self).lock_stats() == old(self).lock_stats().acquired(),
            forall|op: BddOpType| #[trigger]
                final(self).cache_stat(op).looked_up(
                    entered_stat(old(self).cache_stat(op), old(self).diagram()),
                ),
            forall|op: BddOpType|
                op != BddOpType::And ==> #[trigger] final(self).cache_stat(op) == entered_stat(
                    old(self).cache_stat(op),
                    old(self).diagram(),
                ),
            old(self).diagram().branches(lhs, rhs) ==> final(self).remembered(
                old(self),
                BddOpType::And,
                lhs,
                rhs,
                ret,
            ),
            !old(self).diagram().branches(lhs, rhs) ==> {
                &&& final(self).diagram() == old(self).diagram().entered().referenced(ret)
                &&& forall|op: BddOpType| #[trigger]
                    final(self).cache_stat(op) == entered_stat(
                        old(self).cache_stat(op),
                        old(self).diagram(),
                    )
            },
    {
        let ghost d = self.model();
        self.enter_op();
        let ghost mid = *self;
        self.op_stat.count(BddOpType::And);
        let ghost start = *self;
        let ret: Bdd = self._and_rec(lhs, rhs);
        let ghost done = *self;
        let ghost g = self.model();
        self.ref_inner(ret);
        self.exit_op();
        proof {
            lemma_concludes(d, g, BddOpType::And, lhs, rhs, ret);
            law_operation(d, self.model(), ret, Set::empty());
            self.lemma_lookups(&mid, old(self), d, BddOpType::And, BddOpType::And);
            if d.branches(lhs, rhs) {
                assert(start.cache_stat(BddOpType::And) == mid.cache_stat(BddOpType::And));
                self.lemma_remembered(&done, &start, old(self), BddOpType::And, lhs, rhs, ret);
            } else {
                self.lemma_untouched(&done, &mid, old(self), d);
            }
            assert forall|env: Assignment| #[trigger] self.model().eval(ret, env) == apply(
                BddOpType::And,
                d.eval(lhs, env),
                d.eval(rhs, env),
            ) by {
                assert(g.referenced(ret).eval(ret, env) == apply(
                    BddOpType::And,
                    d.eval(lhs, env),
                    d.eval(rhs, env),
                ));
            }
        }
        ret
    }

    fn or(&mut self, lhs: Bdd, rhs: Bdd) -> (ret: Bdd)
        ensures
            final(self).lock_stats() == old(self).lock_stats().acquired(),
            forall|op: BddOpType| #[trigger]
                final(self).cache_stat(op).looked_up(
                    entered_stat(old(self).cache_stat(op), old(self).diagram()),
                ),
            forall|op: BddOpType|
                op != BddOpType::Or ==> #[trigger] final(self).cache_stat(op) == entered_stat(
                    old(self).cache_stat(op),
                    old(self).diagram(),
                ),
            old(self).diagram().branches(lhs, rhs) ==> final(self).remembered(
                old(self),
                BddOpType::Or,
                lhs,
                rhs,
                ret,
            ),
            !old(self).diagram().branches(lhs, rhs) ==> {
                &&& final(self).diagram() == old(self).diagram().entered().referenced(ret)
                &&& forall|op: BddOpType| #[trigger]
                    final(self).cache_stat(op) == entered_stat(
                        old(self).cache_stat(op),
                        old(self).diagram(),
                    )
            },
    {
        let ghost d = self.model();
        self.enter_op();
        let ghost mid = *self;
        self.op_stat.count(BddOpType::Or);
        let ghost start = *self;
        let ret: Bdd = self._or_rec(lhs, rhs);
        let ghost done = *self;
        let ghost g = self.model();
        self.ref_inner(ret);
        self.exit_op();
        proof {
            lemma_concludes(d, g, BddOpType::Or, lhs, rhs, ret);
            law_operation(d, self.model(), ret, Set::empty());
            self.lemma_lookups(&mid, old(self), d, BddOpType::Or, BddOpType::Or);
            if d.branches(lhs, rhs) {
                assert(start.cache_stat(BddOpType::Or) == mid.cache_stat(BddOpType::Or));
                self.lemma_remembered(&done, &start, old(self), BddOpType::Or, lhs, rhs, ret);
            } else {
                self.lemma_untouched(&done, &mid, old(self), d);
            }
            assert forall|env: Assignment| #[trigger] self.model().eval(ret, env) == apply(
                BddOpType::Or,
                d.eval(lhs, env),
                d.eval(rhs, env),
            ) by {
                assert(g.referenced(ret).eval(ret, env) == apply(
                    BddOpType::Or,
                    d.eval(lhs, env),
                    d.eval(rhs, env),
                ));
            }
        }
        ret
    }

    fn comp(&mut self, lhs: Bdd, rhs: Bdd) -> (ret: Bdd)
        ensures
            final(self).lock_stats() == old(self).lock_stats().acquired(),
            forall|op: BddOpType| #[trigger]
                final(self).cache_stat(op).looked_up(
                    entered_stat(old(self).cache_stat(op), old(self).diagram()),
                ),
            forall|op: BddOpType|
                op != BddOpType::Comp && op != BddOpType::Not ==> #[trigger] final(self).cache_stat(
                    op,
                ) == entered_stat(old(self).cache_stat(op), old(self).diagram()),
            old(self).diagram().branches(lhs, rhs) ==> final(self).remembered(
                old(self),
                BddOpType::Comp,
                lhs,
                rhs,
                ret,
            ),
            lhs == rhs || lhs == old(self).diagram().false_id || old(self).diagram().terminal(rhs)
                ==> {
                &&& final(self).diagram() == old(self).diagram().entered().referenced(ret)
                &&& forall|op: BddOpType| #[trigger]
                    final(self).cache_stat(op) == entered_stat(
                        old(self).cache_stat(op),
                        old(self).diagram(),
                    )
            },
            lhs == old(self).diagram().true_id && !old(self).diagram().terminal(rhs) ==> {
                &&& final(self).remembered(old(self), BddOpType::Not, rhs, rhs, ret)
                &&& forall|op: BddOpType|
                    op != BddOpType::Not ==> #[trigger] final(self).cache_stat(op) == entered_stat(
                        old(self).cache_stat(op),
                        old(self).diagram(),
                    )
            },
    {
        let ghost d = self.model();
        self.enter_op();
        let ghost mid = *self;
        self.op_stat.count(BddOpType::Comp);
        let ghost start = *self;
        let ret: Bdd = self._comp_rec(lhs, rhs);
        let ghost done = *self;
        let ghost g = self.model();
        self.ref_inner(ret);
        self.exit_op();
        proof {
            lemma_concludes(d, g, BddOpType::Comp, lhs, rhs, ret);
            law_operation(d, self.model(), ret, Set::empty());
            self.lemma_lookups(&mid, old(self), d, BddOpType::Comp, BddOpType::Not);
            if d.branches(lhs, rhs) {
                assert(start.cache_stat(BddOpType::Comp) == mid.cache_stat(BddOpType::Comp));
                self.lemma_remembered(&done, &start, old(self), BddOpType::Comp, lhs, rhs, ret);
            }
            if lhs == rhs || lhs == d.false_id || d.terminal(rhs) {
                self.lemma_untouched(&done, &mid, old(self), d);
            } else if lhs == d.true_id {
                assert(start.cache_stat(BddOpType::Not) == mid.cache_stat(BddOpType::Not));
                self.lemma_remembered(&done, &start, old(self), BddOpType::Not, rhs, rhs, ret);
                assert(self.cache_stat(BddOpType::Comp) == mid.cache_stat(BddOpType::Comp));
            }
            assert forall|env: Assignment| #[trigger] self.model().eval(ret, env) == apply(
                BddOpType::Comp,
                d.eval(lhs, env),
                d.eval(rhs, env),
            ) by {
                assert(g.referenced(ret).eval(ret, env) == apply(
                    BddOpType::Comp,
                    d.eval(lhs, env),
                    d.eval(rhs, env),
                ));
            }
        }
        ret
    }
}

impl BddManager for Manager {
    fn init(table_size: usize, cache_size: usize, var_num: usize) -> (r: Self)
        ensures
            r.lock_stats() == RwLockStat::zero(),
            forall|op: BddOpType| #[trigger] r.cache_stat(op) == CacheStat::zero(),
            forall|op: BddOpType, a: Bdd, b: Bdd| #[trigger] r.recalled(op, a, b) is None,
    {
        let mut set = LockFreeSet::with_capacity(table_size);
        let ghost exp = set.exp();
        let true_id: Bdd = plant(&mut set, Node::new(1));
        let false_id: Bdd = plant(&mut set, Node::new(0));
        let mut vars: Vec<Bdd> = Vec::new();
        let mut nvars: Vec<Bdd> = Vec::new();
        let mut i: usize = 0;
        assert(set.table().dom() =~= set![true_id, false_id]);
        while i < var_num
            invariant
                i <= var_num,
                set.wf(),
                set.marks() == Set::<Bdd>::empty(),
                set.exp() == exp,
                planted(set.table(), true_id, false_id, vars@, nvars@, i as int),
            decreases var_num - i,
        {
            proof {
                set.lemma_table();
            }
            let ghost t = set.table();
            let ghost (vars0, nvars0) = (vars@, nvars@);
            let var_id: Bdd = plant(&mut set, Node::from(i, false_id, true_id));
            let nvar_id: Bdd = plant(&mut set, Node::from(i, true_id, false_id));
            vars.push(var_id);
            nvars.push(nvar_id);
            proof {
                lemma_planted(t, true_id, false_id, vars0, nvars0, i, var_id, nvar_id);
            }
            i = i + 1;
        }
        proof {
            set.lemma_table();
        }
        let r = Manager {
            set,
            rw_lock: DistributedRwLock::default(),
            num_vars: var_num,
            true_id,
            false_id,
            vars,
            nvars,
            free_id: NULL,
            not_cache: LockFreeCache::with_capacity(cache_size),
            and_cache: LockFreeCache::with_capacity(cache_size),
            or_cache: LockFreeCache::with_capacity(cache_size),
            comp_cache: LockFreeCache::with_capacity(cache_size),
            quant_exist_cache: LockFreeCache::with_capacity(cache_size),
            quant_forall_cache: LockFreeCache::with_capacity(cache_size),
            op_stat: OpStat::default(),
            timer: thread_now(),
        };
        proof {
            r.set.lemma_table();
            assert(planted(r.set.table(), true_id, false_id, r.vars@, r.nvars@, var_num as int));
            lemma_planted_wf(r.model());
            let exp = r.not_cache.exp();
            lemma_size_unique(r.and_cache.exp(), exp, cache_size);
            lemma_size_unique(r.or_cache.exp(), exp, cache_size);
            lemma_size_unique(r.comp_cache.exp(), exp, cache_size);
            lemma_size_unique(r.quant_exist_cache.exp(), exp, cache_size);
            lemma_size_unique(r.quant_forall_cache.exp(), exp, cache_size);
            r.lemma_forgotten(r.model());
        }
        r
    }

    fn get_var(&self, var: usize) -> (r: Bdd) {
        let r: Bdd = self.vars[var];
        proof {
            let d = self.model();
            assert forall|env: Assignment| #[trigger] d.eval(r, env) == env(var as nat) by {
                d.law_literals(var as int, env);
            }
            d.law_literals(var as int, |k: nat| true);
        }
        r
    }

    fn get_nvar(&self, var: usize) -> (r: Bdd) {
        let r: Bdd = self.nvars[var];
        proof {
            let d = self.model();
            assert forall|env: Assignment| #[trigger] d.eval(r, env) == !env(var as nat) by {
                d.law_literals(var as int, env);
            }
            d.law_literals(var as int, |k: nat| true);
        }
        r
    }

    fn get_true(&self) -> (r: Bdd) {
        self.true_id
    }

    fn get_false(&self) -> (r: Bdd) {
        self.false_id
    }

    fn get_node_num(&self) -> (r: usize) {
        self.set.entry_num()
    }

    fn deref_bdd(&mut self, bdd: Bdd)
        ensures
            final(self).same_memory(old(self)),
    {
        self.deref_inner(bdd);
    }

    fn gc(&mut self) -> (marked: usize)
        ensures
            final(self).lock_stats() == old(self).lock_stats(),
            forall|op: BddOpType| #[trigger]
                final(self).cache_stat(op) == old(self).cache_stat(op).cleared(),
            forall|op: BddOpType, a: Bdd, b: Bdd| #[trigger]
                final(self).recalled(op, a, b) is None,
    {
        let ghost d = self.model();
        proof {
            d.lemma_live();
        }
        if let WriteAttempt::Locked(guard) = self.rw_lock.try_write() {
            let micros: u64 = micros_since(&self.timer);
            self.op_stat.begin_gc(micros);
            let before: usize = self.set.entry_num();
            let marked: usize = self.set.mark_nodes();
            self.sweep(Ghost(d));
            let ghost swept = *self;
            let freed: usize = before.saturating_sub(marked);
            let micros: u64 = micros_since(&self.timer);
            self.op_stat.end_gc(micros, freed);
            self.set.clear_needs_gc();
            assert(self.model() == d.collected());
            self.rw_lock.release_write(guard);
            assert(forall|op: BddOpType| #[trigger] self.cache_stat(op) == swept.cache_stat(op));
            proof {
                self.lemma_forgotten(self.model());
                law_collection(d);
            }
            marked
        } else {
            0
        }
    }
}

} // verus!
