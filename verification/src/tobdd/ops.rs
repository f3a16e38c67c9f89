//! The recursive operations.

use vstd::prelude::*;

use super::Manager;
use crate::cache::{entry_of, Cache, CacheStat, LockFreeCache};
use crate::diagram::{Assignment, Diagram};
use crate::hash::{mix2, splitmix64, splitmix64_2};
use crate::memo::{
    apply, computes, held, lemma_computes_extends, lemma_computes_step, lemma_negates_extends,
    lemma_negates_step, lemma_sides, least, makes, negates, recalls, recalls_not, side,
};
use crate::node::{Bdd, NULL};
use crate::set::NodeSet;
use crate::BddOpType;

verus! {

/// What a cache remembers of an operation; no node if nothing.
fn recall(
    cache: &mut LockFreeCache<(Bdd, Bdd), Bdd>,
    hash: u64,
    lhs: Bdd,
    rhs: Bdd,
    Ghost(d): Ghost<Diagram>,
    Ghost(op): Ghost<BddOpType>,
) -> (r: Bdd)
    requires
        old(cache).wf(),
        hash == mix2(lhs as u64, rhs as u64),
        recalls(d, op, old(cache).entries()),
    ensures
        final(cache).wf(),
        final(cache).exp() == old(cache).exp(),
        final(cache).entries() == old(cache).entries(),
        r == (match held(old(cache).entries(), lhs, rhs) {
            Some(value) => value,
            None => NULL,
        }),
        r != NULL ==> computes(d, op, lhs, rhs, r),
        r != NULL ==> final(cache).stats() == old(cache).stats().hit(),
        final(cache).stats() == old(cache).stats().hit() || final(cache).stats() == old(
            cache,
        ).stats().missed(),
{
    proof {
        reveal(recalls);
        cache.lemma_entries();
    }
    cache.get(hash, &(lhs, rhs))
}

/// Lets a cache remember an operation.
fn remember(
    cache: &mut LockFreeCache<(Bdd, Bdd), Bdd>,
    hash: u64,
    lhs: Bdd,
    rhs: Bdd,
    r: Bdd,
    Ghost(d): Ghost<Diagram>,
    Ghost(op): Ghost<BddOpType>,
)
    requires
        old(cache).wf(),
        hash == mix2(lhs as u64, rhs as u64),
        recalls(d, op, old(cache).entries()),
        computes(d, op, lhs, rhs, r),
    ensures
        final(cache).wf(),
        final(cache).exp() == old(cache).exp(),
        final(cache).stats() == old(cache).stats(),
        final(cache).entries() == old(cache).entries().update(
            entry_of(hash, old(cache).entries().len()),
            ((lhs, rhs), r),
        ),
        recalls(d, op, final(cache).entries()),
        r != NULL ==> held(final(cache).entries(), lhs, rhs) == Some(r),
{
    proof {
        reveal(recalls);
        cache.lemma_entries();
    }
    cache.insert(hash, (lhs, rhs), r);
}

/// An operation on two nodes is done once the same operation on their sides is done and the
/// results are made into a node.
proof fn lemma_apply(
    d0: Diagram,
    d1: Diagram,
    d2: Diagram,
    d3: Diagram,
    op: BddOpType,
    lhs: Bdd,
    rhs: Bdd,
    l: nat,
    low: Bdd,
    high: Bdd,
    r: Bdd,
)
    requires
        d0.wf(),
        d0.has_node(lhs),
        d0.has_node(rhs),
        l == least(d0.top(lhs), d0.top(rhs)),
        l < d0.num_vars(),
        d1.grown(d0, low),
        d2.grown(d1, high),
        d3.grown(d2, r),
        computes(d1, op, side(d0, lhs, l, false), side(d0, rhs, l, false), low),
        computes(d2, op, side(d0, lhs, l, true), side(d0, rhs, l, true), high),
        makes(d3, l, low, high, r),
    ensures
        d3.grown(d0, r),
        computes(d3, op, lhs, rhs, r),
{
    d3.lemma_grown_join(d2, d1, d0, low, high, r);
    d3.lemma_extends_trans(d2, d1);
    lemma_computes_extends(
        d3,
        d1,
        op,
        side(d0, lhs, l, false),
        side(d0, rhs, l, false),
        low,
    );
    lemma_computes_extends(d3, d2, op, side(d0, lhs, l, true), side(d0, rhs, l, true), high);
    assert(d0.has_node(lhs) && d0.has_node(rhs));
    lemma_computes_step(d3, op, lhs, rhs, l, low, high, r);
}

/// The sides of two nodes at the first variable that one of them asks for: nodes that ask for
/// later ones.
proof fn lemma_descend(d: Diagram, lhs: Bdd, rhs: Bdd, l: nat)
    requires
        d.wf(),
        d.has_node(lhs),
        d.has_node(rhs),
        l == least(d.top(lhs), d.top(rhs)),
        l < d.num_vars(),
    ensures
        forall|value: bool| #[trigger] d.has_node(side(d, lhs, l, value)),
        forall|value: bool| #[trigger] d.has_node(side(d, rhs, l, value)),
        forall|value: bool| #[trigger] d.top(side(d, lhs, l, value)) > l,
        forall|value: bool| #[trigger] d.top(side(d, rhs, l, value)) > l,
        forall|value: bool| d.rank(#[trigger] side(d, lhs, l, value)) + d.rank(
            side(d, rhs, l, value),
        ) < d.rank(lhs) + d.rank(rhs),
{
    let env = |k: nat| true;
    lemma_sides(d, lhs, l, env);
    lemma_sides(d, rhs, l, env);
}

/// A result asks for no variable before the operands do.
proof fn lemma_computes_top(d: Diagram, op: BddOpType, a: Bdd, b: Bdd, r: Bdd)
    requires
        computes(d, op, a, b, r),
    ensures
        d.has_node(r),
        d.top(r) >= least(d.top(a), d.top(b)),
{
    reveal(computes);
}

/// One lookup, and some more.
proof fn lemma_lookups(s0: CacheStat, s1: CacheStat, s2: CacheStat, s3: CacheStat)
    requires
        s1 == s0.hit() || s1 == s0.missed(),
        s2.looked_up(s1),
        s3.looked_up(s2),
    ensures
        s3.consulted(s0),
        s3.looked_up(s0),
{
    s0.lemma_looked_up_self();
    s0.lemma_looked_up_more(s0);
    s3.lemma_looked_up_trans(s2, s1);
    s3.lemma_looked_up_trans(s1, s0);
}

/// One lookup.
proof fn lemma_lookup(s0: CacheStat)
    ensures
        s0.looked_up(s0),
        s0.hit().looked_up(s0),
        s0.missed().looked_up(s0),
        s0.hit().consulted(s0),
{
    s0.hit().lemma_looked_up_self();
    s0.lemma_looked_up_self();
    s0.lemma_looked_up_more(s0);
}

impl Manager {
    /// The negation of a node.
    pub(super) fn _not_rec(&mut self, bdd: Bdd) -> (ret: Bdd)
        requires
            old(self).inner_wf(),
            old(self).model().has_node(bdd),
        ensures
            final(self).inner_wf(),
            final(self).same_frame(old(self)),
            final(self).model().grown(old(self).model(), ret),
            negates(final(self).model(), bdd, ret),
            final(self).same_caches_but(old(self), BddOpType::Not, BddOpType::Not),
            final(self).cache_stat(BddOpType::Not).looked_up(old(self).cache_stat(BddOpType::Not)),
            !old(self).model().terminal(bdd) ==> final(self).remembers(
                old(self),
                BddOpType::Not,
                bdd,
                bdd,
                ret,
            ),
            old(self).model().terminal(bdd) ==> final(self).untouched(old(self)),
        decreases old(self).model().rank(bdd),
    {
        let ghost d0 = self.model();
        let ghost stat0 = self.not_cache.stats();
        proof {
            lemma_lookup(stat0);
        }
        if bdd == self.true_id {
            proof {
                d0.lemma_grown_self(d0.false_id);
                reveal(negates);
            }
            return self.false_id;
        }
        if bdd == self.false_id {
            proof {
                d0.lemma_grown_self(d0.true_id);
                reveal(negates);
            }
            return self.true_id;
        }
        let hash: u64 = splitmix64(bdd as u64);
        proof {
            self.not_cache.lemma_entries();
            reveal(recalls_not);
        }
        let cached: Bdd = self.not_cache.get(hash, &bdd);
        let ghost stat1 = self.not_cache.stats();
        assert(self.model() == d0);
        if cached != NULL {
            proof {
                reveal(negates);
                d0.lemma_grown_self(cached);
            }
            return cached;
        }
        proof {
            d0.lemma_decides(bdd);
        }
        let (level, low, high) = self.set.vertex(bdd);
        let f_low: Bdd = self._not_rec(low);
        let ghost d1 = self.model();
        let ghost stat2 = self.not_cache.stats();
        assert(d0.has_node(high));
        let f_high: Bdd = self._not_rec(high);
        let ghost d2 = self.model();
        proof {
            reveal(negates);
            d2.lemma_extends_trans(d1, d0);
            assert(d1.has_node(f_low) && d0.has_node(low) && d1.has_node(high));
        }
        let res: Bdd = self.make_node(level, f_low, f_high);
        let ghost d3 = self.model();
        proof {
            d3.lemma_grown_join(d2, d1, d0, f_low, f_high, res);
            d3.lemma_extends_trans(d2, d1);
            lemma_negates_extends(d3, d1, low, f_low);
            lemma_negates_extends(d3, d2, high, f_high);
            lemma_negates_step(d3, bdd, f_low, f_high, res);
            lemma_lookups(stat0, stat1, stat2, self.not_cache.stats());
            self.not_cache.lemma_entries();
        }
        self.not_cache.insert(hash, bdd, res);
        proof {
            assert(self.model() == d3);
            reveal(recalls_not);
        }
        res
    }

    /// The conjunction of two nodes.
    pub(super) fn _and_rec(&mut self, lhs: Bdd, rhs: Bdd) -> (ret: Bdd)
        requires
            old(self).inner_wf(),
            old(self).model().has_node(lhs),
            old(self).model().has_node(rhs),
        ensures
            final(self).inner_wf(),
            final(self).same_frame(old(self)),
            final(self).model().grown(old(self).model(), ret),
            computes(final(self).model(), BddOpType::And, lhs, rhs, ret),
            final(self).same_caches_but(old(self), BddOpType::And, BddOpType::And),
            final(self).cache_stat(BddOpType::And).looked_up(old(self).cache_stat(BddOpType::And)),
            old(self).model().branches(lhs, rhs) ==> final(self).remembers(
                old(self),
                BddOpType::And,
                lhs,
                rhs,
                ret,
            ),
            !old(self).model().branches(lhs, rhs) ==> final(self).untouched(old(self)),
        decreases old(self).model().rank(lhs) + old(self).model().rank(rhs),
    {
        let ghost d0 = self.model();
        let ghost op = BddOpType::And;
        let ghost stat0 = self.and_cache.stats();
        proof {
            lemma_lookup(stat0);
        }
        let ghost (a, b) = (lhs, rhs);
        let (lhs, rhs) = if lhs >= rhs {
            (rhs, lhs)
        } else {
            (lhs, rhs)
        };
        assert forall|d: Diagram, r: Bdd| #[trigger] computes(d, op, lhs, rhs, r) implies computes(
            d,
            op,
            a,
            b,
            r,
        ) by {
            reveal(computes);
        }
        if lhs == rhs || rhs == self.true_id {
            proof {
                d0.lemma_grown_self(lhs);
                d0.lemma_top(lhs);
                assert(computes(d0, op, lhs, rhs, lhs)) by {
                    reveal(computes);
                }
            }
            return lhs;
        }
        if lhs == self.false_id || rhs == self.false_id {
            proof {
                d0.lemma_grown_self(self.false_id);
                d0.lemma_top(lhs);
                assert(computes(d0, op, lhs, rhs, self.false_id)) by {
                    reveal(computes);
                }
            }
            return self.false_id;
        }
        if lhs == self.true_id {
            proof {
                d0.lemma_grown_self(rhs);
                d0.lemma_top(lhs);
                assert(computes(d0, op, lhs, rhs, rhs)) by {
                    reveal(computes);
                }
            }
            return rhs;
        }
        let hash: u64 = splitmix64_2(lhs as u64, rhs as u64);
        let bdd: Bdd = recall(&mut self.and_cache, hash, lhs, rhs, Ghost(d0), Ghost(op));
        let ghost stat1 = self.and_cache.stats();
        assert(self.model() == d0);
        if bdd != NULL {
            proof {
                lemma_computes_top(d0, op, lhs, rhs, bdd);
                d0.lemma_grown_self(bdd);
            }
            return bdd;
        }
        proof {
            d0.lemma_decides(lhs);
            d0.lemma_decides(rhs);
        }
        let (lhs_level, lhs_low, lhs_high) = self.set.vertex(lhs);
        let (rhs_level, rhs_low, rhs_high) = self.set.vertex(rhs);
        let ghost l = least(d0.top(lhs), d0.top(rhs));
        proof {
            lemma_descend(d0, lhs, rhs, l);
        }
        let (level, lhs0, lhs1, rhs0, rhs1) = if lhs_level < rhs_level {
            (lhs_level, lhs_low, lhs_high, rhs, rhs)
        } else if lhs_level > rhs_level {
            (rhs_level, lhs, lhs, rhs_low, rhs_high)
        } else {
            (lhs_level, lhs_low, lhs_high, rhs_low, rhs_high)
        };
        assert(level == l);
        assert(lhs0 == side(d0, lhs, l, false) && lhs1 == side(d0, lhs, l, true));
        assert(rhs0 == side(d0, rhs, l, false) && rhs1 == side(d0, rhs, l, true));
        let f_low: Bdd = self._and_rec(lhs0, rhs0);
        let ghost d1 = self.model();
        let ghost stat2 = self.and_cache.stats();
        assert(d0.has_node(lhs1) && d0.has_node(rhs1));
        let f_high: Bdd = self._and_rec(lhs1, rhs1);
        let ghost d2 = self.model();
        proof {
            d2.lemma_extends_trans(d1, d0);
            lemma_computes_top(d1, op, lhs0, rhs0, f_low);
            lemma_computes_top(d2, op, lhs1, rhs1, f_high);
            assert(d0.has_node(lhs0) && d0.has_node(rhs0));
            assert(d1.has_node(f_low));
        }
        let res: Bdd = self.make_node(level, f_low, f_high);
        let ghost d3 = self.model();
        proof {
            lemma_apply(d0, d1, d2, d3, op, lhs, rhs, l, f_low, f_high, res);
            lemma_lookups(stat0, stat1, stat2, self.and_cache.stats());
        }
        remember(&mut self.and_cache, hash, lhs, rhs, res, Ghost(d3), Ghost(op));
        assert(self.model() == d3);
        res
    }

    /// The disjunction of two nodes.
    pub(super) fn _or_rec(&mut self, lhs: Bdd, rhs: Bdd) -> (ret: Bdd)
        requires
            old(self).inner_wf(),
            old(self).model().has_node(lhs),
            old(self).model().has_node(rhs),
        ensures
            final(self).inner_wf(),
            final(self).same_frame(old(self)),
            final(self).model().grown(old(self).model(), ret),
            computes(final(self).model(), BddOpType::Or, lhs, rhs, ret),
            final(self).same_caches_but(old(self), BddOpType::Or, BddOpType::Or),
            final(self).cache_stat(BddOpType::Or).looked_up(old(self).cache_stat(BddOpType::Or)),
            old(self).model().branches(lhs, rhs) ==> final(self).remembers(
                old(self),
                BddOpType::Or,
                lhs,
                rhs,
                ret,
            ),
            !old(self).model().branches(lhs, rhs) ==> final(self).untouched(old(self)),
        decreases old(self).model().rank(lhs) + old(self).model().rank(rhs),
    {
        let ghost d0 = self.model();
        let ghost op = BddOpType::Or;
        let ghost stat0 = self.or_cache.stats();
        proof {
            lemma_lookup(stat0);
        }
        let ghost (a, b) = (lhs, rhs);
        let (lhs, rhs) = if lhs >= rhs {
            (rhs, lhs)
        } else {
            (lhs, rhs)
        };
        assert forall|d: Diagram, r: Bdd| #[trigger] computes(d, op, lhs, rhs, r) implies computes(
            d,
            op,
            a,
            b,
            r,
        ) by {
            reveal(computes);
        }
        if lhs == rhs || rhs == self.false_id {
            proof {
                d0.lemma_grown_self(lhs);
                d0.lemma_top(lhs);
                assert(computes(d0, op, lhs, rhs, lhs)) by {
                    reveal(computes);
                }
            }
            return lhs;
        }
        if lhs == self.true_id || rhs == self.true_id {
            proof {
                d0.lemma_grown_self(self.true_id);
                d0.lemma_top(lhs);
                assert(computes(d0, op, lhs, rhs, self.true_id)) by {
                    reveal(computes);
                }
            }
            return self.true_id;
        }
        if lhs == self.false_id {
            proof {
                d0.lemma_grown_self(rhs);
                d0.lemma_top(lhs);
                assert(computes(d0, op, lhs, rhs, rhs)) by {
                    reveal(computes);
                }
            }
            return rhs;
        }
        let hash: u64 = splitmix64_2(lhs as u64, rhs as u64);
        let bdd: Bdd = recall(&mut self.or_cache, hash, lhs, rhs, Ghost(d0), Ghost(op));
        let ghost stat1 = self.or_cache.stats();
        assert(self.model() == d0);
        if bdd != NULL {
            proof {
                lemma_computes_top(d0, op, lhs, rhs, bdd);
                d0.lemma_grown_self(bdd);
            }
            return bdd;
        }
        proof {
            d0.lemma_decides(lhs);
            d0.lemma_decides(rhs);
        }
        let (lhs_level, lhs_low, lhs_high) = self.set.vertex(lhs);
        let (rhs_level, rhs_low, rhs_high) = self.set.vertex(rhs);
        let ghost l = least(d0.top(lhs), d0.top(rhs));
        proof {
            lemma_descend(d0, lhs, rhs, l);
        }
        let (level, lhs0, lhs1, rhs0, rhs1) = if lhs_level < rhs_level {
            (lhs_level, lhs_low, lhs_high, rhs, rhs)
        } else if lhs_level > rhs_level {
            (rhs_level, lhs, lhs, rhs_low, rhs_high)
        } else {
            (lhs_level, lhs_low, lhs_high, rhs_low, rhs_high)
        };
        assert(level == l);
        assert(lhs0 == side(d0, lhs, l, false) && lhs1 == side(d0, lhs, l, true));
        assert(rhs0 == side(d0, rhs, l, false) && rhs1 == side(d0, rhs, l, true));
        let f_low: Bdd = self._or_rec(lhs0, rhs0);
        let ghost d1 = self.model();
        let ghost stat2 = self.or_cache.stats();
        assert(d0.has_node(lhs1) && d0.has_node(rhs1));
        let f_high: Bdd = self._or_rec(lhs1, rhs1);
        let ghost d2 = self.model();
        proof {
            d2.lemma_extends_trans(d1, d0);
            lemma_computes_top(d1, op, lhs0, rhs0, f_low);
            lemma_computes_top(d2, op, lhs1, rhs1, f_high);
            assert(d0.has_node(lhs0) && d0.has_node(rhs0));
            assert(d1.has_node(f_low));
        }
        let res: Bdd = self.make_node(level, f_low, f_high);
        let ghost d3 = self.model();
        proof {
            lemma_apply(d0, d1, d2, d3, op, lhs, rhs, l, f_low, f_high, res);
            lemma_lookups(stat0, stat1, stat2, self.or_cache.stats());
        }
        remember(&mut self.or_cache, hash, lhs, rhs, res, Ghost(d3), Ghost(op));
        assert(self.model() == d3);
        res
    }

    /// The difference of two nodes.
    pub(super) fn _comp_rec(&mut self, lhs: Bdd, rhs: Bdd) -> (ret: Bdd)
        requires
            old(self).inner_wf(),
            old(self).model().has_node(lhs),
            old(self).model().has_node(rhs),
        ensures
            final(self).inner_wf(),
            final(self).same_frame(old(self)),
            final(self).model().grown(old(self).model(), ret),
            computes(final(self).model(), BddOpType::Comp, lhs, rhs, ret),
            final(self).same_caches_but(old(self), BddOpType::Comp, BddOpType::Not),
            final(self).cache_stat(BddOpType::Comp).looked_up(
                old(self).cache_stat(BddOpType::Comp),
            ),
            final(self).cache_stat(BddOpType::Not).looked_up(old(self).cache_stat(BddOpType::Not)),
            old(self).model().branches(lhs, rhs) ==> final(self).remembers(
                old(self),
                BddOpType::Comp,
                lhs,
                rhs,
                ret,
            ),
            lhs == rhs || lhs == old(self).model().false_id || old(self).model().terminal(rhs)
                ==> final(self).untouched(old(self)),
            lhs == old(self).model().true_id && !old(self).model().terminal(rhs) ==> {
                &&& final(self).comp_cache == old(self).comp_cache
                &&& final(self).remembers(old(self), BddOpType::Not, rhs, rhs, ret)
            },
        decreases old(self).model().rank(lhs) + old(self).model().rank(rhs),
    {
        let ghost d0 = self.model();
        let ghost op = BddOpType::Comp;
        let ghost stat0 = self.comp_cache.stats();
        proof {
            lemma_lookup(stat0);
            lemma_lookup(self.not_cache.stats());
        }
        if lhs == rhs || lhs == self.false_id || rhs == self.true_id {
            proof {
                d0.lemma_grown_self(self.false_id);
                d0.lemma_top(lhs);
                assert(computes(d0, op, lhs, rhs, self.false_id)) by {
                    reveal(computes);
                }
            }
            return self.false_id;
        }
        if rhs == self.false_id {
            proof {
                d0.lemma_grown_self(lhs);
                d0.lemma_top(lhs);
                assert(computes(d0, op, lhs, rhs, lhs)) by {
                    reveal(computes);
                }
            }
            return lhs;
        }
        if lhs == self.true_id {
            let ret: Bdd = self._not_rec(rhs);
            proof {
                let d = self.model();
                assert(d0.has_node(lhs));
                assert(computes(d, op, lhs, rhs, ret)) by {
                    reveal(negates);
                    reveal(computes);
                    assert forall|env: Assignment| #[trigger] d.eval(
                        ret,
                        env,
                    ) == apply(op, d.eval(lhs, env), d.eval(rhs, env)) by {
                        assert(d.eval(ret, env) == !d.eval(rhs, env));
                    }
                }
            }
            return ret;
        }
        let hash: u64 = splitmix64_2(lhs as u64, rhs as u64);
        let bdd: Bdd = recall(&mut self.comp_cache, hash, lhs, rhs, Ghost(d0), Ghost(op));
        let ghost stat1 = self.comp_cache.stats();
        assert(self.model() == d0);
        if bdd != NULL {
            proof {
                lemma_computes_top(d0, op, lhs, rhs, bdd);
                d0.lemma_grown_self(bdd);
            }
            return bdd;
        }
        proof {
            d0.lemma_decides(lhs);
            d0.lemma_decides(rhs);
        }
        let (lhs_level, lhs_low, lhs_high) = self.set.vertex(lhs);
        let (rhs_level, rhs_low, rhs_high) = self.set.vertex(rhs);
        let ghost l = least(d0.top(lhs), d0.top(rhs));
        proof {
            lemma_descend(d0, lhs, rhs, l);
        }
        let (level, lhs0, lhs1, rhs0, rhs1) = if lhs_level < rhs_level {
            (lhs_level, lhs_low, lhs_high, rhs, rhs)
        } else if lhs_level > rhs_level {
            (rhs_level, lhs, lhs, rhs_low, rhs_high)
        } else {
            (lhs_level, lhs_low, lhs_high, rhs_low, rhs_high)
        };
        assert(level == l);
        assert(lhs0 == side(d0, lhs, l, false) && lhs1 == side(d0, lhs, l, true));
        assert(rhs0 == side(d0, rhs, l, false) && rhs1 == side(d0, rhs, l, true));
        let f_low: Bdd = self._comp_rec(lhs0, rhs0);
        let ghost d1 = self.model();
        let ghost stat2 = self.comp_cache.stats();
        let ghost not_stat = self.not_cache.stats();
        assert(d0.has_node(lhs1) && d0.has_node(rhs1));
        let f_high: Bdd = self._comp_rec(lhs1, rhs1);
        let ghost d2 = self.model();
        proof {
            d2.lemma_extends_trans(d1, d0);
            lemma_computes_top(d1, op, lhs0, rhs0, f_low);
            lemma_computes_top(d2, op, lhs1, rhs1, f_high);
            assert(d0.has_node(lhs0) && d0.has_node(rhs0));
            assert(d1.has_node(f_low));
        }
        let res: Bdd = self.make_node(level, f_low, f_high);
        let ghost d3 = self.model();
        proof {
            lemma_apply(d0, d1, d2, d3, op, lhs, rhs, l, f_low, f_high, res);
            lemma_lookups(stat0, stat1, stat2, self.comp_cache.stats());
            self.not_cache.stats().lemma_looked_up_trans(not_stat, old(self).not_cache.stats());
        }
        remember(&mut self.comp_cache, hash, lhs, rhs, res, Ghost(d3), Ghost(op));
        assert(self.model() == d3);
        res
    }
}

} // verus!
