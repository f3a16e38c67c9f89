//! What is counted, count by count.

use vstd::arithmetic::div_mod::{lemma_add_mod_noop, lemma_small_mod};
use vstd::arithmetic::power2::pow2;
use vstd::prelude::*;

use crate::cache::CacheStat;
use crate::diagram::Diagram;
use crate::keeping::dead_count;
use crate::op_stat::OpStat;
use crate::set::TableStat;
use crate::sizing::{lemma_size_range, MAX_SIZE_EXP};
use crate::spin::rw_w_pre::RwLockStat;
use crate::tobdd::entered_stat;
use crate::BddOpType;

verus! {

/// `y` counts `k` more than `x`. Counts wrap around.
pub open spec fn counts_more(x: usize, k: int, y: usize) -> bool {
    y == (x + k) % (usize::MAX + 1)
}

proof fn lemma_one_more(x: usize)
    ensures
        counts_more(x, 0, x),
        counts_more(x, 1, x.wrapping_add(1)),
{
    let m = (usize::MAX + 1) as nat;
    lemma_small_mod(x as nat, m);
    if x < usize::MAX {
        lemma_small_mod((x + 1) as nat, m);
    } else {
        assert(m % m == 0) by (nonlinear_arith)
            requires
                m > 0,
        ;
    }
}

proof fn lemma_more_and_one(x: usize, k: int, y: usize)
    requires
        counts_more(x, k, y),
    ensures
        counts_more(x, k + 1, y.wrapping_add(1)),
{
    lemma_one_more(y);
    let m = usize::MAX + 1;
    lemma_add_mod_noop(x + k, 1, m);
    lemma_add_mod_noop(y as int, 1, m);
    lemma_small_mod(1, m as nat);
    assert((x + k) % m == y);
    lemma_small_mod(y as nat, m as nat);
}

/// A hit counts as one hit in all and one since the cache last grew, and a miss likewise. Growing
/// starts these latter counts anew, and counts as one growth; forgetting counts as one clearing.
/// Nothing else is counted.
pub proof fn law_cache_counts(s: CacheStat)
    ensures
        counts_more(s.unique_hit, 1, s.hit().unique_hit),
        counts_more(s.last_hit, 1, s.hit().last_hit),
        s.hit().unique_miss == s.unique_miss,
        s.hit().last_miss == s.last_miss,
        s.hit().grow_cnt == s.grow_cnt,
        s.hit().clear_cnt == s.clear_cnt,
        counts_more(s.unique_miss, 1, s.missed().unique_miss),
        counts_more(s.last_miss, 1, s.missed().last_miss),
        s.missed().unique_hit == s.unique_hit,
        s.missed().last_hit == s.last_hit,
        s.missed().grow_cnt == s.grow_cnt,
        s.missed().clear_cnt == s.clear_cnt,
        counts_more(s.grow_cnt, 1, s.grown().grow_cnt),
        s.grown().last_hit == 0,
        s.grown().last_miss == 0,
        s.grown().unique_hit == s.unique_hit,
        s.grown().unique_miss == s.unique_miss,
        s.grown().clear_cnt == s.clear_cnt,
        counts_more(s.clear_cnt, 1, s.cleared().clear_cnt),
        s.cleared().unique_hit == s.unique_hit,
        s.cleared().unique_miss == s.unique_miss,
        s.cleared().last_hit == s.last_hit,
        s.cleared().last_miss == s.last_miss,
        s.cleared().grow_cnt == s.grow_cnt,
{
    lemma_one_more(s.unique_hit);
    lemma_one_more(s.last_hit);
    lemma_one_more(s.unique_miss);
    lemma_one_more(s.last_miss);
    lemma_one_more(s.grow_cnt);
    lemma_one_more(s.clear_cnt);
}

/// Lookups change the hits and the misses by as many as there were, and nothing else.
pub proof fn law_lookups(s: CacheStat, hits: nat, misses: nat)
    ensures
        counts_more(s.unique_hit, hits as int, s.after(hits, misses).unique_hit),
        counts_more(s.last_hit, hits as int, s.after(hits, misses).last_hit),
        counts_more(s.unique_miss, misses as int, s.after(hits, misses).unique_miss),
        counts_more(s.last_miss, misses as int, s.after(hits, misses).last_miss),
        s.after(hits, misses).grow_cnt == s.grow_cnt,
        s.after(hits, misses).clear_cnt == s.clear_cnt,
    decreases hits + misses,
{
    if hits > 0 {
        law_lookups(s, (hits - 1) as nat, misses);
        let t = s.after((hits - 1) as nat, misses);
        lemma_more_and_one(s.unique_hit, hits - 1, t.unique_hit);
        lemma_more_and_one(s.last_hit, hits - 1, t.last_hit);
    } else if misses > 0 {
        law_lookups(s, 0, (misses - 1) as nat);
        let t = s.after(0, (misses - 1) as nat);
        lemma_more_and_one(s.unique_miss, misses - 1, t.unique_miss);
        lemma_more_and_one(s.last_miss, misses - 1, t.last_miss);
    } else {
        lemma_one_more(s.unique_hit);
        lemma_one_more(s.last_hit);
        lemma_one_more(s.unique_miss);
        lemma_one_more(s.last_miss);
    }
}

/// What counts of some lookups say: there are numbers of hits and of misses by which the counts
/// have gone up, and nothing else has changed. Where the cache was consulted, there was one at
/// least.
pub proof fn law_looked_up(s: CacheStat, t: CacheStat)
    ensures
        t.looked_up(s) ==> exists|hits: nat, misses: nat| #[trigger]
            looks(s, hits, misses, t),
        t.consulted(s) ==> exists|hits: nat, misses: nat|
            hits + misses > 0 && #[trigger] looks(s, hits, misses, t),
{
    if t.looked_up(s) {
        let (hits, misses) = choose|hits: nat, misses: nat| #[trigger] s.after(hits, misses) == t;
        law_lookups(s, hits, misses);
        assert(looks(s, hits, misses, t));
    }
    if t.looked_up(s.hit()) {
        let (hits, misses) = choose|hits: nat, misses: nat| #[trigger]
            s.hit().after(hits, misses) == t;
        law_lookups(s.hit(), hits, misses);
        lemma_one_before(s.unique_hit, hits, t.unique_hit);
        lemma_one_before(s.last_hit, hits, t.last_hit);
        assert(looks(s, hits + 1, misses, t));
    }
    if t.looked_up(s.missed()) {
        let (hits, misses) = choose|hits: nat, misses: nat| #[trigger]
            s.missed().after(hits, misses) == t;
        law_lookups(s.missed(), hits, misses);
        lemma_one_before(s.unique_miss, misses, t.unique_miss);
        lemma_one_before(s.last_miss, misses, t.last_miss);
        assert(looks(s, hits, misses + 1, t));
    }
}

/// The counts of `t` are those of `s` after this many hits and misses.
pub open spec fn looks(s: CacheStat, hits: nat, misses: nat, t: CacheStat) -> bool {
    &&& counts_more(s.unique_hit, hits as int, t.unique_hit)
    &&& counts_more(s.last_hit, hits as int, t.last_hit)
    &&& counts_more(s.unique_miss, misses as int, t.unique_miss)
    &&& counts_more(s.last_miss, misses as int, t.last_miss)
    &&& t.grow_cnt == s.grow_cnt
    &&& t.clear_cnt == s.clear_cnt
}

proof fn lemma_one_before(x: usize, k: nat, y: usize)
    requires
        counts_more(x.wrapping_add(1), k as int, y),
    ensures
        counts_more(x, k as int + 1, y),
{
    lemma_one_more(x);
    let m = usize::MAX + 1;
    lemma_add_mod_noop(x + 1, k as int, m);
    lemma_add_mod_noop(x.wrapping_add(1) as int, k as int, m);
    lemma_small_mod(x.wrapping_add(1) as nat, m as nat);
    assert((x + 1) % m == x.wrapping_add(1));
}

/// At first, nothing is counted.
pub proof fn law_nothing_counted()
    ensures
        CacheStat::zero().unique_hit == 0,
        CacheStat::zero().unique_miss == 0,
        CacheStat::zero().last_hit == 0,
        CacheStat::zero().last_miss == 0,
        CacheStat::zero().grow_cnt == 0,
        CacheStat::zero().clear_cnt == 0,
        RwLockStat::zero().read_acquires == 0,
        RwLockStat::zero().read_cas_retries == 0,
        RwLockStat::zero().read_writer_spins == 0,
        TableStat::zero().unique_access == 0,
        TableStat::zero().unique_chain == 0,
        TableStat::zero().unique_hit == 0,
        TableStat::zero().unique_miss == 0,
        OpStat::zero().not_cnt == 0,
        OpStat::zero().and_cnt == 0,
        OpStat::zero().or_cnt == 0,
        OpStat::zero().comp_cnt == 0,
        OpStat::zero().quant_exist_cnt == 0,
        OpStat::zero().quant_forall_cnt == 0,
        OpStat::zero().gc_cnt == 0,
        OpStat::zero().gc_time == 0,
        OpStat::zero().gc_freed == 0,
        OpStat::zero().grow_cnt == 0,
        OpStat::zero().grow_time == 0,
        OpStat::zero().grow_newed == 0,
{
}

/// Starting an operation clears the caches where it collects, grows them where it grows, and
/// counts nothing else.
pub proof fn law_start_counts(stat: CacheStat, d: Diagram)
    ensures
        d.nodes.dom().len() < pow2(d.table_exp) ==> entered_stat(stat, d) == stat,
        d.nodes.dom().len() >= pow2(d.table_exp) && dead_count(d) >= pow2(d.table_exp) / 4 ==> {
            let t = entered_stat(stat, d);
            &&& counts_more(stat.clear_cnt, 1, t.clear_cnt)
            &&& t == (CacheStat { clear_cnt: t.clear_cnt, ..stat })
        },
        d.nodes.dom().len() >= pow2(d.table_exp) && dead_count(d) < pow2(d.table_exp) / 4 ==> {
            let t = entered_stat(stat, d);
            &&& counts_more(stat.grow_cnt, 1, t.grow_cnt)
            &&& t == (CacheStat { grow_cnt: t.grow_cnt, last_hit: 0, last_miss: 0, ..stat })
        },
{
    law_cache_counts(stat);
}

/// A reader that gets in, one that is turned away, and an exchange that fails each count once, for
/// themselves.
pub proof fn law_lock_counts(s: RwLockStat)
    ensures
        counts_more(s.read_acquires, 1, s.acquired().read_acquires),
        s.acquired() == (RwLockStat { read_acquires: s.acquired().read_acquires, ..s }),
        counts_more(s.read_cas_retries, 1, s.retried().read_cas_retries),
        s.retried() == (RwLockStat { read_cas_retries: s.retried().read_cas_retries, ..s }),
        counts_more(s.read_writer_spins, 1, s.spun().read_writer_spins),
        s.spun() == (RwLockStat { read_writer_spins: s.spun().read_writer_spins, ..s }),
{
    lemma_one_more(s.read_acquires);
    lemma_one_more(s.read_cas_retries);
    lemma_one_more(s.read_writer_spins);
}

/// An operation counts once, under its own name.
pub proof fn law_op_counts(s: OpStat, op: BddOpType)
    ensures
        ({
            let t = s.counted(op);
            &&& counts_more(s.not_cnt, if op == BddOpType::Not { 1 } else { 0 }, t.not_cnt)
            &&& counts_more(s.and_cnt, if op == BddOpType::And { 1 } else { 0 }, t.and_cnt)
            &&& counts_more(s.or_cnt, if op == BddOpType::Or { 1 } else { 0 }, t.or_cnt)
            &&& counts_more(s.comp_cnt, if op == BddOpType::Comp { 1 } else { 0 }, t.comp_cnt)
            &&& counts_more(
                s.quant_exist_cnt,
                if op == BddOpType::QuantExist { 1 } else { 0 },
                t.quant_exist_cnt,
            )
            &&& counts_more(
                s.quant_forall_cnt,
                if op == BddOpType::QuantForall { 1 } else { 0 },
                t.quant_forall_cnt,
            )
            &&& t.gc_cnt == s.gc_cnt
            &&& t.gc_time == s.gc_time
            &&& t.gc_freed == s.gc_freed
            &&& t.grow_cnt == s.grow_cnt
            &&& t.grow_time == s.grow_time
            &&& t.grow_newed == s.grow_newed
        }),
{
    lemma_one_more(s.not_cnt);
    lemma_one_more(s.and_cnt);
    lemma_one_more(s.or_cnt);
    lemma_one_more(s.comp_cnt);
    lemma_one_more(s.quant_exist_cnt);
    lemma_one_more(s.quant_forall_cnt);
}

/// The counts of two statistics are the same, whatever their times.
pub proof fn law_same_counts(s: OpStat, t: OpStat)
    ensures
        s.counts_as(t) <==> {
            &&& s.not_cnt == t.not_cnt
            &&& s.and_cnt == t.and_cnt
            &&& s.or_cnt == t.or_cnt
            &&& s.comp_cnt == t.comp_cnt
            &&& s.quant_exist_cnt == t.quant_exist_cnt
            &&& s.quant_forall_cnt == t.quant_forall_cnt
            &&& s.gc_cnt == t.gc_cnt
            &&& s.gc_freed == t.gc_freed
            &&& s.grow_cnt == t.grow_cnt
            &&& s.grow_newed == t.grow_newed
        },
{
}

/// Starting an operation leaves the time of collections as it was unless it collects, and that of
/// growths unless it grows.
pub proof fn law_times(s: OpStat, before: OpStat, d: Diagram)
    requires
        s.times_from(before, d),
    ensures
        d.nodes.dom().len() < pow2(d.table_exp) || dead_count(d) < pow2(d.table_exp) / 4
            ==> s.gc_time == before.gc_time,
        d.nodes.dom().len() < pow2(d.table_exp) || dead_count(d) >= pow2(d.table_exp) / 4
            ==> s.grow_time == before.grow_time,
{
}

/// A collection counts once, and with the nodes that it frees. The time that it adds is that
/// between its two readings of the clock. Nothing else is counted.
pub proof fn law_gc_counts(s: OpStat, start: u64, stop: u64, freed: usize)
    requires
        start <= stop,
    ensures
        ({
            let t = s.collecting(start).collected(stop, freed);
            &&& counts_more(s.gc_cnt, 1, t.gc_cnt)
            &&& counts_more(s.gc_freed, freed as int, t.gc_freed)
            &&& t.gc_time == (s.gc_time + (stop - start)) % (u64::MAX + 1)
            &&& t == (OpStat {
                gc_cnt: t.gc_cnt,
                gc_freed: t.gc_freed,
                gc_time: t.gc_time,
                ..s
            })
        }),
{
    lemma_one_more(s.gc_cnt);
    lemma_count_some(s.gc_freed, freed);
    lemma_time_passed(s.gc_time, start, stop);
}

/// A growth counts once, and with the buckets that it adds. The time that it adds is that between
/// its two readings of the clock. Nothing else is counted.
pub proof fn law_grow_counts(s: OpStat, start: u64, stop: u64, newed: usize)
    requires
        start <= stop,
    ensures
        ({
            let t = s.growing(start).grown(stop, newed);
            &&& counts_more(s.grow_cnt, 1, t.grow_cnt)
            &&& counts_more(s.grow_newed, newed as int, t.grow_newed)
            &&& t.grow_time == (s.grow_time + (stop - start)) % (u64::MAX + 1)
            &&& t == (OpStat {
                grow_cnt: t.grow_cnt,
                grow_newed: t.grow_newed,
                grow_time: t.grow_time,
                ..s
            })
        }),
{
    lemma_one_more(s.grow_cnt);
    lemma_count_some(s.grow_newed, newed);
    lemma_time_passed(s.grow_time, start, stop);
}

proof fn lemma_count_some(x: usize, k: usize)
    ensures
        counts_more(x, k as int, x.wrapping_add(k)),
{
    let m = (usize::MAX + 1) as nat;
    if x + k < m {
        lemma_small_mod((x + k) as nat, m);
    } else {
        lemma_small_mod((x + k - m) as nat, m);
        assert((x + k) % m as int == (x + k - m) % m as int) by (nonlinear_arith)
            requires
                m <= x + k < 2 * m,
        ;
    }
}

proof fn lemma_time_passed(t: u64, start: u64, stop: u64)
    requires
        start <= stop,
    ensures
        t.wrapping_sub(start).wrapping_add(stop) == (t + (stop - start)) % (u64::MAX + 1),
{
    let m = (u64::MAX + 1) as nat;
    let k = stop - start;
    if t + k < m {
        lemma_small_mod((t + k) as nat, m);
    } else {
        lemma_small_mod((t + k - m) as nat, m);
        assert((t + k) % m as int == (t + k - m) % m as int) by (nonlinear_arith)
            requires
                m <= t + k < 2 * m,
        ;
    }
}

/// A collection of a diagram counts with its dead nodes. Starting an operation counts nothing with
/// fewer nodes than buckets; else it counts as a collection where a quarter as many nodes are dead
/// as there are buckets, and else as a growth, with as many new buckets as there were.
pub proof fn law_enter_counts(s: OpStat, d: Diagram)
    requires
        d.wf(),
        d.table_exp <= MAX_SIZE_EXP,
        d.nodes.dom().len() <= usize::MAX,
    ensures
        ({
            let t = s.after_gc(d);
            &&& counts_more(s.gc_cnt, 1, t.gc_cnt)
            &&& counts_more(s.gc_freed, dead_count(d), t.gc_freed)
            &&& t == (OpStat { gc_cnt: t.gc_cnt, gc_freed: t.gc_freed, gc_time: t.gc_time, ..s })
        }),
        d.nodes.dom().len() < pow2(d.table_exp) ==> s.after_enter(d) == s,
        d.nodes.dom().len() >= pow2(d.table_exp) && dead_count(d) >= pow2(d.table_exp) / 4 ==> {
            let t = s.after_enter(d);
            &&& counts_more(s.gc_cnt, 1, t.gc_cnt)
            &&& counts_more(s.gc_freed, dead_count(d), t.gc_freed)
            &&& t == (OpStat { gc_cnt: t.gc_cnt, gc_freed: t.gc_freed, gc_time: t.gc_time, ..s })
        },
        d.nodes.dom().len() >= pow2(d.table_exp) && dead_count(d) < pow2(d.table_exp) / 4 ==> {
            let t = s.after_enter(d);
            &&& counts_more(s.grow_cnt, 1, t.grow_cnt)
            &&& counts_more(s.grow_newed, pow2(d.table_exp) as int, t.grow_newed)
            &&& t == (OpStat {
                grow_cnt: t.grow_cnt,
                grow_newed: t.grow_newed,
                grow_time: t.grow_time,
                ..s
            })
        },
{
    d.lemma_live();
    lemma_size_range(d.table_exp);
    law_gc_counts(s, 0, 0, dead_count(d) as usize);
    law_grow_counts(s, 0, 0, pow2(d.table_exp) as usize);
}

} // verus!
