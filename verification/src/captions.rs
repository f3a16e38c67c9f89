//! What the texts of the statistics say, count by count.

use vstd::arithmetic::power2::pow2;
use vstd::prelude::*;

use crate::cache::CacheStat;
use crate::op_stat::OpStat;
use crate::set::{TableStat, TableStatReport};
use crate::spin::rw_w_pre::RwLockStat;
use crate::text::decimal;
use crate::{BddOp, BddOpType, Manager};

verus! {

/// Two texts are the same but for one part, which has `label` before it and `end` after it: `x` in
/// the one and `y` in the other.
pub open spec fn differ_in(
    t: Seq<char>,
    u: Seq<char>,
    label: Seq<char>,
    x: Seq<char>,
    y: Seq<char>,
    end: Seq<char>,
) -> bool {
    exists|a: Seq<char>, b: Seq<char>|
        t == #[trigger] (a + label + x + end + b) && u == a + label + y + end + b
}

/// Two texts are the same but for a count.
pub open spec fn differ_in_count(
    t: Seq<char>,
    u: Seq<char>,
    label: Seq<char>,
    x: nat,
    y: nat,
    end: Seq<char>,
) -> bool {
    differ_in(t, u, label, decimal(x), decimal(y), end)
}

/// The parts in a row.
spec fn joined(parts: Seq<Seq<char>>) -> Seq<char>
    decreases parts.len(),
{
    if parts.len() == 0 {
        Seq::empty()
    } else {
        joined(parts.drop_last()) + parts.last()
    }
}

proof fn lemma_joined_push(parts: Seq<Seq<char>>, x: Seq<char>)
    ensures
        joined(parts.push(x)) == joined(parts) + x,
{
    assert(parts.push(x).drop_last() =~= parts);
}

proof fn lemma_joined_split(parts: Seq<Seq<char>>, i: int)
    requires
        0 <= i <= parts.len(),
    ensures
        joined(parts) == joined(parts.take(i)) + joined(parts.skip(i)),
    decreases parts.len() - i,
{
    if i == parts.len() {
        assert(parts.take(i) =~= parts);
        assert(parts.skip(i) =~= Seq::<Seq<char>>::empty());
        assert(joined(parts) =~= joined(parts.take(i)) + joined(parts.skip(i)));
    } else {
        lemma_joined_split(parts, i + 1);
        assert(parts.take(i + 1) =~= parts.take(i).push(parts[i]));
        lemma_joined_push(parts.take(i), parts[i]);
        lemma_joined_first(parts.skip(i));
        assert(parts.skip(i).skip(1) =~= parts.skip(i + 1));
        assert(joined(parts) =~= joined(parts.take(i)) + joined(parts.skip(i)));
    }
}

proof fn lemma_joined_first(parts: Seq<Seq<char>>)
    requires
        parts.len() > 0,
    ensures
        joined(parts) == parts[0] + joined(parts.skip(1)),
    decreases parts.len(),
{
    if parts.len() == 1 {
        assert(parts.drop_last() =~= Seq::<Seq<char>>::empty());
        assert(parts.skip(1) =~= Seq::<Seq<char>>::empty());
        assert(joined(parts) =~= parts[0] + joined(parts.skip(1)));
    } else {
        lemma_joined_first(parts.drop_last());
        assert(parts.drop_last().skip(1) =~= parts.skip(1).drop_last());
        assert(joined(parts) =~= parts[0] + joined(parts.skip(1)));
    }
}

/// Rows that differ in one part are texts that differ in it.
proof fn lemma_differ(p: Seq<Seq<char>>, q: Seq<Seq<char>>, i: int)
    requires
        p.len() == q.len(),
        1 <= i < p.len() - 1,
        forall|j: int| 0 <= j < p.len() && j != i ==> #[trigger] p[j] == q[j],
    ensures
        differ_in(joined(p), joined(q), p[i - 1], p[i], q[i], p[i + 1]),
{
    lemma_around(p, i);
    lemma_around(q, i);
    assert(p[i - 1] == q[i - 1] && p[i + 1] == q[i + 1]);
    assert(p.take(i - 1) =~= q.take(i - 1));
    assert(p.skip(i + 2) =~= q.skip(i + 2));
    let (a, b) = (joined(p.take(i - 1)), joined(p.skip(i + 2)));
    assert(joined(p) == a + p[i - 1] + p[i] + p[i + 1] + b);
}

proof fn lemma_around(p: Seq<Seq<char>>, i: int)
    requires
        1 <= i < p.len() - 1,
    ensures
        joined(p) == joined(p.take(i - 1)) + p[i - 1] + p[i] + p[i + 1] + joined(p.skip(i + 2)),
{
    lemma_joined_split(p, i + 2);
    assert(p.take(i + 2) =~= p.take(i - 1).push(p[i - 1]).push(p[i]).push(p[i + 1]));
    lemma_joined_push(p.take(i - 1), p[i - 1]);
    lemma_joined_push(p.take(i - 1).push(p[i - 1]), p[i]);
    lemma_joined_push(p.take(i - 1).push(p[i - 1]).push(p[i]), p[i + 1]);
}

spec fn cache_parts(s: CacheStat) -> Seq<Seq<char>> {
    seq![
        "unique_hit: "@,
        decimal(s.unique_hit as nat),
        ", unique_miss: "@,
        decimal(s.unique_miss as nat),
        Seq::empty(),
    ]
}

proof fn lemma_cache_parts(s: CacheStat)
    ensures
        joined(cache_parts(s)) == s.text(),
{
    let p0 = Seq::<Seq<char>>::empty();
    let p1 = p0.push("unique_hit: "@);
    lemma_joined_push(p0, "unique_hit: "@);
    let p2 = p1.push(decimal(s.unique_hit as nat));
    lemma_joined_push(p1, decimal(s.unique_hit as nat));
    let p3 = p2.push(", unique_miss: "@);
    lemma_joined_push(p2, ", unique_miss: "@);
    let p4 = p3.push(decimal(s.unique_miss as nat));
    lemma_joined_push(p3, decimal(s.unique_miss as nat));
    let p5 = p4.push(Seq::<char>::empty());
    lemma_joined_push(p4, Seq::<char>::empty());
    assert(cache_parts(s) =~= p5);
    assert(joined(p1) =~= "unique_hit: "@);
    assert(joined(p5) =~= joined(p4));
}

/// The hits and the misses of a cache each stand behind their label, and changing one of them
/// changes nothing else in the text. Other counts are not told.
pub proof fn law_cache_text(s: CacheStat, t: CacheStat)
    ensures
        t == (CacheStat { unique_hit: t.unique_hit, ..s }) ==> differ_in_count(
            s.text(),
            t.text(),
            "unique_hit: "@,
            s.unique_hit as nat,
            t.unique_hit as nat,
            ", unique_miss: "@,
        ),
        t == (CacheStat { unique_miss: t.unique_miss, ..s }) ==> differ_in_count(
            s.text(),
            t.text(),
            ", unique_miss: "@,
            s.unique_miss as nat,
            t.unique_miss as nat,
            Seq::empty(),
        ),
        s.unique_hit == t.unique_hit && s.unique_miss == t.unique_miss ==> s.text() == t.text(),
{
    lemma_cache_parts(s);
    lemma_cache_parts(t);
    let (p, q) = (cache_parts(s), cache_parts(t));
    if t == (CacheStat { unique_hit: t.unique_hit, ..s }) {
        lemma_differ(p, q, 1);
    }
    if t == (CacheStat { unique_miss: t.unique_miss, ..s }) {
        lemma_differ(p, q, 3);
    }
}

spec fn table_parts(s: TableStat) -> Seq<Seq<char>> {
    seq![
        "unique_access: "@,
        decimal(s.unique_access as nat),
        ", unique_chain: "@,
        decimal(s.unique_chain as nat),
        ", unique_hit: "@,
        decimal(s.unique_hit as nat),
        ", unique_miss: "@,
        decimal(s.unique_miss as nat),
        Seq::empty(),
    ]
}

proof fn lemma_table_parts(s: TableStat)
    ensures
        joined(table_parts(s)) == s.text(),
{
    let p0 = Seq::<Seq<char>>::empty();
    let p1 = p0.push("unique_access: "@);
    lemma_joined_push(p0, "unique_access: "@);
    let p2 = p1.push(decimal(s.unique_access as nat));
    lemma_joined_push(p1, decimal(s.unique_access as nat));
    let p3 = p2.push(", unique_chain: "@);
    lemma_joined_push(p2, ", unique_chain: "@);
    let p4 = p3.push(decimal(s.unique_chain as nat));
    lemma_joined_push(p3, decimal(s.unique_chain as nat));
    let p5 = p4.push(", unique_hit: "@);
    lemma_joined_push(p4, ", unique_hit: "@);
    let p6 = p5.push(decimal(s.unique_hit as nat));
    lemma_joined_push(p5, decimal(s.unique_hit as nat));
    let p7 = p6.push(", unique_miss: "@);
    lemma_joined_push(p6, ", unique_miss: "@);
    let p8 = p7.push(decimal(s.unique_miss as nat));
    lemma_joined_push(p7, decimal(s.unique_miss as nat));
    let p9 = p8.push(Seq::<char>::empty());
    lemma_joined_push(p8, Seq::<char>::empty());
    assert(table_parts(s) =~= p9);
    assert(joined(p1) =~= "unique_access: "@);
    assert(joined(p9) =~= joined(p8));
}

/// The counts of a table each stand behind their label, and changing one of them changes nothing
/// else in the text.
pub proof fn law_table_text(s: TableStat, t: TableStat)
    ensures
        t == (TableStat { unique_access: t.unique_access, ..s }) ==> differ_in_count(
            s.text(),
            t.text(),
            "unique_access: "@,
            s.unique_access as nat,
            t.unique_access as nat,
            ", unique_chain: "@,
        ),
        t == (TableStat { unique_chain: t.unique_chain, ..s }) ==> differ_in_count(
            s.text(),
            t.text(),
            ", unique_chain: "@,
            s.unique_chain as nat,
            t.unique_chain as nat,
            ", unique_hit: "@,
        ),
        t == (TableStat { unique_hit: t.unique_hit, ..s }) ==> differ_in_count(
            s.text(),
            t.text(),
            ", unique_hit: "@,
            s.unique_hit as nat,
            t.unique_hit as nat,
            ", unique_miss: "@,
        ),
        t == (TableStat { unique_miss: t.unique_miss, ..s }) ==> differ_in_count(
            s.text(),
            t.text(),
            ", unique_miss: "@,
            s.unique_miss as nat,
            t.unique_miss as nat,
            Seq::empty(),
        ),
{
    lemma_table_parts(s);
    lemma_table_parts(t);
    let (p, q) = (table_parts(s), table_parts(t));
    if t == (TableStat { unique_access: t.unique_access, ..s }) {
        lemma_differ(p, q, 1);
    }
    if t == (TableStat { unique_chain: t.unique_chain, ..s }) {
        lemma_differ(p, q, 3);
    }
    if t == (TableStat { unique_hit: t.unique_hit, ..s }) {
        lemma_differ(p, q, 5);
    }
    if t == (TableStat { unique_miss: t.unique_miss, ..s }) {
        lemma_differ(p, q, 7);
    }
}

spec fn lock_parts(s: RwLockStat, rate: Seq<char>) -> Seq<Seq<char>> {
    seq![
        "read_acquires: "@,
        decimal(s.read_acquires as nat),
        ", read_cas_retries: "@,
        decimal(s.read_cas_retries as nat),
        ", read_writer_spins: "@,
        decimal(s.read_writer_spins as nat),
        " (retry_rate: "@,
        rate,
        "%)"@,
        Seq::empty(),
    ]
}

proof fn lemma_lock_parts(s: RwLockStat, rate: Seq<char>)
    ensures
        joined(lock_parts(s, rate)) == s.text(rate),
{
    let p0 = Seq::<Seq<char>>::empty();
    let p1 = p0.push("read_acquires: "@);
    lemma_joined_push(p0, "read_acquires: "@);
    let p2 = p1.push(decimal(s.read_acquires as nat));
    lemma_joined_push(p1, decimal(s.read_acquires as nat));
    let p3 = p2.push(", read_cas_retries: "@);
    lemma_joined_push(p2, ", read_cas_retries: "@);
    let p4 = p3.push(decimal(s.read_cas_retries as nat));
    lemma_joined_push(p3, decimal(s.read_cas_retries as nat));
    let p5 = p4.push(", read_writer_spins: "@);
    lemma_joined_push(p4, ", read_writer_spins: "@);
    let p6 = p5.push(decimal(s.read_writer_spins as nat));
    lemma_joined_push(p5, decimal(s.read_writer_spins as nat));
    let p7 = p6.push(" (retry_rate: "@);
    lemma_joined_push(p6, " (retry_rate: "@);
    let p8 = p7.push(rate);
    lemma_joined_push(p7, rate);
    let p9 = p8.push("%)"@);
    lemma_joined_push(p8, "%)"@);
    let p10 = p9.push(Seq::<char>::empty());
    lemma_joined_push(p9, Seq::<char>::empty());
    assert(lock_parts(s, rate) =~= p10);
    assert(joined(p1) =~= "read_acquires: "@);
    assert(joined(p10) =~= joined(p9));
}

/// The counts of a lock each stand behind their label, and changing one of them changes nothing
/// else in the text.
pub proof fn law_lock_text(s: RwLockStat, t: RwLockStat, rate: Seq<char>)
    ensures
        t == (RwLockStat { read_acquires: t.read_acquires, ..s }) ==> differ_in_count(
            s.text(rate),
            t.text(rate),
            "read_acquires: "@,
            s.read_acquires as nat,
            t.read_acquires as nat,
            ", read_cas_retries: "@,
        ),
        t == (RwLockStat { read_cas_retries: t.read_cas_retries, ..s }) ==> differ_in_count(
            s.text(rate),
            t.text(rate),
            ", read_cas_retries: "@,
            s.read_cas_retries as nat,
            t.read_cas_retries as nat,
            ", read_writer_spins: "@,
        ),
        t == (RwLockStat { read_writer_spins: t.read_writer_spins, ..s }) ==> differ_in_count(
            s.text(rate),
            t.text(rate),
            ", read_writer_spins: "@,
            s.read_writer_spins as nat,
            t.read_writer_spins as nat,
            " (retry_rate: "@,
        ),
{
    lemma_lock_parts(s, rate);
    lemma_lock_parts(t, rate);
    let (p, q) = (lock_parts(s, rate), lock_parts(t, rate));
    if t == (RwLockStat { read_acquires: t.read_acquires, ..s }) {
        lemma_differ(p, q, 1);
    }
    if t == (RwLockStat { read_cas_retries: t.read_cas_retries, ..s }) {
        lemma_differ(p, q, 3);
    }
    if t == (RwLockStat { read_writer_spins: t.read_writer_spins, ..s }) {
        lemma_differ(p, q, 5);
    }
}

spec fn op_parts(s: OpStat) -> Seq<Seq<char>> {
    seq![
        "NOT: (cnt: "@,
        decimal(s.not_cnt as nat),
        ")\nAND: (cnt: "@,
        decimal(s.and_cnt as nat),
        ")\nOR: (cnt: "@,
        decimal(s.or_cnt as nat),
        ")\nCOMP: (cnt: "@,
        decimal(s.comp_cnt as nat),
        ")\nGC: (cnt: "@,
        decimal(s.gc_cnt as nat),
        ", time: "@,
        decimal(s.gc_time as nat),
        " us, freed: "@,
        decimal(s.gc_freed as nat),
        ")\nGROW: (cnt: "@,
        decimal(s.grow_cnt as nat),
        ", time: "@,
        decimal(s.grow_time as nat),
        " us, newed: "@,
        decimal(s.grow_newed as nat),
        ")"@,
        Seq::empty(),
    ]
}

proof fn lemma_op_parts(s: OpStat)
    ensures
        joined(op_parts(s)) == s.text(),
{
    let p0 = Seq::<Seq<char>>::empty();
    let p1 = p0.push("NOT: (cnt: "@);
    lemma_joined_push(p0, "NOT: (cnt: "@);
    let p2 = p1.push(decimal(s.not_cnt as nat));
    lemma_joined_push(p1, decimal(s.not_cnt as nat));
    let p3 = p2.push(")\nAND: (cnt: "@);
    lemma_joined_push(p2, ")\nAND: (cnt: "@);
    let p4 = p3.push(decimal(s.and_cnt as nat));
    lemma_joined_push(p3, decimal(s.and_cnt as nat));
    let p5 = p4.push(")\nOR: (cnt: "@);
    lemma_joined_push(p4, ")\nOR: (cnt: "@);
    let p6 = p5.push(decimal(s.or_cnt as nat));
    lemma_joined_push(p5, decimal(s.or_cnt as nat));
    let p7 = p6.push(")\nCOMP: (cnt: "@);
    lemma_joined_push(p6, ")\nCOMP: (cnt: "@);
    let p8 = p7.push(decimal(s.comp_cnt as nat));
    lemma_joined_push(p7, decimal(s.comp_cnt as nat));
    let p9 = p8.push(")\nGC: (cnt: "@);
    lemma_joined_push(p8, ")\nGC: (cnt: "@);
    let p10 = p9.push(decimal(s.gc_cnt as nat));
    lemma_joined_push(p9, decimal(s.gc_cnt as nat));
    let p11 = p10.push(", time: "@);
    lemma_joined_push(p10, ", time: "@);
    let p12 = p11.push(decimal(s.gc_time as nat));
    lemma_joined_push(p11, decimal(s.gc_time as nat));
    let p13 = p12.push(" us, freed: "@);
    lemma_joined_push(p12, " us, freed: "@);
    let p14 = p13.push(decimal(s.gc_freed as nat));
    lemma_joined_push(p13, decimal(s.gc_freed as nat));
    let p15 = p14.push(")\nGROW: (cnt: "@);
    lemma_joined_push(p14, ")\nGROW: (cnt: "@);
    let p16 = p15.push(decimal(s.grow_cnt as nat));
    lemma_joined_push(p15, decimal(s.grow_cnt as nat));
    let p17 = p16.push(", time: "@);
    lemma_joined_push(p16, ", time: "@);
    let p18 = p17.push(decimal(s.grow_time as nat));
    lemma_joined_push(p17, decimal(s.grow_time as nat));
    let p19 = p18.push(" us, newed: "@);
    lemma_joined_push(p18, " us, newed: "@);
    let p20 = p19.push(decimal(s.grow_newed as nat));
    lemma_joined_push(p19, decimal(s.grow_newed as nat));
    let p21 = p20.push(")"@);
    lemma_joined_push(p20, ")"@);
    let p22 = p21.push(Seq::<char>::empty());
    lemma_joined_push(p21, Seq::<char>::empty());
    assert(op_parts(s) =~= p22);
    assert(joined(p1) =~= "NOT: (cnt: "@);
    assert(joined(p22) =~= joined(p21));
}

/// The counts and times of the operations, of the collections and of the growths each stand behind
/// their label, and changing one of them changes nothing else in the text. The quantifications are
/// not told.
pub proof fn law_op_text(s: OpStat, t: OpStat)
    ensures
        t == (OpStat { not_cnt: t.not_cnt, ..s }) ==> differ_in_count(
            s.text(),
            t.text(),
            "NOT: (cnt: "@,
            s.not_cnt as nat,
            t.not_cnt as nat,
            ")\nAND: (cnt: "@,
        ),
        t == (OpStat { and_cnt: t.and_cnt, ..s }) ==> differ_in_count(
            s.text(),
            t.text(),
            ")\nAND: (cnt: "@,
            s.and_cnt as nat,
            t.and_cnt as nat,
            ")\nOR: (cnt: "@,
        ),
        t == (OpStat { or_cnt: t.or_cnt, ..s }) ==> differ_in_count(
            s.text(),
            t.text(),
            ")\nOR: (cnt: "@,
            s.or_cnt as nat,
            t.or_cnt as nat,
            ")\nCOMP: (cnt: "@,
        ),
        t == (OpStat { comp_cnt: t.comp_cnt, ..s }) ==> differ_in_count(
            s.text(),
            t.text(),
            ")\nCOMP: (cnt: "@,
            s.comp_cnt as nat,
            t.comp_cnt as nat,
            ")\nGC: (cnt: "@,
        ),
        t == (OpStat { gc_cnt: t.gc_cnt, ..s }) ==> differ_in_count(
            s.text(),
            t.text(),
            ")\nGC: (cnt: "@,
            s.gc_cnt as nat,
            t.gc_cnt as nat,
            ", time: "@,
        ),
        t == (OpStat { gc_time: t.gc_time, ..s }) ==> differ_in_count(
            s.text(),
            t.text(),
            ", time: "@,
            s.gc_time as nat,
            t.gc_time as nat,
            " us, freed: "@,
        ),
        t == (OpStat { gc_freed: t.gc_freed, ..s }) ==> differ_in_count(
            s.text(),
            t.text(),
            " us, freed: "@,
            s.gc_freed as nat,
            t.gc_freed as nat,
            ")\nGROW: (cnt: "@,
        ),
        t == (OpStat { grow_cnt: t.grow_cnt, ..s }) ==> differ_in_count(
            s.text(),
            t.text(),
            ")\nGROW: (cnt: "@,
            s.grow_cnt as nat,
            t.grow_cnt as nat,
            ", time: "@,
        ),
        t == (OpStat { grow_time: t.grow_time, ..s }) ==> differ_in_count(
            s.text(),
            t.text(),
            ", time: "@,
            s.grow_time as nat,
            t.grow_time as nat,
            " us, newed: "@,
        ),
        t == (OpStat { grow_newed: t.grow_newed, ..s }) ==> differ_in_count(
            s.text(),
            t.text(),
            " us, newed: "@,
            s.grow_newed as nat,
            t.grow_newed as nat,
            ")"@,
        ),
        t == (OpStat {
            quant_exist_cnt: t.quant_exist_cnt,
            quant_forall_cnt: t.quant_forall_cnt,
            ..s
        }) ==> t.text() == s.text(),
{
    lemma_op_parts(s);
    lemma_op_parts(t);
    let (p, q) = (op_parts(s), op_parts(t));
    if t == (OpStat { not_cnt: t.not_cnt, ..s }) {
        lemma_differ(p, q, 1);
    }
    if t == (OpStat { and_cnt: t.and_cnt, ..s }) {
        lemma_differ(p, q, 3);
    }
    if t == (OpStat { or_cnt: t.or_cnt, ..s }) {
        lemma_differ(p, q, 5);
    }
    if t == (OpStat { comp_cnt: t.comp_cnt, ..s }) {
        lemma_differ(p, q, 7);
    }
    if t == (OpStat { gc_cnt: t.gc_cnt, ..s }) {
        lemma_differ(p, q, 9);
    }
    if t == (OpStat { gc_time: t.gc_time, ..s }) {
        lemma_differ(p, q, 11);
    }
    if t == (OpStat { gc_freed: t.gc_freed, ..s }) {
        lemma_differ(p, q, 13);
    }
    if t == (OpStat { grow_cnt: t.grow_cnt, ..s }) {
        lemma_differ(p, q, 15);
    }
    if t == (OpStat { grow_time: t.grow_time, ..s }) {
        lemma_differ(p, q, 17);
    }
    if t == (OpStat { grow_newed: t.grow_newed, ..s }) {
        lemma_differ(p, q, 19);
    }
}

/// The reports are the same but for class `c` of the histogram.
pub open spec fn same_but_class(s: TableStatReport, t: TableStatReport, c: int) -> bool {
    &&& s == (TableStatReport { histogram: s.histogram, ..t })
    &&& forall|j: int| 0 <= j < 9 && j != c ==> #[trigger] s.histogram@[j] == t.histogram@[j]
}

/// What texts differ in, they differ in with the same text before them and after them.
proof fn lemma_differ_within(
    t: Seq<char>,
    u: Seq<char>,
    label: Seq<char>,
    x: Seq<char>,
    y: Seq<char>,
    end: Seq<char>,
    before: Seq<char>,
    after: Seq<char>,
)
    requires
        differ_in(t, u, label, x, y, end),
    ensures
        differ_in(before + t + after, before + u + after, label, x, y, end),
{
    let (a, b) = choose|a: Seq<char>, b: Seq<char>|
        t == #[trigger] (a + label + x + end + b) && u == a + label + y + end + b;
    let (c, d) = (before + a, b + after);
    assert(before + t + after =~= c + label + x + end + d);
    assert(before + u + after =~= c + label + y + end + d);
}

#[verifier::opaque]
spec fn lookups_parts(
    unique_access: usize,
    unique_chain: usize,
    unique_hit: usize,
    unique_miss: usize,
) -> Seq<Seq<char>> {
    seq![
        "unique_access: "@,
        decimal(unique_access as nat),
        ", unique_chain: "@,
        decimal(unique_chain as nat),
        ", unique_hit: "@,
        decimal(unique_hit as nat),
        ", unique_miss: "@,
        decimal(unique_miss as nat),
        Seq::empty(),
    ]
}

proof fn lemma_lookups_parts(
    unique_access: usize,
    unique_chain: usize,
    unique_hit: usize,
    unique_miss: usize,
    before: Seq<char>,
)
    ensures
        before + joined(lookups_parts(unique_access, unique_chain, unique_hit, unique_miss))
            == before + "unique_access: "@ + decimal(unique_access as nat) + ", unique_chain: "@
            + decimal(unique_chain as nat) + ", unique_hit: "@ + decimal(unique_hit as nat)
            + ", unique_miss: "@ + decimal(unique_miss as nat),
{
    reveal(lookups_parts);
    let p0 = Seq::<Seq<char>>::empty();
    let p1 = p0.push("unique_access: "@);
    lemma_joined_push(p0, "unique_access: "@);
    let p2 = p1.push(decimal(unique_access as nat));
    lemma_joined_push(p1, decimal(unique_access as nat));
    let p3 = p2.push(", unique_chain: "@);
    lemma_joined_push(p2, ", unique_chain: "@);
    let p4 = p3.push(decimal(unique_chain as nat));
    lemma_joined_push(p3, decimal(unique_chain as nat));
    let p5 = p4.push(", unique_hit: "@);
    lemma_joined_push(p4, ", unique_hit: "@);
    let p6 = p5.push(decimal(unique_hit as nat));
    lemma_joined_push(p5, decimal(unique_hit as nat));
    let p7 = p6.push(", unique_miss: "@);
    lemma_joined_push(p6, ", unique_miss: "@);
    let p8 = p7.push(decimal(unique_miss as nat));
    lemma_joined_push(p7, decimal(unique_miss as nat));
    let p9 = p8.push(Seq::<char>::empty());
    lemma_joined_push(p8, Seq::<char>::empty());
    assert(lookups_parts(unique_access, unique_chain, unique_hit, unique_miss) =~= p9);
    assert(joined(p1) =~= "unique_access: "@);
    assert(joined(p9) =~= joined(p8));
    let t1 = before + "unique_access: "@;
    assert(before + joined(p1) =~= t1);
    let t2 = t1 + decimal(unique_access as nat);
    assert(before + joined(p2) =~= t2);
    let t3 = t2 + ", unique_chain: "@;
    assert(before + joined(p3) =~= t3);
    let t4 = t3 + decimal(unique_chain as nat);
    assert(before + joined(p4) =~= t4);
    let t5 = t4 + ", unique_hit: "@;
    assert(before + joined(p5) =~= t5);
    let t6 = t5 + decimal(unique_hit as nat);
    assert(before + joined(p6) =~= t6);
    let t7 = t6 + ", unique_miss: "@;
    assert(before + joined(p7) =~= t7);
    let t8 = t7 + decimal(unique_miss as nat);
    assert(before + joined(p8) =~= t8);
}

#[verifier::opaque]
spec fn sizes_parts(
    table_size: usize,
    node_count: usize,
    load_factor: Seq<char>,
) -> Seq<Seq<char>> {
    seq![
        "\ntable_size: "@,
        decimal(table_size as nat),
        " buckets, node_count: "@,
        decimal(node_count as nat),
        ", load_factor: "@,
        load_factor,
        Seq::empty(),
    ]
}

proof fn lemma_sizes_parts(
    table_size: usize,
    node_count: usize,
    load_factor: Seq<char>,
    before: Seq<char>,
)
    ensures
        before + joined(sizes_parts(table_size, node_count, load_factor)) == before
            + "\ntable_size: "@ + decimal(table_size as nat) + " buckets, node_count: "@
            + decimal(node_count as nat) + ", load_factor: "@ + load_factor,
{
    reveal(sizes_parts);
    let p0 = Seq::<Seq<char>>::empty();
    let p1 = p0.push("\ntable_size: "@);
    lemma_joined_push(p0, "\ntable_size: "@);
    let p2 = p1.push(decimal(table_size as nat));
    lemma_joined_push(p1, decimal(table_size as nat));
    let p3 = p2.push(" buckets, node_count: "@);
    lemma_joined_push(p2, " buckets, node_count: "@);
    let p4 = p3.push(decimal(node_count as nat));
    lemma_joined_push(p3, decimal(node_count as nat));
    let p5 = p4.push(", load_factor: "@);
    lemma_joined_push(p4, ", load_factor: "@);
    let p6 = p5.push(load_factor);
    lemma_joined_push(p5, load_factor);
    let p7 = p6.push(Seq::<char>::empty());
    lemma_joined_push(p6, Seq::<char>::empty());
    assert(sizes_parts(table_size, node_count, load_factor) =~= p7);
    assert(joined(p1) =~= "\ntable_size: "@);
    assert(joined(p7) =~= joined(p6));
    let t1 = before + "\ntable_size: "@;
    assert(before + joined(p1) =~= t1);
    let t2 = t1 + decimal(table_size as nat);
    assert(before + joined(p2) =~= t2);
    let t3 = t2 + " buckets, node_count: "@;
    assert(before + joined(p3) =~= t3);
    let t4 = t3 + decimal(node_count as nat);
    assert(before + joined(p4) =~= t4);
    let t5 = t4 + ", load_factor: "@;
    assert(before + joined(p5) =~= t5);
    let t6 = t5 + load_factor;
    assert(before + joined(p6) =~= t6);
}

#[verifier::opaque]
spec fn buckets_parts(empty_buckets: usize, non_empty_buckets: usize) -> Seq<Seq<char>> {
    seq![
        "\nbuckets: empty: "@,
        decimal(empty_buckets as nat),
        ", non_empty: "@,
        decimal(non_empty_buckets as nat),
        Seq::empty(),
    ]
}

proof fn lemma_buckets_parts(empty_buckets: usize, non_empty_buckets: usize, before: Seq<char>)
    ensures
        before + joined(buckets_parts(empty_buckets, non_empty_buckets)) == before
            + "\nbuckets: empty: "@ + decimal(empty_buckets as nat) + ", non_empty: "@
            + decimal(non_empty_buckets as nat),
{
    reveal(buckets_parts);
    let p0 = Seq::<Seq<char>>::empty();
    let p1 = p0.push("\nbuckets: empty: "@);
    lemma_joined_push(p0, "\nbuckets: empty: "@);
    let p2 = p1.push(decimal(empty_buckets as nat));
    lemma_joined_push(p1, decimal(empty_buckets as nat));
    let p3 = p2.push(", non_empty: "@);
    lemma_joined_push(p2, ", non_empty: "@);
    let p4 = p3.push(decimal(non_empty_buckets as nat));
    lemma_joined_push(p3, decimal(non_empty_buckets as nat));
    let p5 = p4.push(Seq::<char>::empty());
    lemma_joined_push(p4, Seq::<char>::empty());
    assert(buckets_parts(empty_buckets, non_empty_buckets) =~= p5);
    assert(joined(p1) =~= "\nbuckets: empty: "@);
    assert(joined(p5) =~= joined(p4));
    let t1 = before + "\nbuckets: empty: "@;
    assert(before + joined(p1) =~= t1);
    let t2 = t1 + decimal(empty_buckets as nat);
    assert(before + joined(p2) =~= t2);
    let t3 = t2 + ", non_empty: "@;
    assert(before + joined(p3) =~= t3);
    let t4 = t3 + decimal(non_empty_buckets as nat);
    assert(before + joined(p4) =~= t4);
}

#[verifier::opaque]
spec fn chains_parts(
    min_chain_len: usize,
    max_chain_len: usize,
    average: Seq<char>,
) -> Seq<Seq<char>> {
    seq![
        "\nchain_len: min: "@,
        decimal(min_chain_len as nat),
        ", max: "@,
        decimal(max_chain_len as nat),
        ", avg_non_empty: "@,
        average,
        Seq::empty(),
    ]
}

proof fn lemma_chains_parts(
    min_chain_len: usize,
    max_chain_len: usize,
    average: Seq<char>,
    before: Seq<char>,
)
    ensures
        before + joined(chains_parts(min_chain_len, max_chain_len, average)) == before
            + "\nchain_len: min: "@ + decimal(min_chain_len as nat) + ", max: "@
            + decimal(max_chain_len as nat) + ", avg_non_empty: "@ + average,
{
    reveal(chains_parts);
    let p0 = Seq::<Seq<char>>::empty();
    let p1 = p0.push("\nchain_len: min: "@);
    lemma_joined_push(p0, "\nchain_len: min: "@);
    let p2 = p1.push(decimal(min_chain_len as nat));
    lemma_joined_push(p1, decimal(min_chain_len as nat));
    let p3 = p2.push(", max: "@);
    lemma_joined_push(p2, ", max: "@);
    let p4 = p3.push(decimal(max_chain_len as nat));
    lemma_joined_push(p3, decimal(max_chain_len as nat));
    let p5 = p4.push(", avg_non_empty: "@);
    lemma_joined_push(p4, ", avg_non_empty: "@);
    let p6 = p5.push(average);
    lemma_joined_push(p5, average);
    let p7 = p6.push(Seq::<char>::empty());
    lemma_joined_push(p6, Seq::<char>::empty());
    assert(chains_parts(min_chain_len, max_chain_len, average) =~= p7);
    assert(joined(p1) =~= "\nchain_len: min: "@);
    assert(joined(p7) =~= joined(p6));
    let t1 = before + "\nchain_len: min: "@;
    assert(before + joined(p1) =~= t1);
    let t2 = t1 + decimal(min_chain_len as nat);
    assert(before + joined(p2) =~= t2);
    let t3 = t2 + ", max: "@;
    assert(before + joined(p3) =~= t3);
    let t4 = t3 + decimal(max_chain_len as nat);
    assert(before + joined(p4) =~= t4);
    let t5 = t4 + ", avg_non_empty: "@;
    assert(before + joined(p5) =~= t5);
    let t6 = t5 + average;
    assert(before + joined(p6) =~= t6);
}

#[verifier::opaque]
spec fn histogram_parts(h: Seq<usize>) -> Seq<Seq<char>> {
    seq![
        "\nhistogram: 0: "@,
        decimal(h[0] as nat),
        ", 1: "@,
        decimal(h[1] as nat),
        ", 2-3: "@,
        decimal(h[2] as nat),
        ", 4-7: "@,
        decimal(h[3] as nat),
        ", 8-15: "@,
        decimal(h[4] as nat),
        ", 16-31: "@,
        decimal(h[5] as nat),
        ", 32-63: "@,
        decimal(h[6] as nat),
        ", 64-127: "@,
        decimal(h[7] as nat),
        ", 128+: "@,
        decimal(h[8] as nat),
        Seq::empty(),
    ]
}

#[verifier::rlimit(80)]
#[verifier::spinoff_prover]
proof fn lemma_histogram_parts(h: Seq<usize>, before: Seq<char>)
    ensures
        before + joined(histogram_parts(h)) == before + "\nhistogram: 0: "@ + decimal(h[0] as nat)
            + ", 1: "@ + decimal(h[1] as nat) + ", 2-3: "@ + decimal(h[2] as nat) + ", 4-7: "@
            + decimal(h[3] as nat) + ", 8-15: "@ + decimal(h[4] as nat) + ", 16-31: "@
            + decimal(h[5] as nat) + ", 32-63: "@ + decimal(h[6] as nat) + ", 64-127: "@
            + decimal(h[7] as nat) + ", 128+: "@ + decimal(h[8] as nat),
{
    reveal(histogram_parts);
    let p0 = Seq::<Seq<char>>::empty();
    let p1 = p0.push("\nhistogram: 0: "@);
    lemma_joined_push(p0, "\nhistogram: 0: "@);
    let p2 = p1.push(decimal(h[0] as nat));
    lemma_joined_push(p1, decimal(h[0] as nat));
    let p3 = p2.push(", 1: "@);
    lemma_joined_push(p2, ", 1: "@);
    let p4 = p3.push(decimal(h[1] as nat));
    lemma_joined_push(p3, decimal(h[1] as nat));
    let p5 = p4.push(", 2-3: "@);
    lemma_joined_push(p4, ", 2-3: "@);
    let p6 = p5.push(decimal(h[2] as nat));
    lemma_joined_push(p5, decimal(h[2] as nat));
    let p7 = p6.push(", 4-7: "@);
    lemma_joined_push(p6, ", 4-7: "@);
    let p8 = p7.push(decimal(h[3] as nat));
    lemma_joined_push(p7, decimal(h[3] as nat));
    let p9 = p8.push(", 8-15: "@);
    lemma_joined_push(p8, ", 8-15: "@);
    let p10 = p9.push(decimal(h[4] as nat));
    lemma_joined_push(p9, decimal(h[4] as nat));
    let p11 = p10.push(", 16-31: "@);
    lemma_joined_push(p10, ", 16-31: "@);
    let p12 = p11.push(decimal(h[5] as nat));
    lemma_joined_push(p11, decimal(h[5] as nat));
    let p13 = p12.push(", 32-63: "@);
    lemma_joined_push(p12, ", 32-63: "@);
    let p14 = p13.push(decimal(h[6] as nat));
    lemma_joined_push(p13, decimal(h[6] as nat));
    let p15 = p14.push(", 64-127: "@);
    lemma_joined_push(p14, ", 64-127: "@);
    let p16 = p15.push(decimal(h[7] as nat));
    lemma_joined_push(p15, decimal(h[7] as nat));
    let p17 = p16.push(", 128+: "@);
    lemma_joined_push(p16, ", 128+: "@);
    let p18 = p17.push(decimal(h[8] as nat));
    lemma_joined_push(p17, decimal(h[8] as nat));
    let p19 = p18.push(Seq::<char>::empty());
    lemma_joined_push(p18, Seq::<char>::empty());
    assert(histogram_parts(h) =~= p19);
    assert(joined(p1) =~= "\nhistogram: 0: "@);
    assert(joined(p19) =~= joined(p18));
    let t1 = before + "\nhistogram: 0: "@;
    assert(before + joined(p1) =~= t1);
    let t2 = t1 + decimal(h[0] as nat);
    assert(before + joined(p2) =~= t2);
    let t3 = t2 + ", 1: "@;
    assert(before + joined(p3) =~= t3);
    let t4 = t3 + decimal(h[1] as nat);
    assert(before + joined(p4) =~= t4);
    let t5 = t4 + ", 2-3: "@;
    assert(before + joined(p5) =~= t5);
    let t6 = t5 + decimal(h[2] as nat);
    assert(before + joined(p6) =~= t6);
    let t7 = t6 + ", 4-7: "@;
    assert(before + joined(p7) =~= t7);
    let t8 = t7 + decimal(h[3] as nat);
    assert(before + joined(p8) =~= t8);
    let t9 = t8 + ", 8-15: "@;
    assert(before + joined(p9) =~= t9);
    let t10 = t9 + decimal(h[4] as nat);
    assert(before + joined(p10) =~= t10);
    let t11 = t10 + ", 16-31: "@;
    assert(before + joined(p11) =~= t11);
    let t12 = t11 + decimal(h[5] as nat);
    assert(before + joined(p12) =~= t12);
    let t13 = t12 + ", 32-63: "@;
    assert(before + joined(p13) =~= t13);
    let t14 = t13 + decimal(h[6] as nat);
    assert(before + joined(p14) =~= t14);
    let t15 = t14 + ", 64-127: "@;
    assert(before + joined(p15) =~= t15);
    let t16 = t15 + decimal(h[7] as nat);
    assert(before + joined(p16) =~= t16);
    let t17 = t16 + ", 128+: "@;
    assert(before + joined(p17) =~= t17);
    let t18 = t17 + decimal(h[8] as nat);
    assert(before + joined(p18) =~= t18);
}

spec fn lookups_of(s: TableStatReport) -> Seq<Seq<char>> {
    lookups_parts(s.unique_access, s.unique_chain, s.unique_hit, s.unique_miss)
}

spec fn sizes_of(s: TableStatReport, load_factor: Seq<char>) -> Seq<Seq<char>> {
    sizes_parts(s.table_size, s.node_count, load_factor)
}

spec fn buckets_of(s: TableStatReport) -> Seq<Seq<char>> {
    buckets_parts(s.empty_buckets, s.non_empty_buckets)
}

spec fn chains_of(s: TableStatReport, average: Seq<char>) -> Seq<Seq<char>> {
    chains_parts(s.min_chain_len, s.max_chain_len, average)
}

/// A report is five lines.
#[verifier::rlimit(80)]
#[verifier::spinoff_prover]
proof fn lemma_report_lines(s: TableStatReport, load_factor: Seq<char>, average: Seq<char>)
    ensures
        s.text(load_factor, average) == joined(lookups_of(s)) + joined(sizes_of(s, load_factor))
            + joined(buckets_of(s)) + joined(chains_of(s, average))
            + joined(histogram_parts(s.histogram@)),
{
    let t0 = Seq::<char>::empty();
    let l1 = joined(lookups_of(s));
    lemma_lookups_parts(s.unique_access, s.unique_chain, s.unique_hit, s.unique_miss, t0);
    assert(t0 + l1 =~= l1);
    assert(t0 + "unique_access: "@ =~= "unique_access: "@);
    let t2 = l1 + joined(sizes_of(s, load_factor));
    lemma_sizes_parts(s.table_size, s.node_count, load_factor, l1);
    let t3 = t2 + joined(buckets_of(s));
    lemma_buckets_parts(s.empty_buckets, s.non_empty_buckets, t2);
    let t4 = t3 + joined(chains_of(s, average));
    lemma_chains_parts(s.min_chain_len, s.max_chain_len, average, t3);
    lemma_histogram_parts(s.histogram@, t4);
}

/// The counts of lookups each stand behind their label, and changing one of them changes nothing
/// else in the text of a report.
#[verifier::rlimit(80)]
#[verifier::spinoff_prover]
pub proof fn law_report_lookups(
    s: TableStatReport,
    t: TableStatReport,
    load_factor: Seq<char>,
    average: Seq<char>,
)
    ensures
        t == (TableStatReport { unique_access: t.unique_access, ..s }) ==> differ_in_count(
            s.text(load_factor, average),
            t.text(load_factor, average),
            "unique_access: "@,
            s.unique_access as nat,
            t.unique_access as nat,
            ", unique_chain: "@,
        ),
        t == (TableStatReport { unique_chain: t.unique_chain, ..s }) ==> differ_in_count(
            s.text(load_factor, average),
            t.text(load_factor, average),
            ", unique_chain: "@,
            s.unique_chain as nat,
            t.unique_chain as nat,
            ", unique_hit: "@,
        ),
        t == (TableStatReport { unique_hit: t.unique_hit, ..s }) ==> differ_in_count(
            s.text(load_factor, average),
            t.text(load_factor, average),
            ", unique_hit: "@,
            s.unique_hit as nat,
            t.unique_hit as nat,
            ", unique_miss: "@,
        ),
        t == (TableStatReport { unique_miss: t.unique_miss, ..s }) ==> differ_in_count(
            s.text(load_factor, average),
            t.text(load_factor, average),
            ", unique_miss: "@,
            s.unique_miss as nat,
            t.unique_miss as nat,
            Seq::empty(),
        ),
{
    let (p, q) = (lookups_of(s), lookups_of(t));
    let before = Seq::<char>::empty();
    let after = joined(sizes_of(s, load_factor)) + joined(buckets_of(s))
        + joined(chains_of(s, average)) + joined(histogram_parts(s.histogram@));
    lemma_report_lines(s, load_factor, average);
    lemma_report_lines(t, load_factor, average);
    assert(s.text(load_factor, average) =~= before + joined(p) + after);
    if t == (TableStatReport { unique_access: t.unique_access, ..s })
        || t == (TableStatReport { unique_chain: t.unique_chain, ..s })
        || t == (TableStatReport { unique_hit: t.unique_hit, ..s })
        || t == (TableStatReport { unique_miss: t.unique_miss, ..s }) {
        assert(t.text(load_factor, average) =~= before + joined(q) + after);
    }
    if t == (TableStatReport { unique_access: t.unique_access, ..s }) {
        assert(differ_in(
            joined(p),
            joined(q),
            "unique_access: "@,
            decimal(s.unique_access as nat),
            decimal(t.unique_access as nat),
            ", unique_chain: "@,
        )) by {
            reveal(lookups_parts);
            lemma_differ(p, q, 1);
        }
        lemma_differ_within(
            joined(p),
            joined(q),
            "unique_access: "@,
            decimal(s.unique_access as nat),
            decimal(t.unique_access as nat),
            ", unique_chain: "@,
            before,
            after,
        );
    }
    if t == (TableStatReport { unique_chain: t.unique_chain, ..s }) {
        assert(differ_in(
            joined(p),
            joined(q),
            ", unique_chain: "@,
            decimal(s.unique_chain as nat),
            decimal(t.unique_chain as nat),
            ", unique_hit: "@,
        )) by {
            reveal(lookups_parts);
            lemma_differ(p, q, 3);
        }
        lemma_differ_within(
            joined(p),
            joined(q),
            ", unique_chain: "@,
            decimal(s.unique_chain as nat),
            decimal(t.unique_chain as nat),
            ", unique_hit: "@,
            before,
            after,
        );
    }
    if t == (TableStatReport { unique_hit: t.unique_hit, ..s }) {
        assert(differ_in(
            joined(p),
            joined(q),
            ", unique_hit: "@,
            decimal(s.unique_hit as nat),
            decimal(t.unique_hit as nat),
            ", unique_miss: "@,
        )) by {
            reveal(lookups_parts);
            lemma_differ(p, q, 5);
        }
        lemma_differ_within(
            joined(p),
            joined(q),
            ", unique_hit: "@,
            decimal(s.unique_hit as nat),
            decimal(t.unique_hit as nat),
            ", unique_miss: "@,
            before,
            after,
        );
    }
    if t == (TableStatReport { unique_miss: t.unique_miss, ..s }) {
        assert(differ_in(
            joined(p),
            joined(q),
            ", unique_miss: "@,
            decimal(s.unique_miss as nat),
            decimal(t.unique_miss as nat),
            Seq::empty(),
        )) by {
            reveal(lookups_parts);
            lemma_differ(p, q, 7);
        }
        lemma_differ_within(
            joined(p),
            joined(q),
            ", unique_miss: "@,
            decimal(s.unique_miss as nat),
            decimal(t.unique_miss as nat),
            Seq::empty(),
            before,
            after,
        );
    }
}

/// The numbers of buckets and of nodes each stand behind their label, and changing one of them
/// changes nothing else in the text of a report.
#[verifier::rlimit(80)]
#[verifier::spinoff_prover]
pub proof fn law_report_sizes(
    s: TableStatReport,
    t: TableStatReport,
    load_factor: Seq<char>,
    average: Seq<char>,
)
    ensures
        t == (TableStatReport { table_size: t.table_size, ..s }) ==> differ_in_count(
            s.text(load_factor, average),
            t.text(load_factor, average),
            "\ntable_size: "@,
            s.table_size as nat,
            t.table_size as nat,
            " buckets, node_count: "@,
        ),
        t == (TableStatReport { node_count: t.node_count, ..s }) ==> differ_in_count(
            s.text(load_factor, average),
            t.text(load_factor, average),
            " buckets, node_count: "@,
            s.node_count as nat,
            t.node_count as nat,
            ", load_factor: "@,
        ),
{
    let (p, q) = (sizes_of(s, load_factor), sizes_of(t, load_factor));
    let before = joined(lookups_of(s));
    let after = joined(buckets_of(s)) + joined(chains_of(s, average))
        + joined(histogram_parts(s.histogram@));
    lemma_report_lines(s, load_factor, average);
    lemma_report_lines(t, load_factor, average);
    assert(s.text(load_factor, average) =~= before + joined(p) + after);
    if t == (TableStatReport { table_size: t.table_size, ..s })
        || t == (TableStatReport { node_count: t.node_count, ..s }) {
        assert(t.text(load_factor, average) =~= before + joined(q) + after);
    }
    if t == (TableStatReport { table_size: t.table_size, ..s }) {
        assert(differ_in(
            joined(p),
            joined(q),
            "\ntable_size: "@,
            decimal(s.table_size as nat),
            decimal(t.table_size as nat),
            " buckets, node_count: "@,
        )) by {
            reveal(sizes_parts);
            lemma_differ(p, q, 1);
        }
        lemma_differ_within(
            joined(p),
            joined(q),
            "\ntable_size: "@,
            decimal(s.table_size as nat),
            decimal(t.table_size as nat),
            " buckets, node_count: "@,
            before,
            after,
        );
    }
    if t == (TableStatReport { node_count: t.node_count, ..s }) {
        assert(differ_in(
            joined(p),
            joined(q),
            " buckets, node_count: "@,
            decimal(s.node_count as nat),
            decimal(t.node_count as nat),
            ", load_factor: "@,
        )) by {
            reveal(sizes_parts);
            lemma_differ(p, q, 3);
        }
        lemma_differ_within(
            joined(p),
            joined(q),
            " buckets, node_count: "@,
            decimal(s.node_count as nat),
            decimal(t.node_count as nat),
            ", load_factor: "@,
            before,
            after,
        );
    }
}

/// The numbers of empty and of other buckets each stand behind their label, and changing one of
/// them changes nothing else in the text of a report.
#[verifier::rlimit(80)]
#[verifier::spinoff_prover]
pub proof fn law_report_buckets(
    s: TableStatReport,
    t: TableStatReport,
    load_factor: Seq<char>,
    average: Seq<char>,
)
    ensures
        t == (TableStatReport { empty_buckets: t.empty_buckets, ..s }) ==> differ_in_count(
            s.text(load_factor, average),
            t.text(load_factor, average),
            "\nbuckets: empty: "@,
            s.empty_buckets as nat,
            t.empty_buckets as nat,
            ", non_empty: "@,
        ),
        t == (TableStatReport { non_empty_buckets: t.non_empty_buckets, ..s }) ==> differ_in_count(
            s.text(load_factor, average),
            t.text(load_factor, average),
            ", non_empty: "@,
            s.non_empty_buckets as nat,
            t.non_empty_buckets as nat,
            Seq::empty(),
        ),
{
    let (p, q) = (buckets_of(s), buckets_of(t));
    let before = joined(lookups_of(s)) + joined(sizes_of(s, load_factor));
    let after = joined(chains_of(s, average)) + joined(histogram_parts(s.histogram@));
    lemma_report_lines(s, load_factor, average);
    lemma_report_lines(t, load_factor, average);
    assert(s.text(load_factor, average) =~= before + joined(p) + after);
    if t == (TableStatReport { empty_buckets: t.empty_buckets, ..s })
        || t == (TableStatReport { non_empty_buckets: t.non_empty_buckets, ..s }) {
        assert(t.text(load_factor, average) =~= before + joined(q) + after);
    }
    if t == (TableStatReport { empty_buckets: t.empty_buckets, ..s }) {
        assert(differ_in(
            joined(p),
            joined(q),
            "\nbuckets: empty: "@,
            decimal(s.empty_buckets as nat),
            decimal(t.empty_buckets as nat),
            ", non_empty: "@,
        )) by {
            reveal(buckets_parts);
            lemma_differ(p, q, 1);
        }
        lemma_differ_within(
            joined(p),
            joined(q),
            "\nbuckets: empty: "@,
            decimal(s.empty_buckets as nat),
            decimal(t.empty_buckets as nat),
            ", non_empty: "@,
            before,
            after,
        );
    }
    if t == (TableStatReport { non_empty_buckets: t.non_empty_buckets, ..s }) {
        assert(differ_in(
            joined(p),
            joined(q),
            ", non_empty: "@,
            decimal(s.non_empty_buckets as nat),
            decimal(t.non_empty_buckets as nat),
            Seq::empty(),
        )) by {
            reveal(buckets_parts);
            lemma_differ(p, q, 3);
        }
        lemma_differ_within(
            joined(p),
            joined(q),
            ", non_empty: "@,
            decimal(s.non_empty_buckets as nat),
            decimal(t.non_empty_buckets as nat),
            Seq::empty(),
            before,
            after,
        );
    }
}

/// The least and the greatest length of a chain each stand behind their label, and changing one of
/// them changes nothing else in the text of a report.
#[verifier::rlimit(80)]
#[verifier::spinoff_prover]
pub proof fn law_report_chains(
    s: TableStatReport,
    t: TableStatReport,
    load_factor: Seq<char>,
    average: Seq<char>,
)
    ensures
        t == (TableStatReport { min_chain_len: t.min_chain_len, ..s }) ==> differ_in_count(
            s.text(load_factor, average),
            t.text(load_factor, average),
            "\nchain_len: min: "@,
            s.min_chain_len as nat,
            t.min_chain_len as nat,
            ", max: "@,
        ),
        t == (TableStatReport { max_chain_len: t.max_chain_len, ..s }) ==> differ_in_count(
            s.text(load_factor, average),
            t.text(load_factor, average),
            ", max: "@,
            s.max_chain_len as nat,
            t.max_chain_len as nat,
            ", avg_non_empty: "@,
        ),
{
    let (p, q) = (chains_of(s, average), chains_of(t, average));
    let before = joined(lookups_of(s)) + joined(sizes_of(s, load_factor)) + joined(buckets_of(s));
    let after = joined(histogram_parts(s.histogram@));
    lemma_report_lines(s, load_factor, average);
    lemma_report_lines(t, load_factor, average);
    assert(s.text(load_factor, average) =~= before + joined(p) + after);
    if t == (TableStatReport { min_chain_len: t.min_chain_len, ..s })
        || t == (TableStatReport { max_chain_len: t.max_chain_len, ..s }) {
        assert(t.text(load_factor, average) =~= before + joined(q) + after);
    }
    if t == (TableStatReport { min_chain_len: t.min_chain_len, ..s }) {
        assert(differ_in(
            joined(p),
            joined(q),
            "\nchain_len: min: "@,
            decimal(s.min_chain_len as nat),
            decimal(t.min_chain_len as nat),
            ", max: "@,
        )) by {
            reveal(chains_parts);
            lemma_differ(p, q, 1);
        }
        lemma_differ_within(
            joined(p),
            joined(q),
            "\nchain_len: min: "@,
            decimal(s.min_chain_len as nat),
            decimal(t.min_chain_len as nat),
            ", max: "@,
            before,
            after,
        );
    }
    if t == (TableStatReport { max_chain_len: t.max_chain_len, ..s }) {
        assert(differ_in(
            joined(p),
            joined(q),
            ", max: "@,
            decimal(s.max_chain_len as nat),
            decimal(t.max_chain_len as nat),
            ", avg_non_empty: "@,
        )) by {
            reveal(chains_parts);
            lemma_differ(p, q, 3);
        }
        lemma_differ_within(
            joined(p),
            joined(q),
            ", max: "@,
            decimal(s.max_chain_len as nat),
            decimal(t.max_chain_len as nat),
            ", avg_non_empty: "@,
            before,
            after,
        );
    }
}

/// The classes of the histogram stand behind the lengths that they are for, and changing one of
/// them changes nothing else in the text of a report.
#[verifier::rlimit(80)]
#[verifier::spinoff_prover]
pub proof fn law_report_histogram(
    s: TableStatReport,
    t: TableStatReport,
    load_factor: Seq<char>,
    average: Seq<char>,
)
    ensures
        same_but_class(s, t, 0) ==> differ_in_count(
            s.text(load_factor, average),
            t.text(load_factor, average),
            "\nhistogram: 0: "@,
            s.histogram@[0] as nat,
            t.histogram@[0] as nat,
            ", 1: "@,
        ),
        same_but_class(s, t, 1) ==> differ_in_count(
            s.text(load_factor, average),
            t.text(load_factor, average),
            ", 1: "@,
            s.histogram@[1] as nat,
            t.histogram@[1] as nat,
            ", 2-3: "@,
        ),
        same_but_class(s, t, 2) ==> differ_in_count(
            s.text(load_factor, average),
            t.text(load_factor, average),
            ", 2-3: "@,
            s.histogram@[2] as nat,
            t.histogram@[2] as nat,
            ", 4-7: "@,
        ),
        same_but_class(s, t, 3) ==> differ_in_count(
            s.text(load_factor, average),
            t.text(load_factor, average),
            ", 4-7: "@,
            s.histogram@[3] as nat,
            t.histogram@[3] as nat,
            ", 8-15: "@,
        ),
        same_but_class(s, t, 4) ==> differ_in_count(
            s.text(load_factor, average),
            t.text(load_factor, average),
            ", 8-15: "@,
            s.histogram@[4] as nat,
            t.histogram@[4] as nat,
            ", 16-31: "@,
        ),
        same_but_class(s, t, 5) ==> differ_in_count(
            s.text(load_factor, average),
            t.text(load_factor, average),
            ", 16-31: "@,
            s.histogram@[5] as nat,
            t.histogram@[5] as nat,
            ", 32-63: "@,
        ),
        same_but_class(s, t, 6) ==> differ_in_count(
            s.text(load_factor, average),
            t.text(load_factor, average),
            ", 32-63: "@,
            s.histogram@[6] as nat,
            t.histogram@[6] as nat,
            ", 64-127: "@,
        ),
        same_but_class(s, t, 7) ==> differ_in_count(
            s.text(load_factor, average),
            t.text(load_factor, average),
            ", 64-127: "@,
            s.histogram@[7] as nat,
            t.histogram@[7] as nat,
            ", 128+: "@,
        ),
        same_but_class(s, t, 8) ==> differ_in_count(
            s.text(load_factor, average),
            t.text(load_factor, average),
            ", 128+: "@,
            s.histogram@[8] as nat,
            t.histogram@[8] as nat,
            Seq::empty(),
        ),
{
    let (p, q) = (histogram_parts(s.histogram@), histogram_parts(t.histogram@));
    let before = joined(lookups_of(s)) + joined(sizes_of(s, load_factor)) + joined(buckets_of(s))
        + joined(chains_of(s, average));
    let after = Seq::<char>::empty();
    lemma_report_lines(s, load_factor, average);
    lemma_report_lines(t, load_factor, average);
    assert(s.text(load_factor, average) =~= before + joined(p) + after);
    if same_but_class(s, t, 0) || same_but_class(s, t, 1) || same_but_class(s, t, 2)
        || same_but_class(s, t, 3) || same_but_class(s, t, 4) || same_but_class(s, t, 5)
        || same_but_class(s, t, 6) || same_but_class(s, t, 7) || same_but_class(s, t, 8) {
        assert(t.text(load_factor, average) =~= before + joined(q) + after);
    }
    if same_but_class(s, t, 0) {
        assert(differ_in(
            joined(p),
            joined(q),
            "\nhistogram: 0: "@,
            decimal(s.histogram@[0] as nat),
            decimal(t.histogram@[0] as nat),
            ", 1: "@,
        )) by {
            reveal(histogram_parts);
            lemma_differ(p, q, 1);
        }
        lemma_differ_within(
            joined(p),
            joined(q),
            "\nhistogram: 0: "@,
            decimal(s.histogram@[0] as nat),
            decimal(t.histogram@[0] as nat),
            ", 1: "@,
            before,
            after,
        );
    }
    if same_but_class(s, t, 1) {
        assert(differ_in(
            joined(p),
            joined(q),
            ", 1: "@,
            decimal(s.histogram@[1] as nat),
            decimal(t.histogram@[1] as nat),
            ", 2-3: "@,
        )) by {
            reveal(histogram_parts);
            lemma_differ(p, q, 3);
        }
        lemma_differ_within(
            joined(p),
            joined(q),
            ", 1: "@,
            decimal(s.histogram@[1] as nat),
            decimal(t.histogram@[1] as nat),
            ", 2-3: "@,
            before,
            after,
        );
    }
    if same_but_class(s, t, 2) {
        assert(differ_in(
            joined(p),
            joined(q),
            ", 2-3: "@,
            decimal(s.histogram@[2] as nat),
            decimal(t.histogram@[2] as nat),
            ", 4-7: "@,
        )) by {
            reveal(histogram_parts);
            lemma_differ(p, q, 5);
        }
        lemma_differ_within(
            joined(p),
            joined(q),
            ", 2-3: "@,
            decimal(s.histogram@[2] as nat),
            decimal(t.histogram@[2] as nat),
            ", 4-7: "@,
            before,
            after,
        );
    }
    if same_but_class(s, t, 3) {
        assert(differ_in(
            joined(p),
            joined(q),
            ", 4-7: "@,
            decimal(s.histogram@[3] as nat),
            decimal(t.histogram@[3] as nat),
            ", 8-15: "@,
        )) by {
            reveal(histogram_parts);
            lemma_differ(p, q, 7);
        }
        lemma_differ_within(
            joined(p),
            joined(q),
            ", 4-7: "@,
            decimal(s.histogram@[3] as nat),
            decimal(t.histogram@[3] as nat),
            ", 8-15: "@,
            before,
            after,
        );
    }
    if same_but_class(s, t, 4) {
        assert(differ_in(
            joined(p),
            joined(q),
            ", 8-15: "@,
            decimal(s.histogram@[4] as nat),
            decimal(t.histogram@[4] as nat),
            ", 16-31: "@,
        )) by {
            reveal(histogram_parts);
            lemma_differ(p, q, 9);
        }
        lemma_differ_within(
            joined(p),
            joined(q),
            ", 8-15: "@,
            decimal(s.histogram@[4] as nat),
            decimal(t.histogram@[4] as nat),
            ", 16-31: "@,
            before,
            after,
        );
    }
    if same_but_class(s, t, 5) {
        assert(differ_in(
            joined(p),
            joined(q),
            ", 16-31: "@,
            decimal(s.histogram@[5] as nat),
            decimal(t.histogram@[5] as nat),
            ", 32-63: "@,
        )) by {
            reveal(histogram_parts);
            lemma_differ(p, q, 11);
        }
        lemma_differ_within(
            joined(p),
            joined(q),
            ", 16-31: "@,
            decimal(s.histogram@[5] as nat),
            decimal(t.histogram@[5] as nat),
            ", 32-63: "@,
            before,
            after,
        );
    }
    if same_but_class(s, t, 6) {
        assert(differ_in(
            joined(p),
            joined(q),
            ", 32-63: "@,
            decimal(s.histogram@[6] as nat),
            decimal(t.histogram@[6] as nat),
            ", 64-127: "@,
        )) by {
            reveal(histogram_parts);
            lemma_differ(p, q, 13);
        }
        lemma_differ_within(
            joined(p),
            joined(q),
            ", 32-63: "@,
            decimal(s.histogram@[6] as nat),
            decimal(t.histogram@[6] as nat),
            ", 64-127: "@,
            before,
            after,
        );
    }
    if same_but_class(s, t, 7) {
        assert(differ_in(
            joined(p),
            joined(q),
            ", 64-127: "@,
            decimal(s.histogram@[7] as nat),
            decimal(t.histogram@[7] as nat),
            ", 128+: "@,
        )) by {
            reveal(histogram_parts);
            lemma_differ(p, q, 15);
        }
        lemma_differ_within(
            joined(p),
            joined(q),
            ", 64-127: "@,
            decimal(s.histogram@[7] as nat),
            decimal(t.histogram@[7] as nat),
            ", 128+: "@,
            before,
            after,
        );
    }
    if same_but_class(s, t, 8) {
        assert(differ_in(
            joined(p),
            joined(q),
            ", 128+: "@,
            decimal(s.histogram@[8] as nat),
            decimal(t.histogram@[8] as nat),
            Seq::empty(),
        )) by {
            reveal(histogram_parts);
            lemma_differ(p, q, 17);
        }
        lemma_differ_within(
            joined(p),
            joined(q),
            ", 128+: "@,
            decimal(s.histogram@[8] as nat),
            decimal(t.histogram@[8] as nat),
            Seq::empty(),
            before,
            after,
        );
    }
}

/// The averages of a report stand behind their labels, as they are given.
#[verifier::rlimit(80)]
#[verifier::spinoff_prover]
pub proof fn law_report_averages(
    s: TableStatReport,
    load_factor: Seq<char>,
    other_factor: Seq<char>,
    average: Seq<char>,
    other_average: Seq<char>,
)
    ensures
        differ_in(
            s.text(load_factor, average),
            s.text(other_factor, average),
            ", load_factor: "@,
            load_factor,
            other_factor,
            Seq::empty(),
        ),
        differ_in(
            s.text(load_factor, average),
            s.text(load_factor, other_average),
            ", avg_non_empty: "@,
            average,
            other_average,
            Seq::empty(),
        ),
{
    lemma_report_lines(s, load_factor, average);
    lemma_report_lines(s, other_factor, average);
    lemma_report_lines(s, load_factor, other_average);
    let lookups = joined(lookups_of(s));
    let buckets = joined(buckets_of(s));
    let histogram = joined(histogram_parts(s.histogram@));
    let p = sizes_of(s, load_factor);
    let q = sizes_of(s, other_factor);
    let v = chains_of(s, average);
    let w = chains_of(s, other_average);
    assert(differ_in(
        joined(p),
        joined(q),
        ", load_factor: "@,
        load_factor,
        other_factor,
        Seq::empty(),
    )) by {
        reveal(sizes_parts);
        lemma_differ(p, q, 5);
    }
    assert(differ_in(
        joined(v),
        joined(w),
        ", avg_non_empty: "@,
        average,
        other_average,
        Seq::empty(),
    )) by {
        reveal(chains_parts);
        lemma_differ(v, w, 5);
    }
    let after = buckets + joined(v) + histogram;
    lemma_differ_within(
        joined(p),
        joined(q),
        ", load_factor: "@,
        load_factor,
        other_factor,
        Seq::empty(),
        lookups,
        after,
    );
    assert(s.text(load_factor, average) =~= lookups + joined(p) + after);
    assert(s.text(other_factor, average) =~= lookups + joined(q) + after);
    let before = lookups + joined(p) + buckets;
    lemma_differ_within(
        joined(v),
        joined(w),
        ", avg_non_empty: "@,
        average,
        other_average,
        Seq::empty(),
        before,
        histogram,
    );
}

/// The rate of retries of a lock stands behind its label, as it is given.
pub proof fn law_lock_rate(s: RwLockStat, rate: Seq<char>, other: Seq<char>)
    ensures
        differ_in(s.text(rate), s.text(other), " (retry_rate: "@, rate, other, "%)"@),
{
    lemma_lock_parts(s, rate);
    lemma_lock_parts(s, other);
    lemma_differ(lock_parts(s, rate), lock_parts(s, other), 7);
}

/// The name of an operation in a heading.
pub open spec fn name_of(op: BddOpType) -> Seq<char> {
    match op {
        BddOpType::Not => "NOT"@,
        BddOpType::And => "AND"@,
        BddOpType::Or => "OR"@,
        BddOpType::Comp => "COMP"@,
        BddOpType::QuantExist => "QUANT_EXIST"@,
        BddOpType::QuantForall => "QUANT_FORALL"@,
    }
}

/// What a heading says of a cache.
pub open spec fn told_of_cache(stat: CacheStat) -> Seq<char> {
    "unique_hit: "@ + decimal(stat.unique_hit as nat) + ", unique_miss: "@ + decimal(
        stat.unique_miss as nat,
    )
}

/// Two texts are the same but for the end of one line, which starts with `label`: `x` in the one
/// and `y` in the other.
pub open spec fn differ_in_line(
    t: Seq<char>,
    u: Seq<char>,
    label: Seq<char>,
    x: Seq<char>,
    y: Seq<char>,
) -> bool {
    exists|a: Seq<char>, b: Seq<char>|
        a.len() > 0 && a.last() == '\n' && t == #[trigger] (a + label + x + "\n"@ + b) && u == a
            + label + y + "\n"@ + b
}

/// The line of a cache in a heading.
#[verifier::opaque]
spec fn line_of(op: BddOpType, stat: CacheStat) -> Seq<char> {
    name_of(op) + " cache stat: "@ + told_of_cache(stat) + "\n"@
}

/// The first lines of a heading.
#[verifier::opaque]
spec fn head_parts(nodes: nat, buckets: nat, vars: nat) -> Seq<Seq<char>> {
    seq![
        "TOBDD Debug Information\nnode_num: "@,
        decimal(nodes),
        "\nbucket_size: "@,
        decimal(buckets),
        "\nvar_num: "@,
        decimal(vars),
        "\n"@,
    ]
}

spec fn head_of(m: &Manager) -> Seq<Seq<char>> {
    head_parts(m.diagram().nodes.dom().len(), pow2(m.diagram().table_exp), m.diagram().num_vars())
}

proof fn lemma_heading(m: &Manager)
    ensures
        m.heading_text() == joined(head_of(m)) + line_of(
            BddOpType::Not,
            m.cache_stat(BddOpType::Not),
        ) + line_of(BddOpType::And, m.cache_stat(BddOpType::And)) + line_of(
            BddOpType::Or,
            m.cache_stat(BddOpType::Or),
        ) + line_of(BddOpType::Comp, m.cache_stat(BddOpType::Comp)) + line_of(
            BddOpType::QuantExist,
            m.cache_stat(BddOpType::QuantExist),
        ) + line_of(BddOpType::QuantForall, m.cache_stat(BddOpType::QuantForall)),
        joined(head_of(m)).len() > 0,
        joined(head_of(m)).last() == '\n',
{
    reveal(head_parts);
    reveal(line_of);
    reveal_strlit("\n");
    let d = m.diagram();
    let p0 = Seq::<Seq<char>>::empty();
    let p1 = p0.push("TOBDD Debug Information\nnode_num: "@);
    let p2 = p1.push(decimal(d.nodes.dom().len()));
    let p3 = p2.push("\nbucket_size: "@);
    let p4 = p3.push(decimal(pow2(d.table_exp)));
    let p5 = p4.push("\nvar_num: "@);
    let p6 = p5.push(decimal(d.num_vars()));
    let p7 = p6.push("\n"@);
    lemma_joined_push(p0, "TOBDD Debug Information\nnode_num: "@);
    lemma_joined_push(p1, decimal(d.nodes.dom().len()));
    lemma_joined_push(p2, "\nbucket_size: "@);
    lemma_joined_push(p3, decimal(pow2(d.table_exp)));
    lemma_joined_push(p4, "\nvar_num: "@);
    lemma_joined_push(p5, decimal(d.num_vars()));
    lemma_joined_push(p6, "\n"@);
    assert(head_of(m) =~= p7);
    assert(joined(p1) =~= "TOBDD Debug Information\nnode_num: "@);
}

/// The lines of a heading, the first ones together.
#[verifier::opaque]
spec fn heading_lines(m: &Manager) -> Seq<Seq<char>> {
    seq![
        joined(head_of(m)),
        line_of(BddOpType::Not, m.cache_stat(BddOpType::Not)),
        line_of(BddOpType::And, m.cache_stat(BddOpType::And)),
        line_of(BddOpType::Or, m.cache_stat(BddOpType::Or)),
        line_of(BddOpType::Comp, m.cache_stat(BddOpType::Comp)),
        line_of(BddOpType::QuantExist, m.cache_stat(BddOpType::QuantExist)),
        line_of(BddOpType::QuantForall, m.cache_stat(BddOpType::QuantForall)),
    ]
}

/// The place of a cache's line among them.
spec fn line_place(op: BddOpType) -> int {
    match op {
        BddOpType::Not => 1,
        BddOpType::And => 2,
        BddOpType::Or => 3,
        BddOpType::Comp => 4,
        BddOpType::QuantExist => 5,
        BddOpType::QuantForall => 6,
    }
}

proof fn lemma_heading_lines(m: &Manager)
    ensures
        joined(heading_lines(m)) == m.heading_text(),
        heading_lines(m).len() == 7,
        forall|op: BddOpType| heading_lines(m)[#[trigger] line_place(op)] == line_of(
            op,
            m.cache_stat(op),
        ),
        heading_lines(m)[0] == joined(head_of(m)),
        forall|j: int|
            0 <= j < 7 ==> (#[trigger] heading_lines(m)[j]).len() > 0
                && heading_lines(m)[j].last() == '\n',
{
    reveal(heading_lines);
    lemma_heading(m);
    let p0 = Seq::<Seq<char>>::empty();
    let p1 = p0.push(joined(head_of(m)));
    lemma_joined_push(p0, joined(head_of(m)));
    assert(joined(p1) =~= joined(head_of(m)));
    let l0 = line_of(BddOpType::Not, m.cache_stat(BddOpType::Not));
    let p2 = p1.push(l0);
    lemma_joined_push(p1, l0);
    lemma_line_end(BddOpType::Not, m.cache_stat(BddOpType::Not));
    let l1 = line_of(BddOpType::And, m.cache_stat(BddOpType::And));
    let p3 = p2.push(l1);
    lemma_joined_push(p2, l1);
    lemma_line_end(BddOpType::And, m.cache_stat(BddOpType::And));
    let l2 = line_of(BddOpType::Or, m.cache_stat(BddOpType::Or));
    let p4 = p3.push(l2);
    lemma_joined_push(p3, l2);
    lemma_line_end(BddOpType::Or, m.cache_stat(BddOpType::Or));
    let l3 = line_of(BddOpType::Comp, m.cache_stat(BddOpType::Comp));
    let p5 = p4.push(l3);
    lemma_joined_push(p4, l3);
    lemma_line_end(BddOpType::Comp, m.cache_stat(BddOpType::Comp));
    let l4 = line_of(BddOpType::QuantExist, m.cache_stat(BddOpType::QuantExist));
    let p6 = p5.push(l4);
    lemma_joined_push(p5, l4);
    lemma_line_end(BddOpType::QuantExist, m.cache_stat(BddOpType::QuantExist));
    let l5 = line_of(BddOpType::QuantForall, m.cache_stat(BddOpType::QuantForall));
    let p7 = p6.push(l5);
    lemma_joined_push(p6, l5);
    lemma_line_end(BddOpType::QuantForall, m.cache_stat(BddOpType::QuantForall));
    assert(heading_lines(m) =~= p7);
}

/// Each cache has a line of its own in a heading, which starts with the name of its operation and
/// ends in its hits and misses: where two managers are alike but for what the cache of `op` has
/// counted, their headings are alike but for the line of `op`.
pub proof fn law_heading(m: &Manager, n: &Manager, op: BddOpType)
    requires
        m.diagram().nodes.dom().len() == n.diagram().nodes.dom().len(),
        m.diagram().table_exp == n.diagram().table_exp,
        m.diagram().vars.len() == n.diagram().vars.len(),
        forall|other: BddOpType|
            other != op ==> #[trigger] m.cache_stat(other) == n.cache_stat(other),
    ensures
        differ_in_line(
            m.heading_text(),
            n.heading_text(),
            name_of(op) + " cache stat: "@,
            told_of_cache(m.cache_stat(op)),
            told_of_cache(n.cache_stat(op)),
        ),
{
    lemma_heading_lines(m);
    lemma_heading_lines(n);
    let (p, q) = (heading_lines(m), heading_lines(n));
    let i = line_place(op);
    assert(head_of(m) == head_of(n));
    assert forall|j: int| 0 <= j < 7 && j != i implies #[trigger] p[j] == q[j] by {
        if j > 0 {
            let other = if j == 1 {
                BddOpType::Not
            } else if j == 2 {
                BddOpType::And
            } else if j == 3 {
                BddOpType::Or
            } else if j == 4 {
                BddOpType::Comp
            } else if j == 5 {
                BddOpType::QuantExist
            } else {
                BddOpType::QuantForall
            };
            assert(line_place(other) == j);
            assert(m.cache_stat(other) == n.cache_stat(other));
        }
    }
    lemma_one_line(p, q, i, op, m.cache_stat(op), n.cache_stat(op));
}

/// Lines in a row that differ in one are texts that differ in that line.
proof fn lemma_one_line(
    p: Seq<Seq<char>>,
    q: Seq<Seq<char>>,
    i: int,
    op: BddOpType,
    x: CacheStat,
    y: CacheStat,
)
    requires
        p.len() == q.len(),
        1 <= i < p.len(),
        forall|j: int| 0 <= j < p.len() && j != i ==> #[trigger] p[j] == q[j],
        p[i - 1].len() > 0,
        p[i - 1].last() == '\n',
        p[i] == line_of(op, x),
        q[i] == line_of(op, y),
    ensures
        differ_in_line(
            joined(p),
            joined(q),
            name_of(op) + " cache stat: "@,
            told_of_cache(x),
            told_of_cache(y),
        ),
{
    let a = joined(p.take(i));
    let b = joined(p.skip(i + 1));
    assert(p.take(i) =~= q.take(i));
    assert(p.skip(i + 1) =~= q.skip(i + 1));
    lemma_joined_split(p, i + 1);
    lemma_joined_split(q, i + 1);
    assert(p.take(i + 1) =~= p.take(i).push(p[i]));
    assert(q.take(i + 1) =~= q.take(i).push(q[i]));
    lemma_joined_push(p.take(i), p[i]);
    lemma_joined_push(q.take(i), q[i]);
    assert(p.take(i) =~= p.take(i - 1).push(p[i - 1]));
    lemma_joined_push(p.take(i - 1), p[i - 1]);
    let label = name_of(op) + " cache stat: "@;
    reveal(line_of);
    assert(joined(p) =~= a + label + told_of_cache(x) + "\n"@ + b);
    assert(joined(q) =~= a + label + told_of_cache(y) + "\n"@ + b);
    assert(a.last() == '\n');
}

proof fn lemma_line_end(op: BddOpType, stat: CacheStat)
    ensures
        line_of(op, stat).len() > 0,
        line_of(op, stat).last() == '\n',
{
    reveal(line_of);
    reveal_strlit("\n");
}

/// The numbers of nodes, buckets and variables each stand behind their label in a heading: where
/// two managers are alike but for one of them, so are their headings.
pub proof fn law_heading_sizes(m: &Manager, n: &Manager)
    requires
        forall|op: BddOpType| #[trigger] m.cache_stat(op) == n.cache_stat(op),
    ensures
        m.diagram().table_exp == n.diagram().table_exp && m.diagram().vars.len()
            == n.diagram().vars.len() ==> differ_in_count(
            m.heading_text(),
            n.heading_text(),
            "TOBDD Debug Information\nnode_num: "@,
            m.diagram().nodes.dom().len(),
            n.diagram().nodes.dom().len(),
            "\nbucket_size: "@,
        ),
        m.diagram().nodes.dom().len() == n.diagram().nodes.dom().len() && m.diagram().vars.len()
            == n.diagram().vars.len() ==> differ_in_count(
            m.heading_text(),
            n.heading_text(),
            "\nbucket_size: "@,
            pow2(m.diagram().table_exp),
            pow2(n.diagram().table_exp),
            "\nvar_num: "@,
        ),
        m.diagram().nodes.dom().len() == n.diagram().nodes.dom().len() && m.diagram().table_exp
            == n.diagram().table_exp ==> differ_in_count(
            m.heading_text(),
            n.heading_text(),
            "\nvar_num: "@,
            m.diagram().vars.len(),
            n.diagram().vars.len(),
            "\n"@,
        ),
{
    lemma_heading(m);
    lemma_heading(n);
    assert(m.cache_stat(BddOpType::Not) == n.cache_stat(BddOpType::Not));
    assert(m.cache_stat(BddOpType::And) == n.cache_stat(BddOpType::And));
    assert(m.cache_stat(BddOpType::Or) == n.cache_stat(BddOpType::Or));
    assert(m.cache_stat(BddOpType::Comp) == n.cache_stat(BddOpType::Comp));
    assert(m.cache_stat(BddOpType::QuantExist) == n.cache_stat(BddOpType::QuantExist));
    assert(m.cache_stat(BddOpType::QuantForall) == n.cache_stat(BddOpType::QuantForall));
    let (p, q) = (head_of(m), head_of(n));
    let l0 = line_of(BddOpType::Not, m.cache_stat(BddOpType::Not));
    let l1 = line_of(BddOpType::And, m.cache_stat(BddOpType::And));
    let l2 = line_of(BddOpType::Or, m.cache_stat(BddOpType::Or));
    let l3 = line_of(BddOpType::Comp, m.cache_stat(BddOpType::Comp));
    let l4 = line_of(BddOpType::QuantExist, m.cache_stat(BddOpType::QuantExist));
    let l5 = line_of(BddOpType::QuantForall, m.cache_stat(BddOpType::QuantForall));
    let before = Seq::<char>::empty();
    let after = l0 + l1 + l2 + l3 + l4 + l5;
    assert(m.heading_text() =~= before + joined(p) + after);
    assert(n.heading_text() =~= before + joined(q) + after);
    let (d, e) = (m.diagram(), n.diagram());
    let (x, y) = (d.nodes.dom().len(), e.nodes.dom().len());
    let (label, end) = ("TOBDD Debug Information\nnode_num: "@, "\nbucket_size: "@);
    if d.table_exp == e.table_exp && d.vars.len() == e.vars.len() {
        assert(differ_in(joined(p), joined(q), label, decimal(x), decimal(y), end)) by {
            reveal(head_parts);
            lemma_differ(p, q, 1);
        }
        let (v, w) = (decimal(x), decimal(y));
        lemma_differ_within(joined(p), joined(q), label, v, w, end, before, after);
    }
    if x == y && d.vars.len() == e.vars.len() {
        let (v, w) = (decimal(pow2(d.table_exp)), decimal(pow2(e.table_exp)));
        assert(differ_in(joined(p), joined(q), "\nbucket_size: "@, v, w, "\nvar_num: "@)) by {
            reveal(head_parts);
            lemma_differ(p, q, 3);
        }
        let (label, end) = ("\nbucket_size: "@, "\nvar_num: "@);
        lemma_differ_within(joined(p), joined(q), label, v, w, end, before, after);
    }
    if x == y && d.table_exp == e.table_exp {
        let (v, w) = (decimal(d.vars.len()), decimal(e.vars.len()));
        assert(differ_in(joined(p), joined(q), "\nvar_num: "@, v, w, "\n"@)) by {
            reveal(head_parts);
            lemma_differ(p, q, 5);
        }
        let (label, end) = ("\nvar_num: "@, "\n"@);
        lemma_differ_within(joined(p), joined(q), label, v, w, end, before, after);
    }
}

/// A description starts with the heading. The text of the table's report, that of the operations'
/// counts and that of the lock's each stand behind their label, and nothing else depends on them.
pub proof fn law_description(
    m: &Manager,
    n: &Manager,
    report: TableStatReport,
    other: TableStatReport,
    load_factor: Seq<char>,
    average: Seq<char>,
    rate: Seq<char>,
)
    requires
        m.heading_text() == n.heading_text(),
    ensures
        m.heading_text().is_prefix_of(m.debug_text(report, load_factor, average, rate)),
        differ_in(
            m.debug_text(report, load_factor, average, rate),
            m.debug_text(other, load_factor, average, rate),
            "Table stat: "@,
            report.text(load_factor, average),
            other.text(load_factor, average),
            "\nOp stat: "@,
        ),
        m.lock_stats() == n.lock_stats() ==> differ_in(
            m.debug_text(report, load_factor, average, rate),
            n.debug_text(report, load_factor, average, rate),
            "\nOp stat: "@,
            m.tally().text(),
            n.tally().text(),
            "\nRwLock stat: "@,
        ),
        m.tally() == n.tally() ==> differ_in(
            m.debug_text(report, load_factor, average, rate),
            n.debug_text(report, load_factor, average, rate),
            "\nRwLock stat: "@,
            m.lock_stats().text(rate),
            n.lock_stats().text(rate),
            "\n"@,
        ),
{
    let h = m.heading_text();
    let (r, r2) = (report.text(load_factor, average), other.text(load_factor, average));
    let (t, t2) = (m.tally().text(), n.tally().text());
    let (l, l2) = (m.lock_stats().text(rate), n.lock_stats().text(rate));
    lemma_described(h, r, t, l);
    lemma_described(h, r2, t, l);
    lemma_described(h, r, t2, l);
    lemma_described(h, r, t, l2);
    let u = m.debug_text(report, load_factor, average, rate);
    assert(u == h + described(r, t, l));
    assert(u.take(h.len() as int) =~= h);
    let b = t + "\nRwLock stat: "@ + l + "\n"@;
    assert(u == h + "Table stat: "@ + r + "\nOp stat: "@ + b);
    let a = h + "Table stat: "@ + r;
    let b = l + "\n"@;
    assert(u == a + "\nOp stat: "@ + t + "\nRwLock stat: "@ + b);
    let a = h + "Table stat: "@ + r + "\nOp stat: "@ + t;
    let b = Seq::<char>::empty();
    assert(u == a + "\nRwLock stat: "@ + l + "\n"@ + b);
}

spec fn described(r: Seq<char>, t: Seq<char>, l: Seq<char>) -> Seq<char> {
    "Table stat: "@ + r + "\nOp stat: "@ + t + "\nRwLock stat: "@ + l + "\n"@
}

proof fn lemma_described(h: Seq<char>, r: Seq<char>, t: Seq<char>, l: Seq<char>)
    ensures
        h + "Table stat: "@ + r + "\nOp stat: "@ + t + "\nRwLock stat: "@ + l + "\n"@ == h
            + described(r, t, l),
        h + described(r, t, l) == h + "Table stat: "@ + r + "\nOp stat: "@ + (t
            + "\nRwLock stat: "@ + l + "\n"@),
        h + described(r, t, l) == (h + "Table stat: "@ + r) + "\nOp stat: "@ + t
            + "\nRwLock stat: "@ + (l + "\n"@),
        h + described(r, t, l) == (h + "Table stat: "@ + r + "\nOp stat: "@ + t)
            + "\nRwLock stat: "@ + l + "\n"@ + Seq::<char>::empty(),
{
    let u = h + "Table stat: "@ + r + "\nOp stat: "@ + t + "\nRwLock stat: "@ + l + "\n"@;
    assert(u =~= h + described(r, t, l));
    assert(u =~= h + "Table stat: "@ + r + "\nOp stat: "@ + (t + "\nRwLock stat: "@ + l
        + "\n"@));
    assert(u =~= (h + "Table stat: "@ + r) + "\nOp stat: "@ + t + "\nRwLock stat: "@ + (l
        + "\n"@));
    assert(u =~= u + Seq::<char>::empty());
}

} // verus!
