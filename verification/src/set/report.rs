//! How the nodes of a table are spread over its buckets.

use vstd::arithmetic::power2::pow2;
use vstd::prelude::*;
use vstd::string::StringExecFns;

use super::arrange::{holds, sits};
use super::chain::{at, bucket, lemma_bucket_at, lemma_bucket_chain, linked};
use super::{LockFreeSet, NodeSet, Vertex};
use crate::hash::mix3;
use crate::node::{key_hash, Bdd, NodePtr, NULL};
use crate::sizing::lemma_size_range;
use crate::store::Allocator;
use crate::text::{decimal, push_count};

verus! {

/// How the nodes are spread over the buckets.
pub struct TableStatReport {
    pub unique_access: usize,
    pub unique_chain: usize,
    pub unique_hit: usize,
    pub unique_miss: usize,
    pub table_size: usize,
    pub node_count: usize,
    pub empty_buckets: usize,
    pub non_empty_buckets: usize,
    pub min_chain_len: usize,
    pub max_chain_len: usize,
    /// The number of buckets with 0, 1, 2-3, 4-7, 8-15, 16-31, 32-63, 64-127 and more nodes.
    pub histogram: [usize; 9],
}

impl TableStatReport {
    /// The report in five lines of text, with the two averages as given.
    pub open spec fn text(self, load_factor: Seq<char>, average: Seq<char>) -> Seq<char> {
        "unique_access: "@ + decimal(self.unique_access as nat) + ", unique_chain: "@ + decimal(
            self.unique_chain as nat,
        ) + ", unique_hit: "@ + decimal(self.unique_hit as nat) + ", unique_miss: "@ + decimal(
            self.unique_miss as nat,
        ) + "\ntable_size: "@ + decimal(self.table_size as nat) + " buckets, node_count: "@
            + decimal(self.node_count as nat) + ", load_factor: "@ + load_factor
            + "\nbuckets: empty: "@ + decimal(self.empty_buckets as nat) + ", non_empty: "@
            + decimal(self.non_empty_buckets as nat) + "\nchain_len: min: "@ + decimal(
            self.min_chain_len as nat,
        ) + ", max: "@ + decimal(self.max_chain_len as nat) + ", avg_non_empty: "@ + average
            + "\nhistogram: 0: "@ + decimal(self.histogram@[0] as nat) + ", 1: "@ + decimal(
            self.histogram@[1] as nat,
        ) + ", 2-3: "@ + decimal(self.histogram@[2] as nat) + ", 4-7: "@ + decimal(
            self.histogram@[3] as nat,
        ) + ", 8-15: "@ + decimal(self.histogram@[4] as nat) + ", 16-31: "@ + decimal(
            self.histogram@[5] as nat,
        ) + ", 32-63: "@ + decimal(self.histogram@[6] as nat) + ", 64-127: "@ + decimal(
            self.histogram@[7] as nat,
        ) + ", 128+: "@ + decimal(self.histogram@[8] as nat)
    }

    pub fn to_text(&self, load_factor: &str, average: &str) -> (r: String)
        ensures
            r@ == self.text(load_factor@, average@),
    {
        let mut r = String::new();
        push_count(&mut r, "unique_access: ", self.unique_access);
        push_count(&mut r, ", unique_chain: ", self.unique_chain);
        push_count(&mut r, ", unique_hit: ", self.unique_hit);
        push_count(&mut r, ", unique_miss: ", self.unique_miss);
        push_count(&mut r, "\ntable_size: ", self.table_size);
        push_count(&mut r, " buckets, node_count: ", self.node_count);
        r.append(", load_factor: ");
        r.append(load_factor);
        push_count(&mut r, "\nbuckets: empty: ", self.empty_buckets);
        push_count(&mut r, ", non_empty: ", self.non_empty_buckets);
        push_count(&mut r, "\nchain_len: min: ", self.min_chain_len);
        push_count(&mut r, ", max: ", self.max_chain_len);
        r.append(", avg_non_empty: ");
        r.append(average);
        push_count(&mut r, "\nhistogram: 0: ", self.histogram[0]);
        push_count(&mut r, ", 1: ", self.histogram[1]);
        push_count(&mut r, ", 2-3: ", self.histogram[2]);
        push_count(&mut r, ", 4-7: ", self.histogram[3]);
        push_count(&mut r, ", 8-15: ", self.histogram[4]);
        push_count(&mut r, ", 16-31: ", self.histogram[5]);
        push_count(&mut r, ", 32-63: ", self.histogram[6]);
        push_count(&mut r, ", 64-127: ", self.histogram[7]);
        push_count(&mut r, ", 128+: ", self.histogram[8]);
        r
    }
}

/// The nodes of a table that belong in bucket `i` of `n`.
pub open spec fn in_bucket(t: Map<Bdd, Vertex>, i: int, n: int) -> Set<Bdd> {
    Set::new(|id: Bdd| t.contains_key(id) && key_hash(t[id].key()) as int % n == i)
}

/// The number of nodes of a table that belong in bucket `i` of `n`.
pub open spec fn bucket_len(t: Map<Bdd, Vertex>, i: int, n: int) -> nat {
    in_bucket(t, i, n).len()
}

/// The class of a bucket with `len` nodes in the histogram.
pub open spec fn class_of(len: nat) -> int {
    if len == 0 {
        0
    } else if len == 1 {
        1
    } else if len <= 3 {
        2
    } else if len <= 7 {
        3
    } else if len <= 15 {
        4
    } else if len <= 31 {
        5
    } else if len <= 63 {
        6
    } else if len <= 127 {
        7
    } else {
        8
    }
}

/// How many of the first `m` of `n` buckets are of class `c`.
pub open spec fn class_count(t: Map<Bdd, Vertex>, n: int, m: nat, c: int) -> nat
    decreases m,
{
    if m == 0 {
        0
    } else {
        class_count(t, n, (m - 1) as nat, c) + if class_of(bucket_len(t, m - 1, n)) == c {
            1nat
        } else {
            0nat
        }
    }
}

/// How many of the first `m` of `n` buckets are not empty.
pub open spec fn non_empty_count(t: Map<Bdd, Vertex>, n: int, m: nat) -> int {
    m - class_count(t, n, m, 0)
}

/// `len` is the least length of a non-empty bucket among the first `m`, or 0 if all are empty.
pub open spec fn is_min_len(t: Map<Bdd, Vertex>, n: int, m: nat, len: nat) -> bool {
    if non_empty_count(t, n, m) == 0 {
        len == 0
    } else {
        &&& exists|i: int| 0 <= i < m && #[trigger] bucket_len(t, i, n) == len && len > 0
        &&& forall|i: int|
            0 <= i < m && #[trigger] bucket_len(t, i, n) > 0 ==> len <= bucket_len(t, i, n)
    }
}

/// `len` is the greatest length of a bucket among the first `m`, or 0 if there is none.
pub open spec fn is_max_len(t: Map<Bdd, Vertex>, n: int, m: nat, len: nat) -> bool {
    &&& len == 0 || exists|i: int| 0 <= i < m && #[trigger] bucket_len(t, i, n) == len
    &&& forall|i: int| 0 <= i < m ==> #[trigger] bucket_len(t, i, n) <= len
}

/// What a report says of a table with `n` buckets.
pub open spec fn reports(r: TableStatReport, t: Map<Bdd, Vertex>, n: nat) -> bool {
    &&& r.unique_access == 0
    &&& r.unique_chain == 0
    &&& r.unique_hit == 0
    &&& r.unique_miss == 0
    &&& r.table_size == n
    &&& r.node_count == t.dom().len()
    &&& r.empty_buckets == class_count(t, n as int, n, 0)
    &&& r.non_empty_buckets == non_empty_count(t, n as int, n)
    &&& is_min_len(t, n as int, n, r.min_chain_len as nat)
    &&& is_max_len(t, n as int, n, r.max_chain_len as nat)
    &&& forall|c: int|
        0 <= c < 9 ==> #[trigger] r.histogram@[c] == class_count(t, n as int, n, c)
}

/// The nodes of a table that belong in one of the first `m` of `n` buckets.
spec fn in_first(t: Map<Bdd, Vertex>, m: int, n: int) -> Set<Bdd> {
    Set::new(|id: Bdd| t.contains_key(id) && key_hash(t[id].key()) as int % n < m)
}

/// One bucket more holds that many nodes more.
proof fn lemma_in_first(t: Map<Bdd, Vertex>, m: int, n: int)
    requires
        t.dom().finite(),
        0 <= m < n,
    ensures
        in_first(t, m + 1, n).len() == in_first(t, m, n).len() + bucket_len(t, m, n),
        in_first(t, m + 1, n).len() <= t.dom().len(),
{
    let a = in_first(t, m, n);
    let b = in_bucket(t, m, n);
    let c = in_first(t, m + 1, n);
    assert(a.subset_of(t.dom()));
    assert(b.subset_of(t.dom()));
    assert(c.subset_of(t.dom()));
    vstd::set_lib::lemma_len_subset(a, t.dom());
    vstd::set_lib::lemma_len_subset(b, t.dom());
    vstd::set_lib::lemma_len_subset(c, t.dom());
    assert(c =~= a.union(b));
    assert(a.disjoint(b));
    vstd::set_lib::lemma_set_disjoint_lens(a, b);
}

/// The class counts do not exceed the number of buckets.
proof fn lemma_class_count(t: Map<Bdd, Vertex>, n: int, m: nat, c: int)
    ensures
        class_count(t, n, m, c) <= m,
    decreases m,
{
    if m > 0 {
        lemma_class_count(t, n, (m - 1) as nat, c);
    }
}

/// Where no bucket is counted as non-empty, all are empty.
proof fn lemma_non_empty(t: Map<Bdd, Vertex>, n: int, m: nat)
    ensures
        class_count(t, n, m, 0) <= m,
        non_empty_count(t, n, m) == 0 <==> forall|i: int|
            0 <= i < m ==> #[trigger] bucket_len(t, i, n) == 0,
    decreases m,
{
    if m > 0 {
        lemma_non_empty(t, n, (m - 1) as nat);
    }
}

/// The length of the chain of bucket `i` of `n`: how many nodes have a hash that leaves `i`.
pub open spec fn chain_of(t: Map<Bdd, Vertex>, n: nat, i: int) -> nat {
    Set::new(
        |id: Bdd|
            t.contains_key(id) && mix3(t[id].level as u64, t[id].low as u64, t[id].high as u64)
                % n as u64 == i,
    ).len()
}

/// The buckets of `n` whose chain has at least `least` and fewer than `bound` nodes.
pub open spec fn buckets_with(t: Map<Bdd, Vertex>, n: nat, least: nat, bound: nat) -> Set<int> {
    Set::new(|i: int| 0 <= i < n && least <= chain_of(t, n, i) < bound)
}

/// The buckets of `n` whose chain has at least `least` nodes.
pub open spec fn buckets_from(t: Map<Bdd, Vertex>, n: nat, least: nat) -> Set<int> {
    Set::new(|i: int| 0 <= i < n && least <= chain_of(t, n, i))
}

proof fn lemma_chain_of(t: Map<Bdd, Vertex>, n: nat, i: int)
    requires
        0 < n <= 0x4000_0000,
    ensures
        chain_of(t, n, i) == bucket_len(t, i, n as int),
{
    assert(Set::new(
        |id: Bdd|
            t.contains_key(id) && mix3(t[id].level as u64, t[id].low as u64, t[id].high as u64)
                % n as u64 == i,
    ) =~= in_bucket(t, i, n as int));
}

/// A class count is the number of buckets of that class.
proof fn lemma_class_set(t: Map<Bdd, Vertex>, n: nat, m: nat, c: int)
    requires
        0 < n <= 0x4000_0000,
    ensures
        ({
            let s = Set::new(|i: int| 0 <= i < m && class_of(chain_of(t, n, i)) == c);
            s.finite() && s.len() == class_count(t, n as int, m, c)
        }),
    decreases m,
{
    let s = Set::new(|i: int| 0 <= i < m && class_of(chain_of(t, n, i)) == c);
    if m == 0 {
        assert(s =~= Set::<int>::empty());
    } else {
        lemma_class_set(t, n, (m - 1) as nat, c);
        lemma_chain_of(t, n, m - 1);
        let fewer = Set::new(|i: int| 0 <= i < m - 1 && class_of(chain_of(t, n, i)) == c);
        if class_of(chain_of(t, n, m - 1)) == c {
            assert(s =~= fewer.insert(m - 1));
        } else {
            assert(s =~= fewer);
        }
    }
}

/// What a report says of a table. It counts no lookups. The histogram counts the buckets without
/// nodes, those with one, and then those of each doubling of the length up to 127, and those above
/// it. The buckets without nodes and the others are counted too. The greatest length is that of a
/// bucket, and no bucket is longer; the least one is that of a bucket with nodes, and no such
/// bucket is shorter.
pub proof fn law_report(r: TableStatReport, t: Map<Bdd, Vertex>, n: nat)
    requires
        reports(r, t, n),
        0 < n <= 0x4000_0000,
    ensures
        r.unique_access == 0,
        r.unique_chain == 0,
        r.unique_hit == 0,
        r.unique_miss == 0,
        r.table_size == n,
        r.node_count == t.dom().len(),
        r.histogram@[0] == buckets_with(t, n, 0, 1).len(),
        r.histogram@[1] == buckets_with(t, n, 1, 2).len(),
        r.histogram@[2] == buckets_with(t, n, 2, 4).len(),
        r.histogram@[3] == buckets_with(t, n, 4, 8).len(),
        r.histogram@[4] == buckets_with(t, n, 8, 16).len(),
        r.histogram@[5] == buckets_with(t, n, 16, 32).len(),
        r.histogram@[6] == buckets_with(t, n, 32, 64).len(),
        r.histogram@[7] == buckets_with(t, n, 64, 128).len(),
        r.histogram@[8] == buckets_from(t, n, 128).len(),
        r.empty_buckets == buckets_with(t, n, 0, 1).len(),
        r.empty_buckets + r.non_empty_buckets == n,
        forall|i: int| 0 <= i < n ==> #[trigger] chain_of(t, n, i) <= r.max_chain_len,
        r.max_chain_len > 0 ==> exists|i: int|
            0 <= i < n && #[trigger] chain_of(t, n, i) == r.max_chain_len,
        forall|i: int|
            0 <= i < n && #[trigger] chain_of(t, n, i) > 0 ==> r.min_chain_len <= chain_of(t, n, i),
        r.non_empty_buckets > 0 ==> r.min_chain_len > 0 && exists|i: int|
            0 <= i < n && #[trigger] chain_of(t, n, i) == r.min_chain_len,
        r.non_empty_buckets == 0 ==> r.min_chain_len == 0,
{
    let k = n as int;
    assert forall|i: int| #[trigger] chain_of(t, n, i) == bucket_len(t, i, k) by {
        lemma_chain_of(t, n, i);
    }
    lemma_class_is(r, t, n, 0, 0, 1);
    lemma_class_is(r, t, n, 1, 1, 2);
    lemma_class_is(r, t, n, 2, 2, 4);
    lemma_class_is(r, t, n, 3, 4, 8);
    lemma_class_is(r, t, n, 4, 8, 16);
    lemma_class_is(r, t, n, 5, 16, 32);
    lemma_class_is(r, t, n, 6, 32, 64);
    lemma_class_is(r, t, n, 7, 64, 128);
    lemma_class_set(t, n, n, 8);
    assert(Set::new(|i: int| 0 <= i < n && class_of(chain_of(t, n, i)) == 8) =~= buckets_from(
        t,
        n,
        128,
    ));
    lemma_class_count(t, k, n, 0);
    lemma_non_empty(t, k, n);
    if r.max_chain_len > 0 {
        let i = choose|i: int| 0 <= i < n && #[trigger] bucket_len(t, i, k) == r.max_chain_len;
        assert(chain_of(t, n, i) == r.max_chain_len);
    }
    if r.non_empty_buckets > 0 {
        let i = choose|i: int|
            0 <= i < n && #[trigger] bucket_len(t, i, k) == r.min_chain_len && r.min_chain_len > 0;
        assert(chain_of(t, n, i) == r.min_chain_len);
    }
}

proof fn lemma_class_is(
    r: TableStatReport,
    t: Map<Bdd, Vertex>,
    n: nat,
    c: int,
    least: nat,
    bound: nat,
)
    requires
        reports(r, t, n),
        0 < n <= 0x4000_0000,
        0 <= c < 8,
        forall|len: nat| #[trigger] class_of(len) == c <==> least <= len < bound,
    ensures
        r.histogram@[c] == buckets_with(t, n, least, bound).len(),
        class_count(t, n as int, n, c) == buckets_with(t, n, least, bound).len(),
{
    lemma_class_set(t, n, n, c);
    assert(Set::new(|i: int| 0 <= i < n && class_of(chain_of(t, n, i)) == c) =~= buckets_with(
        t,
        n,
        least,
        bound,
    ));
}

impl LockFreeSet {
    /// The number of nodes in bucket `i`.
    fn chain_len(&self, i: usize) -> (len: usize)
        requires
            self.wf(),
            i < pow2(self.exp()),
        ensures
            len == bucket_len(self.table(), i as int, pow2(self.exp()) as int),
    {
        let ghost n = self.chains@.len() as int;
        let ghost chain = self.chains@[i as int];
        let ghost nodes = self.store.nodes();
        let mut len: usize = 0;
        let mut curr: Bdd = self.buckets[i];
        proof {
            lemma_bucket_chain(nodes, curr, chain, i as int, n);
            chain.unique_seq_to_set();
            assert forall|id: Bdd| #[trigger] chain.to_set().contains(id) <==> in_bucket(
                self.table(),
                i as int,
                n,
            ).contains(id) by {
                if chain.to_set().contains(id) {
                    let k = choose|k: int| 0 <= k < chain.len() && chain[k] == id;
                    assert(sits(self.chains@, i as int, k, id));
                    lemma_bucket_at(nodes, self.buckets@[i as int], chain, i as int, n, k);
                    assert(holds(self.chains@, id));
                }
                if in_bucket(self.table(), i as int, n).contains(id) {
                    let (a, k) = choose|a: int, k: int| sits(self.chains@, a, k, id);
                    lemma_bucket_at(nodes, self.buckets@[a], self.chains@[a], a, n, k);
                    assert(chain[k] == id);
                }
            }
            assert(chain.to_set() =~= in_bucket(self.table(), i as int, n));
            self.lemma_stored();
            vstd::set_lib::lemma_len_subset(chain.to_set(), self.table().dom());
            reveal(linked);
        }
        while curr != NULL
            invariant
                self.wf(),
                i < self.chains@.len(),
                chain == self.chains@[i as int],
                nodes == self.store.nodes(),
                n == self.chains@.len(),
                chain.len() < usize::MAX,
                len <= chain.len(),
                curr == at(chain, len as int),
                forall|m: int| #![trigger chain[m]] 0 <= m < chain.len() ==> chain[m] != NULL,
            decreases chain.len() - len,
        {
            proof {
                assert(bucket(nodes, self.buckets@[i as int], chain, i as int, n));
                lemma_bucket_at(nodes, self.buckets@[i as int], chain, i as int, n, len as int);
            }
            len = len + 1;
            curr = curr.next(&self.store);
        }
        len
    }

    /// Counts the nodes of each bucket.
    pub fn table_stat_report(&self) -> (r: TableStatReport)
        requires
            self.wf(),
        ensures
            reports(r, self.table(), pow2(self.exp())),
    {
        let table_size: usize = self.buckets.len();
        let ghost t = self.table();
        let ghost n = table_size as int;
        let mut histogram: [usize; 9] = [0, 0, 0, 0, 0, 0, 0, 0, 0];
        let mut empty_buckets: usize = 0;
        let mut non_empty_buckets: usize = 0;
        let mut min_chain_len: usize = usize::MAX;
        let mut max_chain_len: usize = 0;
        let mut node_count: usize = 0;
        let mut i: usize = 0;
        proof {
            self.lemma_stored();
            lemma_size_range(self.exp());
            assert(in_first(t, 0, n) =~= Set::<Bdd>::empty());
        }
        while i < table_size
            invariant
                self.wf(),
                t == self.table(),
                t.dom().finite(),
                t.dom().len() < usize::MAX,
                n == table_size,
                n == pow2(self.exp()),
                table_size <= 0x4000_0000,
                i <= table_size,
                node_count == in_first(t, i as int, n).len(),
                empty_buckets == class_count(t, n, i as nat, 0),
                non_empty_buckets == non_empty_count(t, n, i as nat),
                non_empty_buckets == 0 ==> min_chain_len == usize::MAX,
                non_empty_buckets > 0 ==> is_min_len(t, n, i as nat, min_chain_len as nat),
                is_max_len(t, n, i as nat, max_chain_len as nat),
                forall|c: int|
                    0 <= c < 9 ==> #[trigger] histogram@[c] == class_count(t, n, i as nat, c),
            decreases table_size - i,
        {
            let len: usize = self.chain_len(i);
            proof {
                lemma_in_first(t, i as int, n);
                assert forall|c: int| class_count(t, n, i as nat, c) <= i by {
                    lemma_class_count(t, n, i as nat, c);
                }
                lemma_non_empty(t, n, i as nat);
            }
            let ghost before = histogram@;
            let ghost min0 = min_chain_len;
            let ghost max0 = max_chain_len;
            node_count = node_count + len;
            let c: usize = if len == 0 {
                empty_buckets = empty_buckets + 1;
                0
            } else {
                non_empty_buckets = non_empty_buckets + 1;
                if len < min_chain_len {
                    min_chain_len = len;
                }
                if len > max_chain_len {
                    max_chain_len = len;
                }
                match len {
                    1 => 1,
                    2..=3 => 2,
                    4..=7 => 3,
                    8..=15 => 4,
                    16..=31 => 5,
                    32..=63 => 6,
                    64..=127 => 7,
                    _ => 8,
                }
            };
            assert(histogram@[c as int] == class_count(t, n, i as nat, c as int));
            histogram[c] = histogram[c] + 1;
            proof {
                assert(c == class_of(len as nat));
                assert(bucket_len(t, i as int, n) == len);
                assert forall|d: int| 0 <= d < 9 implies #[trigger] histogram@[d] == class_count(
                    t,
                    n,
                    (i + 1) as nat,
                    d,
                ) by {
                    assert(before[d] == class_count(t, n, i as nat, d));
                }
                if max_chain_len != max0 {
                    assert(bucket_len(t, i as int, n) == max_chain_len);
                } else if max0 > 0 {
                    let w = choose|w: int|
                        0 <= w < i && #[trigger] bucket_len(t, w, n) == max0;
                    assert(bucket_len(t, w, n) == max_chain_len);
                }
                if len > 0 && min_chain_len == len {
                    assert(bucket_len(t, i as int, n) == min_chain_len);
                } else if non_empty_count(t, n, i as nat) > 0 {
                    let w = choose|w: int|
                        0 <= w < i && #[trigger] bucket_len(t, w, n) == min0 && min0 > 0;
                    assert(bucket_len(t, w, n) == min_chain_len);
                }
            }
            i = i + 1;
        }
        if non_empty_buckets == 0 {
            min_chain_len = 0;
        }
        proof {
            assert(in_first(t, n, n) =~= t.dom());
        }
        TableStatReport {
            unique_access: self.stat.unique_access,
            unique_chain: self.stat.unique_chain,
            unique_hit: self.stat.unique_hit,
            unique_miss: self.stat.unique_miss,
            table_size,
            node_count,
            empty_buckets,
            non_empty_buckets,
            min_chain_len,
            max_chain_len,
            histogram,
        }
    }
}

} // verus!
