//! The unique table: a hash set of nodes that holds at most one node of each key.

use vstd::arithmetic::power2::pow2;
use vstd::prelude::*;

use self::arrange::{
    arranged, hang, holds, in_order, lemma_arranged_frame, lemma_holds_stored, lemma_in_order_next,
    lemma_inserted, lemma_keys_differ, lemma_passed, lemma_passed_row, lemma_removed, passed,
    raw_key, rehung, sits, table_of,
};
use self::chain::{
    ascending, at, bucket, chained_alike, lemma_absent, lemma_bucket_at, lemma_bucket_chain, link,
    linked, seek, unlink,
};
pub use self::report::{reports, TableStatReport};
use crate::graph::{
    closed_in, lemma_closed, lemma_reaches_self, lemma_reaches_step, reachable_from, reaches,
    Edges,
};
use crate::node::{key_hash, key_less, key_lt, key_same, Bdd, Node, NodeKey, NodePtr, MARK, NULL};
use crate::sizing::{lemma_double, lemma_size_range, size_for, MAX_SIZE_EXP};
use crate::store::{Allocator, NodeStore};
use crate::text::{decimal, push_count};

mod arrange;
mod chain;
pub mod report;

verus! {

/// What the table holds of a node.
pub struct Vertex {
    pub level: usize,
    pub low: Bdd,
    pub high: Bdd,
    pub refs: usize,
}

impl Vertex {
    pub open spec fn key(self) -> NodeKey {
        (self.level, self.low, self.high)
    }
}

/// The graph of the nodes of a table.
pub open spec fn edges_of(t: Map<Bdd, Vertex>) -> Edges {
    Map::new(|id: Bdd| t.contains_key(id), |id: Bdd| (t[id].low, t[id].high))
}

/// The nodes of a table that are referenced from outside it.
pub open spec fn referenced(t: Map<Bdd, Vertex>) -> Set<Bdd> {
    Set::new(|id: Bdd| t.contains_key(id) && t[id].refs != 0)
}

/// The nodes of a table that can be reached from a referenced one.
pub open spec fn live(t: Map<Bdd, Vertex>) -> Set<Bdd> {
    reachable_from(edges_of(t), referenced(t))
}

/// Each child of a node of the table is in the table too.
pub open spec fn complete(t: Map<Bdd, Vertex>) -> bool {
    forall|id: Bdd| #[trigger]
        t.contains_key(id) ==> {
            &&& t[id].low == NULL || t.contains_key(t[id].low)
            &&& t[id].high == NULL || t.contains_key(t[id].high)
        }
}

/// A node of the table has this key.
pub open spec fn has_key(t: Map<Bdd, Vertex>, key: NodeKey) -> bool {
    exists|id: Bdd| #[trigger] t.contains_key(id) && t[id].key() == key
}

/// A table has a key just if one of its nodes has that level and those children.
pub proof fn law_has_key(t: Map<Bdd, Vertex>, level: usize, low: Bdd, high: Bdd, id: Bdd)
    ensures
        t.contains_key(id) && t[id].level == level && t[id].low == low && t[id].high == high
            ==> has_key(t, (level, low, high)),
        has_key(t, (level, low, high)) ==> exists|x: Bdd| #[trigger]
            t.contains_key(x) && t[x].level == level && t[x].low == low && t[x].high == high,
{
    if t.contains_key(id) && t[id].level == level && t[id].low == low && t[id].high == high {
        assert(t[id].key() == (level, low, high));
    }
}

/// A set of nodes, of which no two have the same key.
pub trait NodeSet: Sized {
    spec fn wf(&self) -> bool;

    /// The nodes in the set.
    spec fn table(&self) -> Map<Bdd, Vertex>;

    /// The nodes in the set that are marked.
    spec fn marks(&self) -> Set<Bdd>;

    /// The nodes that were made and are not in the set.
    spec fn outside(&self) -> Map<Bdd, Node>;

    /// The binary logarithm of the number of buckets.
    spec fn exp(&self) -> nat;

    /// What the last marking counted.
    spec fn mark_count(&self) -> nat;

    /// Whether an insertion has filled the set since the last collection.
    spec fn filled(&self) -> bool;

    /// Every chain of the set can be walked to its end.
    spec fn walkable(&self) -> bool;

    /// Every node is in the bucket of its hash, and every bucket ascends.
    spec fn sane(&self) -> bool;

    /// Looks for a node with the key of `new_ptr`. If there is none, puts `new_ptr` in.
    /// Returns the node that is in the set, and whether it was put in.
    fn get_or_insert(&mut self, new_ptr: Bdd) -> (r: (Bdd, bool))
        requires
            old(self).wf(),
            old(self).marks() == Set::<Bdd>::empty(),
            old(self).outside().contains_key(new_ptr),
            !old(self).outside()[new_ptr].marked(),
            old(self).outside()[new_ptr].hash == key_hash(
                old(self).outside()[new_ptr].plain_key(),
            ),
        ensures
            final(self).wf(),
            final(self).marks() == Set::<Bdd>::empty(),
            final(self).exp() == old(self).exp(),
            final(self).mark_count() == old(self).mark_count(),
            r.1 == !has_key(old(self).table(), old(self).outside()[new_ptr].plain_key()),
            !r.1 ==> {
                &&& old(self).table().contains_key(r.0)
                &&& old(self).table()[r.0].key() == old(self).outside()[new_ptr].plain_key()
                &&& final(self).table() == old(self).table()
                &&& final(self).outside() == old(self).outside()
                &&& final(self).filled() == old(self).filled()
            },
            r.1 ==> {
                &&& r.0 == new_ptr
                &&& !old(self).table().contains_key(new_ptr)
                &&& final(self).table() == old(self).table().insert(
                    new_ptr,
                    ({
                        let n = old(self).outside()[new_ptr];
                        Vertex { level: n.level, low: n.low, high: n.high, refs: n.ref_cnt }
                    }),
                )
                &&& final(self).outside() == old(self).outside().remove(new_ptr)
                &&& final(self).filled() == (old(self).filled() || final(self).table().dom().len()
                    >= pow2(final(self).exp()))
            },
    ;

    /// Marks the nodes that can be reached from a referenced one; returns how many there are.
    fn mark_nodes(&mut self) -> (count: usize)
        requires
            old(self).wf(),
            old(self).marks() == Set::<Bdd>::empty(),
            complete(old(self).table()),
        ensures
            final(self).wf(),
            final(self).table() == old(self).table(),
            final(self).outside() == old(self).outside(),
            final(self).exp() == old(self).exp(),
            final(self).filled() == old(self).filled(),
            final(self).marks() == live(old(self).table()),
            count == final(self).marks().len(),
            final(self).mark_count() == count,
    ;

    /// Takes out and frees the nodes that are not marked.
    fn gc_unmarked(&mut self)
        requires
            old(self).wf(),
            old(self).mark_count() == old(self).marks().len(),
        ensures
            final(self).wf(),
            final(self).table() == old(self).table().restrict(old(self).marks()),
            final(self).outside() == old(self).outside(),
            final(self).marks() == old(self).marks(),
            final(self).exp() == old(self).exp(),
            final(self).mark_count() == old(self).mark_count(),
            !final(self).filled(),
    ;

    /// Takes the marks off again.
    fn unmark_nodes(&mut self)
        requires
            old(self).wf(),
        ensures
            final(self).wf(),
            final(self).table() == old(self).table(),
            final(self).outside() == old(self).outside(),
            final(self).marks() == Set::<Bdd>::empty(),
            final(self).exp() == old(self).exp(),
            final(self).mark_count() == old(self).mark_count(),
            final(self).filled() == old(self).filled(),
    ;

    /// Doubles the number of buckets.
    fn grow(&mut self)
        requires
            old(self).wf(),
            old(self).marks() == Set::<Bdd>::empty(),
            old(self).exp() < MAX_SIZE_EXP,
        ensures
            final(self).wf(),
            final(self).table() == old(self).table(),
            final(self).outside() == old(self).outside(),
            final(self).marks() == Set::<Bdd>::empty(),
            final(self).exp() == old(self).exp() + 1,
            final(self).mark_count() == old(self).mark_count(),
            !final(self).filled(),
    ;

    /// Whether every node is in the bucket of its hash, every bucket is sorted, and no node
    /// occurs twice.
    fn sanity_check(&self) -> (ok: bool)
        requires
            self.walkable(),
        ensures
            ok == self.sane(),
            self.wf() && self.marks() == Set::<Bdd>::empty() ==> ok,
    ;
}

/// Counts of lookups, for users of a table to fill in: the table itself leaves them at zero.
#[derive(Clone, Copy)]
pub struct TableStat {
    pub unique_access: usize,
    pub unique_chain: usize,
    pub unique_hit: usize,
    pub unique_miss: usize,
}

impl TableStat {
    pub open spec fn zero() -> Self {
        TableStat { unique_access: 0, unique_chain: 0, unique_hit: 0, unique_miss: 0 }
    }

    /// The counts in one line of text.
    pub open spec fn text(self) -> Seq<char> {
        "unique_access: "@ + decimal(self.unique_access as nat) + ", unique_chain: "@ + decimal(
            self.unique_chain as nat,
        ) + ", unique_hit: "@ + decimal(self.unique_hit as nat) + ", unique_miss: "@ + decimal(
            self.unique_miss as nat,
        )
    }

    pub fn to_text(&self) -> (r: String)
        ensures
            r@ == self.text(),
    {
        let mut r = String::new();
        push_count(&mut r, "unique_access: ", self.unique_access);
        push_count(&mut r, ", unique_chain: ", self.unique_chain);
        push_count(&mut r, ", unique_hit: ", self.unique_hit);
        push_count(&mut r, ", unique_miss: ", self.unique_miss);
        r
    }
}

impl Default for TableStat {
    fn default() -> (r: Self)
        ensures
            r == TableStat::zero(),
    {
        TableStat { unique_access: 0, unique_chain: 0, unique_hit: 0, unique_miss: 0 }
    }
}

/// A bucketed hash set of nodes. The nodes of a bucket form a chain in ascending order of their
/// keys.
pub struct LockFreeSet {
    store: NodeStore,
    buckets: Vec<Bdd>,
    size_exp: usize,
    num_marks: usize,
    num_entry: usize,
    needs_gc: bool,
    stat: TableStat,
    chains: Ghost<Seq<Seq<Bdd>>>,
}

/// The marks are on live nodes, and on the children of marked nodes.
spec fn marked_so_far(t: Map<Bdd, Vertex>, marks: Set<Bdd>) -> bool {
    &&& marks.subset_of(t.dom())
    &&& marks.subset_of(live(t))
    &&& forall|id: Bdd| #[trigger]
        marks.contains(id) ==> {
            &&& t[id].low == NULL || marks.contains(t[id].low)
            &&& t[id].high == NULL || marks.contains(t[id].high)
        }
}

/// Once the referenced nodes are marked, all live nodes are.
proof fn lemma_marked_all(t: Map<Bdd, Vertex>, marks: Set<Bdd>)
    requires
        marked_so_far(t, marks),
        referenced(t).subset_of(marks),
        !t.contains_key(NULL),
    ensures
        marks == live(t),
{
    let g = edges_of(t);
    assert(closed_in(g, marks));
    assert forall|id: Bdd| live(t).contains(id) implies marks.contains(id) by {
        let r = choose|r: Bdd| referenced(t).contains(r) && reaches(g, r, id);
        lemma_closed(g, marks, r, id);
    }
    assert(marks =~= live(t));
}

impl LockFreeSet {
    /// The number of buckets is the least power of two greater than `cap`.
    pub fn with_capacity(cap: usize) -> (r: Self)
        requires
            0 < cap < pow2(MAX_SIZE_EXP as nat),
        ensures
            r.wf(),
            r.table() == Map::<Bdd, Vertex>::empty(),
            r.outside() == Map::<Bdd, Node>::empty(),
            r.marks() == Set::<Bdd>::empty(),
            1 <= r.exp() <= MAX_SIZE_EXP,
            pow2((r.exp() - 1) as nat) <= cap < pow2(r.exp()),
            r.mark_count() == 0,
            !r.filled(),
    {
        let (size_exp, size) = size_for(cap);
        let buckets: Vec<Bdd> = vec![NULL; size];
        let ghost chains: Seq<Seq<Bdd>> = Seq::new(size as nat, |i: int| Seq::empty());
        proof {
            reveal(bucket);
            reveal(linked);
            reveal(ascending);
        }
        let r = LockFreeSet {
            store: NodeStore::new(),
            buckets,
            size_exp,
            num_marks: 0,
            num_entry: 0,
            needs_gc: false,
            stat: TableStat::default(),
            chains: Ghost(chains),
        };
        proof {
            assert(r.table() =~= Map::<Bdd, Vertex>::empty());
            assert(r.outside() =~= Map::<Bdd, Node>::empty());
            assert(r.marks() =~= Set::<Bdd>::empty());
            assert(r.table().dom() =~= Set::<Bdd>::empty());
        }
        r
    }

    pub fn bucket_size(&self) -> (r: usize)
        requires
            self.wf(),
        ensures
            r == pow2(self.exp()),
    {
        self.buckets.len()
    }

    /// The binary logarithm of the number of buckets.
    pub fn size_exp(&self) -> (r: usize)
        ensures
            r == self.exp(),
    {
        self.size_exp
    }

    pub fn needs_gc(&self) -> (r: bool)
        ensures
            r == self.filled(),
    {
        self.needs_gc
    }

    pub fn clear_needs_gc(&mut self)
        requires
            old(self).wf(),
        ensures
            final(self).wf(),
            final(self).table() == old(self).table(),
            final(self).outside() == old(self).outside(),
            final(self).marks() == old(self).marks(),
            final(self).exp() == old(self).exp(),
            final(self).mark_count() == old(self).mark_count(),
            !final(self).filled(),
    {
        self.needs_gc = false;
    }

    pub fn entry_num(&self) -> (r: usize)
        requires
            self.wf(),
        ensures
            r == self.table().dom().len(),
    {
        self.num_entry
    }

    /// The table is finite and no two of its nodes have the same key; marked nodes are in it,
    /// and no node outside it is.
    pub proof fn lemma_table(&self)
        requires
            self.wf(),
        ensures
            self.table().dom().finite(),
            self.table().dom().len() < usize::MAX,
            !self.table().contains_key(NULL),
            !self.outside().contains_key(NULL),
            self.marks().subset_of(self.table().dom()),
            1 <= self.exp() <= MAX_SIZE_EXP,
            forall|a: Bdd, b: Bdd| #[trigger]
                self.table().contains_key(a) && #[trigger] self.table().contains_key(b)
                    && self.table()[a].key() == self.table()[b].key() ==> a == b,
            forall|id: Bdd|
                !(#[trigger] self.table().contains_key(id) && self.outside().contains_key(id)),
            self.walkable(),
    {
        self.lemma_stored();
        assert forall|a: Bdd, b: Bdd| #[trigger]
            self.table().contains_key(a) && #[trigger] self.table().contains_key(b)
                && self.table()[a].key() == self.table()[b].key() implies a == b by {
            lemma_keys_differ(self.store.nodes(), self.buckets@, self.chains@, a, b);
        }
        assert forall|i: int|
            #![trigger self.chains@[i]]
            0 <= i < self.chains@.len() implies linked(
            self.store.nodes(),
            self.buckets@[i],
            self.chains@[i],
        ) by {
            lemma_bucket_chain(
                self.store.nodes(),
                self.buckets@[i],
                self.chains@[i],
                i,
                self.chains@.len() as int,
            );
        }
    }

    proof fn lemma_stored(&self)
        requires
            self.store.wf(),
            arranged(self.store.nodes(), self.buckets@, self.chains@),
        ensures
            forall|id: Bdd| #[trigger]
                self.table().contains_key(id) ==> self.store.nodes().contains_key(id),
            self.table().dom().finite(),
            self.table().dom().len() <= self.store.nodes().dom().len() < usize::MAX,
            !self.table().contains_key(NULL),
            !self.outside().contains_key(NULL),
    {
        self.store.lemma_bounded();
        assert forall|id: Bdd| self.table().dom().contains(id) implies self.store.nodes()
            .dom().contains(id) by {
            lemma_holds_stored(self.store.nodes(), self.buckets@, self.chains@, id);
        }
        vstd::set_lib::lemma_len_subset(self.table().dom(), self.store.nodes().dom());
    }

    /// Unmarked and well formed, the set is in order.
    proof fn lemma_sane(&self)
        requires
            self.wf(),
            self.marks() == Set::<Bdd>::empty(),
        ensures
            self.sane(),
    {
        let n = self.chains@.len() as int;
        let nodes = self.store.nodes();
        assert forall|i: int| #![trigger self.chains@[i]] 0 <= i < n implies in_order(
            nodes,
            self.chains@[i],
            i,
            n,
        ) by {
            let c = self.chains@[i];
            lemma_bucket_chain(nodes, self.buckets@[i], c, i, n);
            assert forall|k: int| #![trigger c[k]] 0 <= k < c.len() implies {
                &&& nodes[c[k]].hash as int % n == i
                &&& raw_key(nodes[c[k]]) == nodes[c[k]].plain_key()
            } by {
                lemma_bucket_at(nodes, self.buckets@[i], c, i, n, k);
                assert(sits(self.chains@, i, k, c[k]));
                assert(!self.marks().contains(c[k]));
            }
            reveal(ascending);
        }
    }

    /// The chains are in the store, each in its bucket.
    spec fn shaped(&self) -> bool {
        &&& self.store.wf()
        &&& 1 <= self.size_exp <= MAX_SIZE_EXP
        &&& self.buckets@.len() == pow2(self.size_exp as nat)
        &&& arranged(self.store.nodes(), self.buckets@, self.chains@)
    }

    /// The nodes that `before` held and that are still there are the same but for their links;
    /// those that are gone were in its chains, and unmarked.
    spec fn swept(&self, before: &Self) -> bool {
        &&& self.size_exp == before.size_exp
        &&& self.num_marks == before.num_marks
        &&& self.stat == before.stat
        &&& forall|id: Bdd| #[trigger]
            self.store.nodes().contains_key(id) ==> {
                &&& before.store.nodes().contains_key(id)
                &&& self.store.nodes()[id] == (Node {
                    next: self.store.nodes()[id].next,
                    ..before.store.nodes()[id]
                })
                &&& holds(self.chains@, id) == holds(before.chains@, id)
                &&& !holds(before.chains@, id) ==> self.store.nodes()[id]
                    == before.store.nodes()[id]
            }
        &&& forall|id: Bdd| #[trigger]
            before.store.nodes().contains_key(id) && (!holds(before.chains@, id)
                || before.store.nodes()[id].marked()) ==> self.store.nodes().contains_key(id)
    }

    /// Takes the node at place `k` of chain `i` out of the set and frees it.
    fn sweep_one(
        &mut self,
        i: usize,
        prev: Bdd,
        curr: Bdd,
        Ghost(before): Ghost<Self>,
        Ghost(k): Ghost<int>,
    )
        requires
            old(self).shaped(),
            before.shaped(),
            old(self).swept(&before),
            0 <= i < old(self).chains@.len(),
            0 <= k < old(self).chains@[i as int].len(),
            prev == at(old(self).chains@[i as int], k - 1),
            curr == old(self).chains@[i as int][k],
            !old(self).store.nodes()[curr].marked(),
        ensures
            final(self).shaped(),
            final(self).swept(&before),
            final(self).chains@ == old(self).chains@.update(
                i as int,
                old(self).chains@[i as int].remove(k),
            ),
            final(self).num_entry == old(self).num_entry,
            final(self).needs_gc == old(self).needs_gc,
            forall|id: Bdd| #[trigger]
                final(self).store.nodes().contains_key(id)
                    ==> final(self).store.nodes()[id].marked()
                    == old(self).store.nodes()[id].marked(),
    {
        let ghost middle = *self;
        let ghost chain = self.chains@[i as int];
        let ghost n = self.chains@.len() as int;
        proof {
            lemma_bucket_chain(self.store.nodes(), self.buckets@[i as int], chain, i as int, n);
            lemma_bucket_at(self.store.nodes(), self.buckets@[i as int], chain, i as int, n, k);
            assert(sits(self.chains@, i as int, k, curr));
        }
        let head: Bdd = self.buckets[i];
        let new_head: Bdd = unlink(&mut self.store, head, prev, curr, Ghost(chain), Ghost(k));
        self.buckets[i] = new_head;
        proof {
            self.chains@ = middle.chains@.update(i as int, chain.remove(k));
            lemma_removed(
                middle.store.nodes(),
                self.store.nodes(),
                middle.buckets@,
                self.buckets@,
                middle.chains@,
                i as int,
                k,
                prev,
            );
            let nodes = self.store.nodes();
            let nodes1 = middle.store.nodes();
            middle.store.lemma_bounded();
            assert forall|id: Bdd| #[trigger] nodes.contains_key(id) implies {
                &&& before.store.nodes().contains_key(id)
                &&& nodes[id] == (Node { next: nodes[id].next, ..before.store.nodes()[id] })
                &&& holds(self.chains@, id) == holds(before.chains@, id)
                &&& !holds(before.chains@, id) ==> nodes[id] == before.store.nodes()[id]
                &&& nodes[id].marked() == nodes1[id].marked()
            } by {
                assert(nodes1.remove(curr).dom().contains(id));
                assert(nodes1.contains_key(id));
                if id == prev {
                    assert(sits(middle.chains@, i as int, k - 1, id));
                }
            }
            assert forall|id: Bdd| #[trigger]
                before.store.nodes().contains_key(id) && (!holds(before.chains@, id)
                    || before.store.nodes()[id].marked()) implies nodes.contains_key(id) by {
                assert(nodes1.contains_key(id));
                assert(id != curr);
                assert(nodes1.remove(curr).dom().contains(id));
                assert(nodes.dom().contains(id));
            }
        }
    }

    /// The chains are the same, and so is what is counted.
    spec fn same_frame(&self, other: &Self) -> bool {
        &&& self.buckets@ == other.buckets@
        &&& self.chains@ == other.chains@
        &&& self.size_exp == other.size_exp
        &&& self.num_marks == other.num_marks
        &&& self.num_entry == other.num_entry
        &&& self.needs_gc == other.needs_gc
        &&& self.stat == other.stat
    }

    /// Overwrites a node of the set with one of the same key, hash and link.
    fn replace(&mut self, id: Bdd, node: Node)
        requires
            old(self).wf(),
            old(self).table().contains_key(id),
            chained_alike(old(self).store.nodes()[id], node),
        ensures
            final(self).wf(),
            final(self).same_frame(old(self)),
            final(self).store.nodes() == old(self).store.nodes().insert(id, node),
            final(self).table() == old(self).table().insert(
                id,
                Vertex { refs: node.ref_cnt, ..old(self).table()[id] },
            ),
            final(self).outside() == old(self).outside(),
            final(self).marks() == (if node.marked() {
                old(self).marks().insert(id)
            } else {
                old(self).marks().remove(id)
            }),
    {
        let ghost before = *self;
        proof {
            self.lemma_stored();
        }
        *self.store.index_mut(id) = node;
        proof {
            let nodes0 = before.store.nodes();
            let nodes = self.store.nodes();
            assert forall|x: Bdd| holds(self.chains@, x) implies #[trigger] nodes.contains_key(x)
                && chained_alike(nodes0[x], nodes[x]) by {
                lemma_holds_stored(nodes0, self.buckets@, self.chains@, x);
            }
            lemma_arranged_frame(nodes0, nodes, self.buckets@, self.chains@);
            assert(self.table() =~= before.table().insert(
                id,
                Vertex { refs: node.ref_cnt, ..before.table()[id] },
            ));
            assert(self.table().dom() =~= before.table().dom());
            assert(self.outside() =~= before.outside());
            assert(self.marks() =~= if node.marked() {
                before.marks().insert(id)
            } else {
                before.marks().remove(id)
            });
        }
    }

    /// The nodes in the store, in the set or not.
    pub closed spec fn stored(&self) -> Map<Bdd, Node> {
        self.store.nodes()
    }

    /// The number of buckets.
    pub closed spec fn width(&self) -> nat {
        self.buckets@.len()
    }

    /// The first node of a bucket.
    pub closed spec fn first_of(&self, i: int) -> Bdd {
        self.buckets@[i]
    }

    /// The node that is met after `k` others on a walk through bucket `i`; none past its end.
    pub open spec fn met(&self, i: int, k: nat) -> Bdd
        decreases k,
    {
        if k == 0 {
            self.first_of(i)
        } else if self.met(i, (k - 1) as nat) == NULL {
            NULL
        } else {
            self.stored()[self.met(i, (k - 1) as nat)].next
        }
    }

    /// A node that is met has a hash that leaves the number of its bucket, and the node that is met
    /// next comes after it by its level, then its low child, then its high child.
    pub open spec fn fits_in(&self, i: int, k: nat) -> bool {
        let (a, b) = (self.met(i, k), self.met(i, k + 1));
        let (x, y) = (self.stored()[a], self.stored()[b]);
        &&& a != NULL ==> x.hash as int % self.width() as int == i
        &&& a != NULL && b != NULL ==> x.level <= y.level
        &&& a != NULL && b != NULL && x.level == y.level ==> x.low <= y.low
        &&& a != NULL && b != NULL && x.level == y.level && x.low == y.low ==> x.high < y.high
    }

    proof fn lemma_met(&self, i: int, k: nat)
        requires
            self.walkable(),
            0 <= i < self.width(),
        ensures
            self.met(i, k) == at(self.chains@[i], k as int),
        decreases k,
    {
        let c = self.chains@[i];
        assert(linked(self.store.nodes(), self.buckets@[i], c));
        reveal(linked);
        if k > 0 {
            self.lemma_met(i, (k - 1) as nat);
            if k - 1 < c.len() {
                assert(c[k - 1] != NULL);
                assert(self.store.nodes()[c[k - 1]].next == at(c, k as int));
            }
        }
    }

    /// A set is sane just if every node fits that is met on a walk through its buckets.
    pub proof fn law_sane(&self)
        requires
            self.walkable(),
        ensures
            self.sane() <==> forall|i: int, k: nat|
                0 <= i < self.width() ==> #[trigger] self.fits_in(i, k),
    {
        let nodes = self.store.nodes();
        let n = self.width() as int;
        if self.sane() {
            assert forall|i: int, k: nat| 0 <= i < self.width() implies #[trigger] self.fits_in(
                i,
                k,
            ) by {
                let c = self.chains@[i];
                self.lemma_met(i, k);
                self.lemma_met(i, k + 1);
                assert(in_order(nodes, c, i, n));
                if k < c.len() {
                    assert(nodes[c[k as int]].hash as int % n == i);
                }
                if k + 1 < c.len() {
                    assert(key_lt(
                        raw_key(nodes[c[k as int]]),
                        raw_key(nodes[c[k as int + 1]]),
                    ));
                }
            }
        }
        if forall|i: int, k: nat| 0 <= i < self.width() ==> #[trigger] self.fits_in(i, k) {
            assert forall|i: int| #![trigger self.chains@[i]] 0 <= i < n implies in_order(
                nodes,
                self.chains@[i],
                i,
                n,
            ) by {
                let c = self.chains@[i];
                assert(linked(nodes, self.buckets@[i], c));
                assert forall|k: int| #![trigger c[k]] 0 <= k < c.len() implies nodes[c[k]].hash
                    as int % n == i by {
                    reveal(linked);
                    self.lemma_met(i, k as nat);
                    assert(self.fits_in(i, k as nat));
                }
                assert forall|j: int, k: int|
                    #![trigger c[j], c[k]]
                    0 <= j < k < c.len() implies key_lt(
                    raw_key(nodes[c[j]]),
                    raw_key(nodes[c[k]]),
                ) by {
                    self.lemma_ascends(i, j, k);
                }
            }
        }
    }

    proof fn lemma_ascends(&self, i: int, j: int, k: int)
        requires
            self.walkable(),
            forall|i: int, k: nat| 0 <= i < self.width() ==> #[trigger] self.fits_in(i, k),
            0 <= i < self.width(),
            0 <= j < k < self.chains@[i].len(),
        ensures
            key_lt(
                raw_key(self.store.nodes()[self.chains@[i][j]]),
                raw_key(self.store.nodes()[self.chains@[i][k]]),
            ),
        decreases k,
    {
        let c = self.chains@[i];
        assert(linked(self.store.nodes(), self.buckets@[i], c));
        reveal(linked);
        self.lemma_met(i, (k - 1) as nat);
        self.lemma_met(i, k as nat);
        assert(self.fits_in(i, (k - 1) as nat));
        assert(c[k - 1] != NULL && c[k] != NULL);
        if j < k - 1 {
            self.lemma_ascends(i, j, k - 1);
        }
    }

    /// What is counted and marked is the same.
    pub open spec fn alike(&self, other: &Self) -> bool {
        &&& self.marks() == other.marks()
        &&& self.exp() == other.exp()
        &&& self.mark_count() == other.mark_count()
        &&& self.filled() == other.filled()
    }

    /// Sets that are alike have the same marks and the same number of them, as many buckets, and
    /// are filled or not both.
    pub proof fn law_alike(&self, other: &Self, id: Bdd)
        requires
            self.alike(other),
        ensures
            self.marks().contains(id) <==> other.marks().contains(id),
            self.mark_count() == other.mark_count(),
            pow2(self.exp()) == pow2(other.exp()),
            self.filled() == other.filled(),
    {
    }

    /// Makes a node that is not in the set.
    pub fn new_node(&mut self, node: Node) -> (id: Bdd)
        requires
            old(self).wf(),
        ensures
            final(self).wf(),
            final(self).alike(old(self)),
            id != NULL,
            !old(self).table().contains_key(id),
            !old(self).outside().contains_key(id),
            final(self).table() == old(self).table(),
            final(self).outside() == old(self).outside().insert(id, node),
    {
        let ghost before = *self;
        let id: Bdd = self.store.allocate(node);
        proof {
            let nodes0 = before.store.nodes();
            let nodes = self.store.nodes();
            assert forall|x: Bdd| holds(self.chains@, x) implies #[trigger] nodes.contains_key(x)
                && nodes[x] == nodes0[x] by {
                lemma_holds_stored(nodes0, self.buckets@, self.chains@, x);
            }
            lemma_arranged_frame(nodes0, nodes, self.buckets@, self.chains@);
            assert forall|x: Bdd| #[trigger] holds(self.chains@, x) implies nodes.contains_key(
                x,
            ) by {
                lemma_holds_stored(nodes0, self.buckets@, self.chains@, x);
            }
            assert(!holds(self.chains@, id)) by {
                if holds(self.chains@, id) {
                    lemma_holds_stored(nodes0, self.buckets@, self.chains@, id);
                }
            }
            assert(self.table() =~= before.table());
            assert(self.outside() =~= before.outside().insert(id, node));
            assert(self.marks() =~= before.marks());
        }
        id
    }

    /// Gives a node that is not in the set a level and children, and the hash that goes with
    /// them.
    pub fn refill(&mut self, id: Bdd, level: usize, low: Bdd, high: Bdd)
        requires
            old(self).wf(),
            old(self).outside().contains_key(id),
        ensures
            final(self).wf(),
            final(self).alike(old(self)),
            final(self).table() == old(self).table(),
            final(self).outside() == old(self).outside().insert(
                id,
                Node {
                    level,
                    low,
                    high,
                    hash: key_hash((level, low, high)),
                    ..old(self).outside()[id]
                },
            ),
    {
        let ghost before = *self;
        let mut node = *self.store.index(id);
        node.level = level;
        node.low = low;
        node.high = high;
        *self.store.index_mut(id) = node;
        id.rehash(&mut self.store);
        proof {
            let nodes0 = before.store.nodes();
            let nodes = self.store.nodes();
            assert forall|x: Bdd| holds(self.chains@, x) implies #[trigger] nodes.contains_key(x)
                && nodes[x] == nodes0[x] by {
                lemma_holds_stored(nodes0, self.buckets@, self.chains@, x);
            }
            lemma_arranged_frame(nodes0, nodes, self.buckets@, self.chains@);
            assert forall|x: Bdd| #[trigger] holds(self.chains@, x) implies nodes.contains_key(
                x,
            ) by {
                lemma_holds_stored(nodes0, self.buckets@, self.chains@, x);
            }
            assert(self.table() =~= before.table());
            assert(self.outside() =~= before.outside().insert(
                id,
                Node {
                    level,
                    low,
                    high,
                    hash: key_hash((level, low, high)),
                    ..before.outside()[id]
                },
            ));
            assert(self.marks() =~= before.marks());
        }
    }

    /// Adds one to a node's reference count, which wraps around.
    pub fn ref_node(&mut self, id: Bdd)
        requires
            old(self).wf(),
            old(self).table().contains_key(id),
        ensures
            final(self).wf(),
            final(self).alike(old(self)),
            final(self).outside() == old(self).outside(),
            final(self).table() == old(self).table().insert(
                id,
                Vertex {
                    refs: old(self).table()[id].refs.wrapping_add(1),
                    ..old(self).table()[id]
                },
            ),
    {
        let ghost before = *self;
        proof {
            self.lemma_stored();
        }
        let mut node = *self.store.index(id);
        node.ref_cnt = node.ref_cnt.wrapping_add(1);
        self.replace(id, node);
        assert(self.marks() =~= before.marks());
    }

    /// Takes one off a node's reference count, which wraps around.
    pub fn deref_node(&mut self, id: Bdd)
        requires
            old(self).wf(),
            old(self).table().contains_key(id),
        ensures
            final(self).wf(),
            final(self).alike(old(self)),
            final(self).outside() == old(self).outside(),
            final(self).table() == old(self).table().insert(
                id,
                Vertex {
                    refs: old(self).table()[id].refs.wrapping_sub(1),
                    ..old(self).table()[id]
                },
            ),
    {
        let ghost before = *self;
        proof {
            self.lemma_stored();
        }
        let mut node = *self.store.index(id);
        node.ref_cnt = node.ref_cnt.wrapping_sub(1);
        self.replace(id, node);
        assert(self.marks() =~= before.marks());
    }

    /// The level and the children of a node of the set.
    pub fn vertex(&self, id: Bdd) -> (r: NodeKey)
        requires
            self.wf(),
            self.marks() == Set::<Bdd>::empty(),
            self.table().contains_key(id),
        ensures
            r == self.table()[id].key(),
    {
        proof {
            self.lemma_stored();
            assert(!self.marks().contains(id));
        }
        let level: usize = id.level(&self.store);
        let low: Bdd = id.low(&self.store);
        let high: Bdd = id.high(&self.store);
        (level, low, high)
    }

    /// Whether a node is in the set.
    pub fn contains(&self, id: Bdd) -> (r: bool)
        requires
            self.wf(),
        ensures
            r == self.table().contains_key(id),
    {
        let ghost nodes = self.store.nodes();
        let ghost n = self.chains@.len() as int;
        proof {
            self.lemma_stored();
            lemma_size_range(self.exp());
        }
        if !self.store.contains(id) {
            return false;
        }
        let hash: u64 = id.node_hash(&self.store);
        let idx: usize = (hash % (self.buckets.len() as u64)) as usize;
        let ghost chain = self.chains@[idx as int];
        let ghost mut k: int = 0;
        let mut curr: Bdd = self.buckets[idx];
        proof {
            lemma_bucket_chain(nodes, curr, chain, idx as int, n);
            reveal(linked);
        }
        while curr != NULL
            invariant
                self.wf(),
                nodes == self.store.nodes(),
                n == self.chains@.len(),
                idx < n,
                chain == self.chains@[idx as int],
                0 <= k <= chain.len(),
                curr == at(chain, k),
                forall|m: int| #![trigger chain[m]] 0 <= m < chain.len() ==> chain[m] != NULL,
                forall|m: int| #![trigger chain[m]] 0 <= m < k ==> chain[m] != id,
            decreases chain.len() - k,
        {
            proof {
                assert(bucket(nodes, self.buckets@[idx as int], chain, idx as int, n));
                lemma_bucket_at(nodes, self.buckets@[idx as int], chain, idx as int, n, k);
            }
            if curr == id {
                assert(sits(self.chains@, idx as int, k, id));
                assert(holds(self.chains@, id));
                return true;
            }
            curr = curr.next(&self.store);
            proof {
                k = k + 1;
            }
        }
        proof {
            if holds(self.chains@, id) {
                let (i, m) = choose|i: int, m: int| sits(self.chains@, i, m, id);
                lemma_bucket_at(nodes, self.buckets@[i], self.chains@[i], i, n, m);
                assert(chain[m] == id);
            }
        }
        false
    }

    /// Whether a node of the set is marked.
    pub fn is_marked(&self, id: Bdd) -> (r: bool)
        requires
            self.wf(),
            self.table().contains_key(id),
        ensures
            r == self.marks().contains(id),
    {
        proof {
            self.lemma_stored();
        }
        id.level(&self.store) >= MARK
    }

    pub fn ref_cnt(&self, id: Bdd) -> (r: usize)
        requires
            self.wf(),
            self.table().contains_key(id),
        ensures
            r == self.table()[id].refs,
    {
        proof {
            self.lemma_stored();
        }
        id.ref_cnt(&self.store)
    }

    /// Marks `root` and what can be reached from it without passing a marked node, and counts
    /// the nodes that were marked.
    fn mark_rec(&mut self, root: Bdd, counter: &mut usize)
        requires
            old(self).wf(),
            complete(old(self).table()),
            old(self).table().contains_key(root),
            *old(counter) == old(self).marks().len(),
        ensures
            final(self).wf(),
            final(self).same_frame(old(self)),
            final(self).table() == old(self).table(),
            final(self).outside() == old(self).outside(),
            *final(counter) == final(self).marks().len(),
            old(self).marks().subset_of(final(self).marks()),
            final(self).marks().contains(root),
            forall|id: Bdd|
                #![trigger final(self).marks().contains(id)]
                final(self).marks().contains(id) && !old(self).marks().contains(id) ==> {
                    &&& reaches(edges_of(old(self).table()), root, id)
                    &&& old(self).table()[id].low == NULL || final(self).marks().contains(
                        old(self).table()[id].low,
                    )
                    &&& old(self).table()[id].high == NULL || final(self).marks().contains(
                        old(self).table()[id].high,
                    )
                },
        decreases old(self).table().dom().len() - old(self).marks().len(),
    {
        let ghost before = *self;
        let ghost g = edges_of(self.table());
        proof {
            self.lemma_table();
            self.lemma_stored();
            lemma_reaches_self(g, root);
            vstd::set_lib::lemma_len_subset(self.marks(), self.table().dom());
        }
        let mut node = *self.store.index(root);
        if node.level >= MARK {
            return;
        }
        node.level = node.level + MARK;
        self.replace(root, node);
        let ghost once = *self;
        proof {
            assert(self.table() =~= before.table());
            self.lemma_table();
            vstd::set_lib::lemma_len_subset(self.marks(), self.table().dom());
        }
        *counter = *counter + 1;
        let low: Bdd = node.low;
        let high: Bdd = node.high;
        assert(self.table()[root].low == low && self.table()[root].high == high);
        if low != NULL {
            self.mark_rec(low, counter);
        }
        let ghost twice = *self;
        proof {
            assert(once.marks().subset_of(twice.marks()));
            self.lemma_table();
            vstd::set_lib::lemma_len_subset(once.marks(), twice.marks());
            vstd::set_lib::lemma_len_subset(twice.marks(), self.table().dom());
        }
        if high != NULL {
            self.mark_rec(high, counter);
        }
        proof {
            assert forall|id: Bdd|
                #![trigger self.marks().contains(id)]
                self.marks().contains(id) && !before.marks().contains(id) implies {
                &&& reaches(g, root, id)
                &&& before.table()[id].low == NULL || self.marks().contains(
                    before.table()[id].low,
                )
                &&& before.table()[id].high == NULL || self.marks().contains(
                    before.table()[id].high,
                )
            } by {
                if id == root {
                } else if twice.marks().contains(id) {
                    assert(!once.marks().contains(id));
                    lemma_reaches_step(g, root, id);
                } else {
                    lemma_reaches_step(g, root, id);
                }
            }
        }
    }
}

impl NodeSet for LockFreeSet {
    closed spec fn wf(&self) -> bool {
        &&& self.store.wf()
        &&& 1 <= self.size_exp <= MAX_SIZE_EXP
        &&& self.buckets@.len() == pow2(self.size_exp as nat)
        &&& arranged(self.store.nodes(), self.buckets@, self.chains@)
        &&& self.num_entry == self.table().dom().len()
        &&& self.stat == TableStat::zero()
    }

    closed spec fn table(&self) -> Map<Bdd, Vertex> {
        table_of(self.store.nodes(), self.chains@)
    }

    closed spec fn marks(&self) -> Set<Bdd> {
        Set::new(|id: Bdd| holds(self.chains@, id) && self.store.nodes()[id].marked())
    }

    closed spec fn outside(&self) -> Map<Bdd, Node> {
        Map::new(
            |id: Bdd| self.store.nodes().contains_key(id) && !holds(self.chains@, id),
            |id: Bdd| self.store.nodes()[id],
        )
    }

    closed spec fn exp(&self) -> nat {
        self.size_exp as nat
    }

    closed spec fn mark_count(&self) -> nat {
        self.num_marks as nat
    }

    closed spec fn filled(&self) -> bool {
        self.needs_gc
    }

    closed spec fn walkable(&self) -> bool {
        &&& self.store.wf()
        &&& self.chains@.len() == self.buckets@.len()
        &&& forall|i: int|
            #![trigger self.chains@[i]]
            0 <= i < self.chains@.len() ==> linked(
                self.store.nodes(),
                self.buckets@[i],
                self.chains@[i],
            )
    }

    closed spec fn sane(&self) -> bool {
        forall|i: int|
            #![trigger self.chains@[i]]
            0 <= i < self.chains@.len() ==> in_order(
                self.store.nodes(),
                self.chains@[i],
                i,
                self.chains@.len() as int,
            )
    }

    fn get_or_insert(&mut self, new_ptr: Bdd) -> (r: (Bdd, bool)) {
        let ghost before = *self;
        let ghost nodes0 = self.store.nodes();
        let ghost chains0 = self.chains@;
        let ghost n = self.chains@.len() as int;
        proof {
            self.lemma_stored();
            lemma_size_range(self.size_exp as nat);
            assert(self.store.nodes()[new_ptr] == self.outside()[new_ptr]);
        }
        let hash: u64 = new_ptr.node_hash(&self.store);
        let size: u64 = self.buckets.len() as u64;
        let idx: usize = (hash % size) as usize;
        let new_key = self.store.index(new_ptr).key();
        let head: Bdd = self.buckets[idx];
        let ghost chain = self.chains@[idx as int];
        proof {
            lemma_bucket_chain(nodes0, head, chain, idx as int, n);
            assert forall|k: int|
                #![trigger chain[k]]
                0 <= k < chain.len() implies !nodes0[chain[k]].marked() by {
                assert(sits(chains0, idx as int, k, chain[k]));
                assert(!self.marks().contains(chain[k]));
            }
        }
        let (prev, curr, Ghost(j)) = seek(&self.store, head, new_key, Ghost(chain));
        if curr != NULL {
            assert(chain[j] == curr);
            assert(sits(chains0, idx as int, j, curr));
            proof {
                lemma_bucket_at(nodes0, head, chain, idx as int, n, j);
            }
            let curr_key = self.store.index(curr).key();
            if key_same(curr_key, new_key) {
                assert(self.table().contains_key(curr));
                assert(self.table()[curr].key() == new_key);
                return (curr, false);
            }
        }
        proof {
            if j < chain.len() {
                lemma_bucket_at(nodes0, head, chain, idx as int, n, j);
            }
            lemma_absent(nodes0, chain, j, new_key);
            if has_key(self.table(), new_key) {
                let id = choose|id: Bdd| #[trigger]
                    self.table().contains_key(id) && self.table()[id].key() == new_key;
                let (i, k) = choose|i: int, k: int| sits(chains0, i, k, id);
                lemma_bucket_at(nodes0, self.buckets@[i], chains0[i], i, n, k);
                assert(i == idx);
                assert(chain[k] == id);
                assert(false);
            }
            assert(!chain.contains(new_ptr)) by {
                if chain.contains(new_ptr) {
                    let k = choose|k: int| 0 <= k < chain.len() && chain[k] == new_ptr;
                    assert(sits(chains0, idx as int, k, new_ptr));
                }
            }
        }
        let new_head: Bdd = link(
            &mut self.store,
            head,
            prev,
            curr,
            new_ptr,
            Ghost(chain),
            Ghost(j),
        );
        self.buckets[idx] = new_head;
        proof {
            self.chains@ = chains0.update(idx as int, chain.insert(j, new_ptr));
            lemma_inserted(
                nodes0,
                self.store.nodes(),
                before.buckets@,
                self.buckets@,
                chains0,
                idx as int,
                j,
                new_ptr,
                prev,
            );
            let v = Vertex {
                level: nodes0[new_ptr].level,
                low: nodes0[new_ptr].low,
                high: nodes0[new_ptr].high,
                refs: nodes0[new_ptr].ref_cnt,
            };
            assert forall|id: Bdd| self.table().contains_key(id) implies #[trigger] self.table()[id]
                == before.table().insert(new_ptr, v)[id] by {
                if id != new_ptr {
                    lemma_holds_stored(nodes0, before.buckets@, chains0, id);
                }
                assert(nodes0.dom().contains(id));
                assert(self.store.nodes().contains_key(id));
            }
            assert(self.table() =~= before.table().insert(new_ptr, v));
            assert forall|id: Bdd| #[trigger] before.outside().contains_key(id) && id
                != new_ptr implies self.store.nodes()[id] == nodes0[id] by {
                assert(nodes0.dom().contains(id));
                assert(self.store.nodes().contains_key(id));
                if id == prev {
                    assert(sits(chains0, idx as int, j - 1, id));
                }
            }
            assert(self.table().dom() =~= before.table().dom().insert(new_ptr));
            assert forall|id: Bdd| #[trigger] self.outside().contains_key(id) == before.outside()
                .remove(new_ptr).contains_key(id) by {
                assert(self.store.nodes().dom().contains(id) == nodes0.dom().contains(id));
                assert(holds(self.chains@, id) == (holds(chains0, id) || id == new_ptr));
            }
            assert(self.outside() =~= before.outside().remove(new_ptr));
            assert forall|id: Bdd| !self.marks().contains(id) by {
                if holds(self.chains@, id) {
                    assert(self.table().contains_key(id));
                    assert(self.store.nodes().contains_key(id)) by {
                        if id != new_ptr {
                            lemma_holds_stored(nodes0, before.buckets@, chains0, id);
                        }
                        assert(nodes0.dom().contains(id));
                    }
                    assert(!before.marks().contains(id));
                }
            }
            assert(self.marks() =~= Set::<Bdd>::empty());
            self.lemma_stored();
        }
        self.num_entry = self.num_entry + 1;
        if self.num_entry >= self.buckets.len() {
            self.needs_gc = true;
        }
        (new_ptr, true)
    }

    fn mark_nodes(&mut self) -> (count: usize) {
        let ghost before = *self;
        let ghost t = self.table();
        let ghost g = edges_of(t);
        let mut counter: usize = 0;
        let size: usize = self.buckets.len();
        let mut i: usize = 0;
        proof {
            lemma_size_range(self.size_exp as nat);
        }
        while i < size
            invariant
                self.wf(),
                self.same_frame(&before),
                self.table() == t,
                t == before.table(),
                g == edges_of(t),
                self.outside() == before.outside(),
                complete(t),
                size == self.buckets@.len(),
                size == self.chains@.len(),
                i <= size,
                counter == self.marks().len(),
                marked_so_far(t, self.marks()),
                forall|a: int, k: int|
                    #![trigger self.chains@[a][k]]
                    0 <= a < i && 0 <= k < self.chains@[a].len() && t[self.chains@[a][k]].refs != 0
                        ==> self.marks().contains(self.chains@[a][k]),
            decreases size - i,
        {
            let ghost chain = self.chains@[i as int];
            let ghost mut k: int = 0;
            let mut curr: Bdd = self.buckets[i];
            proof {
                lemma_bucket_chain(
                    self.store.nodes(),
                    self.buckets@[i as int],
                    chain,
                    i as int,
                    size as int,
                );
                reveal(linked);
            }
            while curr != NULL
                invariant
                    self.wf(),
                    self.same_frame(&before),
                    self.table() == t,
                    t == before.table(),
                    g == edges_of(t),
                    self.outside() == before.outside(),
                    complete(t),
                    size == self.buckets@.len(),
                    size == self.chains@.len(),
                    i < size,
                    chain == self.chains@[i as int],
                    counter == self.marks().len(),
                    marked_so_far(t, self.marks()),
                    0 <= k <= chain.len(),
                    curr == at(chain, k),
                    forall|m: int| #![trigger chain[m]] 0 <= m < chain.len() ==> chain[m] != NULL,
                    forall|a: int, m: int|
                        #![trigger self.chains@[a][m]]
                        0 <= a < i && 0 <= m < self.chains@[a].len()
                            && t[self.chains@[a][m]].refs != 0 ==> self.marks().contains(
                            self.chains@[a][m],
                        ),
                    forall|m: int|
                        #![trigger chain[m]]
                        0 <= m < k && t[chain[m]].refs != 0 ==> self.marks().contains(chain[m]),
                decreases chain.len() - k,
            {
                proof {
                    lemma_bucket_at(
                        self.store.nodes(),
                        self.buckets@[i as int],
                        chain,
                        i as int,
                        size as int,
                        k,
                    );
                    assert(sits(self.chains@, i as int, k, curr));
                    assert(t.contains_key(curr));
                }
                let node = *self.store.index(curr);
                assert(t[curr].refs == node.ref_cnt);
                if node.ref_cnt != 0 && node.level < MARK {
                    let ghost marks0 = self.marks();
                    self.mark_rec(curr, &mut counter);
                    proof {
                        assert forall|id: Bdd| #[trigger] self.marks().contains(id) implies live(
                            t,
                        ).contains(id) by {
                            if !marks0.contains(id) {
                                assert(referenced(t).contains(curr) && reaches(g, curr, id));
                            }
                        }
                    }
                }
                curr = node.next;
                proof {
                    k = k + 1;
                }
            }
            assert(k == chain.len());
            i = i + 1;
        }
        proof {
            self.lemma_table();
            assert forall|id: Bdd| referenced(t).contains(id) implies self.marks().contains(id) by {
                let (a, k) = choose|a: int, k: int| sits(self.chains@, a, k, id);
                assert(self.chains@[a][k] == id);
            }
            lemma_marked_all(t, self.marks());
        }
        self.num_marks = counter;
        counter
    }
    fn gc_unmarked(&mut self) {
        let ghost before = *self;
        let size: usize = self.buckets.len();
        let mut i: usize = 0;
        while i < size
            invariant
                self.shaped(),
                before.shaped(),
                self.swept(&before),
                self.num_entry == before.num_entry,
                size == self.buckets@.len(),
                size == self.chains@.len(),
                i <= size,
                forall|a: int, m: int|
                    #![trigger self.chains@[a][m]]
                    0 <= a < i && 0 <= m < self.chains@[a].len()
                        ==> self.store.nodes()[self.chains@[a][m]].marked(),
            decreases size - i,
        {
            let ghost mut k: int = 0;
            let mut prev: Bdd = NULL;
            let mut curr: Bdd = self.buckets[i];
            proof {
                lemma_bucket_chain(
                    self.store.nodes(),
                    self.buckets@[i as int],
                    self.chains@[i as int],
                    i as int,
                    size as int,
                );
                reveal(linked);
            }
            while curr != NULL
                invariant
                    self.shaped(),
                    before.shaped(),
                    self.swept(&before),
                    self.num_entry == before.num_entry,
                    size == self.buckets@.len(),
                    size == self.chains@.len(),
                    i < size,
                    0 <= k <= self.chains@[i as int].len(),
                    prev == at(self.chains@[i as int], k - 1),
                    curr == at(self.chains@[i as int], k),
                    forall|a: int, m: int|
                        #![trigger self.chains@[a][m]]
                        0 <= a < i && 0 <= m < self.chains@[a].len()
                            ==> self.store.nodes()[self.chains@[a][m]].marked(),
                    forall|m: int|
                        #![trigger self.chains@[i as int][m]]
                        0 <= m < k ==> self.store.nodes()[self.chains@[i as int][m]].marked(),
                decreases self.chains@[i as int].len() - k,
            {
                let ghost middle = *self;
                let ghost chain = self.chains@[i as int];
                proof {
                    assert(bucket(
                        self.store.nodes(),
                        self.buckets@[i as int],
                        chain,
                        i as int,
                        size as int,
                    ));
                    assert(k < chain.len());
                    lemma_bucket_at(
                        self.store.nodes(),
                        self.buckets@[i as int],
                        chain,
                        i as int,
                        size as int,
                        k,
                    );
                }
                let node = *self.store.index(curr);
                if node.level < MARK {
                    self.sweep_one(i, prev, curr, Ghost(before), Ghost(k));
                    proof {
                        assert(self.chains@[i as int] == chain.remove(k));
                        assert forall|a: int, m: int|
                            #![trigger self.chains@[a][m]]
                            0 <= a <= i && 0 <= m < self.chains@[a].len() && (a < i || m
                                < k) implies self.store.nodes()[self.chains@[a][m]].marked() by {
                            let x = self.chains@[a][m];
                            assert(x == middle.chains@[a][m]);
                            assert(sits(self.chains@, a, m, x));
                            lemma_holds_stored(
                                self.store.nodes(),
                                self.buckets@,
                                self.chains@,
                                x,
                            );
                        }
                        if k < chain.remove(k).len() {
                            assert(chain.remove(k)[k] == chain[k + 1]);
                        }
                    }
                    curr = node.next;
                } else {
                    prev = curr;
                    curr = node.next;
                    proof {
                        k = k + 1;
                    }
                }
            }
            proof {
                if k < self.chains@[i as int].len() {
                    lemma_bucket_at(
                        self.store.nodes(),
                        self.buckets@[i as int],
                        self.chains@[i as int],
                        i as int,
                        size as int,
                        k,
                    );
                }
            }
            i = i + 1;
        }
        self.num_entry = self.num_marks;
        self.needs_gc = false;
        proof {
            let t = before.table().restrict(before.marks());
            let nodes = self.store.nodes();
            assert forall|id: Bdd| #[trigger] holds(self.chains@, id) <==> before.marks().contains(
                id,
            ) by {
                if holds(self.chains@, id) {
                    lemma_holds_stored(nodes, self.buckets@, self.chains@, id);
                    let (a, m) = choose|a: int, m: int| sits(self.chains@, a, m, id);
                    assert(nodes[self.chains@[a][m]].marked());
                    assert(nodes.contains_key(id));
                }
                if before.marks().contains(id) {
                    lemma_holds_stored(before.store.nodes(), before.buckets@, before.chains@, id);
                    assert(nodes.contains_key(id));
                }
            }
            assert forall|id: Bdd| holds(self.chains@, id) implies nodes.contains_key(id) by {
                lemma_holds_stored(nodes, self.buckets@, self.chains@, id);
            }
            assert forall|id: Bdd| #[trigger] self.table().contains_key(id) == t.contains_key(
                id,
            ) by {
                assert(holds(self.chains@, id) == before.marks().contains(id));
            }
            assert forall|id: Bdd| #[trigger] t.contains_key(id) implies self.table()[id]
                == t[id] by {
                assert(holds(self.chains@, id));
                assert(nodes.contains_key(id));
            }
            assert(self.table() =~= t);
            assert(self.table().dom() =~= before.marks());
            assert forall|id: Bdd| #[trigger]
                self.outside().contains_key(id) == before.outside().contains_key(id) by {
                if before.outside().contains_key(id) {
                    assert(nodes.contains_key(id));
                }
            }
            assert(self.outside() =~= before.outside());
            assert(self.marks() =~= before.marks());
        }
    }

    fn unmark_nodes(&mut self) {
        let ghost before = *self;
        let ghost t = self.table();
        let size: usize = self.buckets.len();
        let mut i: usize = 0;
        while i < size
            invariant
                self.wf(),
                self.same_frame(&before),
                self.table() == t,
                t == before.table(),
                self.outside() == before.outside(),
                size == self.buckets@.len(),
                size == self.chains@.len(),
                i <= size,
                forall|a: int, k: int|
                    #![trigger self.chains@[a][k]]
                    0 <= a < i && 0 <= k < self.chains@[a].len() ==> !self.marks().contains(
                        self.chains@[a][k],
                    ),
            decreases size - i,
        {
            let ghost chain = self.chains@[i as int];
            let ghost mut k: int = 0;
            let mut curr: Bdd = self.buckets[i];
            proof {
                lemma_bucket_chain(
                    self.store.nodes(),
                    self.buckets@[i as int],
                    chain,
                    i as int,
                    size as int,
                );
                reveal(linked);
            }
            while curr != NULL
                invariant
                    self.wf(),
                    self.same_frame(&before),
                    self.table() == t,
                    t == before.table(),
                    self.outside() == before.outside(),
                    size == self.buckets@.len(),
                    size == self.chains@.len(),
                    i < size,
                    chain == self.chains@[i as int],
                    0 <= k <= chain.len(),
                    curr == at(chain, k),
                    forall|m: int| #![trigger chain[m]] 0 <= m < chain.len() ==> chain[m] != NULL,
                    forall|a: int, m: int|
                        #![trigger self.chains@[a][m]]
                        0 <= a < i && 0 <= m < self.chains@[a].len() ==> !self.marks().contains(
                            self.chains@[a][m],
                        ),
                    forall|m: int|
                        #![trigger chain[m]]
                        0 <= m < k ==> !self.marks().contains(chain[m]),
                decreases chain.len() - k,
            {
                proof {
                    lemma_bucket_at(
                        self.store.nodes(),
                        self.buckets@[i as int],
                        chain,
                        i as int,
                        size as int,
                        k,
                    );
                    assert(sits(self.chains@, i as int, k, curr));
                    assert(t.contains_key(curr));
                }
                let mut node = *self.store.index(curr);
                if node.level >= MARK {
                    node.level = node.level - MARK;
                    self.replace(curr, node);
                    assert(self.table() =~= t);
                }
                curr = node.next;
                proof {
                    k = k + 1;
                }
            }
            assert(k == chain.len());
            i = i + 1;
        }
        proof {
            assert forall|id: Bdd| !self.marks().contains(id) by {
                if holds(self.chains@, id) {
                    let (a, k) = choose|a: int, k: int| sits(self.chains@, a, k, id);
                    assert(self.chains@[a][k] == id);
                }
            }
            assert(self.marks() =~= Set::<Bdd>::empty());
        }
    }
    fn grow(&mut self) {
        let ghost before = *self;
        let ghost nodes0 = self.store.nodes();
        let ghost buckets0 = self.buckets@;
        let ghost chains0 = self.chains@;
        proof {
            lemma_double(self.size_exp as nat);
        }
        let size: usize = self.buckets.len();
        let new_size: usize = size * 2;
        let mut new_buckets: Vec<Bdd> = vec![NULL; new_size];
        let ghost mut chains: Seq<Seq<Bdd>> = Seq::new(new_size as nat, |i: int| Seq::empty());
        let mut i: usize = 0;
        proof {
            reveal(bucket);
            reveal(linked);
            reveal(ascending);
            assert forall|x: Bdd| #[trigger] holds(chains, x) <==> passed(chains0, 0, 0, x) by {
                if holds(chains, x) {
                    let (a, m) = choose|a: int, m: int| sits(chains, a, m, x);
                }
            }
        }
        while i < size
            invariant
                before.shaped(),
                before.marks() == Set::<Bdd>::empty(),
                nodes0 == before.store.nodes(),
                buckets0 == before.buckets@,
                chains0 == before.chains@,
                self.same_frame(&before),
                self.store.wf(),
                size == chains0.len(),
                size == buckets0.len(),
                0 < size <= new_size <= 0x4000_0000,
                new_size == chains.len(),
                i <= size,
                rehung(nodes0, self.store.nodes(), chains),
                arranged(self.store.nodes(), new_buckets@, chains),
                forall|x: Bdd| #[trigger] holds(chains, x) <==> passed(chains0, i as int, 0, x),
            decreases size - i,
        {
            let ghost chain = chains0[i as int];
            let ghost mut k: int = 0;
            let mut curr: Bdd = self.buckets[i];
            proof {
                lemma_bucket_chain(nodes0, buckets0[i as int], chain, i as int, size as int);
                reveal(linked);
            }
            while curr != NULL
                invariant
                    before.shaped(),
                    before.marks() == Set::<Bdd>::empty(),
                    nodes0 == before.store.nodes(),
                    buckets0 == before.buckets@,
                    chains0 == before.chains@,
                    self.same_frame(&before),
                    self.store.wf(),
                    size == chains0.len(),
                    size == buckets0.len(),
                    0 < size <= new_size <= 0x4000_0000,
                    new_size == chains.len(),
                    i < size,
                    chain == chains0[i as int],
                    0 <= k <= chain.len(),
                    curr == at(chain, k),
                    forall|m: int| #![trigger chain[m]] 0 <= m < chain.len() ==> chain[m] != NULL,
                    rehung(nodes0, self.store.nodes(), chains),
                    arranged(self.store.nodes(), new_buckets@, chains),
                    forall|x: Bdd| #[trigger] holds(chains, x) <==> passed(chains0, i as int, k, x),
                decreases chain.len() - k,
            {
                let ghost nodes = self.store.nodes();
                proof {
                    assert(bucket(nodes0, buckets0[i as int], chain, i as int, size as int));
                    lemma_bucket_at(nodes0, buckets0[i as int], chain, i as int, size as int, k);
                    lemma_passed(nodes0, buckets0, chains0, i as int, k);
                    assert(!holds(chains, curr));
                    assert(nodes0.dom().contains(curr));
                    assert(nodes.contains_key(curr));
                    assert(!before.marks().contains(curr));
                    assert forall|x: Bdd| #[trigger] holds(chains, x) implies !nodes[x].marked()
                        && nodes[x].plain_key() != nodes[curr].plain_key() by {
                        let (a, m) = choose|a: int, m: int| #[trigger]
                            sits(chains0, a, m, x) && (a < i as int || a == i as int && m < k);
                        lemma_holds_stored(nodes0, buckets0, chains0, x);
                        assert(nodes0.dom().contains(x));
                        assert(nodes.contains_key(x));
                        assert(!before.marks().contains(x));
                        if nodes[x].plain_key() == nodes[curr].plain_key() {
                            lemma_keys_differ(nodes0, buckets0, chains0, x, curr);
                        }
                    }
                }
                let next: Bdd = curr.next(&self.store);
                let Ghost(longer) = hang(&mut self.store, &mut new_buckets, curr, Ghost(chains));
                proof {
                    assert forall|x: Bdd| #[trigger] self.store.nodes().contains_key(x) implies {
                        &&& self.store.nodes()[x] == (Node {
                            next: self.store.nodes()[x].next,
                            ..nodes0[x]
                        })
                        &&& !holds(longer, x) ==> self.store.nodes()[x] == nodes0[x]
                    } by {
                        assert(nodes.dom().contains(x));
                        assert(nodes.contains_key(x));
                    }
                    chains = longer;
                    k = k + 1;
                }
                curr = next;
            }
            proof {
                assert(k == chain.len());
                lemma_passed_row(chains0, i as int);
            }
            i = i + 1;
        }
        self.buckets = new_buckets;
        self.size_exp = self.size_exp + 1;
        self.needs_gc = false;
        proof {
            self.chains@ = chains;
            let nodes = self.store.nodes();
            assert forall|x: Bdd| #[trigger] holds(chains, x) <==> holds(chains0, x) by {
                if holds(chains, x) {
                    let (a, m) = choose|a: int, m: int| #[trigger]
                        sits(chains0, a, m, x) && (a < size as int || a == size as int && m < 0);
                }
                if holds(chains0, x) {
                    let (a, m) = choose|a: int, m: int| sits(chains0, a, m, x);
                    assert(passed(chains0, size as int, 0, x));
                }
            }
            assert forall|x: Bdd| #[trigger] nodes0.contains_key(x) == nodes.contains_key(x) by {
                assert(nodes0.dom().contains(x) == nodes.dom().contains(x));
            }
            assert forall|x: Bdd| #[trigger] holds(chains0, x) implies nodes.contains_key(x) by {
                lemma_holds_stored(nodes0, buckets0, chains0, x);
            }
            assert forall|x: Bdd| #[trigger] before.table().contains_key(x) implies self.table()[x]
                == before.table()[x] by {
                assert(nodes.contains_key(x));
            }
            assert(self.table() =~= before.table());
            assert forall|x: Bdd| #[trigger] before.outside().contains_key(
                x,
            ) implies self.outside()[x] == before.outside()[x] by {
                assert(nodes.contains_key(x));
            }
            assert(self.outside() =~= before.outside());
            assert forall|x: Bdd| !self.marks().contains(x) by {
                if holds(chains, x) {
                    assert(nodes.contains_key(x));
                    assert(!before.marks().contains(x));
                }
            }
            assert(self.marks() =~= Set::<Bdd>::empty());
        }
    }

    fn sanity_check(&self) -> (ok: bool) {
        let size: usize = self.buckets.len();
        let mut i: usize = 0;
        let ghost nodes = self.store.nodes();
        proof {
            if self.wf() && self.marks() == Set::<Bdd>::empty() {
                self.lemma_sane();
            }
        }
        while i < size
            invariant
                self.wf() && self.marks() == Set::<Bdd>::empty() ==> self.sane(),
                self.walkable(),
                nodes == self.store.nodes(),
                size == self.buckets@.len(),
                i <= size,
                forall|a: int|
                    #![trigger self.chains@[a]]
                    0 <= a < i ==> in_order(nodes, self.chains@[a], a, size as int),
            decreases size - i,
        {
            let ghost chain = self.chains@[i as int];
            let ghost mut k: int = 0;
            let mut curr: Bdd = self.buckets[i];
            let mut prev_key: Option<NodeKey> = None;
            assert(linked(nodes, self.buckets@[i as int], chain));
            proof {
                reveal(linked);
            }
            while curr != NULL
                invariant
                    self.wf() && self.marks() == Set::<Bdd>::empty() ==> self.sane(),
                    self.walkable(),
                    linked(nodes, self.buckets@[i as int], chain),
                    nodes == self.store.nodes(),
                    size == self.buckets@.len(),
                    i < size,
                    chain == self.chains@[i as int],
                    0 <= k <= chain.len(),
                    curr == at(chain, k),
                    forall|m: int|
                        #![trigger chain[m]]
                        0 <= m < chain.len() ==> chain[m] != NULL && nodes.contains_key(chain[m]),
                    prev_key == (if k == 0 {
                        None::<NodeKey>
                    } else {
                        Some(raw_key(nodes[chain[k - 1]]))
                    }),
                    in_order(nodes, chain.take(k), i as int, size as int),
                decreases chain.len() - k,
            {
                assert(chain[k] == curr);
                let curr_key = self.store.index(curr).key();
                let hash: u64 = curr.node_hash(&self.store);
                let idx: usize = (hash % (size as u64)) as usize;
                if idx != i {
                    assert(!in_order(nodes, chain, i as int, size as int));
                    return false;
                }
                if let Some(key) = prev_key {
                    if !key_less(key, curr_key) {
                        assert(!in_order(nodes, chain, i as int, size as int));
                        return false;
                    }
                }
                proof {
                    lemma_in_order_next(nodes, chain, k, i as int, size as int);
                    reveal(linked);
                    assert(nodes[chain[k]].next == at(chain, k + 1));
                }
                prev_key = Some(curr_key);
                curr = curr.next(&self.store);
                proof {
                    k = k + 1;
                }
            }
            assert(k == chain.len());
            assert(chain.take(k) =~= chain);
            i = i + 1;
        }
        true
    }
}

} // verus!
