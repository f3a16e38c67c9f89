//! The chains of a bucketed node table: singly linked lists threaded through the nodes, in
//! strictly ascending order of the node keys.

use vstd::prelude::*;

use crate::node::{key_hash, key_less, key_lt, Bdd, Node, NodeKey, NodePtr, NULL};
use crate::store::{Allocator, NodeStore};

verus! {

/// The node at place `k` of a chain, or no node past its end.
pub open spec fn at(chain: Seq<Bdd>, k: int) -> Bdd {
    if 0 <= k < chain.len() {
        chain[k]
    } else {
        NULL
    }
}

/// Following `next` from `head` visits the nodes of `chain` in turn.
#[verifier::opaque]
pub open spec fn linked(nodes: Map<Bdd, Node>, head: Bdd, chain: Seq<Bdd>) -> bool {
    &&& head == at(chain, 0)
    &&& forall|k: int|
        #![trigger chain[k]]
        0 <= k < chain.len() ==> chain[k] != NULL && nodes.contains_key(chain[k])
    &&& forall|k: int|
        #![trigger nodes[chain[k]].next]
        0 <= k < chain.len() ==> nodes[chain[k]].next == at(chain, k + 1)
}

/// The keys of a chain ascend strictly.
#[verifier::opaque]
pub open spec fn ascending(nodes: Map<Bdd, Node>, chain: Seq<Bdd>) -> bool {
    forall|j: int, k: int|
        #![trigger chain[j], chain[k]]
        0 <= j < k < chain.len() ==> key_lt(
            nodes[chain[j]].plain_key(),
            nodes[chain[k]].plain_key(),
        )
}

/// A node's hash is that of its key, and sends it to bucket `i` of `n`.
pub open spec fn placed(node: Node, i: int, n: int) -> bool {
    &&& node.hash == key_hash(node.plain_key())
    &&& node.hash as int % n == i
}

/// `head` starts bucket `i` of `n`, which holds the nodes of `chain`.
#[verifier::opaque]
pub open spec fn bucket(
    nodes: Map<Bdd, Node>,
    head: Bdd,
    chain: Seq<Bdd>,
    i: int,
    n: int,
) -> bool {
    &&& linked(nodes, head, chain)
    &&& ascending(nodes, chain)
    &&& forall|k: int|
        #![trigger chain[k]]
        0 <= k < chain.len() ==> placed(nodes[chain[k]], i, n)
}

/// The nodes are the same but for the `next` of those in `s`.
pub open spec fn relinked(before: Map<Bdd, Node>, after: Map<Bdd, Node>, s: Set<Bdd>) -> bool {
    &&& after.dom() == before.dom()
    &&& forall|id: Bdd| #[trigger]
        after.contains_key(id) ==> {
            &&& after[id] == (Node { next: after[id].next, ..before[id] })
            &&& !s.contains(id) ==> after[id] == before[id]
        }
}

/// A node is the same as far as its chain is concerned.
pub open spec fn chained_alike(a: Node, b: Node) -> bool {
    &&& a.next == b.next
    &&& a.hash == b.hash
    &&& a.plain_key() == b.plain_key()
}

/// A bucket stays a bucket while its nodes keep their keys, hashes and links.
pub proof fn lemma_bucket_frame(
    before: Map<Bdd, Node>,
    after: Map<Bdd, Node>,
    head: Bdd,
    chain: Seq<Bdd>,
    i: int,
    n: int,
)
    requires
        bucket(before, head, chain, i, n),
        forall|k: int|
            #![trigger chain[k]]
            0 <= k < chain.len() ==> after.contains_key(chain[k]) && chained_alike(
                before[chain[k]],
                after[chain[k]],
            ),
    ensures
        bucket(after, head, chain, i, n),
{
    reveal(bucket);
    reveal(linked);
    reveal(ascending);
    assert forall|j: int, k: int|
        #![trigger chain[j], chain[k]]
        0 <= j < k < chain.len() implies key_lt(
        after[chain[j]].plain_key(),
        after[chain[k]].plain_key(),
    ) by {
        assert(key_lt(before[chain[j]].plain_key(), before[chain[k]].plain_key()));
    }
}

/// What a bucket says of the node at place `k`.
pub proof fn lemma_bucket_at(
    nodes: Map<Bdd, Node>,
    head: Bdd,
    chain: Seq<Bdd>,
    i: int,
    n: int,
    k: int,
)
    requires
        bucket(nodes, head, chain, i, n),
        0 <= k < chain.len(),
    ensures
        chain[k] != NULL,
        nodes.contains_key(chain[k]),
        nodes[chain[k]].next == at(chain, k + 1),
        placed(nodes[chain[k]], i, n),
{
    reveal(bucket);
    reveal(linked);
    reveal(ascending);
}

/// What a bucket says of its chain as a whole.
pub proof fn lemma_bucket_chain(
    nodes: Map<Bdd, Node>,
    head: Bdd,
    chain: Seq<Bdd>,
    i: int,
    n: int,
)
    requires
        bucket(nodes, head, chain, i, n),
    ensures
        linked(nodes, head, chain),
        ascending(nodes, chain),
        chain.no_duplicates(),
{
    reveal(bucket);
    reveal(linked);
    reveal(ascending);
    lemma_ascending_distinct(nodes, chain);
}

/// A bucket with one more node, put at the place of its key.
pub proof fn lemma_bucket_insert(
    before: Map<Bdd, Node>,
    after: Map<Bdd, Node>,
    head: Bdd,
    new_head: Bdd,
    chain: Seq<Bdd>,
    j: int,
    id: Bdd,
    i: int,
    n: int,
)
    requires
        bucket(before, head, chain, i, n),
        0 <= j <= chain.len(),
        linked(after, new_head, chain.insert(j, id)),
        forall|x: Bdd|
            #![trigger after.contains_key(x)]
            after.contains_key(x) ==> after[x] == (Node { next: after[x].next, ..before[x] }),
        placed(before[id], i, n),
        forall|k: int|
            #![trigger chain[k]]
            0 <= k < j ==> key_lt(before[chain[k]].plain_key(), before[id].plain_key()),
        forall|k: int|
            #![trigger chain[k]]
            j <= k < chain.len() ==> key_lt(before[id].plain_key(), before[chain[k]].plain_key()),
    ensures
        bucket(after, new_head, chain.insert(j, id), i, n),
{
    reveal(bucket);
    reveal(linked);
    reveal(ascending);
    let longer = chain.insert(j, id);
    lemma_insert_ascending(before, chain, j, id);
    assert forall|k: int|
        #![trigger longer[k]]
        0 <= k < longer.len() implies after[longer[k]].plain_key() == before[longer[k]].plain_key()
        && placed(after[longer[k]], i, n) by {
        let x = longer[k];
        assert(after.contains_key(x));
        if k < j {
            assert(x == chain[k]);
        } else if k > j {
            assert(x == chain[k - 1]);
        }
    }
    assert forall|p: int, q: int|
        #![trigger longer[p], longer[q]]
        0 <= p < q < longer.len() implies key_lt(
        after[longer[p]].plain_key(),
        after[longer[q]].plain_key(),
    ) by {
        assert(key_lt(before[longer[p]].plain_key(), before[longer[q]].plain_key()));
    }
}

/// A bucket with one node less.
pub proof fn lemma_bucket_remove(
    before: Map<Bdd, Node>,
    after: Map<Bdd, Node>,
    head: Bdd,
    new_head: Bdd,
    chain: Seq<Bdd>,
    k: int,
    i: int,
    n: int,
)
    requires
        bucket(before, head, chain, i, n),
        0 <= k < chain.len(),
        linked(after, new_head, chain.remove(k)),
        forall|x: Bdd|
            #![trigger after.contains_key(x)]
            after.contains_key(x) ==> after[x] == (Node { next: after[x].next, ..before[x] }),
    ensures
        bucket(after, new_head, chain.remove(k), i, n),
{
    reveal(bucket);
    reveal(linked);
    reveal(ascending);
    let shorter = chain.remove(k);
    assert forall|m: int|
        #![trigger shorter[m]]
        0 <= m < shorter.len() implies after[shorter[m]].plain_key()
        == before[shorter[m]].plain_key() && placed(after[shorter[m]], i, n) by {
        assert(after.contains_key(shorter[m]));
        if m < k {
            assert(shorter[m] == chain[m]);
        } else {
            assert(shorter[m] == chain[m + 1]);
        }
    }
    assert forall|p: int, q: int|
        #![trigger shorter[p], shorter[q]]
        0 <= p < q < shorter.len() implies key_lt(
        after[shorter[p]].plain_key(),
        after[shorter[q]].plain_key(),
    ) by {
        let pp = if p < k { p } else { p + 1 };
        let qq = if q < k { q } else { q + 1 };
        assert(shorter[p] == chain[pp] && shorter[q] == chain[qq]);
        assert(key_lt(before[chain[pp]].plain_key(), before[chain[qq]].plain_key()));
    }
}

/// Where the node at the place of `key` has another key, `key` comes before all nodes from there
/// on.
pub proof fn lemma_absent(nodes: Map<Bdd, Node>, chain: Seq<Bdd>, j: int, key: NodeKey)
    requires
        ascending(nodes, chain),
        0 <= j <= chain.len(),
        j < chain.len() ==> !key_lt(nodes[chain[j]].plain_key(), key)
            && nodes[chain[j]].plain_key() != key,
    ensures
        forall|k: int|
            #![trigger chain[k]]
            j <= k < chain.len() ==> key_lt(key, nodes[chain[k]].plain_key()),
{
    reveal(ascending);
    assert forall|k: int|
        #![trigger chain[k]]
        j <= k < chain.len() implies key_lt(key, nodes[chain[k]].plain_key()) by {
        if k > j {
            assert(key_lt(nodes[chain[j]].plain_key(), nodes[chain[k]].plain_key()));
        }
    }
}

/// Finds the place of `key` in a chain: the node before it, the node at it, and how many nodes
/// come before it.
pub fn seek(store: &NodeStore, head: Bdd, key: NodeKey, Ghost(chain): Ghost<Seq<Bdd>>) -> (r: (
    Bdd,
    Bdd,
    Ghost<int>,
))
    requires
        store.wf(),
        linked(store.nodes(), head, chain),
        ascending(store.nodes(), chain),
        forall|k: int|
            #![trigger chain[k]]
            0 <= k < chain.len() ==> !store.nodes()[chain[k]].marked(),
    ensures
        0 <= r.2@ <= chain.len(),
        r.0 == at(chain, r.2@ - 1),
        r.1 == at(chain, r.2@),
        forall|k: int|
            #![trigger chain[k]]
            0 <= k < r.2@ ==> key_lt(store.nodes()[chain[k]].plain_key(), key),
        forall|k: int|
            #![trigger chain[k]]
            r.2@ <= k < chain.len() ==> !key_lt(store.nodes()[chain[k]].plain_key(), key),
{
    proof {
        reveal(linked);
        reveal(ascending);
    }
    let mut prev: Bdd = NULL;
    let mut curr: Bdd = head;
    let ghost mut j: int = 0;
    while curr != NULL
        invariant_except_break
            forall|k: int|
                #![trigger chain[k]]
                0 <= k < j ==> key_lt(store.nodes()[chain[k]].plain_key(), key),
        invariant
            store.wf(),
            linked(store.nodes(), head, chain),
            ascending(store.nodes(), chain),
            forall|k: int|
                #![trigger chain[k]]
                0 <= k < chain.len() ==> !store.nodes()[chain[k]].marked() && chain[k] != NULL,
            0 <= j <= chain.len(),
            prev == at(chain, j - 1),
            curr == at(chain, j),
        ensures
            forall|k: int|
                #![trigger chain[k]]
                0 <= k < j ==> key_lt(store.nodes()[chain[k]].plain_key(), key),
            forall|k: int|
                #![trigger chain[k]]
                j <= k < chain.len() ==> !key_lt(store.nodes()[chain[k]].plain_key(), key),
        decreases chain.len() - j,
    {
        proof {
            reveal(linked);
            reveal(ascending);
        }
        assert(chain[j] == curr);
        let curr_key = store.index(curr).key();
        if !key_less(curr_key, key) {
            assert forall|k: int|
                #![trigger chain[k]]
                j <= k < chain.len() implies !key_lt(
                store.nodes()[chain[k]].plain_key(),
                key,
            ) by {
                if k > j {
                    assert(key_lt(
                        store.nodes()[chain[j]].plain_key(),
                        store.nodes()[chain[k]].plain_key(),
                    ));
                }
            }
            break;
        }
        prev = curr;
        curr = curr.next(store);
        proof {
            j = j + 1;
        }
    }
    (prev, curr, Ghost(j))
}

/// Threads the node `id` into a chain between `prev` and `curr`; returns the chain's head.
pub fn link(
    store: &mut NodeStore,
    head: Bdd,
    prev: Bdd,
    curr: Bdd,
    id: Bdd,
    Ghost(chain): Ghost<Seq<Bdd>>,
    Ghost(j): Ghost<int>,
) -> (r: Bdd)
    requires
        old(store).wf(),
        linked(old(store).nodes(), head, chain),
        0 <= j <= chain.len(),
        prev == at(chain, j - 1),
        curr == at(chain, j),
        id != NULL,
        old(store).nodes().contains_key(id),
        !chain.contains(id),
        chain.no_duplicates(),
    ensures
        final(store).wf(),
        linked(final(store).nodes(), r, chain.insert(j, id)),
        relinked(old(store).nodes(), final(store).nodes(), set![id, prev]),
{
    proof {
        reveal(linked);
    }
    let ghost before = store.nodes();
    let ghost longer = chain.insert(j, id);
    let mut node = *store.index(id);
    node.next = curr;
    *store.index_mut(id) = node;
    let ghost middle = store.nodes();
    let mut new_head: Bdd = head;
    if prev == NULL {
        assert(j == 0) by {
            if j > 0 {
                assert(chain[j - 1] == prev);
            }
        }
        new_head = id;
    } else {
        assert(chain[j - 1] == prev);
        let mut node = *store.index(prev);
        node.next = id;
        *store.index_mut(prev) = node;
    }
    let ghost after = store.nodes();
    proof {
        assert(after.dom() =~= before.dom());
        assert forall|k: int|
            #![trigger longer[k]]
            0 <= k < longer.len() implies {
            &&& longer[k] != NULL
            &&& after.contains_key(longer[k])
            &&& after[longer[k]].next == at(longer, k + 1)
        } by {
            if k < j {
                assert(longer[k] == chain[k]);
                assert(chain.contains(chain[k]));
                if k + 1 < j {
                    assert(longer[k + 1] == chain[k + 1]);
                    assert(chain[k] != chain[j - 1]);
                } else {
                    assert(chain[k] == prev);
                }
            } else if k == j {
                assert(longer[k] == id);
                if j > 0 {
                    assert(chain.contains(chain[j - 1]));
                }
                if j < chain.len() {
                    assert(longer[k + 1] == chain[j]);
                }
            } else {
                assert(longer[k] == chain[k - 1]);
                assert(chain.contains(chain[k - 1]));
                if k + 1 < longer.len() {
                    assert(longer[k + 1] == chain[k]);
                }
                if j > 0 {
                    assert(chain[k - 1] != chain[j - 1]);
                }
            }
        }
    }
    new_head
}

/// A chain in ascending order visits no node twice.
pub proof fn lemma_ascending_distinct(nodes: Map<Bdd, Node>, chain: Seq<Bdd>)
    requires
        ascending(nodes, chain),
    ensures
        chain.no_duplicates(),
{
    reveal(ascending);
    assert forall|j: int, k: int| 0 <= j < chain.len() && 0 <= k < chain.len() && j != k implies
        chain[j] != chain[k] by {
        if j < k {
            assert(key_lt(nodes[chain[j]].plain_key(), nodes[chain[k]].plain_key()));
        } else {
            assert(key_lt(nodes[chain[k]].plain_key(), nodes[chain[j]].plain_key()));
        }
    }
}

/// A chain stays ascending when a node is put at the place of its key.
pub proof fn lemma_insert_ascending(nodes: Map<Bdd, Node>, chain: Seq<Bdd>, j: int, id: Bdd)
    requires
        ascending(nodes, chain),
        0 <= j <= chain.len(),
        forall|k: int|
            #![trigger chain[k]]
            0 <= k < j ==> key_lt(nodes[chain[k]].plain_key(), nodes[id].plain_key()),
        forall|k: int|
            #![trigger chain[k]]
            j <= k < chain.len() ==> key_lt(nodes[id].plain_key(), nodes[chain[k]].plain_key()),
    ensures
        ascending(nodes, chain.insert(j, id)),
{
    reveal(ascending);
    let longer = chain.insert(j, id);
    assert forall|a: int, b: int|
        #![trigger longer[a], longer[b]]
        0 <= a < b < longer.len() implies key_lt(
        nodes[longer[a]].plain_key(),
        nodes[longer[b]].plain_key(),
    ) by {
        let pa = if a < j { a } else { a - 1 };
        let pb = if b < j { b } else { b - 1 };
        if a == j {
            assert(longer[b] == chain[pb]);
        } else if b == j {
            assert(longer[a] == chain[pa]);
        } else {
            assert(longer[a] == chain[pa]);
            assert(longer[b] == chain[pb]);
        }
    }
}

/// Takes the node at place `k` out of a chain and out of the store; returns the chain's head.
pub fn unlink(
    store: &mut NodeStore,
    head: Bdd,
    prev: Bdd,
    curr: Bdd,
    Ghost(chain): Ghost<Seq<Bdd>>,
    Ghost(k): Ghost<int>,
) -> (r: Bdd)
    requires
        old(store).wf(),
        linked(old(store).nodes(), head, chain),
        0 <= k < chain.len(),
        prev == at(chain, k - 1),
        curr == chain[k],
        chain.no_duplicates(),
    ensures
        final(store).wf(),
        linked(final(store).nodes(), r, chain.remove(k)),
        relinked(old(store).nodes().remove(curr), final(store).nodes(), set![prev]),
{
    proof {
        reveal(linked);
    }
    let ghost before = store.nodes();
    let ghost shorter = chain.remove(k);
    let next: Bdd = curr.next(store);
    let mut new_head: Bdd = head;
    if prev == NULL {
        assert(k == 0) by {
            if k > 0 {
                assert(chain[k - 1] == prev);
            }
        }
        new_head = next;
    } else {
        assert(chain[k - 1] == prev);
        let mut node = *store.index(prev);
        node.next = next;
        *store.index_mut(prev) = node;
    }
    store.free(curr);
    let ghost after = store.nodes();
    proof {
        assert(after.dom() =~= before.remove(curr).dom());
        assert forall|m: int|
            #![trigger shorter[m]]
            0 <= m < shorter.len() implies {
            &&& shorter[m] != NULL
            &&& after.contains_key(shorter[m])
            &&& after[shorter[m]].next == at(shorter, m + 1)
        } by {
            if m < k {
                assert(shorter[m] == chain[m]);
                if m + 1 < k {
                    assert(shorter[m + 1] == chain[m + 1]);
                } else if k + 1 < chain.len() {
                    assert(shorter[m + 1] == chain[k + 1]);
                }
            } else {
                assert(shorter[m] == chain[m + 1]);
                if m + 1 < shorter.len() {
                    assert(shorter[m + 1] == chain[m + 2]);
                }
            }
        }
        if k == 0 && chain.len() > 1 {
            assert(shorter[0] == chain[1]);
        }
    }
    new_head
}

} // verus!
