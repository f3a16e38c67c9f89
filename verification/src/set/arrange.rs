//! How the chains of a table are arranged: each in its bucket, and no node in two places.

use vstd::prelude::*;

use super::chain::{
    ascending, at, bucket, chained_alike, lemma_absent, lemma_bucket_at, lemma_bucket_chain,
    lemma_bucket_frame, lemma_bucket_insert, lemma_bucket_remove, link, linked, placed, relinked,
    seek,
};
use super::Vertex;
use crate::node::{key_hash, key_lt, Bdd, Node, NodeKey, NodePtr, NULL};
use crate::store::{Allocator, NodeStore};

verus! {

/// `id` is at place `k` of chain `i`.
pub open spec fn sits(chains: Seq<Seq<Bdd>>, i: int, k: int, id: Bdd) -> bool {
    0 <= i < chains.len() && 0 <= k < chains[i].len() && chains[i][k] == id
}

/// `id` is in one of the chains.
pub open spec fn holds(chains: Seq<Seq<Bdd>>, id: Bdd) -> bool {
    exists|i: int, k: int| sits(chains, i, k, id)
}

/// Each chain fills its bucket.
pub open spec fn arranged(nodes: Map<Bdd, Node>, buckets: Seq<Bdd>, chains: Seq<Seq<Bdd>>) -> bool {
    &&& chains.len() == buckets.len()
    &&& forall|i: int|
        #![trigger chains[i]]
        #![trigger buckets[i]]
        0 <= i < chains.len() ==> bucket(nodes, buckets[i], chains[i], i, chains.len() as int)
}

pub open spec fn table_of(nodes: Map<Bdd, Node>, chains: Seq<Seq<Bdd>>) -> Map<Bdd, Vertex> {
    Map::new(
        |id: Bdd| holds(chains, id),
        |id: Bdd|
            Vertex {
                level: nodes[id].plain_level(),
                low: nodes[id].low,
                high: nodes[id].high,
                refs: nodes[id].ref_cnt,
            },
    )
}

/// No node is in two places.
pub proof fn lemma_sits_once(
    nodes: Map<Bdd, Node>,
    buckets: Seq<Bdd>,
    chains: Seq<Seq<Bdd>>,
    i: int,
    k: int,
    j: int,
    m: int,
    id: Bdd,
)
    requires
        arranged(nodes, buckets, chains),
        sits(chains, i, k, id),
        sits(chains, j, m, id),
    ensures
        i == j,
        k == m,
{
    let n = chains.len() as int;
    lemma_bucket_at(nodes, buckets[i], chains[i], i, n, k);
    lemma_bucket_at(nodes, buckets[j], chains[j], j, n, m);
    lemma_bucket_chain(nodes, buckets[i], chains[i], i, n);
}

/// No two nodes have the same key.
pub proof fn lemma_keys_differ(
    nodes: Map<Bdd, Node>,
    buckets: Seq<Bdd>,
    chains: Seq<Seq<Bdd>>,
    a: Bdd,
    b: Bdd,
)
    requires
        arranged(nodes, buckets, chains),
        holds(chains, a),
        holds(chains, b),
        nodes[a].plain_key() == nodes[b].plain_key(),
    ensures
        a == b,
{
    let (i, k) = choose|i: int, k: int| sits(chains, i, k, a);
    let (j, m) = choose|j: int, m: int| sits(chains, j, m, b);
    let n = chains.len() as int;
    lemma_bucket_at(nodes, buckets[i], chains[i], i, n, k);
    lemma_bucket_at(nodes, buckets[j], chains[j], j, n, m);
    lemma_bucket_chain(nodes, buckets[i], chains[i], i, n);
    assert(i == j);
    reveal(ascending);
    let c = chains[i];
    if k < m {
        assert(key_lt(nodes[c[k]].plain_key(), nodes[c[m]].plain_key()));
    } else if m < k {
        assert(key_lt(nodes[c[m]].plain_key(), nodes[c[k]].plain_key()));
    }
}

/// The arrangement stays while the nodes in it keep their keys, hashes and links.
pub proof fn lemma_arranged_frame(
    before: Map<Bdd, Node>,
    after: Map<Bdd, Node>,
    buckets: Seq<Bdd>,
    chains: Seq<Seq<Bdd>>,
)
    requires
        arranged(before, buckets, chains),
        forall|id: Bdd|
            holds(chains, id) ==> #[trigger] after.contains_key(id) && chained_alike(
                before[id],
                after[id],
            ),
    ensures
        arranged(after, buckets, chains),
{
    assert forall|i: int|
        #![trigger chains[i]]
        0 <= i < chains.len() implies bucket(
        after,
        buckets[i],
        chains[i],
        i,
        chains.len() as int,
    ) by {
        assert forall|k: int|
            #![trigger chains[i][k]]
            0 <= k < chains[i].len() implies after.contains_key(chains[i][k]) && chained_alike(
            before[chains[i][k]],
            after[chains[i][k]],
        ) by {
            assert(sits(chains, i, k, chains[i][k]));
            assert(holds(chains, chains[i][k]));
            assert(after.contains_key(chains[i][k]));
        }
        lemma_bucket_frame(before, after, buckets[i], chains[i], i, chains.len() as int);
    }
}

/// A node in a chain is in the store.
pub proof fn lemma_holds_stored(
    nodes: Map<Bdd, Node>,
    buckets: Seq<Bdd>,
    chains: Seq<Seq<Bdd>>,
    id: Bdd,
)
    requires
        arranged(nodes, buckets, chains),
        holds(chains, id),
    ensures
        nodes.contains_key(id),
        id != NULL,
        nodes[id].hash == key_hash(nodes[id].plain_key()),
{
    let (i, k) = choose|i: int, k: int| sits(chains, i, k, id);
    lemma_bucket_at(nodes, buckets[i], chains[i], i, chains.len() as int, k);
}

/// The nodes of a chain are in the bucket of their hash, in ascending order of their stored keys.
pub open spec fn in_order(nodes: Map<Bdd, Node>, chain: Seq<Bdd>, i: int, n: int) -> bool {
    &&& forall|k: int|
        #![trigger chain[k]]
        0 <= k < chain.len() ==> nodes[chain[k]].hash as int % n == i
    &&& forall|j: int, k: int|
        #![trigger chain[j], chain[k]]
        0 <= j < k < chain.len() ==> key_lt(raw_key(nodes[chain[j]]), raw_key(nodes[chain[k]]))
}

/// The node's key as it is stored, mark and all.
pub open spec fn raw_key(node: Node) -> NodeKey {
    (node.level, node.low, node.high)
}

/// A node put at its place in its bucket keeps the arrangement.
pub proof fn lemma_inserted(
    nodes0: Map<Bdd, Node>,
    nodes: Map<Bdd, Node>,
    buckets0: Seq<Bdd>,
    buckets: Seq<Bdd>,
    chains0: Seq<Seq<Bdd>>,
    b: int,
    j: int,
    id: Bdd,
    prev: Bdd,
)
    requires
        arranged(nodes0, buckets0, chains0),
        0 <= b < chains0.len(),
        0 <= j <= chains0[b].len(),
        nodes0.contains_key(id),
        !holds(chains0, id),
        prev == at(chains0[b], j - 1),
        relinked(nodes0, nodes, set![id, prev]),
        buckets == buckets0.update(b, buckets[b]),
        linked(nodes, buckets[b], chains0[b].insert(j, id)),
        placed(nodes0[id], b, chains0.len() as int),
        forall|k: int|
            #![trigger chains0[b][k]]
            0 <= k < j ==> key_lt(nodes0[chains0[b][k]].plain_key(), nodes0[id].plain_key()),
        forall|k: int|
            #![trigger chains0[b][k]]
            j <= k < chains0[b].len() ==> key_lt(
                nodes0[id].plain_key(),
                nodes0[chains0[b][k]].plain_key(),
            ),
    ensures
        arranged(nodes, buckets, chains0.update(b, chains0[b].insert(j, id))),
        forall|x: Bdd| #[trigger]
            holds(chains0.update(b, chains0[b].insert(j, id)), x) <==> holds(chains0, x) || x == id,
{
    let n = chains0.len() as int;
    let longer = chains0[b].insert(j, id);
    let chains = chains0.update(b, longer);
    let c = chains0[b];
    assert(bucket(nodes0, buckets0[b], c, b, n));
    assert forall|x: Bdd| #[trigger] nodes.contains_key(x) implies nodes[x] == (Node {
        next: nodes[x].next,
        ..nodes0[x]
    }) by {
    }
    lemma_bucket_insert(nodes0, nodes, buckets0[b], buckets[b], c, j, id, b, n);
    assert forall|i: int|
        #![trigger chains[i]]
        0 <= i < chains.len() implies bucket(nodes, buckets[i], chains[i], i, n) by {
        if i != b {
            assert(bucket(nodes0, buckets0[i], chains0[i], i, n));
            assert forall|k: int|
                #![trigger chains0[i][k]]
                0 <= k < chains0[i].len() implies nodes.contains_key(chains0[i][k])
                && chained_alike(nodes0[chains0[i][k]], nodes[chains0[i][k]]) by {
                let x = chains0[i][k];
                assert(sits(chains0, i, k, x));
                lemma_bucket_at(nodes0, buckets0[i], chains0[i], i, n, k);
                if x == prev {
                    assert(sits(chains0, b, j - 1, x));
                    lemma_sits_once(nodes0, buckets0, chains0, i, k, b, j - 1, x);
                }
                assert(nodes0.dom().contains(x));
                assert(nodes.contains_key(x));
            }
            lemma_bucket_frame(nodes0, nodes, buckets0[i], chains0[i], i, n);
        }
    }
    assert forall|x: Bdd| #[trigger] holds(chains, x) <==> holds(chains0, x) || x == id by {
        if holds(chains, x) {
            let (i, k) = choose|i: int, k: int| sits(chains, i, k, x);
            if i == b {
                if k < j {
                    assert(sits(chains0, b, k, x));
                } else if k > j {
                    assert(sits(chains0, b, k - 1, x));
                }
            } else {
                assert(sits(chains0, i, k, x));
            }
        }
        if holds(chains0, x) {
            let (i, k) = choose|i: int, k: int| sits(chains0, i, k, x);
            if i == b && k >= j {
                assert(longer[k + 1] == c[k]);
                assert(sits(chains, b, k + 1, x));
            } else {
                if i == b {
                    assert(longer[k] == c[k]);
                }
                assert(sits(chains, i, k, x));
            }
        }
        if x == id {
            assert(sits(chains, b, j, x));
        }
    }
}

/// A node taken out of its bucket, and out of the store, keeps the arrangement of the others.
pub proof fn lemma_removed(
    nodes0: Map<Bdd, Node>,
    nodes: Map<Bdd, Node>,
    buckets0: Seq<Bdd>,
    buckets: Seq<Bdd>,
    chains0: Seq<Seq<Bdd>>,
    b: int,
    k: int,
    prev: Bdd,
)
    requires
        arranged(nodes0, buckets0, chains0),
        0 <= b < chains0.len(),
        0 <= k < chains0[b].len(),
        prev == at(chains0[b], k - 1),
        relinked(nodes0.remove(chains0[b][k]), nodes, set![prev]),
        buckets == buckets0.update(b, buckets[b]),
        linked(nodes, buckets[b], chains0[b].remove(k)),
    ensures
        arranged(nodes, buckets, chains0.update(b, chains0[b].remove(k))),
        forall|x: Bdd| #[trigger]
            holds(chains0.update(b, chains0[b].remove(k)), x) <==> holds(chains0, x) && x
                != chains0[b][k],
{
    let n = chains0.len() as int;
    let c = chains0[b];
    let id = c[k];
    let shorter = c.remove(k);
    let chains = chains0.update(b, shorter);
    assert(sits(chains0, b, k, id));
    assert(bucket(nodes0, buckets0[b], c, b, n));
    assert forall|x: Bdd| #[trigger] nodes.contains_key(x) implies nodes[x] == (Node {
        next: nodes[x].next,
        ..nodes0[x]
    }) by {
        assert(nodes0.remove(id).dom().contains(x));
    }
    lemma_bucket_remove(nodes0, nodes, buckets0[b], buckets[b], c, k, b, n);
    assert forall|i: int|
        #![trigger chains[i]]
        0 <= i < chains.len() implies bucket(nodes, buckets[i], chains[i], i, n) by {
        if i != b {
            assert(bucket(nodes0, buckets0[i], chains0[i], i, n));
            assert forall|m: int|
                #![trigger chains0[i][m]]
                0 <= m < chains0[i].len() implies nodes.contains_key(chains0[i][m])
                && chained_alike(nodes0[chains0[i][m]], nodes[chains0[i][m]]) by {
                let x = chains0[i][m];
                assert(sits(chains0, i, m, x));
                lemma_bucket_at(nodes0, buckets0[i], chains0[i], i, n, m);
                if x == id {
                    lemma_sits_once(nodes0, buckets0, chains0, i, m, b, k, x);
                }
                if x == prev {
                    assert(sits(chains0, b, k - 1, x));
                    lemma_sits_once(nodes0, buckets0, chains0, i, m, b, k - 1, x);
                }
                assert(nodes0.remove(id).dom().contains(x));
                assert(nodes.dom().contains(x));
                assert(nodes.contains_key(x));
            }
            lemma_bucket_frame(nodes0, nodes, buckets0[i], chains0[i], i, n);
        }
    }
    assert forall|x: Bdd| #[trigger] holds(chains, x) <==> holds(chains0, x) && x != id by {
        if holds(chains, x) {
            let (i, m) = choose|i: int, m: int| sits(chains, i, m, x);
            if i == b {
                let old_m = if m < k { m } else { m + 1 };
                assert(shorter[m] == c[old_m]);
                assert(sits(chains0, b, old_m, x));
                if x == id {
                    lemma_sits_once(nodes0, buckets0, chains0, b, old_m, b, k, x);
                }
            } else {
                assert(sits(chains0, i, m, x));
                if x == id {
                    lemma_sits_once(nodes0, buckets0, chains0, i, m, b, k, x);
                }
            }
        }
        if holds(chains0, x) && x != id {
            let (i, m) = choose|i: int, m: int| sits(chains0, i, m, x);
            if i == b {
                let new_m = if m < k { m } else { m - 1 };
                assert(m != k);
                assert(shorter[new_m] == c[m]);
                assert(sits(chains, b, new_m, x));
            } else {
                assert(sits(chains, i, m, x));
            }
        }
    }
}

/// The nodes are the same but for the links of those in the chains.
pub open spec fn rehung(
    before: Map<Bdd, Node>,
    after: Map<Bdd, Node>,
    chains: Seq<Seq<Bdd>>,
) -> bool {
    &&& after.dom() == before.dom()
    &&& forall|id: Bdd| #[trigger]
        after.contains_key(id) ==> {
            &&& after[id] == (Node { next: after[id].next, ..before[id] })
            &&& !holds(chains, id) ==> after[id] == before[id]
        }
}

/// Puts a node at its place among new chains; returns the chains with the node in them.
pub fn hang(
    store: &mut NodeStore,
    buckets: &mut Vec<Bdd>,
    id: Bdd,
    Ghost(chains): Ghost<Seq<Seq<Bdd>>>,
) -> (r: Ghost<Seq<Seq<Bdd>>>)
    requires
        old(store).wf(),
        arranged(old(store).nodes(), old(buckets)@, chains),
        0 < chains.len() <= 0x4000_0000,
        old(store).nodes().contains_key(id),
        !holds(chains, id),
        old(store).nodes()[id].hash == key_hash(old(store).nodes()[id].plain_key()),
        !old(store).nodes()[id].marked(),
        forall|x: Bdd| #[trigger]
            holds(chains, x) ==> !old(store).nodes()[x].marked()
                && old(store).nodes()[x].plain_key() != old(store).nodes()[id].plain_key(),
    ensures
        final(store).wf(),
        r@.len() == chains.len(),
        arranged(final(store).nodes(), final(buckets)@, r@),
        rehung(old(store).nodes(), final(store).nodes(), r@),
        forall|x: Bdd| #[trigger] holds(r@, x) <==> holds(chains, x) || x == id,
{
    let ghost nodes0 = store.nodes();
    let ghost buckets0 = buckets@;
    let ghost n = chains.len() as int;
    proof {
        store.lemma_bounded();
    }
    let hash: u64 = id.node_hash(store);
    let size: u64 = buckets.len() as u64;
    let idx: usize = (hash % size) as usize;
    let key = store.index(id).key();
    let head: Bdd = buckets[idx];
    let ghost chain = chains[idx as int];
    proof {
        assert(bucket(nodes0, head, chain, idx as int, n));
        lemma_bucket_chain(nodes0, head, chain, idx as int, n);
        assert forall|k: int| #![trigger chain[k]] 0 <= k < chain.len() implies {
            &&& holds(chains, chain[k])
            &&& !nodes0[chain[k]].marked()
            &&& nodes0[chain[k]].plain_key() != key
            &&& chain[k] != id
        } by {
            assert(sits(chains, idx as int, k, chain[k]));
            assert(holds(chains, chain[k]));
            assert(nodes0[id].plain_key() == key);
        }
    }
    let (prev, curr, Ghost(j)) = seek(store, head, key, Ghost(chain));
    proof {
        lemma_absent(nodes0, chain, j, key);
    }
    let new_head: Bdd = link(store, head, prev, curr, id, Ghost(chain), Ghost(j));
    buckets[idx] = new_head;
    let ghost longer = chains.update(idx as int, chain.insert(j, id));
    proof {
        lemma_inserted(
            nodes0,
            store.nodes(),
            buckets0,
            buckets@,
            chains,
            idx as int,
            j,
            id,
            prev,
        );
        assert forall|x: Bdd| #[trigger] store.nodes().contains_key(x) && !holds(
            longer,
            x,
        ) implies store.nodes()[x] == nodes0[x] by {
            assert(nodes0.dom().contains(x));
            if x == prev {
                assert(sits(chains, idx as int, j - 1, x));
            }
        }
    }
    Ghost(longer)
}

/// `id` is in a chain before chain `i`, or in chain `i` before place `k`.
pub open spec fn passed(chains: Seq<Seq<Bdd>>, i: int, k: int, id: Bdd) -> bool {
    exists|a: int, m: int| #[trigger] sits(chains, a, m, id) && (a < i || a == i && m < k)
}

/// One more place is passed.
pub proof fn lemma_passed(
    nodes: Map<Bdd, Node>,
    buckets: Seq<Bdd>,
    chains: Seq<Seq<Bdd>>,
    i: int,
    k: int,
)
    requires
        arranged(nodes, buckets, chains),
        0 <= i < chains.len(),
        0 <= k < chains[i].len(),
    ensures
        !passed(chains, i, k, chains[i][k]),
        holds(chains, chains[i][k]),
        forall|x: Bdd| #[trigger]
            passed(chains, i, k + 1, x) <==> passed(chains, i, k, x) || x == chains[i][k],
{
    let id = chains[i][k];
    assert(sits(chains, i, k, id));
    if passed(chains, i, k, id) {
        let (a, m) = choose|a: int, m: int| #[trigger]
            sits(chains, a, m, id) && (a < i || a == i && m < k);
        lemma_sits_once(nodes, buckets, chains, i, k, a, m, id);
    }
    assert forall|x: Bdd| #[trigger] passed(chains, i, k + 1, x) <==> passed(chains, i, k, x) || x
        == id by {
        if passed(chains, i, k + 1, x) {
            let (a, m) = choose|a: int, m: int| #[trigger]
                sits(chains, a, m, x) && (a < i || a == i && m < k + 1);
            if !(a == i && m == k) {
                assert(passed(chains, i, k, x));
            }
        }
        if passed(chains, i, k, x) {
            let (a, m) = choose|a: int, m: int| #[trigger]
                sits(chains, a, m, x) && (a < i || a == i && m < k);
            assert(sits(chains, a, m, x) && (a < i || a == i && m < k + 1));
        }
        if x == id {
            assert(sits(chains, i, k, x) && (i < i || i == i && k < k + 1));
        }
    }
}

/// All places of a chain passed is no place of the next one passed; all chains passed is
/// everything passed.
pub proof fn lemma_passed_row(chains: Seq<Seq<Bdd>>, i: int)
    requires
        0 <= i < chains.len(),
    ensures
        forall|x: Bdd| #[trigger]
            passed(chains, i + 1, 0, x) <==> passed(chains, i, chains[i].len() as int, x),
{
    assert forall|x: Bdd| #[trigger]
        passed(chains, i + 1, 0, x) <==> passed(chains, i, chains[i].len() as int, x) by {
        if passed(chains, i + 1, 0, x) {
            let (a, m) = choose|a: int, m: int| #[trigger]
                sits(chains, a, m, x) && (a < i + 1 || a == i + 1 && m < 0);
            assert(sits(chains, a, m, x) && (a < i || a == i && m < chains[i].len() as int));
        }
        if passed(chains, i, chains[i].len() as int, x) {
            let (a, m) = choose|a: int, m: int| #[trigger]
                sits(chains, a, m, x) && (a < i || a == i && m < chains[i].len() as int);
            assert(sits(chains, a, m, x) && (a < i + 1 || a == i + 1 && m < 0));
        }
    }
}

/// An ascending start of a chain can be extended by a node with a greater key.
pub proof fn lemma_in_order_next(nodes: Map<Bdd, Node>, chain: Seq<Bdd>, k: int, i: int, n: int)
    requires
        0 <= k < chain.len(),
        in_order(nodes, chain.take(k), i, n),
        nodes[chain[k]].hash as int % n == i,
        k > 0 ==> key_lt(raw_key(nodes[chain[k - 1]]), raw_key(nodes[chain[k]])),
    ensures
        in_order(nodes, chain.take(k + 1), i, n),
{
    let c = chain.take(k + 1);
    let b = chain.take(k);
    assert forall|m: int| #![trigger c[m]] 0 <= m < c.len() implies nodes[c[m]].hash as int % n
        == i by {
        if m < k {
            assert(c[m] == b[m]);
        }
    }
    assert forall|p: int, q: int|
        #![trigger c[p], c[q]]
        0 <= p < q < c.len() implies key_lt(raw_key(nodes[c[p]]), raw_key(nodes[c[q]])) by {
        assert(c[p] == b[p]);
        if q < k {
            assert(c[q] == b[q]);
        } else if p < k - 1 {
            assert(b[k - 1] == chain[k - 1]);
            assert(key_lt(raw_key(nodes[b[p]]), raw_key(nodes[b[k - 1]])));
        }
    }
}

} // verus!
