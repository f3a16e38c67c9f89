# tobdd

Shared, reduced, ordered binary decision diagrams, written and proved in Verus.

A `Manager` holds the nodes of a diagram in a hash table that has at most one node of each key.
It computes negation, conjunction, disjunction and difference with direct-mapped operation caches,
counts references, collects what no referenced node reaches, and grows its tables. Diagrams can be
printed as unions of cubes, and serialized and read back, also by another manager.

## Layout

| Path | What it holds |
|------|---------------|
| `src/diagram.rs`, `src/tree.rs` | The model: a diagram, the function and the tree of a node, canonicity |
| `src/laws.rs`, `src/results.rs` | What holds of the operations together |
| `src/lib.rs` | The traits of a manager, with their contracts |
| `src/tobdd.rs`, `src/tobdd/` | The manager |
| `src/set.rs`, `src/set/` | The node table: buckets of sorted chains |
| `src/store.rs`, `src/node.rs`, `src/hash.rs` | Nodes, where they live, and how they are hashed |
| `src/cache.rs`, `src/memo.rs` | The operation caches and what they may remember |
| `src/codec.rs`, `src/readable.rs`, `src/idmap.rs` | The byte format of a diagram |
| `src/cubes.rs` | The printed form of a diagram |
| `src/spin/` | Reader-writer locks, step by step, and mutual exclusion |
| `src/clock.rs`, `src/op_stat.rs`, `src/text.rs` | Statistics |
| `app/` | Readers, writers, ratios and locks on atomic words around the library |
| `tests/` | Tests |

A handle of a node is its place in the store. A handle stays good as long as its node is reached
from a referenced one; `Manager::admits` tells whether handles can be operands now.

Two outside crates are used: `ahash` for the handles of a stream, and `cpu-time` for the time that
collections and growths take.
