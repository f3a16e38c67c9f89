//! Reachability between nodes.

use vstd::prelude::*;

use crate::node::Bdd;

verus! {

/// The low and the high child of each node of a graph. A child that is no node of the graph is
/// no edge.
pub type Edges = Map<Bdd, (Bdd, Bdd)>;

/// There is a path of `n` edges from `from` to `to`.
pub open spec fn reaches_in(g: Edges, from: Bdd, to: Bdd, n: nat) -> bool
    decreases n,
{
    g.contains_key(from) && if n == 0 {
        from == to
    } else {
        ||| reaches_in(g, g[from].0, to, (n - 1) as nat)
        ||| reaches_in(g, g[from].1, to, (n - 1) as nat)
    }
}

/// There is a path from `from` to `to`.
pub open spec fn reaches(g: Edges, from: Bdd, to: Bdd) -> bool {
    exists|n: nat| reaches_in(g, from, to, n)
}

/// What can be reached from the nodes in `roots`.
pub open spec fn reachable_from(g: Edges, roots: Set<Bdd>) -> Set<Bdd> {
    Set::new(|id: Bdd| exists|r: Bdd| roots.contains(r) && reaches(g, r, id))
}

/// `s` holds the children of each of its nodes.
pub open spec fn closed_in(g: Edges, s: Set<Bdd>) -> bool {
    forall|id: Bdd| #[trigger]
        s.contains(id) && g.contains_key(id) ==> {
            &&& g.contains_key(g[id].0) ==> s.contains(g[id].0)
            &&& g.contains_key(g[id].1) ==> s.contains(g[id].1)
        }
}

/// Each node of `g` is a node of `h`, with the same children.
pub open spec fn subgraph(g: Edges, h: Edges) -> bool {
    forall|id: Bdd| #[trigger] g.contains_key(id) ==> h.contains_key(id) && h[id] == g[id]
}

pub proof fn lemma_reaches_self(g: Edges, id: Bdd)
    requires
        g.contains_key(id),
    ensures
        reaches(g, id, id),
{
    assert(reaches_in(g, id, id, 0));
}

pub proof fn lemma_reaches_step(g: Edges, from: Bdd, to: Bdd)
    requires
        g.contains_key(from),
        reaches(g, g[from].0, to) || reaches(g, g[from].1, to),
    ensures
        reaches(g, from, to),
{
    if reaches(g, g[from].0, to) {
        let n = choose|n: nat| reaches_in(g, g[from].0, to, n);
        assert(reaches_in(g, from, to, n + 1));
    } else {
        let n = choose|n: nat| reaches_in(g, g[from].1, to, n);
        assert(reaches_in(g, from, to, n + 1));
    }
}

proof fn lemma_closed_in_steps(g: Edges, s: Set<Bdd>, from: Bdd, to: Bdd, n: nat)
    requires
        closed_in(g, s),
        s.contains(from),
        reaches_in(g, from, to, n),
    ensures
        s.contains(to),
        g.contains_key(to),
    decreases n,
{
    reveal_with_fuel(reaches_in, 2);
    if n > 0 {
        if reaches_in(g, g[from].0, to, (n - 1) as nat) {
            lemma_closed_in_steps(g, s, g[from].0, to, (n - 1) as nat);
        } else {
            lemma_closed_in_steps(g, s, g[from].1, to, (n - 1) as nat);
        }
    }
}

/// A path does not leave a set that holds the children of its nodes.
pub proof fn lemma_closed(g: Edges, s: Set<Bdd>, from: Bdd, to: Bdd)
    requires
        closed_in(g, s),
        s.contains(from),
        reaches(g, from, to),
    ensures
        s.contains(to),
        g.contains_key(to),
{
    let n = choose|n: nat| reaches_in(g, from, to, n);
    lemma_closed_in_steps(g, s, from, to, n);
}

proof fn lemma_trans_in(g: Edges, a: Bdd, b: Bdd, c: Bdd, n: nat)
    requires
        reaches_in(g, a, b, n),
        reaches(g, b, c),
    ensures
        reaches(g, a, c),
    decreases n,
{
    if n > 0 {
        if reaches_in(g, g[a].0, b, (n - 1) as nat) {
            lemma_trans_in(g, g[a].0, b, c, (n - 1) as nat);
        } else {
            lemma_trans_in(g, g[a].1, b, c, (n - 1) as nat);
        }
        lemma_reaches_step(g, a, c);
    }
}

/// Paths can be joined.
pub proof fn lemma_trans(g: Edges, a: Bdd, b: Bdd, c: Bdd)
    requires
        reaches(g, a, b),
        reaches(g, b, c),
    ensures
        reaches(g, a, c),
{
    let n = choose|n: nat| reaches_in(g, a, b, n);
    lemma_trans_in(g, a, b, c, n);
}

proof fn lemma_subgraph_in(g: Edges, h: Edges, from: Bdd, to: Bdd, n: nat)
    requires
        subgraph(g, h),
        reaches_in(g, from, to, n),
    ensures
        reaches_in(h, from, to, n),
    decreases n,
{
    if n > 0 {
        if reaches_in(g, g[from].0, to, (n - 1) as nat) {
            lemma_subgraph_in(g, h, g[from].0, to, (n - 1) as nat);
        } else {
            lemma_subgraph_in(g, h, g[from].1, to, (n - 1) as nat);
        }
    }
}

/// A path of a graph is a path of every graph that contains it.
pub proof fn lemma_subgraph(g: Edges, h: Edges, from: Bdd, to: Bdd)
    requires
        subgraph(g, h),
        reaches(g, from, to),
    ensures
        reaches(h, from, to),
{
    let n = choose|n: nat| reaches_in(g, from, to, n);
    lemma_subgraph_in(g, h, from, to, n);
}

} // verus!
