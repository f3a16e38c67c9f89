//! What operations, collections and references keep, node by node.

use vstd::arithmetic::power2::pow2;
use vstd::prelude::*;

use crate::diagram::Diagram;
use crate::graph::{lemma_closed, lemma_reaches_self, lemma_reaches_step, lemma_trans, reaches};
use crate::node::Bdd;
use crate::set::referenced;
use crate::sizing::MAX_SIZE_EXP;

verus! {

/// `s` holds the children, as far as they are nodes, of each of its nodes.
pub open spec fn holds_children(d: Diagram, s: Set<Bdd>) -> bool {
    forall|id: Bdd| #[trigger]
        s.contains(id) && d.nodes.contains_key(id) ==> {
            &&& d.nodes.contains_key(d.nodes[id].low) ==> s.contains(d.nodes[id].low)
            &&& d.nodes.contains_key(d.nodes[id].high) ==> s.contains(d.nodes[id].high)
        }
}

/// `s` holds every node that has references.
pub open spec fn holds_referenced(d: Diagram, s: Set<Bdd>) -> bool {
    forall|id: Bdd| #[trigger]
        d.nodes.contains_key(id) && d.nodes[id].refs != 0 ==> s.contains(id)
}

/// The live nodes are the least set that holds every node with references, and the children of
/// each of its nodes.
pub proof fn law_live(d: Diagram, s: Set<Bdd>)
    ensures
        holds_referenced(d, d.live()),
        holds_children(d, d.live()),
        forall|id: Bdd| #[trigger] d.live().contains(id) ==> d.nodes.contains_key(id),
        holds_referenced(d, s) && holds_children(d, s) ==> d.live().subset_of(s),
{
    let g = d.edges();
    assert forall|id: Bdd| #[trigger] d.nodes.contains_key(id) && d.nodes[id].refs
        != 0 implies d.live().contains(id) by {
        lemma_reaches_self(g, id);
        assert(referenced(d.nodes).contains(id) && reaches(g, id, id));
    }
    let all = d.nodes.dom();
    assert forall|id: Bdd| #[trigger] d.live().contains(id) implies d.nodes.contains_key(id) by {
        let r = choose|r: Bdd| referenced(d.nodes).contains(r) && reaches(g, r, id);
        assert(all.contains(r));
        lemma_closed(g, all, r, id);
    }
    assert forall|id: Bdd| #[trigger] d.live().contains(id) && d.nodes.contains_key(id) implies {
        &&& d.nodes.contains_key(d.nodes[id].low) ==> d.live().contains(d.nodes[id].low)
        &&& d.nodes.contains_key(d.nodes[id].high) ==> d.live().contains(d.nodes[id].high)
    } by {
        let r = choose|r: Bdd| referenced(d.nodes).contains(r) && reaches(g, r, id);
        let (low, high) = (d.nodes[id].low, d.nodes[id].high);
        if d.nodes.contains_key(low) {
            lemma_reaches_self(g, low);
            lemma_reaches_step(g, id, low);
            lemma_trans(g, r, id, low);
        }
        if d.nodes.contains_key(high) {
            lemma_reaches_self(g, high);
            lemma_reaches_step(g, id, high);
            lemma_trans(g, r, id, high);
        }
    }
    if holds_referenced(d, s) && holds_children(d, s) {
        assert forall|id: Bdd| d.live().contains(id) implies s.contains(id) by {
            let r = choose|r: Bdd| referenced(d.nodes).contains(r) && reaches(g, r, id);
            assert(d.nodes.contains_key(r));
            lemma_closed(g, s, r, id);
        }
    }
}

/// A collection leaves the live nodes, each with its level, its children and its references, and
/// no others. The built-in handles and the sizes stay as they are.
pub proof fn law_collection(d: Diagram)
    requires
        d.wf(),
    ensures
        forall|id: Bdd| #[trigger]
            d.collected().nodes.contains_key(id) <==> d.live().contains(id),
        forall|id: Bdd| #[trigger]
            d.collected().nodes.contains_key(id) ==> d.collected().nodes[id] == d.nodes[id],
        d.collected().true_id == d.true_id,
        d.collected().false_id == d.false_id,
        d.collected().vars == d.vars,
        d.collected().nvars == d.nvars,
        d.collected().table_exp == d.table_exp,
        d.collected().cache_exp == d.cache_exp,
{
    law_live(d, d.live());
    assert forall|id: Bdd| #[trigger] d.collected().nodes.contains_key(id) <==> d.live().contains(
        id,
    ) by {
        if d.live().contains(id) {
            assert(d.nodes.contains_key(id));
        }
    }
}

/// After `j` releases of `id`, each followed by a collection, and one collection before them.
pub open spec fn after_releases(d: Diagram, id: Bdd, j: nat) -> Diagram
    decreases j,
{
    if j == 0 {
        d.collected()
    } else {
        after_releases(d, id, (j - 1) as nat).dereferenced(id).collected()
    }
}

/// A node that is referenced `k` times needs `k` releases before a collection may free it, however
/// many collections there are between them: after `j` of them it has `k - j` references.
pub proof fn law_releases(d: Diagram, id: Bdd, j: nat)
    requires
        d.nodes.contains_key(id),
        j < d.nodes[id].refs,
    ensures
        after_releases(d, id, j).nodes.contains_key(id),
        after_releases(d, id, j).nodes[id].refs == d.nodes[id].refs - j,
    decreases j,
{
    if j == 0 {
        law_live(d, d.live());
        assert(d.live().contains(id));
    } else {
        law_releases(d, id, (j - 1) as nat);
        let e = after_releases(d, id, (j - 1) as nat).dereferenced(id);
        assert(e.nodes.contains_key(id) && e.nodes[id].refs != 0);
        law_live(e, e.live());
        assert(e.live().contains(id));
    }
}

/// One more reference to a node changes the count of that node by one, and nothing else; and so
/// does one less. The count wraps around.
pub proof fn law_reference(d: Diagram, id: Bdd, x: Bdd)
    requires
        d.nodes.contains_key(id),
    ensures
        ({
            let e = d.referenced(id);
            let n = d.nodes[id].refs;
            &&& e.nodes.contains_key(x) <==> d.nodes.contains_key(x)
            &&& x != id && d.nodes.contains_key(x) ==> e.nodes[x] == d.nodes[x]
            &&& e.nodes[id].level == d.nodes[id].level
            &&& e.nodes[id].low == d.nodes[id].low
            &&& e.nodes[id].high == d.nodes[id].high
            &&& e.nodes[id].refs == if n == usize::MAX {
                0
            } else {
                n + 1
            }
            &&& d == (Diagram { nodes: d.nodes, ..e })
        }),
        ({
            let e = d.dereferenced(id);
            let n = d.nodes[id].refs;
            &&& e.nodes.contains_key(x) <==> d.nodes.contains_key(x)
            &&& x != id && d.nodes.contains_key(x) ==> e.nodes[x] == d.nodes[x]
            &&& e.nodes[id].level == d.nodes[id].level
            &&& e.nodes[id].low == d.nodes[id].low
            &&& e.nodes[id].high == d.nodes[id].high
            &&& e.nodes[id].refs == if n == 0 {
                usize::MAX as int
            } else {
                n - 1
            }
            &&& d == (Diagram { nodes: d.nodes, ..e })
        }),
{
}

/// The number of nodes that a collection frees.
pub open spec fn dead_count(d: Diagram) -> int {
    d.nodes.dom().len() - d.live().len()
}

/// A terminal or a literal.
pub open spec fn is_builtin(d: Diagram, id: Bdd) -> bool {
    id == d.true_id || id == d.false_id || d.vars.contains(id) || d.nvars.contains(id)
}

/// A diagram is grounded just if its terminals and its literals are live: they are then in every
/// set that holds every node with references, and the children of each of its nodes. It is enough
/// that each of them has a reference.
pub proof fn law_grounded(d: Diagram, s: Set<Bdd>)
    ensures
        d.grounded() <==> forall|id: Bdd| #[trigger] is_builtin(d, id) ==> d.live().contains(id),
        d.grounded() && holds_referenced(d, s) && holds_children(d, s) ==> forall|id: Bdd|
            #[trigger] is_builtin(d, id) ==> s.contains(id),
        (forall|id: Bdd| #[trigger]
            is_builtin(d, id) ==> d.nodes.contains_key(id) && d.nodes[id].refs != 0)
            ==> d.grounded(),
{
    law_live(d, s);
    if forall|id: Bdd| #[trigger] is_builtin(d, id) ==> d.live().contains(id) {
        lemma_grounded(d);
    }
    if forall|id: Bdd| #[trigger]
        is_builtin(d, id) ==> d.nodes.contains_key(id) && d.nodes[id].refs != 0 {
        assert forall|id: Bdd| #[trigger] is_builtin(d, id) implies d.live().contains(id) by {
            assert(d.nodes.contains_key(id) && d.nodes[id].refs != 0);
        }
        lemma_grounded(d);
    }
}

proof fn lemma_grounded(d: Diagram)
    requires
        forall|id: Bdd| #[trigger] is_builtin(d, id) ==> d.live().contains(id),
    ensures
        d.grounded(),
{
    assert(is_builtin(d, d.true_id));
    assert(is_builtin(d, d.false_id));
    assert forall|i: int| #![trigger d.vars[i]] 0 <= i < d.vars.len() implies d.live().contains(
        d.vars[i],
    ) by {
        assert(is_builtin(d, d.vars[i]));
    }
    assert forall|i: int| #![trigger d.nvars[i]] 0 <= i < d.nvars.len() implies d.live().contains(
        d.nvars[i],
    ) by {
        assert(is_builtin(d, d.nvars[i]));
    }
}

/// What an operation starts from. With fewer nodes than buckets it is the diagram as it is. Else,
/// where a quarter as many nodes are dead as there are buckets, it has the live nodes; and else it
/// has all nodes, and tables twice as large. In each case the nodes that it has are as they were,
/// with their references.
pub proof fn law_start(d: Diagram)
    requires
        d.wf(),
    ensures
        forall|id: Bdd| #[trigger]
            d.entered().nodes.contains_key(id) ==> d.nodes.contains_key(id)
                && d.entered().nodes[id] == d.nodes[id],
        forall|id: Bdd| #[trigger]
            d.live().contains(id) ==> d.entered().nodes.contains_key(id),
        d.nodes.dom().len() < pow2(d.table_exp) ==> d.entered() == d && d.ready(),
        d.nodes.dom().len() >= pow2(d.table_exp) && dead_count(d) >= pow2(d.table_exp) / 4 ==> {
            &&& forall|id: Bdd| #[trigger]
                d.entered().nodes.contains_key(id) ==> d.live().contains(id)
            &&& d.entered().table_exp == d.table_exp
            &&& d.entered().cache_exp == d.cache_exp
            &&& d.ready() <==> d.grounded()
        },
        d.nodes.dom().len() >= pow2(d.table_exp) && dead_count(d) < pow2(d.table_exp) / 4 ==> {
            &&& forall|id: Bdd| #[trigger]
                d.nodes.contains_key(id) ==> d.entered().nodes.contains_key(id)
            &&& d.entered().table_exp == d.table_exp + 1
            &&& d.entered().cache_exp == d.cache_exp + 1
            &&& d.ready() <==> d.table_exp < MAX_SIZE_EXP && d.cache_exp < MAX_SIZE_EXP
        },
        d.entered().true_id == d.true_id,
        d.entered().false_id == d.false_id,
        d.entered().vars == d.vars,
        d.entered().nvars == d.nvars,
        forall|id: Bdd| #[trigger] d.operand(id) <==> d.entered().nodes.contains_key(id),
{
    law_live(d, d.live());
    law_collection(d);
}

/// What an operation leaves. A live node other than the result is as it was, with its references;
/// and so is every node, if none were collected. The result has one reference more than it had, and
/// one if it is new. Other new nodes have none, and can be reached from the result: they are in
/// every set `s` that holds the result and the children of its nodes.
pub proof fn law_operation(before: Diagram, after: Diagram, ret: Bdd, s: Set<Bdd>)
    requires
        before.wf(),
        before.ready(),
        after.concludes(before, ret),
    ensures
        after.nodes.contains_key(ret),
        forall|id: Bdd|
            id != ret && #[trigger] before.live().contains(id) ==> after.nodes.contains_key(id)
                && after.nodes[id] == before.nodes[id],
        before.nodes.dom().len() < pow2(before.table_exp) || dead_count(before) < pow2(
            before.table_exp,
        ) / 4 ==> forall|id: Bdd|
            id != ret && #[trigger] before.nodes.contains_key(id) ==> after.nodes.contains_key(id)
                && after.nodes[id] == before.nodes[id],
        before.live().contains(ret) ==> {
            let (x, y) = (before.nodes[ret], after.nodes[ret]);
            &&& (y.level, y.low, y.high) == (x.level, x.low, x.high)
            &&& y.refs == if x.refs == usize::MAX {
                0
            } else {
                x.refs + 1
            }
        },
        !before.nodes.contains_key(ret) ==> after.nodes[ret].refs == 1,
        forall|id: Bdd|
            id != ret && #[trigger] after.nodes.contains_key(id) && !before.nodes.contains_key(
                id,
            ) ==> after.nodes[id].refs == 0,
        s.contains(ret) && holds_children(after, s) ==> forall|id: Bdd| #[trigger]
            after.nodes.contains_key(id) && !before.nodes.contains_key(id) ==> s.contains(id),
        after.table_exp == before.entered().table_exp,
        after.cache_exp == before.entered().cache_exp,
        after.true_id == before.true_id,
        after.false_id == before.false_id,
        after.vars == before.vars,
        after.nvars == before.nvars,
{
    law_start(before);
    let e = before.entered();
    let g = choose|g: Diagram|
        #![trigger g.grown(before.entered(), ret)]
        g.grown(before.entered(), ret) && after == g.referenced(ret);
    assert(g.has_node(ret));
    assert forall|id: Bdd| #[trigger] e.nodes.contains_key(id) implies g.nodes.contains_key(id)
        && g.nodes[id] == before.nodes[id] by {
        assert(e.has_node(id));
        assert(g.nodes[id].key() == e.nodes[id].key());
    }
    assert forall|id: Bdd| #[trigger] after.nodes.contains_key(id) && !before.nodes.contains_key(
        id,
    ) implies g.has_node(id) && g.nodes[id].refs == 0 && g.reaches(ret, id) by {
        assert(!e.nodes.contains_key(id));
        assert(g.has_node(id) && !e.has_node(id));
    }
    if s.contains(ret) && holds_children(after, s) {
        let edges = g.edges();
        assert forall|id: Bdd| #[trigger] s.contains(id) && edges.contains_key(id) implies {
            &&& edges.contains_key(edges[id].0) ==> s.contains(edges[id].0)
            &&& edges.contains_key(edges[id].1) ==> s.contains(edges[id].1)
        } by {
            assert(after.nodes.contains_key(id));
        }
        assert forall|id: Bdd| #[trigger] after.nodes.contains_key(id)
            && !before.nodes.contains_key(id) implies s.contains(id) by {
            assert(g.reaches(ret, id));
            lemma_closed(edges, s, ret, id);
        }
    }
}

} // verus!
