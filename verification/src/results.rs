//! What holds of the results of the recursive operations, as nodes.

use vstd::prelude::*;

use crate::diagram::{Assignment, Diagram};
use crate::memo::{computes, lemma_computes_extends, lemma_negates_extends, made, negates};
use crate::node::{Bdd, NULL};
use crate::BddOpType;

verus! {

/// What an operation on its way to a result keeps: the built-in handles, the nodes with their
/// levels, children and references.
pub open spec fn keeps(after: Diagram, before: Diagram) -> bool {
    &&& after.extends(before)
    &&& forall|id: Bdd| #[trigger]
        before.has_node(id) ==> after.nodes[id].refs == before.nodes[id].refs
}

proof fn lemma_keeps_trans(after: Diagram, mid: Diagram, before: Diagram)
    requires
        keeps(after, mid),
        keeps(mid, before),
    ensures
        keeps(after, before),
{
    assert forall|id: Bdd| #[trigger] before.has_node(id) implies after.has_node(id)
        && after.nodes[id].key() == before.nodes[id].key() && after.nodes[id].refs
        == before.nodes[id].refs by {
        assert(mid.has_node(id));
    }
}

/// The values of a negation.
proof fn lemma_negates(d: Diagram, a: Bdd, r: Bdd, env: Assignment)
    requires
        negates(d, a, r),
    ensures
        d.has_node(a),
        d.has_node(r),
        d.eval(r, env) == !d.eval(a, env),
{
    reveal(negates);
}

/// The values of a binary operation.
proof fn lemma_computes(d: Diagram, op: BddOpType, a: Bdd, b: Bdd, r: Bdd, env: Assignment)
    requires
        computes(d, op, a, b, r),
    ensures
        d.has_node(a),
        d.has_node(b),
        d.has_node(r),
        op == BddOpType::And ==> d.eval(r, env) == (d.eval(a, env) && d.eval(b, env)),
        op == BddOpType::Or ==> d.eval(r, env) == (d.eval(a, env) || d.eval(b, env)),
        op == BddOpType::Comp ==> d.eval(r, env) == (d.eval(a, env) && !d.eval(b, env)),
{
    reveal(computes);
}

/// The result of a conjunction does not depend on the order of the operands. It is the first one
/// just if that implies the second, and the false terminal just if they exclude each other. No
/// reference changes.
pub proof fn law_conjunction(
    d0: Diagram,
    d1: Diagram,
    d2: Diagram,
    f: Bdd,
    g: Bdd,
    r: Bdd,
    s: Bdd,
)
    requires
        d0.wf(),
        d0.has_node(f),
        d0.has_node(g),
        d1.grown(d0, r),
        computes(d1, BddOpType::And, f, g, r),
        d2.grown(d1, s),
        computes(d2, BddOpType::And, g, f, s),
    ensures
        s == r,
        r == f <==> forall|env: Assignment| #[trigger] d0.eval(f, env) ==> d0.eval(g, env),
        r == d0.false_id <==> forall|env: Assignment|
            !(#[trigger] d0.eval(f, env) && d0.eval(g, env)),
        keeps(d2, d0),
{
    lemma_keeps_trans(d2, d1, d0);
    lemma_computes_extends(d2, d1, BddOpType::And, f, g, r);
    assert forall|env: Assignment| #[trigger] d2.eval(r, env) == d2.eval(s, env) by {
        lemma_computes(d2, BddOpType::And, f, g, r, env);
        lemma_computes(d2, BddOpType::And, g, f, s, env);
    }
    d2.law_canonical(r, s);
    assert forall|env: Assignment|
        #![trigger d2.eval(r, env)]
        d2.eval(r, env) == (d0.eval(f, env) && d0.eval(g, env)) && d2.eval(f, env) == d0.eval(
            f,
            env,
        ) by {
        lemma_computes(d2, BddOpType::And, f, g, r, env);
        d2.law_extends(d0, f, env);
        d2.law_extends(d0, g, env);
    }
    d2.law_canonical(r, f);
    assert(d2.is_vertex(d2.false_id, 0, NULL, NULL));
    d2.law_canonical(r, d2.false_id);
    if r == f {
        assert forall|env: Assignment| #[trigger] d0.eval(f, env) implies d0.eval(g, env) by {
            assert(d2.eval(r, env) == (d0.eval(f, env) && d0.eval(g, env)));
        }
    }
    if forall|env: Assignment| #[trigger] d0.eval(f, env) ==> d0.eval(g, env) {
        assert(d2.same_function(r, f)) by {
            assert forall|env: Assignment| #[trigger] d2.eval(r, env) == d2.eval(f, env) by {
                assert(d0.eval(f, env) ==> d0.eval(g, env));
            }
        }
    }
    if r == d0.false_id {
        assert forall|env: Assignment| !(#[trigger] d0.eval(f, env) && d0.eval(g, env)) by {
            assert(!d2.eval(r, env));
        }
    }
    if forall|env: Assignment| !(#[trigger] d0.eval(f, env) && d0.eval(g, env)) {
        assert(d2.same_function(r, d2.false_id)) by {
            assert forall|env: Assignment| #[trigger] d2.eval(r, env) == d2.eval(
                d2.false_id,
                env,
            ) by {
                assert(!(d0.eval(f, env) && d0.eval(g, env)));
            }
        }
    }
}

/// The result of a disjunction is the negation of the conjunction of the negations, and does not
/// depend on the order of the operands. It is the true terminal just if there is no assignment at
/// which neither operand holds. No reference changes.
pub proof fn law_disjunction(
    d0: Diagram,
    d1: Diagram,
    d2: Diagram,
    d3: Diagram,
    d4: Diagram,
    d5: Diagram,
    d6: Diagram,
    f: Bdd,
    g: Bdd,
    not_f: Bdd,
    not_g: Bdd,
    neither: Bdd,
    either: Bdd,
    r: Bdd,
    s: Bdd,
)
    requires
        d0.wf(),
        d0.has_node(f),
        d0.has_node(g),
        d1.grown(d0, not_f),
        negates(d1, f, not_f),
        d2.grown(d1, not_g),
        negates(d2, g, not_g),
        d3.grown(d2, neither),
        computes(d3, BddOpType::And, not_f, not_g, neither),
        d4.grown(d3, either),
        negates(d4, neither, either),
        d5.grown(d4, r),
        computes(d5, BddOpType::Or, f, g, r),
        d6.grown(d5, s),
        computes(d6, BddOpType::Or, g, f, s),
    ensures
        r == either,
        s == r,
        r == d0.true_id <==> forall|env: Assignment| #[trigger]
            d0.eval(f, env) || d0.eval(g, env),
        keeps(d6, d0),
{
    lemma_keeps_trans(d6, d5, d4);
    lemma_keeps_trans(d6, d4, d3);
    lemma_keeps_trans(d6, d3, d2);
    lemma_keeps_trans(d6, d2, d1);
    lemma_keeps_trans(d6, d1, d0);
    lemma_negates_extends(d6, d1, f, not_f);
    lemma_negates_extends(d6, d2, g, not_g);
    lemma_computes_extends(d6, d3, BddOpType::And, not_f, not_g, neither);
    lemma_negates_extends(d6, d4, neither, either);
    lemma_computes_extends(d6, d5, BddOpType::Or, f, g, r);
    assert forall|env: Assignment|
        #![trigger d6.eval(r, env)]
        d6.eval(r, env) == d6.eval(either, env) && d6.eval(r, env) == d6.eval(s, env)
            && d6.eval(r, env) == (d0.eval(f, env) || d0.eval(g, env)) by {
        lemma_negates(d6, f, not_f, env);
        lemma_negates(d6, g, not_g, env);
        lemma_computes(d6, BddOpType::And, not_f, not_g, neither, env);
        lemma_negates(d6, neither, either, env);
        lemma_computes(d6, BddOpType::Or, f, g, r, env);
        lemma_computes(d6, BddOpType::Or, g, f, s, env);
        d6.law_extends(d0, f, env);
        d6.law_extends(d0, g, env);
    }
    lemma_negates(d6, neither, either, |k: nat| true);
    lemma_computes(d6, BddOpType::Or, g, f, s, |k: nat| true);
    lemma_computes(d6, BddOpType::Or, f, g, r, |k: nat| true);
    d6.law_canonical(r, either);
    d6.law_canonical(r, s);
    assert(d6.is_vertex(d6.true_id, 1, NULL, NULL));
    d6.law_canonical(r, d6.true_id);
    if r == d0.true_id {
        assert forall|env: Assignment| #[trigger] d0.eval(f, env) || d0.eval(g, env) by {
            assert(d6.eval(r, env));
        }
    }
    if forall|env: Assignment| #[trigger] d0.eval(f, env) || d0.eval(g, env) {
        assert(d6.same_function(r, d6.true_id)) by {
            assert forall|env: Assignment| #[trigger] d6.eval(r, env) == d6.eval(
                d6.true_id,
                env,
            ) by {
                assert(d0.eval(f, env) || d0.eval(g, env));
            }
        }
    }
}

/// The result of a difference is the conjunction with the negation; together with the conjunction
/// it makes up the first operand. It is the false terminal just if the first operand implies the
/// second. No reference changes.
pub proof fn law_difference(
    d0: Diagram,
    d1: Diagram,
    d2: Diagram,
    d3: Diagram,
    d4: Diagram,
    d5: Diagram,
    f: Bdd,
    g: Bdd,
    not_g: Bdd,
    rest: Bdd,
    r: Bdd,
    both: Bdd,
    whole: Bdd,
)
    requires
        d0.wf(),
        d0.has_node(f),
        d0.has_node(g),
        d1.grown(d0, not_g),
        negates(d1, g, not_g),
        d2.grown(d1, rest),
        computes(d2, BddOpType::And, f, not_g, rest),
        d3.grown(d2, r),
        computes(d3, BddOpType::Comp, f, g, r),
        d4.grown(d3, both),
        computes(d4, BddOpType::And, f, g, both),
        d5.grown(d4, whole),
        computes(d5, BddOpType::Or, r, both, whole),
    ensures
        r == rest,
        whole == f,
        r == d0.false_id <==> forall|env: Assignment| #[trigger]
            d0.eval(f, env) ==> d0.eval(g, env),
        keeps(d5, d0),
{
    lemma_keeps_trans(d5, d4, d3);
    lemma_keeps_trans(d5, d3, d2);
    lemma_keeps_trans(d5, d2, d1);
    lemma_keeps_trans(d5, d1, d0);
    lemma_negates_extends(d5, d1, g, not_g);
    lemma_computes_extends(d5, d2, BddOpType::And, f, not_g, rest);
    lemma_computes_extends(d5, d3, BddOpType::Comp, f, g, r);
    lemma_computes_extends(d5, d4, BddOpType::And, f, g, both);
    assert forall|env: Assignment|
        #![trigger d5.eval(r, env)]
        #![trigger d5.eval(whole, env)]
        d5.eval(r, env) == d5.eval(rest, env) && d5.eval(whole, env) == d5.eval(f, env)
            && d5.eval(r, env) == (d0.eval(f, env) && !d0.eval(g, env)) by {
        lemma_negates(d5, g, not_g, env);
        lemma_computes(d5, BddOpType::And, f, not_g, rest, env);
        lemma_computes(d5, BddOpType::Comp, f, g, r, env);
        lemma_computes(d5, BddOpType::And, f, g, both, env);
        lemma_computes(d5, BddOpType::Or, r, both, whole, env);
        d5.law_extends(d0, f, env);
        d5.law_extends(d0, g, env);
    }
    lemma_computes(d5, BddOpType::And, f, not_g, rest, |k: nat| true);
    lemma_computes(d5, BddOpType::Comp, f, g, r, |k: nat| true);
    lemma_computes(d5, BddOpType::Or, r, both, whole, |k: nat| true);
    d5.law_canonical(r, rest);
    d5.law_canonical(whole, f);
    assert(d5.is_vertex(d5.false_id, 0, NULL, NULL));
    d5.law_canonical(r, d5.false_id);
    if r == d0.false_id {
        assert forall|env: Assignment| #[trigger] d0.eval(f, env) implies d0.eval(g, env) by {
            assert(!d5.eval(r, env));
        }
    }
    if forall|env: Assignment| #[trigger] d0.eval(f, env) ==> d0.eval(g, env) {
        assert(d5.same_function(r, d5.false_id)) by {
            assert forall|env: Assignment| #[trigger] d5.eval(r, env) == d5.eval(
                d5.false_id,
                env,
            ) by {
                assert(d0.eval(f, env) ==> d0.eval(g, env));
            }
        }
    }
}

/// Nothing is new and nothing has changed.
proof fn lemma_unchanged(after: Diagram, before: Diagram, r: Bdd)
    requires
        after.grown(before, r),
        forall|id: Bdd| #[trigger] after.has_node(id) ==> before.has_node(id),
    ensures
        after == before,
{
    assert forall|id: Bdd| #[trigger] after.nodes.contains_key(id) == before.nodes.contains_key(
        id,
    ) by {
        assert(after.has_node(id) == before.has_node(id));
    }
    assert forall|id: Bdd| #[trigger] before.nodes.contains_key(id) implies after.nodes[id]
        == before.nodes[id] by {
        assert(before.has_node(id));
        assert(after.nodes[id].key() == before.nodes[id].key());
    }
    assert(after.nodes =~= before.nodes);
}

/// Making a node with two equal children makes none. Else what is made is the only node of its
/// key: the one that was there, and nothing has changed; or one that is new and not referenced,
/// and the diagram has one node more.
pub proof fn law_make_node(
    before: Diagram,
    after: Diagram,
    level: usize,
    low: Bdd,
    high: Bdd,
    r: Bdd,
)
    requires
        before.wf(),
        before.has_node(low),
        before.has_node(high),
        made(after, before, level as nat, low, high, r),
    ensures
        low == high ==> r == low,
        low != high ==> forall|id: Bdd| #[trigger]
            after.has_node(id) ==> (after.nodes[id].key() == (level, low, high) <==> id == r),
        before.has_node(r) ==> after == before,
        !before.has_node(r) ==> {
            &&& after.nodes[r].refs == 0
            &&& after.nodes.dom() == before.nodes.dom().insert(r)
            &&& after.nodes.dom().len() == before.nodes.dom().len() + 1
        },
        low != high ==> (before.has_node(r) <==> exists|id: Bdd| #[trigger]
            before.has_node(id) && before.nodes[id].key() == (level, low, high)),
        keeps(after, before),
{
    assert(after.has_node(r));
    if before.has_node(r) {
        lemma_unchanged(after, before, r);
    } else {
        assert forall|id: Bdd| #[trigger] after.nodes.dom().contains(id)
            == before.nodes.dom().insert(r).contains(id) by {
            if after.nodes.dom().contains(id) {
                assert(after.has_node(id));
            }
            if before.nodes.dom().contains(id) {
                assert(before.has_node(id));
            }
        }
        assert(after.nodes.dom() =~= before.nodes.dom().insert(r));
    }
    if low != high {
        assert(after.nodes[r].key() == (level, low, high));
        if exists|id: Bdd| #[trigger]
            before.has_node(id) && before.nodes[id].key() == (level, low, high) {
            let id = choose|id: Bdd| #[trigger]
                before.has_node(id) && before.nodes[id].key() == (level, low, high);
            assert(after.has_node(id));
        }
    }
}

/// Making a node a second time finds the one that was made, and changes nothing.
pub proof fn law_make_twice(
    d0: Diagram,
    d1: Diagram,
    d2: Diagram,
    level: usize,
    low: Bdd,
    high: Bdd,
    r: Bdd,
    s: Bdd,
)
    requires
        d0.wf(),
        d0.has_node(low),
        d0.has_node(high),
        made(d1, d0, level as nat, low, high, r),
        made(d2, d1, level as nat, low, high, s),
    ensures
        s == r,
        d2 == d1,
{
    law_make_node(d0, d1, level, low, high, r);
    assert(d1.has_node(low) && d1.has_node(high));
    law_make_node(d1, d2, level, low, high, s);
    assert(d1.has_node(r));
    assert(d2.has_node(r));
}

} // verus!
