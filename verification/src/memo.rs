//! What an operation cache may remember.

use vstd::prelude::*;

use crate::cache::{all_unused, entry_of, lemma_unused_null};
use crate::diagram::{Assignment, Diagram};
use crate::hash::{mix1, mix2};
use crate::node::{Bdd, NULL};
use crate::BddOpType;

verus! {

/// The truth value of a binary operation.
pub open spec fn apply(op: BddOpType, a: bool, b: bool) -> bool {
    match op {
        BddOpType::And => a && b,
        BddOpType::Or => a || b,
        BddOpType::Comp => a && !b,
        _ => false,
    }
}

pub open spec fn least(a: nat, b: nat) -> nat {
    if a < b {
        a
    } else {
        b
    }
}

/// `r` is the result of a binary operation on `a` and `b`.
#[verifier::opaque]
pub open spec fn computes(d: Diagram, op: BddOpType, a: Bdd, b: Bdd, r: Bdd) -> bool {
    &&& d.has_node(a)
    &&& d.has_node(b)
    &&& d.has_node(r)
    &&& least(d.top(a), d.top(b)) <= d.top(r)
    &&& forall|env: Assignment| #[trigger]
        d.eval(r, env) == apply(op, d.eval(a, env), d.eval(b, env))
}

/// `r` is the negation of `a`.
#[verifier::opaque]
pub open spec fn negates(d: Diagram, a: Bdd, r: Bdd) -> bool {
    &&& d.has_node(a)
    &&& d.has_node(r)
    &&& d.top(a) <= d.top(r)
    &&& forall|env: Assignment| #[trigger] d.eval(r, env) == !d.eval(a, env)
}

/// What a cache of a binary operation holds is right.
#[verifier::opaque]
pub open spec fn recalls(d: Diagram, op: BddOpType, entries: Seq<((Bdd, Bdd), Bdd)>) -> bool {
    forall|i: int|
        #![trigger entries[i]]
        0 <= i < entries.len() && entries[i].1 != NULL ==> computes(
            d,
            op,
            entries[i].0.0,
            entries[i].0.1,
            entries[i].1,
        )
}

/// What the cache of negations holds is right.
#[verifier::opaque]
pub open spec fn recalls_not(d: Diagram, entries: Seq<(Bdd, Bdd)>) -> bool {
    forall|i: int|
        #![trigger entries[i]]
        0 <= i < entries.len() && entries[i].1 != NULL ==> negates(d, entries[i].0, entries[i].1)
}

/// What a cache of a binary operation holds for two operands, if anything.
pub open spec fn held(entries: Seq<((Bdd, Bdd), Bdd)>, a: Bdd, b: Bdd) -> Option<Bdd> {
    let e = entries[entry_of(mix2(a as u64, b as u64), entries.len())];
    if e.0 == (a, b) && e.1 != NULL {
        Some(e.1)
    } else {
        None
    }
}

/// What the cache of negations holds for an operand, if anything.
pub open spec fn held_not(entries: Seq<(Bdd, Bdd)>, a: Bdd) -> Option<Bdd> {
    let e = entries[entry_of(mix1(a as u64), entries.len())];
    if e.0 == a && e.1 != NULL {
        Some(e.1)
    } else {
        None
    }
}

/// A cache that has forgotten everything holds nothing.
pub proof fn lemma_held_unused(entries: Seq<((Bdd, Bdd), Bdd)>, a: Bdd, b: Bdd)
    requires
        entries.len() > 0,
        all_unused(entries),
    ensures
        held(entries, a, b) is None,
{
    lemma_unused_null(entries, entry_of(mix2(a as u64, b as u64), entries.len()));
}

pub proof fn lemma_held_not_unused(entries: Seq<(Bdd, Bdd)>, a: Bdd)
    requires
        entries.len() > 0,
        all_unused(entries),
    ensures
        held_not(entries, a) is None,
{
    lemma_unused_null(entries, entry_of(mix1(a as u64), entries.len()));
}

pub proof fn lemma_computes_extends(
    after: Diagram,
    before: Diagram,
    op: BddOpType,
    a: Bdd,
    b: Bdd,
    r: Bdd,
)
    requires
        before.wf(),
        after.wf(),
        after.extends(before),
        computes(before, op, a, b, r),
    ensures
        computes(after, op, a, b, r),
{
    reveal(computes);
    assert forall|env: Assignment| #[trigger] after.eval(r, env) == apply(
        op,
        after.eval(a, env),
        after.eval(b, env),
    ) by {
        after.law_extends(before, r, env);
        after.law_extends(before, a, env);
        after.law_extends(before, b, env);
        assert(before.eval(r, env) == apply(op, before.eval(a, env), before.eval(b, env)));
    }
    let env: Assignment = |k: nat| true;
    after.law_extends(before, r, env);
    after.law_extends(before, a, env);
    after.law_extends(before, b, env);
}

pub proof fn lemma_negates_extends(after: Diagram, before: Diagram, a: Bdd, r: Bdd)
    requires
        before.wf(),
        after.wf(),
        after.extends(before),
        negates(before, a, r),
    ensures
        negates(after, a, r),
{
    reveal(negates);
    assert forall|env: Assignment| #[trigger] after.eval(r, env) == !after.eval(a, env) by {
        after.law_extends(before, r, env);
        after.law_extends(before, a, env);
        assert(before.eval(r, env) == !before.eval(a, env));
    }
    let env: Assignment = |k: nat| true;
    after.law_extends(before, r, env);
    after.law_extends(before, a, env);
}

/// A cache stays right while the diagram is extended.
pub proof fn lemma_recalls_extends(
    after: Diagram,
    before: Diagram,
    op: BddOpType,
    entries: Seq<((Bdd, Bdd), Bdd)>,
)
    requires
        before.wf(),
        after.wf(),
        after.extends(before),
        recalls(before, op, entries),
    ensures
        recalls(after, op, entries),
{
    reveal(recalls);
    assert forall|i: int|
        #![trigger entries[i]]
        0 <= i < entries.len() && entries[i].1 != NULL implies computes(
        after,
        op,
        entries[i].0.0,
        entries[i].0.1,
        entries[i].1,
    ) by {
        lemma_computes_extends(
            after,
            before,
            op,
            entries[i].0.0,
            entries[i].0.1,
            entries[i].1,
        );
    }
}

pub proof fn lemma_recalls_not_extends(after: Diagram, before: Diagram, entries: Seq<(Bdd, Bdd)>)
    requires
        before.wf(),
        after.wf(),
        after.extends(before),
        recalls_not(before, entries),
    ensures
        recalls_not(after, entries),
{
    reveal(recalls_not);
    assert forall|i: int|
        #![trigger entries[i]]
        0 <= i < entries.len() && entries[i].1 != NULL implies negates(
        after,
        entries[i].0,
        entries[i].1,
    ) by {
        lemma_negates_extends(after, before, entries[i].0, entries[i].1);
    }
}

/// The low or the high side of a node at variable `l`: the node itself where it does not ask for
/// `l`.
pub open spec fn side(d: Diagram, id: Bdd, l: nat, value: bool) -> Bdd {
    if d.top(id) != l {
        id
    } else if value {
        d.high(id)
    } else {
        d.low(id)
    }
}

/// `r` is what making a node of variable `l` with these children gives.
pub open spec fn makes(d: Diagram, l: nat, low: Bdd, high: Bdd, r: Bdd) -> bool {
    if low == high {
        r == low
    } else {
        &&& d.has_node(r)
        &&& !d.terminal(r)
        &&& d.top(r) == l
        &&& d.low(r) == low
        &&& d.high(r) == high
    }
}

/// Making a node of variable `l` with these children has made `r`, or found it, and nothing else.
pub open spec fn made(
    after: Diagram,
    before: Diagram,
    l: nat,
    low: Bdd,
    high: Bdd,
    r: Bdd,
) -> bool {
    &&& after.grown(before, r)
    &&& makes(after, l, low, high, r)
    &&& forall|id: Bdd| #[trigger] after.has_node(id) ==> id == r || before.has_node(id)
}

/// The value of a node made of two others.
pub proof fn lemma_makes(d: Diagram, l: nat, low: Bdd, high: Bdd, r: Bdd, env: Assignment)
    requires
        d.wf(),
        d.has_node(low),
        d.has_node(high),
        makes(d, l, low, high, r),
    ensures
        d.eval(r, env) == if env(l) {
            d.eval(high, env)
        } else {
            d.eval(low, env)
        },
{
}

/// The value of a node from that of its two sides.
pub proof fn lemma_sides(d: Diagram, id: Bdd, l: nat, env: Assignment)
    requires
        d.wf(),
        d.has_node(id),
        l < d.num_vars(),
    ensures
        d.has_node(side(d, id, l, false)),
        d.has_node(side(d, id, l, true)),
        d.eval(id, env) == d.eval(side(d, id, l, env(l)), env),
        d.top(id) >= l ==> d.top(side(d, id, l, false)) > l && d.top(side(d, id, l, true)) > l,
        d.top(id) == l ==> d.rank(side(d, id, l, false)) < d.rank(id) && d.rank(
            side(d, id, l, true),
        ) < d.rank(id),
{
    if d.top(id) == l {
        assert(!d.terminal(id));
        d.lemma_decides(id);
    }
}

/// An operation on two nodes, from the same operation on their sides.
pub proof fn lemma_computes_step(
    d: Diagram,
    op: BddOpType,
    a: Bdd,
    b: Bdd,
    l: nat,
    r0: Bdd,
    r1: Bdd,
    r: Bdd,
)
    requires
        d.wf(),
        d.has_node(a),
        d.has_node(b),
        l == least(d.top(a), d.top(b)),
        l < d.num_vars(),
        computes(d, op, side(d, a, l, false), side(d, b, l, false), r0),
        computes(d, op, side(d, a, l, true), side(d, b, l, true), r1),
        makes(d, l, r0, r1, r),
    ensures
        computes(d, op, a, b, r),
{
    reveal(computes);
    assert forall|env: Assignment| #[trigger] d.eval(r, env) == apply(
        op,
        d.eval(a, env),
        d.eval(b, env),
    ) by {
        lemma_makes(d, l, r0, r1, r, env);
        lemma_sides(d, a, l, env);
        lemma_sides(d, b, l, env);
        assert(d.eval(r0, env) == apply(
            op,
            d.eval(side(d, a, l, false), env),
            d.eval(side(d, b, l, false), env),
        ));
        assert(d.eval(r1, env) == apply(
            op,
            d.eval(side(d, a, l, true), env),
            d.eval(side(d, b, l, true), env),
        ));
    }
    let env: Assignment = |k: nat| true;
    lemma_sides(d, a, l, env);
    lemma_sides(d, b, l, env);
}

/// A negation, from the negations of the children.
pub proof fn lemma_negates_step(d: Diagram, a: Bdd, r0: Bdd, r1: Bdd, r: Bdd)
    requires
        d.wf(),
        d.has_node(a),
        !d.terminal(a),
        negates(d, d.low(a), r0),
        negates(d, d.high(a), r1),
        makes(d, d.top(a), r0, r1, r),
    ensures
        negates(d, a, r),
{
    reveal(negates);
    d.lemma_decides(a);
    assert forall|env: Assignment| #[trigger] d.eval(r, env) == !d.eval(a, env) by {
        lemma_makes(d, d.top(a), r0, r1, r, env);
        assert(d.eval(r0, env) == !d.eval(d.low(a), env));
        assert(d.eval(r1, env) == !d.eval(d.high(a), env));
    }
}

} // verus!
