//! What holds of the operations together.

use vstd::prelude::*;

use crate::codec::{
    decoded, grafted, imports, law_stream, leaves, lemma_parsed, listing, parsed, refs_in, stream,
    terminal_record, tree_at, Record,
};
use crate::diagram::{Assignment, Diagram};
use crate::graph::{lemma_closed, lemma_reaches_self, lemma_reaches_step, lemma_trans, reaches};
use crate::node::{Bdd, NULL};
use crate::set::referenced;
use crate::sizing::MAX_SIZE_EXP;

verus! {

/// `r` stands for the negation of `a`.
pub open spec fn is_not(d: Diagram, a: Bdd, r: Bdd) -> bool {
    d.has_node(a) && d.has_node(r) && forall|env: Assignment| #[trigger]
        d.eval(r, env) == !d.eval(a, env)
}

/// `r` stands for the conjunction of `a` and `b`.
pub open spec fn is_and(d: Diagram, a: Bdd, b: Bdd, r: Bdd) -> bool {
    d.has_node(a) && d.has_node(b) && d.has_node(r) && forall|env: Assignment| #[trigger]
        d.eval(r, env) == (d.eval(a, env) && d.eval(b, env))
}

/// `r` stands for the disjunction of `a` and `b`.
pub open spec fn is_or(d: Diagram, a: Bdd, b: Bdd, r: Bdd) -> bool {
    d.has_node(a) && d.has_node(b) && d.has_node(r) && forall|env: Assignment| #[trigger]
        d.eval(r, env) == (d.eval(a, env) || d.eval(b, env))
}

/// `r` stands for what is in `a` and not in `b`.
pub open spec fn is_comp(d: Diagram, a: Bdd, b: Bdd, r: Bdd) -> bool {
    d.has_node(a) && d.has_node(b) && d.has_node(r) && forall|env: Assignment| #[trigger]
        d.eval(r, env) == (d.eval(a, env) && !d.eval(b, env))
}

/// An operation keeps what its operands and all other nodes that it does not collect stand for.
pub proof fn law_keeps(before: Diagram, after: Diagram, ret: Bdd, x: Bdd, env: Assignment)
    requires
        before.wf(),
        before.ready(),
        after.concludes(before, ret),
        before.operand(x),
    ensures
        after.wf(),
        after.has_node(ret),
        after.has_node(x),
        after.eval(x, env) == before.eval(x, env),
{
    before.lemma_entered();
    let g = choose|g: Diagram|
        #![trigger g.grown(before.entered(), ret)]
        g.grown(before.entered(), ret) && after == g.referenced(ret);
    let refs = g.nodes[ret].refs.wrapping_add(1);
    g.lemma_with_refs(ret, refs);
    assert(before.entered().has_node(x));
    g.law_extends(before.entered(), x, env);
    assert(g.has_node(x) && g.has_node(ret));
    assert(g.with_refs(ret, refs).eval(x, env) == g.eval(x, env));
    assert(after.has_node(x) && after.has_node(ret));
}

/// A result is referenced, so it survives a collection, and stands for the same function after it.
pub proof fn law_result_kept(before: Diagram, after: Diagram, ret: Bdd, env: Assignment)
    requires
        before.wf(),
        before.ready(),
        after.concludes(before, ret),
        after.grounded(),
        after.nodes[ret].refs != 0,
    ensures
        after.live().contains(ret),
        after.collected().has_node(ret),
        after.collected().eval(ret, env) == after.eval(ret, env),
{
    before.lemma_entered();
    let g = choose|g: Diagram|
        #![trigger g.grown(before.entered(), ret)]
        g.grown(before.entered(), ret) && after == g.referenced(ret);
    g.lemma_with_refs(ret, g.nodes[ret].refs.wrapping_add(1));
    assert(g.has_node(ret));
    assert(after.has_node(ret));
    after.lemma_live();
    after.law_collected();
    assert(after.collected().nodes.dom().contains(ret));
}

/// Once the reference to a result is taken back, a collection leaves what it would have left
/// before the operation.
pub proof fn law_collect_undoes(before: Diagram, after: Diagram, ret: Bdd)
    requires
        before.wf(),
        before.ready(),
        after.concludes(before, ret),
    ensures
        after.dereferenced(ret).collected() == before.entered().collected(),
{
    before.lemma_entered();
    let e = before.entered();
    let g = choose|g: Diagram|
        #![trigger g.grown(before.entered(), ret)]
        g.grown(before.entered(), ret) && after == g.referenced(ret);
    assert(g.has_node(ret));
    let d = after.dereferenced(ret);
    assert(d.nodes =~= g.nodes) by {
        let n = g.nodes[ret].refs;
        assert(n.wrapping_add(1).wrapping_sub(1) == n);
    }
    assert forall|id: Bdd| #[trigger] g.has_node(id) implies g.nodes[id].refs == refs_in(e, id) by {
        assert(e.has_node(id) || !e.has_node(id));
    }
    lemma_same_live(e, g);
    lemma_same_collected(e, g);
    assert(d == g);
}

/// New nodes that are not referenced are not alive, and what was alive still is.
proof fn lemma_same_live(e: Diagram, g: Diagram)
    requires
        e.wf(),
        g.wf(),
        g.extends(e),
        forall|id: Bdd| #[trigger] g.has_node(id) ==> g.nodes[id].refs == refs_in(e, id),
    ensures
        g.live() == e.live(),
{
    assert forall|x: Bdd| e.live().contains(x) implies g.live().contains(x) by {
        let r = choose|r: Bdd| referenced(e.nodes).contains(r) && reaches(e.edges(), r, x);
        assert(referenced(e.nodes).contains(r));
        assert(e.has_node(r));
        assert(g.has_node(r));
        g.lemma_reaches_extends(e, r, x);
        assert(referenced(g.nodes).contains(r) && reaches(g.edges(), r, x));
    }
    assert forall|x: Bdd| g.live().contains(x) implies e.live().contains(x) by {
        let r = choose|r: Bdd| referenced(g.nodes).contains(r) && reaches(g.edges(), r, x);
        assert(g.has_node(r));
        assert(e.has_node(r));
        assert(referenced(e.nodes).contains(r));
        let s = Set::new(|y: Bdd| e.has_node(y) && reaches(e.edges(), r, y));
        lemma_reaches_self(e.edges(), r);
        assert forall|y: Bdd| #[trigger] s.contains(y) && g.edges().contains_key(y) implies {
            &&& g.edges().contains_key(g.edges()[y].0) ==> s.contains(g.edges()[y].0)
            &&& g.edges().contains_key(g.edges()[y].1) ==> s.contains(g.edges()[y].1)
        } by {
            assert(e.has_node(y) && g.has_node(y));
            if e.terminal(y) {
                assert(e.is_vertex(e.true_id, 1, NULL, NULL));
                assert(e.is_vertex(e.false_id, 0, NULL, NULL));
                assert(!g.has_node(NULL));
            } else {
                e.lemma_decides(y);
                let (low, high) = (e.low(y), e.high(y));
                lemma_reaches_self(e.edges(), low);
                lemma_reaches_self(e.edges(), high);
                lemma_reaches_step(e.edges(), y, low);
                lemma_reaches_step(e.edges(), y, high);
                lemma_trans(e.edges(), r, y, low);
                lemma_trans(e.edges(), r, y, high);
            }
        }
        lemma_closed(g.edges(), s, r, x);
    }
    assert(g.live() =~= e.live());
}

/// What is alive stays alive while nodes are added and none that is referenced ceases to be.
proof fn lemma_live_more(before: Diagram, after: Diagram)
    requires
        before.wf(),
        after.wf(),
        after.extends(before),
        forall|id: Bdd| #[trigger]
            before.has_node(id) && before.nodes[id].refs != 0 ==> after.nodes[id].refs != 0,
    ensures
        before.live().subset_of(after.live()),
{
    assert forall|x: Bdd| before.live().contains(x) implies after.live().contains(x) by {
        let r = choose|r: Bdd|
            referenced(before.nodes).contains(r) && reaches(before.edges(), r, x);
        assert(before.has_node(r));
        assert(after.has_node(r));
        after.lemma_reaches_extends(before, r, x);
        assert(referenced(after.nodes).contains(r) && reaches(after.edges(), r, x));
    }
}

/// What was read from a stream has one reference more, so it survives a collection, and so does
/// everything that would have survived one before.
pub proof fn law_import_kept(before: Diagram, after: Diagram, s: Seq<u8>, ret: Bdd)
    requires
        before.wf(),
        imports(after, before, s, ret),
        refs_in(before, ret) < usize::MAX,
    ensures
        after.nodes[ret].refs == refs_in(before, ret) + 1,
        after.live().contains(ret),
        before.live().subset_of(after.live()),
        before.grounded() ==> after.grounded(),
        anchored(before) ==> anchored(after),
{
    assert(after.has_node(ret));
    after.lemma_live();
    assert forall|id: Bdd| #[trigger] before.has_node(id) && before.nodes[id].refs
        != 0 implies after.nodes[id].refs != 0 by {
        assert(after.has_node(id));
    }
    lemma_live_more(before, after);
    if before.grounded() {
        assert forall|i: int|
            #![trigger after.vars[i]]
            0 <= i < after.vars.len() implies after.live().contains(after.vars[i]) by {
            assert(before.live().contains(before.vars[i]));
        }
        assert forall|i: int|
            #![trigger after.nvars[i]]
            0 <= i < after.nvars.len() implies after.live().contains(after.nvars[i]) by {
            assert(before.live().contains(before.nvars[i]));
        }
    }
    if anchored(before) {
        assert(before.is_vertex(before.true_id, 1, NULL, NULL));
        assert(before.is_vertex(before.false_id, 0, NULL, NULL));
        assert forall|i: int|
            #![trigger after.vars[i]]
            0 <= i < after.vars.len() implies after.nodes[after.vars[i]].refs != 0 by {
            assert(before.is_vertex(before.vars[i], i, before.false_id, before.true_id));
        }
        assert forall|i: int|
            #![trigger after.nvars[i]]
            0 <= i < after.nvars.len() implies after.nodes[after.nvars[i]].refs != 0 by {
            assert(before.is_vertex(before.nvars[i], i, before.true_id, before.false_id));
        }
    }
}

/// Once the reference to what was read is taken back, a collection leaves what it would have left
/// before the reading.
pub proof fn law_import_undone(before: Diagram, after: Diagram, s: Seq<u8>, ret: Bdd)
    requires
        before.wf(),
        imports(after, before, s, ret),
    ensures
        after.dereferenced(ret).collected() == before.collected(),
{
    let d = after.dereferenced(ret);
    assert(after.has_node(ret));
    after.lemma_with_refs(ret, after.nodes[ret].refs.wrapping_sub(1));
    d.lemma_extends_trans(after, before);
    assert forall|id: Bdd| #[trigger] d.has_node(id) implies d.nodes[id].refs == refs_in(
        before,
        id,
    ) by {
        assert(after.has_node(id));
        let n = refs_in(before, ret);
        assert(n.wrapping_add(1).wrapping_sub(1) == n);
    }
    lemma_same_live(before, d);
    lemma_same_collected(before, d);
}

/// Two diagrams with the same live nodes look the same once they are collected.
proof fn lemma_same_collected(e: Diagram, d: Diagram)
    requires
        e.wf(),
        d.wf(),
        d.extends(e),
        d.table_exp == e.table_exp,
        d.cache_exp == e.cache_exp,
        d.live() == e.live(),
        forall|id: Bdd| #[trigger] d.has_node(id) ==> d.nodes[id].refs == refs_in(e, id),
    ensures
        d.collected() == e.collected(),
{
    e.lemma_live();
    assert forall|id: Bdd| #[trigger] e.live().contains(id) implies e.has_node(id) && d.has_node(id)
        && d.nodes[id] == e.nodes[id] by {
        assert(e.nodes.dom().contains(id));
        assert(e.has_node(id));
        assert(d.has_node(id));
        assert(d.nodes[id].key() == e.nodes[id].key());
    }
    assert(d.nodes.restrict(d.live()) =~= e.nodes.restrict(e.live()));
}

/// A terminal that is serialized and read is that terminal of the other diagram, with one more
/// reference; nothing else changes.
pub proof fn law_terminal_carried(d: Diagram, id: Bdd, before: Diagram, after: Diagram, ret: Bdd)
    requires
        d.wf(),
        d.terminal(id),
        before.wf(),
        imports(after, before, stream(d, id), ret),
    ensures
        id == d.true_id ==> ret == before.true_id,
        id == d.false_id ==> ret == before.false_id,
        after == before.referenced(ret),
{
    assert(d.is_vertex(d.true_id, 1, NULL, NULL));
    assert(d.is_vertex(d.false_id, 0, NULL, NULL));
    assert(before.is_vertex(before.true_id, 1, NULL, NULL));
    assert(before.is_vertex(before.false_id, 0, NULL, NULL));
    law_stream(d, id);
    let s = stream(d, id);
    let r = terminal_record(id);
    let t = d.tree(id);
    assert(listing(d, id) == seq![r]);
    lemma_parsed(d.false_id as u64, d.true_id as u64, seq![r]);
    assert(parsed(s) == seq![r]);
    assert(seq![r].drop_last() =~= Seq::<Record>::empty());
    assert(parsed(s).take(0) =~= Seq::<Record>::empty());
    let m = leaves(s);
    assert(decoded(m, Seq::<Record>::empty()) == m);
    assert(m[id as u64] == t);
    assert(grafted(m, r) == t);
    assert(tree_at(m, parsed(s), 0) == t);
    assert(after.tree(ret) == t);
    assert forall|x: Bdd| #[trigger] after.nodes.dom().contains(x)
        == before.nodes.dom().contains(x) by {
        if after.nodes.dom().contains(x) && !before.nodes.dom().contains(x) {
            assert(after.has_node(x) && !before.has_node(x));
            let k = choose|k: int|
                0 <= k < parsed(s).len() && after.tree(x) == #[trigger] tree_at(m, parsed(s), k);
            assert(after.tree(x) == t);
        }
        if before.nodes.dom().contains(x) {
            assert(before.has_node(x));
            assert(after.has_node(x));
        }
    }
    assert(after.has_node(ret));
    assert forall|x: Bdd| #[trigger] before.nodes.contains_key(x) implies after.nodes[x]
        == before.referenced(ret).nodes[x] by {
        assert(before.has_node(x));
        assert(after.has_node(x));
        assert(after.nodes[x].key() == before.nodes[x].key());
    }
    assert(before.nodes.dom().contains(ret));
    assert(after.nodes =~= before.referenced(ret).nodes);
}

/// A second collection finds nothing to collect.
pub proof fn law_collect_twice(d: Diagram)
    requires
        d.wf(),
        d.grounded(),
    ensures
        d.collected().live() == d.live(),
        d.collected().collected() == d.collected(),
        d.collected().grounded(),
{
    let c = d.collected();
    d.law_collected();
    d.lemma_live();
    c.lemma_live();
    assert forall|x: Bdd| d.live().contains(x) implies c.live().contains(x) by {
        let r = choose|r: Bdd| referenced(d.nodes).contains(r) && reaches(d.edges(), r, x);
        assert(d.has_node(r));
        assert(d.live().contains(r));
        assert(c.nodes.dom().contains(r));
        assert(referenced(c.nodes).contains(r));
        let s = Set::new(|y: Bdd| d.live().contains(y) && reaches(c.edges(), r, y));
        lemma_reaches_self(c.edges(), r);
        assert forall|y: Bdd| #[trigger] s.contains(y) && d.edges().contains_key(y) implies {
            &&& d.edges().contains_key(d.edges()[y].0) ==> s.contains(d.edges()[y].0)
            &&& d.edges().contains_key(d.edges()[y].1) ==> s.contains(d.edges()[y].1)
        } by {
            assert(d.has_node(y));
            assert(c.nodes.dom().contains(y));
            assert(c.has_node(y));
            if d.terminal(y) {
                assert(d.is_vertex(d.true_id, 1, NULL, NULL));
                assert(d.is_vertex(d.false_id, 0, NULL, NULL));
                assert(!d.has_node(NULL));
            } else {
                c.lemma_decides(y);
                let (low, high) = (c.low(y), c.high(y));
                assert(d.live().contains(low) && d.live().contains(high));
                lemma_reaches_self(c.edges(), low);
                lemma_reaches_self(c.edges(), high);
                lemma_reaches_step(c.edges(), y, low);
                lemma_reaches_step(c.edges(), y, high);
                lemma_trans(c.edges(), r, y, low);
                lemma_trans(c.edges(), r, y, high);
            }
        }
        lemma_closed(d.edges(), s, r, x);
        assert(referenced(c.nodes).contains(r) && reaches(c.edges(), r, x));
    }
    assert forall|x: Bdd| c.live().contains(x) implies d.live().contains(x) by {
        assert(c.nodes.dom().contains(x));
    }
    assert(c.live() =~= d.live());
    assert(c.nodes.restrict(c.live()) =~= c.nodes);
}

/// A reference that is added and taken back leaves the diagram as it was.
pub proof fn law_ref_deref(d: Diagram, id: Bdd)
    requires
        d.wf(),
        d.has_node(id),
    ensures
        d.referenced(id).dereferenced(id) == d,
        d.dereferenced(id).referenced(id) == d,
{
    let n = d.nodes[id].refs;
    assert(n.wrapping_add(1).wrapping_sub(1) == n);
    assert(n.wrapping_sub(1).wrapping_add(1) == n);
    assert(d.referenced(id).dereferenced(id).nodes =~= d.nodes);
    assert(d.dereferenced(id).referenced(id).nodes =~= d.nodes);
}

/// A node stands for what is always true, or never, only if it is that terminal.
pub proof fn law_terminals(d: Diagram, id: Bdd)
    requires
        d.wf(),
        d.has_node(id),
    ensures
        id == d.true_id <==> forall|env: Assignment| #[trigger] d.eval(id, env),
        id == d.false_id <==> forall|env: Assignment| !#[trigger] d.eval(id, env),
{
    assert(d.is_vertex(d.true_id, 1, NULL, NULL));
    assert(d.is_vertex(d.false_id, 0, NULL, NULL));
    if forall|env: Assignment| #[trigger] d.eval(id, env) {
        assert(d.same_function(id, d.true_id));
        d.law_canonical(id, d.true_id);
    }
    if forall|env: Assignment| !#[trigger] d.eval(id, env) {
        assert(d.same_function(id, d.false_id));
        d.law_canonical(id, d.false_id);
    }
}

/// Two operations in a row that compute the same function return the same node.
pub proof fn law_same_result(d0: Diagram, d1: Diagram, d2: Diagram, r1: Bdd, r2: Bdd)
    requires
        d0.wf(),
        d0.ready(),
        d1.concludes(d0, r1),
        d1.wf(),
        d1.ready(),
        d1.operand(r1),
        d2.concludes(d1, r2),
        forall|env: Assignment| #[trigger] d2.eval(r2, env) == d1.eval(r1, env),
    ensures
        r1 == r2,
{
    assert forall|env: Assignment| #[trigger] d2.eval(r1, env) == d2.eval(r2, env) by {
        law_keeps(d1, d2, r2, r1, env);
        assert(d2.eval(r2, env) == d1.eval(r1, env));
    }
    law_keeps(d1, d2, r2, r1, |k: nat| true);
    d2.law_canonical(r1, r2);
}

/// The negation of a negation is the node itself.
pub proof fn law_not_not(d: Diagram, a: Bdd, b: Bdd, c: Bdd)
    requires
        d.wf(),
        is_not(d, a, b),
        is_not(d, b, c),
    ensures
        c == a,
{
    assert forall|env: Assignment| #[trigger] d.eval(c, env) == d.eval(a, env) by {
        assert(d.eval(b, env) == !d.eval(a, env));
    }
    d.law_canonical(c, a);
}

/// Two negations in a row return the node itself, and the first of them another one. Where the
/// tables can be grown, both can start.
pub proof fn law_not_twice(d0: Diagram, d1: Diagram, d2: Diagram, f: Bdd, g: Bdd, h: Bdd)
    requires
        d0.wf(),
        d0.grounded(),
        roomy(d0),
        d0.live().contains(f),
        d1.concludes(d0, g),
        forall|env: Assignment| #[trigger] d1.eval(g, env) == !d0.eval(f, env),
        d1.nodes[g].refs != 0,
        roomy(d1),
        d2.concludes(d1, h),
        forall|env: Assignment| #[trigger] d2.eval(h, env) == !d1.eval(g, env),
    ensures
        d0.ready(),
        d0.operand(f),
        d1.wf(),
        d1.ready(),
        d1.operand(g),
        d1.operand(f),
        g != f,
        h == f,
{
    law_ready(d0, f);
    law_stays_ready(d0, d1, g, f);
    law_ready(d1, g);
    law_ready(d1, f);
    let at: Assignment = |k: nat| true;
    law_keeps(d0, d1, g, f, at);
    law_keeps(d1, d2, h, f, at);
    assert(d1.eval(g, at) == !d0.eval(f, at));
    assert forall|env: Assignment| #[trigger] d2.eval(h, env) == d2.eval(f, env) by {
        law_keeps(d0, d1, g, f, env);
        law_keeps(d1, d2, h, f, env);
        assert(d1.eval(g, env) == !d0.eval(f, env));
    }
    d2.law_canonical(h, f);
}

/// The negation of a literal is the other literal of its variable, and that of a terminal is the
/// other terminal.
pub proof fn law_not_builtins(before: Diagram, after: Diagram, f: Bdd, g: Bdd, i: int)
    requires
        before.wf(),
        before.ready(),
        before.operand(f),
        after.concludes(before, g),
        forall|env: Assignment| #[trigger] after.eval(g, env) == !before.eval(f, env),
        0 <= i < before.num_vars(),
    ensures
        f == before.true_id ==> g == before.false_id,
        f == before.false_id ==> g == before.true_id,
        f == before.vars[i] ==> g == before.nvars[i],
        f == before.nvars[i] ==> g == before.vars[i],
{
    let at: Assignment = |k: nat| true;
    law_keeps(before, after, g, f, at);
    before.lemma_entered();
    let other = if f == before.true_id {
        before.false_id
    } else if f == before.false_id {
        before.true_id
    } else if f == before.vars[i] {
        before.nvars[i]
    } else {
        before.vars[i]
    };
    assert(after.same_builtins(before));
    assert(after.is_vertex(after.true_id, 1, NULL, NULL));
    assert(after.is_vertex(after.false_id, 0, NULL, NULL));
    before.law_literals(i, at);
    after.law_literals(i, at);
    assert(before.is_vertex(before.true_id, 1, NULL, NULL));
    assert(before.is_vertex(before.false_id, 0, NULL, NULL));
    assert(before.is_vertex(before.vars[i], i, before.false_id, before.true_id));
    assert(before.is_vertex(before.nvars[i], i, before.true_id, before.false_id));
    if before.terminal(f) || f == before.vars[i] || f == before.nvars[i] {
        assert forall|env: Assignment| #[trigger] after.eval(g, env) == after.eval(other, env) by {
            before.law_literals(i, env);
            after.law_literals(i, env);
            assert(after.eval(g, env) == !before.eval(f, env));
        }
        after.law_canonical(g, other);
    }
}

/// Conjunction and disjunction do not depend on the order of the operands.
pub proof fn law_commutes(d: Diagram, a: Bdd, b: Bdd, r: Bdd, s: Bdd)
    requires
        d.wf(),
        is_and(d, a, b, r) && is_and(d, b, a, s) || is_or(d, a, b, r) && is_or(d, b, a, s),
    ensures
        r == s,
{
    assert forall|env: Assignment| #[trigger] d.eval(r, env) == d.eval(s, env) by {}
    d.law_canonical(r, s);
}

/// The negation of a conjunction is the disjunction of the negations.
pub proof fn law_de_morgan(
    d: Diagram,
    a: Bdd,
    b: Bdd,
    not_a: Bdd,
    not_b: Bdd,
    both: Bdd,
    not_both: Bdd,
    either: Bdd,
)
    requires
        d.wf(),
        is_not(d, a, not_a),
        is_not(d, b, not_b),
        is_and(d, a, b, both),
        is_not(d, both, not_both),
        is_or(d, not_a, not_b, either),
    ensures
        not_both == either,
{
    assert forall|env: Assignment| #[trigger] d.eval(not_both, env) == d.eval(either, env) by {
        assert(d.eval(both, env) == (d.eval(a, env) && d.eval(b, env)));
        assert(d.eval(not_a, env) == !d.eval(a, env));
        assert(d.eval(not_b, env) == !d.eval(b, env));
    }
    d.law_canonical(not_both, either);
}

/// The difference of two sets is the conjunction of the first with the negation of the second.
pub proof fn law_comp(d: Diagram, a: Bdd, b: Bdd, not_b: Bdd, diff: Bdd, both: Bdd)
    requires
        d.wf(),
        is_not(d, b, not_b),
        is_comp(d, a, b, diff),
        is_and(d, a, not_b, both),
    ensures
        diff == both,
{
    assert forall|env: Assignment| #[trigger] d.eval(diff, env) == d.eval(both, env) by {
        assert(d.eval(not_b, env) == !d.eval(b, env));
    }
    d.law_canonical(diff, both);
}

/// The terminals and the literals are referenced.
pub open spec fn anchored(d: Diagram) -> bool {
    &&& d.nodes[d.true_id].refs != 0
    &&& d.nodes[d.false_id].refs != 0
    &&& forall|i: int|
        #![trigger d.vars[i]]
        0 <= i < d.vars.len() ==> d.nodes[d.vars[i]].refs != 0
    &&& forall|i: int|
        #![trigger d.nvars[i]]
        0 <= i < d.nvars.len() ==> d.nodes[d.nvars[i]].refs != 0
}

/// Terminals and literals that are referenced are alive.
pub proof fn law_anchored(d: Diagram)
    requires
        d.wf(),
        anchored(d),
    ensures
        d.grounded(),
{
    d.lemma_live();
    assert(d.is_vertex(d.true_id, 1, NULL, NULL));
    assert(d.is_vertex(d.false_id, 0, NULL, NULL));
    assert forall|i: int| #![trigger d.vars[i]] 0 <= i < d.vars.len() implies d.live().contains(
        d.vars[i],
    ) by {
        assert(d.is_vertex(d.vars[i], i, d.false_id, d.true_id));
    }
    assert forall|i: int| #![trigger d.nvars[i]] 0 <= i < d.nvars.len() implies d.live().contains(
        d.nvars[i],
    ) by {
        assert(d.is_vertex(d.nvars[i], i, d.true_id, d.false_id));
    }
}

/// The tables can be grown if they have to be.
pub open spec fn roomy(d: Diagram) -> bool {
    d.will_grow() ==> d.table_exp < MAX_SIZE_EXP && d.cache_exp < MAX_SIZE_EXP
}

/// With the terminals and the literals alive and room for growth, an operation can start, and
/// every live node can be an operand.
pub proof fn law_ready(d: Diagram, id: Bdd)
    requires
        d.wf(),
        d.grounded(),
        roomy(d),
        d.live().contains(id),
    ensures
        d.ready(),
        d.has_node(id),
        d.operand(id),
{
    d.lemma_live();
    assert(d.nodes.dom().contains(id));
    d.law_collected();
    assert(d.collected().nodes.dom().contains(id));
}

/// An operation leaves the terminals and the literals alive, and all other live nodes too; its
/// result is alive, unless its count has wrapped around; and the tables are at most twice as large.
pub proof fn law_stays_ready(before: Diagram, after: Diagram, ret: Bdd, id: Bdd)
    requires
        before.wf(),
        before.ready(),
        before.grounded(),
        before.live().contains(id),
        after.concludes(before, ret),
        after.nodes[ret].refs != 0,
    ensures
        after.wf(),
        after.grounded(),
        after.has_node(id),
        after.live().contains(id),
        after.has_node(ret),
        after.live().contains(ret),
        after.table_exp <= before.table_exp + 1,
        after.cache_exp <= before.cache_exp + 1,
        !before.full() ==> after.table_exp == before.table_exp && after.cache_exp
            == before.cache_exp,
{
    before.lemma_entered();
    let e = before.entered();
    law_collect_twice(before);
    assert(e.live() == before.live());
    let g = choose|g: Diagram|
        #![trigger g.grown(before.entered(), ret)]
        g.grown(before.entered(), ret) && after == g.referenced(ret);
    g.lemma_with_refs(ret, g.nodes[ret].refs.wrapping_add(1));
    assert(g.has_node(ret));
    assert(after.has_node(ret));
    after.lemma_extends_trans(g, e);
    assert forall|x: Bdd| #[trigger] e.has_node(x) && e.nodes[x].refs
        != 0 implies after.nodes[x].refs != 0 by {
        assert(g.has_node(x));
    }
    lemma_live_more(e, after);
    after.lemma_live();
    assert(after.nodes.dom().contains(id));
    assert forall|i: int|
        #![trigger after.vars[i]]
        0 <= i < after.vars.len() implies after.live().contains(after.vars[i]) by {
        assert(before.live().contains(before.vars[i]));
    }
    assert forall|i: int|
        #![trigger after.nvars[i]]
        0 <= i < after.nvars.len() implies after.live().contains(after.nvars[i]) by {
        assert(before.live().contains(before.nvars[i]));
    }
}

} // verus!
