//! What the bytes of a stream say, byte by byte and record by record.

use vstd::prelude::*;

use crate::codec::{
    be_bytes, be_value, decoded, grafted, imports, leaves, lemma_be_value, lemma_pow256_8,
    lemma_record_bytes_more, lemma_sound_at, lemma_word, listing, parsed, read_tree, readable,
    record_at, record_bytes, record_count, record_of, records, stream, tree_at, word, word_at,
    Record,
};
use crate::diagram::{Assignment, Diagram};
use crate::node::Bdd;
use crate::tree::Tree;

verus! {

/// A number has eight bytes, the most significant first.
pub proof fn law_word(x: u64)
    ensures
        word(x).len() == 8,
        word(x)[0] == x / 0x100_0000_0000_0000,
        word(x)[1] == (x / 0x1_0000_0000_0000) % 256,
        word(x)[2] == (x / 0x100_0000_0000) % 256,
        word(x)[3] == (x / 0x1_0000_0000) % 256,
        word(x)[4] == (x / 0x100_0000) % 256,
        word(x)[5] == (x / 0x1_0000) % 256,
        word(x)[6] == (x / 0x100) % 256,
        word(x)[7] == x % 256,
{
    reveal_with_fuel(be_bytes, 9);
    lemma_word(x);
    let y = x as nat;
    assert(y / 256 / 256 == y / 0x1_0000);
    assert(y / 0x1_0000 / 256 == y / 0x100_0000);
    assert(y / 0x100_0000 / 256 == y / 0x1_0000_0000);
    assert(y / 0x1_0000_0000 / 256 == y / 0x100_0000_0000);
    assert(y / 0x100_0000_0000 / 256 == y / 0x1_0000_0000_0000);
    assert(y / 0x1_0000_0000_0000 / 256 == y / 0x100_0000_0000_0000);
}

/// The number in eight bytes, the most significant first.
pub proof fn law_word_at(s: Seq<u8>, i: int)
    requires
        0 <= i,
        i + 8 <= s.len(),
    ensures
        word_at(s, i) == s[i] * 0x100_0000_0000_0000 + s[i + 1] * 0x1_0000_0000_0000 + s[i + 2]
            * 0x100_0000_0000 + s[i + 3] * 0x1_0000_0000 + s[i + 4] * 0x100_0000 + s[i + 5]
            * 0x1_0000 + s[i + 6] * 0x100 + s[i + 7],
{
    let w = s.subrange(i, i + 8);
    lemma_be_value(w);
    lemma_pow256_8();
    let w7 = w.drop_last();
    let w6 = w7.drop_last();
    let w5 = w6.drop_last();
    let w4 = w5.drop_last();
    let w3 = w4.drop_last();
    let w2 = w3.drop_last();
    let w1 = w2.drop_last();
    let w0 = w1.drop_last();
    assert(be_value(w0) == 0);
    assert(be_value(w1) == w[0]);
    assert(be_value(w2) == be_value(w1) * 256 + w[1]);
    assert(be_value(w3) == be_value(w2) * 256 + w[2]);
    assert(be_value(w4) == be_value(w3) * 256 + w[3]);
    assert(be_value(w5) == be_value(w4) * 256 + w[4]);
    assert(be_value(w6) == be_value(w5) * 256 + w[5]);
    assert(be_value(w7) == be_value(w6) * 256 + w[6]);
    assert(be_value(w) == be_value(w7) * 256 + w[7]);
}

/// The part of a stream after its header; nothing for a terminal, which has no records where it is
/// a child.
pub open spec fn below(d: Diagram, id: Bdd) -> Seq<u8> {
    if id == d.true_id || id == d.false_id {
        Seq::empty()
    } else {
        stream(d, id).skip(16)
    }
}

/// The bytes of one record.
pub open spec fn four_words(a: u64, b: u64, c: u64, e: u64) -> Seq<u8> {
    word(a) + word(b) + word(c) + word(e)
}

/// A stream starts with the handle of the false terminal and that of the true one. After them, a
/// decision node has what its low child has, then what its high child has, then its handle, its
/// level, its low child and its high child. A terminal has its handle, nought, and itself twice.
pub proof fn law_serialized(d: Diagram, id: Bdd)
    requires
        d.wf(),
        d.nodes.contains_key(id),
    ensures
        stream(d, id).take(16) == word(d.false_id as u64) + word(d.true_id as u64),
        id == d.true_id || id == d.false_id ==> stream(d, id).skip(16) == four_words(
            id as u64,
            0,
            id as u64,
            id as u64,
        ),
        id != d.true_id && id != d.false_id ==> stream(d, id).skip(16) == below(d, d.nodes[id].low)
            + below(d, d.nodes[id].high) + four_words(
            id as u64,
            d.nodes[id].level as u64,
            d.nodes[id].low as u64,
            d.nodes[id].high as u64,
        ),
{
    assert(d.has_node(id));
    lemma_header(d, id);
    if d.terminal(id) {
        let r = listing(d, id)[0];
        assert(listing(d, id).drop_last() =~= Seq::<Record>::empty());
        assert(record_bytes(Seq::<Record>::empty()) =~= Seq::<u8>::empty());
        assert(listing(d, id).last() == r);
        assert(record_bytes(listing(d, id)) =~= r.bytes());
    } else {
        d.lemma_decides(id);
        let (low, high) = (d.low(id), d.high(id));
        let (a, b) = (records(d, low), records(d, high));
        let r = record_of(d, id);
        lemma_below(d, low);
        lemma_below(d, high);
        lemma_record_bytes_more(a, b);
        assert((a + b + seq![r]).drop_last() =~= a + b);
        assert((a + b + seq![r]).last() == r);
        assert(records(d, id) == a + b + seq![r]);
        assert(record_bytes(records(d, id)) =~= record_bytes(a) + record_bytes(b) + r.bytes());
    }
}

proof fn lemma_header(d: Diagram, id: Bdd)
    ensures
        stream(d, id).take(16) == word(d.false_id as u64) + word(d.true_id as u64),
        stream(d, id).skip(16) == record_bytes(listing(d, id)),
{
    lemma_word(d.false_id as u64);
    lemma_word(d.true_id as u64);
    assert(stream(d, id).take(16) =~= word(d.false_id as u64) + word(d.true_id as u64));
    assert(stream(d, id).skip(16) =~= record_bytes(listing(d, id)));
}

proof fn lemma_below(d: Diagram, id: Bdd)
    requires
        d.wf(),
        d.has_node(id),
    ensures
        below(d, id) == record_bytes(records(d, id)),
{
    lemma_header(d, id);
}

/// A decision node is worth what its high child is worth where its variable is true, and what its
/// low child is worth where it is not.
pub proof fn law_decision(d: Diagram, id: Bdd, env: Assignment)
    requires
        d.wf(),
        d.nodes.contains_key(id),
    ensures
        id == d.true_id ==> d.eval(id, env),
        id == d.false_id ==> !d.eval(id, env),
        id != d.true_id && id != d.false_id ==> d.eval(id, env) == if env(
            d.nodes[id].level as nat,
        ) {
            d.eval(d.nodes[id].high, env)
        } else {
            d.eval(d.nodes[id].low, env)
        },
{
    assert(d.has_node(id));
    if !d.terminal(id) {
        d.lemma_decides(id);
        assert(d.top(id) == d.nodes[id].level as nat);
        assert(d.eval(id, env) == if env(d.top(id)) {
            d.eval(d.high(id), env)
        } else {
            d.eval(d.low(id), env)
        });
    }
}

/// Handle `h` stands for something after the first `k` records of a stream.
pub open spec fn is_known(s: Seq<u8>, k: nat, h: u64) -> bool {
    decoded(leaves(s), parsed(s).take(k as int)).contains_key(h)
}

/// The truth value of what handle `h` stands for after the first `k` records of a stream.
pub open spec fn worth(s: Seq<u8>, k: nat, h: u64, env: Assignment) -> bool {
    decoded(leaves(s), parsed(s).take(k as int))[h].eval(env)
}

/// The place of the record at `k` in a stream.
pub open spec fn place(k: nat) -> int {
    16 + 32 * k as int
}

/// Before the first record, the first handle of a stream stands for what is never true, and the
/// second for what always is; no other handle stands for anything.
pub proof fn law_header(s: Seq<u8>, h: u64, env: Assignment)
    ensures
        is_known(s, 0, h) <==> h == word_at(s, 0) || h == word_at(s, 8),
        h == word_at(s, 8) ==> worth(s, 0, h, env),
        h == word_at(s, 0) && h != word_at(s, 8) ==> !worth(s, 0, h, env),
{
    assert(parsed(s).take(0) =~= Seq::<Record>::empty());
}

/// A record is four numbers: a handle, a variable, and two handles that are known. From then on
/// its handle is worth what the last one is worth where the variable is true, and what the third
/// number's handle is worth where it is not. All other handles are worth what they were.
pub proof fn law_record(s: Seq<u8>, n: nat, k: nat, h: u64, env: Assignment)
    requires
        readable(s, n),
        place(k) + 32 <= s.len(),
    ensures
        is_known(s, k, word_at(s, place(k) + 16)),
        is_known(s, k, word_at(s, place(k) + 24)),
        h == word_at(s, place(k)) ==> is_known(s, k + 1, h),
        h == word_at(s, place(k)) ==> worth(s, k + 1, h, env) == if env(
            word_at(s, place(k) + 8) as nat,
        ) {
            worth(s, k, word_at(s, place(k) + 24), env)
        } else {
            worth(s, k, word_at(s, place(k) + 16), env)
        },
        h != word_at(s, place(k)) ==> (is_known(s, k + 1, h) <==> is_known(s, k, h)),
        h != word_at(s, place(k)) ==> worth(s, k + 1, h, env) == worth(s, k, h, env),
{
    assert(k < record_count(s));
    let r = parsed(s)[k as int];
    assert(r == record_at(s, k as int));
    lemma_sound_at(leaves(s), parsed(s), n, k as int);
    let before = decoded(leaves(s), parsed(s).take(k as int));
    let taken = parsed(s).take(k as int + 1);
    assert(taken.drop_last() =~= parsed(s).take(k as int));
    assert(taken.last() == r);
    assert(decoded(leaves(s), taken) == before.insert(r.id, grafted(before, r)));
    lemma_join_eval(r.level as nat, before[r.low], before[r.high], env);
}

proof fn lemma_join_eval(l: nat, low: Tree, high: Tree, env: Assignment)
    ensures
        Tree::join(l, low, high).eval(env) == if env(l) {
            high.eval(env)
        } else {
            low.eval(env)
        },
{
}

/// What is read from a stream is worth what the handle of its last whole record is worth after it.
/// The node that is returned has one reference more than it had. All nodes that were there are as
/// they were, and new nodes other than the one that is returned have no reference.
pub proof fn law_read(
    before: Diagram,
    after: Diagram,
    s: Seq<u8>,
    ret: Bdd,
    last: nat,
    env: Assignment,
)
    requires
        before.wf(),
        readable(s, before.num_vars()),
        imports(after, before, s, ret),
        place(last) + 32 <= s.len() < place(last) + 64,
    ensures
        after.eval(ret, env) == worth(s, last + 1, word_at(s, place(last)), env),
        forall|id: Bdd|
            id != ret && #[trigger] before.nodes.contains_key(id) ==> after.nodes.contains_key(id)
                && after.nodes[id] == before.nodes[id],
        forall|id: Bdd|
            id != ret && #[trigger] after.nodes.contains_key(id) && !before.nodes.contains_key(
                id,
            ) ==> after.nodes[id].refs == 0,
        before.nodes.contains_key(ret) ==> after.nodes[ret].refs == if before.nodes[ret].refs
            == usize::MAX {
            0
        } else {
            before.nodes[ret].refs + 1
        },
        !before.nodes.contains_key(ret) ==> after.nodes[ret].refs == 1,
        after.true_id == before.true_id,
        after.false_id == before.false_id,
        after.vars == before.vars,
        after.nvars == before.nvars,
        after.table_exp == before.table_exp,
        after.cache_exp == before.cache_exp,
{
    assert(record_count(s) == last + 1);
    let n = parsed(s).len();
    let r = parsed(s)[last as int];
    assert(r == record_at(s, last as int));
    let earlier = decoded(leaves(s), parsed(s).take(last as int));
    let taken = parsed(s).take(last as int + 1);
    assert(taken.drop_last() =~= parsed(s).take(last as int));
    assert(taken.last() == r);
    assert(decoded(leaves(s), taken) == earlier.insert(r.id, grafted(earlier, r)));
    assert(read_tree(s) == tree_at(leaves(s), parsed(s), last as int));
    assert(after.has_node(ret));
    after.lemma_tree_eval(ret, env);
    assert forall|id: Bdd| id != ret && #[trigger] before.nodes.contains_key(id) implies
        after.nodes.contains_key(id) && after.nodes[id] == before.nodes[id] by {
        assert(before.has_node(id));
        assert(after.has_node(id));
        assert(after.nodes[id].key() == before.nodes[id].key());
    }
    assert forall|id: Bdd| id != ret && #[trigger] after.nodes.contains_key(id)
        && !before.nodes.contains_key(id) implies after.nodes[id].refs == 0 by {
        assert(after.has_node(id));
    }
}

/// After reading, each record has a node that is worth what its handle is worth after it.
pub proof fn law_read_records(before: Diagram, after: Diagram, s: Seq<u8>, ret: Bdd, k: nat)
    requires
        before.wf(),
        readable(s, before.num_vars()),
        imports(after, before, s, ret),
        place(k) + 32 <= s.len(),
    ensures
        exists|id: Bdd| #[trigger]
            after.nodes.contains_key(id) && forall|env: Assignment| #[trigger]
                after.eval(id, env) == worth(s, k + 1, word_at(s, place(k)), env),
{
    assert(k < record_count(s));
    let j = k as int;
    let id = choose|id: Bdd| #[trigger]
        after.has_node(id) && after.tree(id) == tree_at(leaves(s), parsed(s), j);
    assert(after.has_node(id) && after.tree(id) == tree_at(leaves(s), parsed(s), j));
    lemma_record_worth(after, s, id, k);
    assert(after.nodes.contains_key(id));
}

/// A node with the tree of a record is worth what the record's handle is worth after it.
proof fn lemma_record_worth(after: Diagram, s: Seq<u8>, id: Bdd, k: nat)
    requires
        after.wf(),
        after.has_node(id),
        k < record_count(s),
        after.tree(id) == tree_at(leaves(s), parsed(s), k as int),
    ensures
        forall|env: Assignment| #[trigger]
            after.eval(id, env) == worth(s, k + 1, word_at(s, place(k)), env),
{
    let j = k as int;
    let r = parsed(s)[j];
    assert(r == record_at(s, j));
    let earlier = decoded(leaves(s), parsed(s).take(j));
    let taken = parsed(s).take(j + 1);
    assert(taken.drop_last() =~= parsed(s).take(j));
    assert(taken.last() == r);
    assert(decoded(leaves(s), taken) == earlier.insert(r.id, grafted(earlier, r)));
    assert forall|env: Assignment| #[trigger] after.eval(id, env) == worth(
        s,
        k + 1,
        word_at(s, place(k)),
        env,
    ) by {
        after.lemma_tree_eval(id, env);
    }
}

/// A node that reading has made is worth what the handle of one of the records is worth after it.
pub proof fn law_read_nodes(before: Diagram, after: Diagram, s: Seq<u8>, ret: Bdd, id: Bdd)
    requires
        before.wf(),
        readable(s, before.num_vars()),
        imports(after, before, s, ret),
        after.nodes.contains_key(id),
        !before.nodes.contains_key(id),
    ensures
        exists|k: nat|
            #![trigger place(k)]
            place(k) + 32 <= s.len() && forall|env: Assignment| #[trigger]
                after.eval(id, env) == worth(s, k + 1, word_at(s, place(k)), env),
{
    assert(after.has_node(id) && !before.has_node(id));
    let j = choose|j: int|
        0 <= j < parsed(s).len() && after.tree(id) == #[trigger] tree_at(leaves(s), parsed(s), j);
    let k = j as nat;
    assert(place(k) + 32 <= s.len());
    lemma_record_worth(after, s, id, k);
}

} // verus!
