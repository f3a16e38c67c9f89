//! The byte format of a serialized diagram: the handles of the two terminals, then one record for
//! each node, children first. A terminal by itself has a record too, in which it is its own child
//! on both sides. All numbers are eight bytes, the most significant first.

use vstd::prelude::*;

use crate::diagram::{Assignment, Diagram};
use crate::node::{Bdd, NULL};
use crate::tree::Tree;

verus! {

/// The number of bytes of the two handles that a stream starts with.
pub const HEADER_LEN: usize = 16;

/// The number of bytes of a record.
pub const RECORD_LEN: usize = 32;

/// The last `n` digits of `x` to the base 256, the most significant first.
pub open spec fn be_bytes(x: nat, n: nat) -> Seq<u8>
    decreases n,
{
    if n == 0 {
        Seq::empty()
    } else {
        be_bytes(x / 256, (n - 1) as nat).push((x % 256) as u8)
    }
}

/// The number that a row of digits to the base 256 stands for.
pub open spec fn be_value(s: Seq<u8>) -> nat
    decreases s.len(),
{
    if s.len() == 0 {
        0
    } else {
        be_value(s.drop_last()) * 256 + s.last() as nat
    }
}

/// The eight bytes of a number.
pub open spec fn word(x: u64) -> Seq<u8> {
    be_bytes(x as nat, 8)
}

/// The number in the eight bytes from place `i` on.
pub open spec fn word_at(s: Seq<u8>, i: int) -> u64 {
    be_value(s.subrange(i, i + 8)) as u64
}

/// What a stream says of a node.
pub struct Record {
    pub id: u64,
    pub level: u64,
    pub low: u64,
    pub high: u64,
}

impl Record {
    pub open spec fn bytes(self) -> Seq<u8> {
        word(self.id) + word(self.level) + word(self.low) + word(self.high)
    }
}

/// The record of a node.
pub open spec fn record_of(d: Diagram, id: Bdd) -> Record {
    Record {
        id: id as u64,
        level: d.nodes[id].level as u64,
        low: d.low(id) as u64,
        high: d.high(id) as u64,
    }
}

/// The record of a terminal that is serialized by itself: whatever variable 0 is, it is the result.
pub open spec fn terminal_record(id: Bdd) -> Record {
    Record { id: id as u64, level: 0, low: id as u64, high: id as u64 }
}

/// The records of a node and of what it reaches, children first. A node that is reached twice is
/// recorded twice.
pub open spec fn records(d: Diagram, id: Bdd) -> Seq<Record>
    decreases d.rank(id),
    when d.wf() && d.has_node(id)
{
    proof {
        if !d.terminal(id) {
            d.lemma_decides(id);
        }
    }
    if d.terminal(id) {
        Seq::empty()
    } else {
        records(d, d.low(id)) + records(d, d.high(id)) + seq![record_of(d, id)]
    }
}

/// The bytes of a row of records.
pub open spec fn record_bytes(s: Seq<Record>) -> Seq<u8>
    decreases s.len(),
{
    if s.len() == 0 {
        Seq::empty()
    } else {
        record_bytes(s.drop_last()) + s.last().bytes()
    }
}

/// The records that a node is serialized to.
pub open spec fn listing(d: Diagram, id: Bdd) -> Seq<Record> {
    if d.terminal(id) {
        seq![terminal_record(id)]
    } else {
        records(d, id)
    }
}

/// The bytes that a node is serialized to.
pub open spec fn stream(d: Diagram, id: Bdd) -> Seq<u8> {
    word(d.false_id as u64) + word(d.true_id as u64) + record_bytes(listing(d, id))
}

/// The number of whole records in a stream.
pub open spec fn record_count(s: Seq<u8>) -> nat {
    if s.len() < HEADER_LEN {
        0
    } else {
        ((s.len() - HEADER_LEN) / RECORD_LEN as int) as nat
    }
}

/// The record at place `k` of a stream.
pub open spec fn record_at(s: Seq<u8>, k: int) -> Record {
    let i = HEADER_LEN + k * RECORD_LEN;
    Record {
        id: word_at(s, i),
        level: word_at(s, i + 8),
        low: word_at(s, i + 16),
        high: word_at(s, i + 24),
    }
}

/// The records of a stream.
pub open spec fn parsed(s: Seq<u8>) -> Seq<Record> {
    Seq::new(record_count(s), |k: int| record_at(s, k))
}

/// The trees that the handles at the start of a stream stand for.
pub open spec fn leaves(s: Seq<u8>) -> Map<u64, Tree> {
    Map::empty().insert(word_at(s, 0), Tree::Leaf(false)).insert(word_at(s, 8), Tree::Leaf(true))
}

/// The tree that a record stands for, where the handles before it stand for `m`.
pub open spec fn grafted(m: Map<u64, Tree>, r: Record) -> Tree {
    Tree::join(r.level as nat, m[r.low], m[r.high])
}

/// What the handles stand for after the records in `s`.
pub open spec fn decoded(m: Map<u64, Tree>, s: Seq<Record>) -> Map<u64, Tree>
    decreases s.len(),
{
    if s.len() == 0 {
        m
    } else {
        let before = decoded(m, s.drop_last());
        before.insert(s.last().id, grafted(before, s.last()))
    }
}

/// A record makes sense after others: its children were recorded, and they stand for the same tree
/// or ask for later ones of `n` variables.
pub open spec fn sound_record(m: Map<u64, Tree>, r: Record, n: nat) -> bool {
    &&& m.contains_key(r.low)
    &&& m.contains_key(r.high)
    &&& m[r.low] == m[r.high] || {
        &&& r.level < n
        &&& r.level < m[r.low].top(n)
        &&& r.level < m[r.high].top(n)
    }
}

/// Each of the records in `s` makes sense after those before it.
pub open spec fn sound(m: Map<u64, Tree>, s: Seq<Record>, n: nat) -> bool
    decreases s.len(),
{
    s.len() == 0 || (sound(m, s.drop_last(), n) && sound_record(
        decoded(m, s.drop_last()),
        s.last(),
        n,
    ))
}

/// A stream has a record, and its records make sense for a diagram of `n` variables.
pub open spec fn readable(s: Seq<u8>, n: nat) -> bool {
    record_count(s) > 0 && sound(leaves(s), parsed(s), n)
}

/// The tree of the record at place `k` of `s`.
pub open spec fn tree_at(m: Map<u64, Tree>, s: Seq<Record>, k: int) -> Tree {
    grafted(decoded(m, s.take(k)), s[k])
}

/// The tree that a stream stands for: that of its last record.
pub open spec fn read_tree(s: Seq<u8>) -> Tree {
    tree_at(leaves(s), parsed(s), parsed(s).len() - 1)
}

/// The number of references to a node of `d`, none for other handles.
pub open spec fn refs_in(d: Diagram, id: Bdd) -> usize {
    if d.has_node(id) {
        d.nodes[id].refs
    } else {
        0
    }
}

/// What reading a stream makes of a diagram. Each record has a node that stands for it, and there
/// are no other new nodes. The result has one reference more; the other nodes have as many as they
/// had, and none if they are new.
pub open spec fn imports(after: Diagram, before: Diagram, s: Seq<u8>, ret: Bdd) -> bool {
    &&& after.wf()
    &&& after.extends(before)
    &&& after.table_exp == before.table_exp
    &&& after.cache_exp == before.cache_exp
    &&& after.has_node(ret)
    &&& after.tree(ret) == read_tree(s)
    &&& forall|id: Bdd| #[trigger]
        after.has_node(id) && !before.has_node(id) ==> exists|k: int|
            0 <= k < parsed(s).len() && after.tree(id) == #[trigger] tree_at(
                leaves(s),
                parsed(s),
                k,
            )
    &&& forall|k: int|
        0 <= k < parsed(s).len() ==> exists|id: Bdd| #[trigger]
            after.has_node(id) && after.tree(id) == #[trigger] tree_at(leaves(s), parsed(s), k)
    &&& forall|id: Bdd| #[trigger]
        after.has_node(id) ==> after.nodes[id].refs == if id == ret {
            refs_in(before, id).wrapping_add(1)
        } else {
            refs_in(before, id)
        }
}

// Numbers and their bytes.

pub open spec fn pow256(n: nat) -> nat
    decreases n,
{
    if n == 0 {
        1
    } else {
        256 * pow256((n - 1) as nat)
    }
}

pub proof fn lemma_be_bytes(x: nat, n: nat)
    requires
        x < pow256(n),
    ensures
        be_bytes(x, n).len() == n,
        be_value(be_bytes(x, n)) == x,
    decreases n,
{
    if n > 0 {
        assert(x / 256 < pow256((n - 1) as nat)) by (nonlinear_arith)
            requires
                x < 256 * pow256((n - 1) as nat),
        ;
        lemma_be_bytes(x / 256, (n - 1) as nat);
        assert(be_bytes(x, n).drop_last() =~= be_bytes(x / 256, (n - 1) as nat));
    }
}

pub proof fn lemma_be_value(s: Seq<u8>)
    ensures
        be_value(s) < pow256(s.len()),
    decreases s.len(),
{
    if s.len() > 0 {
        lemma_be_value(s.drop_last());
    }
}

pub proof fn lemma_pow256_8()
    ensures
        pow256(8) == 0x1_0000_0000_0000_0000,
{
    reveal_with_fuel(pow256, 9);
}

/// A number is read back from its bytes.
pub proof fn lemma_word(x: u64)
    ensures
        word(x).len() == 8,
        be_value(word(x)) == x,
{
    lemma_pow256_8();
    lemma_be_bytes(x as nat, 8);
}

/// Appends the last `n` digits of `x` to the base 256.
fn push_be(buf: &mut Vec<u8>, x: u64, n: usize)
    ensures
        final(buf)@ == old(buf)@ + be_bytes(x as nat, n as nat),
    decreases n,
{
    if n == 0 {
        assert(buf@ =~= old(buf)@ + be_bytes(x as nat, n as nat));
    } else {
        push_be(buf, x / 256, n - 1);
        buf.push((x % 256) as u8);
        assert(buf@ =~= old(buf)@ + be_bytes(x as nat, n as nat));
    }
}

/// Appends the eight bytes of a number.
pub fn push_word(buf: &mut Vec<u8>, x: u64)
    ensures
        final(buf)@ == old(buf)@ + word(x),
{
    push_be(buf, x, 8);
}

/// Reads the number in the eight bytes from place `i` on.
pub fn read_word(s: &[u8], i: usize) -> (r: u64)
    requires
        i + 8 <= s@.len(),
    ensures
        r == word_at(s@, i as int),
{
    let mut r: u64 = 0;
    let mut k: usize = 0;
    let len: usize = s.len();
    let ghost w = s@.subrange(i as int, i + 8);
    while k < 8
        invariant
            k <= 8,
            len == s@.len(),
            i + 8 <= len,
            w == s@.subrange(i as int, i + 8),
            r == be_value(w.take(k as int)),
        decreases 8 - k,
    {
        proof {
            lemma_be_value(w.take(k as int));
            lemma_be_value(w.take(k + 1));
            assert(w.take(k + 1).drop_last() =~= w.take(k as int));
            lemma_pow256_8();
            lemma_pow256_mono((k + 1) as nat, 8);
        }
        r = r * 256 + s[i + k] as u64;
        k = k + 1;
    }
    assert(w.take(8) =~= w);
    r
}

proof fn lemma_pow256_mono(a: nat, b: nat)
    requires
        a <= b,
    ensures
        pow256(a) <= pow256(b),
    decreases b,
{
    if a < b {
        lemma_pow256_mono(a, (b - 1) as nat);
    }
}

// Reading back what was written.

pub proof fn lemma_record_bytes_more(a: Seq<Record>, b: Seq<Record>)
    ensures
        record_bytes(a + b) == record_bytes(a) + record_bytes(b),
    decreases b.len(),
{
    if b.len() == 0 {
        assert(a + b =~= a);
        assert(record_bytes(a + b) =~= record_bytes(a) + record_bytes(b));
    } else {
        assert((a + b).drop_last() =~= a + b.drop_last());
        lemma_record_bytes_more(a, b.drop_last());
        assert(record_bytes(a + b) =~= record_bytes(a) + record_bytes(b));
    }
}

/// The bytes of a row of records hold each record at its place.
proof fn lemma_record_bytes(s: Seq<Record>, k: int)
    ensures
        record_bytes(s).len() == RECORD_LEN * s.len(),
        0 <= k < s.len() ==> record_bytes(s).subrange(RECORD_LEN * k, RECORD_LEN * k + RECORD_LEN)
            == s[k].bytes(),
    decreases s.len(),
{
    if s.len() > 0 {
        let last = s.last();
        lemma_word(last.id);
        lemma_word(last.level);
        lemma_word(last.low);
        lemma_word(last.high);
        let init = s.drop_last();
        lemma_record_bytes(init, k);
        if 0 <= k < init.len() {
            assert(record_bytes(s).subrange(RECORD_LEN * k, RECORD_LEN * k + RECORD_LEN)
                =~= record_bytes(init).subrange(RECORD_LEN * k, RECORD_LEN * k + RECORD_LEN));
        } else if k == init.len() {
            assert(record_bytes(s).subrange(RECORD_LEN * k, RECORD_LEN * k + RECORD_LEN)
                =~= last.bytes());
        }
    }
}

/// The words of a record are read back from its bytes.
proof fn lemma_record_words(s: Seq<u8>, i: int, r: Record)
    requires
        0 <= i,
        i + RECORD_LEN <= s.len(),
        s.subrange(i, i + RECORD_LEN) == r.bytes(),
    ensures
        word_at(s, i) == r.id,
        word_at(s, i + 8) == r.level,
        word_at(s, i + 16) == r.low,
        word_at(s, i + 24) == r.high,
{
    let b = s.subrange(i, i + RECORD_LEN);
    lemma_word(r.id);
    lemma_word(r.level);
    lemma_word(r.low);
    lemma_word(r.high);
    assert(s.subrange(i, i + 8) =~= b.subrange(0, 8));
    assert(s.subrange(i + 8, i + 16) =~= b.subrange(8, 16));
    assert(s.subrange(i + 16, i + 24) =~= b.subrange(16, 24));
    assert(s.subrange(i + 24, i + 32) =~= b.subrange(24, 32));
    assert(b.subrange(0, 8) =~= word(r.id));
    assert(b.subrange(8, 16) =~= word(r.level));
    assert(b.subrange(16, 24) =~= word(r.low));
    assert(b.subrange(24, 32) =~= word(r.high));
}

/// The handles and the records are read back from the bytes of a stream.
pub proof fn lemma_parsed(f: u64, t: u64, s: Seq<Record>)
    ensures
        ({
            let bytes = word(f) + word(t) + record_bytes(s);
            &&& bytes.len() == HEADER_LEN + RECORD_LEN * s.len()
            &&& word_at(bytes, 0) == f
            &&& word_at(bytes, 8) == t
            &&& parsed(bytes) == s
        }),
{
    let bytes = word(f) + word(t) + record_bytes(s);
    lemma_word(f);
    lemma_word(t);
    lemma_record_bytes(s, 0);
    assert(bytes.subrange(0, 8) =~= word(f));
    assert(bytes.subrange(8, 16) =~= word(t));
    assert(record_count(bytes) == s.len());
    assert forall|k: int| 0 <= k < s.len() implies #[trigger] record_at(bytes, k) == s[k] by {
        lemma_record_bytes(s, k);
        let i = HEADER_LEN + k * RECORD_LEN;
        assert(bytes.subrange(i, i + RECORD_LEN) =~= record_bytes(s).subrange(
            RECORD_LEN * k,
            RECORD_LEN * k + RECORD_LEN,
        ));
        lemma_record_words(bytes, i, s[k]);
    }
    assert(parsed(bytes) =~= s);
}

/// Reading more records goes on from where the earlier ones ended.
pub proof fn lemma_decoded_more(m: Map<u64, Tree>, a: Seq<Record>, b: Seq<Record>, n: nat)
    ensures
        decoded(m, a + b) == decoded(decoded(m, a), b),
        sound(m, a + b, n) <==> sound(m, a, n) && sound(decoded(m, a), b, n),
    decreases b.len(),
{
    if b.len() == 0 {
        assert(a + b =~= a);
    } else {
        assert((a + b).drop_last() =~= a + b.drop_last());
        assert((a + b).last() == b.last());
        lemma_decoded_more(m, a, b.drop_last(), n);
    }
}

/// Each record of a sound row makes sense after those before it.
pub proof fn lemma_sound_at(m: Map<u64, Tree>, s: Seq<Record>, n: nat, k: int)
    requires
        sound(m, s, n),
        0 <= k < s.len(),
    ensures
        sound_record(decoded(m, s.take(k)), s[k], n),
    decreases s.len(),
{
    assert(s.take(s.len() - 1) =~= s.drop_last());
    if k < s.len() - 1 {
        lemma_sound_at(m, s.drop_last(), n, k);
        assert(s.drop_last().take(k) =~= s.take(k));
    }
}

/// Each handle in `m` is that of a node of `d` and stands for its tree, and those of the terminals
/// are in it.
pub open spec fn faithful(d: Diagram, m: Map<u64, Tree>) -> bool {
    &&& m.contains_key(d.true_id as u64)
    &&& m.contains_key(d.false_id as u64)
    &&& forall|k: u64| #[trigger]
        m.contains_key(k) ==> k <= usize::MAX && d.has_node(k as usize) && m[k] == d.tree(
            k as usize,
        )
}

/// The records of a node make sense, and its handle then stands for its tree.
proof fn lemma_records(d: Diagram, id: Bdd, m: Map<u64, Tree>)
    requires
        d.wf(),
        d.has_node(id),
        faithful(d, m),
    ensures
        sound(m, records(d, id), d.num_vars()),
        faithful(d, decoded(m, records(d, id))),
        decoded(m, records(d, id)).contains_key(id as u64),
        forall|k: u64| #[trigger]
            m.contains_key(k) ==> decoded(m, records(d, id)).contains_key(k),
        !d.terminal(id) ==> records(d, id).len() > 0 && records(d, id).last() == record_of(d, id),
    decreases d.rank(id),
{
    if !d.terminal(id) {
        d.lemma_decides(id);
        let n = d.num_vars();
        let (low, high) = (d.low(id), d.high(id));
        let (a, b) = (records(d, low), records(d, high));
        let r = record_of(d, id);
        let m1 = decoded(m, a);
        let m2 = decoded(m1, b);
        lemma_records(d, low, m);
        lemma_records(d, high, m1);
        lemma_decoded_more(m, a, b, n);
        lemma_decoded_more(m, a + b, seq![r], n);
        assert(m2.contains_key(low as u64) && m2.contains_key(high as u64));
        d.lemma_tree_top(low);
        d.lemma_tree_top(high);
        assert(seq![r].drop_last() =~= Seq::<Record>::empty());
        assert(seq![r].last() == r);
        if d.tree(low) == d.tree(high) {
            d.lemma_tree_injective(low, high);
        }
        assert(grafted(m2, r) == d.tree(id));
        let m3 = decoded(m, a + b + seq![r]);
        assert(decoded(m2, Seq::<Record>::empty()) == m2);
        assert(m3 == m2.insert(id as u64, d.tree(id)));
        assert(sound(m2, Seq::<Record>::empty(), n));
        assert(sound(m2, seq![r], n));
        assert(records(d, id).last() == r);
    }
}

/// What is serialized can be read back, and stands for the same tree, in any diagram of as many
/// variables.
pub proof fn law_stream(d: Diagram, id: Bdd)
    requires
        d.wf(),
        d.has_node(id),
    ensures
        readable(stream(d, id), d.num_vars()),
        read_tree(stream(d, id)) == d.tree(id),
{
    let s = listing(d, id);
    let bytes = stream(d, id);
    lemma_parsed(d.false_id as u64, d.true_id as u64, s);
    let m = leaves(bytes);
    assert(d.is_vertex(d.true_id, 1, NULL, NULL));
    assert(d.is_vertex(d.false_id, 0, NULL, NULL));
    assert(faithful(d, m));
    assert(s.take(s.len() - 1) =~= s.drop_last());
    if d.terminal(id) {
        assert(s.drop_last() =~= Seq::<Record>::empty());
        assert(decoded(m, Seq::<Record>::empty()) == m);
        assert(m.contains_key(id as u64));
        assert(sound(m, Seq::<Record>::empty(), d.num_vars()));
    } else {
        lemma_records(d, id, m);
    }
    assert(decoded(m, s).contains_key(id as u64));
    assert(decoded(m, s)[id as u64] == d.tree(id));
}

/// A node that was serialized and read back stands for the same function; in the same diagram it
/// is the same node.
pub proof fn law_round_trip(d: Diagram, id: Bdd, e: Diagram, ret: Bdd, env: Assignment)
    requires
        d.wf(),
        d.has_node(id),
        e.wf(),
        e.has_node(ret),
        e.tree(ret) == read_tree(stream(d, id)),
    ensures
        e.eval(ret, env) == d.eval(id, env),
        e.extends(d) ==> ret == id,
{
    law_stream(d, id);
    d.lemma_tree_eval(id, env);
    e.lemma_tree_eval(ret, env);
    if e.extends(d) {
        e.lemma_tree_extends(d, id);
        e.lemma_tree_injective(ret, id);
    }
}

} // verus!
