//! Writing diagrams to bytes and reading them back.

use ahash::AHashMap;
use vstd::prelude::*;

use super::{Manager, SLOT};
use crate::codec::{
    decoded, grafted, imports, leaves, lemma_record_bytes_more, lemma_sound_at, parsed, push_word,
    read_word, readable, record_at, record_bytes, record_count, record_of, records, refs_in, stream,
    terminal_record, tree_at, Record, HEADER_LEN, RECORD_LEN,
};
use crate::diagram::Diagram;
use crate::idmap::{contents, empty_map, find, put};
use crate::node::{Bdd, NULL};
use crate::readable::is_readable;
use crate::set::NodeSet;
use crate::{BddIO, BddOp, DecodeError};

verus! {

impl Manager {
    /// Appends the record of a terminal to `writer`.
    fn write_terminal(&self, bdd: Bdd, writer: &mut Vec<u8>)
        ensures
            final(writer)@ == old(writer)@ + record_bytes(seq![terminal_record(bdd)]),
    {
        let ghost before = writer@;
        push_word(writer, bdd as u64);
        push_word(writer, 0);
        push_word(writer, bdd as u64);
        push_word(writer, bdd as u64);
        proof {
            let r = terminal_record(bdd);
            assert(seq![r].drop_last() =~= Seq::<Record>::empty());
            assert(seq![r].last() == r);
            assert(record_bytes(Seq::<Record>::empty()) =~= Seq::<u8>::empty());
            assert(writer@ =~= before + record_bytes(seq![r]));
        }
    }

    /// Appends the records of a diagram to `writer`.
    fn write_buffer_rec(&self, bdd: Bdd, writer: &mut Vec<u8>)
        requires
            self.inner_wf(),
            self.model().has_node(bdd),
        ensures
            final(writer)@ == old(writer)@ + record_bytes(records(self.model(), bdd)),
        decreases self.model().rank(bdd),
    {
        let ghost d = self.model();
        let ghost before = writer@;
        if bdd == self.true_id || bdd == self.false_id {
            assert(writer@ =~= before + record_bytes(records(d, bdd)));
            return;
        }
        proof {
            d.lemma_decides(bdd);
        }
        let (level, low, high) = self.set.vertex(bdd);
        self.write_buffer_rec(low, writer);
        self.write_buffer_rec(high, writer);
        push_word(writer, bdd as u64);
        push_word(writer, level as u64);
        push_word(writer, low as u64);
        push_word(writer, high as u64);
        proof {
            let (a, b) = (records(d, low), records(d, high));
            let r = record_of(d, bdd);
            lemma_record_bytes_more(a, b);
            assert((a + b + seq![r]).drop_last() =~= a + b);
            assert(writer@ =~= before + record_bytes(records(d, bdd)));
        }
    }
}

/// The records of `s` up to those of `rets` are read: `m` maps the handles to the nodes of `d` that
/// stand for their trees, and no reference has changed.
spec fn reads(d: Diagram, d0: Diagram, m: Map<u64, usize>, s: Seq<u8>, rets: Seq<Bdd>) -> bool {
    let trees = decoded(leaves(s), parsed(s).take(rets.len() as int));
    &&& d.extends(d0)
    &&& d.table_exp == d0.table_exp
    &&& d.cache_exp == d0.cache_exp
    &&& m.dom() == trees.dom()
    &&& forall|k: u64| #[trigger]
        m.contains_key(k) ==> d.has_node(m[k]) && d.tree(m[k]) == trees[k]
    &&& forall|j: int|
        #![trigger rets[j]]
        0 <= j < rets.len() ==> d.has_node(rets[j]) && d.tree(rets[j]) == tree_at(
            leaves(s),
            parsed(s),
            j,
        )
    &&& forall|id: Bdd| #[trigger]
        d.has_node(id) ==> (d0.has_node(id) || rets.contains(id)) && d.nodes[id].refs == refs_in(
            d0,
            id,
        )
}

/// One more record is read.
proof fn lemma_reads(
    d2: Diagram,
    d1: Diagram,
    d0: Diagram,
    m1: Map<u64, usize>,
    s: Seq<u8>,
    rets: Seq<Bdd>,
    ret: Bdd,
)
    requires
        d0.wf(),
        d1.wf(),
        reads(d1, d0, m1, s, rets),
        rets.len() < parsed(s).len(),
        d2.grown(d1, ret),
        forall|id: Bdd| #[trigger] d2.has_node(id) ==> id == ret || d1.has_node(id),
        d2.tree(ret) == tree_at(leaves(s), parsed(s), rets.len() as int),
    ensures
        reads(
            d2,
            d0,
            m1.insert(parsed(s)[rets.len() as int].id, ret),
            s,
            rets.push(ret),
        ),
{
    let k = rets.len() as int;
    let r = parsed(s)[k];
    let trees = decoded(leaves(s), parsed(s).take(k));
    let m2 = m1.insert(r.id, ret);
    let rets2 = rets.push(ret);
    d2.lemma_extends_trans(d1, d0);
    let taken = parsed(s).take(k + 1);
    assert(taken.drop_last() =~= parsed(s).take(k));
    assert(taken.last() == r);
    let trees2 = decoded(leaves(s), taken);
    assert(trees2 == trees.insert(r.id, grafted(trees, r)));
    assert(m2.dom() =~= trees2.dom());
    assert forall|x: u64| #[trigger] m2.contains_key(x) implies d2.has_node(m2[x]) && d2.tree(m2[x])
        == trees2[x] by {
        if x != r.id {
            assert(m1.contains_key(x));
            d2.lemma_tree_extends(d1, m1[x]);
        }
    }
    assert forall|j: int| #![trigger rets2[j]] 0 <= j < rets2.len() implies d2.has_node(rets2[j])
        && d2.tree(rets2[j]) == tree_at(leaves(s), parsed(s), j) by {
        if j < k {
            assert(rets2[j] == rets[j]);
            d2.lemma_tree_extends(d1, rets[j]);
        }
    }
    assert forall|id: Bdd| #[trigger] d2.has_node(id) implies (d0.has_node(id) || rets2.contains(
        id,
    )) && d2.nodes[id].refs == refs_in(d0, id) by {
        assert(rets2[k] == ret);
        if d1.has_node(id) {
            if rets.contains(id) {
                let j = choose|j: int| 0 <= j < rets.len() && rets[j] == id;
                assert(rets2[j] == id);
            }
        } else {
            assert(id == ret);
            assert(!d0.has_node(id));
        }
    }
}

impl Manager {
    /// Makes the node of the next record.
    fn read_record(
        &mut self,
        map: &mut AHashMap<u64, usize>,
        bytes: &[u8],
        k: usize,
        Ghost(d0): Ghost<Diagram>,
        Ghost(rets): Ghost<Seq<Bdd>>,
    ) -> (ret: Bdd)
        requires
            d0.wf(),
            k == rets.len(),
            k < record_count(bytes@),
            readable(bytes@, d0.num_vars()),
            old(self).inner_wf(),
            reads(old(self).model(), d0, contents(*old(map)), bytes@, rets),
        ensures
            final(self).inner_wf(),
            reads(final(self).model(), d0, contents(*final(map)), bytes@, rets.push(ret)),
            final(self).same_frame(old(self)),
            final(self).same_caches(old(self)),
    {
        let ghost s = bytes@;
        let ghost d1 = self.model();
        let ghost m1 = contents(*map);
        let ghost trees = decoded(leaves(s), parsed(s).take(k as int));
        let ghost r = parsed(s)[k as int];
        let len: usize = bytes.len();
        let i: usize = HEADER_LEN + k * RECORD_LEN;
        let bdd: u64 = read_word(bytes, i);
        let level: u64 = read_word(bytes, i + 8);
        let low: u64 = read_word(bytes, i + 16);
        let high: u64 = read_word(bytes, i + 24);
        proof {
            assert(r == record_at(s, k as int));
            lemma_sound_at(leaves(s), parsed(s), d0.num_vars(), k as int);
            assert(m1.dom().contains(low) && m1.dom().contains(high));
            assert(m1.contains_key(low) && m1.contains_key(high));
            d1.lemma_tree_top(m1[low]);
            d1.lemma_tree_top(m1[high]);
            if trees[low] == trees[high] {
                d1.lemma_tree_injective(m1[low], m1[high]);
            }
        }
        let mut mapped_low: Bdd = NULL;
        if let Some(id) = find(map, low) {
            mapped_low = id;
        }
        let mut mapped_high: Bdd = NULL;
        if let Some(id) = find(map, high) {
            mapped_high = id;
        }
        let ret: Bdd = self.make_node(level as usize, mapped_low, mapped_high);
        let ghost d2 = self.model();
        proof {
            assert(d1.has_node(mapped_low) && d1.has_node(mapped_high));
            d2.lemma_tree_makes(level as nat, mapped_low, mapped_high, ret);
            d2.lemma_tree_extends(d1, mapped_low);
            d2.lemma_tree_extends(d1, mapped_high);
            lemma_reads(d2, d1, d0, m1, s, rets, ret);
        }
        put(map, bdd, ret);
        ret
    }
}

/// All records read and the result referenced, the stream is imported.
proof fn lemma_imports(d1: Diagram, d0: Diagram, m: Map<u64, usize>, s: Seq<u8>, rets: Seq<Bdd>)
    requires
        d0.wf(),
        d1.wf(),
        reads(d1, d0, m, s, rets),
        rets.len() > 0,
        rets.len() == parsed(s).len(),
    ensures
        imports(d1.referenced(rets.last()), d0, s, rets.last()),
{
    let n = parsed(s).len();
    let ret = rets.last();
    let d2 = d1.referenced(ret);
    assert(rets[n - 1] == ret);
    assert(d1.has_node(ret));
    d1.lemma_with_refs(ret, d1.nodes[ret].refs.wrapping_add(1));
    d2.lemma_extends_trans(d1, d0);
    assert forall|id: Bdd| #[trigger] d2.has_node(id) implies d1.has_node(id) && d2.tree(id)
        == d1.tree(id) by {
        assert(d1.has_node(id));
        d2.lemma_tree_extends(d1, id);
    }
    assert(d2.has_node(ret));
    assert forall|id: Bdd| #[trigger] d2.has_node(id) && !d0.has_node(id) implies exists|k: int|
        0 <= k < n && d2.tree(id) == #[trigger] tree_at(leaves(s), parsed(s), k) by {
        assert(d1.has_node(id));
        let j = choose|j: int| 0 <= j < rets.len() && rets[j] == id;
        assert(d1.tree(rets[j]) == tree_at(leaves(s), parsed(s), j));
    }
    assert forall|k: int| 0 <= k < n implies exists|id: Bdd| #[trigger]
        d2.has_node(id) && d2.tree(id) == #[trigger] tree_at(leaves(s), parsed(s), k) by {
        assert(d1.has_node(rets[k]));
        assert(d2.has_node(rets[k]));
    }
}

impl Manager {
    /// Whether [`BddIO::deserialize`] can be called with these bytes.
    pub fn accepts(&self, bytes: &[u8]) -> (r: bool)
        requires
            self.wf(),
        ensures
            r == (bytes@.len() < HEADER_LEN || readable(bytes@, self.diagram().num_vars())),
    {
        bytes.len() < HEADER_LEN || is_readable(bytes, self.num_vars)
    }
}

impl BddIO for Manager {
    fn serialize(&self, bdd: Bdd, writer: &mut Vec<u8>) {
        let ghost before = writer@;
        push_word(writer, self.false_id as u64);
        push_word(writer, self.true_id as u64);
        if bdd == self.true_id || bdd == self.false_id {
            self.write_terminal(bdd, writer);
        } else {
            self.write_buffer_rec(bdd, writer);
        }
        assert(writer@ =~= before + stream(self.diagram(), bdd));
    }

    fn deserialize(&mut self, bytes: &[u8]) -> (r: Result<Bdd, DecodeError>)
        ensures
            final(self).lock_stats() == old(self).lock_stats().acquired(),
            final(self).same_cached(old(self)),
    {
        let ghost d0 = self.model();
        let ghost s = bytes@;
        let ghost lock0 = self.rw_lock;
        proof {
            self.rw_lock.lemma_slots();
        }
        self.rw_lock.read_lock(SLOT);
        assert(self.rw_lock.state().left(SLOT as int).slots =~= lock0.state().slots);
        assert(self.entered());
        let len: usize = bytes.len();
        if len < HEADER_LEN {
            self.exit_op();
            return Err(DecodeError::UnexpectedEof);
        }
        let mut map: AHashMap<u64, usize> = empty_map();
        let false_id: u64 = read_word(bytes, 0);
        let true_id: u64 = read_word(bytes, 8);
        put(&mut map, false_id, self.false_id);
        put(&mut map, true_id, self.true_id);
        let count: usize = (len - HEADER_LEN) / RECORD_LEN;
        let mut ret: Bdd = NULL;
        let mut k: usize = 0;
        let ghost mut rets: Seq<Bdd> = Seq::empty();
        let ghost before = *self;
        proof {
            assert(d0.is_vertex(d0.true_id, 1, NULL, NULL));
            assert(d0.is_vertex(d0.false_id, 0, NULL, NULL));
            assert(parsed(s).take(0) =~= Seq::<Record>::empty());
            assert(contents(map).dom() =~= leaves(s).dom());
            assert(reads(self.model(), d0, contents(map), s, rets));
        }
        while k < count
            invariant
                k <= count,
                s == bytes@,
                count == record_count(s),
                count == parsed(s).len(),
                readable(s, d0.num_vars()),
                d0.wf(),
                self.inner_wf(),
                self.same_frame(&before),
                self.same_caches(&before),
                k == rets.len(),
                k > 0 ==> ret == rets.last(),
                reads(self.model(), d0, contents(map), s, rets),
            decreases count - k,
        {
            ret = self.read_record(&mut map, bytes, k, Ghost(d0), Ghost(rets));
            proof {
                rets = rets.push(ret);
            }
            k = k + 1;
        }
        let ghost d1 = self.model();
        let ghost m = contents(map);
        proof {
            assert(rets[count - 1] == ret);
            assert(d1.has_node(ret));
            lemma_imports(d1, d0, m, s, rets);
        }
        self.ref_inner(ret);
        self.exit_op();
        Ok(ret)
    }
}

} // verus!
