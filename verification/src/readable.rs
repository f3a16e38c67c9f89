//! Whether a stream can be read.

use ahash::AHashMap;
use vstd::prelude::*;

use crate::codec::{
    decoded, grafted, leaves, lemma_sound_at, parsed, read_word, readable, record_at, record_count,
    sound, Record, HEADER_LEN, RECORD_LEN,
};
use crate::idmap::{contents, empty_map, find, put};
use crate::tree::Tree;

verus! {

/// A row of trees without repetition. The first two are the leaves; of each other one, its
/// variable and the places of its two subtrees are kept. Two empty places stand for the leaves.
struct Grove {
    branches: Vec<(u64, usize, usize)>,
    trees: Ghost<Seq<Tree>>,
}

impl Grove {
    spec fn wf(&self) -> bool {
        let b = self.branches@;
        let t = self.trees@;
        &&& t.len() == b.len()
        &&& t.len() >= 2
        &&& t.no_duplicates()
        &&& t[0] == Tree::Leaf(false)
        &&& t[1] == Tree::Leaf(true)
        &&& forall|i: int|
            #![trigger b[i]]
            2 <= i < b.len() ==> b[i].1 < t.len() && b[i].2 < t.len() && t[i] == Tree::Branch(
                b[i].0 as nat,
                Box::new(t[b[i].1 as int]),
                Box::new(t[b[i].2 as int]),
            )
    }

    /// The two leaves.
    fn new() -> (r: Self)
        ensures
            r.wf(),
    {
        let ghost trees = seq![Tree::Leaf(false), Tree::Leaf(true)];
        let mut branches: Vec<(u64, usize, usize)> = Vec::new();
        branches.push((0, 0, 0));
        branches.push((0, 0, 0));
        Grove { branches, trees: Ghost(trees) }
    }

    /// The first of `n` variables that a tree asks for.
    fn top(&self, i: usize, n: u64) -> (r: u64)
        requires
            self.wf(),
            i < self.trees@.len(),
        ensures
            r == self.trees@[i as int].top(n as nat),
    {
        if i < 2 {
            n
        } else {
            let b = self.branches[i];
            b.0
        }
    }

    /// Finds the tree that asks for `level` before the trees at `low` and `high`, or adds it.
    fn graft(&mut self, level: u64, low: usize, high: usize) -> (r: usize)
        requires
            old(self).wf(),
            low < old(self).trees@.len(),
            high < old(self).trees@.len(),
        ensures
            final(self).wf(),
            old(self).trees@.is_prefix_of(final(self).trees@),
            r < final(self).trees@.len(),
            final(self).trees@[r as int] == Tree::join(
                level as nat,
                old(self).trees@[low as int],
                old(self).trees@[high as int],
            ),
    {
        if low == high {
            return low;
        }
        let ghost t = self.trees@;
        let len: usize = self.branches.len();
        let mut i: usize = 2;
        while i < len
            invariant
                *self == *old(self),
                self.wf(),
                t == self.trees@,
                low != high,
                low < t.len(),
                high < t.len(),
                len == self.branches@.len(),
                2 <= i <= len,
                forall|k: int|
                    #![trigger self.branches@[k]]
                    2 <= k < i ==> self.branches@[k] != (level, low, high),
            decreases len - i,
        {
            let b = self.branches[i];
            if b.0 == level && b.1 == low && b.2 == high {
                assert(self.branches@[i as int] == b);
                assert(t[low as int] != t[high as int]);
                return i;
            }
            i = i + 1;
        }
        let ghost fresh = Tree::Branch(
            level as nat,
            Box::new(t[low as int]),
            Box::new(t[high as int]),
        );
        proof {
            assert(t[low as int] != t[high as int]);
            assert forall|k: int| 0 <= k < t.len() implies #[trigger] t[k] != fresh by {
                if k >= 2 {
                    let b = self.branches@[k];
                    if t[k] == fresh {
                        assert(t[b.1 as int] == t[low as int]);
                        assert(t[b.2 as int] == t[high as int]);
                        assert(b == (level, low, high));
                    }
                }
            }
        }
        self.branches.push((level, low, high));
        proof {
            self.trees@ = t.push(fresh);
            let b = self.branches@;
            assert forall|k: int| #![trigger b[k]] 2 <= k < b.len() implies b[k].1
                < self.trees@.len() && b[k].2 < self.trees@.len() && self.trees@[k] == Tree::Branch(
                b[k].0 as nat,
                Box::new(self.trees@[b[k].1 as int]),
                Box::new(self.trees@[b[k].2 as int]),
            ) by {
                if k < len {
                    assert(b[k] == old(self).branches@[k]);
                }
            }
        }
        len
    }
}

/// Whether a stream has a record and its records make sense for `num_vars` variables.
pub fn is_readable(bytes: &[u8], num_vars: usize) -> (r: bool)
    ensures
        r == readable(bytes@, num_vars as nat),
{
    let ghost s = bytes@;
    let ghost n = num_vars as nat;
    let len: usize = bytes.len();
    if len < HEADER_LEN + RECORD_LEN {
        return false;
    }
    let count: usize = (len - HEADER_LEN) / RECORD_LEN;
    let mut grove = Grove::new();
    let mut map: AHashMap<u64, usize> = empty_map();
    put(&mut map, read_word(bytes, 0), 0);
    put(&mut map, read_word(bytes, 8), 1);
    let mut k: usize = 0;
    proof {
        assert(parsed(s).take(0) =~= Seq::<Record>::empty());
        assert(contents(map).dom() =~= leaves(s).dom());
    }
    while k < count
        invariant
            k <= count,
            s == bytes@,
            len == s.len(),
            n == num_vars,
            count == record_count(s),
            count > 0,
            count == parsed(s).len(),
            grove.wf(),
            sound(leaves(s), parsed(s).take(k as int), n),
            known(contents(map), decoded(leaves(s), parsed(s).take(k as int)), grove.trees@),
        decreases count - k,
    {
        let ghost trees = decoded(leaves(s), parsed(s).take(k as int));
        let ghost r = parsed(s)[k as int];
        let ghost m = contents(map);
        let ghost t = grove.trees@;
        let i: usize = HEADER_LEN + k * RECORD_LEN;
        let bdd: u64 = read_word(bytes, i);
        let level: u64 = read_word(bytes, i + 8);
        let low: u64 = read_word(bytes, i + 16);
        let high: u64 = read_word(bytes, i + 24);
        proof {
            assert(r == record_at(s, k as int));
            assert(m.dom().contains(low) == trees.dom().contains(low));
            assert(m.dom().contains(high) == trees.dom().contains(high));
            if sound(leaves(s), parsed(s), n) {
                lemma_sound_at(leaves(s), parsed(s), n, k as int);
            }
        }
        match (find(&map, low), find(&map, high)) {
            (Some(low_at), Some(high_at)) => {
                assert(m.contains_key(low) && m.contains_key(high));
                if low_at != high_at {
                    assert(t[low_at as int] != t[high_at as int]);
                    if level >= num_vars as u64 || level >= grove.top(low_at, num_vars as u64)
                        || level >= grove.top(high_at, num_vars as u64) {
                        return false;
                    }
                }
                let at: usize = grove.graft(level, low_at, high_at);
                put(&mut map, bdd, at);
                proof {
                    let taken = parsed(s).take(k + 1);
                    assert(taken.drop_last() =~= parsed(s).take(k as int));
                    assert(taken.last() == r);
                    let trees3 = decoded(leaves(s), taken);
                    assert(trees3 == trees.insert(bdd, grafted(trees, r)));
                    assert(contents(map).dom() =~= trees3.dom());
                    assert forall|x: u64| #[trigger] contents(map).contains_key(x) implies contents(
                        map,
                    )[x] < grove.trees@.len() && grove.trees@[contents(map)[x] as int]
                        == trees3[x] by {
                        if x != bdd {
                            assert(m.contains_key(x));
                            assert(grove.trees@[m[x] as int] == t[m[x] as int]);
                        }
                    }
                }
            },
            _ => {
                return false;
            },
        }
        k = k + 1;
    }
    assert(parsed(s).take(k as int) =~= parsed(s));
    true
}

/// `m` has the places of the trees that `trees` has.
spec fn known(m: Map<u64, usize>, trees: Map<u64, Tree>, t: Seq<Tree>) -> bool {
    &&& m.dom() == trees.dom()
    &&& forall|k: u64| #[trigger]
        m.contains_key(k) ==> m[k] < t.len() && t[m[k] as int] == trees[k]
}

} // verus!
