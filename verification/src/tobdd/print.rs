//! Printing diagrams.

use vstd::prelude::*;

use super::Manager;
use crate::cubes::{
    ascii, cubes, lemma_text_more, lemma_text_prefixed, prefixed, text,
};
use crate::node::Bdd;
use crate::set::NodeSet;
use crate::{BddOp, PrintSet};

verus! {

impl Manager {
    /// Appends the lines of a diagram from variable `curr` on, with the signs of the variables
    /// before it taken from `chars`.
    fn fmt_rec(&self, writer: &mut Vec<u8>, chars: &mut Vec<u8>, bdd: Bdd, curr: usize)
        requires
            self.inner_wf(),
            self.model().has_node(bdd),
            bdd != self.model().false_id,
            curr <= self.model().top(bdd),
            old(chars)@.len() == self.model().num_vars(),
        ensures
            final(chars)@.len() == old(chars)@.len(),
            final(chars)@.take(curr as int) == old(chars)@.take(curr as int),
            final(writer)@ == old(writer)@ + text(
                old(chars)@.take(curr as int),
                cubes(self.model(), bdd, curr as nat),
            ),
        decreases self.model().num_vars() - curr,
    {
        let ghost d = self.model();
        let ghost before = writer@;
        let ghost prefix = chars@.take(curr as int);
        proof {
            d.lemma_top(bdd);
        }
        if curr == self.num_vars {
            let mut i: usize = 0;
            while i < self.num_vars
                invariant
                    i <= self.num_vars,
                    chars@.len() == self.num_vars,
                    writer@ == before + chars@.take(i as int),
                decreases self.num_vars - i,
            {
                writer.push(chars[i]);
                assert(chars@.take(i + 1) =~= chars@.take(i as int).push(chars@[i as int]));
                i = i + 1;
            }
            writer.push('\n' as u8);
            proof {
                let lines = cubes(d, bdd, curr as nat);
                assert(lines.drop_last() =~= Seq::<Seq<u8>>::empty());
                assert(lines.last() =~= Seq::<u8>::empty());
                assert(text(prefix, lines.drop_last()) =~= Seq::<u8>::empty());
                assert(writer@ =~= before + text(prefix, lines));
            }
            return;
        }
        let (level, low, high) = self.set.vertex(bdd);
        if level > curr || bdd == self.true_id {
            chars[curr] = '*' as u8;
            assert(chars@.take(curr as int) =~= prefix);
            assert(chars@.take(curr + 1) =~= prefix.push('*' as u8));
            self.fmt_rec(writer, chars, bdd, curr + 1);
            proof {
                lemma_text_prefixed(prefix, '*' as u8, cubes(d, bdd, (curr + 1) as nat));
                assert(chars@.take(curr as int) =~= chars@.take(curr + 1).take(curr as int));
                assert(prefix.push('*' as u8).take(curr as int) =~= prefix);
            }
            return;
        }
        proof {
            d.lemma_decides(bdd);
        }
        let ghost nothing = Seq::<Seq<u8>>::empty();
        let ghost mut a = nothing;
        if low != self.false_id {
            chars[curr] = '0' as u8;
            assert(chars@.take(curr + 1) =~= prefix.push('0' as u8));
            self.fmt_rec(writer, chars, low, curr + 1);
            proof {
                a = prefixed('0' as u8, cubes(d, low, (curr + 1) as nat));
                lemma_text_prefixed(prefix, '0' as u8, cubes(d, low, (curr + 1) as nat));
                assert(chars@.take(curr as int) =~= chars@.take(curr + 1).take(curr as int));
                assert(prefix.push('0' as u8).take(curr as int) =~= prefix);
            }
        }
        assert(chars@.take(curr as int) =~= prefix);
        assert(writer@ =~= before + text(prefix, a));
        let ghost mut b = nothing;
        if high != self.false_id {
            chars[curr] = '1' as u8;
            assert(chars@.take(curr + 1) =~= prefix.push('1' as u8));
            self.fmt_rec(writer, chars, high, curr + 1);
            proof {
                b = prefixed('1' as u8, cubes(d, high, (curr + 1) as nat));
                lemma_text_prefixed(prefix, '1' as u8, cubes(d, high, (curr + 1) as nat));
                assert(chars@.take(curr as int) =~= chars@.take(curr + 1).take(curr as int));
                assert(prefix.push('1' as u8).take(curr as int) =~= prefix);
            }
        }
        proof {
            lemma_text_more(prefix, a, b);
            assert(chars@.take(curr as int) =~= prefix);
            assert(writer@ =~= before + text(prefix, a + b));
        }
    }
}

impl PrintSet for Manager {
    fn print(&self, bdd: Bdd, writer: &mut Vec<u8>) {
        let ghost before = writer@;
        proof {
            reveal_strlit("FALSE\n");
            reveal_strlit("TRUE\n");
        }
        if bdd == self.false_id {
            writer.push('F' as u8);
            writer.push('A' as u8);
            writer.push('L' as u8);
            writer.push('S' as u8);
            writer.push('E' as u8);
            writer.push('\n' as u8);
            assert(writer@ =~= before + ascii("FALSE\n"@));
        } else if bdd == self.true_id {
            writer.push('T' as u8);
            writer.push('R' as u8);
            writer.push('U' as u8);
            writer.push('E' as u8);
            writer.push('\n' as u8);
            assert(writer@ =~= before + ascii("TRUE\n"@));
        } else {
            let mut set_chars: Vec<u8> = vec!['-' as u8; self.num_vars];
            assert(set_chars@.take(0) =~= Seq::<u8>::empty());
            self.fmt_rec(writer, &mut set_chars, bdd, 0);
        }
    }
}

} // verus!
