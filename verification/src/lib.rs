//! A library of shared, reduced, ordered binary decision diagrams.

use vstd::arithmetic::power2::pow2;
use vstd::prelude::*;

pub mod cache;
pub mod captions;
mod clock;
pub mod codec;
pub mod counts;
pub mod cubes;
pub mod diagram;
pub mod format;
pub mod graph;
pub mod hash;
mod idmap;
pub mod keeping;
pub mod laws;
pub mod meaning;
pub mod memo;
pub mod node;
pub mod op_stat;
pub mod readable;
pub mod results;
pub mod rows;
pub mod set;
pub mod sizing;
pub mod spin;
pub mod store;
pub mod text;
pub mod tobdd;
pub mod tree;

pub use node::Bdd;
pub use tobdd::Manager;

use crate::codec::{imports, readable, stream, HEADER_LEN};
use crate::cubes::printed;
use crate::diagram::{Assignment, Diagram};
use crate::op_stat::OpStat;
use crate::sizing::MAX_SIZE_EXP;

verus! {

/// Supported BDD operations.
#[derive(Clone, Copy, PartialEq, Eq, PartialOrd, Ord, Hash)]
pub enum BddOpType {
    Not,
    And,
    Or,
    /// The difference of two sets: what is in the first and not in the second.
    Comp,
    QuantExist,
    QuantForall,
}

/// Boolean operations on diagrams. A diagram that is returned is referenced; take the reference
/// back when it is not used any more.
pub trait BddOp: Sized {
    /// Everything inside is in order.
    spec fn wf(&self) -> bool;

    /// The diagram that is worked on.
    spec fn diagram(&self) -> Diagram;

    /// What was counted so far.
    spec fn tally(&self) -> OpStat;

    /// The diagram is reduced and ordered at all times.
    proof fn law_diagram(&self)
        requires
            self.wf(),
        ensures
            self.diagram().wf(),
    ;

    /// The function that is true where `bdd`'s is not.
    fn not(&mut self, bdd: Bdd) -> (ret: Bdd)
        requires
            old(self).wf(),
            old(self).diagram().ready(),
            old(self).diagram().operand(bdd),
        ensures
            final(self).wf(),
            final(self).diagram().concludes(old(self).diagram(), ret),
            forall|id: Bdd|
                id != ret && #[trigger] old(self).diagram().live().contains(id) ==> {
                    &&& final(self).diagram().nodes.contains_key(id)
                    &&& final(self).diagram().nodes[id] == old(self).diagram().nodes[id]
                },
            forall|env: Assignment| #[trigger]
                final(self).diagram().eval(ret, env) == !old(self).diagram().eval(bdd, env),
            final(self).tally().counts_as(
                old(self).tally().after_enter(old(self).diagram()).counted(BddOpType::Not),
            ),
            final(self).tally().times_from(old(self).tally(), old(self).diagram()),
    ;

    /// The function that is true where both are.
    fn and(&mut self, lhs: Bdd, rhs: Bdd) -> (ret: Bdd)
        requires
            old(self).wf(),
            old(self).diagram().ready(),
            old(self).diagram().operand(lhs),
            old(self).diagram().operand(rhs),
        ensures
            final(self).wf(),
            final(self).diagram().concludes(old(self).diagram(), ret),
            forall|id: Bdd|
                id != ret && #[trigger] old(self).diagram().live().contains(id) ==> {
                    &&& final(self).diagram().nodes.contains_key(id)
                    &&& final(self).diagram().nodes[id] == old(self).diagram().nodes[id]
                },
            forall|env: Assignment| #[trigger]
                final(self).diagram().eval(ret, env) == (old(self).diagram().eval(lhs, env) && old(
                    self,
                ).diagram().eval(rhs, env)),
            final(self).tally().counts_as(
                old(self).tally().after_enter(old(self).diagram()).counted(BddOpType::And),
            ),
            final(self).tally().times_from(old(self).tally(), old(self).diagram()),
    ;

    /// The function that is true where one of both is.
    fn or(&mut self, lhs: Bdd, rhs: Bdd) -> (ret: Bdd)
        requires
            old(self).wf(),
            old(self).diagram().ready(),
            old(self).diagram().operand(lhs),
            old(self).diagram().operand(rhs),
        ensures
            final(self).wf(),
            final(self).diagram().concludes(old(self).diagram(), ret),
            forall|id: Bdd|
                id != ret && #[trigger] old(self).diagram().live().contains(id) ==> {
                    &&& final(self).diagram().nodes.contains_key(id)
                    &&& final(self).diagram().nodes[id] == old(self).diagram().nodes[id]
                },
            forall|env: Assignment| #[trigger]
                final(self).diagram().eval(ret, env) == (old(self).diagram().eval(lhs, env) || old(
                    self,
                ).diagram().eval(rhs, env)),
            final(self).tally().counts_as(
                old(self).tally().after_enter(old(self).diagram()).counted(BddOpType::Or),
            ),
            final(self).tally().times_from(old(self).tally(), old(self).diagram()),
    ;

    /// The function that is true where the first is and the second is not.
    fn comp(&mut self, lhs: Bdd, rhs: Bdd) -> (ret: Bdd)
        requires
            old(self).wf(),
            old(self).diagram().ready(),
            old(self).diagram().operand(lhs),
            old(self).diagram().operand(rhs),
        ensures
            final(self).wf(),
            final(self).diagram().concludes(old(self).diagram(), ret),
            forall|id: Bdd|
                id != ret && #[trigger] old(self).diagram().live().contains(id) ==> {
                    &&& final(self).diagram().nodes.contains_key(id)
                    &&& final(self).diagram().nodes[id] == old(self).diagram().nodes[id]
                },
            forall|env: Assignment| #[trigger]
                final(self).diagram().eval(ret, env) == (old(self).diagram().eval(lhs, env) && !old(
                    self,
                ).diagram().eval(rhs, env)),
            final(self).tally().counts_as(
                old(self).tally().after_enter(old(self).diagram()).counted(BddOpType::Comp),
            ),
            final(self).tally().times_from(old(self).tally(), old(self).diagram()),
    ;
}

/// BDD manager interface.
pub trait BddManager: BddOp {
    /// A diagram of `var_num` variables with the terminals and the literals in it, each
    /// referenced once.
    fn init(table_size: usize, cache_size: usize, var_num: usize) -> (r: Self)
        requires
            0 < table_size < pow2(MAX_SIZE_EXP as nat),
            0 < cache_size < pow2(MAX_SIZE_EXP as nat),
        ensures
            r.wf(),
            r.diagram().wf(),
            r.diagram().num_vars() == var_num,
            r.diagram().nodes.dom().len() == 2 + 2 * var_num,
            forall|id: Bdd| #[trigger]
                r.diagram().has_node(id) ==> r.diagram().nodes[id].refs == 1,
            1 <= r.diagram().table_exp <= MAX_SIZE_EXP,
            pow2((r.diagram().table_exp - 1) as nat) <= table_size < pow2(r.diagram().table_exp),
            1 <= r.diagram().cache_exp <= MAX_SIZE_EXP,
            pow2((r.diagram().cache_exp - 1) as nat) <= cache_size < pow2(r.diagram().cache_exp),
            r.tally() == OpStat::zero(),
    ;

    /// The function that is the value of a variable.
    fn get_var(&self, var: usize) -> (r: Bdd)
        requires
            self.wf(),
            var < self.diagram().num_vars(),
        ensures
            r == self.diagram().vars[var as int],
            self.diagram().has_node(r),
            forall|env: Assignment| #[trigger] self.diagram().eval(r, env) == env(var as nat),
    ;

    /// The function that is the negated value of a variable.
    fn get_nvar(&self, var: usize) -> (r: Bdd)
        requires
            self.wf(),
            var < self.diagram().num_vars(),
        ensures
            r == self.diagram().nvars[var as int],
            self.diagram().has_node(r),
            forall|env: Assignment| #[trigger] self.diagram().eval(r, env) == !env(var as nat),
    ;

    fn get_true(&self) -> (r: Bdd)
        requires
            self.wf(),
        ensures
            r == self.diagram().true_id,
            self.diagram().has_node(r),
            forall|env: Assignment| #[trigger] self.diagram().eval(r, env),
    ;

    fn get_false(&self) -> (r: Bdd)
        requires
            self.wf(),
        ensures
            r == self.diagram().false_id,
            self.diagram().has_node(r),
            forall|env: Assignment| !#[trigger] self.diagram().eval(r, env),
    ;

    fn is_true(&self, bdd: Bdd) -> (r: bool)
        requires
            self.wf(),
        ensures
            r == (bdd == self.diagram().true_id),
    {
        bdd == self.get_true()
    }

    fn is_false(&self, bdd: Bdd) -> (r: bool)
        requires
            self.wf(),
        ensures
            r == (bdd == self.diagram().false_id),
    {
        bdd == self.get_false()
    }

    fn get_node_num(&self) -> (r: usize)
        requires
            self.wf(),
        ensures
            r == self.diagram().nodes.dom().len(),
    ;

    /// Takes one reference to `bdd` back.
    fn deref_bdd(&mut self, bdd: Bdd)
        requires
            old(self).wf(),
            old(self).diagram().has_node(bdd),
        ensures
            final(self).wf(),
            final(self).diagram() == old(self).diagram().dereferenced(bdd),
            final(self).tally() == old(self).tally(),
    ;

    /// Frees the nodes that no referenced one reaches; returns how many are left.
    fn gc(&mut self) -> (marked: usize)
        requires
            old(self).wf(),
            old(self).diagram().grounded(),
        ensures
            final(self).wf(),
            final(self).diagram() == old(self).diagram().collected(),
            marked == old(self).diagram().live().len(),
            forall|id: Bdd| #[trigger]
                final(self).diagram().nodes.contains_key(id) <==> old(
                    self,
                ).diagram().live().contains(id),
            forall|id: Bdd| #[trigger]
                final(self).diagram().nodes.contains_key(id) ==> final(self).diagram().nodes[id]
                    == old(self).diagram().nodes[id],
            final(self).tally().counts_as(old(self).tally().after_gc(old(self).diagram())),
            final(self).tally().grow_time == old(self).tally().grow_time,
    ;
}

/// What can be wrong with a stream.
#[derive(Clone, Copy, PartialEq, Eq, Debug, Structural)]
pub enum DecodeError {
    /// It ends within the handles that it starts with.
    UnexpectedEof,
}

/// Serialize/Deserialize BDD between different instances.
pub trait BddIO: BddOp {
    /// Appends the bytes of a diagram to `writer`.
    fn serialize(&self, bdd: Bdd, writer: &mut Vec<u8>)
        requires
            self.wf(),
            self.diagram().has_node(bdd),
        ensures
            final(writer)@ == old(writer)@ + stream(self.diagram(), bdd),
    ;

    /// Reads a diagram from its bytes. The BDD that is returned is referenced.
    fn deserialize(&mut self, bytes: &[u8]) -> (r: Result<Bdd, DecodeError>)
        requires
            old(self).wf(),
            bytes@.len() >= HEADER_LEN ==> readable(bytes@, old(self).diagram().num_vars()),
        ensures
            final(self).wf(),
            final(self).tally() == old(self).tally(),
            match r {
                Ok(ret) => {
                    &&& bytes@.len() >= HEADER_LEN
                    &&& imports(final(self).diagram(), old(self).diagram(), bytes@, ret)
                },
                Err(error) => {
                    &&& error == DecodeError::UnexpectedEof
                    &&& bytes@.len() < HEADER_LEN
                    &&& final(self).diagram() == old(self).diagram()
                },
            },
    ;
}

/// Print BDD in human-understandable format.
pub trait PrintSet: BddOp {
    /// Appends the BDD to `writer` as a union of cubes, to help debugging.
    fn print(&self, bdd: Bdd, writer: &mut Vec<u8>)
        requires
            self.wf(),
            self.diagram().has_node(bdd),
        ensures
            final(writer)@ == old(writer)@ + printed(self.diagram(), bdd),
    ;
}

} // verus!
