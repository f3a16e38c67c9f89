//! Counts of what a manager has done.

use vstd::arithmetic::power2::pow2;
use vstd::prelude::*;
use vstd::string::StringExecFns;

use crate::diagram::Diagram;
use crate::text::{decimal, push_count, push_decimal};
use crate::BddOpType;

verus! {

/// How often each operation was started, and what collections and growths have done. The times
/// are in microseconds. All counts wrap around.
#[derive(Clone, Copy)]
pub struct OpStat {
    pub not_cnt: usize,
    pub and_cnt: usize,
    pub or_cnt: usize,
    pub comp_cnt: usize,
    pub quant_exist_cnt: usize,
    pub quant_forall_cnt: usize,
    pub gc_cnt: usize,
    pub gc_time: u64,
    pub gc_freed: usize,
    pub grow_cnt: usize,
    pub grow_time: u64,
    pub grow_newed: usize,
}

impl OpStat {
    pub open spec fn zero() -> Self {
        OpStat {
            not_cnt: 0,
            and_cnt: 0,
            or_cnt: 0,
            comp_cnt: 0,
            quant_exist_cnt: 0,
            quant_forall_cnt: 0,
            gc_cnt: 0,
            gc_time: 0,
            gc_freed: 0,
            grow_cnt: 0,
            grow_time: 0,
            grow_newed: 0,
        }
    }

    /// The same counts, whatever the times.
    pub open spec fn counts_as(self, other: Self) -> bool {
        self == (OpStat { gc_time: self.gc_time, grow_time: self.grow_time, ..other })
    }

    /// One more operation was started.
    pub open spec fn counted(self, op: BddOpType) -> Self {
        match op {
            BddOpType::Not => OpStat { not_cnt: self.not_cnt.wrapping_add(1), ..self },
            BddOpType::And => OpStat { and_cnt: self.and_cnt.wrapping_add(1), ..self },
            BddOpType::Or => OpStat { or_cnt: self.or_cnt.wrapping_add(1), ..self },
            BddOpType::Comp => OpStat { comp_cnt: self.comp_cnt.wrapping_add(1), ..self },
            BddOpType::QuantExist => OpStat {
                quant_exist_cnt: self.quant_exist_cnt.wrapping_add(1),
                ..self
            },
            BddOpType::QuantForall => OpStat {
                quant_forall_cnt: self.quant_forall_cnt.wrapping_add(1),
                ..self
            },
        }
    }

    /// One more collection began.
    pub open spec fn collecting(self, micros: u64) -> Self {
        OpStat {
            gc_cnt: self.gc_cnt.wrapping_add(1),
            gc_time: self.gc_time.wrapping_sub(micros),
            ..self
        }
    }

    /// A collection ended that has freed `freed` nodes.
    pub open spec fn collected(self, micros: u64, freed: usize) -> Self {
        OpStat {
            gc_freed: self.gc_freed.wrapping_add(freed),
            gc_time: self.gc_time.wrapping_add(micros),
            ..self
        }
    }

    /// One more growth began.
    pub open spec fn growing(self, micros: u64) -> Self {
        OpStat {
            grow_cnt: self.grow_cnt.wrapping_add(1),
            grow_time: self.grow_time.wrapping_sub(micros),
            ..self
        }
    }

    /// A growth ended that has added `newed` buckets.
    pub open spec fn grown(self, micros: u64, newed: usize) -> Self {
        OpStat {
            grow_newed: self.grow_newed.wrapping_add(newed),
            grow_time: self.grow_time.wrapping_add(micros),
            ..self
        }
    }

    /// One more collection of `d`.
    pub open spec fn after_gc(self, d: Diagram) -> Self {
        self.collecting(0).collected(0, (d.nodes.dom().len() - d.live().len()) as usize)
    }

    /// One more growth of `d`.
    pub open spec fn after_grow(self, d: Diagram) -> Self {
        self.growing(0).grown(0, pow2(d.table_exp) as usize)
    }

    /// What starting an operation on `d` counts.
    pub open spec fn after_enter(self, d: Diagram) -> Self {
        if d.will_collect() {
            self.after_gc(d)
        } else if d.will_grow() {
            self.after_grow(d)
        } else {
            self
        }
    }

    /// The times are those of `before`, unless starting an operation on `d` has taken some.
    pub open spec fn times_from(self, before: Self, d: Diagram) -> bool {
        &&& !d.will_collect() ==> self.gc_time == before.gc_time
        &&& !d.will_grow() ==> self.grow_time == before.grow_time
    }

    /// The counts in six lines of text.
    pub open spec fn text(self) -> Seq<char> {
        "NOT: (cnt: "@ + decimal(self.not_cnt as nat) + ")\nAND: (cnt: "@ + decimal(
            self.and_cnt as nat,
        ) + ")\nOR: (cnt: "@ + decimal(self.or_cnt as nat) + ")\nCOMP: (cnt: "@ + decimal(
            self.comp_cnt as nat,
        ) + ")\nGC: (cnt: "@ + decimal(self.gc_cnt as nat) + ", time: "@ + decimal(
            self.gc_time as nat,
        ) + " us, freed: "@ + decimal(self.gc_freed as nat) + ")\nGROW: (cnt: "@ + decimal(
            self.grow_cnt as nat,
        ) + ", time: "@ + decimal(self.grow_time as nat) + " us, newed: "@ + decimal(
            self.grow_newed as nat,
        ) + ")"@
    }

    pub fn to_text(&self) -> (r: String)
        ensures
            r@ == self.text(),
    {
        let mut r = String::new();
        push_count(&mut r, "NOT: (cnt: ", self.not_cnt);
        push_count(&mut r, ")\nAND: (cnt: ", self.and_cnt);
        push_count(&mut r, ")\nOR: (cnt: ", self.or_cnt);
        push_count(&mut r, ")\nCOMP: (cnt: ", self.comp_cnt);
        push_count(&mut r, ")\nGC: (cnt: ", self.gc_cnt);
        r.append(", time: ");
        push_decimal(&mut r, self.gc_time);
        push_count(&mut r, " us, freed: ", self.gc_freed);
        push_count(&mut r, ")\nGROW: (cnt: ", self.grow_cnt);
        r.append(", time: ");
        push_decimal(&mut r, self.grow_time);
        push_count(&mut r, " us, newed: ", self.grow_newed);
        r.append(")");
        r
    }

    pub fn count(&mut self, op: BddOpType)
        ensures
            *final(self) == old(self).counted(op),
    {
        match op {
            BddOpType::Not => {
                self.not_cnt = self.not_cnt.wrapping_add(1);
            },
            BddOpType::And => {
                self.and_cnt = self.and_cnt.wrapping_add(1);
            },
            BddOpType::Or => {
                self.or_cnt = self.or_cnt.wrapping_add(1);
            },
            BddOpType::Comp => {
                self.comp_cnt = self.comp_cnt.wrapping_add(1);
            },
            BddOpType::QuantExist => {
                self.quant_exist_cnt = self.quant_exist_cnt.wrapping_add(1);
            },
            BddOpType::QuantForall => {
                self.quant_forall_cnt = self.quant_forall_cnt.wrapping_add(1);
            },
        }
    }

    pub fn begin_gc(&mut self, micros: u64)
        ensures
            *final(self) == old(self).collecting(micros),
    {
        self.gc_cnt = self.gc_cnt.wrapping_add(1);
        self.gc_time = self.gc_time.wrapping_sub(micros);
    }

    pub fn end_gc(&mut self, micros: u64, freed: usize)
        ensures
            *final(self) == old(self).collected(micros, freed),
    {
        self.gc_freed = self.gc_freed.wrapping_add(freed);
        self.gc_time = self.gc_time.wrapping_add(micros);
    }

    pub fn begin_grow(&mut self, micros: u64)
        ensures
            *final(self) == old(self).growing(micros),
    {
        self.grow_cnt = self.grow_cnt.wrapping_add(1);
        self.grow_time = self.grow_time.wrapping_sub(micros);
    }

    pub fn end_grow(&mut self, micros: u64, newed: usize)
        ensures
            *final(self) == old(self).grown(micros, newed),
    {
        self.grow_newed = self.grow_newed.wrapping_add(newed);
        self.grow_time = self.grow_time.wrapping_add(micros);
    }
}

impl Default for OpStat {
    fn default() -> (r: Self)
        ensures
            r == OpStat::zero(),
    {
        OpStat {
            not_cnt: 0,
            and_cnt: 0,
            or_cnt: 0,
            comp_cnt: 0,
            quant_exist_cnt: 0,
            quant_forall_cnt: 0,
            gc_cnt: 0,
            gc_time: 0,
            gc_freed: 0,
            grow_cnt: 0,
            grow_time: 0,
            grow_newed: 0,
        }
    }
}

} // verus!
