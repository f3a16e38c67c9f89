//! What can be seen of a manager.

use vstd::arithmetic::power2::pow2;
use vstd::prelude::*;
use vstd::string::StringExecFns;

use super::Manager;
use crate::cache::{Cache, CacheStat};
use crate::op_stat::OpStat;
use crate::set::{reports, LockFreeSet, NodeSet, TableStatReport};
use crate::spin::rw_w_pre::RwLockStat;
use crate::text::{decimal, push_count};
use crate::{BddOp, BddOpType};

verus! {

/// A line on the cache of an operation.
pub open spec fn cache_line(label: Seq<char>, stat: CacheStat) -> Seq<char> {
    label + " cache stat: "@ + stat.text() + "\n"@
}

fn push_cache_line(r: &mut String, label: &str, stat: CacheStat)
    ensures
        final(r)@ == old(r)@ + cache_line(label@, stat),
{
    let ghost before = r@;
    r.append(label);
    r.append(" cache stat: ");
    r.append(stat.to_text().as_str());
    r.append("\n");
    assert(r@ =~= before + cache_line(label@, stat));
}

impl Manager {
    /// The sizes and the cache counts in lines of text.
    pub open spec fn heading_text(&self) -> Seq<char> {
        "TOBDD Debug Information\nnode_num: "@ + decimal(self.diagram().nodes.dom().len())
            + "\nbucket_size: "@ + decimal(pow2(self.diagram().table_exp)) + "\nvar_num: "@
            + decimal(self.diagram().num_vars()) + "\n"@ + cache_line(
            "NOT"@,
            self.cache_stat(BddOpType::Not),
        ) + cache_line("AND"@, self.cache_stat(BddOpType::And)) + cache_line(
            "OR"@,
            self.cache_stat(BddOpType::Or),
        ) + cache_line("COMP"@, self.cache_stat(BddOpType::Comp)) + cache_line(
            "QUANT_EXIST"@,
            self.cache_stat(BddOpType::QuantExist),
        ) + cache_line("QUANT_FORALL"@, self.cache_stat(BddOpType::QuantForall))
    }

    pub fn heading(&self) -> (r: String)
        requires
            self.wf(),
        ensures
            r@ == self.heading_text(),
    {
        let mut r = String::new();
        push_count(&mut r, "TOBDD Debug Information\nnode_num: ", self.set.entry_num());
        push_count(&mut r, "\nbucket_size: ", self.set.bucket_size());
        push_count(&mut r, "\nvar_num: ", self.num_vars);
        r.append("\n");
        push_cache_line(&mut r, "NOT", self.not_cache.stat());
        push_cache_line(&mut r, "AND", self.and_cache.stat());
        push_cache_line(&mut r, "OR", self.or_cache.stat());
        push_cache_line(&mut r, "COMP", self.comp_cache.stat());
        push_cache_line(&mut r, "QUANT_EXIST", self.quant_exist_cache.stat());
        push_cache_line(&mut r, "QUANT_FORALL", self.quant_forall_cache.stat());
        assert(r@ =~= self.heading_text());
        r
    }

    /// How the nodes are spread over the buckets.
    pub fn table_stat_report(&self) -> (r: TableStatReport)
        requires
            self.wf(),
        ensures
            reports(r, self.diagram().nodes, pow2(self.diagram().table_exp)),
    {
        self.set.table_stat_report()
    }

    pub fn op_stat(&self) -> (r: OpStat)
        ensures
            r == self.tally(),
    {
        self.op_stat
    }

    pub fn lock_stat(&self) -> (r: RwLockStat)
        ensures
            r == self.lock_stats(),
    {
        self.rw_lock.stat()
    }

    /// All that can be seen of the manager in lines of text, with the ratios of `report` and of the
    /// lock as given.
    pub open spec fn debug_text(
        &self,
        report: TableStatReport,
        load_factor: Seq<char>,
        average: Seq<char>,
        retry_rate: Seq<char>,
    ) -> Seq<char> {
        self.heading_text() + "Table stat: "@ + report.text(load_factor, average) + "\nOp stat: "@
            + self.tally().text() + "\nRwLock stat: "@ + self.lock_stats().text(retry_rate) + "\n"@
    }

    pub fn describe(
        &self,
        report: &TableStatReport,
        load_factor: &str,
        average: &str,
        retry_rate: &str,
    ) -> (r: String)
        requires
            self.wf(),
        ensures
            r@ == self.debug_text(*report, load_factor@, average@, retry_rate@),
    {
        let mut r = self.heading();
        r.append("Table stat: ");
        r.append(report.to_text(load_factor, average).as_str());
        r.append("\nOp stat: ");
        r.append(self.op_stat.to_text().as_str());
        r.append("\nRwLock stat: ");
        r.append(self.lock_stat().to_text(retry_rate).as_str());
        r.append("\n");
        r
    }

    /// Every chain of the node table can be walked to its end.
    pub closed spec fn table_walkable(&self) -> bool {
        self.set.walkable()
    }

    /// Every node of the table is in the bucket of its hash, and every bucket ascends.
    pub closed spec fn table_sane(&self) -> bool {
        self.set.sane()
    }

    /// The node table.
    pub closed spec fn node_table(&self) -> LockFreeSet {
        self.set
    }

    /// The table is sane just if every node fits that is met on a walk through its buckets.
    pub proof fn law_table_sane(&self)
        requires
            self.table_walkable(),
        ensures
            self.table_sane() <==> forall|i: int, k: nat|
                0 <= i < self.node_table().width() ==> #[trigger] self.node_table().fits_in(i, k),
    {
        let t = self.node_table();
        t.law_sane();
        assert(self.table_sane() == t.sane());
    }

    /// Whether every node of the table is in the bucket of its hash, every bucket is sorted, and
    /// no node occurs twice. It is so in a manager that is in order, between operations.
    pub fn sanity_check(&self) -> (ok: bool)
        requires
            self.wf() || self.table_walkable(),
        ensures
            ok == self.table_sane(),
            self.wf() ==> ok,
    {
        proof {
            if self.wf() {
                self.set.lemma_table();
            }
        }
        self.set.sanity_check()
    }
}

} // verus!
