//! Operands that wait for a result.
//!
//! An operand that refers to an entry of the reorder buffer is outstanding:
//! the entry is in flight, has no result yet, and is in the station or in the
//! load buffer, which will produce the result and broadcast it. The lemmas of
//! this module show that every phase keeps this, so that no instruction
//! waits for a result that never comes.

use vstd::prelude::*;
use crate::pipeline::coherence::{
    lemma_next_instruction_consistent, lemma_unit_entries_are_incomplete,
};
use crate::pipeline::functional_units::address::rob_after_address;
use crate::pipeline::load_buffer::{drains_loads, rob_after_loads};
use crate::pipeline::operand::Operand;

use crate::pipeline::reservation_station::{drains_station, FinishedCalc};
use crate::pipeline::PipelineState;

verus! {

impl PipelineState {
    /// Whether the entry `i` of the reorder buffer is in flight without a
    /// result, and in the station or the load buffer.
    pub open spec fn awaited(self, i: usize) -> bool {
        self.entries.contains_key(i) && self.entries[i].reg_value is None && (
        self.station.contains_key(i) || self.loads.contains_key(i))
    }

    /// Whether `operand` is a value, or refers to an entry that is awaited.
    pub open spec fn outstanding(self, operand: Operand) -> bool {
        operand matches Operand::Rob(i) ==> self.awaited(i)
    }

    /// Every operand in a station, in the address unit and in the reorder
    /// buffer is a value or is outstanding, and refers to another entry than
    /// its own; only the address of an entry may refer to the entry itself,
    /// which marks an address that the address unit has yet to compute. A
    /// register is renamed to an entry that has its result, or that is
    /// awaited.
    pub open spec fn operands_outstanding(self) -> bool {
        &&& forall|k: usize|
            #![trigger self.station[k]]
            self.station.contains_key(k) ==> self.outstanding(self.station[k].operand.0)
                && self.outstanding(self.station[k].operand.1)
        &&& forall|k: usize|
            #![trigger self.address_unit[k]]
            self.address_unit.contains_key(k) ==> self.outstanding(self.address_unit[k].operand.0)
                && self.outstanding(self.address_unit[k].operand.1)
        &&& forall|k: usize|
            #![trigger self.entries[k]]
            self.entries.contains_key(k) ==> self.outstanding(self.entries[k].mem_value)
                && self.entries[k].mem_value != Operand::Rob(k) && (self.entries[k].addr
                == Operand::Rob(k) || self.outstanding(self.entries[k].addr))
        &&& forall|r: int|
            0 <= r < 32 ==> (#[trigger] self.reg.related_rob[r] matches Some(i)
                ==> self.entries[i].reg_value is Some || self.awaited(i))
    }

    /// Whether one of `jobs` is the result of entry `i`.
    pub open spec fn produced(jobs: Seq<FinishedCalc>, i: usize) -> bool {
        exists|j: int| 0 <= j < jobs.len() && (#[trigger] jobs[j]).rob_idx == i
    }
}

/// The operand `operand` after the results `jobs` have been broadcast one
/// after the other.
pub open spec fn forwarded_all(operand: Operand, jobs: Seq<FinishedCalc>) -> Operand
    decreases jobs.len(),
{
    if jobs.len() == 0 {
        operand
    } else {
        forwarded_all(operand, jobs.drop_last()).forwarded(
            jobs.last().rob_idx,
            jobs.last().reg_value,
        )
    }
}

/// An operand that still refers to an entry after results have been
/// broadcast referred to it before, and none of the results was that of the
/// entry.
pub proof fn lemma_forwarded_all(operand: Operand, jobs: Seq<FinishedCalc>)
    ensures
        forwarded_all(operand, jobs) matches Operand::Rob(i) ==> operand == Operand::Rob(i)
            && !PipelineState::produced(jobs, i),
        operand is Value ==> forwarded_all(operand, jobs) == operand,
    decreases jobs.len(),
{
    if jobs.len() > 0 {
        lemma_forwarded_all(operand, jobs.drop_last());
        if forwarded_all(operand, jobs) is Rob {
            let i = forwarded_all(operand, jobs)->Rob_0;
            assert(!PipelineState::produced(jobs, i)) by {
                if PipelineState::produced(jobs, i) {
                    let j = choose|j: int| 0 <= j < jobs.len() && (#[trigger] jobs[j]).rob_idx == i;
                    if j < jobs.len() - 1 {
                        assert(jobs.drop_last()[j].rob_idx == i);
                    }
                }
            }
        }
    }
}

/// What the broadcast of results does to the pipeline, entry by entry: the
/// units keep their entries, whose operands take the results; an entry of
/// the reorder buffer has a result afterwards if it had one before or if one
/// of the results is its own.
pub proof fn lemma_broadcast_all_pointwise(s: PipelineState, jobs: Seq<FinishedCalc>)
    ensures
        s.broadcast_all(jobs).order == s.order,
        s.broadcast_all(jobs).reg == s.reg,
        s.broadcast_all(jobs).loads == s.loads,
        s.broadcast_all(jobs).station.dom() == s.station.dom(),
        s.broadcast_all(jobs).address_unit.dom() == s.address_unit.dom(),
        s.broadcast_all(jobs).entries.dom() == s.entries.dom(),
        forall|k: usize|
            #![trigger s.broadcast_all(jobs).station[k]]
            s.station.contains_key(k) ==> s.broadcast_all(jobs).station[k].operand.0
                == forwarded_all(s.station[k].operand.0, jobs) && s.broadcast_all(
                jobs,
            ).station[k].operand.1 == forwarded_all(s.station[k].operand.1, jobs),
        forall|k: usize|
            #![trigger s.broadcast_all(jobs).address_unit[k]]
            s.address_unit.contains_key(k) ==> s.broadcast_all(jobs).address_unit[k].operand.0
                == forwarded_all(s.address_unit[k].operand.0, jobs) && s.broadcast_all(
                jobs,
            ).address_unit[k].operand.1 == forwarded_all(s.address_unit[k].operand.1, jobs),
        forall|k: usize|
            #![trigger s.broadcast_all(jobs).entries[k]]
            s.entries.contains_key(k) ==> {
                let after = s.broadcast_all(jobs).entries[k];
                &&& after.reg_value is None <==> s.entries[k].reg_value is None
                    && !PipelineState::produced(jobs, k)
                &&& after.mem_value is Rob ==> after.mem_value == s.entries[k].mem_value && (
                after.mem_value == Operand::Rob(k) || !PipelineState::produced(
                    jobs,
                    after.mem_value->Rob_0,
                ))
                &&& after.addr is Rob ==> after.addr == s.entries[k].addr && (after.addr
                    == Operand::Rob(k) || !PipelineState::produced(jobs, after.addr->Rob_0))
            },
    decreases jobs.len(),
{
    if jobs.len() > 0 {
        let rest = jobs.drop_last();
        let job = jobs.last();
        lemma_broadcast_all_pointwise(s, rest);
        let before = s.broadcast_all(rest);
        let after = before.broadcast(job);
        assert(after.station.dom() =~= s.station.dom());
        assert(after.address_unit.dom() =~= s.address_unit.dom());
        assert(after.entries.dom() =~= s.entries.dom());
        assert forall|i: usize| PipelineState::produced(rest, i) implies PipelineState::produced(
            jobs,
            i,
        ) by {
            let j = choose|j: int| 0 <= j < rest.len() && (#[trigger] rest[j]).rob_idx == i;
            assert(jobs[j].rob_idx == i);
        }
        assert(PipelineState::produced(jobs, job.rob_idx)) by {
            assert(jobs[jobs.len() - 1].rob_idx == job.rob_idx);
        }
        assert forall|i: usize|
            PipelineState::produced(jobs, i) && i != job.rob_idx implies PipelineState::produced(
            rest,
            i,
        ) by {
            let j = choose|j: int| 0 <= j < jobs.len() && (#[trigger] jobs[j]).rob_idx == i;
            assert(rest[j].rob_idx == i);
        }
        assert forall|k: usize|
            #![trigger s.broadcast_all(jobs).entries[k]]
            s.entries.contains_key(k) implies {
            let after = s.broadcast_all(jobs).entries[k];
            &&& after.reg_value is None <==> s.entries[k].reg_value is None
                && !PipelineState::produced(jobs, k)
            &&& after.mem_value is Rob ==> after.mem_value == s.entries[k].mem_value && (
            after.mem_value == Operand::Rob(k) || !PipelineState::produced(
                jobs,
                after.mem_value->Rob_0,
            ))
            &&& after.addr is Rob ==> after.addr == s.entries[k].addr && (after.addr
                == Operand::Rob(k) || !PipelineState::produced(jobs, after.addr->Rob_0))
        } by {
            assert(before.entries.contains_key(k));
            let mid = before.entries[k];
        }
    }
}

/// The write-result phase leaves every operand a value or outstanding.
pub proof fn lemma_write_result_outstanding(s: PipelineState, jobs: Seq<FinishedCalc>)
    requires
        s.coherent(),
        s.operands_outstanding(),
        s.finishes(jobs),
    ensures
        s.drained().broadcast_all(jobs).operands_outstanding(),
{
    let d = s.drained();
    let f = d.broadcast_all(jobs);
    lemma_broadcast_all_pointwise(d, jobs);
    let n = choose|n: int|
        0 <= n <= jobs.len() && drains_loads(s.loads, jobs.subrange(0, n)) && drains_station(
            s.station,
            jobs.subrange(n, jobs.len() as int),
        );
    // an entry that was awaited and whose result is not among the jobs is
    // still awaited
    assert forall|i: usize| s.awaited(i) && !PipelineState::produced(jobs, i) implies f.awaited(
        i,
    ) by {
        assert(d.entries.contains_key(i));
        assert(f.entries.dom().contains(i));
        assert(f.entries[i].reg_value is None);
        if s.station.contains_key(i) {
            if s.station[i].status is Finished {
                let j = choose|j: int|
                    0 <= j < jobs.subrange(n, jobs.len() as int).len() && (#[trigger] jobs.subrange(
                        n,
                        jobs.len() as int,
                    )[j]).rob_idx == i;
                assert(jobs[n + j].rob_idx == i);
            }
            assert(d.station.contains_key(i));
            assert(f.station.dom().contains(i));
        } else {
            if s.loads[i].status is Finished {
                let j = choose|j: int|
                    0 <= j < jobs.subrange(0, n).len() && (#[trigger] jobs.subrange(
                        0,
                        n,
                    )[j]).rob_idx == i;
                assert(jobs[j].rob_idx == i);
            }
            assert(d.loads.contains_key(i));
        }
    }
    assert forall|k: usize| #![trigger f.station[k]] f.station.contains_key(k)
        implies f.outstanding(
        f.station[k].operand.0,
    ) && f.outstanding(f.station[k].operand.1) by {
        assert(d.station.dom().contains(k));
        assert(s.station.contains_key(k) && d.station[k] == s.station[k]);
        lemma_forwarded_all(s.station[k].operand.0, jobs);
        lemma_forwarded_all(s.station[k].operand.1, jobs);
    }
    assert forall|k: usize|
        #![trigger f.address_unit[k]]
        f.address_unit.contains_key(k) implies f.outstanding(f.address_unit[k].operand.0)
        && f.outstanding(f.address_unit[k].operand.1) by {
        assert(d.address_unit.dom().contains(k));
        lemma_forwarded_all(s.address_unit[k].operand.0, jobs);
        lemma_forwarded_all(s.address_unit[k].operand.1, jobs);
    }
    assert forall|k: usize| #![trigger f.entries[k]] f.entries.contains_key(k)
        implies f.outstanding(
        f.entries[k].mem_value,
    ) && f.entries[k].mem_value != Operand::Rob(k) && (f.entries[k].addr == Operand::Rob(k)
        || f.outstanding(f.entries[k].addr)) by {
        assert(d.entries.dom().contains(k));
        assert(s.entries.contains_key(k));
    }
    assert forall|r: int| 0 <= r < 32 implies (#[trigger] f.reg.related_rob[r] matches Some(i)
        ==> f.entries[i].reg_value is Some || f.awaited(i)) by {
        if f.reg.related_rob[r] is Some {
            let i = f.reg.related_rob[r]->0;
            assert(s.reg.related_rob[r] == Some(i));
            assert(s.entries.contains_key(i));
            assert(d.entries.contains_key(i));
        }
    }
}

/// The execute phase leaves every operand a value or outstanding.
pub proof fn lemma_execute_outstanding(s: PipelineState, npc: Option<u32>)
    requires
        s.coherent(),
        s.operands_outstanding(),
    ensures
        s.executed(npc).operands_outstanding(),
{
    let t = s.executed(npc);
    let addressed = rob_after_address(s.entries, s.address_unit);
    let loaded = rob_after_loads(s.loads, s.order, addressed, s.memory);
    assert forall|i: usize| s.entries.contains_key(i) implies {
        &&& t.entries.contains_key(i)
        &&& (#[trigger] t.entries[i]).reg_value == s.entries[i].reg_value
        &&& t.entries[i].mem_value is Rob ==> t.entries[i].mem_value == s.entries[i].mem_value
        &&& t.entries[i].addr is Rob ==> t.entries[i].addr == s.entries[i].addr
    } by {
        assert(addressed.contains_key(i));
        assert(loaded.contains_key(i));
        assert(loaded[i].reg_value == s.entries[i].reg_value);
    }
    assert forall|i: usize| t.entries.contains_key(i) implies s.entries.contains_key(i) by {
        assert(loaded.contains_key(i));
    }
    assert forall|i: usize| s.awaited(i) implies t.awaited(i) by {
        assert(t.entries[i].reg_value == s.entries[i].reg_value);
    }
    assert forall|k: usize|
        #![trigger t.entries[k]]
        t.entries.contains_key(k) implies t.outstanding(t.entries[k].mem_value)
        && t.entries[k].mem_value != Operand::Rob(k) && (t.entries[k].addr == Operand::Rob(k)
        || t.outstanding(t.entries[k].addr)) by {
        assert(s.entries.contains_key(k));
        assert(s.outstanding(s.entries[k].mem_value));
    }
    assert forall|r: int| 0 <= r < 32 implies (#[trigger] t.reg.related_rob[r] matches Some(i)
        ==> t.entries[i].reg_value is Some || t.awaited(i)) by {
        if t.reg.related_rob[r] is Some {
            let i = t.reg.related_rob[r]->0;
            assert(s.reg.related_rob[r] == Some(i));
            assert(s.entries.contains_key(i));
        }
    }
}

/// Issuing an instruction leaves every operand a value or outstanding.
pub proof fn lemma_issue_outstanding(s: PipelineState, index: usize)
    requires
        s.coherent(),
        s.operands_outstanding(),
        s.next_instruction() is Some,
        !s.entries.contains_key(index),
    ensures
        s.issued(index).operands_outstanding(),
{
    lemma_next_instruction_consistent(s);
    let t = s.issued(index);
    let inst = s.next_instruction()->0;
    assert(!s.station.contains_key(index) && !s.loads.contains_key(index)
        && !s.address_unit.contains_key(index));
    assert forall|i: usize| s.awaited(i) implies t.awaited(i) by {
        assert(i != index);
    }
    // what a register reads as is a value or outstanding
    assert forall|r: int| 0 <= r < 32 implies t.outstanding(
        #[trigger] s.reg.operand(r, s.entries),
    ) && t.outstanding(s.reg.operand(r, t.entries)) by {
        if s.reg.related_rob[r] is Some {
            let i = s.reg.related_rob[r]->0;
            assert(s.entries.contains_key(i));
            assert(i != index);
        }
    }
    assert forall|k: usize| #![trigger t.station[k]] t.station.contains_key(k)
        implies t.outstanding(
        t.station[k].operand.0,
    ) && t.outstanding(t.station[k].operand.1) by {
        if k != index {
            assert(s.station.contains_key(k));
            assert(s.outstanding(s.station[k].operand.0));
        }
    }
    assert forall|k: usize|
        #![trigger t.address_unit[k]]
        t.address_unit.contains_key(k) implies t.outstanding(t.address_unit[k].operand.0)
        && t.outstanding(t.address_unit[k].operand.1) by {
        if k != index {
            assert(s.address_unit.contains_key(k));
            assert(s.outstanding(s.address_unit[k].operand.0));
        }
    }
    assert forall|k: usize| #![trigger t.entries[k]] t.entries.contains_key(k)
        implies t.outstanding(
        t.entries[k].mem_value,
    ) && t.entries[k].mem_value != Operand::Rob(k) && (t.entries[k].addr == Operand::Rob(k)
        || t.outstanding(t.entries[k].addr)) by {
        if k != index {
            assert(s.entries.contains_key(k));
            assert(s.outstanding(s.entries[k].mem_value));
        }
    }
    assert forall|r: int| 0 <= r < 32 implies (#[trigger] t.reg.related_rob[r] matches Some(i)
        ==> t.entries[i].reg_value is Some || t.awaited(i)) by {
        if t.reg.related_rob[r] is Some {
            let i = t.reg.related_rob[r]->0;
            if i != index {
                assert(s.reg.related_rob[r] == Some(i));
                assert(s.entries.contains_key(i));
            }
        }
    }
}

/// The issue phase leaves every operand a value or outstanding.
pub proof fn lemma_after_issue_outstanding(s: PipelineState, issued: Seq<usize>)
    requires
        s.coherent(),
        s.operands_outstanding(),
        s.issues(issued),
    ensures
        s.after_issue(issued).operands_outstanding(),
{
    if issued.len() >= 1 {
        lemma_issue_outstanding(s, issued[0]);
        if issued.len() == 2 {
            crate::pipeline::coherence::lemma_issue_coherent(s, issued[0]);
            lemma_issue_outstanding(s.issued(issued[0]), issued[1]);
        }
    }
}

/// Retiring the oldest entry leaves every operand a value or outstanding: no
/// operand refers to an entry that retires.
pub proof fn lemma_retire_outstanding(s: PipelineState)
    requires
        s.coherent(),
        s.operands_outstanding(),
        s.head_completed(),
    ensures
        s.popped().retired(s.order[0], s.entries[s.order[0]]).0.operands_outstanding(),
{
    let index = s.order[0];
    let entry = s.entries[index];
    let p = s.popped();
    let (t, step) = p.retired(index, entry);
    assert(s.order.contains(index));
    assert(entry.well_formed());
    assert(!s.awaited(index)) by {
        if s.awaited(index) {
            lemma_unit_entries_are_incomplete(s, index);
        }
    }
    assert forall|i: usize| s.awaited(i) implies p.awaited(i) by {}
    let released = entry.retired_registers(p.reg, index);
    assert forall|r: int| 0 <= r < 32 implies (#[trigger] released.related_rob[r] matches Some(i)
        ==> p.entries[i].reg_value is Some || p.awaited(i)) by {
        if released.related_rob[r] is Some {
            let i = released.related_rob[r]->0;
            assert(s.reg.related_rob[r] == Some(i));
            assert(s.entries.contains_key(i));
            if i == index {
                assert(entry.rd == r);
            }
        }
    }
    assert forall|k: usize| #![trigger p.entries[k]] p.entries.contains_key(k)
        implies p.outstanding(
        p.entries[k].mem_value,
    ) && p.entries[k].mem_value != Operand::Rob(k) && (p.entries[k].addr == Operand::Rob(k)
        || p.outstanding(p.entries[k].addr)) by {
        assert(s.entries.contains_key(k));
        assert(s.outstanding(s.entries[k].mem_value));
    }
    assert forall|k: usize| #![trigger p.station[k]] p.station.contains_key(k)
        implies p.outstanding(
        p.station[k].operand.0,
    ) && p.outstanding(p.station[k].operand.1) by {
        assert(s.outstanding(s.station[k].operand.0));
    }
    assert forall|k: usize|
        #![trigger p.address_unit[k]]
        p.address_unit.contains_key(k) implies p.outstanding(p.address_unit[k].operand.0)
        && p.outstanding(p.address_unit[k].operand.1) by {
        assert(s.outstanding(s.address_unit[k].operand.0));
    }
}

/// The commit phase leaves every operand a value or outstanding.
pub proof fn lemma_commit_outstanding(s: PipelineState)
    requires
        s.coherent(),
        s.operands_outstanding(),
    ensures
        s.committed().0.operands_outstanding(),
    decreases s.order.len(),
{
    if s.head_completed() {
        let index = s.order[0];
        let entry = s.entries[index];
        let (next, step) = s.popped().retired(index, entry);
        crate::pipeline::coherence::lemma_retire_coherent(s);
        lemma_retire_outstanding(s);
        if step is Continue {
            assert(PipelineState { order: s.order.drop_first(), ..next } == next);
            lemma_commit_outstanding(next);
        }
    }
}

/// After a squash there is no operand, and no register is renamed.
pub proof fn lemma_squash_outstanding(s: PipelineState, pc: u32)
    ensures
        s.squashed().operands_outstanding(),
        s.squashed().at(pc).operands_outstanding(),
{
}

/// The phases that follow commit leave every operand a value or
/// outstanding.
pub proof fn lemma_proceed_outstanding(
    s: PipelineState,
    next: PipelineState,
    fault: Option<crate::pipeline::Fault>,
)
    requires
        s.coherent(),
        s.operands_outstanding(),
        s.proceeds(next, fault),
    ensures
        next.operands_outstanding(),
{
    let (jobs, npc, issued) = choose|jobs: Seq<FinishedCalc>, npc: Option<u32>, issued: Seq<usize>|
        #![trigger s.drained().broadcast_all(jobs).executed(npc).after_issue(issued)]
        {
            let written = s.drained().broadcast_all(jobs);
            let executed = written.executed(npc);
            &&& s.finishes(jobs)
            &&& written.redirects(npc)
            &&& executed.issues(issued)
            &&& next == executed.after_issue(issued)
            &&& fault == executed.issue_fault()
        };
    crate::pipeline::coherence::lemma_write_result_coherent(s, jobs);
    lemma_write_result_outstanding(s, jobs);
    let written = s.drained().broadcast_all(jobs);
    crate::pipeline::coherence::lemma_execute_coherent(written, npc);
    lemma_execute_outstanding(written, npc);
    lemma_after_issue_outstanding(written.executed(npc), issued);
}

/// Applying the answer of the host to a system call leaves every operand a
/// value or outstanding.
pub proof fn lemma_answer_outstanding(
    s: PipelineState,
    request: crate::pipeline::syscall::HostRequest,
    answer: crate::pipeline::syscall::HostAnswer,
)
    requires
        s.operands_outstanding(),
        crate::pipeline::syscall::answered(s.memory, s.reg, request, answer) is Ok,
    ensures
        (PipelineState {
            memory: crate::pipeline::syscall::answered(s.memory, s.reg, request, answer)->Ok_0.0,
            reg: crate::pipeline::syscall::answered(s.memory, s.reg, request, answer)->Ok_0.1,
            awaiting: None,
            ..s
        }).operands_outstanding(),
{
    let reg = crate::pipeline::syscall::answered(s.memory, s.reg, request, answer)->Ok_0.1;
    assert(reg.related_rob == s.reg.related_rob);
    let t = PipelineState {
        memory: crate::pipeline::syscall::answered(s.memory, s.reg, request, answer)->Ok_0.0,
        reg,
        awaiting: None,
        ..s
    };
    assert forall|i: usize| s.awaited(i) implies t.awaited(i) by {}
    assert forall|k: usize| #![trigger t.station[k]] t.station.contains_key(k)
        implies t.outstanding(
        t.station[k].operand.0,
    ) && t.outstanding(t.station[k].operand.1) by {
        assert(s.outstanding(s.station[k].operand.0));
    }
    assert forall|k: usize|
        #![trigger t.address_unit[k]]
        t.address_unit.contains_key(k) implies t.outstanding(t.address_unit[k].operand.0)
        && t.outstanding(t.address_unit[k].operand.1) by {
        assert(s.outstanding(s.address_unit[k].operand.0));
    }
    assert forall|k: usize|
        #![trigger t.entries[k]]
        t.entries.contains_key(k) implies t.outstanding(t.entries[k].mem_value)
        && t.entries[k].mem_value != Operand::Rob(k) && (t.entries[k].addr == Operand::Rob(k)
        || t.outstanding(t.entries[k].addr)) by {
        assert(s.outstanding(s.entries[k].mem_value));
    }
}

} // verus!
