//! What holds of the pipeline between the phases of every cycle.
//!
//! A register is renamed only to an entry of the reorder buffer that writes
//! it, and then to the youngest such entry; every entry of a unit belongs to
//! an instruction that is in flight and still waits for what the unit
//! provides. The lemmas of this module show that every phase keeps this.

use vstd::prelude::*;
use crate::pipeline::functional_units::address::rob_after_address;
use crate::pipeline::load_buffer::{drains_loads, rob_after_loads};
use crate::pipeline::operand::Operand;
use crate::pipeline::reorder_buffer::ReorderBufferEntry;
use crate::pipeline::reservation_station::{
    drains_station, uses_address_unit, uses_load_buffer, uses_station, FinishedCalc,
};
use crate::pipeline::syscall::{answered, HostAnswer, HostRequest};
use crate::pipeline::{Fault, Outcome, PipelineState, Step};

verus! {

impl PipelineState {
    /// The reorder buffer holds each index of its order once, with a well
    /// formed entry, and nothing else.
    pub open spec fn ordered(self) -> bool {
        &&& self.order.no_duplicates()
        &&& forall|i: usize| self.entries.contains_key(i) <==> self.order.contains(i)
        &&& forall|i: usize|
            self.entries.contains_key(i) ==> (#[trigger] self.entries[i]).well_formed()
    }

    /// A register is renamed only to an entry in flight that writes it, and
    /// the register that an entry in flight writes is renamed to that entry
    /// or to a younger one.
    pub open spec fn renamed_to_writers(self) -> bool {
        &&& forall|r: int|
            0 <= r < 32 ==> (#[trigger] self.reg.related_rob[r] matches Some(i)
                ==> self.entries.contains_key(i) && self.entries[i].rd == r)
        &&& forall|p: int|
            0 <= p < self.order.len() && (#[trigger] self.entries[self.order[p]]).rd != 0
                ==> exists|q: int|
                p <= q < self.order.len()
                    && self.reg.related_rob[self.entries[self.order[p]].rd as int]
                    == Some(#[trigger] self.order[q])
    }

    /// Every entry of a unit belongs to an instruction in flight that the
    /// unit executes and that has not got from it what it waits for: an
    /// operation or a load its result, an entry of the address unit its
    /// address. A load whose address is not yet known has not read.
    pub open spec fn units_in_flight(self) -> bool {
        &&& forall|k: usize|
            #![trigger self.station[k]]
            #![trigger self.station.contains_key(k)]
            self.station.contains_key(k) ==> self.entries.contains_key(k)
                && self.station[k].rob_index == k && self.entries[k].reg_value is None
                && uses_station(self.entries[k].inst)
        &&& forall|k: usize|
            #![trigger self.loads[k]]
            #![trigger self.loads.contains_key(k)]
            self.loads.contains_key(k) ==> self.entries.contains_key(k) && self.loads[k].rob_index
                == k && self.entries[k].reg_value is None && uses_load_buffer(self.entries[k].inst)
        &&& forall|k: usize|
            #![trigger self.address_unit[k]]
            #![trigger self.address_unit.contains_key(k)]
            self.address_unit.contains_key(k) ==> self.entries.contains_key(k)
                && self.entries[k].addr == Operand::Rob(k) && uses_address_unit(
                self.entries[k].inst,
            ) && (self.entries[k].inst.opcode is Load ==> self.loads.contains_key(k) && !(
            self.loads[k].status is Finished))
    }

    /// What holds of the pipeline between the phases of every cycle.
    pub open spec fn coherent(self) -> bool {
        &&& self.reg.wf()
        &&& self.ordered()
        &&& self.renamed_to_writers()
        &&& self.units_in_flight()
    }
}

/// An entry that a unit holds is not completed.
pub proof fn lemma_unit_entries_are_incomplete(s: PipelineState, k: usize)
    requires
        s.coherent(),
        s.station.contains_key(k) || s.loads.contains_key(k) || s.address_unit.contains_key(k),
    ensures
        s.entries.contains_key(k),
        !s.entries[k].completed(),
{
    if s.station.contains_key(k) {
        assert(uses_station(s.entries[k].inst));
    } else if s.loads.contains_key(k) {
        assert(uses_load_buffer(s.entries[k].inst));
    } else {
        assert(uses_address_unit(s.entries[k].inst));
        if s.entries[k].inst.opcode is Load {
            assert(s.loads.contains_key(k));
            assert(uses_load_buffer(s.entries[k].inst));
        }
    }
}

/// After a squash nothing is in flight, and the pipeline is coherent.
pub proof fn lemma_squash_is_complete(s: PipelineState, pc: u32)
    requires
        s.reg.wf(),
    ensures
        s.squashed().nothing_in_flight(),
        s.squashed().coherent(),
        s.squashed().at(pc).nothing_in_flight(),
        s.squashed().at(pc).coherent(),
{
}

/// Broadcasting a result keeps the pipeline coherent, provided that the
/// producer of the result has left its unit.
pub proof fn lemma_broadcast_coherent(s: PipelineState, job: FinishedCalc)
    requires
        s.coherent(),
        !s.station.contains_key(job.rob_idx),
        !s.loads.contains_key(job.rob_idx),
    ensures
        s.broadcast(job).coherent(),
        s.broadcast(job).station.dom() == s.station.dom(),
        s.broadcast(job).loads == s.loads,
        s.broadcast(job).reg == s.reg,
        s.broadcast(job).memory == s.memory,
{
    let t = s.broadcast(job);
    assert(t.station.dom() =~= s.station.dom());
    assert forall|i: usize| t.entries.contains_key(i) implies
        (#[trigger] t.entries[i]).well_formed() by {
        assert(s.entries[i].well_formed());
    }
    assert(t.renamed_to_writers()) by {
        assert forall|p: int|
            0 <= p < t.order.len() && (#[trigger] t.entries[t.order[p]]).rd != 0 implies exists|
            q: int,
        |
            p <= q < t.order.len() && t.reg.related_rob[t.entries[t.order[p]].rd as int] == Some(
                #[trigger] t.order[q],
            ) by {
            assert(s.order.contains(s.order[p]));
            assert(s.entries[s.order[p]].rd == t.entries[t.order[p]].rd);
        }
    }
}

/// Broadcasting results one after the other keeps the pipeline coherent,
/// provided that the producers of the results have left their units.
pub proof fn lemma_broadcast_all_coherent(s: PipelineState, jobs: Seq<FinishedCalc>)
    requires
        s.coherent(),
        forall|j: int|
            0 <= j < jobs.len() ==> !s.station.contains_key((#[trigger] jobs[j]).rob_idx)
                && !s.loads.contains_key(jobs[j].rob_idx),
    ensures
        s.broadcast_all(jobs).coherent(),
        s.broadcast_all(jobs).station.dom() == s.station.dom(),
        s.broadcast_all(jobs).loads == s.loads,
        s.broadcast_all(jobs).reg == s.reg,
        s.broadcast_all(jobs).memory == s.memory,
    decreases jobs.len(),
{
    if jobs.len() > 0 {
        assert forall|j: int| 0 <= j < jobs.drop_last().len() implies !s.station.contains_key(
            (#[trigger] jobs.drop_last()[j]).rob_idx,
        ) && !s.loads.contains_key(jobs.drop_last()[j].rob_idx) by {
            assert(jobs.drop_last()[j] == jobs[j]);
        }
        lemma_broadcast_all_coherent(s, jobs.drop_last());
        let before = s.broadcast_all(jobs.drop_last());
        assert(jobs.last() == jobs[jobs.len() - 1]);
        assert(!before.station.contains_key(jobs.last().rob_idx)) by {
            assert(before.station.dom().contains(jobs.last().rob_idx)
                == s.station.dom().contains(jobs.last().rob_idx));
        }
        lemma_broadcast_coherent(before, jobs.last());
    }
}

/// The write-result phase keeps the pipeline coherent, and changes neither
/// registers nor memory.
pub proof fn lemma_write_result_coherent(s: PipelineState, jobs: Seq<FinishedCalc>)
    requires
        s.coherent(),
        s.finishes(jobs),
    ensures
        s.drained().broadcast_all(jobs).coherent(),
        s.drained().broadcast_all(jobs).reg == s.reg,
        s.drained().broadcast_all(jobs).memory == s.memory,
{
    let d = s.drained();
    assert(d.coherent());
    let n = choose|n: int|
        0 <= n <= jobs.len() && drains_loads(s.loads, jobs.subrange(0, n)) && drains_station(
            s.station,
            jobs.subrange(n, jobs.len() as int),
        );
    assert forall|j: int| 0 <= j < jobs.len() implies !d.station.contains_key(
        (#[trigger] jobs[j]).rob_idx,
    ) && !d.loads.contains_key(jobs[j].rob_idx) by {
        let idx = jobs[j].rob_idx;
        if j < n {
            assert(jobs.subrange(0, n)[j] == jobs[j]);
            assert(s.loads.contains_key(idx) && s.loads[idx].status is Finished);
            assert(uses_load_buffer(s.entries[idx].inst));
            if s.station.contains_key(idx) {
                assert(uses_station(s.entries[idx].inst));
            }
        } else {
            assert(jobs.subrange(n, jobs.len() as int)[j - n] == jobs[j]);
            assert(s.station.contains_key(idx) && s.station[idx].status is Finished);
            assert(uses_station(s.entries[idx].inst));
            if s.loads.contains_key(idx) {
                assert(uses_load_buffer(s.entries[idx].inst));
            }
        }
    }
    lemma_broadcast_all_coherent(d, jobs);
}

/// The execute phase keeps the pipeline coherent, and changes neither the
/// general purpose registers nor memory.
pub proof fn lemma_execute_coherent(s: PipelineState, npc: Option<u32>)
    requires
        s.coherent(),
    ensures
        s.executed(npc).coherent(),
        s.executed(npc).reg.gpr == s.reg.gpr,
        s.executed(npc).reg.related_rob == s.reg.related_rob,
        s.executed(npc).memory == s.memory,
{
    let t = s.executed(npc);
    let addressed = rob_after_address(s.entries, s.address_unit);
    let loaded = rob_after_loads(s.loads, s.order, addressed, s.memory);
    assert forall|i: usize| s.entries.contains_key(i) implies {
        &&& t.entries.contains_key(i)
        &&& (#[trigger] t.entries[i]).rd == s.entries[i].rd
        &&& t.entries[i].inst == s.entries[i].inst
        &&& t.entries[i].reg_value == s.entries[i].reg_value
        &&& t.entries[i].addr == addressed[i].addr
    } by {
        assert(addressed.contains_key(i));
        assert(loaded.contains_key(i));
        assert(loaded[i].rd == s.entries[i].rd);
    }
    assert forall|i: usize| t.entries.contains_key(i) implies s.entries.contains_key(i) by {
        assert(loaded.contains_key(i));
    }
    assert(t.ordered()) by {
        assert forall|i: usize| t.entries.contains_key(i) implies
            (#[trigger] t.entries[i]).well_formed() by {
            assert(s.entries[i].well_formed());
        }
    }
    assert(t.renamed_to_writers()) by {
        assert forall|p: int|
            0 <= p < t.order.len() && (#[trigger] t.entries[t.order[p]]).rd != 0 implies exists|
            q: int,
        |
            p <= q < t.order.len() && t.reg.related_rob[t.entries[t.order[p]].rd as int] == Some(
                #[trigger] t.order[q],
            ) by {
            assert(s.order.contains(s.order[p]));
            assert(s.entries[s.order[p]].rd == t.entries[t.order[p]].rd);
        }
    }
}

/// The instruction that is issued next is consistent.
pub proof fn lemma_next_instruction_consistent(s: PipelineState)
    requires
        s.next_instruction() is Some,
    ensures
        s.next_instruction()->0.consistent(),
{
    crate::instruction::lemma_decoded_consistent(s.fetched()->0);
}

/// Issuing an instruction keeps the pipeline coherent, and changes neither
/// the general purpose registers nor memory.
pub proof fn lemma_issue_coherent(s: PipelineState, index: usize)
    requires
        s.coherent(),
        s.next_instruction() is Some,
        !s.entries.contains_key(index),
    ensures
        s.issued(index).coherent(),
        s.issued(index).reg.gpr == s.reg.gpr,
        s.issued(index).memory == s.memory,
{
    lemma_next_instruction_consistent(s);
    let t = s.issued(index);
    let inst = s.next_instruction()->0;
    let rd: int = match inst.fields.rd {
        Some(rd) => rd as int,
        None => 0,
    };
    assert(t.entries[index].rd == rd);
    assert(t.ordered()) by {
        assert(t.order.no_duplicates()) by {
            assert forall|i: int, j: int|
                0 <= i < t.order.len() && 0 <= j < t.order.len() && i != j implies t.order[i]
                != t.order[j] by {
                if i < s.order.len() {
                    assert(s.order.contains(s.order[i]));
                }
                if j < s.order.len() {
                    assert(s.order.contains(s.order[j]));
                }
            }
        }
        assert forall|i: usize| t.entries.contains_key(i) <==> t.order.contains(i) by {
            if t.order.contains(i) {
                let p = choose|p: int| 0 <= p < t.order.len() && t.order[p] == i;
                if p < s.order.len() {
                    assert(s.order.contains(i));
                }
            }
            if s.order.contains(i) {
                let p = choose|p: int| 0 <= p < s.order.len() && s.order[p] == i;
                assert(t.order[p] == i);
            }
            if i == index {
                assert(t.order[s.order.len() as int] == index);
            }
        }
    }
    assert(t.renamed_to_writers()) by {
        assert forall|p: int|
            0 <= p < t.order.len() && (#[trigger] t.entries[t.order[p]]).rd != 0 implies exists|
            q: int,
        |
            p <= q < t.order.len() && t.reg.related_rob[t.entries[t.order[p]].rd as int] == Some(
                #[trigger] t.order[q],
            ) by {
            let last = s.order.len() as int;
            assert(t.order[last] == index);
            if p < last {
                assert(s.order.contains(s.order[p]));
                assert(t.entries[t.order[p]] == s.entries[s.order[p]]);
                let r = s.entries[s.order[p]].rd;
                if r as int == rd {
                    assert(t.reg.related_rob[r as int] == Some(t.order[last]));
                } else {
                    let q = choose|q: int|
                        p <= q < s.order.len() && s.reg.related_rob[r as int] == Some(
                            #[trigger] s.order[q],
                        );
                    assert(t.reg.related_rob[r as int] == Some(t.order[q]));
                }
            } else {
                assert(t.reg.related_rob[rd] == Some(t.order[last]));
            }
        }
    }
}

/// The issue phase keeps the pipeline coherent, and changes neither the
/// general purpose registers nor memory.
pub proof fn lemma_after_issue_coherent(s: PipelineState, issued: Seq<usize>)
    requires
        s.coherent(),
        s.issues(issued),
    ensures
        s.after_issue(issued).coherent(),
        s.after_issue(issued).reg.gpr == s.reg.gpr,
        s.after_issue(issued).memory == s.memory,
{
    if issued.len() >= 1 {
        lemma_issue_coherent(s, issued[0]);
        if issued.len() == 2 {
            lemma_issue_coherent(s.issued(issued[0]), issued[1]);
        }
    }
}

/// Taking the oldest entry out of the reorder buffer, once it is completed,
/// and retiring it keeps the pipeline coherent.
pub proof fn lemma_retire_coherent(s: PipelineState)
    requires
        s.coherent(),
        s.head_completed(),
    ensures
        s.popped().retired(s.order[0], s.entries[s.order[0]]).0.coherent(),
        s.popped().retired(s.order[0], s.entries[s.order[0]]).1 is Continue ==> s.popped().retired(
            s.order[0],
            s.entries[s.order[0]],
        ).0.order == s.order.drop_first(),
{
    let index = s.order[0];
    let entry = s.entries[index];
    let p = s.popped();
    let (t, step) = p.retired(index, entry);
    assert(s.order.contains(index));
    assert(entry.well_formed());
    assert(p.order.no_duplicates());
    assert forall|i: usize| p.entries.contains_key(i) <==> p.order.contains(i) by {
        if p.order.contains(i) {
            let q = choose|q: int| 0 <= q < p.order.len() && p.order[q] == i;
            assert(s.order[q + 1] == i);
            assert(s.order.contains(i));
        }
        if p.entries.contains_key(i) {
            assert(s.order.contains(i));
            let q = choose|q: int| 0 <= q < s.order.len() && s.order[q] == i;
            assert(p.order[q - 1] == i);
        }
    }
    assert(!p.station.contains_key(index) && !p.loads.contains_key(index)
        && !p.address_unit.contains_key(index)) by {
        if s.station.contains_key(index) || s.loads.contains_key(index)
            || s.address_unit.contains_key(index) {
            lemma_unit_entries_are_incomplete(s, index);
        }
    }
    let released = entry.retired_registers(p.reg, index);
    assert(released.wf());
    assert forall|r: int| 0 <= r < 32 implies (#[trigger] released.related_rob[r] matches Some(i)
        ==> p.entries.contains_key(i) && p.entries[i].rd == r) by {
        if released.related_rob[r] is Some {
            let i = released.related_rob[r]->0;
            assert(s.reg.related_rob[r] == Some(i));
            if i == index {
                assert(entry.rd == r);
            }
        }
    }
    assert forall|a: int|
        0 <= a < p.order.len() && (#[trigger] p.entries[p.order[a]]).rd != 0 implies exists|
        q: int,
    |
        a <= q < p.order.len() && released.related_rob[p.entries[p.order[a]].rd as int] == Some(
            #[trigger] p.order[q],
        ) by {
        assert(p.order[a] == s.order[a + 1]);
        assert(s.order.contains(s.order[a + 1]));
        let r = s.entries[s.order[a + 1]].rd;
        let q = choose|q: int|
            a + 1 <= q < s.order.len() && s.reg.related_rob[r as int] == Some(
                #[trigger] s.order[q],
            );
        assert(p.order[q - 1] == s.order[q]);
        assert(s.order[q] != index);
        assert(released.related_rob[r as int] == Some(p.order[q - 1]));
    }
    let applied = PipelineState {
        memory: if entry.writes_memory() {
            p.memory.stored(
                crate::pipeline::functional_units::memory::store_address(entry),
                crate::pipeline::functional_units::memory::store_data(entry),
            )
        } else {
            p.memory
        },
        reg: released,
        predictor: p.trained(entry),
        ..p
    };
    assert(applied.coherent());
    lemma_squash_is_complete(applied, entry.pc);
    lemma_squash_is_complete(applied, PipelineState::branch_target(entry));
    lemma_squash_is_complete(p, entry.pc);
}

/// The commit phase keeps the pipeline coherent.
pub proof fn lemma_commit_coherent(s: PipelineState)
    requires
        s.coherent(),
    ensures
        s.committed().0.coherent(),
    decreases s.order.len(),
{
    if s.head_completed() {
        let index = s.order[0];
        let entry = s.entries[index];
        let (next, step) = s.popped().retired(index, entry);
        lemma_retire_coherent(s);
        if step is Continue {
            assert(PipelineState { order: s.order.drop_first(), ..next } == next);
            lemma_commit_coherent(next);
        }
    }
}

/// The entries that retire in one commit phase are the oldest entries of the
/// reorder buffer, in the order of the buffer, which is the order in which
/// they were issued.
pub proof fn lemma_commit_retires_in_order(s: PipelineState)
    requires
        s.coherent(),
    ensures
        s.committed().1.len() <= s.order.len(),
        forall|i: int|
            0 <= i < s.committed().1.len() ==> (#[trigger] s.committed().1[i]) == (
                s.order[i],
                s.entries[s.order[i]],
            ),
        forall|i: int|
            0 <= i < s.committed().1.len() ==> (#[trigger] s.entries[s.order[i]]).completed(),
    decreases s.order.len(),
{
    if s.head_completed() {
        let index = s.order[0];
        let entry = s.entries[index];
        let (next, step) = s.popped().retired(index, entry);
        lemma_retire_coherent(s);
        if step is Continue {
            assert(PipelineState { order: s.order.drop_first(), ..next } == next);
            lemma_commit_retires_in_order(next);
            let rest = next.committed().1;
            assert(s.committed().1 == seq![(index, entry)] + rest);
            assert(next.entries == s.entries.remove(index));
            assert(next.order == s.order.drop_first());
            assert forall|i: int| 0 <= i < s.committed().1.len() implies
                (#[trigger] s.committed().1[i]) == (s.order[i], s.entries[s.order[i]]) by {
                if i > 0 {
                    assert(s.committed().1[i] == rest[i - 1]);
                    assert(next.order[i - 1] == s.order[i]);
                    assert(s.order[i] != index);
                    assert(s.order.contains(s.order[i]));
                    assert(next.entries[next.order[i - 1]] == s.entries[s.order[i]]);
                }
            }
            assert forall|i: int| 0 <= i < s.committed().1.len() implies
                (#[trigger] s.entries[s.order[i]]).completed() by {
                if i > 0 {
                    assert(next.order[i - 1] == s.order[i]);
                    assert(s.order[i] != index);
                    assert(s.order.contains(s.order[i]));
                    assert(next.entries[next.order[i - 1]].completed());
                    assert(next.entries[next.order[i - 1]] == s.entries[s.order[i]]);
                }
            }
        }
    }
}

/// The phases that follow commit keep the pipeline coherent, and change
/// neither the general purpose registers nor memory: the architectural state
/// changes in commit alone.
pub proof fn lemma_proceed_coherent(s: PipelineState, next: PipelineState, fault: Option<Fault>)
    requires
        s.coherent(),
        s.proceeds(next, fault),
    ensures
        next.coherent(),
        next.reg.gpr == s.reg.gpr,
        next.memory == s.memory,
        next.predictor == s.predictor,
{
    let (jobs, npc, issued) = choose|jobs: Seq<FinishedCalc>, npc: Option<u32>, issued: Seq<usize>|
        #![trigger s.drained().broadcast_all(jobs).executed(npc).after_issue(issued)]
        {
            let written = s.drained().broadcast_all(jobs);
            let executed = written.executed(npc);
            &&& s.finishes(jobs)
            &&& written.redirects(npc)
            &&& executed.issues(issued)
            &&& next == executed.after_issue(issued)
            &&& fault == executed.issue_fault()
        };
    lemma_write_result_coherent(s, jobs);
    let written = s.drained().broadcast_all(jobs);
    lemma_broadcast_all_keeps_predictor(s.drained(), jobs);
    lemma_execute_coherent(written, npc);
    lemma_after_issue_coherent(written.executed(npc), issued);
}

/// Broadcasting results does not change the branch predictor.
proof fn lemma_broadcast_all_keeps_predictor(s: PipelineState, jobs: Seq<FinishedCalc>)
    ensures
        s.broadcast_all(jobs).predictor == s.predictor,
        s.broadcast_all(jobs).order == s.order,
    decreases jobs.len(),
{
    if jobs.len() > 0 {
        lemma_broadcast_all_keeps_predictor(s, jobs.drop_last());
    }
}

/// Applying the answer of the host to a system call keeps the pipeline
/// coherent.
pub proof fn lemma_answer_coherent(s: PipelineState, request: HostRequest, answer: HostAnswer)
    requires
        s.coherent(),
        answered(s.memory, s.reg, request, answer) is Ok,
    ensures
        (PipelineState {
            memory: answered(s.memory, s.reg, request, answer)->Ok_0.0,
            reg: answered(s.memory, s.reg, request, answer)->Ok_0.1,
            awaiting: None,
            ..s
        }).coherent(),
{
    let reg = answered(s.memory, s.reg, request, answer)->Ok_0.1;
    assert(reg.related_rob == s.reg.related_rob);
    let t = PipelineState {
        memory: answered(s.memory, s.reg, request, answer)->Ok_0.0,
        reg,
        awaiting: None,
        ..s
    };
    assert(t.renamed_to_writers()) by {
        assert forall|p: int|
            0 <= p < t.order.len() && (#[trigger] t.entries[t.order[p]]).rd != 0 implies exists|
            q: int,
        |
            p <= q < t.order.len() && t.reg.related_rob[t.entries[t.order[p]].rd as int] == Some(
                #[trigger] t.order[q],
            ) by {
            let q = choose|q: int|
                p <= q < s.order.len() && s.reg.related_rob[s.entries[s.order[p]].rd as int]
                    == Some(#[trigger] s.order[q]);
            assert(t.order[q] == s.order[q]);
        }
    }
}

/// When a branch retires without a fault, the predictor takes its outcome:
/// the prediction for its address is afterwards what the state of the
/// branch before and the outcome give.
pub proof fn lemma_retired_branch_trains_predictor(
    s: PipelineState,
    index: usize,
    entry: ReorderBufferEntry,
)
    requires
        entry.inst.opcode is Branch,
        entry.reg_value is Some,
        entry.retire_fault(s.memory) is None,
    ensures
        s.retired(index, entry).0.predictor[entry.pc]
            == crate::pipeline::branch_predictor::next_state(
            s.predictor[entry.pc],
            entry.reg_value->0 != 0,
        ),
        forall|pc: u32|
            pc != entry.pc ==> s.retired(index, entry).0.predictor[pc] == s.predictor[pc],
{
}

/// After a retirement that ends the batch or the cycle with a fault, nothing
/// is in flight: reorder buffer, stations, address unit and load buffer are
/// empty, and no register is renamed.
pub proof fn lemma_squash_after_retirement(s: PipelineState, index: usize,
    entry: ReorderBufferEntry)
    requires
        s.reg.wf(),
        entry.rd < 32,
        s.retired(index, entry).1 is EndBatch || s.retired(index, entry).1 matches Step::Halt(
            Outcome::Fault(_),
        ),
    ensures
        s.retired(index, entry).0.nothing_in_flight(),
{
}

} // verus!
