//! The order in which instructions are fetched.
//!
//! Each instruction in flight was fetched at the address that follows from
//! the instruction before it: the next word, the target of a jump, or the
//! side of a branch that was predicted. The instruction that retires next is
//! therefore the one that program order calls for, as long as no branch
//! before it was predicted wrongly; a branch that was is found out when it
//! retires, and everything behind it is dropped.

use vstd::prelude::*;
use crate::consts;
use crate::pipeline::coherence::{
    lemma_issue_coherent, lemma_next_instruction_consistent, lemma_retire_coherent,
};
use crate::pipeline::dataflow::immediate;
use crate::pipeline::functional_units::address::{effective_address, rob_after_address};
use crate::pipeline::load_buffer::rob_after_loads;
use crate::pipeline::operand::Operand;
use crate::pipeline::reorder_buffer::ReorderBufferEntry;
use crate::pipeline::reservation_station::FinishedCalc;
use crate::pipeline::PipelineState;

verus! {

/// The address of the word behind the instruction of `entry`.
pub open spec fn following(entry: ReorderBufferEntry) -> u32 {
    vstd::wrapping::u32_specs::wrapping_add(entry.pc, consts::WORD_SIZE as u32)
}

/// The address of `entry`'s instruction plus its immediate.
pub open spec fn target(entry: ReorderBufferEntry) -> u32 {
    vstd::wrapping::u32_specs::wrapping_add(entry.pc, immediate(entry))
}

/// The address at which the pipeline fetches after `entry`: the target of a
/// `jal`; the target of a `jalr` once it is known, and the `jalr` itself
/// until then; the side of a branch that was predicted; the following word
/// otherwise.
pub open spec fn fetched_after(entry: ReorderBufferEntry) -> u32 {
    match entry.inst.opcode {
        crate::instruction::Opcode::Jal => target(entry),
        crate::instruction::Opcode::Jalr => match entry.addr {
            Operand::Value(address) => address,
            Operand::Rob(_) => entry.pc,
        },
        crate::instruction::Opcode::Branch => if entry.branch_pred {
            target(entry)
        } else {
            following(entry)
        },
        _ => following(entry),
    }
}

/// The address of the instruction that program order calls for after
/// `entry`, which has its result: the target of a jump, the side of a
/// branch that its outcome selects, the following word otherwise.
pub open spec fn successor(entry: ReorderBufferEntry) -> u32 {
    match entry.inst.opcode {
        crate::instruction::Opcode::Jal => target(entry),
        crate::instruction::Opcode::Jalr => entry.addr->Value_0,
        crate::instruction::Opcode::Branch => if entry.reg_value == Some(1u32) {
            target(entry)
        } else {
            following(entry)
        },
        _ => following(entry),
    }
}

impl PipelineState {
    /// The address of the instruction that retires next: that of the oldest
    /// instruction in flight, or the address at which the pipeline fetches
    /// if nothing is in flight.
    pub open spec fn retires_next(self) -> u32 {
        if self.order.len() > 0 {
            self.entries[self.order[0]].pc
        } else {
            self.reg.pc
        }
    }

    /// Every instruction in flight was fetched at the address that follows
    /// from the instruction before it, the pipeline fetches at the address
    /// that follows from the youngest, and only the youngest can be a `jalr`
    /// whose target is unknown.
    pub open spec fn in_program_order(self) -> bool {
        &&& forall|p: int|
            0 <= p < self.order.len() - 1 ==> (#[trigger] self.entries[self.order[p + 1]]).pc
                == fetched_after(self.entries[self.order[p]])
        &&& forall|p: int|
            0 <= p < self.order.len() - 1 ==> (#[trigger] self.entries[self.order[p]]).inst.opcode
                is Jalr ==> self.entries[self.order[p]].addr is Value
        &&& self.order.len() > 0 ==> self.reg.pc == fetched_after(self.entries[self.order.last()])
    }
}

/// After a squash the order of fetching starts anew.
pub proof fn lemma_squash_program_order(s: PipelineState, pc: u32)
    ensures
        s.squashed().in_program_order(),
        s.squashed().at(pc).in_program_order(),
        s.squashed().at(pc).retires_next() == pc,
{
}

/// Issuing an instruction keeps the instructions in program order.
pub proof fn lemma_issue_program_order(s: PipelineState, index: usize)
    requires
        s.coherent(),
        s.in_program_order(),
        !s.stalled(),
        s.next_instruction() is Some,
        !s.entries.contains_key(index),
    ensures
        s.issued(index).in_program_order(),
{
    lemma_next_instruction_consistent(s);
    let t = s.issued(index);
    let n = s.order.len() as int;
    assert(t.order[n] == index);
    assert(t.order.last() == index);
    assert forall|m: int| 0 <= m < n implies (#[trigger] t.entries[t.order[m]])
        == s.entries[s.order[m]] by {
        assert(s.order.contains(s.order[m]));
    }
    if n > 0 {
        assert(s.order.last() == s.order[n - 1]);
        assert(t.entries[t.order[n - 1]] == s.entries[s.order[n - 1]]);
        assert(s.order.contains(s.order[n - 1]));
    }
    assert forall|p: int| 0 <= p < t.order.len() - 1 implies
        (#[trigger] t.entries[t.order[p + 1]]).pc == fetched_after(t.entries[t.order[p]]) by {
        if p + 1 < n {
            assert(t.entries[t.order[p + 1]] == s.entries[s.order[p + 1]]);
            assert(t.entries[t.order[p]] == s.entries[s.order[p]]);
        }
    }
    assert forall|p: int|
        0 <= p < t.order.len() - 1 && (#[trigger] t.entries[t.order[p]]).inst.opcode
            is Jalr implies t.entries[t.order[p]].addr is Value by {
        assert(t.entries[t.order[p]] == s.entries[s.order[p]]);
        assert(s.order.contains(s.order[p]));
        assert(s.entries[s.order[p]].well_formed());
    }
}

/// The issue phase keeps the instructions in program order.
pub proof fn lemma_after_issue_program_order(s: PipelineState, issued: Seq<usize>)
    requires
        s.coherent(),
        s.in_program_order(),
        s.issues(issued),
    ensures
        s.after_issue(issued).in_program_order(),
{
    if issued.len() >= 1 {
        lemma_issue_program_order(s, issued[0]);
        if issued.len() == 2 {
            lemma_issue_coherent(s, issued[0]);
            let t = s.issued(issued[0]);
            lemma_next_instruction_consistent(s);
            assert(!t.stalled()) by {
                assert(t.order.last() == issued[0]);
                assert(t.entries[issued[0]].inst == s.next_instruction()->0);
            }
            lemma_issue_program_order(t, issued[1]);
        }
    }
}

/// Broadcasting results changes neither where an instruction was fetched,
/// nor what it is, nor what was predicted for it, nor an address that is
/// known or still to be computed by the address unit.
pub proof fn lemma_broadcast_all_keeps_fetch(s: PipelineState, jobs: Seq<FinishedCalc>)
    ensures
        s.broadcast_all(jobs).order == s.order,
        s.broadcast_all(jobs).reg == s.reg,
        s.broadcast_all(jobs).memory == s.memory,
        s.broadcast_all(jobs).entries.dom() == s.entries.dom(),
        forall|k: usize|
            s.entries.contains_key(k) ==> {
                let before = s.entries[k];
                let after = #[trigger] s.broadcast_all(jobs).entries[k];
                &&& after.pc == before.pc
                &&& after.inst == before.inst
                &&& after.rd == before.rd
                &&& after.branch_pred == before.branch_pred
                &&& after.mem_rem_cycle == before.mem_rem_cycle
                &&& before.addr is Value || before.addr == Operand::Rob(k) ==> after.addr
                    == before.addr
                &&& before.mem_value is Value ==> after.mem_value == before.mem_value
                &&& before.reg_value is Some ==> after.reg_value == before.reg_value
                    || PipelineState::produced(jobs, k)
            },
    decreases jobs.len(),
{
    if jobs.len() > 0 {
        let rest = jobs.drop_last();
        lemma_broadcast_all_keeps_fetch(s, rest);
        let before = s.broadcast_all(rest);
        let after = before.broadcast(jobs.last());
        assert(after.entries.dom() =~= s.entries.dom());
        assert(PipelineState::produced(jobs, jobs.last().rob_idx)) by {
            assert(jobs[jobs.len() - 1].rob_idx == jobs.last().rob_idx);
        }
        assert forall|i: usize| PipelineState::produced(rest, i) implies PipelineState::produced(
            jobs,
            i,
        ) by {
            let j = choose|j: int| 0 <= j < rest.len() && (#[trigger] rest[j]).rob_idx == i;
            assert(jobs[j].rob_idx == i);
        }
        assert forall|k: usize| s.entries.contains_key(k) implies {
            let old_entry = s.entries[k];
            let new_entry = #[trigger] s.broadcast_all(jobs).entries[k];
            &&& new_entry.pc == old_entry.pc
            &&& new_entry.inst == old_entry.inst
            &&& new_entry.rd == old_entry.rd
            &&& new_entry.branch_pred == old_entry.branch_pred
            &&& new_entry.mem_rem_cycle == old_entry.mem_rem_cycle
            &&& old_entry.addr is Value || old_entry.addr == Operand::Rob(k) ==> new_entry.addr
                == old_entry.addr
            &&& old_entry.mem_value is Value ==> new_entry.mem_value == old_entry.mem_value
            &&& old_entry.reg_value is Some ==> new_entry.reg_value == old_entry.reg_value
                || PipelineState::produced(jobs, k)
        } by {
            assert(before.entries.dom().contains(k));
            assert(before.entries.contains_key(k));
            let mid = before.entries[k];
        }
    }
}

/// The write-result phase keeps the instructions in program order.
pub proof fn lemma_write_result_program_order(s: PipelineState, jobs: Seq<FinishedCalc>)
    requires
        s.coherent(),
        s.dataflow_sound(),
        s.in_program_order(),
    ensures
        s.drained().broadcast_all(jobs).in_program_order(),
{
    let d = s.drained();
    let t = d.broadcast_all(jobs);
    lemma_broadcast_all_keeps_fetch(d, jobs);
    assert forall|m: int| 0 <= m < s.order.len() implies {
        let before = s.entries[s.order[m]];
        let after = #[trigger] t.entries[t.order[m]];
        &&& after.pc == before.pc
        &&& after.inst == before.inst
        &&& after.branch_pred == before.branch_pred
        &&& after.inst.opcode is Jalr ==> after.addr == before.addr
    } by {
        let k = s.order[m];
        assert(s.order.contains(k));
        assert(d.entries.contains_key(k));
        assert(s.entries[k].well_formed());
        assert(s.reads_at(m));
    }
    if s.order.len() > 0 {
        assert(s.order.last() == s.order[s.order.len() - 1]);
    }
}

/// The execute phase keeps the instructions in program order: when the
/// target of the youngest instruction, a `jalr`, becomes known, the pipeline
/// fetches there.
pub proof fn lemma_execute_program_order(s: PipelineState, npc: Option<u32>)
    requires
        s.coherent(),
        s.dataflow_sound(),
        s.in_program_order(),
        s.redirects(npc),
    ensures
        s.executed(npc).in_program_order(),
{
    let t = s.executed(npc);
    let addressed = rob_after_address(s.entries, s.address_unit);
    let loaded = rob_after_loads(s.loads, s.order, addressed, s.memory);
    let n = s.order.len() as int;
    assert forall|m: int| 0 <= m < n implies {
        let k = s.order[m];
        let before = s.entries[k];
        let after = #[trigger] t.entries[t.order[m]];
        &&& s.entries.contains_key(k)
        &&& before.well_formed()
        &&& after.pc == before.pc
        &&& after.inst == before.inst
        &&& after.branch_pred == before.branch_pred
        &&& after.addr == addressed[k].addr
        &&& before.addr is Value ==> after.addr == before.addr
    } by {
        let k = s.order[m];
        assert(s.order.contains(k));
        assert(addressed.contains_key(k));
        assert(loaded.contains_key(k));
        assert(loaded[k].pc == s.entries[k].pc);
        if s.address_unit.contains_key(k) {
        }
    }
    // a `jalr` in the address unit is the youngest instruction
    assert forall|k: usize|
        s.address_unit.contains_key(k) && (#[trigger] s.address_unit[k]).inst.opcode
            is Jalr implies n > 0 && k == s.order.last() by {
        assert(s.entries.contains_key(k));
        assert(s.order.contains(k));
        let m = choose|m: int| 0 <= m < s.order.len() && s.order[m] == k;
        assert(s.reads_at(m));
        assert(s.entries[s.order[m]].addr == Operand::Rob(k));
        if m < n - 1 {
            assert(s.entries[s.order[m]].inst.opcode is Jalr);
        }
    }
    if n > 0 {
        let last = s.order.last();
        assert(last == s.order[n - 1]);
        assert(t.order.last() == t.order[n - 1]);
        let before = s.entries[last];
        let after = t.entries[last];
        assert(after == t.entries[t.order[n - 1]]);
        assert(s.reads_at(n - 1));
        if before.inst.opcode is Jalr && before.addr is Rob {
            if s.address_unit.contains_key(last) && s.address_unit[last].ready() {
                assert(s.address_unit[last].inst == before.inst);
                assert(npc is Some);
            } else {
                assert(after.addr == before.addr);
                if npc is Some {
                    let idx = choose|idx: usize|
                        #![trigger s.address_unit[idx]]
                        s.address_unit.contains_key(idx) && s.address_unit[idx].ready()
                            && s.address_unit[idx].inst.opcode is Jalr && npc->0
                            == effective_address(s.address_unit[idx]);
                    assert(idx == last);
                }
            }
        } else {
            if npc is Some {
                let idx = choose|idx: usize|
                    #![trigger s.address_unit[idx]]
                    s.address_unit.contains_key(idx) && s.address_unit[idx].ready()
                        && s.address_unit[idx].inst.opcode is Jalr && npc->0 == effective_address(
                        s.address_unit[idx],
                    );
                assert(idx == last);
                assert(s.entries[last].addr == Operand::Rob(last));
                assert(s.address_unit[idx].inst == before.inst);
            }
        }
    } else {
        if npc is Some {
            let idx = choose|idx: usize|
                #![trigger s.address_unit[idx]]
                s.address_unit.contains_key(idx) && s.address_unit[idx].ready()
                    && s.address_unit[idx].inst.opcode is Jalr && npc->0 == effective_address(
                    s.address_unit[idx],
                );
            assert(s.entries.contains_key(idx));
            assert(s.order.contains(idx));
        }
    }
}

/// Retiring the oldest instruction keeps the instructions in program order,
/// and the instruction that retires next is the one that program order
/// calls for: the successor of the instruction that has retired.
pub proof fn lemma_retire_program_order(s: PipelineState)
    requires
        s.coherent(),
        s.dataflow_sound(),
        s.in_program_order(),
        s.head_completed(),
    ensures
        s.popped().retired(s.order[0], s.entries[s.order[0]]).0.in_program_order(),
        ({
            let entry = s.entries[s.order[0]];
            let (next, step) = s.popped().retired(s.order[0], entry);
            (step is Continue || step is EndBatch) && !(entry.inst.opcode is Branch
                && entry.reg_value is None) ==> next.retires_next() == successor(entry)
        }),
{
    let index = s.order[0];
    let entry = s.entries[index];
    let p = s.popped();
    let (t, step) = p.retired(index, entry);
    assert(s.order.contains(index));
    assert(entry.well_formed());
    lemma_squash_program_order(p, entry.pc);
    assert forall|m: int| 0 <= m < p.order.len() implies #[trigger] p.order[m] == s.order[m + 1]
        && p.entries[p.order[m]] == s.entries[s.order[m + 1]] by {
        assert(s.order.contains(s.order[m + 1]));
        assert(s.order[m + 1] != index);
    }
    if p.order.len() > 0 {
        assert(p.order.last() == s.order.last());
        assert(s.order.last() == s.order[s.order.len() - 1]);
        assert(p.order[0] == s.order[1]);
        let first: int = 0;
        assert(s.entries[s.order[first + 1]].pc == fetched_after(s.entries[s.order[first]]));
    } else {
        assert(s.order.last() == s.order[0]);
    }
    assert forall|m: int| 0 <= m < p.order.len() - 1 implies
        (#[trigger] p.entries[p.order[m + 1]]).pc == fetched_after(p.entries[p.order[m]]) by {
        assert(s.entries[s.order[(m + 1) + 1]].pc == fetched_after(s.entries[s.order[m + 1]]));
    }
    assert forall|m: int|
        0 <= m < p.order.len() - 1 && (#[trigger] p.entries[p.order[m]]).inst.opcode
            is Jalr implies p.entries[p.order[m]].addr is Value by {
        assert(p.entries[p.order[m]] == s.entries[s.order[m + 1]]);
    }
}

/// The commit phase keeps the instructions in program order.
pub proof fn lemma_commit_program_order(s: PipelineState)
    requires
        s.coherent(),
        s.dataflow_sound(),
        s.in_program_order(),
    ensures
        s.committed().0.in_program_order(),
    decreases s.order.len(),
{
    if s.head_completed() {
        let index = s.order[0];
        let entry = s.entries[index];
        let (next, step) = s.popped().retired(index, entry);
        lemma_retire_coherent(s);
        crate::pipeline::dataflow::lemma_retire_dataflow(s);
        lemma_retire_program_order(s);
        if step is Continue {
            assert(PipelineState { order: s.order.drop_first(), ..next } == next);
            lemma_commit_program_order(next);
        }
    }
}

/// The tick of the clock and the answer of the host to a system call do not
/// change what is in flight, nor where the pipeline fetches.
pub proof fn lemma_unchanged_program_order(s: PipelineState, t: PipelineState)
    requires
        s.in_program_order(),
        t.order == s.order,
        t.entries == s.entries,
        t.reg.pc == s.reg.pc,
    ensures
        t.in_program_order(),
{
}

} // verus!
