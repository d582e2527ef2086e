//! Loads and the stores before them.
//!
//! A load may read memory before the stores that precede it in program order
//! have written, for stores write when they retire. What it reads is
//! nevertheless what it would read in program order: the load buffer holds a
//! load back while an older store could write its address, and an older
//! store to another address leaves the bytes of the load alone, provided
//! that accesses to different addresses do not overlap. Under that proviso
//! this module shows that a load that has read holds what memory holds at
//! its address, until it retires.

use vstd::prelude::*;
use crate::memory::MemoryImage;
use crate::pipeline::coherence::lemma_retire_coherent;
use crate::pipeline::dataflow::{
    lemma_broadcast_all_dataflow, lemma_drained_dataflow, lemma_finished_job_sound,
    lemma_operand_at_after_retire, lemma_operand_at_agrees,
};
use crate::pipeline::exception::Exception;
use crate::pipeline::functional_units::address::rob_after_address;
use crate::pipeline::functional_units::memory::{
    atomic_result, load_width, store_address, store_data,
};
use crate::pipeline::load_buffer::{
    blocks_load, drains_loads, load_outcome, load_ready, load_result, rob_after_loads,
};
use crate::pipeline::operand::Operand;
use crate::pipeline::program_order::lemma_broadcast_all_keeps_fetch;
use crate::pipeline::reorder_buffer::ReorderBufferEntry;
use crate::pipeline::reservation_station::{
    drains_station, uses_load_buffer, uses_station, FinishedCalc,
};
use crate::pipeline::{PipelineState, Step};

verus! {

impl MemoryImage {
    /// Whether the `n` bytes at `a` and the `m` bytes at `b` have a byte in
    /// common.
    pub open spec fn overlap(self, a: u32, n: int, b: u32, m: int) -> bool {
        self.in_stack(a) == self.in_stack(b) && self.offset(a) < self.offset(b) + m && self.offset(
            b,
        ) < self.offset(a) + n
    }
}

/// A store leaves the bytes that it does not overlap as they are, and what
/// can be accessed stays the same.
pub proof fn lemma_store_elsewhere(memory: MemoryImage, a: u32, bytes: Seq<u8>, b: u32, m: int)
    requires
        memory.accessible(a, bytes.len() as int),
        !memory.overlap(a, bytes.len() as int, b, m),
        0 <= m,
    ensures
        memory.stored(a, bytes).accessible(b, m) == memory.accessible(b, m),
        memory.accessible(b, m) ==> memory.stored(a, bytes).bytes_at(b, m) == memory.bytes_at(b, m),
{
    let after = memory.stored(a, bytes);
    assert(after.region(a).len() == memory.region(a).len());
    if memory.accessible(b, m) {
        assert(after.bytes_at(b, m) =~= memory.bytes_at(b, m));
    }
}

impl PipelineState {
    /// What the load at index `k`, which has read, has got: the outcome that
    /// waits in the load buffer or, once it has been broadcast, the result
    /// and the fault in the entry.
    pub open spec fn read_result(self, k: usize) -> Result<u32, Exception> {
        if self.loads.contains_key(k) {
            self.loads[k].value
        } else {
            match self.entries[k].mem_exception {
                Err(exception) => Err(exception),
                Ok(_) => Ok(self.entries[k].reg_value->0),
            }
        }
    }

    /// The load at place `p`, if it has read, holds what memory holds at its
    /// address; an atomic operation holds the word that it will write; and
    /// every older store in flight has a known address that differs from
    /// that of the load.
    pub open spec fn load_sound_at(self, p: int) -> bool {
        let k = self.order[p];
        let entry = self.entries[k];
        uses_load_buffer(entry.inst) ==> {
            &&& self.loads.contains_key(k) ==> entry.mem_exception is Ok
            &&& !self.loads.contains_key(k) ==> entry.reg_value is Some
            &&& !self.to_be_loaded(k) ==> {
                &&& entry.addr is Value
                &&& self.read_result(k) == load_outcome(entry, self.memory)
                &&& entry.inst.opcode is Amo && !(entry.inst.function is Lrw) ==> (
                self.read_result(k) matches Ok(old) ==> self.operand_at(
                    p,
                    entry.inst.fields.rs2->0 as int,
                ) matches Operand::Value(operand) && entry.mem_value == Operand::Value(
                    atomic_result(entry.inst.function, old, operand),
                ))
                &&& forall|q: int|
                    0 <= q < p ==> !blocks_load(
                        #[trigger] self.entries[self.order[q]],
                        entry.addr->Value_0,
                    )
            }
        }
    }

    /// Every load in flight that has read holds what memory holds at its
    /// address.
    pub open spec fn loads_sound(self) -> bool {
        forall|p: int| 0 <= p < self.order.len() ==> #[trigger] self.load_sound_at(p)
    }

    /// The number of bytes that the store of `entry` writes.
    pub open spec fn store_width(entry: ReorderBufferEntry) -> int {
        match entry.inst.function {
            crate::instruction::Function::Sb => 1,
            crate::instruction::Function::Sh => 2,
            _ => 4,
        }
    }

    /// The proviso: a store in flight and a younger load in flight with
    /// another address have no byte in common.
    pub open spec fn separated(self) -> bool {
        forall|q: int, p: int|
            0 <= q < p < self.order.len() && (#[trigger] self.entries[self.order[q]]).is_store()
                && uses_load_buffer((#[trigger] self.entries[self.order[p]]).inst)
                && self.entries[self.order[q]].addr is Value && self.entries[self.order[p]].addr
                is Value && self.entries[self.order[q]].addr != self.entries[self.order[p]].addr
                ==> !self.memory.overlap(
                self.entries[self.order[q]].addr->Value_0,
                PipelineState::store_width(self.entries[self.order[q]]),
                self.entries[self.order[p]].addr->Value_0,
                load_width(self.entries[self.order[p]].inst.function),
            )
    }
}

/// A load at the head of the reorder buffer that has its result holds what
/// memory holds now.
pub proof fn lemma_oldest_load_sound(s: PipelineState)
    requires
        s.coherent(),
        s.dataflow_sound(),
        s.loads_sound(),
        s.order.len() > 0,
    ensures
        s.oldest_load_sound(),
{
    assert(s.load_sound_at(0));
    assert(s.order.contains(s.order[0]));
    assert(s.reads_at(0));
}

/// After a squash no load is in flight.
pub proof fn lemma_squash_loads(s: PipelineState, pc: u32)
    ensures
        s.squashed().loads_sound(),
        s.squashed().at(pc).loads_sound(),
{
}

/// Issuing an instruction keeps the loads sound.
pub proof fn lemma_issue_loads(s: PipelineState, index: usize)
    requires
        s.coherent(),
        s.loads_sound(),
        s.next_instruction() is Some,
        !s.entries.contains_key(index),
    ensures
        s.issued(index).loads_sound(),
{
    let t = s.issued(index);
    let n = s.order.len() as int;
    assert(t.order[n] == index);
    assert(!s.loads.contains_key(index));
    assert forall|m: int| 0 <= m < n implies (#[trigger] t.entries[t.order[m]])
        == s.entries[s.order[m]] && t.order[m] == s.order[m] by {
        assert(s.order.contains(s.order[m]));
    }
    assert forall|p: int| 0 <= p < t.order.len() implies #[trigger] t.load_sound_at(p) by {
        if p < n {
            assert(s.load_sound_at(p));
            let k = s.order[p];
            let entry = s.entries[k];
            assert(s.order.contains(k));
            assert(t.entries[t.order[p]] == entry);
            lemma_operand_at_agrees(s, t, p, entry.inst.fields.rs2->0 as int);
            assert(t.to_be_loaded(k) == s.to_be_loaded(k));
            if uses_load_buffer(entry.inst) && !s.to_be_loaded(k) {
                assert forall|q: int| 0 <= q < p implies !blocks_load(
                    #[trigger] t.entries[t.order[q]],
                    entry.addr->Value_0,
                ) by {
                    assert(t.entries[t.order[q]] == s.entries[s.order[q]]);
                }
            }
        }
    }
}

/// The issue phase keeps the loads sound.
pub proof fn lemma_after_issue_loads(s: PipelineState, issued: Seq<usize>)
    requires
        s.coherent(),
        s.loads_sound(),
        s.issues(issued),
    ensures
        s.after_issue(issued).loads_sound(),
{
    if issued.len() >= 1 {
        lemma_issue_loads(s, issued[0]);
        if issued.len() == 2 {
            crate::pipeline::coherence::lemma_issue_coherent(s, issued[0]);
            lemma_issue_loads(s.issued(issued[0]), issued[1]);
        }
    }
}

/// The execute phase keeps the loads sound: a load reads only when no older
/// store in flight could write its address, and it reads memory as it is.
pub proof fn lemma_execute_loads(s: PipelineState, npc: Option<u32>)
    requires
        s.coherent(),
        s.dataflow_sound(),
        s.loads_sound(),
    ensures
        s.executed(npc).loads_sound(),
{
    let t = s.executed(npc);
    let addressed = rob_after_address(s.entries, s.address_unit);
    let loaded = rob_after_loads(s.loads, s.order, addressed, s.memory);
    assert forall|m: int| 0 <= m < s.order.len() implies {
        let k = s.order[m];
        &&& s.entries.contains_key(k)
        &&& s.entries[k].well_formed()
        &&& addressed.contains_key(k)
        &&& loaded.contains_key(k)
        &&& (#[trigger] t.entries[t.order[m]]).inst == s.entries[k].inst
        &&& t.entries[k].rd == s.entries[k].rd
        &&& t.entries[k].reg_value == s.entries[k].reg_value
        &&& t.entries[k].mem_exception == s.entries[k].mem_exception
        &&& t.entries[k].addr == addressed[k].addr
        &&& s.entries[k].addr is Value ==> addressed[k].addr == s.entries[k].addr
        &&& t.entries[k].mem_value == loaded[k].mem_value
    } by {
        let k = s.order[m];
        assert(s.order.contains(k));
        assert(addressed.contains_key(k));
        assert(loaded.contains_key(k));
        assert(loaded[k].rd == s.entries[k].rd);
    }
    assert forall|p: int| 0 <= p < t.order.len() implies #[trigger] t.load_sound_at(p) by {
        assert(s.load_sound_at(p));
        assert(s.reads_at(p));
        let k = s.order[p];
        let entry = s.entries[k];
        assert(t.entries[t.order[p]].inst == entry.inst);
        lemma_operand_at_agrees(s, t, p, entry.inst.fields.rs2->0 as int);
        if uses_load_buffer(entry.inst) && !t.to_be_loaded(k) {
            let address = t.entries[k].addr->Value_0;
            if s.to_be_loaded(k) {
                // the load has read in this cycle
                assert(load_ready(s.loads[k], s.order, addressed));
                assert(s.loads[k].rob_index == k);
                lemma_place_is_index(s, p);
                assert forall|q: int| 0 <= q < p implies !blocks_load(
                    #[trigger] t.entries[t.order[q]],
                    address,
                ) by {
                    assert(!blocks_load(addressed[s.order[q]], address));
                    assert(t.entries[t.order[q]].inst == s.entries[s.order[q]].inst);
                }
            } else {
                assert forall|q: int| 0 <= q < p implies !blocks_load(
                    #[trigger] t.entries[t.order[q]],
                    address,
                ) by {
                    assert(!blocks_load(s.entries[s.order[q]], address));
                    assert(t.entries[t.order[q]].inst == s.entries[s.order[q]].inst);
                }
            }
        }
    }
}

/// In a buffer without duplicates, the place of an index is the place at
/// which it stands.
pub proof fn lemma_place_is_index(s: PipelineState, p: int)
    requires
        s.coherent(),
        0 <= p < s.order.len(),
    ensures
        s.order.index_of(s.order[p]) == p,
{
    assert(s.order.contains(s.order[p]));
    let q = s.order.index_of(s.order[p]);
    assert(0 <= q < s.order.len() && s.order[q] == s.order[p]);
}

/// After results of different producers have been broadcast, each producer
/// holds its result and its fault, and every other entry holds the result
/// and the fault that it held before.
pub proof fn lemma_broadcast_all_results(s: PipelineState, jobs: Seq<FinishedCalc>)
    requires
        forall|i: int, j: int|
            0 <= i < jobs.len() && 0 <= j < jobs.len() && i != j ==> (#[trigger] jobs[i]).rob_idx
                != (#[trigger] jobs[j]).rob_idx,
    ensures
        forall|j: int|
            0 <= j < jobs.len() && s.entries.contains_key((#[trigger] jobs[j]).rob_idx) ==> {
                let after = s.broadcast_all(jobs).entries[jobs[j].rob_idx];
                &&& after.reg_value == Some(jobs[j].reg_value)
                &&& after.mem_exception == (match jobs[j].exception {
                    Some(exception) => Err::<(), Exception>(exception),
                    None => s.entries[jobs[j].rob_idx].mem_exception,
                })
            },
        forall|k: usize|
            s.entries.contains_key(k) && !PipelineState::produced(jobs, k) ==> (
            #[trigger] s.broadcast_all(jobs).entries[k]).reg_value == s.entries[k].reg_value
                && s.broadcast_all(jobs).entries[k].mem_exception == s.entries[k].mem_exception,
    decreases jobs.len(),
{
    if jobs.len() > 0 {
        let rest = jobs.drop_last();
        let job = jobs.last();
        assert forall|i: int, j: int|
            0 <= i < rest.len() && 0 <= j < rest.len() && i != j implies
            (#[trigger] rest[i]).rob_idx != (#[trigger] rest[j]).rob_idx by {
            assert(rest[i] == jobs[i] && rest[j] == jobs[j]);
        }
        lemma_broadcast_all_results(s, rest);
        lemma_broadcast_all_keeps_fetch(s, rest);
        let before = s.broadcast_all(rest);
        assert(job == jobs[jobs.len() - 1]);
        assert(!PipelineState::produced(rest, job.rob_idx)) by {
            if PipelineState::produced(rest, job.rob_idx) {
                let j = choose|j: int|
                    0 <= j < rest.len() && (#[trigger] rest[j]).rob_idx == job.rob_idx;
                assert(rest[j] == jobs[j]);
            }
        }
        assert forall|j: int|
            0 <= j < jobs.len() && s.entries.contains_key(
                (#[trigger] jobs[j]).rob_idx,
            ) implies {
            let after = s.broadcast_all(jobs).entries[jobs[j].rob_idx];
            &&& after.reg_value == Some(jobs[j].reg_value)
            &&& after.mem_exception == (match jobs[j].exception {
                Some(exception) => Err::<(), Exception>(exception),
                None => s.entries[jobs[j].rob_idx].mem_exception,
            })
        } by {
            let k = jobs[j].rob_idx;
            assert(before.entries.dom().contains(k));
            if j < jobs.len() - 1 {
                assert(rest[j] == jobs[j]);
                assert(k != job.rob_idx);
            }
        }
        assert forall|k: usize|
            s.entries.contains_key(k) && !PipelineState::produced(jobs, k) implies
            (#[trigger] s.broadcast_all(jobs).entries[k]).reg_value == s.entries[k].reg_value
            && s.broadcast_all(jobs).entries[k].mem_exception == s.entries[k].mem_exception by {
            assert(before.entries.dom().contains(k));
            assert(k != job.rob_idx) by {
                if k == job.rob_idx {
                    assert(jobs[jobs.len() - 1].rob_idx == k);
                }
            }
            assert(!PipelineState::produced(rest, k)) by {
                if PipelineState::produced(rest, k) {
                    let j = choose|j: int| 0 <= j < rest.len() && (#[trigger] rest[j]).rob_idx == k;
                    assert(jobs[j].rob_idx == k);
                }
            }
        }
    }
}

/// The write-result phase keeps the loads sound: what a load has read goes
/// from the load buffer to its entry.
pub proof fn lemma_write_result_loads(s: PipelineState, jobs: Seq<FinishedCalc>)
    requires
        s.coherent(),
        s.dataflow_sound(),
        s.loads_sound(),
        s.finishes(jobs),
    ensures
        s.drained().broadcast_all(jobs).loads_sound(),
{
    let d = s.drained();
    let t = d.broadcast_all(jobs);
    let n = choose|n: int|
        0 <= n <= jobs.len() && drains_loads(s.loads, jobs.subrange(0, n)) && drains_station(
            s.station,
            jobs.subrange(n, jobs.len() as int),
        );
    let from_loads = jobs.subrange(0, n);
    let from_station = jobs.subrange(n, jobs.len() as int);
    lemma_drained_dataflow(s);
    assert forall|j: int| 0 <= j < jobs.len() implies d.job_sound(#[trigger] jobs[j]) by {
        lemma_finished_job_sound(s, jobs, n, j);
    }
    assert forall|i: int, j: int|
        0 <= i < jobs.len() && 0 <= j < jobs.len() && i != j implies (#[trigger] jobs[i]).rob_idx
        != (#[trigger] jobs[j]).rob_idx by {
        lemma_finished_job_sound(s, jobs, n, i);
        lemma_finished_job_sound(s, jobs, n, j);
        if i < n && j < n {
            assert(from_loads[i] == jobs[i] && from_loads[j] == jobs[j]);
        } else if i >= n && j >= n {
            assert(from_station[i - n] == jobs[i] && from_station[j - n] == jobs[j]);
        } else {
            let k = if i < n {
                jobs[i].rob_idx
            } else {
                jobs[j].rob_idx
            };
            if jobs[i].rob_idx == jobs[j].rob_idx {
                assert(uses_load_buffer(s.entries[k].inst));
                assert(uses_station(s.entries[k].inst));
            }
        }
    }
    lemma_broadcast_all_dataflow(d, jobs);
    lemma_broadcast_all_keeps_fetch(d, jobs);
    lemma_broadcast_all_results(d, jobs);
    assert forall|p: int| 0 <= p < t.order.len() implies #[trigger] t.load_sound_at(p) by {
        assert(s.load_sound_at(p));
        assert(s.reads_at(p));
        let k = s.order[p];
        let entry = s.entries[k];
        assert(s.order.contains(k));
        assert(d.entries.contains_key(k));
        assert(t.entries[k].inst == entry.inst);
        if uses_load_buffer(entry.inst) {
            if s.loads.contains_key(k) && s.loads[k].status is Finished {
                // the outcome of the load is among the jobs
                let j = choose|j: int|
                    0 <= j < from_loads.len() && (#[trigger] from_loads[j]).rob_idx == k;
                assert(jobs[j] == from_loads[j]);
                assert(jobs[j] == load_result(s.loads[k]));
                assert(s.loads[k].rob_index == k);
                assert(!d.loads.contains_key(k));
            } else if s.loads.contains_key(k) {
                assert(d.loads.contains_key(k) && d.loads[k] == s.loads[k]);
                assert(!PipelineState::produced(jobs, k)) by {
                    if PipelineState::produced(jobs, k) {
                        let j = choose|j: int|
                            0 <= j < jobs.len() && (#[trigger] jobs[j]).rob_idx == k;
                        lemma_finished_job_sound(s, jobs, n, j);
                        if j < n {
                            assert(from_loads[j] == jobs[j]);
                        } else {
                            assert(uses_station(s.entries[k].inst));
                        }
                    }
                }
            } else {
                assert(!d.loads.contains_key(k));
                assert(entry.reg_value is Some);
                assert(!PipelineState::produced(jobs, k)) by {
                    if PipelineState::produced(jobs, k) {
                        let j = choose|j: int|
                            0 <= j < jobs.len() && (#[trigger] jobs[j]).rob_idx == k;
                        assert(d.job_sound(jobs[j]));
                    }
                }
            }
            if !t.to_be_loaded(k) {
                assert(!s.to_be_loaded(k));
                assert(entry.addr is Value);
                assert(t.entries[k].addr == entry.addr);
                let address = entry.addr->Value_0;
                assert forall|q: int| 0 <= q < p implies !blocks_load(
                    #[trigger] t.entries[t.order[q]],
                    address,
                ) by {
                    let older = s.order[q];
                    assert(s.order.contains(older));
                    assert(d.entries.contains_key(older));
                    assert(!blocks_load(s.entries[s.order[q]], address));
                    assert(t.entries[older].inst == s.entries[older].inst);
                }
                if entry.inst.opcode is Amo && !(entry.inst.function is Lrw) {
                    lemma_operand_at_agrees(s, d, p, entry.inst.fields.rs2->0 as int);
                }
            }
        }
    }
}

/// A state that holds fewer instructions in flight, at the same addresses,
/// keeps the proviso.
pub proof fn lemma_retire_separated(s: PipelineState)
    requires
        s.coherent(),
        s.separated(),
        s.head_completed(),
    ensures
        s.popped().retired(s.order[0], s.entries[s.order[0]]).0.separated(),
{
    let index = s.order[0];
    let entry = s.entries[index];
    let popped = s.popped();
    let (t, step) = popped.retired(index, entry);
    assert(s.order.contains(index));
    if t.order.len() > 0 {
        assert(t.order == popped.order);
        assert(t.entries == popped.entries);
        assert forall|m: int| 0 <= m < t.order.len() implies #[trigger] t.order[m] == s.order[m
            + 1] && t.entries[t.order[m]] == s.entries[s.order[m + 1]] by {
            assert(s.order.contains(s.order[m + 1]));
            assert(s.order[m + 1] != index);
        }
        assert forall|q: int, p: int|
            0 <= q < p < t.order.len() && (#[trigger] t.entries[t.order[q]]).is_store()
                && uses_load_buffer((#[trigger] t.entries[t.order[p]]).inst)
                && t.entries[t.order[q]].addr is Value && t.entries[t.order[p]].addr is Value
                && t.entries[t.order[q]].addr != t.entries[t.order[p]].addr
                    implies !t.memory.overlap(
            t.entries[t.order[q]].addr->Value_0,
            PipelineState::store_width(t.entries[t.order[q]]),
            t.entries[t.order[p]].addr->Value_0,
            load_width(t.entries[t.order[p]].inst.function),
        ) by {
            let older = s.entries[s.order[q + 1]];
            let younger = s.entries[s.order[p + 1]];
            assert(t.entries[t.order[q]] == older);
            assert(t.entries[t.order[p]] == younger);
            assert(!s.memory.overlap(
                older.addr->Value_0,
                PipelineState::store_width(older),
                younger.addr->Value_0,
                load_width(younger.inst.function),
            ));
        }
    }
}

/// Retiring the oldest instruction keeps the loads sound, under the proviso:
/// when a store writes memory, no load that has read reads differently
/// afterwards.
pub proof fn lemma_retire_loads(s: PipelineState)
    requires
        s.coherent(),
        s.dataflow_sound(),
        s.loads_sound(),
        s.separated(),
        s.head_completed(),
    ensures
        s.popped().retired(s.order[0], s.entries[s.order[0]]).0.loads_sound(),
{
    let index = s.order[0];
    let entry = s.entries[index];
    let popped = s.popped();
    let (t, step) = popped.retired(index, entry);
    assert(s.order.contains(index));
    assert(entry.well_formed());
    lemma_retire_coherent(s);
    lemma_squash_loads(popped, entry.pc);
    if t.order.len() > 0 {
        assert(s.order.len() >= 2);
        assert(t.order == popped.order);
        assert(t.entries == popped.entries);
        assert(t.loads == s.loads);
        assert(s.reads_at(0));
        assert forall|m: int| 0 <= m < t.order.len() implies #[trigger] t.order[m] == s.order[m
            + 1] && t.entries[t.order[m]] == s.entries[s.order[m + 1]] by {
            assert(s.order.contains(s.order[m + 1]));
            assert(s.order[m + 1] != index);
        }
        assert forall|p: int| 0 <= p < t.order.len() implies #[trigger] t.load_sound_at(p) by {
            assert(s.load_sound_at(p + 1));
            let k = s.order[p + 1];
            let load = s.entries[k];
            assert(t.order[p] == k);
            assert(t.entries[k] == load);
            assert(s.order.contains(k));
            assert(load.well_formed());
            if uses_load_buffer(load.inst) && !t.to_be_loaded(k) {
                let address = load.addr->Value_0;
                let width = load_width(load.inst.function);
                if load.inst.opcode is Amo {
                    lemma_operand_at_after_retire(s, t, p + 1, load.inst.fields.rs2->0 as int);
                }
                assert forall|q: int| 0 <= q < p implies !blocks_load(
                    #[trigger] t.entries[t.order[q]],
                    address,
                ) by {
                    assert(!blocks_load(s.entries[s.order[q + 1]], address));
                }
                // the store of the entry that retires leaves the bytes of
                // the load alone
                if t.memory != s.memory {
                    assert(entry.writes_memory());
                    assert(!blocks_load(s.entries[s.order[0]], address));
                    assert(entry.is_store());
                    let target = store_address(entry);
                    let bytes = store_data(entry);
                    assert(entry.addr == Operand::Value(target));
                    assert(bytes.len() == PipelineState::store_width(entry));
                    assert(!s.memory.overlap(
                        s.entries[s.order[0]].addr->Value_0,
                        PipelineState::store_width(s.entries[s.order[0]]),
                        s.entries[s.order[p + 1]].addr->Value_0,
                        load_width(s.entries[s.order[p + 1]].inst.function),
                    ));
                    assert(s.memory.store_fault(target, bytes.len() as int) is None);
                    lemma_store_elsewhere(s.memory, target, bytes, address, width);
                }
            }
        }
    }
}

/// The commit phase keeps the loads sound, under the proviso.
pub proof fn lemma_commit_loads(s: PipelineState)
    requires
        s.coherent(),
        s.dataflow_sound(),
        s.loads_sound(),
        s.separated(),
    ensures
        s.committed().0.loads_sound(),
    decreases s.order.len(),
{
    if s.head_completed() {
        let index = s.order[0];
        let entry = s.entries[index];
        let (next, step) = s.popped().retired(index, entry);
        lemma_retire_coherent(s);
        crate::pipeline::dataflow::lemma_retire_dataflow(s);
        lemma_retire_loads(s);
        lemma_retire_separated(s);
        if step is Continue {
            assert(PipelineState { order: s.order.drop_first(), ..next } == next);
            lemma_commit_loads(next);
        }
    }
}

impl PipelineState {
    /// Every instruction in flight is the instruction that memory holds at
    /// its address.
    pub open spec fn fetched_from_memory(self) -> bool {
        forall|p: int|
            0 <= p < self.order.len() ==> crate::pipeline::instruction_at(
                self.memory,
                (#[trigger] self.entries[self.order[p]]).pc,
            ) == Some(self.entries[self.order[p]].inst)
    }

    /// The second proviso: a store in flight has no byte in common with a
    /// younger instruction in flight, nor with the instruction that is
    /// fetched next.
    pub open spec fn code_untouched(self) -> bool {
        &&& forall|q: int, p: int|
            0 <= q < p < self.order.len() && (#[trigger] self.entries[self.order[q]]).is_store()
                && self.entries[self.order[q]].addr is Value ==> !self.memory.overlap(
                self.entries[self.order[q]].addr->Value_0,
                PipelineState::store_width(self.entries[self.order[q]]),
                (#[trigger] self.entries[self.order[p]]).pc,
                4,
            )
    }
}

/// What memory holds at an address as an instruction does not change when a
/// store writes elsewhere.
pub proof fn lemma_instruction_elsewhere(memory: MemoryImage, a: u32, bytes: Seq<u8>, pc: u32)
    requires
        memory.accessible(a, bytes.len() as int),
        !memory.overlap(a, bytes.len() as int, pc, 4),
    ensures
        crate::pipeline::instruction_at(memory.stored(a, bytes), pc)
            == crate::pipeline::instruction_at(memory, pc),
{
    lemma_store_elsewhere(memory, a, bytes, pc, 4);
    assert(memory.stored(a, bytes).in_stack(pc) == memory.in_stack(pc));
}

/// After a squash no instruction is in flight.
pub proof fn lemma_squash_fetched(s: PipelineState, pc: u32)
    ensures
        s.squashed().fetched_from_memory(),
        s.squashed().at(pc).fetched_from_memory(),
{
}

/// Issuing the instruction that memory holds at the program counter keeps
/// every instruction in flight the instruction that memory holds.
pub proof fn lemma_issue_fetched(s: PipelineState, index: usize)
    requires
        s.coherent(),
        s.fetched_from_memory(),
        s.next_instruction() is Some,
        !s.entries.contains_key(index),
    ensures
        s.issued(index).fetched_from_memory(),
{
    let t = s.issued(index);
    let n = s.order.len() as int;
    assert(t.order[n] == index);
    assert forall|p: int| 0 <= p < t.order.len() implies crate::pipeline::instruction_at(
        t.memory,
        (#[trigger] t.entries[t.order[p]]).pc,
    ) == Some(t.entries[t.order[p]].inst) by {
        if p < n {
            assert(s.order.contains(s.order[p]));
            assert(t.entries[t.order[p]] == s.entries[s.order[p]]);
        }
    }
}

/// The phases that change neither memory nor which instructions are in
/// flight keep every instruction the instruction that memory holds.
pub proof fn lemma_unchanged_fetched(s: PipelineState, t: PipelineState)
    requires
        s.fetched_from_memory(),
        t.order == s.order,
        t.memory == s.memory,
        forall|p: int|
            0 <= p < s.order.len() ==> (#[trigger] t.entries[t.order[p]]).pc
                == s.entries[s.order[p]].pc && t.entries[t.order[p]].inst
                == s.entries[s.order[p]].inst,
    ensures
        t.fetched_from_memory(),
{
    assert forall|p: int| 0 <= p < t.order.len() implies crate::pipeline::instruction_at(
        t.memory,
        (#[trigger] t.entries[t.order[p]]).pc,
    ) == Some(t.entries[t.order[p]].inst) by {
        assert(crate::pipeline::instruction_at(s.memory, s.entries[s.order[p]].pc) == Some(
            s.entries[s.order[p]].inst,
        ));
    }
}

/// Retiring the oldest instruction keeps every instruction in flight the
/// instruction that memory holds, under the second proviso.
#[verifier::rlimit(40)]
pub proof fn lemma_retire_fetched(s: PipelineState)
    requires
        s.coherent(),
        s.dataflow_sound(),
        s.fetched_from_memory(),
        s.code_untouched(),
        s.head_completed(),
    ensures
        s.popped().retired(s.order[0], s.entries[s.order[0]]).0.fetched_from_memory(),
        s.popped().retired(s.order[0], s.entries[s.order[0]]).0.code_untouched(),
{
    let index = s.order[0];
    let entry = s.entries[index];
    let popped = s.popped();
    let (t, step) = popped.retired(index, entry);
    assert(s.order.contains(index));
    assert(entry.well_formed());
    lemma_retire_coherent(s);
    lemma_squash_fetched(popped, entry.pc);
    if t.order.len() > 0 {
        assert(s.order.len() >= 2);
        assert(s.reads_at(0));
        assert(!(entry.inst.function is Ecall));
        assert(t.order == popped.order);
        assert(t.entries == popped.entries);
        assert(t.memory == (if entry.writes_memory() {
            s.memory.stored(store_address(entry), store_data(entry))
        } else {
            s.memory
        }));
        assert forall|m: int| 0 <= m < t.order.len() implies #[trigger] t.order[m] == s.order[m
            + 1] && t.entries[t.order[m]] == s.entries[s.order[m + 1]] by {
            assert(s.order.contains(s.order[m + 1]));
            assert(s.order[m + 1] != index);
        }
        assert forall|p: int| 0 <= p < t.order.len() implies crate::pipeline::instruction_at(
            t.memory,
            (#[trigger] t.entries[t.order[p]]).pc,
        ) == Some(t.entries[t.order[p]].inst) by {
            let younger = s.entries[s.order[p + 1]];
            assert(t.entries[t.order[p]] == younger);
            assert(crate::pipeline::instruction_at(s.memory, younger.pc) == Some(younger.inst));
            if t.memory != s.memory {
                assert(entry.writes_memory());
                let target = store_address(entry);
                let bytes = store_data(entry);
                assert(entry.addr == Operand::Value(target));
                assert(bytes.len() == PipelineState::store_width(entry));
                assert(!s.memory.overlap(
                    s.entries[s.order[0]].addr->Value_0,
                    PipelineState::store_width(s.entries[s.order[0]]),
                    s.entries[s.order[p + 1]].pc,
                    4,
                ));
                assert(s.memory.store_fault(target, bytes.len() as int) is None);
                lemma_instruction_elsewhere(s.memory, target, bytes, younger.pc);
            }
        }
        assert forall|q: int, p: int|
            0 <= q < p < t.order.len() && (#[trigger] t.entries[t.order[q]]).is_store()
                && t.entries[t.order[q]].addr is Value implies !t.memory.overlap(
            t.entries[t.order[q]].addr->Value_0,
            PipelineState::store_width(t.entries[t.order[q]]),
            (#[trigger] t.entries[t.order[p]]).pc,
            4,
        ) by {
            let older = s.entries[s.order[q + 1]];
            let younger = s.entries[s.order[p + 1]];
            assert(t.entries[t.order[q]] == older);
            assert(t.entries[t.order[p]] == younger);
            assert(!s.memory.overlap(
                older.addr->Value_0,
                PipelineState::store_width(older),
                younger.pc,
                4,
            ));
        }
    }
}

/// When the oldest instruction in flight retires, it is the instruction
/// that memory holds at the address that program order has reached, and
/// registers and memory change as its execution in program order changes
/// them.
pub proof fn lemma_retirement_is_step_in_program_order(s: PipelineState)
    requires
        s.coherent(),
        s.dataflow_sound(),
        s.in_program_order(),
        s.loads_sound(),
        s.fetched_from_memory(),
        s.head_completed(),
    ensures
        ({
            let entry = s.entries[s.order[0]];
            let (next, step) = s.popped().retired(s.order[0], entry);
            let machine = s.machine();
            &&& crate::pipeline::instruction_at(machine.memory, machine.pc) == Some(entry.inst)
            &&& match machine.execute(entry.inst) {
                crate::pipeline::in_order::Executed::Next(after) => (step is Continue || step
                    is EndBatch) && next.machine() == after,
                crate::pipeline::in_order::Executed::Fault(exception) => step == Step::Halt(
                    crate::pipeline::Outcome::Fault(
                        crate::pipeline::Fault::Retire { pc: entry.pc, exception },
                    ),
                ) && next.reg.gpr == s.reg.gpr && next.memory == s.memory,
                crate::pipeline::in_order::Executed::SystemCall => entry.retirement()
                    is SystemCall,
            }
        }),
{
    lemma_oldest_load_sound(s);
    crate::pipeline::in_order::lemma_retirement_is_execution_in_program_order(s);
}

/// The commit phase keeps every instruction in flight the instruction that
/// memory holds, under the second proviso.
pub proof fn lemma_commit_fetched(s: PipelineState)
    requires
        s.coherent(),
        s.dataflow_sound(),
        s.fetched_from_memory(),
        s.code_untouched(),
    ensures
        s.committed().0.fetched_from_memory(),
    decreases s.order.len(),
{
    if s.head_completed() {
        let index = s.order[0];
        let entry = s.entries[index];
        let (next, step) = s.popped().retired(index, entry);
        lemma_retire_coherent(s);
        crate::pipeline::dataflow::lemma_retire_dataflow(s);
        lemma_retire_fetched(s);
        if step is Continue {
            assert(PipelineState { order: s.order.drop_first(), ..next } == next);
            lemma_commit_fetched(next);
        }
    }
}

impl PipelineState {
    /// What makes the pipeline compute what the program computes in program
    /// order: the invariant of the pipeline, and that loads and instructions
    /// in flight hold what memory holds.
    pub open spec fn faithful(self) -> bool {
        &&& self.coherent()
        &&& self.operands_outstanding()
        &&& self.dataflow_sound()
        &&& self.in_program_order()
        &&& self.loads_sound()
        &&& self.fetched_from_memory()
    }

    /// The provisos: a store in flight has no byte in common with a younger
    /// load to another address, nor with a younger instruction.
    pub open spec fn undisturbed(self) -> bool {
        self.separated() && self.code_untouched()
    }
}

/// Nothing in flight is faithful.
pub proof fn lemma_start_faithful(s: PipelineState)
    requires
        s.coherent(),
        s.operands_outstanding(),
        s.dataflow_sound(),
        s.in_program_order(),
        s.order.len() == 0,
    ensures
        s.faithful(),
{
}

/// The commit phase keeps the pipeline faithful, under the provisos.
pub proof fn lemma_commit_faithful(s: PipelineState)
    requires
        s.faithful(),
        s.undisturbed(),
    ensures
        s.committed().0.faithful(),
{
    crate::pipeline::coherence::lemma_commit_coherent(s);
    crate::pipeline::forwarding::lemma_commit_outstanding(s);
    crate::pipeline::dataflow::lemma_commit_dataflow(s);
    crate::pipeline::program_order::lemma_commit_program_order(s);
    lemma_commit_loads(s);
    lemma_commit_fetched(s);
}

/// The phases that follow commit keep the pipeline faithful.
pub proof fn lemma_proceed_faithful(
    s: PipelineState,
    next: PipelineState,
    fault: Option<crate::pipeline::Fault>,
)
    requires
        s.faithful(),
        s.awaiting is None,
        s.proceeds(next, fault),
    ensures
        next.faithful(),
{
    let (jobs, npc, issued) = choose|jobs: Seq<FinishedCalc>, npc: Option<u32>, issued: Seq<usize>|
        #![trigger s.drained().broadcast_all(jobs).executed(npc).after_issue(issued)]
        {
            let written = s.drained().broadcast_all(jobs);
            let executed = written.executed(npc);
            &&& s.finishes(jobs)
            &&& written.redirects(npc)
            &&& executed.issues(issued)
            &&& next == executed.after_issue(issued)
            &&& fault == executed.issue_fault()
        };
    crate::pipeline::coherence::lemma_proceed_coherent(s, next, fault);
    crate::pipeline::forwarding::lemma_proceed_outstanding(s, next, fault);
    crate::pipeline::dataflow::lemma_proceed_dataflow(s, next, fault);
    let written = s.drained().broadcast_all(jobs);
    let executed = written.executed(npc);
    // write-result
    crate::pipeline::coherence::lemma_write_result_coherent(s, jobs);
    crate::pipeline::dataflow::lemma_write_result_dataflow(s, jobs);
    crate::pipeline::program_order::lemma_write_result_program_order(s, jobs);
    lemma_write_result_loads(s, jobs);
    lemma_broadcast_all_keeps_fetch(s.drained(), jobs);
    assert(written.fetched_from_memory()) by {
        assert forall|p: int| 0 <= p < s.order.len() implies
            (#[trigger] written.entries[written.order[p]]).pc == s.entries[s.order[p]].pc
            && written.entries[written.order[p]].inst == s.entries[s.order[p]].inst by {
            assert(s.order.contains(s.order[p]));
            assert(s.drained().entries.contains_key(s.order[p]));
        }
        lemma_unchanged_fetched(s, written);
    }
    // execute
    crate::pipeline::coherence::lemma_execute_coherent(written, npc);
    crate::pipeline::dataflow::lemma_execute_dataflow(written, npc);
    crate::pipeline::program_order::lemma_execute_program_order(written, npc);
    lemma_execute_loads(written, npc);
    assert(executed.fetched_from_memory()) by {
        let addressed = rob_after_address(written.entries, written.address_unit);
        let loaded = rob_after_loads(written.loads, written.order, addressed, written.memory);
        assert forall|p: int| 0 <= p < written.order.len() implies
            (#[trigger] executed.entries[executed.order[p]]).pc
            == written.entries[written.order[p]].pc
            && executed.entries[executed.order[p]].inst
            == written.entries[written.order[p]].inst by {
            let k = written.order[p];
            assert(written.order.contains(k));
            assert(addressed.contains_key(k));
            assert(loaded.contains_key(k));
            assert(loaded[k].pc == written.entries[k].pc);
        }
        lemma_unchanged_fetched(written, executed);
    }
    // issue
    crate::pipeline::program_order::lemma_after_issue_program_order(executed, issued);
    lemma_after_issue_loads(executed, issued);
    if issued.len() >= 1 {
        lemma_issue_fetched(executed, issued[0]);
        if issued.len() == 2 {
            crate::pipeline::coherence::lemma_issue_coherent(executed, issued[0]);
            lemma_issue_fetched(executed.issued(issued[0]), issued[1]);
        }
    }
}

} // verus!
