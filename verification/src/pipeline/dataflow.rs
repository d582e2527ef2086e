//! The values that flow between instructions in flight.
//!
//! An instruction reads a register as the youngest older instruction in
//! flight that writes the register has left it, or as the register file has
//! it if there is no such instruction. This module states that every operand
//! in the pipeline is that reading, and every result is computed from such
//! readings. For the oldest instruction the readings are the registers
//! themselves: an instruction retires with the result, the address and the
//! store value that it has when executed in program order.

use vstd::prelude::*;
use crate::pipeline::coherence::{
    lemma_broadcast_coherent, lemma_issue_coherent, lemma_next_instruction_consistent,
    lemma_retire_coherent,
};
use crate::pipeline::functional_units::address::rob_after_address;
use crate::pipeline::load_buffer::{drains_loads, rob_after_loads};
use crate::pipeline::operand::Operand;
use crate::pipeline::reorder_buffer::ReorderBufferEntry;
use crate::pipeline::reservation_station::{
    alu_value, drains_station, uses_address_unit, uses_load_buffer, uses_station, FinishedCalc,
};

use crate::pipeline::PipelineState;

verus! {

/// The number of the first source register of `entry`, zero if it has none.
pub open spec fn first_source(entry: ReorderBufferEntry) -> int {
    match entry.inst.fields.rs1 {
        Some(rs1) => rs1 as int,
        None => 0,
    }
}

/// The immediate of `entry`, zero if it has none.
pub open spec fn immediate(entry: ReorderBufferEntry) -> u32 {
    match entry.inst.fields.imm {
        Some(imm) => imm,
        None => 0,
    }
}

/// The number of the destination register of `entry`'s instruction, zero if
/// it has none.
pub open spec fn destination(entry: ReorderBufferEntry) -> u8 {
    match entry.inst.fields.rd {
        Some(rd) => rd,
        None => 0,
    }
}

impl PipelineState {
    /// The place in the order of the youngest entry before place `p` that
    /// writes register `r`, if there is one. Register `x0` has no writer.
    pub open spec fn writer_before(self, p: int, r: int) -> Option<int>
        decreases p,
    {
        if p <= 0 || r == 0 {
            None
        } else if self.entries[self.order[p - 1]].rd == r {
            Some(p - 1)
        } else {
            self.writer_before(p - 1, r)
        }
    }

    /// What the instruction at place `p` of the order reads in register `r`:
    /// the result of the youngest older writer of the register, a reference
    /// to that writer while it has no result, or the value in the register
    /// file if there is no writer.
    pub open spec fn operand_at(self, p: int, r: int) -> Operand {
        match self.writer_before(p, r) {
            Some(q) => match self.entries[self.order[q]].reg_value {
                Some(value) => Operand::Value(value),
                None => Operand::Rob(self.order[q]),
            },
            None => Operand::Value(self.reg.gpr[r]),
        }
    }

    /// What the instruction at place `p` reads as its second operand: its
    /// second source register or, where it has none, its immediate.
    pub open spec fn second_operand_at(self, p: int) -> Operand {
        let entry = self.entries[self.order[p]];
        match entry.inst.fields.rs2 {
            Some(rs2) => self.operand_at(p, rs2 as int),
            None => Operand::Value(immediate(entry)),
        }
    }

    /// Whether the atomic operation at index `k` has still to read memory.
    pub open spec fn to_be_loaded(self, k: usize) -> bool {
        self.loads.contains_key(k) && !(self.loads[k].status is Finished)
    }

    /// The operands of the entry at place `p`, wherever they wait, are what
    /// the instruction reads at its place, and what has been computed for it
    /// is computed from that.
    pub open spec fn reads_at(self, p: int) -> bool {
        let k = self.order[p];
        let entry = self.entries[k];
        &&& entry.rd == destination(entry)
        &&& entry.inst.opcode is Lui ==> entry.reg_value == Some(immediate(entry))
        &&& entry.inst.opcode is AuiPc ==> entry.reg_value == Some(
            vstd::wrapping::u32_specs::wrapping_add(entry.pc, immediate(entry)),
        )
        &&& entry.inst.opcode is Jal || entry.inst.opcode is Jalr ==> entry.reg_value == Some(
            vstd::wrapping::u32_specs::wrapping_add(entry.pc, crate::consts::WORD_SIZE as u32),
        )
        &&& entry.inst.function is Scw ==> entry.reg_value == Some(0u32)
        &&& !uses_load_buffer(entry.inst) ==> entry.mem_exception is Ok
        &&& self.station.contains_key(k) ==> {
            &&& self.station[k].inst == entry.inst
            &&& self.station[k].operand.0 == self.operand_at(p, first_source(entry))
            &&& self.station[k].operand.1 == self.second_operand_at(p)
            &&& self.station[k].status is Finished ==> self.station[k].ready()
                && self.station[k].value == alu_value(
                entry.inst.function,
                self.station[k].operand.0->Value_0,
                self.station[k].operand.1->Value_0,
            )
        }
        &&& self.address_unit.contains_key(k) ==> {
            &&& self.address_unit[k].inst == entry.inst
            &&& self.address_unit[k].operand.0 == self.operand_at(p, first_source(entry))
            &&& self.address_unit[k].operand.1 == Operand::Value(immediate(entry))
        }
        &&& entry.inst.opcode is Store ==> entry.mem_value == self.operand_at(
            p,
            entry.inst.fields.rs2->0 as int,
        )
        &&& entry.inst.opcode is Amo ==> entry.addr == self.operand_at(p, first_source(entry))
        &&& entry.inst.opcode is Amo && (self.to_be_loaded(k) || entry.inst.function is Scw)
            ==> entry.mem_value == self.operand_at(p, entry.inst.fields.rs2->0 as int)
        &&& uses_address_unit(entry.inst) ==> entry.addr == Operand::Rob(k) || entry.addr is Value
        &&& uses_address_unit(entry.inst) ==> (entry.addr matches Operand::Value(address)
            ==> self.operand_at(p, first_source(entry)) matches Operand::Value(base) && address
            == vstd::wrapping::u32_specs::wrapping_add(base, immediate(entry)))
        &&& uses_station(entry.inst) ==> (entry.reg_value matches Some(result) ==> {
            &&& self.operand_at(p, first_source(entry)) matches Operand::Value(a)
            &&& self.second_operand_at(p) matches Operand::Value(b)
            &&& result == alu_value(entry.inst.function, a, b)
        })
    }

    /// Every register but `x0` can be written, an `ecall` is the youngest
    /// instruction in flight, and nothing is in flight while an `ecall`
    /// waits for the host.
    pub open spec fn serialized(self) -> bool {
        &&& forall|r: int| 1 <= r < 32 ==> #[trigger] self.reg.writable[r]
        &&& self.awaiting is Some ==> self.order.len() == 0
        &&& forall|p: int|
            0 <= p < self.order.len() - 1
                ==> !((#[trigger] self.entries[self.order[p]]).inst.function
                is Ecall)
    }

    /// Every operand in the pipeline is what its instruction reads at its
    /// place in program order.
    pub open spec fn dataflow_sound(self) -> bool {
        &&& self.serialized()
        &&& forall|p: int| 0 <= p < self.order.len() ==> #[trigger] self.reads_at(p)
    }
}

/// The youngest older writer of a register is an older entry that writes the
/// register, and no entry between it and the reader writes the register;
/// where there is none, no older entry writes the register.
pub proof fn lemma_writer_before(s: PipelineState, p: int, r: int)
    requires
        0 <= p <= s.order.len(),
    ensures
        match s.writer_before(p, r) {
            Some(q) => {
                &&& 0 <= q < p
                &&& r != 0
                &&& s.entries[s.order[q]].rd == r
                &&& forall|m: int| q < m < p ==> (#[trigger] s.entries[s.order[m]]).rd != r
            },
            None => r == 0 || forall|m: int| 0 <= m < p
                ==> (#[trigger] s.entries[s.order[m]]).rd != r,
        },
    decreases p,
{
    if p > 0 && r != 0 && s.entries[s.order[p - 1]].rd != r {
        lemma_writer_before(s, p - 1, r);
    }
}

/// Two states that agree on the entries before place `p` and on the register
/// file agree on what is read at place `p`.
pub proof fn lemma_operand_at_agrees(s: PipelineState, t: PipelineState, p: int, r: int)
    requires
        0 <= p <= s.order.len(),
        p <= t.order.len(),
        forall|m: int|
            0 <= m < p ==> (#[trigger] t.entries[t.order[m]]).rd == s.entries[s.order[m]].rd
                && t.entries[t.order[m]].reg_value == s.entries[s.order[m]].reg_value && t.order[m]
                == s.order[m],
        t.reg.gpr[r] == s.reg.gpr[r],
    ensures
        t.writer_before(p, r) == s.writer_before(p, r),
        t.operand_at(p, r) == s.operand_at(p, r),
    decreases p,
{
    if p > 0 && r != 0 {
        assert(t.entries[t.order[p - 1]].rd == s.entries[s.order[p - 1]].rd);
        if s.entries[s.order[p - 1]].rd != r {
            lemma_operand_at_agrees(s, t, p - 1, r);
        }
    }
}

/// What an instruction that is about to be issued reads through the register
/// map is what it reads at the end of the order.
pub proof fn lemma_register_map_reads(s: PipelineState, r: int)
    requires
        s.coherent(),
        0 <= r < 32,
    ensures
        s.reg.operand(r, s.entries) == s.operand_at(s.order.len() as int, r),
{
    let n = s.order.len() as int;
    lemma_writer_before(s, n, r);
    match s.reg.related_rob[r] {
        Some(j) => {
            assert(s.entries.contains_key(j) && s.entries[j].rd == r);
            assert(s.order.contains(j));
            let q = choose|q: int| 0 <= q < s.order.len() && s.order[q] == j;
            assert(r != 0);
            match s.writer_before(n, r) {
                Some(w) => {
                    // the register is renamed to the writer or to a younger
                    // entry, and no younger entry writes it
                    assert(s.entries[s.order[w]].rd != 0);
                    let y = choose|y: int|
                        w <= y < s.order.len() && s.reg.related_rob[s.entries[s.order[w]].rd as int]
                            == Some(#[trigger] s.order[y]);
                    assert(s.order[y] == j);
                    assert(y == q);
                    if w < q {
                        assert(s.entries[s.order[q]].rd != r);
                    }
                },
                None => {
                    assert(s.entries[s.order[q]].rd != r);
                },
            }
        },
        None => {
            match s.writer_before(n, r) {
                Some(w) => {
                    assert(s.entries[s.order[w]].rd != 0);
                    let y = choose|y: int|
                        w <= y < s.order.len() && s.reg.related_rob[s.entries[s.order[w]].rd as int]
                            == Some(#[trigger] s.order[y]);
                },
                None => {},
            }
        },
    }
}

/// The oldest instruction in flight reads the registers themselves.
pub proof fn lemma_head_reads_registers(s: PipelineState, r: int)
    ensures
        s.operand_at(0, r) == Operand::Value(s.reg.gpr[r]),
{
}

/// The values with which the oldest instruction in flight retires are those
/// that it has when executed on the registers as they are: the result of an
/// operation or the outcome of a branch is what the arithmetic unit gives for
/// the source registers, an address is the base register plus the offset,
/// and a store writes the value of its source register.
pub proof fn lemma_oldest_is_architectural(s: PipelineState)
    requires
        s.coherent(),
        s.dataflow_sound(),
        s.order.len() > 0,
    ensures
        ({
            let entry = s.entries[s.order[0]];
            let rs1 = s.reg.gpr[first_source(entry)];
            let second = match entry.inst.fields.rs2 {
                Some(rs2) => s.reg.gpr[rs2 as int],
                None => immediate(entry),
            };
            &&& uses_station(entry.inst) ==> (entry.reg_value matches Some(result) ==> result
                == alu_value(entry.inst.function, rs1, second))
            &&& uses_address_unit(entry.inst) ==> (entry.addr matches Operand::Value(address)
                ==> address == vstd::wrapping::u32_specs::wrapping_add(rs1, immediate(entry)))
            &&& entry.inst.opcode is Store ==> entry.mem_value == Operand::Value(second)
            &&& entry.inst.opcode is Amo ==> entry.addr == Operand::Value(rs1)
            &&& entry.inst.opcode is Amo && entry.inst.function is Scw ==> entry.mem_value
                == Operand::Value(second)
        }),
{
    assert(s.reads_at(0));
    assert(s.order.contains(s.order[0]));
    assert(s.entries[s.order[0]].well_formed());
}

/// After a squash every operand is sound, since there is none.
pub proof fn lemma_squash_dataflow(s: PipelineState, pc: u32)
    requires
        s.serialized(),
    ensures
        s.squashed().dataflow_sound(),
        s.squashed().at(pc).dataflow_sound(),
{
}

/// Issuing an instruction keeps the operands sound: the new instruction
/// reads its registers through the register map, which gives what it reads
/// at the end of the order.
pub proof fn lemma_issue_dataflow(s: PipelineState, index: usize)
    requires
        s.coherent(),
        s.dataflow_sound(),
        s.awaiting is None,
        !s.stalled(),
        s.next_instruction() is Some,
        !s.entries.contains_key(index),
    ensures
        s.issued(index).dataflow_sound(),
{
    lemma_next_instruction_consistent(s);
    lemma_issue_coherent(s, index);
    let t = s.issued(index);
    let inst = s.next_instruction()->0;
    let n = s.order.len() as int;
    assert(t.order[n] == index);
    assert(!s.station.contains_key(index) && !s.loads.contains_key(index)
        && !s.address_unit.contains_key(index));
    assert forall|m: int| 0 <= m < n implies (#[trigger] t.entries[t.order[m]])
        == s.entries[s.order[m]] && t.order[m] == s.order[m] by {
        assert(s.order.contains(s.order[m]));
    }
    assert forall|p: int| 0 <= p < t.order.len() implies #[trigger] t.reads_at(p) by {
        if p < n {
            assert(s.reads_at(p));
            let entry = s.entries[s.order[p]];
            assert(s.order.contains(s.order[p]));
            assert(entry.well_formed());
            lemma_operand_at_agrees(s, t, p, first_source(entry));
            if entry.inst.fields.rs2 is Some {
                lemma_operand_at_agrees(s, t, p, entry.inst.fields.rs2->0 as int);
            }
        } else {
            let entry = t.entries[index];
            assert(entry.inst == inst);
            // what the register map gives does not depend on the new entry
            assert forall|r: int| 0 <= r < 32 implies #[trigger] s.reg.operand(r, t.entries)
                == t.operand_at(n, r) by {
                lemma_register_map_reads(s, r);
                lemma_operand_at_agrees(s, t, n, r);
                if s.reg.related_rob[r] is Some {
                    assert(s.entries.contains_key(s.reg.related_rob[r]->0));
                }
            }
            assert forall|r: int| 0 <= r < 32 implies #[trigger] s.reg.operand(r, s.entries)
                == t.operand_at(n, r) by {
                lemma_register_map_reads(s, r);
                lemma_operand_at_agrees(s, t, n, r);
            }
            assert(0 <= first_source(entry) < 32);
        }
    }
    assert(t.serialized()) by {
        assert forall|p: int| 0 <= p < t.order.len() - 1 implies !((
        #[trigger] t.entries[t.order[p]]).inst.function is Ecall) by {
            assert(t.entries[t.order[p]] == s.entries[s.order[p]]);
            if p == n - 1 {
                assert(s.order.last() == s.order[p]);
                assert(s.order.contains(s.order[p]));
            }
        }
    }
}

/// The issue phase keeps the operands sound.
pub proof fn lemma_after_issue_dataflow(s: PipelineState, issued: Seq<usize>)
    requires
        s.coherent(),
        s.dataflow_sound(),
        s.awaiting is None,
        s.issues(issued),
    ensures
        s.after_issue(issued).dataflow_sound(),
{
    if issued.len() >= 1 {
        lemma_issue_dataflow(s, issued[0]);
        if issued.len() == 2 {
            lemma_issue_coherent(s, issued[0]);
            let t = s.issued(issued[0]);
            let inst = s.next_instruction()->0;
            lemma_next_instruction_consistent(s);
            assert(!t.stalled()) by {
                assert(t.order.last() == issued[0]);
                assert(t.entries[issued[0]].inst == inst);
            }
            lemma_issue_dataflow(t, issued[1]);
        }
    }
}

/// The execute phase keeps the operands sound: an operation that finishes has
/// the result that the arithmetic unit gives for its operands, and an address
/// that the address unit computes is the base plus the offset.
pub proof fn lemma_execute_dataflow(s: PipelineState, npc: Option<u32>)
    requires
        s.coherent(),
        s.dataflow_sound(),
    ensures
        s.executed(npc).dataflow_sound(),
{
    let t = s.executed(npc);
    let addressed = rob_after_address(s.entries, s.address_unit);
    let loaded = rob_after_loads(s.loads, s.order, addressed, s.memory);
    assert forall|i: usize| s.entries.contains_key(i) implies {
        &&& t.entries.contains_key(i)
        &&& (#[trigger] t.entries[i]).rd == s.entries[i].rd
        &&& t.entries[i].inst == s.entries[i].inst
        &&& t.entries[i].reg_value == s.entries[i].reg_value
        &&& t.entries[i].addr == addressed[i].addr
        &&& t.entries[i].mem_value == loaded[i].mem_value
    } by {
        assert(addressed.contains_key(i));
        assert(loaded.contains_key(i));
        assert(loaded[i].rd == s.entries[i].rd);
    }
    assert forall|m: int| 0 <= m < s.order.len() implies s.entries.contains_key(
        #[trigger] s.order[m],
    ) by {
        assert(s.order.contains(s.order[m]));
    }
    assert forall|p: int| 0 <= p < t.order.len() implies #[trigger] t.reads_at(p) by {
        assert(s.reads_at(p));
        let k = s.order[p];
        let entry = s.entries[k];
        assert(s.entries.contains_key(k));
        assert(entry.well_formed());
        assert(addressed.contains_key(k));
        assert(loaded.contains_key(k));
        lemma_operand_at_agrees(s, t, p, first_source(entry));
        if entry.inst.fields.rs2 is Some {
            lemma_operand_at_agrees(s, t, p, entry.inst.fields.rs2->0 as int);
        }
        if s.loads.contains_key(k) {
            assert(uses_load_buffer(entry.inst));
        }
        if s.address_unit.contains_key(k) {
            assert(uses_address_unit(entry.inst));
        }
    }
}

/// What the entry at place `p` reads does not change when the oldest entry
/// retires: where the oldest entry was the writer of the register, the
/// register file now holds its result.
pub proof fn lemma_operand_at_after_retire(s: PipelineState, t: PipelineState, p: int, r: int)
    requires
        s.coherent(),
        s.dataflow_sound(),
        s.head_completed(),
        1 <= p <= s.order.len(),
        s.order.len() >= 2,
        0 <= r < 32,
        t.order == s.order.drop_first(),
        t.entries == s.entries.remove(s.order[0]),
        t.reg.gpr == s.entries[s.order[0]].retired_registers(s.reg, s.order[0]).gpr,
    ensures
        t.operand_at(p - 1, r) == s.operand_at(p, r),
    decreases p,
{
    let head = s.entries[s.order[0]];
    assert(s.order.contains(s.order[0]));
    assert(head.well_formed());
    assert(s.reads_at(0));
    assert(!(head.inst.function is Ecall));
    lemma_writer_before(s, p, r);
    if r != 0 {
        let younger = s.entries[s.order[p - 1]];
        if p == 1 {
            // the oldest entry is the only one before
            if head.rd == r {
                assert(head.reg_value is Some);
                assert(head.writes_register());
            }
        } else {
            assert(t.order[p - 2] == s.order[p - 1]);
            assert(s.order.contains(s.order[p - 1]));
            assert(s.order[p - 1] != s.order[0]);
            assert(t.entries[t.order[p - 2]] == younger);
            if younger.rd != r {
                lemma_operand_at_after_retire(s, t, p - 1, r);
            }
        }
    }
}

/// Retiring the oldest entry keeps the operands sound.
pub proof fn lemma_retire_dataflow(s: PipelineState)
    requires
        s.coherent(),
        s.dataflow_sound(),
        s.head_completed(),
    ensures
        s.popped().retired(s.order[0], s.entries[s.order[0]]).0.dataflow_sound(),
{
    let index = s.order[0];
    let entry = s.entries[index];
    let p = s.popped();
    let (t, step) = p.retired(index, entry);
    assert(s.order.contains(index));
    assert(entry.well_formed());
    lemma_retire_coherent(s);
    lemma_squash_dataflow(p, entry.pc);
    let released = entry.retired_registers(p.reg, index);
    assert forall|r: int| 1 <= r < 32 implies #[trigger] released.writable[r] by {
        assert(s.reg.writable[r]);
    }
    if s.order.len() >= 2 {
        assert(!(entry.inst.function is Ecall)) by {
            assert(s.reads_at(0));
            assert(s.entries[s.order[0]] == entry);
        }
        assert forall|m: int| 0 <= m < p.order.len() implies #[trigger] p.order[m] == s.order[m
            + 1] && p.entries[p.order[m]] == s.entries[s.order[m + 1]] by {
            assert(s.order.contains(s.order[m + 1]));
            assert(s.order[m + 1] != index);
        }
        if t.order.len() > 0 {
            assert(t.order == p.order);
            assert(t.entries == p.entries);
            assert(t.reg.gpr == released.gpr);
            assert forall|q: int| 0 <= q < t.order.len() implies #[trigger] t.reads_at(q) by {
                assert(s.reads_at(q + 1));
                let k = s.order[q + 1];
                let e = s.entries[k];
                assert(s.order.contains(k));
                assert(e.well_formed());
                assert(t.order[q] == k);
                assert(t.entries[k] == e);
                lemma_operand_at_after_retire(s, t, q + 1, first_source(e));
                if e.inst.fields.rs2 is Some {
                    lemma_operand_at_after_retire(s, t, q + 1, e.inst.fields.rs2->0 as int);
                }
            }
            assert(t.serialized()) by {
                assert forall|q: int| 0 <= q < t.order.len() - 1 implies !((
                #[trigger] t.entries[t.order[q]]).inst.function is Ecall) by {
                    assert(t.entries[t.order[q]] == s.entries[s.order[q + 1]]);
                }
            }
        }
    } else {
        assert(p.order.len() == 0);
        assert(t.order.len() == 0);
        assert forall|r: int| 1 <= r < 32 implies #[trigger] t.reg.writable[r] by {
            assert(released.writable[r]);
        }
    }
}

/// The commit phase keeps the operands sound.
pub proof fn lemma_commit_dataflow(s: PipelineState)
    requires
        s.coherent(),
        s.dataflow_sound(),
    ensures
        s.committed().0.dataflow_sound(),
    decreases s.order.len(),
{
    if s.head_completed() {
        let index = s.order[0];
        let entry = s.entries[index];
        let (next, step) = s.popped().retired(index, entry);
        lemma_retire_coherent(s);
        lemma_retire_dataflow(s);
        if step is Continue {
            assert(PipelineState { order: s.order.drop_first(), ..next } == next);
            lemma_commit_dataflow(next);
        }
    }
}

impl PipelineState {
    /// Whether `job` is a result that may be broadcast: its producer is in
    /// flight without a result and has left its unit, and the result of an
    /// operation is what the arithmetic unit gives for what the operation
    /// reads at its place.
    pub open spec fn job_sound(self, job: FinishedCalc) -> bool {
        let k = job.rob_idx;
        &&& self.entries.contains_key(k)
        &&& self.entries[k].reg_value is None
        &&& !self.station.contains_key(k)
        &&& !self.loads.contains_key(k)
        &&& !uses_load_buffer(self.entries[k].inst) ==> job.exception is None
        &&& uses_station(self.entries[k].inst) ==> forall|p: int|
            0 <= p < self.order.len() && #[trigger] self.order[p] == k ==> {
                &&& self.operand_at(p, first_source(self.entries[k])) matches Operand::Value(a)
                &&& self.second_operand_at(p) matches Operand::Value(b)
                &&& job.reg_value == alu_value(self.entries[k].inst.function, a, b)
            }
    }
}

/// Broadcasting a result changes what is read at a place as it changes an
/// operand: a reference to the producer becomes the result.
pub proof fn lemma_operand_at_after_broadcast(s: PipelineState, job: FinishedCalc, p: int, r: int)
    requires
        s.coherent(),
        s.entries.contains_key(job.rob_idx) ==> s.entries[job.rob_idx].reg_value is None,
        0 <= p <= s.order.len(),
    ensures
        s.broadcast(job).writer_before(p, r) == s.writer_before(p, r),
        s.broadcast(job).operand_at(p, r) == s.operand_at(p, r).forwarded(
            job.rob_idx,
            job.reg_value,
        ),
    decreases p,
{
    let t = s.broadcast(job);
    if p > 0 && r != 0 {
        let k = s.order[p - 1];
        assert(s.order.contains(k));
        assert(s.entries.contains_key(k));
        assert(t.entries[k].rd == s.entries[k].rd);
        if s.entries[k].rd != r {
            lemma_operand_at_after_broadcast(s, job, p - 1, r);
        }
    }
}

/// Broadcasting a sound result keeps the operands sound.
pub proof fn lemma_broadcast_dataflow(s: PipelineState, job: FinishedCalc)
    requires
        s.coherent(),
        s.dataflow_sound(),
        s.job_sound(job),
    ensures
        s.broadcast(job).dataflow_sound(),
{
    let t = s.broadcast(job);
    assert forall|p: int| 0 <= p < t.order.len() implies #[trigger] t.reads_at(p) by {
        assert(s.reads_at(p));
        let k = s.order[p];
        let entry = s.entries[k];
        assert(s.order.contains(k));
        assert(s.entries.contains_key(k));
        assert(entry.well_formed());
        let rs1 = first_source(entry);
        lemma_operand_at_after_broadcast(s, job, p, rs1);
        lemma_writer_before(s, p, rs1);
        if entry.inst.fields.rs2 is Some {
            let rs2 = entry.inst.fields.rs2->0 as int;
            lemma_operand_at_after_broadcast(s, job, p, rs2);
            lemma_writer_before(s, p, rs2);
            if s.writer_before(p, rs2) is Some {
                assert(s.order[s.writer_before(p, rs2)->0] != k);
            }
        }
        if s.writer_before(p, rs1) is Some {
            assert(s.order[s.writer_before(p, rs1)->0] != k);
        }
        if k == job.rob_idx {
            assert(s.order[p] == k);
        }
    }
    assert(t.serialized()) by {
        assert forall|p: int| 0 <= p < t.order.len() - 1 implies !((
        #[trigger] t.entries[t.order[p]]).inst.function is Ecall) by {
            assert(s.order.contains(s.order[p]));
            assert(t.entries[t.order[p]].inst == s.entries[s.order[p]].inst);
        }
    }
}

/// Broadcasting sound results of different producers, one after the other,
/// keeps the pipeline coherent and the operands sound.
pub proof fn lemma_broadcast_all_dataflow(s: PipelineState, jobs: Seq<FinishedCalc>)
    requires
        s.coherent(),
        s.dataflow_sound(),
        forall|j: int| 0 <= j < jobs.len() ==> s.job_sound(#[trigger] jobs[j]),
        forall|i: int, j: int|
            0 <= i < jobs.len() && 0 <= j < jobs.len() && i != j ==> (#[trigger] jobs[i]).rob_idx
                != (#[trigger] jobs[j]).rob_idx,
    ensures
        s.broadcast_all(jobs).coherent(),
        s.broadcast_all(jobs).dataflow_sound(),
        s.broadcast_all(jobs).order == s.order,
        s.broadcast_all(jobs).station.dom() == s.station.dom(),
        s.broadcast_all(jobs).loads == s.loads,
        forall|k: usize|
            s.entries.contains_key(k) ==> s.broadcast_all(jobs).entries.contains_key(k) && (
            #[trigger] s.broadcast_all(jobs).entries[k]).inst == s.entries[k].inst && (
            s.broadcast_all(jobs).entries[k].reg_value is None <==> s.entries[k].reg_value is None
                && !PipelineState::produced(jobs, k)),
        forall|p: int, r: int|
            0 <= p <= s.order.len() && (#[trigger] s.operand_at(p, r)) is Value ==> s.broadcast_all(
                jobs,
            ).operand_at(p, r) == s.operand_at(p, r),
    decreases jobs.len(),
{
    if jobs.len() > 0 {
        let rest = jobs.drop_last();
        let job = jobs.last();
        assert forall|j: int| 0 <= j < rest.len() implies s.job_sound(#[trigger] rest[j]) by {
            assert(rest[j] == jobs[j]);
        }
        assert forall|i: int, j: int|
            0 <= i < rest.len() && 0 <= j < rest.len() && i != j implies
            (#[trigger] rest[i]).rob_idx != (#[trigger] rest[j]).rob_idx by {
            assert(rest[i] == jobs[i] && rest[j] == jobs[j]);
        }
        lemma_broadcast_all_dataflow(s, rest);
        let before = s.broadcast_all(rest);
        let k = job.rob_idx;
        assert(job == jobs[jobs.len() - 1]);
        assert(s.job_sound(job));
        assert(!PipelineState::produced(rest, k)) by {
            if PipelineState::produced(rest, k) {
                let j = choose|j: int| 0 <= j < rest.len() && (#[trigger] rest[j]).rob_idx == k;
                assert(rest[j] == jobs[j]);
            }
        }
        assert(before.job_sound(job)) by {
            assert(before.entries[k].reg_value is None);
            assert(!before.station.contains_key(k)) by {
                assert(before.station.dom().contains(k) == s.station.dom().contains(k));
            }
            if uses_station(before.entries[k].inst) {
                assert forall|p: int|
                    0 <= p < before.order.len() && #[trigger] before.order[p] == k implies {
                    &&& before.operand_at(p,
                        first_source(before.entries[k])) matches Operand::Value(a)
                    &&& before.second_operand_at(p) matches Operand::Value(b)
                    &&& job.reg_value == alu_value(before.entries[k].inst.function, a, b)
                } by {
                    assert(s.order[p] == k);
                    let a = s.operand_at(p, first_source(s.entries[k]));
                    assert(a is Value);
                    assert(before.operand_at(p, first_source(s.entries[k])) == a);
                    if s.entries[k].inst.fields.rs2 is Some {
                        let b = s.operand_at(p, s.entries[k].inst.fields.rs2->0 as int);
                        assert(b is Value);
                        assert(before.operand_at(p, s.entries[k].inst.fields.rs2->0 as int) == b);
                    }
                }
            }
        }
        lemma_broadcast_coherent(before, job);
        lemma_broadcast_dataflow(before, job);
        let after = before.broadcast(job);
        assert(after.station.dom() =~= s.station.dom());
        assert forall|i: usize| PipelineState::produced(rest, i) implies PipelineState::produced(
            jobs,
            i,
        ) by {
            let j = choose|j: int| 0 <= j < rest.len() && (#[trigger] rest[j]).rob_idx == i;
            assert(jobs[j].rob_idx == i);
        }
        assert(PipelineState::produced(jobs, k)) by {
            assert(jobs[jobs.len() - 1].rob_idx == k);
        }
        assert forall|i: usize|
            PipelineState::produced(jobs, i) && i != k implies PipelineState::produced(rest, i) by {
            let j = choose|j: int| 0 <= j < jobs.len() && (#[trigger] jobs[j]).rob_idx == i;
            assert(rest[j].rob_idx == i);
        }
        assert forall|i: usize| s.entries.contains_key(i) implies after.entries.contains_key(i)
            && (#[trigger] after.entries[i]).inst == s.entries[i].inst && (
        after.entries[i].reg_value is None <==> s.entries[i].reg_value is None
            && !PipelineState::produced(jobs, i)) by {
            assert(before.entries.contains_key(i));
            assert(before.entries[i].inst == s.entries[i].inst);
        }
        assert forall|p: int, r: int|
            0 <= p <= s.order.len() && (#[trigger] s.operand_at(p, r)) is Value
                implies after.operand_at(
            p,
            r,
        ) == s.operand_at(p, r) by {
            assert(before.operand_at(p, r) == s.operand_at(p, r));
            lemma_operand_at_after_broadcast(before, job, p, r);
        }
    }
}

/// Taking the finished entries out of their units keeps the operands sound.
pub proof fn lemma_drained_dataflow(s: PipelineState)
    requires
        s.coherent(),
        s.dataflow_sound(),
    ensures
        s.drained().coherent(),
        s.drained().dataflow_sound(),
{
    let d = s.drained();
    assert(d.entries == s.entries && d.order == s.order && d.address_unit == s.address_unit);
    assert forall|p: int| 0 <= p < d.order.len() implies #[trigger] d.reads_at(p) by {
        assert(s.reads_at(p));
        let k = s.order[p];
        let entry = s.entries[k];
        assert(s.order.contains(k));
        assert(entry.well_formed());
        lemma_operand_at_agrees(s, d, p, first_source(entry));
        if entry.inst.fields.rs2 is Some {
            lemma_operand_at_agrees(s, d, p, entry.inst.fields.rs2->0 as int);
        }
        if d.station.contains_key(k) {
            assert(s.station.contains_key(k) && d.station[k] == s.station[k]);
        }
        if s.loads.contains_key(k) {
            if s.loads[k].status is Finished {
                assert(!d.loads.contains_key(k));
            } else {
                assert(d.loads.contains_key(k) && d.loads[k] == s.loads[k]);
            }
        } else {
            assert(!d.loads.contains_key(k));
        }
        assert(d.to_be_loaded(k) == s.to_be_loaded(k));
    }
}

/// A result that the write-result phase takes out of a unit is sound.
pub proof fn lemma_finished_job_sound(s: PipelineState, jobs: Seq<FinishedCalc>, n: int, j: int)
    requires
        s.coherent(),
        s.dataflow_sound(),
        0 <= n <= jobs.len(),
        drains_loads(s.loads, jobs.subrange(0, n)),
        drains_station(s.station, jobs.subrange(n, jobs.len() as int)),
        0 <= j < jobs.len(),
    ensures
        s.drained().job_sound(jobs[j]),
        j < n ==> s.loads.contains_key(jobs[j].rob_idx),
        j >= n ==> s.station.contains_key(jobs[j].rob_idx),
{
    let d = s.drained();
    let k = jobs[j].rob_idx;
    if j < n {
        assert(jobs.subrange(0, n)[j] == jobs[j]);
        assert(s.loads.contains_key(k) && s.loads[k].status is Finished);
        assert(uses_load_buffer(s.entries[k].inst));
        if s.station.contains_key(k) {
            assert(uses_station(s.entries[k].inst));
        }
    } else {
        assert(jobs.subrange(n, jobs.len() as int)[j - n] == jobs[j]);
        assert(s.station.contains_key(k) && s.station[k].status is Finished);
        assert(uses_station(s.entries[k].inst));
        if s.loads.contains_key(k) {
            assert(uses_load_buffer(s.entries[k].inst));
        }
        assert forall|p: int| 0 <= p < d.order.len() && #[trigger] d.order[p] == k implies {
            &&& d.operand_at(p, first_source(d.entries[k])) matches Operand::Value(a)
            &&& d.second_operand_at(p) matches Operand::Value(b)
            &&& jobs[j].reg_value == alu_value(d.entries[k].inst.function, a, b)
        } by {
            assert(s.reads_at(p));
            let entry = s.entries[k];
            lemma_operand_at_agrees(s, d, p, first_source(entry));
            if entry.inst.fields.rs2 is Some {
                lemma_operand_at_agrees(s, d, p, entry.inst.fields.rs2->0 as int);
            }
        }
    }
}

/// The write-result phase keeps the operands sound.
pub proof fn lemma_write_result_dataflow(s: PipelineState, jobs: Seq<FinishedCalc>)
    requires
        s.coherent(),
        s.dataflow_sound(),
        s.finishes(jobs),
    ensures
        s.drained().broadcast_all(jobs).dataflow_sound(),
{
    let d = s.drained();
    let n = choose|n: int|
        0 <= n <= jobs.len() && drains_loads(s.loads, jobs.subrange(0, n)) && drains_station(
            s.station,
            jobs.subrange(n, jobs.len() as int),
        );
    let loads = jobs.subrange(0, n);
    let operations = jobs.subrange(n, jobs.len() as int);
    lemma_drained_dataflow(s);
    assert forall|j: int| 0 <= j < jobs.len() implies d.job_sound(#[trigger] jobs[j]) by {
        lemma_finished_job_sound(s, jobs, n, j);
    }
    assert forall|i: int, j: int|
        0 <= i < jobs.len() && 0 <= j < jobs.len() && i != j implies (#[trigger] jobs[i]).rob_idx
        != (#[trigger] jobs[j]).rob_idx by {
        lemma_finished_job_sound(s, jobs, n, i);
        lemma_finished_job_sound(s, jobs, n, j);
        if i < n && j < n {
            assert(loads[i] == jobs[i] && loads[j] == jobs[j]);
        } else if i >= n && j >= n {
            assert(operations[i - n] == jobs[i] && operations[j - n] == jobs[j]);
        } else {
            let k = if i < n {
                jobs[i].rob_idx
            } else {
                jobs[j].rob_idx
            };
            if jobs[i].rob_idx == jobs[j].rob_idx {
                assert(uses_load_buffer(s.entries[k].inst));
                assert(uses_station(s.entries[k].inst));
            }
        }
    }
    lemma_broadcast_all_dataflow(d, jobs);
}

/// The phases that follow commit keep the operands sound.
pub proof fn lemma_proceed_dataflow(
    s: PipelineState,
    next: PipelineState,
    fault: Option<crate::pipeline::Fault>,
)
    requires
        s.coherent(),
        s.dataflow_sound(),
        s.awaiting is None,
        s.proceeds(next, fault),
    ensures
        next.dataflow_sound(),
{
    let (jobs, npc, issued) = choose|jobs: Seq<FinishedCalc>, npc: Option<u32>, issued: Seq<usize>|
        #![trigger s.drained().broadcast_all(jobs).executed(npc).after_issue(issued)]
        {
            let written = s.drained().broadcast_all(jobs);
            let executed = written.executed(npc);
            &&& s.finishes(jobs)
            &&& written.redirects(npc)
            &&& executed.issues(issued)
            &&& next == executed.after_issue(issued)
            &&& fault == executed.issue_fault()
        };
    crate::pipeline::coherence::lemma_write_result_coherent(s, jobs);
    lemma_write_result_dataflow(s, jobs);
    let written = s.drained().broadcast_all(jobs);
    lemma_broadcast_all_keeps_awaiting(s.drained(), jobs);
    crate::pipeline::coherence::lemma_execute_coherent(written, npc);
    lemma_execute_dataflow(written, npc);
    lemma_after_issue_dataflow(written.executed(npc), issued);
}

/// Broadcasting results does not answer a system call.
pub proof fn lemma_broadcast_all_keeps_awaiting(s: PipelineState, jobs: Seq<FinishedCalc>)
    ensures
        s.broadcast_all(jobs).awaiting == s.awaiting,
    decreases jobs.len(),
{
    if jobs.len() > 0 {
        lemma_broadcast_all_keeps_awaiting(s, jobs.drop_last());
    }
}

/// Applying the answer of the host to a system call keeps the operands
/// sound: nothing is in flight while the call waits.
pub proof fn lemma_answer_dataflow(
    s: PipelineState,
    request: crate::pipeline::syscall::HostRequest,
    answer: crate::pipeline::syscall::HostAnswer,
)
    requires
        s.dataflow_sound(),
        s.awaiting is Some,
        crate::pipeline::syscall::answered(s.memory, s.reg, request, answer) is Ok,
    ensures
        (PipelineState {
            memory: crate::pipeline::syscall::answered(s.memory, s.reg, request, answer)->Ok_0.0,
            reg: crate::pipeline::syscall::answered(s.memory, s.reg, request, answer)->Ok_0.1,
            awaiting: None,
            ..s
        }).dataflow_sound(),
{
    let reg = crate::pipeline::syscall::answered(s.memory, s.reg, request, answer)->Ok_0.1;
    assert(reg.writable == s.reg.writable);
}

/// A commit phase that does not end with a request to the host leaves no
/// system call waiting that did not wait before.
pub proof fn lemma_commit_keeps_awaiting(s: PipelineState)
    ensures
        !(s.committed().2 is Host) ==> s.committed().0.awaiting == s.awaiting,
    decreases s.order.len(),
{
    if s.head_completed() {
        let index = s.order[0];
        let entry = s.entries[index];
        let (next, step) = s.popped().retired(index, entry);
        if step is Continue {
            lemma_commit_keeps_awaiting(PipelineState { order: s.order.drop_first(), ..next });
        }
    }
}

/// The tick of the clock keeps the operands sound.
pub proof fn lemma_tick_dataflow(s: PipelineState, clock: nat)
    requires
        s.dataflow_sound(),
    ensures
        (PipelineState { clock, ..s }).dataflow_sound(),
{
    let t = PipelineState { clock, ..s };
    assert forall|p: int| 0 <= p < t.order.len() implies #[trigger] t.reads_at(p) by {
        assert(s.reads_at(p));
        let entry = s.entries[s.order[p]];
        lemma_operand_at_agrees(s, t, p, first_source(entry));
        lemma_operand_at_agrees(s, t, p, entry.inst.fields.rs2->0 as int);
    }
}

/// A register that is not renamed has no writer in flight: the register file
/// holds its value, which is the result that the last writer to retire has
/// left there, and every instruction in flight reads that value.
pub proof fn lemma_unrenamed_register_is_current(s: PipelineState, r: int, p: int)
    requires
        s.coherent(),
        0 <= r < 32,
        s.reg.related_rob[r] is None,
        0 <= p <= s.order.len(),
    ensures
        s.writer_before(p, r) is None,
        s.operand_at(p, r) == Operand::Value(s.reg.gpr[r]),
        forall|m: int| 0 <= m < s.order.len() && r != 0
            ==> (#[trigger] s.entries[s.order[m]]).rd != r,
{
    lemma_writer_before(s, p, r);
    assert forall|m: int| 0 <= m < s.order.len() && r != 0 implies
        (#[trigger] s.entries[s.order[m]]).rd != r by {
        if s.entries[s.order[m]].rd == r {
            let q = choose|q: int|
                m <= q < s.order.len() && s.reg.related_rob[s.entries[s.order[m]].rd as int]
                    == Some(#[trigger] s.order[q]);
        }
    }
    if s.writer_before(p, r) is Some {
        let w = s.writer_before(p, r)->0;
        assert(s.entries[s.order[w]].rd == r);
    }
}

/// A register that is renamed is renamed to its youngest writer in flight,
/// and an instruction that is issued reads the result of that writer, or a
/// reference to it.
pub proof fn lemma_renamed_register_follows_writer(s: PipelineState, r: int)
    requires
        s.coherent(),
        0 <= r < 32,
        s.reg.related_rob[r] is Some,
    ensures
        s.writer_before(s.order.len() as int, r) matches Some(w) && s.order[w]
            == s.reg.related_rob[r]->0,
{
    let n = s.order.len() as int;
    lemma_register_map_reads(s, r);
    lemma_writer_before(s, n, r);
    let j = s.reg.related_rob[r]->0;
    assert(s.entries.contains_key(j) && s.entries[j].rd == r);
    assert(s.order.contains(j));
    let q = choose|q: int| 0 <= q < s.order.len() && s.order[q] == j;
    match s.writer_before(n, r) {
        Some(w) => {
            assert(s.entries[s.order[w]].rd != 0);
            let y = choose|y: int|
                w <= y < s.order.len()
                    && s.reg.related_rob[s.entries[s.order[w]].rd as int] == Some(
                    #[trigger] s.order[y],
                );
            assert(s.order[y] == j);
            assert(y == q);
            if w < q {
                assert(s.entries[s.order[q]].rd != r);
            }
        },
        None => {
            assert(s.entries[s.order[q]].rd != r);
        },
    }
}

} // verus!
