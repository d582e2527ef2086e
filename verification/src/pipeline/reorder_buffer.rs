//! The reorder buffer: the instructions in flight, in program order.
//!
//! Every instruction gets an entry when it is issued and keeps it until it
//! retires. An entry is known by its index, which stays the same while the
//! entry is in flight and is handed out again afterwards. The buffer keeps the
//! indices in issue order, so that the oldest entry is always the first to
//! leave.

use vstd::prelude::*;
use std::collections::{HashMap, VecDeque};
use std::collections::hash_map::Entry;
use crate::consts;
use crate::instruction::{Function, Instruction, Opcode};
use crate::memory::ProcessMemory;
use crate::pipeline::branch_predictor::BranchPredictor;
use crate::pipeline::exception::Exception;
use crate::pipeline::functional_units::memory::{
    pending_store, store_address, store_data, MemoryUnit,
};
use crate::pipeline::operand::Operand;
use crate::pipeline::reservation_station::FinishedCalc;
use crate::register::{RegisterFile, RegisterState};

verus! {

broadcast use vstd::std_specs::hash::group_hash_axioms;

/// An instruction in flight.
#[derive(Debug, Clone, Copy)]
pub struct ReorderBufferEntry {
    /// The address of the instruction.
    pub pc: u32,
    /// The decoded instruction.
    pub inst: Instruction,
    /// The value to store, or the register operand of an atomic operation.
    pub mem_value: Operand,
    /// The result for the destination register; for a branch, whether it is
    /// taken.
    pub reg_value: Option<u32>,
    /// The destination register, `0` if there is none.
    pub rd: u8,
    /// The memory address of a load, store or atomic operation, or the target
    /// of a `jalr`.
    pub addr: Operand,
    /// The prediction that was made when a branch was issued.
    pub branch_pred: bool,
    /// The cycles of memory latency that are left.
    pub mem_rem_cycle: usize,
    /// The fault that a memory access of the instruction raised.
    pub mem_exception: Result<(), Exception>,
}

/// What the retirement of an entry asks of the pipeline.
#[derive(Debug, Clone, Copy, PartialEq, Eq, Structural)]
pub enum Retirement {
    /// The instruction has taken effect.
    Done,
    /// The instruction is a branch that was predicted wrongly: everything
    /// younger must be squashed.
    Mispredicted,
    /// The instruction is an `ecall`: the pipeline must carry out the system
    /// call.
    SystemCall,
}

impl ReorderBufferEntry {
    /// The destination register exists and the instruction is consistent.
    pub open spec fn well_formed(self) -> bool {
        self.rd < 32 && self.inst.consistent()
    }

    /// Whether the entry has everything it needs to retire.
    pub open spec fn completed(self) -> bool {
        match self.inst.opcode {
            Opcode::Store => self.mem_value is Value && self.addr is Value && self.mem_rem_cycle
                == 0,
            Opcode::Amo => self.mem_value is Value && self.addr is Value && self.reg_value
                is Some && self.mem_rem_cycle == 0,
            Opcode::Jalr => self.addr is Value && self.reg_value is Some,
            _ => self.reg_value is Some,
        }
    }

    /// Whether the entry writes memory when it retires.
    pub open spec fn is_store(self) -> bool {
        self.inst.opcode is Store || (self.inst.opcode is Amo && !(self.inst.function is Lrw))
    }

    /// The entry after the result `value` of another entry `rob_idx` has been
    /// broadcast.
    pub open spec fn forwarded(self, rob_idx: usize, value: u32) -> ReorderBufferEntry {
        ReorderBufferEntry {
            addr: self.addr.forwarded(rob_idx, value),
            mem_value: self.mem_value.forwarded(rob_idx, value),
            ..self
        }
    }

    /// The entry after its own result `job` has been broadcast.
    pub open spec fn with_result(self, job: FinishedCalc) -> ReorderBufferEntry {
        ReorderBufferEntry {
            reg_value: Some(job.reg_value),
            mem_exception: match job.exception {
                Some(exception) => Err(exception),
                None => self.mem_exception,
            },
            ..self
        }
    }

    /// What the entry asks of the pipeline when it retires without a fault.
    pub open spec fn retirement(self) -> Retirement {
        if self.inst.opcode is Branch {
            if self.reg_value == Some(
                if self.branch_pred {
                    1u32
                } else {
                    0u32
                },
            ) {
                Retirement::Done
            } else {
                Retirement::Mispredicted
            }
        } else if self.inst.function is Ecall {
            Retirement::SystemCall
        } else {
            Retirement::Done
        }
    }

    /// Whether the entry writes its destination register when it retires.
    pub open spec fn writes_register(self) -> bool {
        !(self.inst.opcode is Branch) && !(self.inst.function is Ecall) && self.reg_value is Some
    }

    /// The fault with which the entry retires, if any: a fault that an
    /// earlier memory access raised, or the fault of the store that it
    /// carries out in `memory`.
    pub open spec fn retire_fault(self, memory: crate::memory::MemoryImage) -> Option<Exception> {
        match self.mem_exception {
            Err(e) => Some(e),
            Ok(_) => if self.writes_memory() {
                memory.store_fault(store_address(self), store_data(self).len() as int)
            } else {
                None
            },
        }
    }

    /// Whether the entry stores to memory when it retires without an earlier
    /// fault.
    pub open spec fn writes_memory(self) -> bool {
        !(self.inst.opcode is Branch) && !(self.inst.function is Ecall) && self.is_store()
            && pending_store(self) is Some
    }

    /// The registers after the entry, which was in flight under index
    /// `old_index`, has retired without a fault: the result is in the
    /// destination register, unless the entry is a branch or an `ecall`, and
    /// the renaming of the destination register has ended if it pointed at
    /// this entry.
    pub open spec fn retired_registers(
        self,
        reg: crate::register::RegisterState,
        old_index: usize,
    ) -> crate::register::RegisterState {
        (if self.writes_register() {
            reg.written(self.rd as int, self.reg_value->0)
        } else {
            reg
        }).released(self.rd as int, old_index)
    }

    /// The entry of the instruction `inst` at `pc` before its operands are
    /// read: `lui`, `auipc`, `jal` and `jalr` know their result, and so does
    /// a store-conditional, which always succeeds; the memory latency is
    /// still to pass, and no fault has occurred.
    pub open spec fn fresh(pc: u32, inst: Instruction) -> ReorderBufferEntry {
        let imm = match inst.fields.imm {
            Some(imm) => imm,
            None => 0,
        };
        ReorderBufferEntry {
            pc,
            inst,
            mem_value: Operand::Value(0),
            reg_value: match inst.opcode {
                Opcode::Lui => Some(imm),
                Opcode::AuiPc => Some(vstd::wrapping::u32_specs::wrapping_add(pc, imm)),
                Opcode::Jal | Opcode::Jalr => Some(
                    vstd::wrapping::u32_specs::wrapping_add(pc, consts::WORD_SIZE as u32),
                ),
                Opcode::Amo => if inst.function is Scw {
                    Some(0u32)
                } else {
                    None
                },
                _ => None,
            },
            rd: match inst.fields.rd {
                Some(rd) => rd,
                None => 0,
            },
            addr: Operand::Value(0),
            branch_pred: false,
            mem_rem_cycle: consts::MEM_CYCLE,
            mem_exception: Ok(()),
        }
    }

    /// The entry of a newly issued instruction, before its operands are
    /// read.
    pub fn new(pc: u32, inst: Instruction) -> (entry: ReorderBufferEntry)
        ensures
            entry == ReorderBufferEntry::fresh(pc, inst),
    {
        let imm: u32 = inst.fields.imm.unwrap_or(0);
        let reg_value: Option<u32> = match inst.opcode {
            Opcode::Lui => Some(imm),
            Opcode::AuiPc => Some(pc.wrapping_add(imm)),
            Opcode::Jal | Opcode::Jalr => Some(pc.wrapping_add(consts::WORD_SIZE as u32)),
            Opcode::Amo => if inst.function == Function::Scw {
                Some(0)
            } else {
                None
            },
            _ => None,
        };
        ReorderBufferEntry {
            pc,
            inst,
            mem_value: Operand::default(),
            reg_value,
            rd: inst.fields.rd.unwrap_or(0),
            addr: Operand::default(),
            branch_pred: false,
            mem_rem_cycle: consts::MEM_CYCLE,
            mem_exception: Ok(()),
        }
    }

    /// Whether the entry has everything it needs to retire.
    pub fn is_completed(&self) -> (r: bool)
        ensures
            r == self.completed(),
    {
        let mem_val_done: bool = match self.mem_value {
            Operand::Value(_) => true,
            Operand::Rob(_) => false,
        };
        let addr_done: bool = match self.addr {
            Operand::Value(_) => true,
            Operand::Rob(_) => false,
        };
        let reg_val_done: bool = self.reg_value.is_some();
        match self.inst.opcode {
            Opcode::Store => mem_val_done && addr_done && self.mem_rem_cycle == 0,
            Opcode::Amo => mem_val_done && addr_done && reg_val_done && self.mem_rem_cycle == 0,
            Opcode::Jalr => addr_done && reg_val_done,
            _ => reg_val_done,
        }
    }

    /// Applies the architectural effect of the entry, which left the buffer
    /// under index `old_index`.
    ///
    /// A fault that the entry carries is returned and nothing changes. A
    /// branch only reports whether it was predicted rightly, and an `ecall`
    /// only reports itself: the pipeline carries out the system call. Any
    /// other entry first carries out its store, if it has one, and then
    /// writes its result to the destination register. The renaming of the
    /// destination register ends if it still points at this entry.
    pub fn retire(
        &self,
        old_index: usize,
        memory: &mut ProcessMemory,
        reg: &mut RegisterFile,
    ) -> (r: Result<Retirement, Exception>)
        requires
            self.rd < 32,
        ensures
            r == (match self.retire_fault(old(memory)@) {
                Some(e) => Err::<Retirement, Exception>(e),
                None => Ok(self.retirement()),
            }),
            final(memory)@ == (if r is Ok && self.writes_memory() {
                old(memory)@.stored(store_address(*self), store_data(*self))
            } else {
                old(memory)@
            }),
            final(reg)@ == (if r is Ok {
                self.retired_registers(old(reg)@, old_index)
            } else {
                old(reg)@
            }),
    {
        if let Err(e) = self.mem_exception {
            return Err(e);
        }
        if self.inst.opcode == Opcode::Branch {
            let predicted: u32 = if self.branch_pred {
                1
            } else {
                0
            };
            reg.clear_rename(self.rd, old_index);
            if let Some(branch_result) = self.reg_value {
                if branch_result == predicted {
                    return Ok(Retirement::Done);
                }
            }
            return Ok(Retirement::Mispredicted);
        }
        if self.inst.function == Function::Ecall {
            reg.clear_rename(self.rd, old_index);
            return Ok(Retirement::SystemCall);
        }
        if self.inst.opcode == Opcode::Store || (self.inst.opcode == Opcode::Amo
            && self.inst.function != Function::Lrw) {
            MemoryUnit::execute_store(self, memory)?;
        }
        if let Some(reg_val) = self.reg_value {
            reg.write_gpr(self.rd, reg_val);
        }
        reg.clear_rename(self.rd, old_index);
        Ok(Retirement::Done)
    }
}

/// The reorder buffer.
#[derive(Debug)]
pub struct ReorderBuffer {
    capacity: usize,
    highest_index: usize,
    unused_indices: VecDeque<usize>,
    index_queue: VecDeque<usize>,
    entries: HashMap<usize, ReorderBufferEntry>,
}

/// The entries after the result `job` has been broadcast: the entry that
/// produced it takes the result, every other entry takes it in place of its
/// references to the producer.
pub open spec fn propagated(
    entries: Map<usize, ReorderBufferEntry>,
    job: FinishedCalc,
) -> Map<usize, ReorderBufferEntry> {
    Map::new(
        |idx: usize| entries.contains_key(idx),
        |idx: usize|
            if idx == job.rob_idx {
                entries[idx].with_result(job)
            } else {
                entries[idx].forwarded(job.rob_idx, job.reg_value)
            },
    )
}

/// The entry that a newly issued instruction gets under index `index`.
///
/// A store waits for its value, an atomic operation for value and
/// address, both read through the register map. The address of a load, a
/// store or a `jalr` is still to be computed, which the entry marks by a
/// reference to itself. `lui`, `auipc`, `jal` and `jalr` know their
/// result at once, and so does a store-conditional, which always
/// succeeds.
pub open spec fn issued_entry(
    index: usize,
    pc: u32,
    inst: Instruction,
    reg: RegisterState,
    entries: Map<usize, ReorderBufferEntry>,
    prediction: bool,
) -> ReorderBufferEntry {
    ReorderBufferEntry {
        mem_value: match inst.opcode {
            Opcode::Store | Opcode::Amo => reg.operand(inst.fields.rs2->0 as int, entries),
            _ => Operand::Value(0),
        },
        addr: match inst.opcode {
            Opcode::Amo => reg.operand(inst.fields.rs1->0 as int, entries),
            Opcode::Store | Opcode::Load | Opcode::Jalr => Operand::Rob(index),
            _ => Operand::Value(0),
        },
        branch_pred: inst.opcode is Branch && prediction,
        ..ReorderBufferEntry::fresh(pc, inst)
    }
}

impl ReorderBuffer {
    /// The indices of the entries in flight, oldest first.
    pub closed spec fn order(&self) -> Seq<usize> {
        self.index_queue@
    }

    /// The entries in flight, by index.
    pub closed spec fn entries(&self) -> Map<usize, ReorderBufferEntry> {
        self.entries@
    }

    /// The number of entries that the buffer can hold.
    pub closed spec fn capacity(&self) -> nat {
        self.capacity as nat
    }

    /// The bookkeeping of free indices is sound: an index is either in
    /// flight or free, never both and never twice.
    pub closed spec fn free_list_wf(&self) -> bool {
        &&& self.unused_indices@.no_duplicates()
        &&& forall|i: int|
            0 <= i < self.index_queue@.len() ==> self.index_queue@[i] < self.highest_index
        &&& forall|i: int|
            0 <= i < self.unused_indices@.len() ==> self.unused_indices@[i] < self.highest_index
        &&& forall|i: int, j: int|
            0 <= i < self.index_queue@.len() && 0 <= j < self.unused_indices@.len()
                ==> self.index_queue@[i] != self.unused_indices@[j]
        &&& self.index_queue@.len() + self.unused_indices@.len() == self.highest_index
        &&& self.highest_index <= self.capacity
    }

    /// The invariant of the buffer: every index in flight occurs once in the
    /// order and has an entry, no other index has one, and every entry is
    /// well formed.
    pub open spec fn wf(&self) -> bool {
        &&& self.free_list_wf()
        &&& self.order().no_duplicates()
        &&& self.entries().dom() == self.order().to_set()
        &&& self.order().len() <= self.capacity()
        &&& forall|idx: usize|
            self.entries().contains_key(idx) ==> (#[trigger] self.entries()[idx]).well_formed()
    }

    /// Whether the buffer has room for no further entry.
    pub open spec fn full(&self) -> bool {
        self.order().len() >= self.capacity()
    }

    /// The number of entries at the head of the order that are completed.
    pub open spec fn completed_prefix(&self, n: int) -> bool {
        &&& 0 <= n <= self.order().len()
        &&& forall|i: int| 0 <= i < n ==> (#[trigger] self.entries()[self.order()[i]]).completed()
        &&& n < self.order().len() ==> !self.entries()[self.order()[n]].completed()
    }

    /// An empty buffer with room for `capacity` entries.
    pub fn new(capacity: usize) -> (rob: ReorderBuffer)
        ensures
            rob.wf(),
            rob.order() == Seq::<usize>::empty(),
            rob.entries() == Map::<usize, ReorderBufferEntry>::empty(),
            rob.capacity() == capacity,
    {
        let rob = ReorderBuffer {
            capacity,
            highest_index: 0,
            unused_indices: VecDeque::new(),
            index_queue: VecDeque::new(),
            entries: HashMap::new(),
        };
        assert(rob.entries@.dom() =~= rob.index_queue@.to_set());
        rob
    }

    /// Removes every entry.
    pub fn clear(&mut self)
        ensures
            final(self).wf(),
            final(self).order() == Seq::<usize>::empty(),
            final(self).entries() == Map::<usize, ReorderBufferEntry>::empty(),
            final(self).capacity() == old(self).capacity(),
    {
        self.highest_index = 0;
        self.unused_indices.clear();
        self.entries.clear();
        self.index_queue.clear();
        assert(self.entries@.dom() =~= self.index_queue@.to_set());
    }

    /// Takes a free index: one that was handed back, or else a new one.
    fn register_new_index(&mut self) -> (index: usize)
        requires
            old(self).free_list_wf(),
            old(self).index_queue@.len() < old(self).capacity,
        ensures
            final(self).index_queue@ == old(self).index_queue@,
            final(self).entries@ == old(self).entries@,
            final(self).capacity == old(self).capacity,
            !old(self).index_queue@.contains(index),
            final(self).unused_indices@.no_duplicates(),
            index < final(self).highest_index,
            !final(self).unused_indices@.contains(index),
            forall|i: int|
                0 <= i < final(self).index_queue@.len()
                    ==> final(self).index_queue@[i] < final(self).highest_index,
            forall|i: int|
                0 <= i < final(self).unused_indices@.len() ==> final(self).unused_indices@[i]
                    < final(self).highest_index,
            forall|i: int, j: int|
                0 <= i < final(self).index_queue@.len()
                    && 0 <= j < final(self).unused_indices@.len()
                    ==> final(self).index_queue@[i] != final(self).unused_indices@[j],
            final(self).index_queue@.len() + final(self).unused_indices@.len() + 1
                == final(self).highest_index,
            final(self).highest_index <= final(self).capacity,
    {
        match self.unused_indices.pop_front() {
            Some(index) => {
                assert(old(self).unused_indices@[0] == index);
                assert forall|j: int| 0 <= j < self.unused_indices@.len() implies
                    self.unused_indices@[j] != index by {
                    assert(self.unused_indices@[j] == old(self).unused_indices@[j + 1]);
                }
                assert(self.unused_indices@.no_duplicates()) by {
                    assert forall|i: int, j: int|
                        0 <= i < self.unused_indices@.len() && 0 <= j < self.unused_indices@.len()
                            && i != j
                                implies self.unused_indices@[i] != self.unused_indices@[j] by {
                        assert(self.unused_indices@[i] == old(self).unused_indices@[i + 1]);
                        assert(self.unused_indices@[j] == old(self).unused_indices@[j + 1]);
                    }
                }
                assert forall|i: int|
                    0 <= i < self.unused_indices@.len() implies self.unused_indices@[i]
                        < self.highest_index by {
                    assert(self.unused_indices@[i] == old(self).unused_indices@[i + 1]);
                }
                assert forall|i: int, j: int|
                    0 <= i < self.index_queue@.len() && 0 <= j < self.unused_indices@.len()
                        implies self.index_queue@[i] != self.unused_indices@[j] by {
                    assert(self.unused_indices@[j] == old(self).unused_indices@[j + 1]);
                }
                index
            },
            None => {
                let new_index: usize = self.highest_index;
                self.highest_index += 1;
                new_index
            },
        }
    }

    /// Appends `entry` to the buffer and returns its index.
    fn add(&mut self, index: usize, entry: ReorderBufferEntry)
        requires
            entry.well_formed(),
            old(self).order().no_duplicates(),
            old(self).entries().dom() == old(self).order().to_set(),
            old(self).order().len() < old(self).capacity(),
            forall|idx: usize|
                old(self).entries().contains_key(idx)
                    ==> (#[trigger] old(self).entries()[idx]).well_formed(),
            !old(self).index_queue@.contains(index),
            old(self).unused_indices@.no_duplicates(),
            index < old(self).highest_index,
            !old(self).unused_indices@.contains(index),
            forall|i: int|
                0 <= i < old(self).index_queue@.len()
                    ==> old(self).index_queue@[i] < old(self).highest_index,
            forall|i: int|
                0 <= i < old(self).unused_indices@.len()
                    ==> old(self).unused_indices@[i] < old(self).highest_index,
            forall|i: int, j: int|
                0 <= i < old(self).index_queue@.len() && 0 <= j < old(self).unused_indices@.len()
                    ==> old(self).index_queue@[i] != old(self).unused_indices@[j],
            old(self).index_queue@.len() + old(self).unused_indices@.len() + 1
                == old(self).highest_index,
            old(self).highest_index <= old(self).capacity,
        ensures
            final(self).wf(),
            final(self).order() == old(self).order().push(index),
            final(self).entries() == old(self).entries().insert(index, entry),
            final(self).capacity() == old(self).capacity(),
    {
        self.index_queue.push_back(index);
        self.entries.insert(index, entry);
        proof {
            let queue = old(self).index_queue@;
            assert(self.index_queue@ == queue.push(index));
            assert(self.index_queue@.no_duplicates()) by {
                assert forall|i: int, j: int|
                    0 <= i < self.index_queue@.len() && 0 <= j < self.index_queue@.len() && i
                        != j implies self.index_queue@[i] != self.index_queue@[j] by {
                    if i < queue.len() && j < queue.len() {
                    } else if i < queue.len() {
                        assert(queue.contains(queue[i]));
                    } else {
                        assert(queue.contains(queue[j]));
                    }
                }
            }
            assert(self.entries@.dom() =~= self.index_queue@.to_set()) by {
                assert forall|k: usize|
                    self.index_queue@.to_set().contains(k) <==> self.entries@.dom().contains(
                        k,
                    ) by {
                    if queue.push(index).contains(k) {
                        let i = choose|i: int|
                            0 <= i < queue.push(index).len() && queue.push(index)[i] == k;
                        if i < queue.len() {
                            assert(queue.contains(k));
                            assert(queue.to_set().contains(k));
                        }
                    }
                    if queue.to_set().contains(k) {
                        let i = choose|i: int| 0 <= i < queue.len() && queue[i] == k;
                        assert(queue.push(index)[i] == k);
                    }
                    if k == index {
                        assert(queue.push(index)[queue.len() as int] == k);
                    }
                }
            }
        }
    }

    /// Removes the oldest entry and returns it; `None` when the buffer is
    /// empty.
    pub fn pop_front(&mut self) -> (entry: Option<ReorderBufferEntry>)
        requires
            old(self).wf(),
        ensures
            final(self).wf(),
            final(self).capacity() == old(self).capacity(),
            old(self).order().len() == 0
                ==> entry is None && final(self).order() == old(self).order()
                && final(self).entries() == old(self).entries(),
            old(self).order().len() > 0 ==> {
                &&& entry == Some(old(self).entries()[old(self).order()[0]])
                &&& final(self).order() == old(self).order().subrange(
                    1,
                    old(self).order().len() as int,
                )
                &&& final(self).entries() == old(self).entries().remove(old(self).order()[0])
            },
    {
        let index: usize = match self.index_queue.pop_front() {
            Some(index) => index,
            None => {
                return None;
            },
        };
        proof {
            assert(old(self).index_queue@.to_set().contains(index)) by {
                assert(old(self).index_queue@[0] == index);
                assert(old(self).index_queue@.contains(index));
            }
        }
        let removed: Option<ReorderBufferEntry> = self.entries.remove(&index);
        self.unused_indices.push_back(index);
        proof {
            let queue = old(self).index_queue@;
            let unused = old(self).unused_indices@;
            assert(self.index_queue@ == queue.subrange(1, queue.len() as int));
            assert forall|i: int| 0 <= i < self.index_queue@.len() implies self.index_queue@[i]
                == queue[i + 1] by {}
            assert(self.index_queue@.no_duplicates());
            assert(self.unused_indices@ == unused.push(index));
            assert(self.unused_indices@.no_duplicates()) by {
                assert forall|i: int, j: int|
                    0 <= i < self.unused_indices@.len() && 0 <= j < self.unused_indices@.len()
                        && i != j implies self.unused_indices@[i] != self.unused_indices@[j] by {
                    if i < unused.len() && j < unused.len() {
                    } else if i < unused.len() {
                        assert(queue[0] != unused[i]);
                    } else {
                        assert(queue[0] != unused[j]);
                    }
                }
            }
            assert forall|i: int, j: int|
                0 <= i < self.index_queue@.len() && 0 <= j < self.unused_indices@.len()
                    implies self.index_queue@[i] != self.unused_indices@[j] by {
                assert(self.index_queue@[i] == queue[i + 1]);
                if j < unused.len() {
                } else {
                    assert(queue[i + 1] != queue[0]);
                }
            }
            assert(self.entries@.dom() =~= self.index_queue@.to_set()) by {
                assert forall|k: usize|
                    self.index_queue@.to_set().contains(k) <==> self.entries@.dom().contains(
                        k,
                    ) by {
                    if self.index_queue@.contains(k) {
                        let i = choose|i: int|
                            0 <= i < self.index_queue@.len() && self.index_queue@[i] == k;
                        assert(queue[i + 1] == k);
                        assert(queue.contains(k));
                        assert(queue.to_set().contains(k));
                        assert(k != index);
                    }
                    if self.entries@.dom().contains(k) {
                        assert(queue.to_set().contains(k));
                        let i = choose|i: int| 0 <= i < queue.len() && queue[i] == k;
                        assert(i != 0);
                        assert(self.index_queue@[i - 1] == k);
                    }
                }
            }
        }
        removed
    }

    /// Gives the instruction `inst` at `pc` an entry at the end of the buffer
    /// and returns the index of the entry.
    pub fn issue(
        &mut self,
        pc: u32,
        inst: Instruction,
        reg: &RegisterFile,
        branch_predictor: &mut BranchPredictor,
    ) -> (index: usize)
        requires
            old(self).wf(),
            !old(self).full(),
            inst.consistent(),
        ensures
            final(self).wf(),
            final(self).capacity() == old(self).capacity(),
            !old(self).entries().contains_key(index),
            final(self).order() == old(self).order().push(index),
            final(self).entries() == old(self).entries().insert(
                index,
                issued_entry(
                    index,
                    pc,
                    inst,
                    reg@,
                    old(self).entries(),
                    old(branch_predictor).prediction(pc),
                ),
            ),
            final(branch_predictor)@ == old(branch_predictor)@,
    {
        let (mem_value, amo_addr): (Operand, Operand) = match inst.opcode {
            Opcode::Store => (
                reg.get_reg_value(inst.fields.rs2.unwrap(), self),
                Operand::default(),
            ),
            Opcode::Amo => (
                reg.get_reg_value(inst.fields.rs2.unwrap(), self),
                reg.get_reg_value(inst.fields.rs1.unwrap(), self),
            ),
            _ => (Operand::default(), Operand::default()),
        };
        let branch_pred: bool = if inst.opcode == Opcode::Branch {
            branch_predictor.predict(pc)
        } else {
            false
        };
        let index: usize = self.register_new_index();
        let addr: Operand = match inst.opcode {
            Opcode::Amo => amo_addr,
            Opcode::Store | Opcode::Load | Opcode::Jalr => Operand::Rob(index),
            _ => Operand::default(),
        };
        let new_entry = ReorderBufferEntry {
            mem_value,
            addr,
            branch_pred,
            ..ReorderBufferEntry::new(pc, inst)
        };
        proof {
            assert(!old(self).entries().contains_key(index)) by {
                if old(self).entries().contains_key(index) {
                    assert(old(self).order().to_set().contains(index));
                    assert(old(self).index_queue@.contains(index));
                }
            }
        }
        self.add(index, new_entry);
        index
    }

    /// The number of entries in flight.
    pub fn len(&self) -> (len: usize)
        ensures
            len == self.order().len(),
    {
        self.index_queue.len()
    }

    /// Whether the buffer has room for no further entry.
    pub fn is_full(&self) -> (full: bool)
        ensures
            full == self.full(),
    {
        self.index_queue.len() >= self.capacity
    }

    /// The entry with index `index`, if it is in flight.
    pub fn get(&self, index: usize) -> (entry: Option<&ReorderBufferEntry>)
        ensures
            entry == (if self.entries().contains_key(index) {
                Some(&self.entries()[index])
            } else {
                None
            }),
    {
        self.entries.get(&index)
    }

    /// The entry with index `index`, for changing it in place. The
    /// destination register and the instruction of an entry must stay as
    /// they are.
    pub fn get_mut(&mut self, index: usize) -> (entry: Option<&mut ReorderBufferEntry>)
        ensures
            final(self).order() == old(self).order(),
            final(self).capacity() == old(self).capacity(),
            old(self).entries().contains_key(index) ==> {
                &&& entry is Some
                &&& *entry->0 == old(self).entries()[index]
                &&& final(self).entries() == old(self).entries().insert(index, *final(entry->0))
            },
            !old(self).entries().contains_key(index) ==> entry is None && final(self).entries()
                == old(self).entries(),
            final(self).free_list_wf() == old(self).free_list_wf(),
    {
        match self.entries.entry(index) {
            Entry::Occupied(occupied) => Some(occupied.into_mut()),
            Entry::Vacant(_) => None,
        }
    }

    /// Puts `entry` in the place of the entry with index `index`.
    pub fn set(&mut self, index: usize, entry: ReorderBufferEntry)
        requires
            old(self).wf(),
            old(self).entries().contains_key(index),
            entry.well_formed(),
        ensures
            final(self).wf(),
            final(self).order() == old(self).order(),
            final(self).capacity() == old(self).capacity(),
            final(self).entries() == old(self).entries().insert(index, entry),
    {
        self.entries.insert(index, entry);
        assert(self.entries@.dom() =~= old(self).entries@.dom());
    }

    /// The index of the entry at place `n` of the order, the oldest entry
    /// being at place 0.
    pub fn nth_index(&self, n: usize) -> (index: Option<usize>)
        ensures
            index == (if n < self.order().len() {
                Some(self.order()[n as int])
            } else {
                None
            }),
    {
        if n < self.index_queue.len() {
            Some(self.index_queue[n])
        } else {
            None
        }
    }

    /// The index of the entry at place `relative_pos` of the order.
    pub fn to_index(&self, relative_pos: usize) -> (index: Option<usize>)
        ensures
            index == (if relative_pos < self.order().len() {
                Some(self.order()[relative_pos as int])
            } else {
                None
            }),
    {
        self.nth_index(relative_pos)
    }

    /// The place in the order of the entry with index `index`.
    pub fn to_relative_pos(&self, index: usize) -> (pos: Option<usize>)
        requires
            self.wf(),
        ensures
            pos is Some <==> self.entries().contains_key(index),
            pos matches Some(p) ==> p < self.order().len() && self.order()[p as int] == index,
    {
        let mut i: usize = 0;
        while i < self.index_queue.len()
            invariant
                self.wf(),
                i <= self.index_queue@.len(),
                forall|j: int| 0 <= j < i ==> self.index_queue@[j] != index,
            decreases self.index_queue@.len() - i,
        {
            if self.index_queue[i] == index {
                proof {
                    assert(self.index_queue@.contains(index));
                    assert(self.index_queue@.to_set().contains(index));
                }
                return Some(i);
            }
            i += 1;
        }
        proof {
            if self.entries().contains_key(index) {
                assert(self.index_queue@.to_set().contains(index));
                assert(self.index_queue@.contains(index));
            }
        }
        None
    }

    /// The entries in flight, oldest first.
    pub fn iter(&self) -> (entries: Vec<ReorderBufferEntry>)
        requires
            self.wf(),
        ensures
            entries@.len() == self.order().len(),
            forall|i: int|
                0 <= i < entries@.len() ==> entries@[i] == self.entries()[self.order()[i]],
    {
        let mut entries: Vec<ReorderBufferEntry> = Vec::new();
        let mut i: usize = 0;
        while i < self.index_queue.len()
            invariant
                self.wf(),
                i <= self.index_queue@.len(),
                entries@.len() == i,
                forall|j: int| 0 <= j < i ==> entries@[j] == self.entries@[self.index_queue@[j]],
            decreases self.index_queue@.len() - i,
        {
            let index: usize = self.index_queue[i];
            proof {
                assert(self.index_queue@.contains(index));
                assert(self.index_queue@.to_set().contains(index));
            }
            match self.entries.get(&index) {
                Some(entry) => {
                    entries.push(*entry);
                },
                None => {},
            }
            i += 1;
        }
        entries
    }

    /// The entries in flight with their indices, oldest first.
    pub fn iter_with_id(&self) -> (entries: Vec<(usize, ReorderBufferEntry)>)
        requires
            self.wf(),
        ensures
            entries@.len() == self.order().len(),
            forall|i: int|
                0 <= i < entries@.len() ==> entries@[i] == (
                    self.order()[i],
                    self.entries()[self.order()[i]],
                ),
    {
        let mut entries: Vec<(usize, ReorderBufferEntry)> = Vec::new();
        let mut i: usize = 0;
        while i < self.index_queue.len()
            invariant
                self.wf(),
                i <= self.index_queue@.len(),
                entries@.len() == i,
                forall|j: int|
                    0 <= j < i ==> entries@[j] == (
                        self.index_queue@[j],
                        self.entries@[self.index_queue@[j]],
                    ),
            decreases self.index_queue@.len() - i,
        {
            let index: usize = self.index_queue[i];
            proof {
                assert(self.index_queue@.contains(index));
                assert(self.index_queue@.to_set().contains(index));
            }
            match self.entries.get(&index) {
                Some(entry) => {
                    entries.push((index, *entry));
                },
                None => {},
            }
            i += 1;
        }
        entries
    }

    /// Broadcasts the result `job` to the entries.
    pub fn propagate(&mut self, job: &FinishedCalc)
        requires
            old(self).wf(),
        ensures
            final(self).wf(),
            final(self).order() == old(self).order(),
            final(self).capacity() == old(self).capacity(),
            final(self).entries() == propagated(old(self).entries(), *job),
    {
        let mut i: usize = 0;
        while i < self.index_queue.len()
            invariant
                old(self).wf(),
                self.wf(),
                self.index_queue@ == old(self).index_queue@,
                self.capacity == old(self).capacity,
                i <= self.index_queue@.len(),
                self.entries@.dom() == old(self).entries@.dom(),
                forall|j: int|
                    0 <= j < i ==> self.entries@[self.index_queue@[j]] == propagated(
                        old(self).entries@,
                        *job,
                    )[self.index_queue@[j]],
                forall|j: int|
                    i <= j < self.index_queue@.len() ==> self.entries@[self.index_queue@[j]]
                        == old(self).entries@[self.index_queue@[j]],
            decreases self.index_queue@.len() - i,
        {
            let index: usize = self.index_queue[i];
            proof {
                assert(self.index_queue@.contains(index));
                assert(self.index_queue@.to_set().contains(index));
            }
            let entry: ReorderBufferEntry = match self.entries.get(&index) {
                Some(entry) => *entry,
                None => {
                    proof {
                        assert(false);
                    }
                    i += 1;
                    continue ;
                },
            };
            let updated = if index == job.rob_idx {
                ReorderBufferEntry {
                    reg_value: Some(job.reg_value),
                    mem_exception: match job.exception {
                        Some(exception) => Err(exception),
                        None => entry.mem_exception,
                    },
                    ..entry
                }
            } else {
                ReorderBufferEntry {
                    addr: entry.addr.forward(job.rob_idx, job.reg_value),
                    mem_value: entry.mem_value.forward(job.rob_idx, job.reg_value),
                    ..entry
                }
            };
            let ghost before = self.entries@;
            self.entries.insert(index, updated);
            proof {
                assert(self.entries@.dom() =~= before.dom());
                assert forall|j: int| 0 <= j < i implies self.entries@[self.index_queue@[j]]
                    == propagated(old(self).entries@, *job)[self.index_queue@[j]] by {
                    assert(self.index_queue@[j] != index);
                }
                assert forall|j: int|
                    i < j < self.index_queue@.len() implies self.entries@[self.index_queue@[j]]
                        == old(self).entries@[self.index_queue@[j]] by {
                    assert(self.index_queue@[j] != index);
                }
            }
            i += 1;
        }
        proof {
            assert(self.entries@ =~= propagated(old(self).entries@, *job)) by {
                assert forall|k: usize| self.entries@.contains_key(k) implies self.entries@[k]
                    == propagated(old(self).entries@, *job)[k] by {
                    assert(self.index_queue@.to_set().contains(k));
                    assert(self.index_queue@.contains(k));
                    let j = choose|j: int|
                        0 <= j < self.index_queue@.len() && self.index_queue@[j] == k;
                    assert(self.entries@[self.index_queue@[j]] == propagated(
                        old(self).entries@,
                        *job,
                    )[self.index_queue@[j]]);
                }
            }
        }
    }

    /// Removes the completed entries at the head of the buffer, up to the
    /// first entry that is not completed, and returns them with their
    /// indices, oldest first.
    pub fn completed_entries(&mut self) -> (completed: Vec<(usize, ReorderBufferEntry)>)
        requires
            old(self).wf(),
        ensures
            final(self).wf(),
            final(self).capacity() == old(self).capacity(),
            old(self).completed_prefix(completed@.len() as int),
            forall|i: int|
                0 <= i < completed@.len() ==> completed@[i] == (
                    old(self).order()[i],
                    old(self).entries()[old(self).order()[i]],
                ),
            final(self).order() == old(self).order().subrange(
                completed@.len() as int,
                old(self).order().len() as int,
            ),
            forall|idx: usize|
                final(self).entries().contains_key(idx)
                    ==> final(self).entries()[idx] == old(self).entries()[idx],
    {
        let mut completed: Vec<(usize, ReorderBufferEntry)> = Vec::new();
        loop
            invariant
                old(self).wf(),
                self.wf(),
                self.capacity == old(self).capacity,
                completed@.len() <= old(self).order().len(),
                self.order() == old(self).order().subrange(
                    completed@.len() as int,
                    old(self).order().len() as int,
                ),
                forall|i: int|
                    0 <= i < completed@.len() ==> completed@[i] == (
                        old(self).order()[i],
                        old(self).entries()[old(self).order()[i]],
                    ),
                forall|i: int|
                    0 <= i < completed@.len()
                        ==> (#[trigger] old(self).entries()[old(self).order()[i]]).completed(),
                forall|idx: usize|
                    self.entries().contains_key(idx) ==> old(self).entries().contains_key(idx)
                        && self.entries()[idx] == old(self).entries()[idx],
            ensures
                self.wf(),
                self.capacity == old(self).capacity,
                old(self).completed_prefix(completed@.len() as int),
                self.order() == old(self).order().subrange(
                    completed@.len() as int,
                    old(self).order().len() as int,
                ),
                forall|i: int|
                    0 <= i < completed@.len() ==> completed@[i] == (
                        old(self).order()[i],
                        old(self).entries()[old(self).order()[i]],
                    ),
                forall|idx: usize|
                    self.entries().contains_key(idx)
                        ==> self.entries()[idx] == old(self).entries()[idx],
            decreases self.index_queue@.len(),
        {
            if self.index_queue.len() == 0 {
                proof {
                    assert(completed@.len() == old(self).order().len());
                }
                break ;
            }
            let index: usize = self.index_queue[0];
            proof {
                assert(self.order()[0] == old(self).order()[completed@.len() as int]);
                assert(self.index_queue@.contains(index));
                assert(self.order().to_set().contains(index));
            }
            let head_completed: bool = match self.entries.get(&index) {
                Some(entry) => entry.is_completed(),
                None => false,
            };
            if !head_completed {
                proof {
                    let at = completed@.len() as int;
                    assert(!old(self).entries()[old(self).order()[at]].completed());
                }
                break ;
            }
            let ghost before_order = self.order();
            match self.pop_front() {
                Some(entry) => {
                    completed.push((index, entry));
                },
                None => {},
            }
            proof {
                assert(self.order() =~= old(self).order().subrange(
                    completed@.len() as int,
                    old(self).order().len() as int,
                ));
            }
        }
        completed
    }
}

/// A walk over the entries of a reorder buffer, from the oldest to the
/// youngest or the other way round, one entry at a time.
#[derive(Debug)]
pub struct Iter<'a> {
    rob: &'a ReorderBuffer,
    cur_head: usize,
    cur_tail: usize,
}

impl<'a> Iter<'a> {
    /// The buffer that is walked.
    pub closed spec fn buffer(&self) -> &'a ReorderBuffer {
        self.rob
    }

    /// The place in the order of the next entry from the front.
    pub closed spec fn head(&self) -> int {
        self.cur_head as int
    }

    /// The place in the order behind the next entry from the back.
    pub closed spec fn tail(&self) -> int {
        self.cur_tail as int
    }

    /// The walk is within the order of a well-formed buffer.
    pub open spec fn wf(&self) -> bool {
        self.buffer().wf() && 0 <= self.head() <= self.tail() <= self.buffer().order().len()
    }

    /// The next entry from the front with its index, or `None` at the end.
    pub fn next(&mut self) -> (item: Option<(usize, &'a ReorderBufferEntry)>)
        requires
            old(self).wf(),
        ensures
            final(self).wf(),
            final(self).buffer() == old(self).buffer(),
            final(self).tail() == old(self).tail(),
            old(self).head() == old(self).tail()
                ==> item is None && final(self).head() == old(self).head(),
            old(self).head() < old(self).tail() ==> {
                &&& final(self).head() == old(self).head() + 1
                &&& item matches Some((index, entry))
                &&& index == old(self).buffer().order()[old(self).head()]
                &&& *entry == old(self).buffer().entries()[index]
            },
    {
        if self.cur_head == self.cur_tail {
            return None;
        }
        let index: usize = self.rob.index_queue[self.cur_head];
        proof {
            assert(self.rob.index_queue@.contains(index));
            assert(self.rob.order().to_set().contains(index));
        }
        self.cur_head += 1;
        match self.rob.entries.get(&index) {
            Some(entry) => Some((index, entry)),
            None => None,
        }
    }

    /// The next entry from the back with its index, or `None` at the end.
    pub fn next_back(&mut self) -> (item: Option<(usize, &'a ReorderBufferEntry)>)
        requires
            old(self).wf(),
        ensures
            final(self).wf(),
            final(self).buffer() == old(self).buffer(),
            final(self).head() == old(self).head(),
            old(self).head() == old(self).tail()
                ==> item is None && final(self).tail() == old(self).tail(),
            old(self).head() < old(self).tail() ==> {
                &&& final(self).tail() == old(self).tail() - 1
                &&& item matches Some((index, entry))
                &&& index == old(self).buffer().order()[old(self).tail() - 1]
                &&& *entry == old(self).buffer().entries()[index]
            },
    {
        if self.cur_head == self.cur_tail {
            return None;
        }
        let index: usize = self.rob.index_queue[self.cur_tail - 1];
        proof {
            assert(self.rob.index_queue@.contains(index));
            assert(self.rob.order().to_set().contains(index));
        }
        self.cur_tail -= 1;
        match self.rob.entries.get(&index) {
            Some(entry) => Some((index, entry)),
            None => None,
        }
    }

    /// The number of entries that are left.
    pub fn len(&self) -> (len: usize)
        requires
            self.wf(),
        ensures
            len == self.tail() - self.head(),
    {
        self.cur_tail - self.cur_head
    }
}

impl ReorderBuffer {
    /// A walk over all entries.
    pub fn cursor(&self) -> (iter: Iter<'_>)
        requires
            self.wf(),
        ensures
            iter.wf(),
            *iter.buffer() == *self,
            iter.head() == 0,
            iter.tail() == self.order().len(),
    {
        Iter { rob: self, cur_head: 0, cur_tail: self.index_queue.len() }
    }
}

impl Default for ReorderBuffer {
    /// An empty buffer with room for 128 entries.
    fn default() -> (rob: ReorderBuffer)
        ensures
            rob.wf(),
            rob.order() == Seq::<usize>::empty(),
            rob.entries() == Map::<usize, ReorderBufferEntry>::empty(),
            rob.capacity() == consts::ROB_CAPACITY,
    {
        ReorderBuffer::new(consts::ROB_CAPACITY)
    }
}

} // verus!
