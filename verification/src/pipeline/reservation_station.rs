//! Reservation stations: arithmetic operations that wait for their operands
//! and then execute on the arithmetic unit.
//!
//! The station also owns the address unit and the load buffer, so that one
//! call issues an instruction to the unit that executes it, one call runs all
//! units for a cycle, and one call broadcasts a result to all of them.

use vstd::prelude::*;
use std::collections::HashMap;
use crate::alu::{alu, alu_result, signed, to_signed, to_unsigned, unsigned};
use crate::instruction::{Function, Instruction, Opcode};
use crate::memory::ProcessMemory;
use crate::pipeline::exception::Exception;
use crate::pipeline::functional_units::address::{
    address_entry, forwarded_entries, rob_after_address, unit_after_execute, AddressUnit,
};
use crate::pipeline::functional_units::memory::pending_store;
use crate::pipeline::keyed::collect_keys;
use crate::pipeline::load_buffer::{
    drains_loads, latency_left, loads_after_execute, rob_after_loads, unfinished_loads,
    LoadBuffer, LoadBufferEntry, LoadBufferStatus,
};
use crate::pipeline::operand::Operand;
use crate::pipeline::reorder_buffer::{ReorderBuffer, ReorderBufferEntry};
use crate::register::{RegisterFile, RegisterState};

verus! {

broadcast use vstd::std_specs::hash::group_hash_axioms;

/// The progress of an operation in a station.
#[derive(Debug, Clone, Copy, PartialEq, Eq, Structural)]
pub enum RSStatus {
    Wait,
    Execute,
    Finished,
}

/// An operation in a station, owned by the reorder-buffer entry `rob_index`.
#[derive(Debug, Clone, Copy)]
pub struct RSEntry {
    pub rob_index: usize,
    pub status: RSStatus,
    pub inst: Instruction,
    pub operand: (Operand, Operand),
    pub value: u32,
    pub remaining_clock: usize,
}

impl RSEntry {
    /// The entry after the result `value` of reorder-buffer entry `rob_idx`
    /// has been broadcast.
    pub open spec fn forwarded(self, rob_idx: usize, value: u32) -> RSEntry {
        RSEntry {
            operand: (
                self.operand.0.forwarded(rob_idx, value),
                self.operand.1.forwarded(rob_idx, value),
            ),
            ..self
        }
    }

    /// Whether both operands are known.
    pub open spec fn ready(self) -> bool {
        self.operand.0 is Value && self.operand.1 is Value
    }

    /// The values of the operands that are known.
    pub fn operand_values(&self) -> (values: (Option<u32>, Option<u32>))
        ensures
            values.0 == (match self.operand.0 {
                Operand::Value(v) => Some(v),
                Operand::Rob(_) => None,
            }),
            values.1 == (match self.operand.1 {
                Operand::Value(v) => Some(v),
                Operand::Rob(_) => None,
            }),
    {
        (self.operand.0.value(), self.operand.1.value())
    }
}

/// A result on the common bus: the value that reorder-buffer entry `rob_idx`
/// has produced, and the fault that producing it raised, if any.
#[derive(Debug, Clone, Copy)]
pub struct FinishedCalc {
    pub rob_idx: usize,
    pub reg_value: u32,
    pub exception: Option<Exception>,
}

/// Whether the address unit computes an address for `inst`.
pub open spec fn uses_address_unit(inst: Instruction) -> bool {
    inst.opcode is Store || inst.opcode is Load || inst.opcode is Jalr
}

/// Whether `inst` reads memory through the load buffer.
pub open spec fn uses_load_buffer(inst: Instruction) -> bool {
    inst.opcode is Load || (inst.opcode is Amo && !(inst.function is Scw))
}

/// Whether `inst` executes on the arithmetic unit.
pub open spec fn uses_station(inst: Instruction) -> bool {
    !(inst.opcode is Store || inst.opcode is Load || inst.opcode is Amo || inst.opcode is Jalr
        || inst.opcode is AuiPc || inst.opcode is Lui || inst.opcode is Jal)
}

/// The entry with which instruction `inst` of reorder-buffer entry
/// `rob_index` enters the station: the first operand is register `rs1`, the
/// second is register `rs2` or, where the instruction has none, the
/// immediate.
pub open spec fn station_entry(
    rob_index: usize,
    inst: Instruction,
    reg: RegisterState,
    entries: Map<usize, ReorderBufferEntry>,
) -> RSEntry {
    RSEntry {
        rob_index,
        status: RSStatus::Wait,
        inst,
        operand: (
            reg.operand(
                match inst.fields.rs1 {
                    Some(rs1) => rs1 as int,
                    None => 0,
                },
                entries,
            ),
            match inst.fields.rs2 {
                Some(rs2) => reg.operand(rs2 as int, entries),
                None => Operand::Value(
                    match inst.fields.imm {
                        Some(imm) => imm,
                        None => 0,
                    },
                ),
            },
        ),
        value: 0,
        remaining_clock: inst.function.latency(),
    }
}

/// What the arithmetic unit computes for `func` on the words `a` and `b`.
pub open spec fn alu_value(func: Function, a: u32, b: u32) -> u32 {
    unsigned(alu_result(func, signed(a) as i32, signed(b) as i32)) as u32
}

/// An operation after one cycle: once both operands are known it executes,
/// and when its latency has passed it has finished with its result.
pub open spec fn ticked(entry: RSEntry) -> RSEntry {
    if entry.status is Finished || !entry.ready() {
        entry
    } else if entry.remaining_clock <= 1 {
        RSEntry {
            status: RSStatus::Finished,
            remaining_clock: 0,
            value: alu_value(
                entry.inst.function,
                entry.operand.0->Value_0,
                entry.operand.1->Value_0,
            ),
            ..entry
        }
    } else {
        RSEntry {
            status: RSStatus::Execute,
            remaining_clock: (entry.remaining_clock - 1) as usize,
            ..entry
        }
    }
}

/// The operations of the station after one cycle.
pub open spec fn station_after_execute(station: Map<usize, RSEntry>) -> Map<usize, RSEntry> {
    Map::new(|idx: usize| station.contains_key(idx), |idx: usize| ticked(station[idx]))
}

/// The entries of the reorder buffer after the store at its head, if there
/// is one with address and value known, has let one cycle of memory latency
/// pass.
pub open spec fn store_ticked(
    order: Seq<usize>,
    entries: Map<usize, ReorderBufferEntry>,
) -> Map<usize, ReorderBufferEntry> {
    if order.len() > 0 && entries.contains_key(order[0]) && entries[order[0]].is_store()
        && pending_store(entries[order[0]]) is Some {
        entries.insert(
            order[0],
            ReorderBufferEntry {
                mem_rem_cycle: latency_left(entries[order[0]]),
                ..entries[order[0]]
            },
        )
    } else {
        entries
    }
}

/// The result that a finished operation puts on the common bus.
pub open spec fn station_result(entry: RSEntry) -> FinishedCalc {
    FinishedCalc { rob_idx: entry.rob_index, reg_value: entry.value, exception: None }
}

/// Whether `jobs` are the results of the finished operations of `station`,
/// each once, in some order.
pub open spec fn drains_station(station: Map<usize, RSEntry>, jobs: Seq<FinishedCalc>) -> bool {
    &&& forall|j: int|
        0 <= j < jobs.len() ==> {
            let idx = (#[trigger] jobs[j]).rob_idx;
            &&& station.contains_key(idx)
            &&& station[idx].status is Finished
            &&& jobs[j] == station_result(station[idx])
        }
    &&& forall|j: int, k: int|
        0 <= j < jobs.len() && 0 <= k < jobs.len() && j != k ==> (#[trigger] jobs[j]).rob_idx != (
        #[trigger] jobs[k]).rob_idx
    &&& forall|idx: usize|
        station.contains_key(idx) && (#[trigger] station[idx]).status is Finished ==> exists|
            j: int,
        | 0 <= j < jobs.len() && (#[trigger] jobs[j]).rob_idx == idx
}

/// The operations that are left when the finished ones have been taken out.
pub open spec fn unfinished_operations(station: Map<usize, RSEntry>) -> Map<usize, RSEntry> {
    Map::new(
        |idx: usize| station.contains_key(idx) && !(station[idx].status is Finished),
        |idx: usize| station[idx],
    )
}

/// The reservation stations, with the address unit and the load buffer.
#[derive(Debug)]
pub struct ReservationStation {
    address_unit: AddressUnit,
    load_buf: LoadBuffer,
    station: HashMap<usize, RSEntry>,
}

impl ReservationStation {
    /// The operations that wait for or execute on the arithmetic unit.
    pub closed spec fn station(&self) -> Map<usize, RSEntry> {
        self.station@
    }

    /// The entries of the address unit.
    pub closed spec fn address_unit(&self) -> Map<usize, RSEntry> {
        self.address_unit.buf@
    }

    /// The loads in the load buffer.
    pub closed spec fn loads(&self) -> Map<usize, LoadBufferEntry> {
        self.load_buf.entries()
    }

    /// Every operation and every load is filed under the index of its owner.
    pub open spec fn wf(&self) -> bool {
        &&& forall|idx: usize|
            self.station().contains_key(idx) ==> (#[trigger] self.station()[idx]).rob_index == idx
        &&& forall|idx: usize|
            self.loads().contains_key(idx) ==> (#[trigger] self.loads()[idx]).rob_index == idx
    }

    /// Whether no unit holds anything.
    pub open spec fn is_empty(&self) -> bool {
        &&& self.station() == Map::<usize, RSEntry>::empty()
        &&& self.address_unit() == Map::<usize, RSEntry>::empty()
        &&& self.loads() == Map::<usize, LoadBufferEntry>::empty()
    }

    /// Stations, address unit and load buffer, all empty.
    pub fn new() -> (rs: ReservationStation)
        ensures
            rs.wf(),
            rs.is_empty(),
    {
        ReservationStation {
            address_unit: AddressUnit::new(),
            load_buf: LoadBuffer::new(),
            station: HashMap::new(),
        }
    }

    /// Empties the stations, the address unit and the load buffer.
    pub fn clear(&mut self)
        ensures
            final(self).wf(),
            final(self).is_empty(),
    {
        self.station.clear();
        self.address_unit.clear();
        self.load_buf.clear();
    }

    /// The cycles that the arithmetic unit needs for `func`.
    pub fn remain_clock(func: Function) -> (cycles: usize)
        ensures
            cycles == func.latency(),
            cycles >= 1,
    {
        match func {
            Function::Mul | Function::Mulh | Function::Mulhsu | Function::Mulhu => {
                crate::consts::MUL_CYCLE
            },
            Function::Div | Function::Divu | Function::Rem | Function::Remu => {
                crate::consts::DIV_CYCLE
            },
            _ => crate::consts::ADD_CYCLE,
        }
    }

    /// Hands the instruction of reorder-buffer entry `rob_index` to the units
    /// that execute it: a load to address unit and load buffer, a store or a
    /// `jalr` to the address unit, an atomic operation other than a
    /// store-conditional to the load buffer, and an arithmetic operation, a
    /// branch or a system instruction to a station. `lui`, `auipc`, `jal` and
    /// the store-conditional need no unit.
    pub fn issue(&mut self, rob_index: usize, rob: &ReorderBuffer, reg: &RegisterFile)
        requires
            old(self).wf(),
            rob.wf(),
            rob.entries().contains_key(rob_index),
        ensures
            final(self).wf(),
            final(self).address_unit() == (if uses_address_unit(rob.entries()[rob_index].inst) {
                old(self).address_unit().insert(
                    rob_index,
                    address_entry(rob_index, rob.entries()[rob_index].inst, reg@, rob.entries()),
                )
            } else {
                old(self).address_unit()
            }),
            final(self).loads() == (if uses_load_buffer(rob.entries()[rob_index].inst) {
                old(self).loads().insert(
                    rob_index,
                    LoadBufferEntry { rob_index, status: LoadBufferStatus::Wait, value: Ok(0) },
                )
            } else {
                old(self).loads()
            }),
            final(self).station() == (if uses_station(rob.entries()[rob_index].inst) {
                old(self).station().insert(
                    rob_index,
                    station_entry(rob_index, rob.entries()[rob_index].inst, reg@, rob.entries()),
                )
            } else {
                old(self).station()
            }),
    {
        let inst: Instruction = match rob.get(rob_index) {
            Some(rob_entry) => rob_entry.inst,
            None => {
                return ;
            },
        };
        proof {
            assert(rob.entries()[rob_index].well_formed());
        }
        match inst.opcode {
            Opcode::Store => self.address_unit.issue(rob_index, inst, reg, rob),
            Opcode::Load => {
                self.address_unit.issue(rob_index, inst, reg, rob);
                self.load_buf.issue(rob_index, rob, reg);
            },
            Opcode::Amo => {
                if inst.function != Function::Scw {
                    self.load_buf.issue(rob_index, rob, reg);
                }
            },
            Opcode::Jalr => self.address_unit.issue(rob_index, inst, reg, rob),
            Opcode::AuiPc | Opcode::Lui | Opcode::Jal => {},
            _ => {
                let rs1: u8 = inst.fields.rs1.unwrap_or(0);
                let op1: Operand = reg.get_reg_value(rs1, rob);
                let op2: Operand = match inst.fields.rs2 {
                    Some(rs2) => reg.get_reg_value(rs2, rob),
                    None => Operand::Value(inst.fields.imm.unwrap_or(0)),
                };
                self.station.insert(
                    rob_index,
                    RSEntry {
                        rob_index,
                        status: RSStatus::Wait,
                        inst,
                        operand: (op1, op2),
                        value: 0,
                        remaining_clock: ReservationStation::remain_clock(inst.function),
                    },
                );
            },
        }
    }

    /// Broadcasts the result `job` to the stations, the address unit and the
    /// load buffer.
    pub fn propagate(&mut self, job: &FinishedCalc)
        requires
            old(self).wf(),
        ensures
            final(self).wf(),
            final(self).address_unit() == forwarded_entries(
                old(self).address_unit(),
                job.rob_idx,
                job.reg_value,
            ),
            final(self).loads() == old(self).loads(),
            final(self).station() == forwarded_entries(
                old(self).station(),
                job.rob_idx,
                job.reg_value,
            ),
    {
        self.address_unit.propagate(job);
        self.load_buf.propagate(job);
        let keys: Vec<usize> = collect_keys(&self.station);
        let mut i: usize = 0;
        while i < keys.len()
            invariant
                i <= keys@.len(),
                keys@.no_duplicates(),
                keys@.to_set() == old(self).station@.dom(),
                self.station@.dom() == old(self).station@.dom(),
                self.address_unit.buf@ == forwarded_entries(
                    old(self).address_unit.buf@,
                    job.rob_idx,
                    job.reg_value,
                ),
                self.load_buf.entries() == old(self).load_buf.entries(),
                forall|j: int|
                    0 <= j < i
                        ==> self.station@[keys@[j]]
                        == old(self).station@[keys@[j]].forwarded(job.rob_idx, job.reg_value),
                forall|j: int|
                    i <= j < keys@.len()
                        ==> self.station@[keys@[j]] == old(self).station@[keys@[j]],
            decreases keys@.len() - i,
        {
            let key: usize = keys[i];
            proof {
                assert(keys@.contains(key));
                assert(keys@.to_set().contains(key));
            }
            let entry: RSEntry = match self.station.get(&key) {
                Some(entry) => *entry,
                None => {
                    proof {
                        assert(false);
                    }
                    i += 1;
                    continue ;
                },
            };
            let updated = RSEntry {
                operand: (
                    entry.operand.0.forward(job.rob_idx, job.reg_value),
                    entry.operand.1.forward(job.rob_idx, job.reg_value),
                ),
                ..entry
            };
            let ghost before = self.station@;
            self.station.insert(key, updated);
            proof {
                assert(self.station@.dom() =~= before.dom());
                assert forall|j: int| 0 <= j < i
                    implies self.station@[keys@[j]]
                    == old(self).station@[keys@[j]].forwarded(job.rob_idx, job.reg_value) by {
                    assert(keys@[j] != key);
                }
                assert forall|j: int| i < j < keys@.len()
                    implies self.station@[keys@[j]] == old(self).station@[keys@[j]] by {
                    assert(keys@[j] != key);
                }
            }
            i += 1;
        }
        proof {
            assert(self.station@ =~= forwarded_entries(
                old(self).station@,
                job.rob_idx,
                job.reg_value,
            )) by {
                assert forall|k: usize| self.station@.contains_key(k) implies self.station@[k]
                    == old(self).station@[k].forwarded(job.rob_idx, job.reg_value) by {
                    assert(keys@.to_set().contains(k));
                    assert(keys@.contains(k));
                    let j = choose|j: int| 0 <= j < keys@.len() && keys@[j] == k;
                    assert(self.station@[keys@[j]] == old(self).station@[keys@[j]].forwarded(
                        job.rob_idx,
                        job.reg_value,
                    ));
                }
            }
        }
    }

    /// Lets the store at the head of the reorder buffer, if there is one with
    /// address and value known, pass one cycle of memory latency.
    fn tick_store(rob: &mut ReorderBuffer)
        requires
            old(rob).wf(),
        ensures
            final(rob).wf(),
            final(rob).order() == old(rob).order(),
            final(rob).capacity() == old(rob).capacity(),
            final(rob).entries() == store_ticked(old(rob).order(), old(rob).entries()),
    {
        let head: usize = match rob.nth_index(0) {
            Some(head) => head,
            None => {
                return ;
            },
        };
        let entry: ReorderBufferEntry = match rob.get(head) {
            Some(entry) => *entry,
            None => {
                return ;
            },
        };
        let is_store: bool = entry.inst.opcode == Opcode::Store || (entry.inst.opcode
            == Opcode::Amo && entry.inst.function != Function::Lrw);
        let operands_known: bool = match (entry.addr, entry.mem_value) {
            (Operand::Value(_), Operand::Value(_)) => !(entry.inst.opcode == Opcode::Amo
                && entry.reg_value.is_none()),
            _ => false,
        };
        if is_store && operands_known {
            rob.set(
                head,
                ReorderBufferEntry {
                    mem_rem_cycle: entry.mem_rem_cycle.saturating_sub(1),
                    ..entry
                },
            );
        }
    }

    /// Runs every station for one cycle.
    fn tick_station(&mut self)
        ensures
            final(self).address_unit() == old(self).address_unit(),
            final(self).loads() == old(self).loads(),
            final(self).station() == station_after_execute(old(self).station()),
    {
        let keys: Vec<usize> = collect_keys(&self.station);
        let mut i: usize = 0;
        while i < keys.len()
            invariant
                i <= keys@.len(),
                keys@.no_duplicates(),
                keys@.to_set() == old(self).station@.dom(),
                self.station@.dom() == old(self).station@.dom(),
                self.address_unit.buf@ == old(self).address_unit.buf@,
                self.load_buf.entries() == old(self).load_buf.entries(),
                forall|j: int|
                    0 <= j < i ==> self.station@[keys@[j]] == ticked(old(self).station@[keys@[j]]),
                forall|j: int|
                    i <= j < keys@.len()
                        ==> self.station@[keys@[j]] == old(self).station@[keys@[j]],
            decreases keys@.len() - i,
        {
            let key: usize = keys[i];
            proof {
                assert(keys@.contains(key));
                assert(keys@.to_set().contains(key));
            }
            let mut entry: RSEntry = match self.station.get(&key) {
                Some(entry) => *entry,
                None => {
                    proof {
                        assert(false);
                    }
                    i += 1;
                    continue ;
                },
            };
            let ghost before = self.station@;
            if entry.status != RSStatus::Finished {
                if let (Operand::Value(a), Operand::Value(b)) = entry.operand {
                    entry.status = RSStatus::Execute;
                    entry.remaining_clock = entry.remaining_clock.saturating_sub(1);
                    if entry.remaining_clock == 0 {
                        entry.value = to_unsigned(
                            alu(&entry.inst.function, to_signed(a), to_signed(b)),
                        );
                        entry.status = RSStatus::Finished;
                    }
                }
            }
            self.station.insert(key, entry);
            proof {
                assert(entry == ticked(before[key]));
                assert(self.station@.dom() =~= before.dom());
                assert forall|j: int| 0 <= j < i implies self.station@[keys@[j]] == ticked(
                    old(self).station@[keys@[j]],
                ) by {
                    assert(keys@[j] != key);
                }
                assert forall|j: int| i < j < keys@.len()
                    implies self.station@[keys@[j]] == old(self).station@[keys@[j]] by {
                    assert(keys@[j] != key);
                }
            }
            i += 1;
        }
        proof {
            assert(self.station@ =~= station_after_execute(old(self).station@)) by {
                assert forall|k: usize| self.station@.contains_key(k) implies self.station@[k]
                    == ticked(old(self).station@[k]) by {
                    assert(keys@.to_set().contains(k));
                    assert(keys@.contains(k));
                    let j = choose|j: int| 0 <= j < keys@.len() && keys@[j] == k;
                    assert(self.station@[keys@[j]] == ticked(old(self).station@[keys@[j]]));
                }
            }
        }
    }

    /// Runs all units for one cycle, in this order: the address unit, the
    /// load buffer, the store at the head of the reorder buffer, the
    /// stations. Memory is only read.
    ///
    /// Returns the target of a `jalr` whose address was computed in this
    /// cycle. Where several were, the target is that of one of them.
    pub fn execute(&mut self, rob: &mut ReorderBuffer, mem: &ProcessMemory) -> (npc: Option<u32>)
        requires
            old(self).wf(),
            old(rob).wf(),
        ensures
            final(self).wf(),
            final(rob).wf(),
            final(rob).order() == old(rob).order(),
            final(rob).capacity() == old(rob).capacity(),
            final(self).address_unit() == unit_after_execute(old(self).address_unit()),
            final(self).loads() == loads_after_execute(
                old(self).loads(),
                old(rob).order(),
                rob_after_address(old(rob).entries(), old(self).address_unit()),
                mem@,
            ),
            final(self).station() == station_after_execute(old(self).station()),
            final(rob).entries() == store_ticked(
                old(rob).order(),
                rob_after_loads(
                    old(self).loads(),
                    old(rob).order(),
                    rob_after_address(old(rob).entries(), old(self).address_unit()),
                    mem@,
                ),
            ),
            npc matches Some(target) ==> exists|idx: usize|
                #![trigger old(self).address_unit()[idx]]
                old(self).address_unit().contains_key(idx) && old(self).address_unit()[idx].ready()
                    && old(self).address_unit()[idx].inst.opcode is Jalr && target
                    == crate::pipeline::functional_units::address::effective_address(
                    old(self).address_unit()[idx],
                ),
            npc is None ==> forall|idx: usize|
                #![trigger old(self).address_unit()[idx]]
                old(self).address_unit().contains_key(idx) && old(self).address_unit()[idx].ready()
                    ==> !(old(self).address_unit()[idx].inst.opcode is Jalr),
    {
        let npc: Option<u32> = self.address_unit.execute(rob);
        self.load_buf.execute(rob, mem);
        ReservationStation::tick_store(rob);
        self.tick_station();
        proof {
            assert(self.wf()) by {
                assert forall|idx: usize| self.station().contains_key(idx) implies
                    (#[trigger] self.station()[idx]).rob_index == idx by {
                    assert(old(self).station()[idx].rob_index == idx);
                }
            }
        }
        npc
    }

    /// Takes the finished loads and the finished operations out of their
    /// units and returns their results: first those of the loads, then those
    /// of the operations, each group in no particular order.
    pub fn completed_jobs(&mut self) -> (jobs: Vec<FinishedCalc>)
        requires
            old(self).wf(),
        ensures
            final(self).wf(),
            final(self).address_unit() == old(self).address_unit(),
            final(self).loads() == unfinished_loads(old(self).loads()),
            final(self).station() == unfinished_operations(old(self).station()),
            exists|n: int|
                0 <= n <= jobs@.len() && drains_loads(old(self).loads(), jobs@.subrange(0, n))
                    && drains_station(
                    old(self).station(),
                    jobs@.subrange(n, jobs@.len() as int),
                ),
    {
        let mut loads: Vec<FinishedCalc> = self.load_buf.pop_finished();
        let ghost load_jobs = loads@;
        let keys: Vec<usize> = collect_keys(&self.station);
        let mut generals: Vec<FinishedCalc> = Vec::new();
        let mut i: usize = 0;
        while i < keys.len()
            invariant
                i <= keys@.len(),
                keys@.no_duplicates(),
                keys@.to_set() == old(self).station@.dom(),
                old(self).wf(),
                self.address_unit.buf@ == old(self).address_unit.buf@,
                self.load_buf.entries() == unfinished_loads(old(self).load_buf.entries()),
                self.load_buf.wf(),
                forall|idx: usize|
                    #![trigger self.station@.contains_key(idx)]
                    self.station@.contains_key(idx) ==> old(self).station@.contains_key(idx)
                        && self.station@[idx] == old(self).station@[idx],
                forall|j: int|
                    0 <= j < i ==> (self.station@.contains_key(keys@[j])
                        <==> !(old(self).station@[keys@[j]].status is Finished)),
                forall|j: int| i <= j < keys@.len() ==> self.station@.contains_key(keys@[j]),
                forall|j: int|
                    0 <= j < generals@.len() ==> {
                        let idx = (#[trigger] generals@[j]).rob_idx;
                        &&& keys@.subrange(0, i as int).contains(idx)
                        &&& old(self).station@[idx].status is Finished
                        &&& generals@[j] == station_result(old(self).station@[idx])
                    },
                forall|j: int, k: int|
                    0 <= j < generals@.len() && 0 <= k < generals@.len() && j != k ==> (
                    #[trigger] generals@[j]).rob_idx != (#[trigger] generals@[k]).rob_idx,
                forall|j: int|
                    0 <= j < i && old(self).station@[keys@[j]].status is Finished ==> exists|
                        k: int,
                    | 0 <= k < generals@.len() && (#[trigger] generals@[k]).rob_idx == keys@[j],
            decreases keys@.len() - i,
        {
            let key: usize = keys[i];
            proof {
                assert(keys@.contains(key));
                assert(keys@.to_set().contains(key));
            }
            let entry: RSEntry = match self.station.get(&key) {
                Some(entry) => *entry,
                None => {
                    proof {
                        assert(false);
                    }
                    i += 1;
                    continue ;
                },
            };
            let ghost station_before = self.station@;
            let ghost generals_before = generals@;
            proof {
                assert(entry.rob_index == key) by {
                    assert(old(self).station()[key].rob_index == key);
                }
                assert(!keys@.subrange(0, i as int).contains(key)) by {
                    if keys@.subrange(0, i as int).contains(key) {
                        let p = choose|p: int| 0 <= p < i && keys@.subrange(0, i as int)[p] == key;
                        assert(keys@[p] == key);
                    }
                }
            }
            if entry.status == RSStatus::Finished {
                self.station.remove(&key);
                generals.push(
                    FinishedCalc { rob_idx: entry.rob_index, reg_value: entry.value,
                        exception: None },
                );
            }
            proof {
                assert forall|idx: usize|
                    #![trigger self.station@.contains_key(idx)]
                    self.station@.contains_key(idx) implies old(self).station@.contains_key(idx)
                    && self.station@[idx] == old(self).station@[idx] by {
                    assert(station_before.contains_key(idx));
                }
                assert forall|j: int| 0 <= j < i implies (self.station@.contains_key(keys@[j])
                    <==> !(old(self).station@[keys@[j]].status is Finished)) by {
                    assert(keys@[j] != key);
                }
                assert forall|j: int| i < j < keys@.len() implies self.station@.contains_key(
                    keys@[j],
                ) by {
                    assert(keys@[j] != key);
                }
                assert(keys@.subrange(0, i + 1)[i as int] == key);
                assert forall|idx: usize|
                    keys@.subrange(0, i as int).contains(idx) implies keys@.subrange(
                    0,
                    i + 1,
                ).contains(idx) by {
                    let p = choose|p: int| 0 <= p < i && keys@.subrange(0, i as int)[p] == idx;
                    assert(keys@.subrange(0, i + 1)[p] == idx);
                }
                assert forall|j: int| 0 <= j < generals@.len() implies {
                    let idx = (#[trigger] generals@[j]).rob_idx;
                    &&& keys@.subrange(0, i + 1).contains(idx)
                    &&& old(self).station@[idx].status is Finished
                    &&& generals@[j] == station_result(old(self).station@[idx])
                } by {
                    if j < generals_before.len() {
                        assert(generals@[j] == generals_before[j]);
                    }
                }
                assert forall|j: int, k: int|
                    0 <= j < generals@.len() && 0 <= k < generals@.len() && j != k implies
                    (#[trigger] generals@[j]).rob_idx != (#[trigger] generals@[k]).rob_idx by {
                    if j < generals_before.len() && k < generals_before.len() {
                        assert(generals@[j] == generals_before[j]);
                        assert(generals@[k] == generals_before[k]);
                    } else if j < generals_before.len() {
                        assert(generals@[j] == generals_before[j]);
                        assert(keys@.subrange(0, i as int).contains(generals_before[j].rob_idx));
                    } else {
                        assert(generals@[k] == generals_before[k]);
                        assert(keys@.subrange(0, i as int).contains(generals_before[k].rob_idx));
                    }
                }
                assert forall|j: int|
                    0 <= j < i + 1 && old(self).station@[keys@[j]].status
                        is Finished implies exists|k: int|
                    0 <= k < generals@.len() && (#[trigger] generals@[k]).rob_idx == keys@[j] by {
                    if j < i {
                        let k = choose|k: int|
                            0 <= k < generals_before.len() && (
                            #[trigger] generals_before[k]).rob_idx == keys@[j];
                        assert(generals@[k] == generals_before[k]);
                    } else {
                        assert(generals@[generals@.len() - 1].rob_idx == key);
                    }
                }
            }
            i += 1;
        }
        proof {
            assert(self.station@ =~= unfinished_operations(old(self).station@)) by {
                assert forall|k: usize|
                    self.station@.contains_key(k)
                        <==> (old(self).station@.contains_key(k)
                        && !(old(self).station@[k].status is Finished)) by {
                    if old(self).station@.contains_key(k) {
                        assert(keys@.to_set().contains(k));
                        assert(keys@.contains(k));
                        let j = choose|j: int| 0 <= j < keys@.len() && keys@[j] == k;
                        assert(self.station@.contains_key(keys@[j])
                            <==> !(old(self).station@[keys@[j]].status is Finished));
                    } else {
                        assert(!self.station@.contains_key(k));
                    }
                }
            }
            assert(drains_station(old(self).station@, generals@)) by {
                assert forall|j: int| 0 <= j < generals@.len() implies {
                    let idx = (#[trigger] generals@[j]).rob_idx;
                    &&& old(self).station@.contains_key(idx)
                    &&& old(self).station@[idx].status is Finished
                    &&& generals@[j] == station_result(old(self).station@[idx])
                } by {
                    let idx = generals@[j].rob_idx;
                    let p = choose|p: int|
                        0 <= p < keys@.len() && keys@.subrange(0, keys@.len() as int)[p] == idx;
                    assert(keys@[p] == idx);
                    assert(keys@.contains(idx));
                    assert(keys@.to_set().contains(idx));
                }
                assert forall|idx: usize|
                    old(self).station@.contains_key(idx)
                        && (#[trigger] old(self).station@[idx]).status is Finished
                        implies exists|j: int|
                    0 <= j < generals@.len() && (#[trigger] generals@[j]).rob_idx == idx by {
                    assert(keys@.to_set().contains(idx));
                    assert(keys@.contains(idx));
                    let q = choose|q: int| 0 <= q < keys@.len() && keys@[q] == idx;
                    assert(old(self).station@[keys@[q]].status is Finished);
                }
            }
        }
        let ghost general_jobs = generals@;
        loads.append(&mut generals);
        proof {
            let n = load_jobs.len() as int;
            assert(loads@.subrange(0, n) =~= load_jobs);
            assert(loads@.subrange(n, loads@.len() as int) =~= general_jobs);
            assert(self.wf()) by {
                assert forall|idx: usize| self.station().contains_key(idx) implies
                    (#[trigger] self.station()[idx]).rob_index == idx by {
                    assert(old(self).station()[idx].rob_index == idx);
                }
            }
        }
        loads
    }
}

impl Default for ReservationStation {
    fn default() -> (rs: ReservationStation)
        ensures
            rs.wf(),
            rs.is_empty(),
    {
        ReservationStation::new()
    }
}

} // verus!
