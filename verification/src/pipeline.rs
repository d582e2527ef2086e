//! The out-of-order pipeline.
//!
//! One cycle runs four phases in a fixed order: commit retires the completed
//! instructions at the head of the reorder buffer, write-result broadcasts
//! the results that the units have finished, execute runs every unit for one
//! cycle, and issue fetches new instructions. Registers, memory and the host
//! change only in commit.

pub mod branch_predictor;
pub mod coherence;
pub mod dataflow;
pub mod equivalence;
pub mod exception;
pub mod forwarding;
pub mod functional_units;
pub mod in_order;
pub mod keyed;
pub mod load_buffer;
pub mod memory_order;
pub mod operand;
pub mod program_order;
pub mod reorder_buffer;
pub mod reservation_station;
pub mod syscall;

use vstd::prelude::*;
use crate::consts;
use crate::instruction::{Function, Instruction, Opcode};
use crate::memory::{le_word, MemoryImage, ProcessMemory};
use crate::register::{RegisterFile, RegisterState};
use self::branch_predictor::{next_state, BranchPredictor};
use self::exception::Exception;
use self::functional_units::address::{
    address_entry, effective_address, forwarded_entries, rob_after_address, unit_after_execute,
};
use self::functional_units::memory::{store_address, store_data};
use self::load_buffer::{
    drains_loads, loads_after_execute, rob_after_loads, unfinished_loads, LoadBufferEntry,
    LoadBufferStatus,
};
use self::reorder_buffer::{
    issued_entry, propagated, ReorderBuffer, ReorderBufferEntry, Retirement,
};
use self::reservation_station::{
    drains_station, station_after_execute, station_entry, store_ticked, unfinished_operations,
    uses_address_unit, uses_load_buffer, uses_station, FinishedCalc, RSEntry, ReservationStation,
};
use self::syscall::{answered, exits, plan, HostAnswer, HostCall, HostReply, HostRequest, Plan};

verus! {

/// Why the simulation cannot go on.
#[derive(Debug, Clone, Copy, PartialEq, Eq, Structural)]
pub enum Fault {
    /// The instruction at `pc` retired with `exception`.
    Retire { pc: u32, exception: Exception },
    /// There is no instruction word at `pc`, and nothing in flight could
    /// still lead the program elsewhere.
    Fetch { pc: u32 },
    /// The word at `pc` encodes no instruction, and nothing in flight could
    /// still lead the program elsewhere.
    IllegalInstruction { pc: u32, word: u32 },
}

/// The pipeline of one simulated process.
#[derive(Debug)]
pub struct Pipeline {
    /// The registers and their renaming.
    pub reg: RegisterFile,
    /// The process image.
    pub memory: ProcessMemory,
    /// The reorder buffer.
    pub rob: ReorderBuffer,
    /// The reservation station with the address unit and the load buffer.
    pub rs: ReservationStation,
    /// The branch predictor.
    pub branch_predictor: BranchPredictor,
    /// The number of cycles that have run.
    pub clock: usize,
    /// The address of the `ecall` whose request to the host is not yet
    /// answered.
    pub awaiting: Option<u32>,
}

/// The mathematical content of a [`Pipeline`].
pub struct PipelineState {
    /// The registers and their renaming.
    pub reg: RegisterState,
    /// The process image.
    pub memory: MemoryImage,
    /// The indices of the reorder-buffer entries, oldest first.
    pub order: Seq<usize>,
    /// The reorder-buffer entries, by index.
    pub entries: Map<usize, ReorderBufferEntry>,
    /// The operations in the stations.
    pub station: Map<usize, RSEntry>,
    /// The entries of the address unit.
    pub address_unit: Map<usize, RSEntry>,
    /// The loads in the load buffer.
    pub loads: Map<usize, LoadBufferEntry>,
    /// The state of the branch predictor for every address.
    pub predictor: Map<u32, (bool, bool)>,
    /// The number of entries that the reorder buffer can hold.
    pub capacity: nat,
    /// The number of cycles that have run.
    pub clock: nat,
    /// The address of the `ecall` whose request to the host is not yet
    /// answered.
    pub awaiting: Option<u32>,
}

/// How a cycle ends.
#[derive(Debug)]
pub enum Status {
    /// The process goes on.
    Running,
    /// The process has exited.
    Finished,
    /// The process waits for the host to carry out this request. The cycle
    /// goes on when the answer is there.
    Host(HostCall),
    /// The simulation cannot go on.
    Fault(Fault),
}

/// The mathematical content of a [`Status`].
pub enum Outcome {
    Running,
    Finished,
    Host(HostRequest),
    Fault(Fault),
}

impl View for Status {
    type V = Outcome;

    open spec fn view(&self) -> Outcome {
        match self {
            Status::Running => Outcome::Running,
            Status::Finished => Outcome::Finished,
            Status::Host(call) => Outcome::Host(call@),
            Status::Fault(fault) => Outcome::Fault(*fault),
        }
    }
}

/// What follows the retirement of one instruction.
pub enum Step {
    /// The next completed instruction retires.
    Continue,
    /// No further instruction retires in this cycle.
    EndBatch,
    /// The cycle ends.
    Halt(Outcome),
}

impl View for Pipeline {
    type V = PipelineState;

    open spec fn view(&self) -> PipelineState {
        PipelineState {
            reg: self.reg@,
            memory: self.memory@,
            order: self.rob.order(),
            entries: self.rob.entries(),
            station: self.rs.station(),
            address_unit: self.rs.address_unit(),
            loads: self.rs.loads(),
            predictor: self.branch_predictor@,
            capacity: self.rob.capacity(),
            clock: self.clock as nat,
            awaiting: self.awaiting,
        }
    }
}

/// The instruction word at `pc` in `memory`, if there is one: instructions
/// lie in the data region.
pub open spec fn word_at(memory: MemoryImage, pc: u32) -> Option<u32> {
    if !memory.in_stack(pc) && memory.accessible(pc, 4) {
        Some(le_word(memory.bytes_at(pc, 4)))
    } else {
        None
    }
}

/// The instruction at `pc` in `memory`, if the word there encodes one. A
/// floating-point instruction counts as a NOP.
pub open spec fn instruction_at(memory: MemoryImage, pc: u32) -> Option<Instruction> {
    match word_at(memory, pc) {
        Some(word) => if Instruction::decodable(word) {
            if Instruction::decoded(word).opcode.is_float() {
                Some(Instruction::nop())
            } else {
                Some(Instruction::decoded(word))
            }
        } else {
            None
        },
        None => None,
    }
}

impl PipelineState {
    /// Whether nothing is in flight: reorder buffer and units are empty and
    /// no register is renamed.
    pub open spec fn nothing_in_flight(self) -> bool {
        &&& self.order == Seq::<usize>::empty()
        &&& self.entries == Map::<usize, ReorderBufferEntry>::empty()
        &&& self.station == Map::<usize, RSEntry>::empty()
        &&& self.address_unit == Map::<usize, RSEntry>::empty()
        &&& self.loads == Map::<usize, LoadBufferEntry>::empty()
        &&& forall|r: int| 0 <= r < 32 ==> self.reg.related_rob[r] is None
    }

    /// The state after everything in flight has been dropped.
    pub open spec fn squashed(self) -> PipelineState {
        PipelineState {
            reg: self.reg.unrenamed(),
            order: Seq::empty(),
            entries: Map::empty(),
            station: Map::empty(),
            address_unit: Map::empty(),
            loads: Map::empty(),
            ..self
        }
    }

    /// The state with the program counter set to `pc`.
    pub open spec fn at(self, pc: u32) -> PipelineState {
        PipelineState { reg: self.reg.at(pc), ..self }
    }

    /// Whether `jobs` are the results of the finished loads followed by the
    /// results of the finished operations, each once.
    pub open spec fn finishes(self, jobs: Seq<FinishedCalc>) -> bool {
        exists|n: int|
            0 <= n <= jobs.len() && drains_loads(self.loads, jobs.subrange(0, n))
                && drains_station(self.station, jobs.subrange(n, jobs.len() as int))
    }

    /// The state after the finished loads and operations have left their
    /// units.
    pub open spec fn drained(self) -> PipelineState {
        PipelineState {
            loads: unfinished_loads(self.loads),
            station: unfinished_operations(self.station),
            ..self
        }
    }

    /// The state after the result `job` has been broadcast to the stations,
    /// the address unit and the reorder buffer.
    pub open spec fn broadcast(self, job: FinishedCalc) -> PipelineState {
        PipelineState {
            station: forwarded_entries(self.station, job.rob_idx, job.reg_value),
            address_unit: forwarded_entries(self.address_unit, job.rob_idx, job.reg_value),
            entries: propagated(self.entries, job),
            ..self
        }
    }

    /// The state after the results `jobs` have been broadcast one after the
    /// other.
    pub open spec fn broadcast_all(self, jobs: Seq<FinishedCalc>) -> PipelineState
        decreases jobs.len(),
    {
        if jobs.len() == 0 {
            self
        } else {
            self.broadcast_all(jobs.drop_last()).broadcast(jobs.last())
        }
    }

    /// Whether the address unit may report `npc` for this state: the target
    /// of a `jalr` whose base register is known, or nothing if there is no
    /// such `jalr`.
    pub open spec fn redirects(self, npc: Option<u32>) -> bool {
        match npc {
            Some(target) => exists|idx: usize|
                #![trigger self.address_unit[idx]]
                self.address_unit.contains_key(idx) && self.address_unit[idx].ready()
                    && self.address_unit[idx].inst.opcode is Jalr && target == effective_address(
                    self.address_unit[idx],
                ),
            None => forall|idx: usize|
                #![trigger self.address_unit[idx]]
                self.address_unit.contains_key(idx) && self.address_unit[idx].ready() ==> !(
                self.address_unit[idx].inst.opcode is Jalr),
        }
    }

    /// The state after every unit has run for one cycle and the program
    /// counter has followed the `jalr` target `npc`, if there is one.
    pub open spec fn executed(self, npc: Option<u32>) -> PipelineState {
        let addressed = rob_after_address(self.entries, self.address_unit);
        PipelineState {
            reg: match npc {
                Some(target) => self.reg.at(target),
                None => self.reg,
            },
            address_unit: unit_after_execute(self.address_unit),
            loads: loads_after_execute(self.loads, self.order, addressed, self.memory),
            station: station_after_execute(self.station),
            entries: store_ticked(
                self.order,
                rob_after_loads(self.loads, self.order, addressed, self.memory),
            ),
            ..self
        }
    }

    /// The address at which the program goes on after the branch `entry`.
    pub open spec fn branch_target(entry: ReorderBufferEntry) -> u32 {
        if entry.reg_value == Some(1u32) {
            vstd::wrapping::u32_specs::wrapping_add(
                entry.pc,
                match entry.inst.fields.imm {
                    Some(imm) => imm,
                    None => 0,
                },
            )
        } else {
            vstd::wrapping::u32_specs::wrapping_add(entry.pc, consts::WORD_SIZE as u32)
        }
    }

    /// The predictor after `entry` has retired: a branch with a known outcome
    /// records it.
    pub open spec fn trained(self, entry: ReorderBufferEntry) -> Map<u32, (bool, bool)> {
        if entry.inst.opcode is Branch && entry.reg_value is Some {
            self.predictor.insert(
                entry.pc,
                next_state(self.predictor[entry.pc], entry.reg_value->0 != 0),
            )
        } else {
            self.predictor
        }
    }

    /// The state after `entry`, which has just left the reorder buffer,
    /// where it had the index `index`, has retired, and what follows.
    ///
    /// A fault of the entry squashes everything in flight and ends the
    /// cycle. Otherwise the entry stores to memory and writes its register.
    /// A branch trains the predictor; if it was predicted wrongly,
    /// everything in flight is squashed, the program counter goes to the
    /// right side of the branch, and nothing more retires in this cycle. An
    /// `ecall` starts its system call: a call that concerns the process
    /// alone takes effect at once and ends the cycle if it is an exit, a call
    /// to the host ends the cycle with the request, and a call that cannot
    /// be made is a fault.
    pub open spec fn retired(self, index: usize, entry: ReorderBufferEntry) -> (
        PipelineState,
        Step,
    ) {
        match entry.retire_fault(self.memory) {
            Some(exception) => (
                self.squashed().at(entry.pc),
                Step::Halt(Outcome::Fault(Fault::Retire { pc: entry.pc, exception })),
            ),
            None => {
                let applied = PipelineState {
                    memory: if entry.writes_memory() {
                        self.memory.stored(store_address(entry), store_data(entry))
                    } else {
                        self.memory
                    },
                    reg: entry.retired_registers(self.reg, index),
                    predictor: self.trained(entry),
                    ..self
                };
                match entry.retirement() {
                    Retirement::Done => (applied, Step::Continue),
                    Retirement::Mispredicted => (
                        if entry.reg_value is Some {
                            applied.squashed().at(PipelineState::branch_target(entry))
                        } else {
                            applied.squashed()
                        },
                        Step::EndBatch,
                    ),
                    Retirement::SystemCall => match plan(applied.memory, applied.reg) {
                        Plan::Local(memory, reg) => (
                            PipelineState { memory, reg, ..applied },
                            if exits(applied.reg) {
                                Step::Halt(Outcome::Finished)
                            } else {
                                Step::Continue
                            },
                        ),
                        Plan::Host(request) => (
                            PipelineState { awaiting: Some(entry.pc), ..applied },
                            Step::Halt(Outcome::Host(request)),
                        ),
                        Plan::Refused(exception) => (
                            applied.squashed().at(entry.pc),
                            Step::Halt(Outcome::Fault(Fault::Retire { pc: entry.pc, exception })),
                        ),
                    },
                }
            },
        }
    }

    /// The state without the oldest entry of the reorder buffer.
    pub open spec fn popped(self) -> PipelineState {
        PipelineState {
            order: self.order.drop_first(),
            entries: self.entries.remove(self.order[0]),
            ..self
        }
    }

    /// Whether the oldest entry of the reorder buffer can retire.
    pub open spec fn head_completed(self) -> bool {
        self.order.len() > 0 && self.entries.contains_key(self.order[0])
            && self.entries[self.order[0]].completed()
    }

    /// The commit phase: the state after it, the entries that have retired
    /// with their indices, oldest first, and how the phase ended.
    ///
    /// The entries retire in the order of the reorder buffer, from the
    /// oldest on, as long as the oldest is completed and no retirement ends
    /// the batch.
    pub open spec fn committed(self) -> (PipelineState, Seq<(usize, ReorderBufferEntry)>, Outcome)
        decreases self.order.len(),
    {
        if !self.head_completed() {
            (self, Seq::empty(), Outcome::Running)
        } else {
            let index = self.order[0];
            let entry = self.entries[index];
            let (next, step) = self.popped().retired(index, entry);
            match step {
                Step::Continue => {
                    let rest = PipelineState {
                        order: self.order.drop_first(),
                        ..next
                    }.committed();
                    (rest.0, seq![(index, entry)] + rest.1, rest.2)
                },
                Step::EndBatch => (next, seq![(index, entry)], Outcome::Running),
                Step::Halt(outcome) => (next, seq![(index, entry)], outcome),
            }
        }
    }

    /// Whether the phases that follow commit may lead from this state to
    /// `next` with the fault `fault`: the finished results are broadcast,
    /// the units run for a cycle, and new instructions are issued.
    pub open spec fn proceeds(self, next: PipelineState, fault: Option<Fault>) -> bool {
        exists|jobs: Seq<FinishedCalc>, npc: Option<u32>, issued: Seq<usize>|
            #![trigger self.drained().broadcast_all(jobs).executed(npc).after_issue(issued)]
            {
                let written = self.drained().broadcast_all(jobs);
                let executed = written.executed(npc);
                &&& self.finishes(jobs)
                &&& written.redirects(npc)
                &&& executed.issues(issued)
                &&& next == executed.after_issue(issued)
                &&& fault == executed.issue_fault()
            }
    }

    /// The outcome of a cycle in which the issue phase reported `fault`.
    pub open spec fn outcome_of(fault: Option<Fault>) -> Outcome {
        match fault {
            Some(fault) => Outcome::Fault(fault),
            None => Outcome::Running,
        }
    }

    /// Whether one cycle may lead from this state to `next`, with the
    /// entries `retired` retiring in it, and end with `outcome`: the clock
    /// ticks, the commit phase runs, and if it does not end the cycle, the
    /// other phases follow.
    pub open spec fn cycle(
        self,
        next: PipelineState,
        retired: Seq<(usize, ReorderBufferEntry)>,
        outcome: Outcome,
    ) -> bool {
        let started = PipelineState { clock: self.clock + 1, ..self };
        let (committed, entries, ended) = started.committed();
        &&& retired == entries
        &&& match ended {
            Outcome::Running => exists|fault: Option<Fault>|
                #![trigger PipelineState::outcome_of(fault)]
                committed.proceeds(next, fault) && outcome == PipelineState::outcome_of(fault),
            _ => next == committed && outcome == ended,
        }
    }

    /// Whether the cycle that waits for the host may lead from this state
    /// to `next` and end with `outcome`, once the host has answered
    /// `request` with `answer`: the answer is applied and the phases that
    /// follow commit run, or the answer cannot be applied, and the `ecall`
    /// faults.
    pub open spec fn resumed(
        self,
        request: HostRequest,
        answer: HostAnswer,
        next: PipelineState,
        outcome: Outcome,
    ) -> bool {
        match answered(self.memory, self.reg, request, answer) {
            Ok((memory, reg)) => exists|fault: Option<Fault>|
                #![trigger PipelineState::outcome_of(fault)]
                PipelineState { memory, reg, awaiting: None, ..self }.proceeds(next, fault)
                    && outcome == PipelineState::outcome_of(fault),
            Err(exception) => next == PipelineState { awaiting: None, ..self }.squashed().at(
                self.awaiting->0,
            ) && outcome == Outcome::Fault(Fault::Retire { pc: self.awaiting->0, exception }),
        }
    }

    /// Whether no instruction may be issued because the youngest instruction
    /// in flight is an `ecall`, or a `jalr` whose target is not yet known.
    pub open spec fn stalled(self) -> bool {
        self.order.len() > 0 && self.entries.contains_key(self.order.last()) && {
            let youngest = self.entries[self.order.last()];
            youngest.inst.function is Ecall || (youngest.inst.function is Jalr
                && !youngest.completed())
        }
    }

    /// The instruction word at the program counter, if there is one.
    pub open spec fn fetched(self) -> Option<u32> {
        word_at(self.memory, self.reg.pc)
    }

    /// The instruction that is issued next, if the word at the program
    /// counter encodes one. A floating-point instruction is issued as a NOP.
    pub open spec fn next_instruction(self) -> Option<Instruction> {
        instruction_at(self.memory, self.reg.pc)
    }

    /// Whether an instruction can be issued: the reorder buffer has room and
    /// there is an instruction at the program counter.
    pub open spec fn can_issue(self) -> bool {
        self.order.len() < self.capacity && self.next_instruction() is Some
    }

    /// The address from which the pipeline fetches after it has issued
    /// `inst` at the program counter: the target of a `jal`, the predicted
    /// side of a branch, the `jalr` itself until its target is known, and
    /// the following word otherwise.
    pub open spec fn next_pc(self, inst: Instruction) -> u32 {
        let pc = self.reg.pc;
        let imm = match inst.fields.imm {
            Some(imm) => imm,
            None => 0,
        };
        let target = vstd::wrapping::u32_specs::wrapping_add(pc, imm);
        let following = vstd::wrapping::u32_specs::wrapping_add(pc, consts::WORD_SIZE as u32);
        match inst.opcode {
            Opcode::Jal => target,
            Opcode::Jalr => pc,
            Opcode::Branch => if self.predictor[pc].0 {
                target
            } else {
                following
            },
            _ => following,
        }
    }

    /// Whether no further instruction is issued in the cycle in which `inst`
    /// was.
    pub open spec fn ends_issue(inst: Instruction) -> bool {
        inst.opcode is Jal || inst.opcode is Jalr || (inst.opcode is System && inst.function
            is Ecall)
    }

    /// The state after the next instruction has been issued under the
    /// reorder-buffer index `index`: the instruction has an entry at the end
    /// of the reorder buffer and is in the units that execute it, its
    /// destination register is renamed to the entry, and the program counter
    /// has moved on.
    pub open spec fn issued(self, index: usize) -> PipelineState {
        let inst = self.next_instruction()->0;
        let entry = issued_entry(
            index,
            self.reg.pc,
            inst,
            self.reg,
            self.entries,
            self.predictor[self.reg.pc].0,
        );
        let entries = self.entries.insert(index, entry);
        PipelineState {
            reg: self.reg.at(self.next_pc(inst)).renamed(
                match inst.fields.rd {
                    Some(rd) => rd as int,
                    None => 0,
                },
                index,
            ),
            order: self.order.push(index),
            entries,
            address_unit: if uses_address_unit(inst) {
                self.address_unit.insert(index, address_entry(index, inst, self.reg, entries))
            } else {
                self.address_unit
            },
            loads: if uses_load_buffer(inst) {
                self.loads.insert(
                    index,
                    LoadBufferEntry {
                        rob_index: index,
                        status: LoadBufferStatus::Wait,
                        value: Ok(0),
                    },
                )
            } else {
                self.loads
            },
            station: if uses_station(inst) {
                self.station.insert(index, station_entry(index, inst, self.reg, entries))
            } else {
                self.station
            },
            ..self
        }
    }

    /// Whether the issue phase may give the instructions that it issues the
    /// indices `issued`: at most two instructions are issued, each under an
    /// index that is not in flight, and the phase goes on to the second
    /// exactly when the first does not end it and a second can be issued.
    pub open spec fn issues(self, issued: Seq<usize>) -> bool {
        if self.stalled() || !self.can_issue() {
            issued.len() == 0
        } else {
            &&& issued.len() >= 1
            &&& !self.entries.contains_key(issued[0])
            &&& if PipelineState::ends_issue(self.next_instruction()->0) || !self.issued(
                issued[0],
            ).can_issue() {
                issued.len() == 1
            } else {
                issued.len() == 2 && !self.issued(issued[0]).entries.contains_key(issued[1])
            }
        }
    }

    /// The state after the instructions of one issue phase have been issued
    /// under the indices `issued`.
    pub open spec fn after_issue(self, issued: Seq<usize>) -> PipelineState {
        if issued.len() == 0 {
            self
        } else if issued.len() == 1 {
            self.issued(issued[0])
        } else {
            self.issued(issued[0]).issued(issued[1])
        }
    }

    /// The fault that the issue phase reports: the pipeline is not stalled,
    /// nothing is in flight, and no instruction can be had at the program
    /// counter.
    pub open spec fn issue_fault(self) -> Option<Fault> {
        if self.stalled() || self.order.len() > 0 || self.order.len() >= self.capacity {
            None
        } else {
            match self.fetched() {
                None => Some(Fault::Fetch { pc: self.reg.pc }),
                Some(word) => if Instruction::decodable(word) {
                    None
                } else {
                    Some(Fault::IllegalInstruction { pc: self.reg.pc, word })
                },
            }
        }
    }
}

impl Pipeline {
    /// Register file, reorder buffer and units are well formed each.
    pub open spec fn structured(&self) -> bool {
        &&& self.reg.wf()
        &&& self.rob.wf()
        &&& self.rs.wf()
    }

    /// The invariant of the pipeline: its parts are well formed, they are
    /// coherent with each other, every operand is a value or waits for a
    /// result that is still to come, every value is what its instruction
    /// reads at its place in program order, and the instructions in flight
    /// were fetched one after the other along the predicted path.
    pub open spec fn wf(&self) -> bool {
        &&& self.structured()
        &&& self@.coherent()
        &&& self@.operands_outstanding()
        &&& self@.dataflow_sound()
        &&& self@.in_program_order()
    }

    /// The pipeline of a process that is about to start at `entry_point`
    /// with the image `memory`.
    pub fn new(entry_point: u32, memory: ProcessMemory) -> (pipeline: Pipeline)
        ensures
            pipeline.wf(),
            pipeline@.reg == RegisterFile::initial(entry_point, memory.stack_pointer_init),
            pipeline@.memory == memory@,
            pipeline@.nothing_in_flight(),
            pipeline@.predictor == self::branch_predictor::unseen(),
            pipeline@.clock == 0,
            pipeline@.awaiting is None,
            pipeline@.capacity == crate::consts::ROB_CAPACITY,
    {
        let pipeline = Pipeline {
            reg: RegisterFile::new(entry_point, memory.stack_pointer_init),
            memory,
            rob: ReorderBuffer::new(crate::consts::ROB_CAPACITY),
            rs: ReservationStation::new(),
            branch_predictor: BranchPredictor::new(),
            clock: 0,
            awaiting: None,
        };
        proof {
            assert(pipeline@ == pipeline@.squashed()) by {
                assert(pipeline@.reg.related_rob =~= pipeline@.reg.unrenamed().related_rob);
            }
            self::coherence::lemma_squash_is_complete(pipeline@, entry_point);
            self::forwarding::lemma_squash_outstanding(pipeline@, entry_point);
            self::dataflow::lemma_squash_dataflow(pipeline@, entry_point);
            self::program_order::lemma_squash_program_order(pipeline@, entry_point);
        }
        pipeline
    }

    /// Drops everything in flight: empties the reorder buffer and all units
    /// and ends every renaming.
    pub fn clear_all_buffers(&mut self)
        requires
            old(self).wf(),
        ensures
            final(self).wf(),
            final(self)@ == old(self)@.squashed(),
            final(self)@.nothing_in_flight(),
    {
        self.squash();
        proof {
            self::coherence::lemma_squash_is_complete(old(self)@, 0);
            self::forwarding::lemma_squash_outstanding(old(self)@, 0);
            self::dataflow::lemma_squash_dataflow(old(self)@, 0);
            self::program_order::lemma_squash_program_order(old(self)@, 0);
        }
    }

    /// Empties the reorder buffer and all units and ends every renaming.
    fn squash(&mut self)
        requires
            old(self).reg.wf(),
        ensures
            final(self).structured(),
            final(self)@ == old(self)@.squashed(),
    {
        self.rs.clear();
        self.rob.clear();
        self.reg.clear_renames();
    }

    /// Takes the finished results out of the units and broadcasts each to
    /// the stations, the address unit, the load buffer and the reorder
    /// buffer. Returns the results in the order in which they were
    /// broadcast.
    pub fn write_result(&mut self) -> (jobs: Vec<FinishedCalc>)
        requires
            old(self).wf(),
        ensures
            final(self).wf(),
            old(self)@.finishes(jobs@),
            final(self)@ == old(self)@.drained().broadcast_all(jobs@),
    {
        let jobs: Vec<FinishedCalc> = self.rs.completed_jobs();
        let ghost drained = self@;
        let mut i: usize = 0;
        while i < jobs.len()
            invariant
                i <= jobs@.len(),
                self.structured(),
                self@ == drained.broadcast_all(jobs@.take(i as int)),
            decreases jobs@.len() - i,
        {
            let job: FinishedCalc = jobs[i];
            self.rs.propagate(&job);
            self.rob.propagate(&job);
            proof {
                assert(jobs@.take(i + 1).drop_last() =~= jobs@.take(i as int));
                assert(jobs@.take(i + 1).last() == job);
            }
            i += 1;
        }
        proof {
            assert(jobs@.take(jobs@.len() as int) =~= jobs@);
            self::coherence::lemma_write_result_coherent(old(self)@, jobs@);
            self::forwarding::lemma_write_result_outstanding(old(self)@, jobs@);
            self::dataflow::lemma_write_result_dataflow(old(self)@, jobs@);
            self::program_order::lemma_write_result_program_order(old(self)@, jobs@);
        }
        jobs
    }

    /// Runs every unit for one cycle and lets the program counter follow a
    /// `jalr` whose target has been computed. Returns that target.
    pub fn execute(&mut self) -> (npc: Option<u32>)
        requires
            old(self).wf(),
        ensures
            final(self).wf(),
            old(self)@.redirects(npc),
            final(self)@ == old(self)@.executed(npc),
    {
        let npc: Option<u32> = self.rs.execute(&mut self.rob, &self.memory);
        if let Some(target) = npc {
            self.reg.set_pc(target);
        }
        proof {
            self::coherence::lemma_execute_coherent(old(self)@, npc);
            self::forwarding::lemma_execute_outstanding(old(self)@, npc);
            self::dataflow::lemma_execute_dataflow(old(self)@, npc);
            self::program_order::lemma_execute_program_order(old(self)@, npc);
        }
        npc
    }

    /// Whether the issue phase must wait for the youngest instruction in
    /// flight.
    fn is_stalled(&self) -> (stalled: bool)
        requires
            self.structured(),
        ensures
            stalled == self@.stalled(),
    {
        let len: usize = self.rob.len();
        if len == 0 {
            return false;
        }
        let youngest: usize = match self.rob.nth_index(len - 1) {
            Some(youngest) => youngest,
            None => {
                return false;
            },
        };
        proof {
            assert(self.rob.order().last() == youngest);
        }
        match self.rob.get(youngest) {
            Some(entry) => match entry.inst.function {
                Function::Ecall => true,
                Function::Jalr => !entry.is_completed(),
                _ => false,
            },
            None => false,
        }
    }

    /// Fetches and decodes the instruction at the program counter.
    fn fetch(&self) -> (r: Result<Instruction, Fault>)
        ensures
            r is Ok <==> self@.next_instruction() is Some,
            r matches Ok(inst) ==> Some(inst) == self@.next_instruction() && inst.consistent(),
            r matches Err(fault) ==> fault == (match self@.fetched() {
                None => Fault::Fetch { pc: self@.reg.pc },
                Some(word) => Fault::IllegalInstruction { pc: self@.reg.pc, word },
            }),
    {
        let pc: u32 = self.reg.pc.read();
        let raw_inst: u32 = match self.memory.read_inst(pc) {
            Ok(raw_inst) => raw_inst,
            Err(_) => {
                return Err(Fault::Fetch { pc });
            },
        };
        let inst: Instruction = match Instruction::decode(raw_inst) {
            Some(inst) => inst,
            None => {
                return Err(Fault::IllegalInstruction { pc, word: raw_inst });
            },
        };
        if inst.opcode.is_fp() {
            Ok(Instruction::default())
        } else {
            Ok(inst)
        }
    }

    /// Issues `inst`, which was fetched at the program counter. Returns the
    /// index of its reorder-buffer entry.
    fn issue_one(&mut self, inst: Instruction) -> (index: usize)
        requires
            old(self).structured(),
            old(self)@.order.len() < old(self)@.capacity,
            old(self)@.next_instruction() == Some(inst),
            inst.consistent(),
        ensures
            final(self).structured(),
            !old(self)@.entries.contains_key(index),
            final(self)@ == old(self)@.issued(index),
    {
        let pc: u32 = self.reg.pc.read();
        let imm: u32 = inst.fields.imm.unwrap_or(0);
        let following: u32 = pc.wrapping_add(consts::WORD_SIZE as u32);
        let npc: u32 = match inst.opcode {
            Opcode::Jal => pc.wrapping_add(imm),
            Opcode::Jalr => pc,
            Opcode::Branch => if self.branch_predictor.predict(pc) {
                pc.wrapping_add(imm)
            } else {
                following
            },
            _ => following,
        };
        let inst_rd: u8 = inst.fields.rd.unwrap_or(0);
        let rob_idx: usize = self.rob.issue(pc, inst, &self.reg, &mut self.branch_predictor);
        self.rs.issue(rob_idx, &self.rob, &self.reg);
        self.reg.set_pc(npc);
        self.reg.set_reg_rob_index(inst_rd, rob_idx);
        rob_idx
    }

    /// Fetches up to two instructions at the program counter and issues
    /// them: each gets an entry in the reorder buffer, goes to the units that
    /// execute it, and has its destination register renamed.
    ///
    /// Nothing is issued while the youngest instruction in flight is an
    /// `ecall` or a `jalr` whose target is unknown, or while the reorder
    /// buffer is full. A `jal`, a `jalr` and an `ecall` end the phase. Where
    /// no instruction can be had at the program counter the phase ends too;
    /// that is a fault only when nothing is in flight, since otherwise an
    /// older branch may still lead the program elsewhere.
    ///
    /// Returns the indices of the entries that were issued, and the fault.
    pub fn issue(&mut self) -> (r: (Vec<usize>, Option<Fault>))
        requires
            old(self).wf(),
            old(self).awaiting is None,
        ensures
            final(self).wf(),
            old(self)@.issues(r.0@),
            final(self)@ == old(self)@.after_issue(r.0@),
            r.1 == old(self)@.issue_fault(),
    {
        let r: (Vec<usize>, Option<Fault>) = self.issue_up_to_two();
        proof {
            self::coherence::lemma_after_issue_coherent(old(self)@, r.0@);
            self::forwarding::lemma_after_issue_outstanding(old(self)@, r.0@);
            self::dataflow::lemma_after_issue_dataflow(old(self)@, r.0@);
            self::program_order::lemma_after_issue_program_order(old(self)@, r.0@);
        }
        r
    }

    /// Issues up to two instructions.
    fn issue_up_to_two(&mut self) -> (r: (Vec<usize>, Option<Fault>))
        requires
            old(self).structured(),
        ensures
            final(self).structured(),
            old(self)@.issues(r.0@),
            final(self)@ == old(self)@.after_issue(r.0@),
            r.1 == old(self)@.issue_fault(),
    {
        let mut issued: Vec<usize> = Vec::new();
        if self.is_stalled() {
            return (issued, None);
        }
        if self.rob.is_full() {
            return (issued, None);
        }
        let first: Instruction = match self.fetch() {
            Ok(first) => first,
            Err(fault) => {
                let in_flight: usize = self.rob.len();
                return (
                    issued,
                    if in_flight == 0 {
                        Some(fault)
                    } else {
                        None
                    },
                );
            },
        };
        let has_to_stop: bool = match first.opcode {
            Opcode::Jal | Opcode::Jalr => true,
            Opcode::System => first.function == Function::Ecall,
            _ => false,
        };
        let index: usize = self.issue_one(first);
        issued.push(index);
        if has_to_stop || self.rob.is_full() {
            return (issued, None);
        }
        let second: Instruction = match self.fetch() {
            Ok(second) => second,
            Err(_) => {
                return (issued, None);
            },
        };
        let index: usize = self.issue_one(second);
        issued.push(index);
        (issued, None)
    }

    /// Retires the instruction of `entry`, which has just left the reorder
    /// buffer, where it had the index `index`.
    fn retire_one(&mut self, index: usize, entry: &ReorderBufferEntry) -> (step: Result<
        bool,
        Status,
    >)
        requires
            old(self).structured(),
            entry.well_formed(),
        ensures
            final(self).structured(),
            final(self)@ == old(self)@.retired(index, *entry).0,
            match old(self)@.retired(index, *entry).1 {
                Step::Continue => step == Ok::<bool, Status>(true),
                Step::EndBatch => step == Ok::<bool, Status>(false),
                Step::Halt(outcome) => step matches Err(status) && status@ == outcome,
            },
    {
        let retirement: Retirement = match entry.retire(index, &mut self.memory, &mut self.reg) {
            Ok(retirement) => retirement,
            Err(exception) => {
                self.squash();
                self.reg.set_pc(entry.pc);
                return Err(Status::Fault(Fault::Retire { pc: entry.pc, exception }));
            },
        };
        if entry.inst.opcode == Opcode::Branch {
            if let Some(is_taken) = entry.reg_value {
                self.branch_predictor.update(entry.pc, is_taken);
            }
        }
        match retirement {
            Retirement::Done => Ok(true),
            Retirement::Mispredicted => {
                self.squash();
                if let Some(is_taken) = entry.reg_value {
                    if is_taken == 1 {
                        self.reg.set_pc(entry.pc.wrapping_add(entry.inst.fields.imm.unwrap_or(0)));
                    } else {
                        self.reg.set_pc(entry.pc.wrapping_add(consts::WORD_SIZE as u32));
                    }
                }
                Ok(false)
            },
            Retirement::SystemCall => {
                let is_exit: bool = match self.reg.gpr[consts::SYSCALL_NUM_REG].read() {
                    93 | 94 => true,
                    _ => false,
                };
                match Pipeline::system_call(&mut self.memory, &mut self.reg) {
                    Ok(None) => if is_exit {
                        Err(Status::Finished)
                    } else {
                        Ok(true)
                    },
                    Ok(Some(call)) => {
                        self.awaiting = Some(entry.pc);
                        Err(Status::Host(call))
                    },
                    Err(exception) => {
                        self.squash();
                        self.reg.set_pc(entry.pc);
                        Err(Status::Fault(Fault::Retire { pc: entry.pc, exception }))
                    },
                }
            },
        }
    }

    /// Retires the completed instructions at the head of the reorder buffer,
    /// oldest first: each takes its effect on registers and memory, a branch
    /// trains the predictor, an `ecall` starts its system call. A branch that
    /// was predicted wrongly squashes everything in flight and redirects the
    /// program counter.
    ///
    /// Returns the entries that have retired, with the indices that they
    /// had, and how the phase ended.
    pub fn commit(&mut self) -> (r: (Vec<(usize, ReorderBufferEntry)>, Status))
        requires
            old(self).wf(),
        ensures
            final(self).wf(),
            (final(self)@, r.0@, r.1@) == old(self)@.committed(),
    {
        proof {
            self::coherence::lemma_commit_coherent(old(self)@);
            self::forwarding::lemma_commit_outstanding(old(self)@);
            self::dataflow::lemma_commit_dataflow(old(self)@);
            self::program_order::lemma_commit_program_order(old(self)@);
        }
        let mut retired: Vec<(usize, ReorderBufferEntry)> = Vec::new();
        loop
            invariant
                self.structured(),
                old(self)@.committed().0.coherent(),
                old(self)@.committed().0.operands_outstanding(),
                old(self)@.committed().0.dataflow_sound(),
                old(self)@.committed().0.in_program_order(),
                old(self)@.committed() == (
                    self@.committed().0,
                    retired@ + self@.committed().1,
                    self@.committed().2,
                ),
            decreases self.rob.order().len(),
        {
            let head: usize = match self.rob.nth_index(0) {
                Some(head) => head,
                None => {
                    proof {
                        assert(retired@ + Seq::<(usize, ReorderBufferEntry)>::empty() =~= retired@);
                    }
                    return (retired, Status::Running);
                },
            };
            proof {
                assert(self.rob.order().contains(head));
                assert(self.rob.order().to_set().contains(head));
            }
            let completed: bool = match self.rob.get(head) {
                Some(entry) => entry.is_completed(),
                None => false,
            };
            if !completed {
                proof {
                    assert(retired@ + Seq::<(usize, ReorderBufferEntry)>::empty() =~= retired@);
                }
                return (retired, Status::Running);
            }
            let ghost before = self@;
            let entry: ReorderBufferEntry = match self.rob.pop_front() {
                Some(entry) => entry,
                None => {
                    return (retired, Status::Running);
                },
            };
            proof {
                assert(self@ == before.popped()) by {
                    assert(self@.order =~= before.order.drop_first());
                }
                assert(before.entries[head].well_formed());
            }
            let step: Result<bool, Status> = self.retire_one(head, &entry);
            let ghost previously = retired@;
            retired.push((head, entry));
            proof {
                assert(retired@ =~= previously + seq![(head, entry)]);
            }
            match step {
                Ok(true) => {
                    proof {
                        let next = before.popped().retired(head, entry).0;
                        assert(PipelineState { order: before.order.drop_first(), ..next } == next);
                        assert(previously + (seq![(head, entry)] + self@.committed().1)
                            =~= retired@ + self@.committed().1);
                    }
                },
                Ok(false) => {
                    return (retired, Status::Running);
                },
                Err(status) => {
                    return (retired, status);
                },
            }
        }
    }

    /// Runs the phases of a cycle that follow commit.
    fn proceed(&mut self) -> (fault: Option<Fault>)
        requires
            old(self).wf(),
            old(self).awaiting is None,
        ensures
            final(self).wf(),
            old(self)@.proceeds(final(self)@, fault),
    {
        let jobs: Vec<FinishedCalc> = self.write_result();
        proof {
            self::dataflow::lemma_broadcast_all_keeps_awaiting(old(self)@.drained(), jobs@);
        }
        let npc: Option<u32> = self.execute();
        let (issued, fault): (Vec<usize>, Option<Fault>) = self.issue();
        proof {
            assert(self@ == old(self)@.drained().broadcast_all(jobs@).executed(npc).after_issue(
                issued@,
            ));
        }
        fault
    }

    /// Runs one cycle: commit, write-result, execute, issue.
    ///
    /// Where commit ends the cycle, the later phases do not run: the process
    /// has exited, or the simulation cannot go on, or the process waits for
    /// the host. In the last case the pipeline is `awaiting` the answer, and
    /// the cycle goes on with [`Pipeline::resume_clock`]; no other cycle may
    /// run before.
    ///
    /// Returns the entries that have retired in this cycle, and how the cycle
    /// ended.
    pub fn run_clock(&mut self) -> (r: (Vec<(usize, ReorderBufferEntry)>, Status))
        requires
            old(self).wf(),
            old(self).awaiting is None,
            old(self).clock < usize::MAX,
        ensures
            final(self).wf(),
            old(self)@.cycle(final(self)@, r.0@, r.1@),
    {
        self.clock += 1;
        let ghost started = self@;
        proof {
            self::dataflow::lemma_tick_dataflow(old(self)@, started.clock);
            self::program_order::lemma_unchanged_program_order(old(self)@, started);
        }
        let (retired, status): (Vec<(usize, ReorderBufferEntry)>, Status) = self.commit();
        proof {
            self::dataflow::lemma_commit_keeps_awaiting(started);
        }
        match status {
            Status::Running => {
                let fault: Option<Fault> = self.proceed();
                let status: Status = match fault {
                    Some(fault) => Status::Fault(fault),
                    None => Status::Running,
                };
                proof {
                    assert(status@ == PipelineState::outcome_of(fault));
                }
                (retired, status)
            },
            status => (retired, status),
        }
    }

    /// Goes on with the cycle that ended with the request `call` to the
    /// host, now that the host has answered with `reply`: the answer is
    /// applied to the process, and the phases that follow commit run. An
    /// answer that cannot be applied is a fault of the `ecall`.
    pub fn resume_clock(&mut self, call: &HostCall, reply: &HostReply) -> (status: Status)
        requires
            old(self).wf(),
            old(self).awaiting is Some,
        ensures
            final(self).wf(),
            old(self)@.resumed(call@, reply@, final(self)@, status@),
    {
        let pc: u32 = match self.awaiting {
            Some(pc) => pc,
            None => 0,
        };
        self.awaiting = None;
        match Pipeline::finish_system_call(&mut self.memory, &mut self.reg, call, reply) {
            Ok(()) => {
                proof {
                    self::coherence::lemma_answer_coherent(old(self)@, call@, reply@);
                    self::forwarding::lemma_answer_outstanding(old(self)@, call@, reply@);
                    self::dataflow::lemma_answer_dataflow(old(self)@, call@, reply@);
                    self::program_order::lemma_unchanged_program_order(old(self)@, self@);
                }
                let fault: Option<Fault> = self.proceed();
                let status: Status = match fault {
                    Some(fault) => Status::Fault(fault),
                    None => Status::Running,
                };
                proof {
                    assert(status@ == PipelineState::outcome_of(fault));
                }
                status
            },
            Err(exception) => {
                self.squash();
                self.reg.set_pc(pc);
                proof {
                    let cleared = PipelineState { awaiting: None, ..old(self)@ };
                    self::coherence::lemma_squash_is_complete(cleared, pc);
                    self::forwarding::lemma_squash_outstanding(cleared, pc);
                    self::dataflow::lemma_squash_dataflow(cleared, pc);
                    self::program_order::lemma_squash_program_order(cleared, pc);
                }
                Status::Fault(Fault::Retire { pc, exception })
            },
        }
    }

    /// Whether one of the entries `retired_entries`, which have just
    /// retired, is an `ecall` that ends the process.
    pub fn is_program_finished(&self, retired_entries: &[(usize, ReorderBufferEntry)]) -> (finished:
        bool)
        ensures
            finished == (exits(self@.reg) && exists|i: int|
                0 <= i < retired_entries@.len() && (#[trigger] retired_entries@[i]).1.inst.function
                    is Ecall),
    {
        let is_exit: bool = match self.reg.gpr[consts::SYSCALL_NUM_REG].read() {
            93 | 94 => true,
            _ => false,
        };
        let mut i: usize = 0;
        while i < retired_entries.len()
            invariant
                i <= retired_entries@.len(),
                is_exit == exits(self@.reg),
                forall|j: int|
                    0 <= j < i ==> !((#[trigger] retired_entries@[j]).1.inst.function is Ecall),
            decreases retired_entries@.len() - i,
        {
            if retired_entries[i].1.inst.function == Function::Ecall {
                return is_exit;
            }
            i += 1;
        }
        false
    }
}

} // verus!
