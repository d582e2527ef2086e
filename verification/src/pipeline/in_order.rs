//! Execution in program order.
//!
//! What a program computes is defined by executing its instructions one
//! after the other on registers and memory. This module defines that
//! execution as a machine of its own: a step fetches the instruction at the
//! program counter and executes it, and a run is a number of steps. It shows
//! that the pipeline computes nothing else: when an instruction retires,
//! registers and memory change as its execution in program order changes
//! them, and the instruction that retires next is the one that execution in
//! program order reaches next.

use vstd::prelude::*;
use crate::consts;
use crate::instruction::{Instruction, Opcode};
use crate::memory::{le_word, word_bytes, MemoryImage};
use crate::pipeline::dataflow::lemma_oldest_is_architectural;
use crate::pipeline::exception::Exception;
use crate::pipeline::functional_units::memory::{
    atomic_result, load_width, loaded_value, stored_bytes,
};
use crate::pipeline::load_buffer::load_outcome;
use crate::pipeline::operand::Operand;
use crate::pipeline::program_order::lemma_retire_program_order;
use crate::pipeline::reservation_station::{alu_value, uses_load_buffer};
use crate::pipeline::syscall::{answered, exits, plan, HostAnswer, HostRequest, Plan};
use crate::pipeline::{instruction_at, Fault, Outcome, PipelineState, Step};
use crate::register::RegisterState;

verus! {

/// The state of a program between two instructions: the address of the next
/// instruction, the registers, and the memory.
pub struct Machine {
    pub pc: u32,
    pub gpr: Seq<u32>,
    pub memory: MemoryImage,
}

/// What the execution of an instruction comes to.
pub enum Executed {
    /// The program goes on in this state.
    Next(Machine),
    /// The instruction faults.
    Fault(Exception),
    /// The instruction is an `ecall`: the system call that the registers
    /// describe takes place.
    SystemCall,
}

/// The sum of two words, wrapped to 32 bits.
pub open spec fn plus(a: u32, b: u32) -> u32 {
    vstd::wrapping::u32_specs::wrapping_add(a, b)
}

/// The registers `gpr` after `value` has been written to register `rd`;
/// register `x0` is not written.
pub open spec fn put(gpr: Seq<u32>, rd: int, value: u32) -> Seq<u32> {
    if rd == 0 {
        gpr
    } else {
        gpr.update(rd, value)
    }
}

impl Machine {
    /// The machine after the next instruction has written `value` to
    /// register `rd` and the program goes on at `pc`.
    pub open spec fn after(self, rd: int, value: u32, pc: u32) -> Machine {
        Machine { pc, gpr: put(self.gpr, rd, value), ..self }
    }

    /// What the execution of `inst`, which stands at the address `pc` of the
    /// machine, comes to.
    pub open spec fn execute(self, inst: Instruction) -> Executed {
        let imm = match inst.fields.imm {
            Some(imm) => imm,
            None => 0,
        };
        let rd = match inst.fields.rd {
            Some(rd) => rd as int,
            None => 0,
        };
        let first = self.gpr[match inst.fields.rs1 {
            Some(rs1) => rs1 as int,
            None => 0,
        }];
        let second = match inst.fields.rs2 {
            Some(rs2) => self.gpr[rs2 as int],
            None => imm,
        };
        let next = plus(self.pc, consts::WORD_SIZE as u32);
        match inst.opcode {
            Opcode::Lui => Executed::Next(self.after(rd, imm, next)),
            Opcode::AuiPc => Executed::Next(self.after(rd, plus(self.pc, imm), next)),
            Opcode::Jal => Executed::Next(self.after(rd, next, plus(self.pc, imm))),
            Opcode::Jalr => Executed::Next(self.after(rd, next, plus(first, imm))),
            Opcode::Branch => Executed::Next(
                Machine {
                    pc: if alu_value(inst.function, first, second) == 1 {
                        plus(self.pc, imm)
                    } else {
                        next
                    },
                    ..self
                },
            ),
            Opcode::Load => {
                let address = plus(first, imm);
                let width = load_width(inst.function);
                if self.memory.accessible(address, width) {
                    Executed::Next(
                        self.after(
                            rd,
                            loaded_value(inst.function, self.memory.bytes_at(address, width)),
                            next,
                        ),
                    )
                } else {
                    Executed::Fault(Exception::WritingToInvalidMemory(address))
                }
            },
            Opcode::Store => {
                let address = plus(first, imm);
                let bytes = stored_bytes(inst.function, second);
                match self.memory.store_fault(address, bytes.len() as int) {
                    Some(exception) => Executed::Fault(exception),
                    None => Executed::Next(
                        Machine { pc: next, memory: self.memory.stored(address, bytes), ..self },
                    ),
                }
            },
            Opcode::Amo => {
                let address = first;
                if inst.function is Scw {
                    match self.memory.store_fault(address, 4) {
                        Some(exception) => Executed::Fault(exception),
                        None => Executed::Next(
                            Machine {
                                memory: self.memory.stored(address, word_bytes(second)),
                                ..self.after(rd, 0, next)
                            },
                        ),
                    }
                } else if !self.memory.accessible(address, 4) {
                    Executed::Fault(Exception::WritingToInvalidMemory(address))
                } else {
                    let old = le_word(self.memory.bytes_at(address, 4));
                    if inst.function is Lrw {
                        Executed::Next(self.after(rd, old, next))
                    } else {
                        match self.memory.store_fault(address, 4) {
                            Some(exception) => Executed::Fault(exception),
                            None => Executed::Next(
                                Machine {
                                    memory: self.memory.stored(
                                        address,
                                        word_bytes(atomic_result(inst.function, old, second)),
                                    ),
                                    ..self.after(rd, old, next)
                                },
                            ),
                        }
                    }
                }
            },
            _ => if inst.function is Ecall {
                Executed::SystemCall
            } else {
                Executed::Next(self.after(rd, alu_value(inst.function, first, second), next))
            },
        }
    }
}

/// What one step of the machine comes to.
pub enum Stepped {
    /// The instruction has been executed, and the program goes on in this
    /// state.
    Next(Machine),
    /// The instruction is a system call that ends the process, and leaves
    /// this state.
    Exit(Machine),
    /// The instruction is a system call that asks this of the host; the
    /// process waits for the answer in this state.
    Host(HostRequest, Machine),
    /// The instruction faults, and the machine stays as it is.
    Fault(Exception),
    /// Memory holds no instruction at the address of the next instruction.
    NoInstruction,
}

impl Machine {
    /// The registers of the machine as the state of a register file in
    /// which no register is renamed.
    pub open spec fn registers(self) -> RegisterState {
        RegisterState {
            pc: self.pc,
            gpr: self.gpr,
            writable: Seq::new(32, |r: int| r != 0),
            related_rob: Seq::new(32, |r: int| None::<usize>),
        }
    }

    /// The instruction that the machine executes next, if memory holds one
    /// at its address.
    pub open spec fn fetched(self) -> Option<Instruction> {
        instruction_at(self.memory, self.pc)
    }

    /// One step of the machine: the instruction at `pc` is fetched and
    /// executed. A system call that concerns the process alone takes effect
    /// at once; one that cannot be made is a fault.
    pub open spec fn step(self) -> Stepped {
        match self.fetched() {
            None => Stepped::NoInstruction,
            Some(inst) => match self.execute(inst) {
                Executed::Next(machine) => Stepped::Next(machine),
                Executed::Fault(exception) => Stepped::Fault(exception),
                Executed::SystemCall => {
                    let next = plus(self.pc, consts::WORD_SIZE as u32);
                    match plan(self.memory, self.registers()) {
                        Plan::Local(memory, reg) => {
                            let machine = Machine { pc: next, gpr: reg.gpr, memory };
                            if exits(self.registers()) {
                                Stepped::Exit(machine)
                            } else {
                                Stepped::Next(machine)
                            }
                        },
                        Plan::Host(request) => Stepped::Host(request, Machine { pc: next, ..self }),
                        Plan::Refused(exception) => Stepped::Fault(exception),
                    }
                },
            },
        }
    }

    /// The machine after `n` steps, if it takes that many without a fault,
    /// an exit or a call to the host.
    pub open spec fn run(self, n: nat) -> Option<Machine>
        decreases n,
    {
        if n == 0 {
            Some(self)
        } else {
            match self.step() {
                Stepped::Next(machine) => machine.run((n - 1) as nat),
                _ => None,
            }
        }
    }

    /// The machine, which waits for the host, after the host has answered
    /// `request` with `answer`.
    pub open spec fn answered(self, request: HostRequest, answer: HostAnswer) -> Result<
        Machine,
        Exception,
    > {
        match answered(self.memory, self.registers(), request, answer) {
            Ok((memory, reg)) => Ok(Machine { gpr: reg.gpr, memory, ..self }),
            Err(exception) => Err(exception),
        }
    }
}

impl PipelineState {
    /// The state of the program that the pipeline runs: the registers, the
    /// memory, and the address of the instruction that retires next.
    pub open spec fn machine(self) -> Machine {
        Machine { pc: self.retires_next(), gpr: self.reg.gpr, memory: self.memory }
    }

    /// Whether the oldest instruction in flight, if it has read memory, has
    /// read what memory holds now at its address.
    pub open spec fn oldest_load_sound(self) -> bool {
        let entry = self.entries[self.order[0]];
        uses_load_buffer(entry.inst) && entry.reg_value is Some ==> {
            &&& entry.addr is Value
            &&& match load_outcome(entry, self.memory) {
                Ok(value) => {
                    &&& entry.mem_exception is Ok
                    &&& entry.reg_value == Some(value)
                    &&& entry.inst.opcode is Amo && !(entry.inst.function is Lrw)
                        ==> entry.mem_value == Operand::Value(
                        atomic_result(
                            entry.inst.function,
                            value,
                            self.reg.gpr[entry.inst.fields.rs2->0 as int],
                        ),
                    )
                },
                Err(exception) => entry.mem_exception == Err::<(), Exception>(exception),
            }
        }
    }
}

/// When the oldest instruction in flight retires, registers and memory
/// change as the execution of the instruction in program order changes
/// them, and the instruction that retires next is the one that the execution
/// reaches next. An instruction that faults in program order ends the cycle
/// with that fault, and leaves registers and memory as they are.
#[verifier::rlimit(60)]
pub proof fn lemma_retirement_is_execution_in_program_order(s: PipelineState)
    requires
        s.coherent(),
        s.dataflow_sound(),
        s.in_program_order(),
        s.head_completed(),
        s.oldest_load_sound(),
    ensures
        ({
            let entry = s.entries[s.order[0]];
            let (next, step) = s.popped().retired(s.order[0], entry);
            match s.machine().execute(entry.inst) {
                Executed::Next(machine) => (step is Continue || step is EndBatch) && next.machine()
                    == machine,
                Executed::Fault(exception) => step == Step::Halt(
                    Outcome::Fault(Fault::Retire { pc: entry.pc, exception }),
                ) && next.reg.gpr == s.reg.gpr && next.memory == s.memory,
                Executed::SystemCall => entry.retirement() is SystemCall,
            }
        }),
{
    let index = s.order[0];
    let entry = s.entries[index];
    let popped = s.popped();
    let (next, step) = popped.retired(index, entry);
    assert(s.order.contains(index));
    assert(entry.well_formed());
    assert(s.reads_at(0));
    lemma_oldest_is_architectural(s);
    lemma_retire_program_order(s);
    let machine = s.machine();
    assert(machine.pc == entry.pc);
    let rd = entry.rd as int;
    // writing a register is putting a value, since every register but x0 can
    // be written
    assert forall|value: u32| #[trigger] s.reg.written(rd, value).gpr
        == put(s.reg.gpr, rd, value) by {
        if rd != 0 {
            assert(s.reg.writable[rd]);
        }
    }
    assert forall|value: u32|
        (#[trigger] s.reg.written(rd, value)).released(rd, index).gpr == put(
            s.reg.gpr,
            rd,
            value,
        ) by {
        assert(s.reg.written(rd, value).gpr == put(s.reg.gpr, rd, value));
    }
    assert(s.reg.released(rd, index).gpr == s.reg.gpr);
}

} // verus!
