//! 32-bit registers and the register file with its rename pointers.

use vstd::prelude::*;
use crate::pipeline::operand::Operand;
use crate::pipeline::reorder_buffer::{ReorderBuffer, ReorderBufferEntry};

verus! {

/// A write-protectable register.
#[derive(Clone, Copy, Debug)]
pub struct Register {
    /// The current register value.
    value: u32,
    /// If false, writing to the register has no effect.
    is_writable: bool,
}

impl Register {
    /// The value that the register holds.
    pub closed spec fn value(&self) -> u32 {
        self.value
    }

    /// Whether a write changes the register.
    pub closed spec fn writable(&self) -> bool {
        self.is_writable
    }

    /// Constructs a new `Register`.
    pub fn new(value: u32, is_writable: bool) -> (register: Register)
        ensures
            register.value() == value,
            register.writable() == is_writable,
    {
        Register { value, is_writable }
    }

    /// Reads the register's value.
    pub fn read(&self) -> (value: u32)
        ensures
            value == self.value(),
    {
        self.value
    }

    /// Writes `value` to the register if it's writable, otherwise no effect.
    pub fn write(&mut self, value: u32)
        ensures
            final(self).writable() == old(self).writable(),
            final(self).value() == (if old(self).writable() {
                value
            } else {
                old(self).value()
            }),
    {
        if self.is_writable {
            self.value = value;
        }
    }
}

/// A complete RV32I register file.
///
/// Holds 32 general purpose registers, a program counter register, and for
/// each general purpose register the index of the youngest reorder-buffer
/// entry that will write it, if there is one in flight.
#[derive(Debug)]
pub struct RegisterFile {
    pub pc: Register,
    pub gpr: [Register; 32],
    pub related_rob: [Option<usize>; 32],
}

/// The mathematical content of a [`RegisterFile`].
pub struct RegisterState {
    /// The program counter.
    pub pc: u32,
    /// The values of the 32 general purpose registers.
    pub gpr: Seq<u32>,
    /// For each register, whether a write changes it.
    pub writable: Seq<bool>,
    /// For each register, the reorder-buffer entry that it is renamed to.
    pub related_rob: Seq<Option<usize>>,
}

impl RegisterState {
    /// The state after `value` has been written to register `reg`.
    pub open spec fn written(self, reg: int, value: u32) -> RegisterState {
        if self.writable[reg] {
            RegisterState { gpr: self.gpr.update(reg, value), ..self }
        } else {
            self
        }
    }

    /// The state after the renaming of register `reg` to entry `rob_idx` has
    /// ended, if there was one.
    pub open spec fn released(self, reg: int, rob_idx: usize) -> RegisterState {
        if self.related_rob[reg] == Some(rob_idx) {
            RegisterState { related_rob: self.related_rob.update(reg, None), ..self }
        } else {
            self
        }
    }

    /// The state after register `reg` has been renamed to entry `rob_idx`.
    pub open spec fn renamed(self, reg: int, rob_idx: usize) -> RegisterState {
        if reg == 0 {
            self
        } else {
            RegisterState { related_rob: self.related_rob.update(reg, Some(rob_idx)), ..self }
        }
    }

    /// The state without any renaming.
    pub open spec fn unrenamed(self) -> RegisterState {
        RegisterState { related_rob: Seq::new(32, |r: int| None::<usize>), ..self }
    }

    /// The state with the program counter set to `pc`.
    pub open spec fn at(self, pc: u32) -> RegisterState {
        RegisterState { pc, ..self }
    }

    /// The operand that a read of register `reg` yields while `entries` are
    /// in flight: the value that the youngest writer in flight has produced,
    /// else a reference to that writer, else the architectural value.
    pub open spec fn operand(self, reg: int, entries: Map<usize, ReorderBufferEntry>) -> Operand {
        match self.related_rob[reg] {
            Some(idx) => if entries.contains_key(idx) && entries[idx].reg_value is Some {
                Operand::Value(entries[idx].reg_value->0)
            } else {
                Operand::Rob(idx)
            },
            None => Operand::Value(self.gpr[reg]),
        }
    }

    /// There are 32 registers, `x0` is hard-wired to zero and never renamed.
    pub open spec fn wf(self) -> bool {
        &&& self.gpr.len() == 32
        &&& self.writable.len() == 32
        &&& self.related_rob.len() == 32
        &&& self.gpr[0] == 0
        &&& !self.writable[0]
        &&& self.related_rob[0] is None
    }
}

impl View for RegisterFile {
    type V = RegisterState;

    open spec fn view(&self) -> RegisterState {
        RegisterState {
            pc: self.pc.value(),
            gpr: Seq::new(32, |r: int| self.gpr[r].value()),
            writable: Seq::new(32, |r: int| self.gpr[r].writable()),
            related_rob: self.related_rob@,
        }
    }
}

impl RegisterFile {
    /// Register `x0` is hard-wired to zero and is never renamed.
    pub open spec fn wf(&self) -> bool {
        self@.wf()
    }

    /// The operand that a read of register `reg` yields while `entries` are
    /// in flight.
    pub open spec fn operand(
        &self,
        reg: u8,
        entries: Map<usize, ReorderBufferEntry>,
    ) -> Operand {
        self@.operand(reg as int, entries)
    }

    /// The register file of a process that is about to start at `pc`: every
    /// register holds zero but the stack pointer `x2`, every register but
    /// `x0` can be written, and no register is renamed.
    pub open spec fn initial(pc: u32, stack_pointer: u32) -> RegisterState {
        RegisterState {
            pc,
            gpr: Seq::new(
                32,
                |r: int|
                    if r == 2 {
                        stack_pointer
                    } else {
                        0u32
                    },
            ),
            writable: Seq::new(32, |r: int| r != 0),
            related_rob: Seq::new(32, |r: int| None::<usize>),
        }
    }

    /// Constructs a new `RegisterFile`: every register holds zero but the
    /// stack pointer `x2`, and no register is renamed.
    pub fn new(pc: u32, stack_pointer: u32) -> (reg_file: RegisterFile)
        ensures
            reg_file.wf(),
            reg_file@ == RegisterFile::initial(pc, stack_pointer),
    {
        let mut reg_file = RegisterFile {
            pc: Register::new(pc, true),
            gpr: [Register::new(0, true);32],
            related_rob: [None;32],
        };
        reg_file.gpr[0] = Register::new(0, false);
        reg_file.gpr[2] = Register::new(stack_pointer, true);
        proof {
            let init = RegisterFile::initial(pc, stack_pointer);
            assert(reg_file@.gpr =~= init.gpr);
            assert(reg_file@.writable =~= init.writable);
            assert(reg_file@.related_rob =~= init.related_rob);
        }
        reg_file
    }

    /// Reads register `reg` as an operand of an instruction that is being
    /// issued.
    pub fn get_reg_value(&self, reg: u8, rob: &ReorderBuffer) -> (operand: Operand)
        requires
            reg < 32,
        ensures
            operand == self.operand(reg, rob.entries()),
    {
        match self.related_rob[reg as usize] {
            Some(idx) => match rob.get(idx) {
                Some(entry) => match entry.reg_value {
                    Some(val) => Operand::Value(val),
                    None => Operand::Rob(idx),
                },
                None => Operand::Rob(idx),
            },
            None => Operand::Value(self.gpr[reg as usize].read()),
        }
    }

    /// Renames register `reg` to the reorder-buffer entry `rob_idx`.
    pub fn set_reg_rob_index(&mut self, reg: u8, rob_idx: usize)
        requires
            reg < 32,
        ensures
            final(self)@ == old(self)@.renamed(reg as int, rob_idx),
    {
        if reg == 0 {
            return ;
        }
        self.related_rob[reg as usize] = Some(rob_idx);
        proof {
            assert(self@.related_rob =~= old(self)@.renamed(reg as int, rob_idx).related_rob);
        }
    }

    /// Ends the renaming of register `reg` if it still points at entry
    /// `rob_idx`; a younger writer keeps the name.
    pub fn clear_rename(&mut self, reg: u8, rob_idx: usize)
        requires
            reg < 32,
        ensures
            final(self)@ == old(self)@.released(reg as int, rob_idx),
    {
        if let Some(related) = self.related_rob[reg as usize] {
            if related == rob_idx {
                self.related_rob[reg as usize] = None;
            }
        }
        proof {
            assert(self@.related_rob =~= old(self)@.released(reg as int, rob_idx).related_rob);
        }
    }

    /// Ends every renaming.
    pub fn clear_renames(&mut self)
        ensures
            final(self)@ == old(self)@.unrenamed(),
    {
        let mut r: usize = 0;
        while r < 32
            invariant
                r <= 32,
                forall|j: int| 0 <= j < r ==> self.related_rob[j] is None,
                self.gpr == old(self).gpr,
                self.pc == old(self).pc,
            decreases 32 - r,
        {
            self.related_rob[r] = None;
            r += 1;
        }
        proof {
            assert(self@.related_rob =~= old(self)@.unrenamed().related_rob);
        }
    }

    /// Writes `value` to general purpose register `reg`; a write to `x0` has
    /// no effect.
    pub fn write_gpr(&mut self, reg: u8, value: u32)
        requires
            reg < 32,
        ensures
            final(self)@ == old(self)@.written(reg as int, value),
    {
        self.gpr[reg as usize].write(value);
        proof {
            assert(self@.gpr =~= old(self)@.written(reg as int, value).gpr);
            assert(self@.writable =~= old(self)@.written(reg as int, value).writable);
        }
    }

    /// Sets the program counter.
    pub fn set_pc(&mut self, pc: u32)
        ensures
            final(self)@ == old(self)@.at(pc),
    {
        self.pc = Register::new(pc, true);
        proof {
            assert(self@.gpr =~= old(self)@.gpr);
            assert(self@.writable =~= old(self)@.writable);
        }
    }
}

} // verus!
