//! The memory unit: loads, stores and atomic operations on the process image.

use vstd::prelude::*;
use crate::alu::to_signed;
use crate::consts;
use crate::instruction::Function;
use crate::memory::{half_bytes, le_half, le_word, word_bytes, ProcessMemory};
use crate::pipeline::exception::Exception;
use crate::pipeline::operand::Operand;
use crate::pipeline::reorder_buffer::ReorderBufferEntry;

verus! {

/// The byte `byte`, sign-extended to a word.
pub open spec fn extended_byte(byte: u8) -> u32 {
    if byte >= 0x80 {
        (0xffff_ff00 + byte) as u32
    } else {
        byte as u32
    }
}

/// The halfword `half`, sign-extended to a word.
pub open spec fn extended_half(half: u16) -> u32 {
    if half >= 0x8000 {
        (0xffff_0000 + half) as u32
    } else {
        half as u32
    }
}

/// The word that an atomic operation `func` leaves in memory, where the
/// memory held `old` and the register operand is `operand`.
pub open spec fn atomic_result(func: Function, old: u32, operand: u32) -> u32 {
    match func {
        Function::Amoaddw => vstd::wrapping::u32_specs::wrapping_add(old, operand),
        Function::Amoandw => old & operand,
        Function::Amoorw => old | operand,
        Function::Amoxorw => old ^ operand,
        Function::Amomaxuw => if old >= operand {
            old
        } else {
            operand
        },
        Function::Amominuw => if old <= operand {
            old
        } else {
            operand
        },
        Function::Amomaxw => if crate::alu::signed(old) >= crate::alu::signed(operand) {
            old
        } else {
            operand
        },
        Function::Amominw => if crate::alu::signed(old) <= crate::alu::signed(operand) {
            old
        } else {
            operand
        },
        Function::Amoswapw => operand,
        _ => 0,
    }
}

/// Whether `func` is a plain load.
pub open spec fn is_plain_load(func: Function) -> bool {
    func is Lb || func is Lbu || func is Lh || func is Lhu || func is Lw
}

/// The number of bytes that load `func` reads at its address; an atomic
/// operation reads a word.
pub open spec fn load_width(func: Function) -> int {
    match func {
        Function::Lb | Function::Lbu => 1,
        Function::Lh | Function::Lhu => 2,
        _ => 4,
    }
}

/// The value that load `func` delivers when the memory holds `bytes` at its
/// address.
pub open spec fn loaded_value(func: Function, bytes: Seq<u8>) -> u32 {
    match func {
        Function::Lb => extended_byte(bytes[0]),
        Function::Lbu => bytes[0] as u32,
        Function::Lh => extended_half(le_half(bytes)),
        Function::Lhu => le_half(bytes) as u32,
        _ => le_word(bytes),
    }
}

/// The bytes that a store of `value` by `func` writes: the low byte for
/// `Sb`, the low halfword for `Sh`, the word otherwise.
pub open spec fn stored_bytes(func: Function, value: u32) -> Seq<u8> {
    match func {
        Function::Sb => seq![(value % 0x100) as u8],
        Function::Sh => half_bytes((value % 0x1_0000) as u16),
        _ => word_bytes(value),
    }
}

/// The address and the bytes that `entry` writes to memory when it retires,
/// if it writes at all: address and value must be known, and an atomic
/// operation must have read its old value.
pub open spec fn pending_store(entry: ReorderBufferEntry) -> Option<(u32, Seq<u8>)> {
    if entry.inst.opcode is Amo && entry.reg_value is None {
        None
    } else {
        match (entry.addr, entry.mem_value) {
            (Operand::Value(addr), Operand::Value(value)) => Some(
                (addr, stored_bytes(entry.inst.function, value)),
            ),
            _ => None,
        }
    }
}

/// The address that `entry` writes when it retires.
pub open spec fn store_address(entry: ReorderBufferEntry) -> u32 {
    match pending_store(entry) {
        Some((addr, _)) => addr,
        None => 0,
    }
}

/// The bytes that `entry` writes when it retires.
pub open spec fn store_data(entry: ReorderBufferEntry) -> Seq<u8> {
    match pending_store(entry) {
        Some((_, bytes)) => bytes,
        None => Seq::empty(),
    }
}

/// The entry after its load has read `old` from memory: an atomic operation
/// other than `Lrw` keeps the word that it will write in `mem_value` and
/// starts its memory latency anew; `Lrw` has nothing to write. A register
/// operand that is still unknown counts as zero.
pub open spec fn after_load(entry: ReorderBufferEntry, old: u32) -> ReorderBufferEntry {
    if is_plain_load(entry.inst.function) {
        entry
    } else if entry.inst.function is Lrw {
        ReorderBufferEntry { mem_value: Operand::Value(0), ..entry }
    } else {
        ReorderBufferEntry {
            mem_value: Operand::Value(
                atomic_result(
                    entry.inst.function,
                    old,
                    match entry.mem_value {
                        Operand::Value(operand) => operand,
                        Operand::Rob(_) => 0,
                    },
                ),
            ),
            mem_rem_cycle: consts::MEM_CYCLE,
            ..entry
        }
    }
}

/// The memory unit.
pub struct MemoryUnit();

impl MemoryUnit {
    /// Carries out the write of a store or atomic operation that retires.
    /// Nothing is written while address or value are unknown.
    pub fn execute_store(store_entry: &ReorderBufferEntry, mem: &mut ProcessMemory) -> (r: Result<
        (),
        Exception,
    >)
        ensures
            match pending_store(*store_entry) {
                Some((addr, bytes)) => {
                    &&& r == (match old(mem)@.store_fault(addr, bytes.len() as int) {
                        Some(e) => Err::<(), Exception>(e),
                        None => Ok(()),
                    })
                    &&& r is Ok ==> final(mem)@ == old(mem)@.stored(addr, bytes)
                    &&& r is Err ==> final(mem)@ == old(mem)@
                },
                None => r is Ok && final(mem)@ == old(mem)@,
            },
    {
        if store_entry.inst.opcode == crate::instruction::Opcode::Amo {
            if store_entry.reg_value.is_none() {
                return Ok(());
            }
        }
        match (store_entry.addr, store_entry.mem_value) {
            (Operand::Value(addr), Operand::Value(value)) => match store_entry.inst.function {
                Function::Sb => mem.write_u8(addr, (value % 0x100) as u8),
                Function::Sh => mem.write_u16(addr, (value % 0x1_0000) as u16),
                _ => mem.write_u32(addr, value),
            },
            _ => Ok(()),
        }
    }

    /// Carries out the read of a load or atomic operation at `addr`, and
    /// returns the value for the destination register. A read that fails
    /// leaves the entry as it is.
    pub fn execute(addr: u32, load_entry: &mut ReorderBufferEntry, mem: &ProcessMemory) -> (r:
        Result<u32, Exception>)
        ensures
            r is Ok <==> mem@.accessible(addr, load_width(old(load_entry).inst.function)),
            r matches Ok(value) ==> {
                &&& value == loaded_value(
                    old(load_entry).inst.function,
                    mem@.bytes_at(addr, load_width(old(load_entry).inst.function)),
                )
                &&& *final(load_entry) == after_load(*old(load_entry), value)
            },
            r matches Err(e) ==> e == Exception::WritingToInvalidMemory(addr) && *final(load_entry)
                == *old(load_entry),
    {
        match load_entry.inst.function {
            Function::Lb => match mem.read_u8(addr) {
                Ok(byte) => Ok(
                    if byte >= 0x80 {
                        0xffff_ff00u32 + byte as u32
                    } else {
                        byte as u32
                    },
                ),
                Err(e) => Err(e),
            },
            Function::Lbu => match mem.read_u8(addr) {
                Ok(byte) => Ok(byte as u32),
                Err(e) => Err(e),
            },
            Function::Lh => match mem.read_u16(addr) {
                Ok(half) => Ok(
                    if half >= 0x8000 {
                        0xffff_0000u32 + half as u32
                    } else {
                        half as u32
                    },
                ),
                Err(e) => Err(e),
            },
            Function::Lhu => match mem.read_u16(addr) {
                Ok(half) => Ok(half as u32),
                Err(e) => Err(e),
            },
            Function::Lw => mem.read_u32(addr),
            function => {
                let value: u32 = mem.read_u32(addr)?;
                let operand: u32 = match load_entry.mem_value {
                    Operand::Value(val) => val,
                    Operand::Rob(_) => 0,
                };
                if function != Function::Lrw {
                    load_entry.mem_rem_cycle = consts::MEM_CYCLE;
                }
                let mem_val: u32 = match function {
                    Function::Lrw => 0,
                    Function::Amoaddw => value.wrapping_add(operand),
                    Function::Amoandw => value & operand,
                    Function::Amoorw => value | operand,
                    Function::Amoxorw => value ^ operand,
                    Function::Amomaxuw => if value >= operand {
                        value
                    } else {
                        operand
                    },
                    Function::Amominuw => if value <= operand {
                        value
                    } else {
                        operand
                    },
                    Function::Amomaxw => if to_signed(value) >= to_signed(operand) {
                        value
                    } else {
                        operand
                    },
                    Function::Amominw => if to_signed(value) <= to_signed(operand) {
                        value
                    } else {
                        operand
                    },
                    Function::Amoswapw => operand,
                    _ => 0,
                };
                load_entry.mem_value = Operand::Value(mem_val);
                Ok(value)
            },
        }
    }
}

} // verus!
