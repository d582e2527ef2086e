//! Cycle-level simulator of a user-mode RV32IMA process on an out-of-order,
//! Tomasulo-style core.
//!
//! Instructions are fetched from a process image, renamed through a reorder
//! buffer, executed out of order by reservation stations, an address unit and a
//! load buffer, and retired strictly in program order. Every function in this
//! crate carries a contract that Verus proves; the one exception is the call
//! into `byteorder` that reads an instruction word, whose contract is taken
//! on trust. The module `pipeline::equivalence` shows that what retires is a
//! run of the program in program order.

pub mod consts;
pub mod elf;
pub mod alu;
pub mod instruction;
pub mod memory;
pub mod pipeline;
pub mod register;

