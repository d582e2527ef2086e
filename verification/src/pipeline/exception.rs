//! Faults that an instruction can raise.

use vstd::prelude::*;

verus! {

/// A fault raised while an instruction executes. It is kept with the
/// instruction and takes effect only if the instruction retires.
#[derive(Debug, Copy, Clone, PartialEq, Eq, Structural)]
pub enum Exception {
    /// An access to an address outside the process image.
    WritingToInvalidMemory(u32),
    /// A store to an address in the read-only part of the image.
    WritingToReadOnlyMemory(u32),
    /// A system call that the simulator does not provide.
    SyscallNotImpl(u32),
    /// A system call that the simulator cannot carry out, or that the host
    /// refused.
    FailCallingSyscall(u32),
}

} // verus!
