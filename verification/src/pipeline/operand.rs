//! Operands of instructions in flight.

use vstd::prelude::*;

verus! {

/// A source operand: either a value that is already known, or the index of the
/// reorder-buffer entry that will produce it.
#[derive(Debug, Clone, Copy, PartialEq, Eq, Structural)]
pub enum Operand {
    Value(u32),
    Rob(usize),
}

impl Operand {
    /// The operand after the result `value` of entry `rob_idx` has been
    /// broadcast: a reference to that entry becomes the value, anything else
    /// stays as it is.
    pub open spec fn forwarded(self, rob_idx: usize, value: u32) -> Operand {
        match self {
            Operand::Rob(target) if target == rob_idx => Operand::Value(value),
            _ => self,
        }
    }

    /// Whether the operand is a known value.
    pub open spec fn is_resolved(self) -> bool {
        self is Value
    }

    /// Replaces a reference to entry `rob_idx` by its result.
    pub fn forward(self, rob_idx: usize, value: u32) -> (operand: Operand)
        ensures
            operand == self.forwarded(rob_idx, value),
    {
        match self {
            Operand::Rob(target) => if target == rob_idx {
                Operand::Value(value)
            } else {
                self
            },
            Operand::Value(_) => self,
        }
    }

    /// The value of the operand, if it is known.
    pub fn value(self) -> (value: Option<u32>)
        ensures
            value == (match self {
                Operand::Value(v) => Some(v),
                Operand::Rob(_) => None,
            }),
    {
        match self {
            Operand::Value(v) => Some(v),
            Operand::Rob(_) => None,
        }
    }
}

impl Default for Operand {
    fn default() -> (operand: Operand)
        ensures
            operand == Operand::Value(0),
    {
        Operand::Value(0)
    }
}

} // verus!
