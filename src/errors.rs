use vstd::prelude::*;

verus! {

/// The errors that the interpreter reports.
#[derive(Debug, Clone, Copy, PartialEq, Eq, Structural)]
pub enum ChipError {
    /// An access to memory beyond its limits.
    AddressOutOfBounds { address: usize, limit: usize },
    /// A pop from an empty stack.
    StackUnderflow(),
    /// A push onto a full stack; holds the capacity of the stack.
    StackOverflow(usize),
    /// An instruction word without defined semantics.
    OpcodeNotImplemented { opcode: u16 },
}

} // verus!
