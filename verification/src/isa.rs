//! The instruction set that source programs are folded into.

use vstd::prelude::*;

verus! {

/// One instruction of the folded program.
#[derive(PartialEq, Eq, Structural, Clone, Copy, Debug)]
pub enum BFIsa {
    /// Add the payload to the current cell, modulo 256.
    Incr(u8),
    /// Write the current cell.
    Out,
    /// Read one byte into the current cell.
    In,
    /// Add the payload to the data pointer, modulo the tape length.
    Mv(isize),
    /// Clear the current cell.
    LoopSetZero,
    /// Add the current cell to the cell at the given offset, then clear it.
    LoopMvData(isize),
    /// Advance the data pointer by the payload until it rests on a zero cell.
    LoopMvPtr(isize),
    /// Forward branch, taken when the current cell is zero.
    Jmp(usize),
    /// Backward branch, taken when the current cell is not zero.
    Ret(usize),
}

/// Another name for `BFIsa`.
#[allow(non_camel_case_types)]
pub type BF_ISA = BFIsa;

} // verus!
