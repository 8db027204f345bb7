//! References to the entities of a function. Each is an index into one of the function's tables.

use vstd::prelude::*;

verus! {

/// An SSA value.
#[derive(Clone, Copy, Debug, PartialEq, Eq, Structural)]
pub struct Value(pub usize);

/// An instruction.
#[derive(Clone, Copy, Debug, PartialEq, Eq, Structural)]
pub struct Inst(pub usize);

/// An extended basic block. Blocks are numbered in layout order; the entry block is number 0.
#[derive(Clone, Copy, Debug, PartialEq, Eq, Structural)]
pub struct Ebb(pub usize);

/// A signature in the function's signature table.
#[derive(Clone, Copy, Debug, PartialEq, Eq, Structural)]
pub struct SigRef(pub usize);

/// An external function that the function can call directly.
#[derive(Clone, Copy, Debug, PartialEq, Eq, Structural)]
pub struct FuncRef(pub usize);

} // verus!
