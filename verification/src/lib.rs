//! Legalization of a function for a target: every instruction gets a machine encoding and every
//! function, call and return boundary follows the target's calling convention.
//!
//! [`legalize_function`] is the pass. It works on a [`Function`](function::Function) and asks a
//! [`TargetIsa`](isa::TargetIsa) for the signatures of the ABI, for the encoding of each
//! instruction, and for the rewriting of an instruction that has none. A function for which
//! it returns `Ok` is [legalized](function::Function::legalized), and whatever it returns the
//! function keeps what it [had](function::Function::passed_on). What the pass leaves and
//! returns for a target with given answers is said step by step in [`walk`].
//!
//! The parts of the pass can be used alone: [`entry`] brings the parameters of the entry
//! block in line with a legalized signature, [`boundary`] the arguments of a call or return,
//! and both convert values with [`convert`]; [`rewriter`] makes the rewriting that a target
//! asks for. What each of them puts into the function is said in [`plan`], instruction by
//! instruction. What a conversion does to the bits of a value is said in [`bits`], and
//! [`meaning`] ties it to the instructions that are inserted: a value that is converted to
//! ABI arguments and back is the value.

#![allow(unused_imports)]

pub mod abi;
pub mod bits;
pub mod boundary;
pub mod convert;
pub mod driver;
pub mod edit;
pub mod entities;
pub mod entry;
pub mod error;
pub mod frame;
pub mod function;
pub mod isa;
pub mod meaning;
pub mod plan;
pub mod rewriter;
pub mod types;
pub mod validate;
pub mod walk;

pub use crate::driver::legalize_function;
