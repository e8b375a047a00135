//! Forge: a just-in-time compiler for typed math expressions.
//!
//! The crate holds the compiler proper: the SSA intermediate representation
//! with its verifier and interpreter, the optimizer, and the code generators.
//! Everything that touches the operating system (mapping memory, printing,
//! reading arguments) or computes with floating-point numbers lives outside
//! and hands plain values in.
use vstd::prelude::*;

pub mod aarch64;
pub mod arith;
pub mod array;
pub mod builder;
pub mod cli;
pub mod collections;
pub mod dominance;
pub mod float;
pub mod interp;
pub mod ir;
pub mod lower;
pub mod meaning;
pub mod memory;
pub mod opt;
pub mod print;
pub mod repl;
pub mod report;
pub mod spelling;
pub mod text;
pub mod verify;
pub mod x64;

verus! {

} // verus!
