//! A virtual machine for the Jack/Hack stack language: its memory model and
//! the parser for its bytecode text.
use vstd::prelude::*;

pub mod memory;
pub mod parser;
pub mod text;

verus! {

} // verus!
