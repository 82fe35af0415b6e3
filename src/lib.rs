//! Brainfuck: parsing, lowering to a fused IR, branch resolution, machine code
//! emission for x86-64 and RISC-V 64 Linux, and a reference interpreter.
use vstd::prelude::*;

pub mod brackets;
pub mod cli;
pub mod interpreter;
pub mod ir;
pub mod jit;
pub mod program;

verus! {

/// Number of cells on the tape.
pub const TAPE_LEN: usize = 30000;

/// A way of running a program: from its operators or from its IR.
pub trait Eval {
    type Output;

    fn eval_source(src: program::Program) -> Result<Self::Output, ()>;

    fn eval_ir(ir: ir::IR) -> Result<Self::Output, ()>;
}

} // verus!
