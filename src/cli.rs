//! How a program is to be run.
use vstd::prelude::*;

verus! {

/// Execution mode: JIT compilation or interpretation.
#[derive(Copy, Clone, Debug, PartialEq, Eq, Structural)]
pub enum Mode {
    Jit,
    Interpret,
}

} // verus!
