//! The reference interpreter, as a machine that runs one operator per step.
//! Input and output are left to the caller: a step that needs a byte stops
//! and waits for `feed`, and a step that prints hands the byte back.
use vstd::prelude::*;
use crate::ir::IR;
use crate::program::{Operator, Program};
use crate::{Eval, TAPE_LEN};

verus! {

broadcast use vstd::std_specs::hash::group_hash_axioms;

/// What a step did, as far as the caller must act on it.
#[derive(Copy, Clone, Debug, PartialEq, Eq, Structural)]
pub enum Event {
    /// An operator ran; nothing for the caller to do.
    Continue,
    /// The current operator is `,`: call `feed` with the next input byte.
    NeedInput,
    /// The current operator was `.`: write this byte out.
    Output(u8),
    /// The program has ended.
    Halt,
}

/// A fault while running.
#[derive(Copy, Clone, Debug, PartialEq, Eq, Structural)]
pub enum RuntimeError {
    TapeOutOfBounds,
}

/// A program with its tape, tape pointer and instruction pointer.
#[derive(Debug)]
pub struct Interpreter {
    pub program: Program,
    pub tape: Vec<u8>,
    pub mem_ptr: usize,
    pub ip: usize,
}

impl Interpreter {
    /// A parsed program, a full tape, the tape pointer on it and the
    /// instruction pointer at most one past the last operator.
    pub open spec fn wf(&self) -> bool {
        &&& self.program.wf()
        &&& self.tape@.len() == TAPE_LEN
        &&& self.mem_ptr < TAPE_LEN
        &&& self.ip <= self.program.code@.len()
    }

    /// The cell under the tape pointer.
    pub open spec fn cell(&self) -> u8 {
        self.tape@[self.mem_ptr as int]
    }

    /// A machine at the start of `program`, with a zeroed tape.
    pub fn new(program: Program) -> (r: Interpreter)
        ensures
            r.program == program,
            r.tape@ == Seq::new(TAPE_LEN as nat, |i: int| 0u8),
            r.mem_ptr == 0,
            r.ip == 0,
            program.wf() ==> r.wf(),
    {
        let mut tape: Vec<u8> = Vec::new();
        while tape.len() < TAPE_LEN
            invariant
                tape@.len() <= TAPE_LEN,
                forall|i: int| 0 <= i < tape@.len() ==> tape@[i] == 0u8,
            decreases TAPE_LEN - tape.len(),
        {
            tape.push(0);
        }
        assert(tape@ =~= Seq::new(TAPE_LEN as nat, |i: int| 0u8));
        Interpreter { program, tape, mem_ptr: 0, ip: 0 }
    }

    /// Runs the operator at `ip`.
    #[verifier::rlimit(40)]
    pub fn step(&mut self) -> (r: Result<Event, RuntimeError>)
        requires
            old(self).wf(),
        ensures
            final(self).wf(),
            final(self).program == old(self).program,
            ({
                let s = *old(self);
                let t = *final(self);
                let code = s.program.code@;
                let mp = s.mem_ptr as int;
                let unchanged = t.tape@ == s.tape@ && t.mem_ptr == s.mem_ptr && t.ip == s.ip;
                let moved = t.tape@ == s.tape@ && t.ip == s.ip + 1;
                if s.ip >= code.len() {
                    r == Ok::<Event, RuntimeError>(Event::Halt) && unchanged
                } else {
                    match code[s.ip as int] {
                        Operator::IncrementPtr => if s.mem_ptr + 1 < TAPE_LEN {
                            r == Ok::<Event, RuntimeError>(Event::Continue) && moved && t.mem_ptr
                                == s.mem_ptr + 1
                        } else {
                            r == Err::<Event, RuntimeError>(RuntimeError::TapeOutOfBounds)
                                && unchanged
                        },
                        Operator::DecrementPtr => if s.mem_ptr > 0 {
                            r == Ok::<Event, RuntimeError>(Event::Continue) && moved && t.mem_ptr
                                == s.mem_ptr - 1
                        } else {
                            r == Err::<Event, RuntimeError>(RuntimeError::TapeOutOfBounds)
                                && unchanged
                        },
                        Operator::IncrementValue => r == Ok::<Event, RuntimeError>(Event::Continue)
                            && t.mem_ptr == s.mem_ptr && t.ip == s.ip + 1 && t.tape@ == s.tape@.update(
                            mp,
                            ((s.cell() + 1) % 256) as u8,
                        ),
                        Operator::DecrementValue => r == Ok::<Event, RuntimeError>(Event::Continue)
                            && t.mem_ptr == s.mem_ptr && t.ip == s.ip + 1 && t.tape@ == s.tape@.update(
                            mp,
                            ((s.cell() + 255) % 256) as u8,
                        ),
                        Operator::JumpIfZero => r == Ok::<Event, RuntimeError>(Event::Continue)
                            && t.tape@ == s.tape@ && t.mem_ptr == s.mem_ptr && t.ip == (if s.cell()
                            == 0 {
                            s.program.fwd_jump_table@[s.ip]
                        } else {
                            s.ip
                        }) + 1,
                        Operator::JumpIfNonZero => r == Ok::<Event, RuntimeError>(Event::Continue)
                            && t.tape@ == s.tape@ && t.mem_ptr == s.mem_ptr && t.ip == (if s.cell()
                            != 0 {
                            s.program.bwd_jump_table@[s.ip]
                        } else {
                            s.ip
                        }) + 1,
                        Operator::GetChar => r == Ok::<Event, RuntimeError>(Event::NeedInput)
                            && unchanged,
                        Operator::PutChar => r == Ok::<Event, RuntimeError>(
                            Event::Output(s.cell()),
                        ) && moved && t.mem_ptr == s.mem_ptr,
                    }
                }
            }),
    {
        proof {
            crate::program::lemma_program_jump_tables(&self.program);
        }
        if self.ip >= self.program.code.len() {
            return Ok(Event::Halt);
        }
        let mp = self.mem_ptr;
        match self.program.code[self.ip] {
            Operator::IncrementPtr => {
                if mp + 1 >= TAPE_LEN {
                    return Err(RuntimeError::TapeOutOfBounds);
                }
                self.mem_ptr = mp + 1;
            },
            Operator::DecrementPtr => {
                if mp == 0 {
                    return Err(RuntimeError::TapeOutOfBounds);
                }
                self.mem_ptr = mp - 1;
            },
            Operator::IncrementValue => {
                let v = self.tape[mp];
                self.tape[mp] = ((v as u16 + 1) % 256) as u8;
            },
            Operator::DecrementValue => {
                let v = self.tape[mp];
                self.tape[mp] = ((v as u16 + 255) % 256) as u8;
            },
            Operator::JumpIfZero => {
                if self.tape[mp] == 0 {
                    self.ip = *self.program.fwd_jump_table.get(&self.ip).unwrap();
                }
            },
            Operator::JumpIfNonZero => {
                if self.tape[mp] != 0 {
                    self.ip = *self.program.bwd_jump_table.get(&self.ip).unwrap();
                }
            },
            Operator::GetChar => {
                return Ok(Event::NeedInput);
            },
            Operator::PutChar => {
                let v = self.tape[mp];
                self.ip = self.ip + 1;
                return Ok(Event::Output(v));
            },
        }
        self.ip = self.ip + 1;
        Ok(Event::Continue)
    }

    /// Completes a `,`: stores the input byte in the current cell, or zero at
    /// end of input, and moves past the operator.
    pub fn feed(&mut self, input: Option<u8>)
        requires
            old(self).wf(),
            old(self).ip < old(self).program.code@.len(),
            old(self).program.code@[old(self).ip as int] == Operator::GetChar,
        ensures
            final(self).wf(),
            final(self).program == old(self).program,
            final(self).mem_ptr == old(self).mem_ptr,
            final(self).ip == old(self).ip + 1,
            final(self).tape@ == old(self).tape@.update(
                old(self).mem_ptr as int,
                match input {
                    Some(b) => b,
                    None => 0u8,
                },
            ),
    {
        let v = match input {
            Some(b) => b,
            None => 0,
        };
        let mp = self.mem_ptr;
        self.tape[mp] = v;
        let len = self.program.code.len();
        assert(self.ip < len);
        self.ip = self.ip + 1;
    }
}

impl Eval for Interpreter {
    /// A machine ready to run the program.
    type Output = Interpreter;

    fn eval_source(src: Program) -> (r: Result<Interpreter, ()>)
        ensures
            r matches Ok(m) && m.program == src && m.tape@ == Seq::new(
                TAPE_LEN as nat,
                |i: int| 0u8,
            ) && m.mem_ptr == 0 && m.ip == 0,
    {
        Ok(Interpreter::new(src))
    }

    /// The interpreter runs operators, not IR.
    fn eval_ir(_ir: IR) -> (r: Result<Interpreter, ()>)
        ensures
            r is Err,
    {
        Err(())
    }
}

} // verus!
