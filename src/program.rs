//! Source text to operators, with the tables that pair each loop start with
//! its end.
use std::collections::HashMap;
use vstd::prelude::*;
use vstd::string::StringSliceAdditionalSpecFns;
use crate::brackets::{
    balanced, ends_of, loop_ends, loop_starts, open_stack, starts_of, Bracket,
};

verus! {

broadcast use vstd::std_specs::hash::group_hash_axioms;

/// One Brainfuck operator.
#[derive(Copy, Clone, Debug, PartialEq, Eq, Structural)]
pub enum Operator {
    IncrementPtr,
    DecrementPtr,
    IncrementValue,
    DecrementValue,
    JumpIfZero,
    JumpIfNonZero,
    GetChar,
    PutChar,
}

/// The operator that a source byte stands for, if any.
pub open spec fn operator_of(b: u8) -> Option<Operator> {
    if b == 62 {
        Some(Operator::IncrementPtr)
    } else if b == 60 {
        Some(Operator::DecrementPtr)
    } else if b == 43 {
        Some(Operator::IncrementValue)
    } else if b == 45 {
        Some(Operator::DecrementValue)
    } else if b == 91 {
        Some(Operator::JumpIfZero)
    } else if b == 93 {
        Some(Operator::JumpIfNonZero)
    } else if b == 44 {
        Some(Operator::GetChar)
    } else if b == 46 {
        Some(Operator::PutChar)
    } else {
        None
    }
}

impl Operator {
    pub open spec fn bracket(self) -> Bracket {
        match self {
            Operator::JumpIfZero => Bracket::Open,
            Operator::JumpIfNonZero => Bracket::Close,
            _ => Bracket::Plain,
        }
    }
}

impl TryFrom<u8> for Operator {
    type Error = ();

    fn try_from(value: u8) -> (r: Result<Self, Self::Error>) {
        match value {
            62 => Ok(Self::IncrementPtr),
            60 => Ok(Self::DecrementPtr),
            43 => Ok(Self::IncrementValue),
            45 => Ok(Self::DecrementValue),
            91 => Ok(Self::JumpIfZero),
            93 => Ok(Self::JumpIfNonZero),
            44 => Ok(Self::GetChar),
            46 => Ok(Self::PutChar),
            _ => Err(()),
        }
    }
}

impl vstd::std_specs::convert::TryFromSpecImpl<u8> for Operator {
    open spec fn obeys_try_from_spec() -> bool {
        true
    }

    open spec fn try_from_spec(v: u8) -> Result<Self, ()> {
        match operator_of(v) {
            Some(op) => Ok(op),
            None => Err(()),
        }
    }
}

/// The operators of a source text, in order; every other byte is a comment.
pub open spec fn parse_ops(src: Seq<u8>) -> Seq<Operator>
    decreases src.len(),
{
    if src.len() == 0 {
        Seq::empty()
    } else {
        let prev = parse_ops(src.drop_last());
        match operator_of(src.last()) {
            Some(op) => prev.push(op),
            None => prev,
        }
    }
}

/// The loop structure of an operator sequence.
pub open spec fn brackets_of(code: Seq<Operator>) -> Seq<Bracket> {
    code.map_values(|o: Operator| o.bracket())
}

/// A jump table holds exactly the pairs of a mathematical table.
pub open spec fn table_is(t: Map<usize, usize>, m: Map<int, int>) -> bool {
    &&& forall|k: usize| #[trigger]
        t.contains_key(k) ==> m.contains_key(k as int) && m[k as int] == t[k] as int
    &&& forall|k: int|
        #[trigger] m.contains_key(k) ==> 0 <= k <= usize::MAX && t.contains_key(k as usize)
}

/// Why a source text is not a program.
#[derive(Copy, Clone, Debug, PartialEq, Eq, Structural)]
pub enum ParseError {
    UnmatchedOpen,
    UnmatchedClose,
}

/// A parsed program: its operators and both jump tables.
#[derive(Debug)]
pub struct Program {
    pub code: Vec<Operator>,
    pub fwd_jump_table: HashMap<usize, usize>,
    pub bwd_jump_table: HashMap<usize, usize>,
}

impl Program {
    /// Balanced loops, and the two tables hold exactly the matching pairs.
    pub open spec fn wf(&self) -> bool {
        let b = brackets_of(self.code@);
        &&& balanced(b)
        &&& table_is(self.fwd_jump_table@, loop_ends(b))
        &&& table_is(self.bwd_jump_table@, loop_starts(b))
    }

    /// Parses source text. Bytes other than the eight operators are comments.
    /// Fails when a `]` has no open `[` before it, or a `[` is never closed.
    #[verifier::rlimit(40)]
    pub fn new(source: &str) -> (r: Result<Program, ParseError>)
        ensures
            ({
                let code = parse_ops(source.spec_bytes());
                let b = brackets_of(code);
                match r {
                    Ok(p) => balanced(b) && p.code@ == code && p.wf(),
                    Err(ParseError::UnmatchedClose) => open_stack(b, b.len()) is None,
                    Err(ParseError::UnmatchedOpen) => open_stack(b, b.len()) is Some && !balanced(
                        b,
                    ),
                }
            }),
    {
        let bytes = source.as_bytes();
        let mut code: Vec<Operator> = Vec::new();
        let mut i: usize = 0;
        while i < bytes.len()
            invariant
                i <= bytes@.len(),
                bytes@ == source.spec_bytes(),
                code@ == parse_ops(bytes@.take(i as int)),
            decreases bytes.len() - i,
        {
            let byte = bytes[i];
            if let Ok(op) = Operator::try_from(byte) {
                code.push(op);
            }
            assert(bytes@.take(i + 1).drop_last() =~= bytes@.take(i as int));
            i += 1;
        }
        assert(bytes@.take(i as int) =~= bytes@);

        let ghost b = brackets_of(code@);
        let mut fwd_jump_table: HashMap<usize, usize> = HashMap::new();
        let mut bwd_jump_table: HashMap<usize, usize> = HashMap::new();
        let mut jump_stack: Vec<usize> = Vec::new();
        let mut pos: usize = 0;
        while pos < code.len()
            invariant
                pos <= code@.len(),
                code@ == parse_ops(source.spec_bytes()),
                b == brackets_of(code@),
                b.len() == code@.len(),
                open_stack(b, pos as nat) == Some(jump_stack@.map_values(|x: usize| x as int)),
                table_is(fwd_jump_table@, ends_of(b, pos as nat)),
                table_is(bwd_jump_table@, starts_of(b, pos as nat)),
            decreases code.len() - pos,
        {
            let ghost st = jump_stack@.map_values(|x: usize| x as int);
            let ghost m1 = ends_of(b, pos as nat);
            let ghost m2 = starts_of(b, pos as nat);
            assert(b[pos as int] == code@[pos as int].bracket());
            match code[pos] {
                Operator::JumpIfZero => {
                    jump_stack.push(pos);
                    assert(jump_stack@.map_values(|x: usize| x as int) =~= st.push(pos as int));
                },
                Operator::JumpIfNonZero => {
                    if jump_stack.len() == 0 {
                        proof {
                            assert(open_stack(b, (pos + 1) as nat) is None);
                            crate::brackets::lemma_failure_persists(
                                b,
                                (pos + 1) as nat,
                                b.len(),
                            );
                        }
                        return Err(ParseError::UnmatchedClose);
                    }
                    let here = jump_stack.pop().unwrap();
                    assert(jump_stack@.map_values(|x: usize| x as int) =~= st.drop_last());
                    fwd_jump_table.insert(here, pos);
                    bwd_jump_table.insert(pos, here);
                    assert(ends_of(b, (pos + 1) as nat) == m1.insert(here as int, pos as int));
                    assert(starts_of(b, (pos + 1) as nat) == m2.insert(pos as int, here as int));
                },
                _ => {},
            }
            pos += 1;
        }
        if jump_stack.len() > 0 {
            assert(jump_stack@.map_values(|x: usize| x as int).len() > 0);
            return Err(ParseError::UnmatchedOpen);
        }
        assert(jump_stack@.map_values(|x: usize| x as int) =~= Seq::<int>::empty());
        Ok(Program { code, fwd_jump_table, bwd_jump_table })
    }
}

/// In a parsed program the forward and backward tables are each other's
/// inverse, every `[` is a key of the forward table exactly once and every `]`
/// a key of the backward table exactly once, and each `[` precedes its `]`.
#[verifier::rlimit(40)]
pub proof fn lemma_program_jump_tables(p: &Program)
    requires
        p.wf(),
    ensures
        forall|i: usize|
            #![trigger p.fwd_jump_table@.contains_key(i)]
            p.fwd_jump_table@.contains_key(i) <==> i < p.code@.len() && p.code@[i as int]
                == Operator::JumpIfZero,
        forall|j: usize|
            #![trigger p.bwd_jump_table@.contains_key(j)]
            p.bwd_jump_table@.contains_key(j) <==> j < p.code@.len() && p.code@[j as int]
                == Operator::JumpIfNonZero,
        forall|i: usize|
            #![trigger p.fwd_jump_table@.contains_key(i)]
            p.fwd_jump_table@.contains_key(i) ==> {
                let j = p.fwd_jump_table@[i];
                &&& i < j < p.code@.len()
                &&& p.code@[j as int] == Operator::JumpIfNonZero
                &&& p.bwd_jump_table@.contains_key(j)
                &&& p.bwd_jump_table@[j] == i
            },
        forall|j: usize|
            #![trigger p.bwd_jump_table@.contains_key(j)]
            p.bwd_jump_table@.contains_key(j) ==> {
                let i = p.bwd_jump_table@[j];
                &&& i < j
                &&& p.code@[i as int] == Operator::JumpIfZero
                &&& p.fwd_jump_table@.contains_key(i)
                &&& p.fwd_jump_table@[i] == j
            },
{
    let b = brackets_of(p.code@);
    crate::brackets::lemma_jump_tables_inverse(b);
    let fwd = p.fwd_jump_table@;
    let bwd = p.bwd_jump_table@;
    assert forall|i: usize| #[trigger] fwd.contains_key(i) <==> i < p.code@.len() && p.code@[
        i as int] == Operator::JumpIfZero by {
        if i < p.code@.len() {
            assert(b[i as int] == p.code@[i as int].bracket());
        }
        if i < p.code@.len() && p.code@[i as int] == Operator::JumpIfZero {
            assert(loop_ends(b).contains_key(i as int));
        }
    }
    assert forall|j: usize| #[trigger] bwd.contains_key(j) <==> j < p.code@.len() && p.code@[
        j as int] == Operator::JumpIfNonZero by {
        if j < p.code@.len() {
            assert(b[j as int] == p.code@[j as int].bracket());
        }
        if j < p.code@.len() && p.code@[j as int] == Operator::JumpIfNonZero {
            assert(loop_starts(b).contains_key(j as int));
        }
    }
    assert forall|i: usize| #[trigger] fwd.contains_key(i) implies ({
        let j = fwd[i];
        &&& i < j < p.code@.len()
        &&& p.code@[j as int] == Operator::JumpIfNonZero
        &&& bwd.contains_key(j)
        &&& bwd[j] == i
    }) by {
        let j = fwd[i];
        assert(loop_ends(b).contains_key(i as int));
        assert(loop_starts(b).contains_key(j as int));
        assert(b[j as int] == p.code@[j as int].bracket());
    }
    assert forall|j: usize| #[trigger] bwd.contains_key(j) implies ({
        let i = bwd[j];
        &&& i < j
        &&& p.code@[i as int] == Operator::JumpIfZero
        &&& fwd.contains_key(i)
        &&& fwd[i] == j
    }) by {
        let i = bwd[j];
        assert(loop_starts(b).contains_key(j as int));
        assert(loop_ends(b).contains_key(i as int));
        assert(b[i as int] == p.code@[i as int].bracket());
    }
}

} // verus!
