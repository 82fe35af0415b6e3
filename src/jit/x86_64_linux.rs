//! x86-64 Linux backend. The tape pointer lives in `%rdi` (the first argument
//! register of the System V ABI) for the whole run.
use vstd::prelude::*;
use crate::brackets::balanced;
use crate::ir::{
    code_size, fuse, insn_size, ir_brackets, lemma_lowering_keeps_balance, lower_all, offset_of,
    resolve, spans_fit, IRInsn, Isa, ResolveError, IR,
};
use crate::program::Program;
use crate::Eval;
use crate::jit::{le32, push_all, push_word};

verus! {

/// `movb $0, (%rdi)`, then `read(0, %rdi, 1)` with `%rdi` saved across the
/// syscall, so that end of input leaves a zero in the cell.
pub open spec fn getchar_code() -> Seq<u8> {
    seq![
        0xc6u8, 0x07, 0x00,
        0x57,
        0x48, 0xc7, 0xc0, 0x00, 0x00, 0x00, 0x00,
        0x48, 0x89, 0xfe,
        0x48, 0xc7, 0xc7, 0x00, 0x00, 0x00, 0x00,
        0x48, 0xc7, 0xc2, 0x01, 0x00, 0x00, 0x00,
        0x0f, 0x05,
        0x5f,
    ]
}

/// `write(1, %rdi, 1)` with `%rdi` saved across the syscall.
pub open spec fn putchar_code() -> Seq<u8> {
    seq![
        0x57u8,
        0x48, 0xc7, 0xc0, 0x01, 0x00, 0x00, 0x00,
        0x48, 0x89, 0xfe,
        0x48, 0xc7, 0xc7, 0x01, 0x00, 0x00, 0x00,
        0x48, 0xc7, 0xc2, 0x01, 0x00, 0x00, 0x00,
        0x0f, 0x05,
        0x5f,
    ]
}

/// The machine code of one instruction.
pub open spec fn encoding(insn: IRInsn) -> Seq<u8> {
    match insn {
        IRInsn::IncVal(n) => seq![0x80u8, 0x07, n],
        IRInsn::DecVal(n) => seq![0x80u8, 0x2f, n],
        IRInsn::IncPtr(n) => seq![0x48u8, 0x81, 0xc7] + le32(n),
        IRInsn::DecPtr(n) => seq![0x48u8, 0x81, 0xef] + le32(n),
        IRInsn::JumpIfZero(off) => seq![0x8au8, 0x07, 0x84, 0xc0, 0x0f, 0x84] + le32(off as u32),
        IRInsn::JumpIfNonZero(off) => seq![0x8au8, 0x07, 0x84, 0xc0, 0x0f, 0x85] + le32(
            off as u32,
        ),
        IRInsn::GetChar => getchar_code(),
        IRInsn::PutChar => putchar_code(),
    }
}

/// The machine code of a sequence of instructions, in order.
pub open spec fn encoded(s: Seq<IRInsn>) -> Seq<u8>
    decreases s.len(),
{
    if s.len() == 0 {
        Seq::empty()
    } else {
        encoded(s.drop_last()) + encoding(s.last())
    }
}

/// `ret`.
pub open spec fn ret_code() -> Seq<u8> {
    seq![0xc3u8]
}

/// Appends the machine code of `insn` to `code`.
pub fn emit(insn: IRInsn, code: &mut Vec<u8>)
    ensures
        final(code)@ == old(code)@ + encoding(insn),
{
    match insn {
        IRInsn::IncVal(n) => {
            push_all(code, &[0x80, 0x07, n]);
        },
        IRInsn::DecVal(n) => {
            push_all(code, &[0x80, 0x2f, n]);
        },
        IRInsn::IncPtr(n) => {
            push_all(code, &[0x48, 0x81, 0xc7]);
            push_word(code, n);
        },
        IRInsn::DecPtr(n) => {
            push_all(code, &[0x48, 0x81, 0xef]);
            push_word(code, n);
        },
        IRInsn::JumpIfZero(off) => {
            push_all(code, &[0x8a, 0x07, 0x84, 0xc0, 0x0f, 0x84]);
            push_word(code, off as u32);
        },
        IRInsn::JumpIfNonZero(off) => {
            push_all(code, &[0x8a, 0x07, 0x84, 0xc0, 0x0f, 0x85]);
            push_word(code, off as u32);
        },
        IRInsn::GetChar => {
            push_all(
                code,
                &[
                    0xc6, 0x07, 0x00,
                    0x57,
                    0x48, 0xc7, 0xc0, 0x00, 0x00, 0x00, 0x00,
                    0x48, 0x89, 0xfe,
                    0x48, 0xc7, 0xc7, 0x00, 0x00, 0x00, 0x00,
                    0x48, 0xc7, 0xc2, 0x01, 0x00, 0x00, 0x00,
                    0x0f, 0x05,
                    0x5f,
                ],
            );
        },
        IRInsn::PutChar => {
            push_all(
                code,
                &[
                    0x57,
                    0x48, 0xc7, 0xc0, 0x01, 0x00, 0x00, 0x00,
                    0x48, 0x89, 0xfe,
                    0x48, 0xc7, 0xc7, 0x01, 0x00, 0x00, 0x00,
                    0x48, 0xc7, 0xc2, 0x01, 0x00, 0x00, 0x00,
                    0x0f, 0x05,
                    0x5f,
                ],
            );
        },
    }
}

/// The x86-64 backend.
pub struct Jit;

impl Jit {
    /// The machine code of a whole function: every instruction in order, then
    /// `ret`.
    pub fn compile(ir: &IR) -> (r: Vec<u8>)
        ensures
            r@ == encoded(ir.0@) + ret_code(),
    {
        let mut code: Vec<u8> = Vec::new();
        let mut i: usize = 0;
        while i < ir.0.len()
            invariant
                i <= ir.0@.len(),
                code@ == encoded(ir.0@.take(i as int)),
            decreases ir.0.len() - i,
        {
            emit(ir.0[i], &mut code);
            assert(ir.0@.take(i + 1).drop_last() =~= ir.0@.take(i as int));
            i += 1;
        }
        assert(ir.0@.take(i as int) =~= ir.0@);
        push_all(&mut code, &[0xc3]);
        code
    }

    /// Lowers, fuses, resolves and compiles a program.
    pub fn compile_program(program: &Program) -> (r: Result<Vec<u8>, ResolveError>)
        ensures
            program.wf() ==> !(r matches Err(ResolveError::UnbalancedBranches)),
            ({
                let s = fuse(lower_all(program.code@));
                match r {
                    Ok(code) => balanced(ir_brackets(s)) && spans_fit(s, Isa::X86_64) && code@
                        == encoded(resolve(s, Isa::X86_64)) + ret_code(),
                    Err(ResolveError::UnbalancedBranches) => !balanced(ir_brackets(s)),
                    Err(ResolveError::BranchOutOfRange) => balanced(ir_brackets(s)) && !spans_fit(
                        s,
                        Isa::X86_64,
                    ),
                }
            }),
    {
        proof {
            lemma_lowering_keeps_balance(program.code@);
        }
        let mut ir = IR::from_program(program);
        match ir.backpatch_jumps(Isa::X86_64) {
            Ok(()) => Ok(Jit::compile(&ir)),
            Err(e) => Err(e),
        }
    }
}

impl Eval for Jit {
    /// The machine code of the program, ready to be installed and called.
    type Output = Vec<u8>;

    fn eval_source(src: Program) -> (r: Result<Vec<u8>, ()>)
        ensures
            ({
                let s = fuse(lower_all(src.code@));
                &&& r is Ok <==> balanced(ir_brackets(s)) && spans_fit(s, Isa::X86_64)
                &&& r matches Ok(code) ==> code@ == encoded(resolve(s, Isa::X86_64)) + ret_code()
            }),
    {
        match Jit::compile_program(&src) {
            Ok(code) => Ok(code),
            Err(_) => Err(()),
        }
    }

    fn eval_ir(ir: IR) -> (r: Result<Vec<u8>, ()>)
        ensures
            r matches Ok(code) && code@ == encoded(ir.0@) + ret_code(),
    {
        Ok(Jit::compile(&ir))
    }
}

/// Each instruction's code is exactly as long as the size the branch
/// resolver counts for it.
pub proof fn lemma_encoding_size(insn: IRInsn)
    ensures
        encoding(insn).len() == insn_size(insn, Isa::X86_64),
{
}

/// The code of a sequence is exactly as long as the resolver's total.
pub proof fn lemma_encoded_size(s: Seq<IRInsn>)
    ensures
        encoded(s).len() == code_size(s, Isa::X86_64),
    decreases s.len(),
{
    if s.len() > 0 {
        lemma_encoded_size(s.drop_last());
    }
}

proof fn lemma_encoded_append(a: Seq<IRInsn>, b: Seq<IRInsn>)
    ensures
        encoded(a + b) == encoded(a) + encoded(b),
    decreases b.len(),
{
    if b.len() > 0 {
        lemma_encoded_append(a, b.drop_last());
        assert((a + b).drop_last() =~= a + b.drop_last());
    }
}

/// The code of instruction `k` is found in the code of the whole sequence
/// exactly at the byte offset the branch resolver computes for it.
pub proof fn lemma_encoding_placed(s: Seq<IRInsn>, k: int)
    requires
        0 <= k < s.len(),
    ensures
        offset_of(s, k + 1, Isa::X86_64) <= encoded(s).len(),
        encoded(s).subrange(
            offset_of(s, k, Isa::X86_64) as int,
            offset_of(s, k + 1, Isa::X86_64) as int,
        ) == encoding(s[k]),
{
    let pre = s.take(k);
    let rest = s.skip(k + 1);
    assert(s =~= pre + seq![s[k]] + rest);
    assert(s.take(k + 1) =~= pre + seq![s[k]]);
    lemma_encoded_append(pre + seq![s[k]], rest);
    lemma_encoded_append(pre, seq![s[k]]);
    assert(seq![s[k]].drop_last() =~= Seq::<IRInsn>::empty());
    assert(encoded(Seq::<IRInsn>::empty()) == Seq::<u8>::empty());
    assert(seq![s[k]].last() == s[k]);
    assert(encoded(seq![s[k]]) =~= encoding(s[k]));
    let e = encoded(s);
    assert(e =~= encoded(pre) + encoding(s[k]) + encoded(rest));
    lemma_encoded_size(pre);
    lemma_encoded_size(s.take(k + 1));
    lemma_encoding_size(s[k]);
    assert(encoded(s).subrange(
        offset_of(s, k, Isa::X86_64) as int,
        offset_of(s, k + 1, Isa::X86_64) as int,
    ) =~= encoding(s[k]));
}

} // verus!
