//! RISC-V 64 Linux backend. The tape pointer lives in `a0` for the whole run;
//! `t0` holds the current cell while it is worked on.
use vstd::prelude::*;
use crate::brackets::balanced;
use crate::ir::{
    code_size, fuse, insn_size, ir_brackets, lemma_lowering_keeps_balance, lower_all, offset_of,
    resolve, spans_fit, IRInsn, Isa, ResolveError, IR,
};
use crate::program::Program;
use crate::Eval;
use crate::jit::{le32, push_word};

verus! {

/// `lb t0, 0(a0)`
pub const LB_T0: u32 = 0x00050283;

/// `sb t0, 0(a0)`
pub const SB_T0: u32 = 0x00550023;

/// `sb zero, 0(a0)`
pub const SB_ZERO: u32 = 0x00050023;

/// `addi t0, t0, 0`
pub const ADDI_T0: u32 = 0x00028293;

/// `addi a0, a0, 0`
pub const ADDI_A0: u32 = 0x00050513;

/// `beq t0, zero, 0`
pub const BEQZ_T0: u32 = 0x00028063;

/// `bne t0, zero, 0`
pub const BNEZ_T0: u32 = 0x00029063;

/// `sd a0, -8(sp)`
pub const SAVE_A0: u32 = 0xfea13c23;

/// `addi a1, a0, 0`
pub const MV_A1_A0: u32 = 0x00050593;

/// `addi a0, zero, 0`
pub const LI_A0_STDIN: u32 = 0x00000513;

/// `addi a0, zero, 1`
pub const LI_A0_STDOUT: u32 = 0x00100513;

/// `addi a2, zero, 1`
pub const LI_A2_ONE: u32 = 0x00100613;

/// `addi a7, zero, 63` (read)
pub const LI_A7_READ: u32 = 0x03f00893;

/// `addi a7, zero, 64` (write)
pub const LI_A7_WRITE: u32 = 0x04000893;

/// `ecall`
pub const ECALL: u32 = 0x00000073;

/// `ld a0, -8(sp)`
pub const RESTORE_A0: u32 = 0xff813503;

/// `jalr zero, 0(ra)`
pub const RET: u32 = 0x00008067;

/// Largest pointer step one `addi` can carry.
pub const MAX_PTR_STEP: u32 = 2047;

/// An I-type immediate of 12 bits placed in bits 31..20.
pub open spec fn imm12(v: u32) -> u32 {
    (v & 0xfff) << 20u32
}

/// The bits of a B-format instruction that hold a branch offset:
/// imm[12] in bit 31, imm[10:5] in bits 30..25, imm[4:1] in bits 11..8 and
/// imm[11] in bit 7.
pub open spec fn b_imm(offset: i32) -> u32 {
    let u = offset as u32;
    (((u >> 12u32) & 1) << 31u32) | (((u >> 5u32) & 0x3f) << 25u32) | (((u >> 1u32) & 0xf) << 8u32)
        | (((u >> 11u32) & 1) << 7u32)
}

/// Puts `offset` into the immediate fields of a B-format instruction.
pub fn encode_b_format_immediate_offset(b_format_insn: &mut u32, offset: i32)
    requires
        -4096 <= offset <= 4094,
        offset % 2 == 0,
    ensures
        *final(b_format_insn) == *old(b_format_insn) | b_imm(offset),
{
    let u = offset as u32;
    let bits = (((u >> 12u32) & 1) << 31u32) | (((u >> 5u32) & 0x3f) << 25u32) | (((u >> 1u32)
        & 0xf) << 8u32) | (((u >> 11u32) & 1) << 7u32);
    *b_format_insn = *b_format_insn | bits;
}

/// The branch offset that a B-format instruction carries: its immediate
/// fields gathered and sign-extended from 13 bits.
pub open spec fn b_offset(w: u32) -> i32 {
    let imm: u32 = (((w >> 31u32) & 1) << 12u32) | (((w >> 7u32) & 1) << 11u32) | (((w >> 25u32)
        & 0x3f) << 5u32) | (((w >> 8u32) & 0xf) << 1u32);
    if imm & 0x1000 != 0 {
        (imm | 0xffffe000) as i32
    } else {
        imm as i32
    }
}

/// An offset put into a branch whose immediate fields are clear reads back
/// unchanged.
pub proof fn lemma_b_format_round_trip(w: u32, offset: i32)
    requires
        -4096 <= offset <= 4094,
        offset % 2 == 0,
        w & 0xfe000f80 == 0,
    ensures
        b_offset(w | b_imm(offset)) == offset,
{
    assert(offset & 1 == 0) by (bit_vector)
        requires
            offset % 2 == 0,
    ;
    assert(b_offset(w | b_imm(offset)) == offset) by (bit_vector)
        requires
            -4096 <= offset <= 4094,
            offset & 1 == 0,
            w & 0xfe000f80 == 0,
    ;
}

/// The two's complement negation of `n`, as 12 immediate bits.
pub open spec fn neg12(n: u32) -> u32 {
    ((4096 - n % 4096) % 4096) as u32
}

/// Whether an instruction has an encoding: a pointer step fits one `addi`
/// and a branch offset is even and fits the B format.
pub open spec fn encodable(insn: IRInsn) -> bool {
    match insn {
        IRInsn::IncPtr(n) | IRInsn::DecPtr(n) => n <= MAX_PTR_STEP,
        IRInsn::JumpIfZero(off) | IRInsn::JumpIfNonZero(off) => -4096 <= off <= 4094 && off % 2
            == 0,
        _ => true,
    }
}

pub open spec fn getchar_code() -> Seq<u8> {
    le32(SB_ZERO) + le32(SAVE_A0) + le32(MV_A1_A0) + le32(LI_A0_STDIN) + le32(LI_A2_ONE) + le32(
        LI_A7_READ,
    ) + le32(ECALL) + le32(RESTORE_A0)
}

pub open spec fn putchar_code() -> Seq<u8> {
    le32(SAVE_A0) + le32(MV_A1_A0) + le32(LI_A0_STDOUT) + le32(LI_A2_ONE) + le32(LI_A7_WRITE)
        + le32(ECALL) + le32(RESTORE_A0)
}

/// The machine code of one encodable instruction.
pub open spec fn encoding(insn: IRInsn) -> Seq<u8> {
    match insn {
        IRInsn::IncVal(n) => le32(LB_T0) + le32(ADDI_T0 | imm12(n as u32)) + le32(SB_T0),
        IRInsn::DecVal(n) => le32(LB_T0) + le32(ADDI_T0 | imm12(neg12(n as u32))) + le32(SB_T0),
        IRInsn::IncPtr(n) => le32(ADDI_A0 | imm12(n)),
        IRInsn::DecPtr(n) => le32(ADDI_A0 | imm12(neg12(n))),
        IRInsn::JumpIfZero(off) => le32(LB_T0) + le32(BEQZ_T0 | b_imm(off)),
        IRInsn::JumpIfNonZero(off) => le32(LB_T0) + le32(BNEZ_T0 | b_imm(off)),
        IRInsn::GetChar => getchar_code(),
        IRInsn::PutChar => putchar_code(),
    }
}

/// The machine code of a sequence of instructions, in order.
pub open spec fn encoded(s: Seq<IRInsn>) -> Seq<u8>
    decreases s.len(),
{
    if s.len() == 0 {
        Seq::empty()
    } else {
        encoded(s.drop_last()) + encoding(s.last())
    }
}

/// Why an instruction has no RISC-V encoding.
#[derive(Copy, Clone, Debug, PartialEq, Eq, Structural)]
pub enum EmitError {
    PtrCountOverflow,
    BranchOutOfRange,
}

/// Why a program could not be compiled.
#[derive(Copy, Clone, Debug, PartialEq, Eq, Structural)]
pub enum CompileError {
    Resolve(ResolveError),
    Emit(EmitError),
}

/// The error an instruction without an encoding gives.
pub open spec fn emit_error(insn: IRInsn) -> EmitError {
    match insn {
        IRInsn::IncPtr(_) | IRInsn::DecPtr(_) => EmitError::PtrCountOverflow,
        _ => EmitError::BranchOutOfRange,
    }
}

fn negate12(n: u32) -> (r: u32)
    ensures
        r == neg12(n),
{
    let m = n % 4096;
    (4096 - m) % 4096
}

/// Appends the machine code of `insn` to `code`, or fails when it has none.
pub fn emit(insn: IRInsn, code: &mut Vec<u8>) -> (r: Result<(), EmitError>)
    ensures
        r is Ok <==> encodable(insn),
        r is Ok ==> final(code)@ == old(code)@ + encoding(insn),
        r matches Err(e) ==> e == emit_error(insn) && final(code)@ == old(code)@,
{
    match insn {
        IRInsn::IncVal(n) => {
            push_word(code, LB_T0);
            push_word(code, ADDI_T0 | ((n as u32 & 0xfff) << 20u32));
            push_word(code, SB_T0);
        },
        IRInsn::DecVal(n) => {
            push_word(code, LB_T0);
            push_word(code, ADDI_T0 | ((negate12(n as u32) & 0xfff) << 20u32));
            push_word(code, SB_T0);
        },
        IRInsn::IncPtr(n) => {
            if n > MAX_PTR_STEP {
                return Err(EmitError::PtrCountOverflow);
            }
            push_word(code, ADDI_A0 | ((n & 0xfff) << 20u32));
        },
        IRInsn::DecPtr(n) => {
            if n > MAX_PTR_STEP {
                return Err(EmitError::PtrCountOverflow);
            }
            push_word(code, ADDI_A0 | ((negate12(n) & 0xfff) << 20u32));
        },
        IRInsn::JumpIfZero(off) => {
            if off < -4096 || off > 4094 || off % 2 != 0 {
                return Err(EmitError::BranchOutOfRange);
            }
            let mut word = BEQZ_T0;
            encode_b_format_immediate_offset(&mut word, off);
            push_word(code, LB_T0);
            push_word(code, word);
        },
        IRInsn::JumpIfNonZero(off) => {
            if off < -4096 || off > 4094 || off % 2 != 0 {
                return Err(EmitError::BranchOutOfRange);
            }
            let mut word = BNEZ_T0;
            encode_b_format_immediate_offset(&mut word, off);
            push_word(code, LB_T0);
            push_word(code, word);
        },
        IRInsn::GetChar => {
            push_word(code, SB_ZERO);
            push_word(code, SAVE_A0);
            push_word(code, MV_A1_A0);
            push_word(code, LI_A0_STDIN);
            push_word(code, LI_A2_ONE);
            push_word(code, LI_A7_READ);
            push_word(code, ECALL);
            push_word(code, RESTORE_A0);
        },
        IRInsn::PutChar => {
            push_word(code, SAVE_A0);
            push_word(code, MV_A1_A0);
            push_word(code, LI_A0_STDOUT);
            push_word(code, LI_A2_ONE);
            push_word(code, LI_A7_WRITE);
            push_word(code, ECALL);
            push_word(code, RESTORE_A0);
        },
    }
    Ok(())
}

/// The RISC-V 64 backend.
pub struct Jit;

impl Jit {
    /// The machine code of a whole function: every instruction in order, then
    /// `ret`. Fails, with the error of the first instruction that has no
    /// encoding, exactly when there is one.
    pub fn compile(ir: &IR) -> (r: Result<Vec<u8>, EmitError>)
        ensures
            r is Ok <==> forall|k: int| 0 <= k < ir.0@.len() ==> encodable(#[trigger] ir.0@[k]),
            r matches Ok(code) ==> code@ == encoded(ir.0@) + le32(RET),
            r matches Err(e) ==> exists|k: int|
                {
                    &&& 0 <= k < ir.0@.len()
                    &&& !encodable(#[trigger] ir.0@[k])
                    &&& e == emit_error(ir.0@[k])
                    &&& forall|m: int| 0 <= m < k ==> encodable(#[trigger] ir.0@[m])
                },
    {
        let mut code: Vec<u8> = Vec::new();
        let mut i: usize = 0;
        while i < ir.0.len()
            invariant
                i <= ir.0@.len(),
                code@ == encoded(ir.0@.take(i as int)),
                forall|k: int| 0 <= k < i ==> encodable(#[trigger] ir.0@[k]),
            decreases ir.0.len() - i,
        {
            match emit(ir.0[i], &mut code) {
                Ok(()) => {},
                Err(e) => {
                    return Err(e);
                },
            }
            assert(ir.0@.take(i + 1).drop_last() =~= ir.0@.take(i as int));
            i += 1;
        }
        assert(ir.0@.take(i as int) =~= ir.0@);
        push_word(&mut code, RET);
        Ok(code)
    }

    /// Lowers, fuses, resolves and compiles a program.
    pub fn compile_program(program: &Program) -> (r: Result<Vec<u8>, CompileError>)
        ensures
            program.wf() ==> !(r matches Err(
                CompileError::Resolve(ResolveError::UnbalancedBranches),
            )),
            ({
                let s = fuse(lower_all(program.code@));
                let t = resolve(s, Isa::Riscv64);
                match r {
                    Ok(code) => {
                        &&& balanced(ir_brackets(s))
                        &&& spans_fit(s, Isa::Riscv64)
                        &&& forall|k: int| 0 <= k < t.len() ==> encodable(#[trigger] t[k])
                        &&& code@ == encoded(t) + le32(RET)
                    },
                    Err(CompileError::Resolve(ResolveError::UnbalancedBranches)) => !balanced(
                        ir_brackets(s),
                    ),
                    Err(CompileError::Resolve(ResolveError::BranchOutOfRange)) => balanced(
                        ir_brackets(s),
                    ) && !spans_fit(s, Isa::Riscv64),
                    Err(CompileError::Emit(e)) => {
                        &&& balanced(ir_brackets(s))
                        &&& spans_fit(s, Isa::Riscv64)
                        &&& exists|k: int|
                            0 <= k < t.len() && !encodable(#[trigger] t[k]) && e == emit_error(t[k])
                    },
                }
            }),
    {
        proof {
            lemma_lowering_keeps_balance(program.code@);
        }
        let mut ir = IR::from_program(program);
        match ir.backpatch_jumps(Isa::Riscv64) {
            Ok(()) => match Jit::compile(&ir) {
                Ok(code) => Ok(code),
                Err(e) => Err(CompileError::Emit(e)),
            },
            Err(e) => Err(CompileError::Resolve(e)),
        }
    }
}

impl Eval for Jit {
    /// The machine code of the program, ready to be installed and called.
    type Output = Vec<u8>;

    fn eval_source(src: Program) -> (r: Result<Vec<u8>, ()>)
        ensures
            ({
                let s = fuse(lower_all(src.code@));
                let t = resolve(s, Isa::Riscv64);
                &&& r is Ok <==> {
                    &&& balanced(ir_brackets(s))
                    &&& spans_fit(s, Isa::Riscv64)
                    &&& forall|k: int| 0 <= k < t.len() ==> encodable(#[trigger] t[k])
                }
                &&& r matches Ok(code) ==> code@ == encoded(t) + le32(RET)
            }),
    {
        match Jit::compile_program(&src) {
            Ok(code) => Ok(code),
            Err(_) => Err(()),
        }
    }

    fn eval_ir(ir: IR) -> (r: Result<Vec<u8>, ()>)
        ensures
            r is Ok <==> forall|k: int| 0 <= k < ir.0@.len() ==> encodable(#[trigger] ir.0@[k]),
            r matches Ok(code) ==> code@ == encoded(ir.0@) + le32(RET),
    {
        match Jit::compile(&ir) {
            Ok(code) => Ok(code),
            Err(_) => Err(()),
        }
    }
}

/// Each instruction's code is exactly as long as the size the branch
/// resolver counts for it.
pub proof fn lemma_encoding_size(insn: IRInsn)
    ensures
        encoding(insn).len() == insn_size(insn, Isa::Riscv64),
{
}

/// The code of a sequence is exactly as long as the resolver's total.
pub proof fn lemma_encoded_size(s: Seq<IRInsn>)
    ensures
        encoded(s).len() == code_size(s, Isa::Riscv64),
    decreases s.len(),
{
    if s.len() > 0 {
        lemma_encoded_size(s.drop_last());
    }
}

proof fn lemma_encoded_append(a: Seq<IRInsn>, b: Seq<IRInsn>)
    ensures
        encoded(a + b) == encoded(a) + encoded(b),
    decreases b.len(),
{
    if b.len() > 0 {
        lemma_encoded_append(a, b.drop_last());
        assert((a + b).drop_last() =~= a + b.drop_last());
    }
}

/// The code of instruction `k` is found in the code of the whole sequence
/// exactly at the byte offset the branch resolver computes for it.
pub proof fn lemma_encoding_placed(s: Seq<IRInsn>, k: int)
    requires
        0 <= k < s.len(),
    ensures
        offset_of(s, k + 1, Isa::Riscv64) <= encoded(s).len(),
        encoded(s).subrange(
            offset_of(s, k, Isa::Riscv64) as int,
            offset_of(s, k + 1, Isa::Riscv64) as int,
        ) == encoding(s[k]),
{
    let pre = s.take(k);
    let rest = s.skip(k + 1);
    assert(s =~= pre + seq![s[k]] + rest);
    assert(s.take(k + 1) =~= pre + seq![s[k]]);
    lemma_encoded_append(pre + seq![s[k]], rest);
    lemma_encoded_append(pre, seq![s[k]]);
    assert(seq![s[k]].drop_last() =~= Seq::<IRInsn>::empty());
    assert(encoded(Seq::<IRInsn>::empty()) == Seq::<u8>::empty());
    assert(seq![s[k]].last() == s[k]);
    assert(encoded(seq![s[k]]) =~= encoding(s[k]));
    let e = encoded(s);
    assert(e =~= encoded(pre) + encoding(s[k]) + encoded(rest));
    lemma_encoded_size(pre);
    lemma_encoded_size(s.take(k + 1));
    lemma_encoding_size(s[k]);
    assert(encoded(s).subrange(
        offset_of(s, k, Isa::Riscv64) as int,
        offset_of(s, k + 1, Isa::Riscv64) as int,
    ) =~= encoding(s[k]));
}

} // verus!
