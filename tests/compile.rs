use bfjit::ir::{Collapse, CollapseIR, IRInsn, Isa, ResolveError, IR};
use bfjit::jit::riscv64_linux::{self, encode_b_format_immediate_offset, CompileError, EmitError};
use bfjit::jit::x86_64_linux;
use bfjit::program::{Operator, Program};
use bfjit::Eval;

fn ir_of(source: &str) -> IR {
    IR::from_program(&Program::new(source).unwrap())
}

#[test]
fn runs_are_fused() {
    let ir = ir_of("++++++[>++++++++<-]>+.");
    assert_eq!(
        ir.0,
        vec![
            IRInsn::IncVal(6),
            IRInsn::JumpIfZero(0),
            IRInsn::IncPtr(1),
            IRInsn::IncVal(8),
            IRInsn::DecPtr(1),
            IRInsn::DecVal(1),
            IRInsn::JumpIfNonZero(0),
            IRInsn::IncPtr(1),
            IRInsn::IncVal(1),
            IRInsn::PutChar,
        ]
    );
}

#[test]
fn io_and_branches_are_never_fused() {
    let ir = ir_of("..,,[[]]");
    assert_eq!(
        ir.0,
        vec![
            IRInsn::PutChar,
            IRInsn::PutChar,
            IRInsn::GetChar,
            IRInsn::GetChar,
            IRInsn::JumpIfZero(0),
            IRInsn::JumpIfZero(0),
            IRInsn::JumpIfNonZero(0),
            IRInsn::JumpIfNonZero(0),
        ]
    );
}

#[test]
fn fused_neighbours_differ_in_kind() {
    let ir = ir_of("+++---+>>><<<>-.+,,<<");
    for pair in ir.0.windows(2) {
        let same = std::mem::discriminant(&pair[0]) == std::mem::discriminant(&pair[1]);
        assert!(!(same && pair[0].is_collapsible()));
    }
    assert_eq!(ir.0[0], IRInsn::IncVal(3));
    assert_eq!(ir.0[1], IRInsn::DecVal(3));
}

#[test]
fn value_counts_wrap() {
    assert_eq!(ir_of(&"+".repeat(257)).0, vec![IRInsn::IncVal(1)]);
    assert_eq!(ir_of(&"-".repeat(256)).0, vec![IRInsn::DecVal(0)]);
}

#[test]
fn pointer_counts_saturate() {
    let mut a = IRInsn::IncPtr(u32::MAX - 1);
    a.collapse_with(IRInsn::IncPtr(5));
    assert_eq!(a, IRInsn::IncPtr(u32::MAX));
    let mut b = IRInsn::DecPtr(3);
    b.collapse_with(IRInsn::DecPtr(4));
    assert_eq!(b, IRInsn::DecPtr(7));
    let mut c = IRInsn::IncVal(200);
    c.collapse_with(IRInsn::IncVal(100));
    assert_eq!(c, IRInsn::IncVal(44));
}

#[test]
fn collapse_of_a_vector() {
    let v = vec![IRInsn::IncPtr(2), IRInsn::IncPtr(3), IRInsn::PutChar, IRInsn::IncPtr(1)];
    let fused = v.collapse().into_vec();
    assert_eq!(fused, vec![IRInsn::IncPtr(5), IRInsn::PutChar, IRInsn::IncPtr(1)]);
    let mut c = Collapse::new();
    c.push(IRInsn::DecVal(1));
    c.push(IRInsn::DecVal(1));
    c.push(IRInsn::IncVal(1));
    assert_eq!(c.into_vec(), vec![IRInsn::DecVal(2), IRInsn::IncVal(1)]);
}

#[test]
fn lowering_of_each_operator() {
    assert_eq!(IRInsn::from(Operator::IncrementPtr), IRInsn::IncPtr(1));
    assert_eq!(IRInsn::from(Operator::DecrementPtr), IRInsn::DecPtr(1));
    assert_eq!(IRInsn::from(Operator::IncrementValue), IRInsn::IncVal(1));
    assert_eq!(IRInsn::from(Operator::DecrementValue), IRInsn::DecVal(1));
    assert_eq!(IRInsn::from(Operator::JumpIfZero), IRInsn::JumpIfZero(0));
    assert_eq!(IRInsn::from(Operator::JumpIfNonZero), IRInsn::JumpIfNonZero(0));
    assert_eq!(IRInsn::from(Operator::GetChar), IRInsn::GetChar);
    assert_eq!(IRInsn::from(Operator::PutChar), IRInsn::PutChar);
    assert_eq!(Operator::try_from(b'x'), Err(()));
    assert_eq!(Operator::try_from(b'['), Ok(Operator::JumpIfZero));
}

#[test]
fn sizes_per_isa() {
    let all = [
        IRInsn::IncVal(1),
        IRInsn::DecVal(1),
        IRInsn::IncPtr(1),
        IRInsn::DecPtr(1),
        IRInsn::JumpIfZero(0),
        IRInsn::JumpIfNonZero(0),
        IRInsn::GetChar,
        IRInsn::PutChar,
    ];
    let x86: Vec<u8> = all.iter().map(|i| i.machine_code_size(Isa::X86_64)).collect();
    assert_eq!(x86, vec![3, 3, 7, 7, 10, 10, 31, 28]);
    let rv: Vec<u8> = all.iter().map(|i| i.machine_code_size(Isa::Riscv64)).collect();
    assert_eq!(rv, vec![12, 12, 4, 4, 8, 8, 32, 28]);
    for insn in all.iter() {
        let one = IR(vec![*insn]);
        assert_eq!(
            x86_64_linux::Jit::compile(&one).len(),
            insn.machine_code_size(Isa::X86_64) as usize + 1
        );
        assert_eq!(
            riscv64_linux::Jit::compile(&one).unwrap().len(),
            insn.machine_code_size(Isa::Riscv64) as usize + 4
        );
    }
}

#[test]
fn backpatch_sets_offsets_x86() {
    let mut ir = ir_of("++++++[>++++++++<-]>+.");
    ir.backpatch_jumps(Isa::X86_64).unwrap();
    assert_eq!(ir.0[1], IRInsn::JumpIfZero(30));
    assert_eq!(ir.0[6], IRInsn::JumpIfNonZero(-30));
}

#[test]
fn backpatch_sets_offsets_riscv() {
    let mut ir = ir_of("++++++[>++++++++<-]>+.");
    ir.backpatch_jumps(Isa::Riscv64).unwrap();
    assert_eq!(ir.0[1], IRInsn::JumpIfZero(40));
    assert_eq!(ir.0[6], IRInsn::JumpIfNonZero(-40));
}

#[test]
fn backpatch_nested_loops() {
    let mut ir = ir_of("[>[+]<]");
    ir.backpatch_jumps(Isa::X86_64).unwrap();
    assert_eq!(
        ir.0,
        vec![
            IRInsn::JumpIfZero(47),
            IRInsn::IncPtr(1),
            IRInsn::JumpIfZero(13),
            IRInsn::IncVal(1),
            IRInsn::JumpIfNonZero(-13),
            IRInsn::DecPtr(1),
            IRInsn::JumpIfNonZero(-47),
        ]
    );
}

#[test]
fn branch_lands_after_matching_end() {
    let mut ir = ir_of("+[>+<-].");
    ir.backpatch_jumps(Isa::X86_64).unwrap();
    let offsets: Vec<i64> = {
        let mut acc = 0i64;
        let mut v = Vec::new();
        for insn in ir.0.iter() {
            v.push(acc);
            acc += insn.machine_code_size(Isa::X86_64) as i64;
        }
        v.push(acc);
        v
    };
    let (open, close) = (1usize, 6usize);
    if let IRInsn::JumpIfZero(off) = ir.0[open] {
        assert_eq!(offsets[open] + 10 + off as i64, offsets[close + 1]);
    } else {
        panic!("expected a loop start");
    }
    if let IRInsn::JumpIfNonZero(off) = ir.0[close] {
        assert_eq!(offsets[close] + 10 + off as i64, offsets[open + 1]);
    } else {
        panic!("expected a loop end");
    }
}

#[test]
fn backpatch_rejects_unbalanced() {
    let mut ir = IR(vec![IRInsn::JumpIfZero(0), IRInsn::PutChar]);
    assert_eq!(ir.backpatch_jumps(Isa::X86_64), Err(ResolveError::UnbalancedBranches));
    assert_eq!(ir.0, vec![IRInsn::JumpIfZero(0), IRInsn::PutChar]);
    let mut ir = IR(vec![IRInsn::JumpIfNonZero(0)]);
    assert_eq!(ir.backpatch_jumps(Isa::Riscv64), Err(ResolveError::UnbalancedBranches));
}

#[test]
fn backpatch_rejects_long_riscv_loop() {
    let mut body = vec![IRInsn::JumpIfZero(0)];
    body.extend(std::iter::repeat(IRInsn::PutChar).take(150));
    body.push(IRInsn::JumpIfNonZero(0));
    let mut ir = IR(body.clone());
    assert_eq!(ir.backpatch_jumps(Isa::Riscv64), Err(ResolveError::BranchOutOfRange));
    assert_eq!(ir.0, body);
    let mut ir = IR(body);
    assert_eq!(ir.backpatch_jumps(Isa::X86_64), Ok(()));
    assert_eq!(ir.0[0], IRInsn::JumpIfZero(10 + 150 * 28));
}

#[test]
fn x86_encodings() {
    let ir = IR(vec![
        IRInsn::IncVal(7),
        IRInsn::DecVal(2),
        IRInsn::IncPtr(0x01020304),
        IRInsn::DecPtr(5),
        IRInsn::JumpIfZero(-2),
    ]);
    assert_eq!(
        x86_64_linux::Jit::compile(&ir),
        vec![
            0x80, 0x07, 7, //
            0x80, 0x2f, 2, //
            0x48, 0x81, 0xc7, 0x04, 0x03, 0x02, 0x01, //
            0x48, 0x81, 0xef, 5, 0, 0, 0, //
            0x8a, 0x07, 0x84, 0xc0, 0x0f, 0x84, 0xfe, 0xff, 0xff, 0xff, //
            0xc3,
        ]
    );
}

#[test]
fn x86_io_encodings() {
    let code = x86_64_linux::Jit::compile(&IR(vec![IRInsn::PutChar, IRInsn::GetChar]));
    assert_eq!(code[0], 0x57);
    assert_eq!(&code[25..27], &[0x0f, 0x05]);
    assert_eq!(code[28], 0xc6);
    assert_eq!(code[code.len() - 2], 0x5f);
    assert_eq!(code.len(), 28 + 31 + 1);
}

#[test]
fn x86_compile_program() {
    let p = Program::new("++++++[>++++++++<-]>+.").unwrap();
    let code = x86_64_linux::Jit::compile_program(&p).unwrap();
    assert_eq!(code.len(), 3 + 10 + 7 + 3 + 7 + 3 + 10 + 7 + 3 + 28 + 1);
    assert_eq!(&code[3..13], &[0x8a, 0x07, 0x84, 0xc0, 0x0f, 0x84, 30, 0, 0, 0]);
    let same = <x86_64_linux::Jit as Eval>::eval_source(Program::new("++++++[>++++++++<-]>+.").unwrap());
    assert_eq!(same, Ok(code));
}

#[test]
fn riscv_encodings() {
    let ir = IR(vec![IRInsn::IncVal(1), IRInsn::DecPtr(1), IRInsn::IncPtr(2047)]);
    let code = riscv64_linux::Jit::compile(&ir).unwrap();
    assert_eq!(
        code,
        vec![
            0x83, 0x02, 0x05, 0x00, // lb t0, 0(a0)
            0x93, 0x82, 0x12, 0x00, // addi t0, t0, 1
            0x23, 0x00, 0x55, 0x00, // sb t0, 0(a0)
            0x13, 0x05, 0xf5, 0xff, // addi a0, a0, -1
            0x13, 0x05, 0xf5, 0x7f, // addi a0, a0, 2047
            0x67, 0x80, 0x00, 0x00, // ret
        ]
    );
}

#[test]
fn riscv_dec_val_uses_negative_immediate() {
    let code = riscv64_linux::Jit::compile(&IR(vec![IRInsn::DecVal(1)])).unwrap();
    // addi t0, t0, -1
    assert_eq!(&code[4..8], &[0x93, 0x82, 0xf2, 0xff]);
}

#[test]
fn riscv_branch_encodings() {
    let mut w = 0x00028063u32;
    encode_b_format_immediate_offset(&mut w, 8);
    assert_eq!(w, 0x00028463);
    let mut w = 0x00028063u32;
    encode_b_format_immediate_offset(&mut w, -8);
    assert_eq!(w, 0xfe028ce3);
    let mut w = 0x00029063u32;
    encode_b_format_immediate_offset(&mut w, 4094);
    assert_eq!(w, 0x7e029fe3);
    let mut w = 0x00028063u32;
    encode_b_format_immediate_offset(&mut w, -4096);
    assert_eq!(w, 0x80028063);
}

#[test]
fn riscv_rejects_large_pointer_step() {
    let ir = IR(vec![IRInsn::PutChar, IRInsn::IncPtr(2048)]);
    assert_eq!(riscv64_linux::Jit::compile(&ir), Err(EmitError::PtrCountOverflow));
    let p = Program::new(&">".repeat(3000)).unwrap();
    assert_eq!(
        riscv64_linux::Jit::compile_program(&p),
        Err(CompileError::Emit(EmitError::PtrCountOverflow))
    );
}

#[test]
fn riscv_rejects_odd_branch() {
    let ir = IR(vec![IRInsn::JumpIfZero(3)]);
    assert_eq!(riscv64_linux::Jit::compile(&ir), Err(EmitError::BranchOutOfRange));
    let ir = IR(vec![IRInsn::JumpIfNonZero(-4098)]);
    assert_eq!(riscv64_linux::Jit::compile(&ir), Err(EmitError::BranchOutOfRange));
}

#[test]
fn riscv_compile_program() {
    let p = Program::new("+[-]").unwrap();
    let code = riscv64_linux::Jit::compile_program(&p).unwrap();
    // beqz t0, +20 after the first lb; bnez t0, -20 after the second
    assert_eq!(&code[16..20], &[0x63, 0x8a, 0x02, 0x00]);
    assert_eq!(&code[36..40], &[0xe3, 0x96, 0x02, 0xfe]);
    assert_eq!(code.len(), 12 + 8 + 12 + 8 + 4);
    let unbalanced = IR(vec![IRInsn::JumpIfZero(0)]);
    assert!(<riscv64_linux::Jit as Eval>::eval_ir(unbalanced).is_ok());
}
