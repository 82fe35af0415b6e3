use bfjit::interpreter::{Event, Interpreter, RuntimeError};
use bfjit::program::{Operator, ParseError, Program};
use bfjit::Eval;

/// How a bounded run ended.
#[derive(Debug, PartialEq)]
enum Outcome {
    Halted,
    OutOfSteps,
    Fault(RuntimeError),
}

/// Runs `source` on `input` for at most `max_steps` steps; end of input reads
/// as `None`.
fn run(source: &str, input: &[u8], max_steps: usize) -> (Vec<u8>, Outcome, Interpreter) {
    let program = Program::new(source).expect("source parses");
    let mut machine = Interpreter::new(program);
    let mut output = Vec::new();
    let mut pos = 0;
    for _ in 0..max_steps {
        match machine.step() {
            Ok(Event::Continue) => {}
            Ok(Event::NeedInput) => {
                let byte = input.get(pos).copied();
                pos += 1;
                machine.feed(byte);
            }
            Ok(Event::Output(b)) => output.push(b),
            Ok(Event::Halt) => return (output, Outcome::Halted, machine),
            Err(e) => return (output, Outcome::Fault(e), machine),
        }
    }
    (output, Outcome::OutOfSteps, machine)
}

#[test]
fn six_eights_plus_one() {
    // six passes of the loop add eight each: 6 * 8 + 1 = 49, the digit `1`
    let (out, outcome, machine) = run("++++++[>++++++++<-]>+.", b"", 100_000);
    assert_eq!(outcome, Outcome::Halted);
    assert_eq!(out, vec![49]);
    assert_eq!(machine.tape[0], 0);
}

#[test]
fn prints_capital_a() {
    let (out, outcome, _) = run("++++++++[>++++++++<-]>+.", b"", 100_000);
    assert_eq!(outcome, Outcome::Halted);
    assert_eq!(out, vec![0x41]);
}

#[test]
fn echoes_until_zero_byte() {
    let (out, outcome, _) = run(",[.,]", b"Hi!\0", 100_000);
    assert_eq!(outcome, Outcome::Halted);
    assert_eq!(out, b"Hi!".to_vec());
}

#[test]
fn end_of_input_reads_as_zero() {
    let (out, outcome, machine) = run("+,[.,]", b"ok", 100_000);
    assert_eq!(outcome, Outcome::Halted);
    assert_eq!(out, b"ok".to_vec());
    assert_eq!(machine.tape[0], 0);
}

#[test]
fn endless_loop_keeps_running() {
    let (out, outcome, machine) = run("+[]", b"", 10_000);
    assert_eq!(outcome, Outcome::OutOfSteps);
    assert!(out.is_empty());
    assert_eq!(machine.tape[0], 1);
}

#[test]
fn loop_on_zero_cell_is_skipped() {
    let (out, outcome, machine) = run("[+++]", b"", 100);
    assert_eq!(outcome, Outcome::Halted);
    assert!(out.is_empty());
    assert_eq!(machine.tape[0], 0);
    assert_eq!(machine.ip, 5);
}

#[test]
fn prints_lowercase_i() {
    let (out, outcome, _) = run(">+++++ +++++[<+++++ +++++>-]<+++++.", b"", 100_000);
    assert_eq!(outcome, Outcome::Halted);
    assert_eq!(out, vec![105]);
}

#[test]
fn unmatched_open_is_rejected() {
    assert_eq!(Program::new("[").unwrap_err(), ParseError::UnmatchedOpen);
    assert_eq!(Program::new("+[[]").unwrap_err(), ParseError::UnmatchedOpen);
}

#[test]
fn unmatched_close_is_rejected() {
    assert_eq!(Program::new("]").unwrap_err(), ParseError::UnmatchedClose);
    assert_eq!(Program::new("[]][").unwrap_err(), ParseError::UnmatchedClose);
}

#[test]
fn comments_are_skipped_and_tables_pair_brackets() {
    let p = Program::new("a[b+[-]c]d.").unwrap();
    assert_eq!(
        p.code,
        vec![
            Operator::JumpIfZero,
            Operator::IncrementValue,
            Operator::JumpIfZero,
            Operator::DecrementValue,
            Operator::JumpIfNonZero,
            Operator::JumpIfNonZero,
            Operator::PutChar,
        ]
    );
    assert_eq!(p.fwd_jump_table.len(), 2);
    assert_eq!(p.fwd_jump_table[&0], 5);
    assert_eq!(p.fwd_jump_table[&2], 4);
    assert_eq!(p.bwd_jump_table.len(), 2);
    assert_eq!(p.bwd_jump_table[&5], 0);
    assert_eq!(p.bwd_jump_table[&4], 2);
}

#[test]
fn jump_tables_are_inverse() {
    let p = Program::new("[[]>[<[]]]++[-]").unwrap();
    for (&i, &j) in p.fwd_jump_table.iter() {
        assert_eq!(p.code[i], Operator::JumpIfZero);
        assert_eq!(p.code[j], Operator::JumpIfNonZero);
        assert_eq!(p.bwd_jump_table[&j], i);
    }
    let opens = p.code.iter().filter(|&&o| o == Operator::JumpIfZero).count();
    assert_eq!(p.fwd_jump_table.len(), opens);
    assert_eq!(p.bwd_jump_table.len(), opens);
}

#[test]
fn cells_wrap_both_ways() {
    let (_, outcome, machine) = run("->+>" , b"", 100);
    assert_eq!(outcome, Outcome::Halted);
    assert_eq!(machine.tape[0], 255);
    assert_eq!(machine.tape[1], 1);
    assert_eq!(machine.mem_ptr, 2);
    let plus256 = "+".repeat(256);
    let (_, _, machine) = run(&plus256, b"", 1000);
    assert_eq!(machine.tape[0], 0);
}

#[test]
fn moving_left_of_the_tape_faults() {
    let (out, outcome, machine) = run("+.<", b"", 100);
    assert_eq!(outcome, Outcome::Fault(RuntimeError::TapeOutOfBounds));
    assert_eq!(out, vec![1]);
    assert_eq!(machine.mem_ptr, 0);
    assert_eq!(machine.ip, 2);
}

#[test]
fn moving_right_of_the_tape_faults() {
    let source = ">".repeat(30_000);
    let (_, outcome, machine) = run(&source, b"", 40_000);
    assert_eq!(outcome, Outcome::Fault(RuntimeError::TapeOutOfBounds));
    assert_eq!(machine.mem_ptr, 29_999);
}

#[test]
fn fresh_machine_has_zeroed_tape() {
    let m = Interpreter::new(Program::new("").unwrap());
    assert_eq!(m.tape.len(), 30_000);
    assert!(m.tape.iter().all(|&b| b == 0));
    assert_eq!((m.mem_ptr, m.ip), (0, 0));
}

#[test]
fn empty_program_halts_at_once() {
    let (out, outcome, _) = run("no operators here", b"", 10);
    assert_eq!(outcome, Outcome::Halted);
    assert!(out.is_empty());
}

#[test]
fn interpreter_eval_source_and_ir() {
    let p = Program::new("+.").unwrap();
    let mut m = <Interpreter as Eval>::eval_source(p).unwrap();
    assert_eq!(m.step(), Ok(Event::Continue));
    assert_eq!(m.step(), Ok(Event::Output(1)));
    assert_eq!(m.step(), Ok(Event::Halt));
    let ir = bfjit::ir::IR::from_program(&Program::new("+").unwrap());
    assert!(<Interpreter as Eval>::eval_ir(ir).is_err());
}
