use brainrust::engine::{execute, run_source, Machine, RunStatus, Step};
use brainrust::lexer::tokenize;
use brainrust::token::{BfError, Token};

const HELLO: &str = "++++++++[>++++[>++>+++>+++>+<<<<-]>+>+>->>+[<]<-]>>.>---.+++++++..+++.>>.<-.<.+++.------.--------.>>+.>++.";

#[test]
fn hello_world() {
    let r = run_source(HELLO, &Vec::new(), 1_000_000).unwrap();
    assert_eq!(r.status, RunStatus::Halted);
    assert_eq!(r.output, b"Hello World!\n".to_vec());
    assert_eq!(r.consumed, 0);
}

#[test]
fn echo_one_byte() {
    let r = run_source(",.", &vec![b'A', b'B'], 100).unwrap();
    assert_eq!(r.status, RunStatus::Halted);
    assert_eq!(r.output, vec![b'A']);
    assert_eq!(r.consumed, 1);
}

#[test]
fn echo_reads_input_once_stepwise() {
    let program = tokenize(",.").unwrap();
    let mut m = Machine::new();
    let mut reads = 0;
    let mut out = Vec::new();
    loop {
        let input = if m.wants_input(&program) {
            reads += 1;
            Some(200u8)
        } else {
            None
        };
        match m.step(&program, input).unwrap() {
            Step::Halted => break,
            Step::Output(b) => out.push(b),
            Step::Running => {}
        }
    }
    assert_eq!(reads, 1);
    assert_eq!(out, vec![200u8]);
}

#[test]
fn input_exhausted_is_fatal() {
    let r = run_source(",.", &Vec::new(), 100).unwrap();
    assert_eq!(r.status, RunStatus::Failed(BfError::InputExhausted));
    assert_eq!(r.output, Vec::<u8>::new());
}

#[test]
fn empty_loop_on_zero_cell_is_skipped() {
    let r = run_source("[]", &Vec::new(), 1).unwrap();
    assert_eq!(r.status, RunStatus::Halted);
    assert_eq!(r.output, Vec::<u8>::new());
}

#[test]
fn loop_body_never_entered_on_zero_cell() {
    let r = run_source("[.]", &Vec::new(), 100).unwrap();
    assert_eq!(r.status, RunStatus::Halted);
    assert_eq!(r.output, Vec::<u8>::new());
}

#[test]
fn text_without_language_characters_is_a_no_op() {
    let r = run_source("Just some words and no symbols\n", &vec![1, 2], 100).unwrap();
    assert_eq!(r.status, RunStatus::Halted);
    assert_eq!(r.output, Vec::<u8>::new());
    assert_eq!(r.consumed, 0);
}

#[test]
fn increment_wraps_to_zero() {
    let r = run_source("-.+.", &Vec::new(), 100).unwrap();
    assert_eq!(r.output, vec![255u8, 0u8]);
}

#[test]
fn decrement_wraps_to_255() {
    let r = run_source("-.", &Vec::new(), 100).unwrap();
    assert_eq!(r.output, vec![255u8]);
}

#[test]
fn increment_256_times_is_identity() {
    let src = "+".repeat(256) + ".";
    let r = run_source(&src, &Vec::new(), 1000).unwrap();
    assert_eq!(r.output, vec![0u8]);
}

#[test]
fn pointer_underflow_at_start() {
    let r = run_source("<", &Vec::new(), 100).unwrap();
    assert_eq!(r.status, RunStatus::Failed(BfError::PointerUnderflow));
}

#[test]
fn pointer_underflow_later_in_program() {
    let r = run_source("+.>><<<.", &Vec::new(), 100).unwrap();
    assert_eq!(r.status, RunStatus::Failed(BfError::PointerUnderflow));
    assert_eq!(r.output, vec![1u8]);
}

#[test]
fn unmatched_bracket_never_runs() {
    assert_eq!(run_source(".[", &Vec::new(), 100).map(|r| r.output), Err(BfError::UnmatchedOpen(1)));
    assert_eq!(run_source("+.]", &Vec::new(), 100).map(|r| r.output), Err(BfError::UnmatchedClose(2)));
}

#[test]
fn infinite_loop_runs_out_of_fuel() {
    let r = run_source("+[]", &Vec::new(), 50).unwrap();
    assert_eq!(r.status, RunStatus::OutOfFuel);
}

#[test]
fn tape_grows_with_zero_cells() {
    let program = tokenize(">>+").unwrap();
    let r = execute(&program, &Vec::new(), 100);
    assert_eq!(r.status, RunStatus::Halted);
    let mut m = Machine::new();
    while m.step(&program, None).unwrap() != Step::Halted {}
    assert_eq!(m.tape().clone(), vec![0u8, 0u8, 1u8]);
    assert_eq!(m.data_pointer(), 2);
    assert_eq!(m.instruction_pointer(), 3);
    assert!(m.is_halted(&program));
}

#[test]
fn step_on_halted_machine_does_nothing() {
    let program: Vec<Token> = Vec::new();
    let mut m = Machine::new();
    assert_eq!(m.step(&program, None), Ok(Step::Halted));
    assert_eq!(m.tape().len(), 0);
}

#[test]
fn mixed_increments_and_decrements_wrap() {
    let r = run_source("---++.", &Vec::new(), 100).unwrap();
    assert_eq!(r.status, RunStatus::Halted);
    assert_eq!(r.output, vec![255u8]);
    let r = run_source("-++.", &Vec::new(), 100).unwrap();
    assert_eq!(r.output, vec![1u8]);
}
