use brainfuck_interpreter::{InputStream, Interpreter, RunError, RunOutcome};

const BUDGET: usize = 10_000_000;

fn run_program(program: &str, input: &[u8]) -> Result<(RunOutcome, Vec<u8>), RunError> {
    let mut interpreter = Interpreter::new(program);
    let mut stream = InputStream::new(input.to_vec());
    let mut output: Vec<u8> = Vec::new();
    let outcome = interpreter.run(&mut stream, &mut output, BUDGET)?;
    Ok((outcome, output))
}

#[test]
fn hello_fragment_starts_with_h() {
    let program = "++++++++[>++++[>++>+++>+++>+<<<<-]>+>+>->>+[<]<-]>>.>---.+++++++..+++.";
    let (outcome, output) = run_program(program, b"").unwrap();
    assert_eq!(outcome, RunOutcome::Finished);
    assert_eq!(output[0], 72);
    assert_eq!(output, b"Hello".to_vec());
}

#[test]
fn echo_one_byte() {
    let (outcome, output) = run_program(",.", b"A").unwrap();
    assert_eq!(outcome, RunOutcome::Finished);
    assert_eq!(output, vec![65u8]);
}

#[test]
fn input_discards_newlines() {
    let (outcome, output) = run_program(",.", b"\n\nX").unwrap();
    assert_eq!(outcome, RunOutcome::Finished);
    assert_eq!(output, vec![b'X']);
}

#[test]
fn increment_run_gives_count() {
    let (_, output) = run_program("+++.", b"").unwrap();
    assert_eq!(output, vec![3u8]);
}

#[test]
fn decrement_wraps_around_zero() {
    let (_, output) = run_program("-.", b"").unwrap();
    assert_eq!(output, vec![255u8]);
}

#[test]
fn cursor_wraps_around_both_tape_ends() {
    // `<` wraps to the last cell, which `+` marks; `>` wraps forward to
    // cell zero and `<` comes back to the marked cell.
    let (_, output) = run_program("<+><.", b"").unwrap();
    assert_eq!(output, vec![1u8]);
}

#[test]
fn non_instruction_bytes_are_ignored() {
    let (_, output) = run_program("abc + def .", b"").unwrap();
    assert_eq!(output, vec![1u8]);
}

#[test]
fn empty_loop_on_zero_cell_is_a_no_op() {
    let (outcome, output) = run_program("[]", b"").unwrap();
    assert_eq!(outcome, RunOutcome::Finished);
    assert_eq!(output, Vec::<u8>::new());
}

#[test]
fn empty_loop_on_nonzero_cell_never_finishes() {
    let mut interpreter = Interpreter::new("+[]");
    let mut stream = InputStream::new(Vec::new());
    let mut output: Vec<u8> = Vec::new();
    let outcome = interpreter.run(&mut stream, &mut output, 1000).unwrap();
    assert_eq!(outcome, RunOutcome::OutOfSteps);
}

#[test]
fn loop_that_zeroes_its_cell_finishes() {
    let (outcome, _) = run_program("+[-]", b"").unwrap();
    assert_eq!(outcome, RunOutcome::Finished);
}

#[test]
fn unmatched_open_bracket_fails() {
    let err = run_program("[", b"").unwrap_err();
    assert_eq!(err, RunError::UnmatchedLoopOpen);
}

#[test]
fn unmatched_close_bracket_fails() {
    let err = run_program("]", b"").unwrap_err();
    assert_eq!(err, RunError::UnmatchedLoopClose);
}

#[test]
fn read_past_end_of_input_fails() {
    let err = run_program(",", b"").unwrap_err();
    assert_eq!(err, RunError::InputStreamError);
}

#[test]
fn read_with_only_newlines_left_fails() {
    let err = run_program(",", b"\n\n").unwrap_err();
    assert_eq!(err, RunError::InputStreamError);
}

#[test]
fn zero_budget_reports_out_of_steps() {
    let mut interpreter = Interpreter::new("+");
    let mut stream = InputStream::new(Vec::new());
    let mut output: Vec<u8> = Vec::new();
    let outcome = interpreter.run(&mut stream, &mut output, 0).unwrap();
    assert_eq!(outcome, RunOutcome::OutOfSteps);
}

#[test]
fn empty_program_finishes() {
    let (outcome, output) = run_program("", b"").unwrap();
    assert_eq!(outcome, RunOutcome::Finished);
    assert!(output.is_empty());
}

#[test]
fn next_instruction_walks_the_program_once() {
    let mut interpreter = Interpreter::new("ab");
    assert_eq!(interpreter.next_instruction(), Some(b'a'));
    assert_eq!(interpreter.next_instruction(), Some(b'b'));
    assert_eq!(interpreter.next_instruction(), None);
}

#[test]
fn run_resumes_after_an_exhausted_budget() {
    let mut interpreter = Interpreter::new("+++.");
    let mut stream = InputStream::new(Vec::new());
    let mut output: Vec<u8> = Vec::new();
    let outcome = interpreter.run(&mut stream, &mut output, 2).unwrap();
    assert_eq!(outcome, RunOutcome::OutOfSteps);
    let outcome = interpreter.run(&mut stream, &mut output, BUDGET).unwrap();
    assert_eq!(outcome, RunOutcome::Finished);
    assert_eq!(output, vec![3u8]);
}

#[test]
fn loop_multiplies_by_repeated_addition() {
    let (outcome, output) = run_program("+++[>++<-]>.", b"").unwrap();
    assert_eq!(outcome, RunOutcome::Finished);
    assert_eq!(output, vec![6u8]);
}

#[test]
fn nested_loops_multiply_twice() {
    let (outcome, output) = run_program("++[>+++[>++<-]<-]>>.", b"").unwrap();
    assert_eq!(outcome, RunOutcome::Finished);
    assert_eq!(output, vec![12u8]);
}
