use brainfuck_interpreter::Transpiler;
use brainfuck_interpreter::{InputStream, Interpreter, RunOutcome};

const INTRO: &str = "\nint putchar(int);\nint getchar(void);\n#define MAXMEM 30000\nint main(void) {\n    char memory[MAXMEM];\n    char *ptr = memory;\n";

fn transpile(program: &str) -> String {
    let mut transpiler = Transpiler::new(program);
    let mut out: Vec<u8> = Vec::new();
    transpiler.transpile(&mut out);
    String::from_utf8(out).unwrap()
}

#[test]
fn empty_program_is_preamble_and_closing_brace() {
    assert_eq!(transpile(""), format!("{INTRO}}}\n"));
}

#[test]
fn increment_run_folds_into_one_statement() {
    let expected = format!("{INTRO}    *ptr += 3;\n    putchar(*ptr);\n}}\n");
    assert_eq!(transpile("+++."), expected);
}

#[test]
fn move_runs_fold_into_one_statement_each() {
    let expected = format!("{INTRO}    ptr += 3;\n    ptr -= 2;\n}}\n");
    assert_eq!(transpile(">>><<"), expected);
}

#[test]
fn decrement_run_folds_into_one_statement() {
    let expected = format!("{INTRO}    *ptr -= 4;\n}}\n");
    assert_eq!(transpile("----"), expected);
}

#[test]
fn read_and_write_become_stream_calls() {
    let expected = format!("{INTRO}    *ptr = getchar();\n    putchar(*ptr);\n}}\n");
    assert_eq!(transpile(",."), expected);
}

#[test]
fn loops_nest_with_indentation() {
    let expected = format!(
        "{INTRO}    while (*ptr) {{ \n        while (*ptr) {{ \n            *ptr -= 1;\n        }}\n    }}\n}}\n"
    );
    assert_eq!(transpile("[[-]]"), expected);
}

#[test]
fn unmatched_open_bracket_is_not_an_error() {
    let expected = format!("{INTRO}    while (*ptr) {{ \n}}\n");
    assert_eq!(transpile("["), expected);
}

#[test]
fn unmatched_close_bracket_dedents_below_one() {
    let expected = format!("{INTRO}}}\n*ptr += 1;\n}}\n");
    assert_eq!(transpile("]+"), expected);
}

#[test]
fn non_instruction_bytes_emit_nothing() {
    let expected = format!("{INTRO}    *ptr += 1;\n}}\n");
    assert_eq!(transpile("comment +"), expected);
}

#[test]
fn long_run_count_renders_in_decimal() {
    let program: String = std::iter::repeat('+').take(123).collect();
    let expected = format!("{INTRO}    *ptr += 123;\n}}\n");
    assert_eq!(transpile(&program), expected);
}

#[test]
fn next_char_and_peek_walk_the_program() {
    let mut transpiler = Transpiler::new("ab");
    assert_eq!(transpiler.peek(), Some(b'a'));
    assert_eq!(transpiler.next_char(), Some(b'a'));
    assert_eq!(transpiler.peek(), Some(b'b'));
    assert_eq!(transpiler.next_char(), Some(b'b'));
    assert_eq!(transpiler.peek(), None);
    assert_eq!(transpiler.next_char(), None);
}

#[test]
fn get_repetition_counts_and_consumes_a_run() {
    let mut transpiler = Transpiler::new("aaab");
    assert_eq!(transpiler.next_char(), Some(b'a'));
    assert_eq!(transpiler.get_repetition(b'a'), 3);
    assert_eq!(transpiler.peek(), Some(b'b'));
}

#[test]
fn round_trip_scenario_agrees_with_interpreter() {
    // Interpreted directly, `++>+++<-.` leaves cell 0 at 1 and prints it.
    let mut interpreter = Interpreter::new("++>+++<-.");
    let mut stream = InputStream::new(Vec::new());
    let mut output: Vec<u8> = Vec::new();
    let outcome = interpreter.run(&mut stream, &mut output, 1000).unwrap();
    assert_eq!(outcome, RunOutcome::Finished);
    assert_eq!(output, vec![1u8]);
    // The emitted statements compute the same tape: cell 0 gets +2 then -1,
    // cell 1 gets +3, and the cursor returns to cell 0.
    let expected = format!(
        "{INTRO}    *ptr += 2;\n    ptr += 1;\n    *ptr += 3;\n    ptr -= 1;\n    *ptr -= 1;\n    putchar(*ptr);\n}}\n"
    );
    assert_eq!(transpile("++>+++<-."), expected);
}
