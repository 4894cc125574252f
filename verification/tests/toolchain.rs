use bf::codegen::{build_program, Assembler};
use bf::interp::{run_program, Interpreter, Io, RunStatus};
use bf::parse::{parse, tokens, ParseError};
use bf::sanitize::sanitize;
use bf::token::Token;

fn src(text: &str) -> Vec<u8> {
    text.as_bytes().to_vec()
}

fn run(text: &str, input: &[u8]) -> (RunStatus, Vec<u8>) {
    let prog = tokens(&src(text)).expect("program should parse");
    run_program(&prog, input.to_vec(), u64::MAX)
}

const HEADER: &str = ".data\n.bss\n.lcomm ARRAY, 30000\n.text\n.global _start\n_start:\nmov r12, offset ARRAY\n";
const FOOTER: &str = "mov rax, 60\nmov rdi, 9\nsyscall\n";
const READ: &str = "mov rax, 0\nmov rdi, 0\nmov rsi, r12\nmov rdx, 1\nsyscall\n";
const WRITE: &str = "mov rax, 1\nmov rdi, 1\nmov rsi, r12\nmov rdx, 1\nsyscall\n";

#[test]
fn sanitize_drops_everything_else() {
    let clean = sanitize(&src("a +\n b [ c ] - ! \u{e9}"));
    assert_eq!(clean, b"+[]-".to_vec());
}

#[test]
fn sanitize_is_idempotent() {
    let once = sanitize(&src("read, then print. [loop] <left> +add -sub"));
    let twice = sanitize(&once);
    assert_eq!(once, twice);
}

#[test]
fn parse_builds_the_expected_tree() {
    let tree = tokens(&src("+[>+<-].")).expect("balanced program");
    assert_eq!(
        tree,
        vec![
            Token::Add,
            Token::Loop(vec![Token::Right, Token::Add, Token::Left, Token::Sub]),
            Token::Write,
        ]
    );
}

#[test]
fn parse_node_count_matches_symbols_without_loops() {
    // on a loop-free text, one node per symbol
    let tree = tokens(&src("++>--<,.")).expect("balanced program");
    assert_eq!(tree.len(), 8);
}

#[test]
fn empty_source_is_an_empty_program() {
    assert_eq!(tokens(&src("")), Ok(Vec::new()));
    assert_eq!(tokens(&src("no symbols here")), Ok(Vec::new()));
    let (status, out) = run("", &[]);
    assert_eq!(status, RunStatus::Done);
    assert_eq!(out, Vec::<u8>::new());
}

#[test]
fn deeply_nested_loops_parse_and_terminate() {
    let mut text = String::new();
    for _ in 0..100 {
        text.push('[');
    }
    for _ in 0..100 {
        text.push(']');
    }
    let (status, out) = run(&text, &[]);
    assert_eq!(status, RunStatus::Done);
    assert_eq!(out, Vec::<u8>::new());
}

#[test]
fn parse_rejects_missing_close() {
    assert_eq!(tokens(&src("[")), Err(ParseError::MissingClose));
    assert_eq!(tokens(&src("+[[]>")), Err(ParseError::MissingClose));
}

#[test]
fn parse_rejects_unexpected_close() {
    assert_eq!(tokens(&src("]")), Err(ParseError::UnexpectedClose));
    assert_eq!(tokens(&src("[]]")), Err(ParseError::UnexpectedClose));
    // a stray `]` is reported even when a `[` later goes unclosed
    assert_eq!(tokens(&src("][")), Err(ParseError::UnexpectedClose));
}

#[test]
fn parse_ignores_commentary() {
    let plain = parse(&src(",.")).expect("balanced program");
    let noisy = tokens(&src("read one byte, then print it.")).expect("balanced program");
    assert_eq!(plain, noisy);
}

#[test]
fn increment_wraps_at_256() {
    let mut wrapped = String::from("");
    for _ in 0..256 {
        wrapped.push('+');
    }
    wrapped.push('.');
    let (status, out) = run(&wrapped, &[]);
    assert_eq!(status, RunStatus::Done);
    let (status0, out0) = run(".", &[]);
    assert_eq!(status0, RunStatus::Done);
    assert_eq!(out, vec![0]);
    assert_eq!(out, out0);
}

#[test]
fn decrement_wraps_at_zero() {
    let (status, out) = run("-.", &[]);
    assert_eq!(status, RunStatus::Done);
    assert_eq!(out, vec![255]);
}

#[test]
fn read_past_end_of_input_keeps_the_cell() {
    let (status, out) = run("+++,.", &[]);
    assert_eq!(status, RunStatus::Done);
    assert_eq!(out, vec![3]);
}

#[test]
fn read_consumes_input_in_order() {
    let (status, out) = run(",.>,.", &[7, 9]);
    assert_eq!(status, RunStatus::Done);
    assert_eq!(out, vec![7, 9]);
}

#[test]
fn multiplication_loop_prints_sixty_four() {
    let (status, out) = run("++++++++[>++++++++<-]>.", &[]);
    assert_eq!(status, RunStatus::Done);
    assert_eq!(out, vec![64]);
}

#[test]
fn echo_prints_the_input_byte() {
    let (status, out) = run(",.", &[65]);
    assert_eq!(status, RunStatus::Done);
    assert_eq!(out, vec![65]);
}

#[test]
fn loop_on_zero_cell_runs_no_iteration() {
    let (status, out) = run("[]", &[]);
    assert_eq!(status, RunStatus::Done);
    assert_eq!(out, Vec::<u8>::new());
}

#[test]
fn moving_left_off_the_tape_faults() {
    let (status, _) = run("<", &[]);
    assert_eq!(status, RunStatus::Fault);
}

#[test]
fn moving_right_off_the_tape_faults() {
    let mut text = String::new();
    for _ in 0..30000 {
        text.push('>');
    }
    let (status, _) = run(&text, &[]);
    assert_eq!(status, RunStatus::Fault);
}

#[test]
fn output_before_a_fault_is_kept_in_order() {
    let (status, out) = run("+.<", &[]);
    assert_eq!(status, RunStatus::Fault);
    assert_eq!(out, vec![1]);
}

#[test]
fn endless_loop_exhausts_the_budget() {
    let prog = tokens(&src("+[]")).expect("balanced program");
    let (status, out) = run_program(&prog, Vec::new(), 1000);
    assert_eq!(status, RunStatus::Stalled);
    assert_eq!(out, Vec::<u8>::new());
}

#[test]
fn fresh_interpreter_is_zeroed() {
    let machine = Interpreter::new();
    assert_eq!(machine.memory.len(), 30000);
    assert_eq!(machine.data_pointer, 0);
    assert!(machine.memory.iter().all(|&b| b == 0));
}

#[test]
fn fresh_io_consumes_nothing() {
    let io = Io::new(vec![1, 2, 3]);
    assert_eq!(io.pos, 0);
    assert_eq!(io.output, Vec::<u8>::new());
}

#[test]
fn build_mode_matches_interpretation() {
    // compiling `++.` must lower the same bytes the interpreter prints
    let text = build_program(&src("++.")).expect("balanced program");
    let expected = format!("{HEADER}addb [r12], 2\n{WRITE}{FOOTER}");
    assert_eq!(text, expected);
    let (status, out) = run("++.", &[]);
    assert_eq!(status, RunStatus::Done);
    assert_eq!(out, vec![2]);
}

#[test]
fn build_mode_fails_exactly_where_parsing_fails() {
    assert_eq!(build_program(&src("++[")), Err(ParseError::MissingClose));
    assert_eq!(build_program(&src("]..")), Err(ParseError::UnexpectedClose));
}

#[test]
fn coalescing_counts_adjacent_moves_and_arithmetic() {
    let text = build_program(&src("+++>><<<--")).expect("balanced program");
    let expected = format!("{HEADER}addb [r12], 3\nadd r12, 2\nsub r12, 3\nsubb [r12], 2\n{FOOTER}");
    assert_eq!(text, expected);
}

#[test]
fn coalesced_count_equals_interpreted_effect() {
    // the one counted operation carries the same constant the interpreter
    // accumulates by single steps
    let text = build_program(&src("+++++.")).expect("balanced program");
    let expected = format!("{HEADER}addb [r12], 5\n{WRITE}{FOOTER}");
    assert_eq!(text, expected);
    let (status, out) = run("+++++.", &[]);
    assert_eq!(status, RunStatus::Done);
    assert_eq!(out, vec![5]);
}

#[test]
fn last_cell_is_reachable_without_fault() {
    let mut text = String::new();
    for _ in 0..29999 {
        text.push('>');
    }
    text.push('.');
    let (status, out) = run(&text, &[]);
    assert_eq!(status, RunStatus::Done);
    assert_eq!(out, vec![0]);
}

#[test]
fn reads_and_writes_are_not_coalesced() {
    let text = build_program(&src(",,..")).expect("balanced program");
    let expected = format!("{HEADER}{READ}{READ}{WRITE}{WRITE}{FOOTER}");
    assert_eq!(text, expected);
}

#[test]
fn nested_loops_get_fresh_labels_in_encounter_order() {
    let text = build_program(&src("[[]]")).expect("balanced program");
    let expected = format!(
        "{HEADER}cmpb [r12], 0\nje LOOP_END_0\nLOOP_START_0:\n\
         cmpb [r12], 0\nje LOOP_END_1\nLOOP_START_1:\n\
         cmpb [r12], 0\njne LOOP_START_1\nLOOP_END_1:\n\
         cmpb [r12], 0\njne LOOP_START_0\nLOOP_END_0:\n{FOOTER}"
    );
    assert_eq!(text, expected);
}

#[test]
fn adjacent_identical_loops_are_emitted_separately() {
    let text = build_program(&src("[-][-]")).expect("balanced program");
    let expected = format!(
        "{HEADER}cmpb [r12], 0\nje LOOP_END_0\nLOOP_START_0:\n\
         subb [r12], 1\n\
         cmpb [r12], 0\njne LOOP_START_0\nLOOP_END_0:\n\
         cmpb [r12], 0\nje LOOP_END_1\nLOOP_START_1:\n\
         subb [r12], 1\n\
         cmpb [r12], 0\njne LOOP_START_1\nLOOP_END_1:\n{FOOTER}"
    );
    assert_eq!(text, expected);
}

#[test]
fn label_counter_renders_two_digit_indices() {
    let mut text = String::new();
    for _ in 0..12 {
        text.push_str("[]");
    }
    let generated = build_program(&src(&text)).expect("balanced program");
    assert!(generated.contains("je LOOP_END_11\n"));
    assert!(generated.contains("LOOP_START_11:\n"));
}

#[test]
fn generator_starts_empty_and_counts_loops() {
    let mut generator = Assembler::new();
    assert_eq!(generator.index, 0);
    assert_eq!(generator.output, String::new());
    let prog = tokens(&src("[][[]]")).expect("balanced program");
    generator.dump(&prog);
    assert_eq!(generator.index, 3);
}
