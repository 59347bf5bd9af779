use chocolate::source::{parse_raw_code, rows_from_lines};
use chocolate::{run, run_checked, Error, RunState, State};

fn run_ok(source: &str, input: &[u8]) -> (Result<(), Error>, Vec<u8>) {
    let mut output = Vec::new();
    let mut pos = 0;
    let res = run(source, input, &mut pos, &mut output);
    (res, output)
}

fn print_a_program() -> String {
    let mut s = "P".repeat(65);
    s.push('O');
    s.push('\n');
    s.push_str(&" ".repeat(64));
    s.push_str("OO");
    s
}

#[test]
fn run_prints_block_size_as_byte() {
    let (res, out) = run_ok(&print_a_program(), b"");
    assert_eq!(res, Ok(()));
    assert_eq!(out, b"A".to_vec());
}

#[test]
fn run_single_block_finishes_at_once() {
    let (res, out) = run_ok("P", b"");
    assert_eq!(res, Ok(()));
    assert!(out.is_empty());
}

#[test]
fn run_echoes_input() {
    let (res, out) = run_ok("IO\nOO", b"z");
    assert_eq!(res, Ok(()));
    assert_eq!(out, b"z".to_vec());
}

#[test]
fn run_without_input_writes_nothing() {
    let (res, out) = run_ok("IO\nOO", b"");
    assert_eq!(res, Ok(()));
    assert!(out.is_empty());
}

#[test]
fn run_appends_to_existing_output() {
    let mut output = b"> ".to_vec();
    let res = run("IO\nOO", b"q", &mut 0, &mut output);
    assert_eq!(res, Ok(()));
    assert_eq!(output, b"> q".to_vec());
}

#[test]
fn run_rotates_stack() {
    // stack [65, 1, 2, 1]: `r` rolls the two values [65, 1] by one, so 65 ends on top
    let (res, out) = run_ok("IPIPrO\n    OO", &[b'A', 2]);
    assert_eq!(res, Ok(()));
    assert_eq!(out, b"A".to_vec());
}

#[test]
fn rotation_limit_is_enforced() {
    let mut state =
        RunState::from_source("IPIPrO\n    OO", vec![b'A', 2], Vec::new(), 1000, 1000, 1).unwrap();
    let mut last = Ok(());
    while !state.finished {
        last = state.step();
    }
    assert_eq!(last, Err(Error::TooMuchRotate { limit: 1 }));
    assert_eq!(state.r_sum, 2);
    // the rotation itself was carried out
    assert_eq!(state.stack, vec![1, 65]);
}

#[test]
fn division_rounds_toward_negative_infinity() {
    // 7 / (0 - 2) == -4, written as its low byte
    let (res, out) = run_ok("IP!I-/O\n     OO", &[7, 2]);
    assert_eq!(res, Ok(()));
    assert_eq!(out, vec![252u8]);
}

#[test]
fn remainder_has_sign_of_divisor() {
    // 7 mod (0 - 2) == -1, written as its low byte
    let (res, out) = run_ok("IP!I-%O\n     OO", &[7, 2]);
    assert_eq!(res, Ok(()));
    assert_eq!(out, vec![255u8]);
}

#[test]
fn division_by_zero_does_nothing() {
    // stack [9, 0]: `/` leaves it, `O` writes the 0
    let (res, out) = run_ok("IP!/O\n   OO", &[9]);
    assert_eq!(res, Ok(()));
    assert_eq!(out, vec![0u8]);
}

#[test]
fn multiplication_overflow_is_reported_as_plus() {
    let (res, out) = run_ok("PPd*d*d*d*d*d*", b"");
    assert_eq!(res, Err(Error::Overflow { ch: '+', row: 0, col: 13 }));
    assert!(out.is_empty());
}

#[test]
fn unknown_command_is_a_syntax_error() {
    let (res, _) = run_ok("#", b"");
    assert_eq!(res, Err(Error::Syntax { ch: '#', row: 0, col: 0 }));
}

#[test]
fn blank_top_left_is_refused() {
    assert_eq!(run_ok(" P", b"").0, Err(Error::BlankStart));
    assert_eq!(run_ok("", b"").0, Err(Error::BlankStart));
    assert_eq!(run_ok("\nP", b"").0, Err(Error::BlankStart));
}

#[test]
fn non_ascii_is_refused() {
    assert_eq!(run_ok("PO\n한", b"").0, Err(Error::NonAscii { ch: '한' }));
}

#[test]
fn lines_after_an_empty_line_are_ignored() {
    assert_eq!(run_ok("P\n\n한", b"").0, Ok(()));
}

#[test]
fn code_size_limit_is_enforced() {
    let res = RunState::from_source("PP\nPP", Vec::new(), Vec::new(), 3, 10, 10);
    assert!(matches!(res, Err(Error::CodeIsBig { limit: 3 })));
    assert!(RunState::from_source("PP\nPP", Vec::new(), Vec::new(), 4, 10, 10).is_ok());
}

#[test]
fn trailing_whitespace_is_trimmed() {
    let state = RunState::from_source("P \u{3000}\t", Vec::new(), Vec::new(), 100, 10, 10).unwrap();
    assert_eq!(state.code.area_indices, vec![vec![1u32]]);
}

#[test]
fn blocks_are_connected_areas_in_scan_order() {
    let state = RunState::from_source("PO\nOO", Vec::new(), Vec::new(), 100, 10, 10).unwrap();
    assert_eq!(state.code.area_indices, vec![vec![1u32, 2], vec![2, 2]]);
    assert_eq!(state.code.blocks.len(), 2);
    let p = state.code.blocks[0];
    let o = state.code.blocks[1];
    assert_eq!((p.cmd, p.len), (b'P', 1));
    assert_eq!((o.cmd, o.len), (b'O', 3));
    assert_eq!(p.fronts[0], [Some((0, 1)), Some((0, 1))]);
    assert_eq!(p.fronts[1], [Some((1, 0)), Some((1, 0))]);
    assert_eq!(p.fronts[2], [None, None]);
    assert_eq!(p.fronts[3], [None, None]);
    for dp in 0..4 {
        assert_eq!(o.fronts[dp], [None, None]);
    }
}

#[test]
fn fronts_follow_the_codel_chooser() {
    // block A is a 2x2 square; from its right side it leaves at the top (chooser 0,
    // the left of the direction) into B or at the bottom (chooser 1) into C
    let state = RunState::from_source("AAB\nAAC", Vec::new(), Vec::new(), 100, 10, 10).unwrap();
    let a = state.code.blocks[0];
    assert_eq!(a.len, 4);
    assert_eq!(a.fronts[0], [Some((0, 2)), Some((1, 2))]);
}

#[test]
fn step_limit_is_enforced() {
    let mut state = RunState::from_source("PO", Vec::new(), Vec::new(), 100, 3, 10).unwrap();
    let mut last = Ok(());
    while !state.finished {
        last = state.step();
    }
    assert_eq!(last, Err(Error::Timeout { limit: 3 }));
    assert_eq!(state.steps, 4);
    assert_eq!(state.output, vec![1u8, 1]);
}

#[test]
fn missing_block_is_a_syntax_error() {
    let mut state = RunState::from_source("P", Vec::new(), Vec::new(), 100, 10, 10).unwrap();
    state.row = 5;
    assert_eq!(state.next_block_index(), 0);
    assert!(state.next_block().is_none());
    assert_eq!(state.step(), Err(Error::Syntax { ch: '뷁', row: 5, col: 0 }));
    assert!(state.finished);
}

#[test]
fn aborting_division_is_detected() {
    let mut state = RunState::from_source("/", Vec::new(), Vec::new(), 100, 10, 10).unwrap();
    state.stack = vec![i64::MIN, -1];
    assert!(state.step_would_abort());
    state.stack = vec![i64::MIN, 2];
    assert!(!state.step_would_abort());
}

#[test]
fn run_checked_matches_run() {
    let mut output = Vec::new();
    let res = run_checked(&print_a_program(), b"", &mut 0, &mut output);
    assert_eq!(res, Some(Ok(())));
    assert_eq!(output, b"A".to_vec());
}

#[test]
fn error_messages() {
    assert_eq!(
        Error::Syntax { ch: '#', row: 1, col: 20 }.message(),
        b"unexpected char `#` at row 1, col 20".to_vec()
    );
    assert_eq!(
        Error::Timeout { limit: 1000000 }.message(),
        b"program not finished in 1000000 steps".to_vec()
    );
    assert_eq!(
        Error::TooMuchRotate { limit: 0 }.message(),
        b"r command costs exceeded limit of 0".to_vec()
    );
    assert_eq!(Error::CodeIsBig { limit: 42 }.message(), b"rows * cols > 42".to_vec());
    assert_eq!(Error::BlankStart.message(), b"top left is blank".to_vec());
    assert_eq!(
        Error::NonAscii { ch: '한' }.message(),
        "non-ascii char `한`".as_bytes().to_vec()
    );
    assert_eq!(
        Error::Overflow { ch: '+', row: 0, col: 13 }.message(),
        b"overflow `+` at row 0, col 13".to_vec()
    );
    assert_eq!(
        Error::Syntax { ch: '뷁', row: 4294967295, col: 7 }.message(),
        "unexpected char `뷁` at row 4294967295, col 7".as_bytes().to_vec()
    );
    assert_eq!(
        Error::NonAscii { ch: '\u{1F600}' }.message(),
        "non-ascii char `\u{1F600}`".as_bytes().to_vec()
    );
    assert_eq!(
        Error::Syntax { ch: '\u{e9}', row: 0, col: 0 }.message(),
        "unexpected char `\u{e9}` at row 0, col 0".as_bytes().to_vec()
    );
}

#[test]
fn state_reports_the_running_program() {
    let mut error = [0u8; 8];
    let mut state = State::from_source_and_input(b"IO\nOO", b"k", &mut error).unwrap();
    assert_eq!(error, [0u8; 8]);
    assert_eq!(state.area_indices_flatten(), vec![2, 1, 2, 2, 2, 2]);
    assert_eq!(state.next_index(), 1);
    assert_eq!(state.next_cmd(), b'I');
    assert_eq!(state.next_len(), 1);
    assert!(state.step().is_empty());
    assert_eq!(state.stack(), vec![b'k' as i64]);
    assert_eq!(state.next_cmd(), b'O');
    assert_eq!(state.next_len(), 3);
    assert_eq!(state.steps(), 1);
    assert!(state.step().is_empty());
    assert_eq!(state.output(), b"k".to_vec());
    assert!(state.finished());
    assert_eq!((state.dp(), state.cc()), (0, 0));
    assert_eq!((state.timeout_limit(), state.r_limit(), state.r_sum()), (1000000, 1000000, 0));
}

#[test]
fn state_step_answers_with_the_message() {
    let mut error = [0u8; 4];
    let mut state = State::from_source_and_input(b"#", b"", &mut error).unwrap();
    assert_eq!(state.step(), b"unexpected char `#` at row 0, col 0".to_vec());
    assert!(state.finished());
}

#[test]
fn state_copies_what_fits_of_the_message() {
    let mut error = [b'.'; 5];
    assert!(State::from_source_and_input(b" P", b"", &mut error).is_none());
    assert_eq!(&error, b"top l");
    let mut error = [b'.'; 20];
    assert!(State::from_source_and_input(b" P", b"", &mut error).is_none());
    assert_eq!(&error, b"top left is blank...");
}

#[test]
fn state_reads_invalid_utf8_with_replacement() {
    let mut error = [0u8; 64];
    assert!(State::from_source_and_input(&[0xff], b"", &mut error).is_none());
    let msg = "non-ascii char `\u{FFFD}`".as_bytes();
    assert_eq!(&error[..msg.len()], msg);
}

#[test]
fn block_default_is_empty() {
    let b = chocolate::Block::default();
    assert_eq!((b.cmd, b.len), (0, 0));
    assert_eq!(b.fronts, [[None, None]; 4]);
}

#[test]
fn rows_from_lines_checks_the_grid() {
    let lines = vec![vec!['P', 'O'], vec!['O']];
    assert_eq!(rows_from_lines(&lines, 4), Ok(vec![vec![b'P', b'O'], vec![b'O']]));
    assert_eq!(rows_from_lines(&lines, 3), Err(Error::CodeIsBig { limit: 3 }));
    let lines = vec![vec!['P'], vec!['\u{e9}']];
    assert_eq!(rows_from_lines(&lines, 100), Err(Error::NonAscii { ch: '\u{e9}' }));
    let lines = vec![vec![' ', 'P']];
    assert_eq!(rows_from_lines(&lines, 100), Err(Error::BlankStart));
    assert_eq!(rows_from_lines(&Vec::new(), 100), Err(Error::BlankStart));
}

#[test]
fn parse_raw_code_splits_and_trims_lines() {
    assert_eq!(
        parse_raw_code("PO \r\nO\t\n\nzz", 100),
        Ok(vec![vec![b'P', b'O'], vec![b'O']])
    );
}

#[test]
fn run_reads_only_what_the_program_asks_for() {
    let mut output = Vec::new();
    let mut pos = 0;
    let res = run("I  O\nIIIO\n   O", b"AB", &mut pos, &mut output);
    assert_eq!(res, Ok(()));
    assert_eq!(output, b"A".to_vec());
    assert_eq!(pos, 1);
    // reading goes on from where the position stands
    let mut output = Vec::new();
    let res = run("I  O\nIIIO\n   O", b"AB", &mut pos, &mut output);
    assert_eq!(res, Ok(()));
    assert_eq!(output, b"B".to_vec());
    assert_eq!(pos, 2);
    // a program that cannot be loaded reads nothing
    let mut pos = 0;
    assert_eq!(run(" I", b"AB", &mut pos, &mut Vec::new()), Err(Error::BlankStart));
    assert_eq!(pos, 0);
}

#[test]
fn direction_out_of_range_only_matters_for_the_move() {
    // a step that fails before the move works with any pointer
    let mut state = RunState::from_source("#", Vec::new(), Vec::new(), 100, 10, 10).unwrap();
    state.dp = 9;
    assert!(!state.step_would_abort());
    assert_eq!(state.step(), Err(Error::Syntax { ch: '#', row: 0, col: 0 }));
    // `D` brings the pointer back into range before the move
    let mut state = RunState::from_source("D", Vec::new(), Vec::new(), 100, 10, 10).unwrap();
    state.stack = vec![3];
    state.dp = 9;
    assert!(!state.step_would_abort());
    assert_eq!(state.step(), Ok(()));
    assert_eq!(state.dp, 0);
    // a successful command followed by a move with the pointer out of range would abort
    let mut state = RunState::from_source("p", Vec::new(), Vec::new(), 100, 10, 10).unwrap();
    state.dp = 9;
    assert!(state.step_would_abort());
    // so would `D` when the pointer's byte overflows
    let mut state = RunState::from_source("D", Vec::new(), Vec::new(), 100, 10, 10).unwrap();
    state.stack = vec![3];
    state.dp = 254;
    assert!(state.step_would_abort());
}

#[test]
fn messages_fit_in_256_bytes() {
    let longest = Error::Syntax { ch: '\u{10FFFF}', row: u32::MAX, col: u32::MAX }.message();
    assert!(longest.len() <= 256);
    assert_eq!(longest.len(), 56);
}
