use bf::ast::{parse_program, Instruction};
use bf::common::{command_of, Command, Error, LOOP_BEGIN, LOOP_END};

fn mk_left() -> Instruction {
    Instruction::Op(Command::Left)
}

fn mk_right() -> Instruction {
    Instruction::Op(Command::Right)
}

fn mk_up() -> Instruction {
    Instruction::Op(Command::Up)
}

fn mk_down() -> Instruction {
    Instruction::Op(Command::Down)
}

fn mk_in() -> Instruction {
    Instruction::Op(Command::In)
}

fn mk_out() -> Instruction {
    Instruction::Op(Command::Out)
}

fn mk_loop(instructions: Vec<Instruction>) -> Instruction {
    Instruction::Loop(instructions)
}

fn assert_parse(input: &str, program: Vec<Instruction>) {
    assert_eq!(parse_program(input.as_bytes()), Ok(program));
}

fn assert_parse_error(input: &str, message: Error) {
    assert_eq!(parse_program(input.as_bytes()), Err(message));
}

#[test]
fn single_byte_instructions_parse() {
    assert_parse("<", vec![mk_left()]);
    assert_parse(">", vec![mk_right()]);
    assert_parse("+", vec![mk_up()]);
    assert_parse("-", vec![mk_down()]);
    assert_parse(",", vec![mk_in()]);
    assert_parse(".", vec![mk_out()]);
}

#[test]
fn multiple_instructions_parse() {
    assert_parse(
        "<><>+-+-.",
        vec![
            mk_left(),
            mk_right(),
            mk_left(),
            mk_right(),
            mk_up(),
            mk_down(),
            mk_up(),
            mk_down(),
            mk_out(),
        ],
    );
}

#[test]
fn empty_program_parses() {
    assert_parse("", vec![]);
}

#[test]
fn empty_loop_parses() {
    assert_parse("[]", vec![mk_loop(vec![])]);
}

#[test]
fn non_empty_loop_parses() {
    assert_parse("[<]", vec![mk_loop(vec![mk_left()])]);
    assert_parse("[<.>]", vec![mk_loop(vec![mk_left(), mk_out(), mk_right()])]);
}

#[test]
fn nested_loops_parse() {
    assert_parse("[<[]]", vec![mk_loop(vec![mk_left(), mk_loop(vec![])])]);
    assert_parse(
        "[<[+],]",
        vec![mk_loop(vec![mk_left(), mk_loop(vec![mk_up()]), mk_in()])],
    );
}

#[test]
fn comment_is_ignored() {
    assert_parse("hello <", vec![mk_left()]);
    assert_parse(
        "h[e<l[l+o] ,world]",
        vec![mk_loop(vec![mk_left(), mk_loop(vec![mk_up()]), mk_in()])],
    );
}

#[test]
fn trailing_comment_is_ignored() {
    assert_parse("< hello", vec![mk_left()]);
}

#[test]
fn all_comment_program_parses() {
    assert_parse("hello", vec![]);
}

#[test]
fn left_bracket_without_right_is_error() {
    assert_parse_error("[", Error::UnmatchedBegin);
    assert_parse_error("[<[.]", Error::UnmatchedBegin);
}

#[test]
fn right_bracket_without_left_is_error() {
    assert_parse_error("]", Error::UnmatchedEnd);
    assert_parse_error(".[.].]", Error::UnmatchedEnd);
}

#[test]
fn unmatched_end_wins_over_a_later_unmatched_begin() {
    assert_parse_error("][", Error::UnmatchedEnd);
    assert_parse_error("[]]x[", Error::UnmatchedEnd);
}

#[test]
fn comment_before_the_closing_bracket_is_ignored() {
    assert_parse("[+ up ] done", vec![mk_loop(vec![mk_up()])]);
    assert_parse_error("[+ up", Error::UnmatchedBegin);
}

#[test]
fn each_command_has_its_byte() {
    assert_eq!(command_of(b'<'), Some(Command::Left));
    assert_eq!(command_of(b'>'), Some(Command::Right));
    assert_eq!(command_of(b'+'), Some(Command::Up));
    assert_eq!(command_of(b'-'), Some(Command::Down));
    assert_eq!(command_of(b','), Some(Command::In));
    assert_eq!(command_of(b'.'), Some(Command::Out));
    assert_eq!(LOOP_BEGIN, b'[');
    assert_eq!(LOOP_END, b']');
    for byte in 0..=255u8 {
        if !b"<>+-,.".contains(&byte) {
            assert_eq!(command_of(byte), None);
        }
    }
}

#[test]
fn deep_nesting_parses() {
    let mut source = Vec::new();
    for _ in 0..200 {
        source.push(b'[');
    }
    source.push(b'+');
    for _ in 0..200 {
        source.push(b']');
    }
    let mut expected = vec![mk_up()];
    for _ in 0..200 {
        expected = vec![mk_loop(expected)];
    }
    assert_eq!(parse_program(&source), Ok(expected));
    source.pop();
    assert_eq!(parse_program(&source), Err(Error::UnmatchedBegin));
    source.push(b']');
    source.push(b']');
    assert_eq!(parse_program(&source), Err(Error::UnmatchedEnd));
}
