use bf::parser::{parse, Instr, ParseError};

#[test]
fn instruction_set() {
    let instructions = vec!['+', '-', '>', '<', '.', ',', '[', ']'];
    let parsed = parse(instructions).unwrap();
    assert_eq!(
        vec![
            Instr::Increment,
            Instr::Decrement,
            Instr::MoveRight,
            Instr::MoveLeft,
            Instr::Output,
            Instr::Input,
            Instr::JumpIfZero(7),
            Instr::JumpIfNonZero(6),
        ],
        parsed
    );
}

#[test]
fn bracket_pair_targets_are_mutual() {
    let parsed = parse(vec!['[', ']']).unwrap();
    assert_eq!(vec![Instr::JumpIfZero(1), Instr::JumpIfNonZero(0)], parsed);
}

#[test]
fn unrecognized_characters_contribute_no_instruction() {
    // comment text between the brackets must not shift the jump targets
    let noisy = parse("a [x]! b".chars().collect()).unwrap();
    let clean = parse(vec!['[', ']']).unwrap();
    assert_eq!(clean, noisy);
}

#[test]
fn unmatched_closing_bracket_is_rejected() {
    assert_eq!(Err(ParseError::UnmatchedClosingBracket), parse(vec![']']));
    assert_eq!(
        Err(ParseError::UnmatchedClosingBracket),
        parse("+]<>".chars().collect())
    );
}

#[test]
fn unmatched_opening_bracket_is_rejected() {
    assert_eq!(Err(ParseError::UnmatchedOpeningBracket), parse(vec!['[']));
    assert_eq!(
        Err(ParseError::UnmatchedOpeningBracket),
        parse("[[]".chars().collect())
    );
}

#[test]
fn empty_and_all_skipped_sources_parse_to_the_empty_program() {
    assert_eq!(Ok(vec![]), parse(vec![]));
    assert_eq!(Ok(vec![]), parse("hello world".chars().collect()));
}

#[test]
fn nested_brackets_resolve_pairwise() {
    let parsed = parse("[[]]".chars().collect()).unwrap();
    assert_eq!(
        vec![
            Instr::JumpIfZero(3),
            Instr::JumpIfZero(2),
            Instr::JumpIfNonZero(1),
            Instr::JumpIfNonZero(0),
        ],
        parsed
    );
}

#[test]
fn dump_character_compiles() {
    let parsed = parse(vec!['#']).unwrap();
    assert_eq!(vec![Instr::DumpTape], parsed);
}
