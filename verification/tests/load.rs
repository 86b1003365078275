use pikevm::regex::bin::{load, LoadError, ParseError};
use pikevm::regex::{validate, Instruction, ProgramError};

#[test]
fn well_formed_program_is_accepted() {
    let program = vec![
        Instruction::Save(0),
        Instruction::Split(2, 4),
        Instruction::Range(b'a', b'a', false),
        Instruction::Jump(1),
        Instruction::Save(1),
        Instruction::Match,
    ];
    assert_eq!(validate(&program), Ok(()));
    assert_eq!(validate(&[Instruction::Match]), Ok(()));
}

#[test]
fn first_destination_outside_is_reported() {
    let jump = vec![Instruction::Jump(2), Instruction::Match];
    assert_eq!(validate(&jump), Err(ProgramError::TargetOutOfRange(0)));
    let split = vec![
        Instruction::Save(0),
        Instruction::Split(1, 3),
        Instruction::RangeBranch(b'a', b'z', 9),
    ];
    assert_eq!(validate(&split), Err(ProgramError::TargetOutOfRange(1)));
    let branch = vec![
        Instruction::Save(0),
        Instruction::Split(1, 2),
        Instruction::RangeBranch(b'a', b'z', 9),
        Instruction::Match,
    ];
    assert_eq!(validate(&branch), Err(ProgramError::TargetOutOfRange(2)));
    let first_half = vec![Instruction::Split(5, 0), Instruction::Match];
    assert_eq!(validate(&first_half), Err(ProgramError::TargetOutOfRange(0)));
}

#[test]
fn program_must_end_with_match() {
    assert_eq!(validate(&[]), Err(ProgramError::NoFinalMatch));
    assert_eq!(validate(&[Instruction::Die]), Err(ProgramError::NoFinalMatch));
    let open_end = vec![Instruction::Match, Instruction::Consume];
    assert_eq!(validate(&open_end), Err(ProgramError::NoFinalMatch));
}

#[test]
fn destination_outside_is_reported_before_the_missing_match() {
    let program = vec![Instruction::Jump(5), Instruction::Die];
    assert_eq!(validate(&program), Err(ProgramError::TargetOutOfRange(0)));
}

#[test]
fn load_decodes_and_checks() {
    let bytes = [
        0x80, 0x00, 0x00, 0x00, // save 0
        0x40, 0x00, 0x61, 0x61, // range a..a
        0x80, 0x01, 0x00, 0x00, // save 1
        0xE0, 0x00, 0x00, 0x00, // match
    ];
    assert_eq!(
        load(&bytes),
        Ok(vec![
            Instruction::Save(0),
            Instruction::Range(b'a', b'a', false),
            Instruction::Save(1),
            Instruction::Match,
        ])
    );
}

#[test]
fn load_reports_an_unknown_word_first() {
    let bytes = [
        0x00, 0x09, 0x00, 0x00, // jump 9: outside
        0xA0, 0x00, 0x00, 0x00, // unknown
    ];
    assert_eq!(load(&bytes), Err(LoadError::Word(ParseError { instruction: 0xA000_0000 })));
}

#[test]
fn load_reports_what_is_wrong_with_the_program() {
    let jump_out = [
        0x00, 0x09, 0x00, 0x00, // jump 9: outside
        0xE0, 0x00, 0x00, 0x00, // match
    ];
    assert_eq!(load(&jump_out), Err(LoadError::Program(ProgramError::TargetOutOfRange(0))));
    let no_match = [0x80, 0x00, 0x00, 0x00];
    assert_eq!(load(&no_match), Err(LoadError::Program(ProgramError::NoFinalMatch)));
    assert_eq!(load(&[]), Err(LoadError::Program(ProgramError::NoFinalMatch)));
}
