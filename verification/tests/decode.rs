use pikevm::interpreter::search;
use pikevm::regex::bin::{
    parse_branch, parse_bytes, parse_compare, parse_instruction, parse_jump, parse_save,
    parse_split, ParseError,
};
use pikevm::regex::Instruction;

#[test]
fn decodes_each_opcode() {
    assert_eq!(parse_instruction(&[0x00, 0x05, 0x00, 0x00]), Ok(Instruction::Jump(5)));
    assert_eq!(parse_instruction(&[0x20, 0x05, 0x00, 0x70]), Ok(Instruction::Split(5, 7)));
    assert_eq!(
        parse_instruction(&[0x40, 0x00, 0x61, 0x7A]),
        Ok(Instruction::Range(b'a', b'z', false))
    );
    assert_eq!(
        parse_instruction(&[0x50, 0x00, 0x61, 0x7A]),
        Ok(Instruction::Range(b'a', b'z', true))
    );
    assert_eq!(
        parse_instruction(&[0x60, 0x03, 0x30, 0x39]),
        Ok(Instruction::RangeBranch(b'0', b'9', 3))
    );
    assert_eq!(parse_instruction(&[0x80, 0x01, 0x00, 0x00]), Ok(Instruction::Save(1)));
    assert_eq!(parse_instruction(&[0xE0, 0x00, 0x00, 0x00]), Ok(Instruction::Match));
}

#[test]
fn unknown_opcodes_are_errors() {
    assert_eq!(
        parse_instruction(&[0xA0, 0x00, 0x00, 0x01]),
        Err(ParseError { instruction: 0xA000_0001 })
    );
    assert_eq!(
        parse_instruction(&[0xC1, 0x02, 0x03, 0x04]),
        Err(ParseError { instruction: 0xC102_0304 })
    );
    assert_eq!(
        parse_instruction(&[0xDF, 0xFF, 0xFF, 0xFF]),
        Err(ParseError { instruction: 0xDFFF_FFFF })
    );
}

#[test]
fn error_names_the_opcode() {
    let five = ParseError { instruction: 0xA000_0001 };
    assert_eq!(five.opcode(), 5);
    assert_eq!(five.message(), "Did not recognize opcode 0b101");
    let six = ParseError { instruction: 0xC102_0304 };
    assert_eq!(six.opcode(), 6);
    assert_eq!(six.message(), "Did not recognize opcode 0b110");
}

#[test]
fn fields_are_cut_out_of_the_word() {
    assert_eq!(parse_jump(0x0FFF_FFFF), Instruction::Jump(0xFFF));
    assert_eq!(parse_jump(0x1000_FFFF), Instruction::Jump(0));
    assert_eq!(parse_jump(0x0ABC_0000), Instruction::Jump(0xABC));
    assert_eq!(parse_split(0x2123_4567), Instruction::Split(0x123, 0x456));
    assert_eq!(parse_split(0x3FFF_FFFF), Instruction::Split(0xFFF, 0xFFF));
    assert_eq!(parse_split(0x2000_000F), Instruction::Split(0, 0));
    assert_eq!(parse_compare(0x4FFF_1234), Instruction::Range(0x12, 0x34, false));
    assert_eq!(parse_compare(0x5000_FF00), Instruction::Range(0xFF, 0x00, true));
    assert_eq!(parse_branch(0x6ABC_4142), Instruction::RangeBranch(0x41, 0x42, 0xABC));
    assert_eq!(parse_branch(0x7FFF_FFFF), Instruction::RangeBranch(0xFF, 0xFF, 0xFFF));
    assert_eq!(parse_save(0x803F_FFFF), Instruction::Save(63));
    assert_eq!(parse_save(0x8FC0_FFFF), Instruction::Save(0));
    assert_eq!(parse_save(0x8041_0000), Instruction::Save(1));
}

#[test]
fn highest_byte_comes_first() {
    assert_eq!(parse_instruction(&[0x00, 0x01, 0x00, 0x00]), Ok(Instruction::Jump(1)));
    assert_eq!(parse_instruction(&[0x01, 0x00, 0x00, 0x00]), Ok(Instruction::Jump(0x100)));
    assert_eq!(parse_instruction(&[0x00, 0x00, 0x01, 0x00]), Ok(Instruction::Jump(0)));
}

#[test]
fn bytes_after_the_fourth_are_not_read() {
    assert_eq!(
        parse_instruction(&[0xE0, 0x00, 0x00, 0x00, 0xA0, 0x00]),
        Ok(Instruction::Match)
    );
}

#[test]
fn decodes_a_whole_program() {
    let bytes = [
        0x80, 0x00, 0x00, 0x00, // save 0
        0x40, 0x00, 0x61, 0x61, // range a..a
        0x80, 0x01, 0x00, 0x00, // save 1
        0xE0, 0x00, 0x00, 0x00, // match
    ];
    let program = parse_bytes(&bytes).expect("a program");
    assert_eq!(
        program,
        vec![
            Instruction::Save(0),
            Instruction::Range(b'a', b'a', false),
            Instruction::Save(1),
            Instruction::Match,
        ]
    );
    assert_eq!(search(&program, "xxa"), Some((2, 3)));
}

#[test]
fn empty_buffer_is_an_empty_program() {
    assert_eq!(parse_bytes(&[]), Ok(vec![]));
}

#[test]
fn trailing_bytes_are_left_aside() {
    assert_eq!(parse_bytes(&[0xE0, 0x00, 0x00]), Ok(vec![]));
    assert_eq!(
        parse_bytes(&[0xE0, 0x00, 0x00, 0x00, 0xA0, 0x00, 0x00]),
        Ok(vec![Instruction::Match])
    );
}

#[test]
fn first_unknown_word_is_reported() {
    let bytes = [
        0xE0, 0x00, 0x00, 0x00, // match
        0xC0, 0x00, 0x00, 0x07, // unknown
        0xA0, 0x00, 0x00, 0x09, // unknown
    ];
    assert_eq!(parse_bytes(&bytes), Err(ParseError { instruction: 0xC000_0007 }));
}

#[test]
fn message_names_every_opcode_in_binary() {
    assert_eq!(ParseError { instruction: 0 }.message(), "Did not recognize opcode 0b000");
    assert_eq!(
        ParseError { instruction: 0x2000_0000 }.message(),
        "Did not recognize opcode 0b001"
    );
    assert_eq!(
        ParseError { instruction: 0x4000_0000 }.message(),
        "Did not recognize opcode 0b010"
    );
    assert_eq!(
        ParseError { instruction: 0x6000_0000 }.message(),
        "Did not recognize opcode 0b011"
    );
    assert_eq!(
        ParseError { instruction: 0x8000_0000 }.message(),
        "Did not recognize opcode 0b100"
    );
    assert_eq!(
        ParseError { instruction: 0xFFFF_FFFF }.message(),
        "Did not recognize opcode 0b111"
    );
}
