//! The packed binary encoding of programs.
//!
//! An instruction is a word of 32 bits, stored with its highest byte first.
//! The three highest bits are the opcode. Below them lie, as the opcode asks,
//! a flag of one bit, destinations of twelve bits, a capture slot of six bits
//! and the two bounds of a range of symbols, of eight bits each.

use crate::regex::{program_error, validate, well_formed, Instruction, ProgramError};
use vstd::prelude::*;

verus! {

pub const OPCODE_MASK: u32 = 0xe000_0000;

pub const SAVE_INDEX_MASK: u32 = 0x003F_0000;

pub const INVERTED_MASK: u32 = 0x1000_0000;

pub const DEST_MASK: u32 = 0x0FFF_0000;

pub const DEST2_MASK: u32 = 0x0000_FFF0;

pub const CHAR_MIN_MASK: u32 = 0x0000_FF00;

pub const CHAR_MAX_MASK: u32 = 0x0000_00FF;

pub const OPCODE_SHIFT: u32 = 29;

pub const SAVE_INDEX_SHIFT: u32 = 16;

pub const DEST_SHIFT: u32 = 16;

pub const DEST2_SHIFT: u32 = 4;

pub const CHAR_MIN_SHIFT: u32 = 8;

pub const CHAR_MAX_SHIFT: u32 = 0;

/// The word that four bytes store, highest byte first.
pub open spec fn word_of(bytes: Seq<u8>) -> int {
    bytes[0] * 0x100_0000 + bytes[1] * 0x1_0000 + bytes[2] * 0x100 + bytes[3]
}

/// The `k`-th word of a buffer.
pub open spec fn word_at(buf: Seq<u8>, k: int) -> int {
    word_of(buf.subrange(4 * k, 4 * k + 4))
}

/// The opcode of a word: its three highest bits.
pub open spec fn opcode_of(word: int) -> int {
    word / 0x2000_0000
}

/// The first destination of a word: twelve bits from bit 16 on.
pub open spec fn dest_of(word: int) -> int {
    (word / 0x1_0000) % 0x1000
}

/// The second destination of a word: twelve bits from bit 4 on.
pub open spec fn dest2_of(word: int) -> int {
    (word / 0x10) % 0x1000
}

/// The capture slot of a word: six bits from bit 16 on.
pub open spec fn save_index_of(word: int) -> int {
    (word / 0x1_0000) % 0x40
}

/// Whether the range of a word is inverted: bit 28.
pub open spec fn inverted_of(word: int) -> bool {
    (word / 0x1000_0000) % 2 == 1
}

/// The lower bound of the range of a word: eight bits from bit 8 on.
pub open spec fn char_min_of(word: int) -> int {
    (word / 0x100) % 0x100
}

/// The upper bound of the range of a word: its eight lowest bits.
pub open spec fn char_max_of(word: int) -> int {
    word % 0x100
}

/// The instruction that a word encodes, or `None` for a word whose opcode
/// stands for no instruction.
pub open spec fn decode(word: int) -> Option<Instruction> {
    let opcode = opcode_of(word);
    if opcode == 0 {
        Some(Instruction::Jump(dest_of(word) as usize))
    } else if opcode == 1 {
        Some(Instruction::Split(dest_of(word) as usize, dest2_of(word) as usize))
    } else if opcode == 2 {
        Some(
            Instruction::Range(char_min_of(word) as u8, char_max_of(word) as u8, inverted_of(word)),
        )
    } else if opcode == 3 {
        Some(
            Instruction::RangeBranch(
                char_min_of(word) as u8,
                char_max_of(word) as u8,
                dest_of(word) as usize,
            ),
        )
    } else if opcode == 4 {
        Some(Instruction::Save(save_index_of(word) as usize))
    } else if opcode == 7 {
        Some(Instruction::Match)
    } else {
        None
    }
}

/// Word `k` of `buf` is the first that encodes no instruction.
pub open spec fn first_unknown(buf: Seq<u8>, k: int) -> bool {
    &&& 0 <= k < buf.len() / 4
    &&& decode(word_at(buf, k)) is None
    &&& forall|j: int| 0 <= j < k ==> decode(#[trigger] word_at(buf, j)) is Some
}

/// Every whole word of `buf` encodes an instruction.
pub open spec fn all_known(buf: Seq<u8>) -> bool {
    forall|k: int| 0 <= k < buf.len() / 4 ==> decode(#[trigger] word_at(buf, k)) is Some
}

/// The instructions that the whole words of `buf` encode.
pub open spec fn decoded(buf: Seq<u8>) -> Seq<Instruction> {
    Seq::new((buf.len() / 4) as nat, |k: int| decode(word_at(buf, k))->0)
}

/// The words that say that an opcode stands for no instruction.
pub open spec fn message_of(opcode: int) -> Seq<char> {
    if opcode == 0 {
        "Did not recognize opcode 0b000"@
    } else if opcode == 1 {
        "Did not recognize opcode 0b001"@
    } else if opcode == 2 {
        "Did not recognize opcode 0b010"@
    } else if opcode == 3 {
        "Did not recognize opcode 0b011"@
    } else if opcode == 4 {
        "Did not recognize opcode 0b100"@
    } else if opcode == 5 {
        "Did not recognize opcode 0b101"@
    } else if opcode == 6 {
        "Did not recognize opcode 0b110"@
    } else {
        "Did not recognize opcode 0b111"@
    }
}

/// A word that encodes no instruction.
#[derive(PartialEq, Eq, Debug, Clone, Copy, Structural)]
pub struct ParseError {
    /// The word as it was read.
    pub instruction: u32,
}

impl ParseError {
    /// The opcode of the word.
    pub fn opcode(&self) -> (opcode: u32)
        ensures
            opcode == opcode_of(self.instruction as int),
    {
        let instruction = self.instruction;
        assert((instruction & 0xe000_0000u32) >> 29u32 == instruction / 0x2000_0000u32)
            by (bit_vector);
        (self.instruction & OPCODE_MASK) >> OPCODE_SHIFT
    }

    /// What went wrong, in words, with the opcode in binary digits.
    pub fn message(&self) -> (message: &'static str)
        ensures
            message@ == message_of(opcode_of(self.instruction as int)),
    {
        let opcode = self.opcode();
        if opcode == 0 {
            "Did not recognize opcode 0b000"
        } else if opcode == 1 {
            "Did not recognize opcode 0b001"
        } else if opcode == 2 {
            "Did not recognize opcode 0b010"
        } else if opcode == 3 {
            "Did not recognize opcode 0b011"
        } else if opcode == 4 {
            "Did not recognize opcode 0b100"
        } else if opcode == 5 {
            "Did not recognize opcode 0b101"
        } else if opcode == 6 {
            "Did not recognize opcode 0b110"
        } else {
            "Did not recognize opcode 0b111"
        }
    }
}

/// Decodes the instructions of a buffer, four bytes each. Bytes after the
/// last whole word are left aside. The first word that encodes no instruction
/// ends the decoding and is returned as the error.
pub fn parse_bytes(buf: &[u8]) -> (parsed: Result<Vec<Instruction>, ParseError>)
    ensures
        match parsed {
            Ok(instructions) => all_known(buf@) && instructions@ == decoded(buf@),
            Err(error) => exists|k: int|
                first_unknown(buf@, k) && error.instruction == #[trigger] word_at(buf@, k),
        },
{
    let mut instructions: Vec<Instruction> = Vec::new();
    let mut i: usize = 0;
    while buf.len() - i >= 4
        invariant
            i <= buf@.len(),
            i == 4 * instructions@.len(),
            forall|k: int|
                0 <= k < instructions@.len() ==> decode(#[trigger] word_at(buf@, k)) == Some(
                    instructions@[k],
                ),
        decreases buf@.len() - i,
    {
        let chunk = &buf[i..i + 4];
        let ghost k = instructions@.len() as int;
        assert(chunk@ == buf@.subrange(4 * k, 4 * k + 4));
        match parse_instruction(chunk) {
            Ok(inst) => {
                instructions.push(inst);
            },
            Err(error) => {
                assert(first_unknown(buf@, k));
                return Err(error);
            },
        }
        i = i + 4;
    }
    assert(instructions@ =~= decoded(buf@));
    Ok(instructions)
}

/// Why a buffer holds no program.
#[derive(PartialEq, Eq, Debug, Clone, Copy, Structural)]
pub enum LoadError {
    /// A word encodes no instruction.
    Word(ParseError),
    /// The instructions are no program.
    Program(ProgramError),
}

/// Loads a program: decodes the instructions of a buffer and checks them.
/// A word that encodes no instruction is reported before anything else.
pub fn load(buf: &[u8]) -> (loaded: Result<Vec<Instruction>, LoadError>)
    ensures
        match loaded {
            Ok(program) => {
                &&& all_known(buf@)
                &&& program@ == decoded(buf@)
                &&& well_formed(program@)
            },
            Err(LoadError::Word(error)) => exists|k: int|
                first_unknown(buf@, k) && error.instruction == #[trigger] word_at(buf@, k),
            Err(LoadError::Program(error)) => {
                &&& all_known(buf@)
                &&& program_error(decoded(buf@)) == Some(error)
            },
        },
{
    match parse_bytes(buf) {
        Ok(program) => match validate(program.as_slice()) {
            Ok(_) => Ok(program),
            Err(error) => Err(LoadError::Program(error)),
        },
        Err(error) => Err(LoadError::Word(error)),
    }
}

/// Decodes one instruction from the first four bytes of `bytes`.
pub fn parse_instruction(bytes: &[u8]) -> (parsed: Result<Instruction, ParseError>)
    requires
        bytes@.len() >= 4,
    ensures
        match decode(word_of(bytes@)) {
            Some(inst) => parsed == Ok::<Instruction, ParseError>(inst),
            None => parsed == Err::<Instruction, ParseError>(
                ParseError { instruction: word_of(bytes@) as u32 },
            ),
        },
        parsed matches Err(error) ==> error.instruction == word_of(bytes@),
{
    let (b1, b2, b3, b4) = (bytes[0] as u32, bytes[1] as u32, bytes[2] as u32, bytes[3] as u32);
    let combined = b1 << 24 | b2 << 16 | b3 << 8 | b4;
    assert(b1 << 24u32 | b2 << 16u32 | b3 << 8u32 | b4 == b1 * 0x100_0000 + b2 * 0x1_0000 + b3
        * 0x100 + b4) by (bit_vector)
        requires
            b1 < 256,
            b2 < 256,
            b3 < 256,
            b4 < 256,
    ;
    assert(combined == word_of(bytes@));

    let opcode = (combined & OPCODE_MASK) >> OPCODE_SHIFT;
    assert((combined & 0xe000_0000u32) >> 29u32 == combined / 0x2000_0000u32) by (bit_vector);
    assert(combined / 0x2000_0000u32 < 8) by (bit_vector);

    if opcode == 0b000 {
        Ok(parse_jump(combined))
    } else if opcode == 0b001 {
        Ok(parse_split(combined))
    } else if opcode == 0b010 {
        Ok(parse_compare(combined))
    } else if opcode == 0b011 {
        Ok(parse_branch(combined))
    } else if opcode == 0b100 {
        Ok(parse_save(combined))
    } else if opcode == 0b111 {
        Ok(Instruction::Match)
    } else {
        Err(ParseError { instruction: combined })
    }
}

/// The jump that a word with opcode 0 encodes.
pub fn parse_jump(instruction: u32) -> (inst: Instruction)
    ensures
        inst == Instruction::Jump(dest_of(instruction as int) as usize),
{
    let dest = (instruction & DEST_MASK) >> DEST_SHIFT;
    assert((instruction & 0x0FFF_0000u32) >> 16u32 == (instruction / 0x1_0000u32) % 0x1000u32)
        by (bit_vector);
    Instruction::Jump(dest as usize)
}

/// The split that a word with opcode 1 encodes.
pub fn parse_split(instruction: u32) -> (inst: Instruction)
    ensures
        inst == Instruction::Split(
            dest_of(instruction as int) as usize,
            dest2_of(instruction as int) as usize,
        ),
{
    let dest1 = (instruction & DEST_MASK) >> DEST_SHIFT;
    let dest2 = (instruction & DEST2_MASK) >> DEST2_SHIFT;
    assert((instruction & 0x0FFF_0000u32) >> 16u32 == (instruction / 0x1_0000u32) % 0x1000u32)
        by (bit_vector);
    assert((instruction & 0x0000_FFF0u32) >> 4u32 == (instruction / 0x10u32) % 0x1000u32)
        by (bit_vector);
    Instruction::Split(dest1 as usize, dest2 as usize)
}

/// The range test that a word with opcode 2 encodes.
pub fn parse_compare(instruction: u32) -> (inst: Instruction)
    ensures
        inst == Instruction::Range(
            char_min_of(instruction as int) as u8,
            char_max_of(instruction as int) as u8,
            inverted_of(instruction as int),
        ),
{
    let inverted = (instruction & INVERTED_MASK) != 0;
    let char_min = (instruction & CHAR_MIN_MASK) >> CHAR_MIN_SHIFT;
    let char_max = (instruction & CHAR_MAX_MASK) >> CHAR_MAX_SHIFT;
    assert(((instruction & 0x1000_0000u32) != 0) == ((instruction / 0x1000_0000u32) % 2 == 1))
        by (bit_vector);
    assert((instruction & 0x0000_FF00u32) >> 8u32 == (instruction / 0x100u32) % 0x100u32)
        by (bit_vector);
    assert((instruction & 0x0000_00FFu32) >> 0u32 == instruction % 0x100u32) by (bit_vector);
    Instruction::Range(char_min as u8, char_max as u8, inverted)
}

/// The branch on a range that a word with opcode 3 encodes.
pub fn parse_branch(instruction: u32) -> (inst: Instruction)
    ensures
        inst == Instruction::RangeBranch(
            char_min_of(instruction as int) as u8,
            char_max_of(instruction as int) as u8,
            dest_of(instruction as int) as usize,
        ),
{
    let dest = (instruction & DEST_MASK) >> DEST_SHIFT;
    let char_min = (instruction & CHAR_MIN_MASK) >> CHAR_MIN_SHIFT;
    let char_max = (instruction & CHAR_MAX_MASK) >> CHAR_MAX_SHIFT;
    assert((instruction & 0x0FFF_0000u32) >> 16u32 == (instruction / 0x1_0000u32) % 0x1000u32)
        by (bit_vector);
    assert((instruction & 0x0000_FF00u32) >> 8u32 == (instruction / 0x100u32) % 0x100u32)
        by (bit_vector);
    assert((instruction & 0x0000_00FFu32) >> 0u32 == instruction % 0x100u32) by (bit_vector);
    Instruction::RangeBranch(char_min as u8, char_max as u8, dest as usize)
}

/// The save that a word with opcode 4 encodes.
pub fn parse_save(instruction: u32) -> (inst: Instruction)
    ensures
        inst == Instruction::Save(save_index_of(instruction as int) as usize),
{
    let index = (instruction & SAVE_INDEX_MASK) >> SAVE_INDEX_SHIFT;
    assert((instruction & 0x003F_0000u32) >> 16u32 == (instruction / 0x1_0000u32) % 0x40u32)
        by (bit_vector);
    Instruction::Save(index as usize)
}

} // verus!
