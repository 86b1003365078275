//! The instruction set of the virtual machine.

use vstd::prelude::*;

pub mod bin;

verus! {

/// One instruction of a compiled regular expression.
///
/// Program counters are indices into the program. `Match` and `Die` end a
/// thread, `Consume` and `Range` move it to the next input symbol, and the
/// others move it within the current input position.
#[derive(PartialEq, Eq, Debug, Clone, Copy, Structural)]
pub enum Instruction {
    /// The thread has found a match at the current input position.
    Match,
    /// Advance over one input symbol, whatever it is.
    Consume,
    /// The thread fails.
    Die,
    /// `Range(lo, hi, inverted)`: advance over the current symbol if it lies
    /// in `lo..=hi`, or, when `inverted`, if it lies outside.
    Range(u8, u8, bool),
    /// `RangeBranch(lo, hi, dest)`: without advancing, go to `dest` if the
    /// current symbol lies in `lo..=hi`, else to the next instruction.
    RangeBranch(u8, u8, usize),
    /// Go to the given instruction.
    Jump(usize),
    /// Continue at both instructions; the first has priority.
    Split(usize, usize),
    /// Record the current input index in the given capture slot.
    Save(usize),
}

/// Why a sequence of instructions is no program.
#[derive(PartialEq, Eq, Debug, Clone, Copy, Structural)]
pub enum ProgramError {
    /// The instruction at this program counter names a destination outside
    /// the program.
    TargetOutOfRange(usize),
    /// The last instruction is not `Match`, or there is no instruction.
    NoFinalMatch,
}

/// The destinations that the instruction at `pc` names lie in the program.
pub open spec fn targets_in_range(program: Seq<Instruction>, pc: int) -> bool {
    match program[pc] {
        Instruction::RangeBranch(_, _, dest) => dest < program.len(),
        Instruction::Jump(dest) => dest < program.len(),
        Instruction::Split(pc1, pc2) => pc1 < program.len() && pc2 < program.len(),
        _ => true,
    }
}

/// The last instruction of the program is `Match`.
pub open spec fn ends_with_match(program: Seq<Instruction>) -> bool {
    program.len() > 0 && program.last() == Instruction::Match
}

/// Every program counter that the program names is one of its own, and no
/// thread runs past its end.
pub open spec fn well_formed(program: Seq<Instruction>) -> bool {
    &&& ends_with_match(program)
    &&& forall|pc: int| 0 <= pc < program.len() ==> targets_in_range(program, pc)
}

/// The instruction at `pc` is the first that names a destination outside
/// the program.
pub open spec fn first_out_of_range(program: Seq<Instruction>, pc: int) -> bool {
    &&& 0 <= pc < program.len()
    &&& !targets_in_range(program, pc)
    &&& forall|before: int| 0 <= before < pc ==> targets_in_range(program, before)
}

/// What is wrong with a program, if anything: the first instruction with a
/// destination outside the program, or else a missing `Match` at the end.
pub open spec fn program_error(program: Seq<Instruction>) -> Option<ProgramError> {
    if exists|pc: int| first_out_of_range(program, pc) {
        Some(
            ProgramError::TargetOutOfRange(
                (choose|pc: int| first_out_of_range(program, pc)) as usize,
            ),
        )
    } else if !ends_with_match(program) {
        Some(ProgramError::NoFinalMatch)
    } else {
        None
    }
}

/// Checks a program as it is loaded. The first instruction with a
/// destination outside the program is reported; where there is none, a
/// program that does not end with `Match` is.
pub fn validate(program: &[Instruction]) -> (checked: Result<(), ProgramError>)
    ensures
        match checked {
            Ok(_) => well_formed(program@),
            Err(ProgramError::TargetOutOfRange(pc)) => first_out_of_range(program@, pc as int),
            Err(ProgramError::NoFinalMatch) => {
                &&& !ends_with_match(program@)
                &&& forall|pc: int| 0 <= pc < program@.len() ==> targets_in_range(program@, pc)
            },
        },
        checked == match program_error(program@) {
            Some(error) => Err::<(), ProgramError>(error),
            None => Ok::<(), ProgramError>(()),
        },
{
    let len = program.len();
    let mut pc: usize = 0;
    while pc < len
        invariant
            len == program@.len(),
            pc <= len,
            forall|before: int| 0 <= before < pc ==> targets_in_range(program@, before),
        decreases len - pc,
    {
        let in_range = match program[pc] {
            Instruction::RangeBranch(_, _, dest) => dest < len,
            Instruction::Jump(dest) => dest < len,
            Instruction::Split(pc1, pc2) => pc1 < len && pc2 < len,
            _ => true,
        };
        if !in_range {
            proof {
                assert(first_out_of_range(program@, pc as int));
                let chosen = choose|at: int| first_out_of_range(program@, at);
                assert(chosen == pc) by {
                    if chosen < pc {
                        assert(targets_in_range(program@, chosen));
                    } else if pc < chosen {
                        assert(targets_in_range(program@, pc as int));
                    }
                }
            }
            return Err(ProgramError::TargetOutOfRange(pc));
        }
        pc = pc + 1;
    }
    assert(forall|at: int| !first_out_of_range(program@, at));
    if len == 0 {
        return Err(ProgramError::NoFinalMatch);
    }
    match program[len - 1] {
        Instruction::Match => Ok(()),
        _ => Err(ProgramError::NoFinalMatch),
    }
}

} // verus!
