//! What the interpreter computes, stated over sequences.
//!
//! A program is a sequence of instructions, the input a sequence of symbols,
//! a thread list a table from program counters to groups. The functions of
//! this module say, in that order, what one instruction does to one group,
//! what one pass over a thread list does, what one input position does, and
//! what a whole search returns.

use crate::interpreter::thread::{
    bag_has_pair,
    bag_matches,
    bag_save,
    captures_save,
    empty_threads,
    fresh_captures,
    groups_of,
    threads_add,
    threads_empty,
    Bag,
    Threads,
};
use crate::regex::Instruction;
use vstd::prelude::*;

verus! {

/// The symbol that stands for a character of the input: its byte for an
/// ASCII character, and for any other the byte `0xFE`, which no ASCII
/// character has.
pub open spec fn symbol_of(c: char) -> u8 {
    if (c as u32) < 128 {
        c as u8
    } else {
        0xFEu8
    }
}

/// The symbols of a text, one for each character.
pub open spec fn symbols_of(text: Seq<char>) -> Seq<u8> {
    text.map_values(|c: char| symbol_of(c))
}

/// The number of capture slots that the threads of a program carry: two for
/// the overall match, and enough for the highest slot that an instruction
/// records.
pub open spec fn slots_needed(program: Seq<Instruction>) -> usize
    decreases program.len(),
{
    if program.len() == 0 {
        2usize
    } else {
        let before = slots_needed(program.drop_last());
        match program.last() {
            Instruction::Save(slot) => if slot < before {
                before
            } else if slot < usize::MAX {
                (slot + 1) as usize
            } else {
                usize::MAX
            },
            _ => before,
        }
    }
}

/// Every group of `threads` has the two slots of the overall match in each
/// of its capture vectors.
pub open spec fn threads_have_pair(threads: Threads) -> bool {
    forall|pc: int|
        0 <= pc < threads.len() ==> (#[trigger] threads[pc] matches Some(bag) ==> bag_has_pair(
            bag,
            0,
        ))
}

/// The state of one pass over a thread list: the threads that go on at this
/// input position, those that wait for the next one, and the matches found.
pub struct Progress {
    pub temp: Threads,
    pub next: Threads,
    pub matches: Seq<(usize, usize)>,
}

/// Whether `symbol` lies in `lo..=hi`.
pub open spec fn in_range(lo: u8, hi: u8, symbol: u8) -> bool {
    lo <= symbol <= hi
}

/// `progress` after the instruction at the program counter of `group` has
/// run for the threads of the group, at input index `index`, where the input
/// holds `symbol`, or nothing at its end.
pub open spec fn dispatch(
    program: Seq<Instruction>,
    group: (int, Bag),
    index: usize,
    symbol: Option<u8>,
    progress: Progress,
) -> Progress {
    let (pc, bag) = group;
    match program[pc] {
        Instruction::Match => Progress {
            matches: progress.matches + bag_matches(bag, 0),
            ..progress
        },
        Instruction::Die => progress,
        Instruction::Consume => match symbol {
            Some(_) => Progress { next: threads_add(progress.next, pc + 1, bag), ..progress },
            None => progress,
        },
        Instruction::Range(lo, hi, inverted) => match symbol {
            Some(s) => if in_range(lo, hi, s) != inverted {
                Progress { next: threads_add(progress.next, pc + 1, bag), ..progress }
            } else {
                progress
            },
            None => progress,
        },
        Instruction::RangeBranch(lo, hi, dest) => match symbol {
            Some(s) => if in_range(lo, hi, s) {
                Progress { temp: threads_add(progress.temp, dest as int, bag), ..progress }
            } else {
                Progress { temp: threads_add(progress.temp, pc + 1, bag), ..progress }
            },
            None => progress,
        },
        Instruction::Jump(dest) => Progress {
            temp: threads_add(progress.temp, dest as int, bag),
            ..progress
        },
        Instruction::Split(pc1, pc2) => Progress {
            temp: threads_add(threads_add(progress.temp, pc1 as int, bag), pc2 as int, bag),
            ..progress
        },
        Instruction::Save(slot) => Progress {
            temp: threads_add(progress.temp, pc + 1, bag_save(bag, slot as int, index)),
            ..progress
        },
    }
}

/// A thread that rests at `pc` goes on, without taking the input symbol, to
/// `target`.
pub open spec fn goes_to(
    program: Seq<Instruction>,
    symbol: Option<u8>,
    pc: int,
    target: int,
) -> bool {
    &&& 0 <= pc < program.len()
    &&& 0 <= target < program.len()
    &&& match program[pc] {
        Instruction::RangeBranch(lo, hi, dest) => {
            &&& symbol matches Some(s)
            &&& target == (if in_range(lo, hi, s) {
                dest as int
            } else {
                pc + 1
            })
        },
        Instruction::Jump(dest) => target == dest,
        Instruction::Split(pc1, pc2) => target == pc1 || target == pc2,
        Instruction::Save(_) => target == pc + 1,
        _ => false,
    }
}

/// The captures of a thread after the instruction at `pc` has run at input
/// index `index`.
pub open spec fn captures_after(
    program: Seq<Instruction>,
    index: usize,
    pc: int,
    captures: Seq<usize>,
) -> Seq<usize> {
    match program[pc] {
        Instruction::Save(slot) => captures_save(captures, slot as int, index),
        _ => captures,
    }
}

/// A thread that rests at `pc` with `captures` goes on, without taking the
/// input symbol, to `target` with the captures `after`.
pub open spec fn goes_on(
    program: Seq<Instruction>,
    index: usize,
    symbol: Option<u8>,
    pc: int,
    captures: Seq<usize>,
    target: int,
    after: Seq<usize>,
) -> bool {
    goes_to(program, symbol, pc, target) && after == captures_after(program, index, pc, captures)
}

/// A thread that rests at `pc` takes the input symbol and waits at `pc + 1`
/// for the next input position.
pub open spec fn takes(program: Seq<Instruction>, symbol: Option<u8>, pc: int) -> bool {
    &&& 0 <= pc
    &&& pc + 1 < program.len()
    &&& symbol matches Some(s)
    &&& match program[pc] {
        Instruction::Consume => true,
        Instruction::Range(lo, hi, inverted) => in_range(lo, hi, s) != inverted,
        _ => false,
    }
}

/// `progress` after each of `groups` has run its instruction, in order.
pub open spec fn sweep(
    program: Seq<Instruction>,
    groups: Seq<(int, Bag)>,
    index: usize,
    symbol: Option<u8>,
    progress: Progress,
) -> Progress
    decreases groups.len(),
{
    if groups.len() == 0 {
        progress
    } else {
        sweep(
            program,
            groups.drop_first(),
            index,
            symbol,
            dispatch(program, groups[0], index, symbol, progress),
        )
    }
}

/// What is left when the threads of `current` have run until none of them
/// goes on at this input position, or until `rounds` passes are used up: the
/// threads that wait for the next position, added to `next`, and the matches
/// found, in the order in which they were found.
pub open spec fn closure(
    program: Seq<Instruction>,
    current: Threads,
    next: Threads,
    index: usize,
    symbol: Option<u8>,
    rounds: nat,
) -> (Threads, Seq<(usize, usize)>)
    decreases rounds,
{
    if rounds == 0 || threads_empty(current) {
        (next, Seq::empty())
    } else {
        let pass = sweep(
            program,
            groups_of(current),
            index,
            symbol,
            Progress { temp: empty_threads(current.len()), next, matches: Seq::empty() },
        );
        let rest = closure(program, pass.temp, pass.next, index, symbol, (rounds - 1) as nat);
        (rest.0, pass.matches + rest.1)
    }
}

/// The number of passes that are made at one input position when the
/// threads of `current` run and at most `rounds` passes are allowed: a pass
/// is made as long as a thread is left that goes on.
pub open spec fn passes_made(
    program: Seq<Instruction>,
    current: Threads,
    next: Threads,
    index: usize,
    symbol: Option<u8>,
    rounds: nat,
) -> nat
    decreases rounds,
{
    if rounds == 0 || threads_empty(current) {
        0
    } else {
        let pass = sweep(
            program,
            groups_of(current),
            index,
            symbol,
            Progress { temp: empty_threads(current.len()), next, matches: Seq::empty() },
        );
        1 + passes_made(program, pass.temp, pass.next, index, symbol, (rounds - 1) as nat)
    }
}

/// One input position: the threads that wait for the next position and the
/// matches found, when the threads of `current` run at input index `index`.
/// No more passes are made than the program has instructions.
pub open spec fn step(
    program: Seq<Instruction>,
    current: Threads,
    index: usize,
    symbol: Option<u8>,
) -> (Threads, Seq<(usize, usize)>) {
    closure(program, current, empty_threads(program.len()), index, symbol, program.len())
}

/// `current` with a thread that starts the program and has recorded nothing.
pub open spec fn seeded(current: Threads, slots: nat) -> Threads {
    threads_add(current, 0, seq![fresh_captures(slots)])
}

/// The symbol at input index `index`, or `None` at the end of the input.
pub open spec fn symbol_at(symbols: Seq<u8>, index: int) -> Option<u8> {
    if 0 <= index < symbols.len() {
        Some(symbols[index])
    } else {
        None
    }
}

/// The matches found at the input indices from `from` up to, but not
/// including, `upto`, in the order in which they are found, when `current`
/// holds the threads that have come as far as `from`. At each index a new
/// thread starts.
pub open spec fn matches_between(
    program: Seq<Instruction>,
    symbols: Seq<u8>,
    from: int,
    upto: int,
    current: Threads,
    slots: nat,
) -> Seq<(usize, usize)>
    decreases upto - from,
{
    if from >= upto {
        Seq::empty()
    } else {
        let here = step(program, seeded(current, slots), from as usize, symbol_at(symbols, from));
        here.1 + matches_between(program, symbols, from + 1, upto, here.0, slots)
    }
}

/// The matches found from input index `from` on, up to and including the
/// end of the input, where the threads that rest on a match are retired.
pub open spec fn matches_from(
    program: Seq<Instruction>,
    symbols: Seq<u8>,
    from: int,
    current: Threads,
    slots: nat,
) -> Seq<(usize, usize)> {
    matches_between(program, symbols, from, symbols.len() as int + 1, current, slots)
}

/// All matches that a search of `symbols` finds, in the order in which it
/// finds them.
pub open spec fn all_matches(program: Seq<Instruction>, symbols: Seq<u8>) -> Seq<(usize, usize)> {
    matches_from(
        program,
        symbols,
        0,
        empty_threads(program.len()),
        slots_needed(program) as nat,
    )
}

/// The length of a match; below zero where a program records an end before
/// the start.
pub open spec fn span(found: (usize, usize)) -> int {
    found.1 - found.0
}

/// The better of the best match so far and a later one: the later one only
/// if it is longer.
pub open spec fn longer_match(best: Option<(usize, usize)>, later: (usize, usize)) -> Option<
    (usize, usize),
> {
    match best {
        Some(b) => if span(b) >= span(later) {
            best
        } else {
            Some(later)
        },
        None => Some(later),
    }
}

/// The longest of `matches`, and among several of that length the first.
pub open spec fn longest_match(matches: Seq<(usize, usize)>) -> Option<(usize, usize)>
    decreases matches.len(),
{
    if matches.len() == 0 {
        None
    } else {
        longer_match(longest_match(matches.drop_last()), matches.last())
    }
}

/// What a search of `text` with `program` returns.
pub open spec fn search_result(program: Seq<Instruction>, text: Seq<char>) -> Option<
    (usize, usize),
> {
    longest_match(all_matches(program, symbols_of(text)))
}

} // verus!
