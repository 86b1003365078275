//! The way of one thread through a program and an input.
//!
//! A thread starts at the first instruction, at some input index, with
//! nothing recorded. From moment to moment it goes on within the program or
//! takes the input symbol. A path that ends on `Match` is a match of the
//! program, and what the thread has recorded in its first two capture slots
//! is what it reports.

use crate::interpreter::semantics::{goes_on, goes_to, symbol_at, takes};
use crate::interpreter::thread::fresh_captures;
use crate::regex::Instruction;
use vstd::prelude::*;

verus! {

/// A thread at one moment: the input index it has come to, the instruction
/// it rests at, and what it has recorded.
pub struct Moment {
    pub index: int,
    pub pc: int,
    pub captures: Seq<usize>,
}

/// A thread gets in one move from the moment `from` to the moment `to`: it
/// goes on at the same input index, or it takes the symbol there and waits at
/// the next instruction for the next index.
pub open spec fn moves(
    program: Seq<Instruction>,
    symbols: Seq<u8>,
    from: Moment,
    to: Moment,
) -> bool {
    &&& 0 <= from.index <= symbols.len()
    &&& {
        ||| {
            &&& to.index == from.index
            &&& goes_on(
                program,
                from.index as usize,
                symbol_at(symbols, from.index),
                from.pc,
                from.captures,
                to.pc,
                to.captures,
            )
        }
        ||| {
            &&& to.index == from.index + 1
            &&& takes(program, symbol_at(symbols, from.index), from.pc)
            &&& to.pc == from.pc + 1
            &&& to.captures == from.captures
        }
    }
}

/// The moments of `path` are those of one thread, in order.
pub open spec fn is_path(program: Seq<Instruction>, symbols: Seq<u8>, path: Seq<Moment>) -> bool {
    &&& path.len() > 0
    &&& 0 <= path[0].index <= symbols.len()
    &&& 0 <= path[0].pc < program.len()
    &&& forall|k: int|
        0 <= k < path.len() - 1 ==> moves(program, symbols, #[trigger] path[k], path[k + 1])
}

/// The path is that of a thread which starts with `slots` capture slots and
/// nothing recorded at the first instruction.
pub open spec fn starts_fresh(path: Seq<Moment>, slots: nat) -> bool {
    path[0].pc == 0 && path[0].captures == fresh_captures(slots)
}

/// The path ends on a `Match` instruction.
pub open spec fn ends_on_match(program: Seq<Instruction>, path: Seq<Moment>) -> bool {
    program[path.last().pc] == Instruction::Match
}

/// The match that the thread reports at the end of the path.
pub open spec fn reported(path: Seq<Moment>) -> (usize, usize) {
    (path.last().captures[0], path.last().captures[1])
}

/// `path` is a match of the program in the input: the way of a thread from
/// its start to a `Match` instruction.
pub open spec fn is_match_path(
    program: Seq<Instruction>,
    symbols: Seq<u8>,
    slots: nat,
    path: Seq<Moment>,
) -> bool {
    &&& is_path(program, symbols, path)
    &&& starts_fresh(path, slots)
    &&& ends_on_match(program, path)
}

/// `rank` goes down whenever a thread goes on without taking a symbol,
/// whatever the input holds.
pub open spec fn settled_by(program: Seq<Instruction>, rank: Seq<int>) -> bool {
    &&& rank.len() == program.len()
    &&& forall|pc: int| 0 <= pc < program.len() ==> 0 <= #[trigger] rank[pc] < program.len()
    &&& forall|symbol: Option<u8>, pc: int, target: int| #[trigger]
        goes_to(program, symbol, pc, target) ==> rank[target] < rank[pc]
}

/// No thread of the program can go on for ever without taking a symbol.
pub open spec fn settles(program: Seq<Instruction>) -> bool {
    exists|rank: Seq<int>| settled_by(program, rank)
}

/// A thread never goes back in the input.
pub proof fn lemma_path_goes_forward(
    program: Seq<Instruction>,
    symbols: Seq<u8>,
    path: Seq<Moment>,
    k: int,
)
    requires
        is_path(program, symbols, path),
        0 <= k < path.len(),
    ensures
        path[0].index <= path[k].index <= path.last().index,
        0 <= path[k].index <= symbols.len(),
        0 <= path[k].pc < program.len(),
    decreases path.len(),
{
    if path.len() > 1 {
        let rest = path.drop_first();
        assert(moves(program, symbols, path[0], path[1]));
        assert forall|i: int| 0 <= i < rest.len() - 1 implies moves(
            program,
            symbols,
            #[trigger] rest[i],
            rest[i + 1],
        ) by {
            assert(moves(program, symbols, path[i + 1], path[i + 2]));
        }
        assert(rest[0] == path[1]);
        if k > 0 {
            lemma_path_goes_forward(program, symbols, rest, k - 1);
            assert(rest[k - 1] == path[k]);
        } else {
            lemma_path_goes_forward(program, symbols, rest, 0);
        }
        assert(rest.last() == path.last());
    }
}

/// What is left of a path after its first moment is a path.
pub proof fn lemma_path_rest(program: Seq<Instruction>, symbols: Seq<u8>, path: Seq<Moment>)
    requires
        is_path(program, symbols, path),
        path.len() > 1,
    ensures
        is_path(program, symbols, path.drop_first()),
        path.drop_first()[0] == path[1],
        path.drop_first().last() == path.last(),
        moves(program, symbols, path[0], path[1]),
{
    let rest = path.drop_first();
    assert(moves(program, symbols, path[0], path[1]));
    assert forall|i: int| 0 <= i < rest.len() - 1 implies moves(
        program,
        symbols,
        #[trigger] rest[i],
        rest[i + 1],
    ) by {
        assert(moves(program, symbols, path[i + 1], path[i + 2]));
    }
}

} // verus!
