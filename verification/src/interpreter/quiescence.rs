//! Quiescence: how many passes an input position takes.
//!
//! A thread that goes on without taking the input symbol is run again in the
//! next pass. Where no thread can go on for ever, the passes end by
//! themselves before there are as many of them as the program has
//! instructions, and the limit on the passes changes nothing.

use crate::interpreter::proofs::lemma_groups_from_members;
use crate::interpreter::semantics::{closure, dispatch, goes_to, passes_made, sweep, Progress};
use crate::interpreter::thread::{
    empty_threads,
    groups_from,
    groups_of,
    threads_empty,
    Bag,
    Threads,
};
use crate::regex::Instruction;
use vstd::prelude::*;

verus! {

/// `rank` measures how far the threads of `current` can go on at one input
/// position: a program counter at which a thread may rest has a rank from
/// zero up to the length of the program, and each time a thread goes on, it
/// comes to a lower rank. A rank below zero marks a program counter that no
/// thread reaches.
pub open spec fn ranks(
    program: Seq<Instruction>,
    current: Threads,
    symbol: Option<u8>,
    rank: Seq<int>,
) -> bool {
    &&& rank.len() == program.len()
    &&& forall|pc: int| 0 <= pc < program.len() ==> #[trigger] rank[pc] < program.len()
    &&& forall|pc: int| 0 <= pc < current.len() && #[trigger] current[pc] is Some ==> rank[pc] >= 0
    &&& forall|pc: int, target: int|
        0 <= pc < program.len() && rank[pc] >= 0 && #[trigger] goes_to(program, symbol, pc, target)
            ==> 0 <= rank[target] < rank[pc]
}

/// No thread of `current` can go on for ever at an input position that holds
/// `symbol`.
pub open spec fn quiescent(program: Seq<Instruction>, current: Threads, symbol: Option<u8>) -> bool {
    exists|rank: Seq<int>| ranks(program, current, symbol, rank)
}

/// A program counter at which threads wait after an instruction has run had
/// threads before, or is where the instruction sends its threads.
proof fn lemma_dispatch_targets(
    program: Seq<Instruction>,
    group: (int, Bag),
    index: usize,
    symbol: Option<u8>,
    progress: Progress,
    target: int,
)
    requires
        0 <= group.0 < program.len(),
        progress.temp.len() == program.len(),
        0 <= target < program.len(),
        dispatch(program, group, index, symbol, progress).temp[target] is Some,
    ensures
        progress.temp[target] is Some || goes_to(program, symbol, group.0, target),
{
}

/// A program counter at which threads wait after a pass had threads before,
/// or is where one of the groups sends its threads.
proof fn lemma_sweep_targets(
    program: Seq<Instruction>,
    groups: Seq<(int, Bag)>,
    index: usize,
    symbol: Option<u8>,
    progress: Progress,
    target: int,
)
    requires
        forall|k: int| 0 <= k < groups.len() ==> 0 <= (#[trigger] groups[k]).0 < program.len(),
        progress.temp.len() == program.len(),
        0 <= target < program.len(),
        sweep(program, groups, index, symbol, progress).temp[target] is Some,
    ensures
        progress.temp[target] is Some || exists|k: int|
            0 <= k < groups.len() && goes_to(program, symbol, (#[trigger] groups[k]).0, target),
    decreases groups.len(),
{
    if groups.len() > 0 {
        let first = dispatch(program, groups[0], index, symbol, progress);
        let rest = groups.drop_first();
        assert forall|k: int| 0 <= k < rest.len() implies 0 <= (#[trigger] rest[k]).0
            < program.len() by {
            assert(rest[k] == groups[k + 1]);
        }
        lemma_dispatch_length(program, groups[0], index, symbol, progress);
        lemma_sweep_targets(program, rest, index, symbol, first, target);
        if first.temp[target] is Some {
            lemma_dispatch_targets(program, groups[0], index, symbol, progress, target);
        } else {
            let k = choose|k: int|
                0 <= k < rest.len() && goes_to(program, symbol, (#[trigger] rest[k]).0, target);
            assert(rest[k] == groups[k + 1]);
        }
    }
}

/// An instruction leaves the capacity of the thread lists as it is.
pub proof fn lemma_dispatch_length(
    program: Seq<Instruction>,
    group: (int, Bag),
    index: usize,
    symbol: Option<u8>,
    progress: Progress,
)
    ensures
        dispatch(program, group, index, symbol, progress).temp.len() == progress.temp.len(),
        dispatch(program, group, index, symbol, progress).next.len() == progress.next.len(),
{
}

/// A pass leaves the capacity of the thread lists as it is.
pub proof fn lemma_sweep_length(
    program: Seq<Instruction>,
    groups: Seq<(int, Bag)>,
    index: usize,
    symbol: Option<u8>,
    progress: Progress,
)
    ensures
        sweep(program, groups, index, symbol, progress).temp.len() == progress.temp.len(),
        sweep(program, groups, index, symbol, progress).next.len() == progress.next.len(),
    decreases groups.len(),
{
    if groups.len() > 0 {
        lemma_dispatch_length(program, groups[0], index, symbol, progress);
        lemma_sweep_length(
            program,
            groups.drop_first(),
            index,
            symbol,
            dispatch(program, groups[0], index, symbol, progress),
        );
    }
}

/// A pass runs no more instructions than the thread list has room for
/// program counters: each instruction at most once.
pub proof fn lemma_pass_is_bounded(threads: Threads, from: int)
    requires
        0 <= from <= threads.len(),
    ensures
        groups_from(threads, from).len() <= threads.len() - from,
    decreases threads.len() - from,
{
    if from < threads.len() {
        lemma_pass_is_bounded(threads, from + 1);
    }
}

/// No more passes are made than are allowed.
pub proof fn lemma_passes_are_bounded(
    program: Seq<Instruction>,
    current: Threads,
    next: Threads,
    index: usize,
    symbol: Option<u8>,
    rounds: nat,
)
    ensures
        passes_made(program, current, next, index, symbol, rounds) <= rounds,
    decreases rounds,
{
    if rounds == 0 || threads_empty(current) {
    } else {
        let pass = sweep(
            program,
            groups_of(current),
            index,
            symbol,
            Progress { temp: empty_threads(current.len()), next, matches: Seq::empty() },
        );
        lemma_passes_are_bounded(program, pass.temp, pass.next, index, symbol, (rounds - 1) as nat);
    }
}

/// Every thread of `threads` rests at a program counter with a rank from
/// zero up to `bound`.
pub open spec fn ranks_below(threads: Threads, rank: Seq<int>, bound: int) -> bool {
    forall|pc: int| 0 <= pc < threads.len() && #[trigger] threads[pc] is Some ==> 0 <= rank[pc] < bound
}

/// After a pass, the threads that go on rest at lower ranks than the
/// threads that ran.
pub proof fn lemma_pass_lowers_ranks(
    program: Seq<Instruction>,
    current: Threads,
    next: Threads,
    index: usize,
    symbol: Option<u8>,
    rank: Seq<int>,
    bound: int,
)
    requires
        current.len() == program.len(),
        ranks(program, current, symbol, rank),
        ranks_below(current, rank, bound),
    ensures
        ({
            let pass = sweep(
                program,
                groups_of(current),
                index,
                symbol,
                Progress { temp: empty_threads(current.len()), next, matches: Seq::empty() },
            );
            &&& pass.temp.len() == program.len()
            &&& ranks(program, pass.temp, symbol, rank)
            &&& ranks_below(pass.temp, rank, bound - 1)
        }),
{
    let start = Progress { temp: empty_threads(current.len()), next, matches: Seq::empty() };
    let groups = groups_of(current);
    let pass = sweep(program, groups, index, symbol, start);
    lemma_sweep_length(program, groups, index, symbol, start);
    lemma_groups_from_members(current, 0);
    assert forall|target: int| 0 <= target < pass.temp.len() && #[trigger] pass.temp[target]
        is Some implies 0 <= rank[target] < bound - 1 by {
        lemma_sweep_targets(program, groups, index, symbol, start, target);
        let k = choose|k: int|
            0 <= k < groups.len() && goes_to(program, symbol, (#[trigger] groups[k]).0, target);
        let pc = groups[k].0;
        assert(current[pc] == Some(groups[k].1));
    }
}

/// With threads at ranks below `bound`, no more than `bound` passes are
/// made, and any two limits on the passes from `bound` up give the same
/// result.
proof fn lemma_closure_needs_no_more(
    program: Seq<Instruction>,
    current: Threads,
    next: Threads,
    index: usize,
    symbol: Option<u8>,
    rank: Seq<int>,
    bound: int,
    rounds1: nat,
    rounds2: nat,
)
    requires
        current.len() == program.len(),
        ranks(program, current, symbol, rank),
        ranks_below(current, rank, bound),
        rounds1 >= bound,
        rounds2 >= bound,
    ensures
        closure(program, current, next, index, symbol, rounds1) == closure(
            program,
            current,
            next,
            index,
            symbol,
            rounds2,
        ),
        passes_made(program, current, next, index, symbol, rounds1) == passes_made(
            program,
            current,
            next,
            index,
            symbol,
            rounds2,
        ),
        passes_made(program, current, next, index, symbol, rounds1) <= bound || bound < 0,
    decreases rounds1,
{
    if threads_empty(current) {
    } else {
        let pc = choose|pc: int| 0 <= pc < current.len() && current[pc] is Some;
        assert(0 <= rank[pc] < bound);
        let pass = sweep(
            program,
            groups_of(current),
            index,
            symbol,
            Progress { temp: empty_threads(current.len()), next, matches: Seq::empty() },
        );
        lemma_pass_lowers_ranks(program, current, next, index, symbol, rank, bound);
        lemma_closure_needs_no_more(
            program,
            pass.temp,
            pass.next,
            index,
            symbol,
            rank,
            bound - 1,
            (rounds1 - 1) as nat,
            (rounds2 - 1) as nat,
        );
    }
}

/// Where no thread can go on for ever, an input position is done after at
/// most as many passes as the program has instructions, however many are
/// allowed: a higher limit on the passes gives what the limit of the
/// interpreter gives.
pub proof fn lemma_quiescence(
    program: Seq<Instruction>,
    current: Threads,
    next: Threads,
    index: usize,
    symbol: Option<u8>,
    rounds: nat,
)
    requires
        current.len() == program.len(),
        quiescent(program, current, symbol),
        rounds >= program.len(),
    ensures
        passes_made(program, current, next, index, symbol, rounds) <= program.len(),
        closure(program, current, next, index, symbol, rounds) == closure(
            program,
            current,
            next,
            index,
            symbol,
            program.len(),
        ),
{
    let rank = choose|rank: Seq<int>| ranks(program, current, symbol, rank);
    lemma_closure_needs_no_more(
        program,
        current,
        next,
        index,
        symbol,
        rank,
        program.len() as int,
        rounds,
        program.len(),
    );
}

} // verus!
