//! Nothing is missed: the interpreter follows every thread.
//!
//! Whatever way a thread can take through the program and the input, the
//! thread lists hold it at every moment of that way, as long as no thread
//! can go on for ever without taking a symbol. So every match of the program
//! is among the matches found.

use crate::interpreter::dedup::lemma_bag_union_merges;
use crate::interpreter::paths::{
    ends_on_match,
    is_match_path,
    is_path,
    lemma_path_goes_forward,
    lemma_path_rest,
    reported,
    settled_by,
    settles,
    Moment,
};
use crate::interpreter::proofs::lemma_groups_from_members;
use crate::interpreter::quiescence::{
    lemma_dispatch_length,
    lemma_pass_lowers_ranks,
    lemma_sweep_length,
    ranks,
    ranks_below,
};
use crate::interpreter::semantics::{
    all_matches,
    closure,
    dispatch,
    goes_on,
    matches_between,
    seeded,
    slots_needed,
    step,
    sweep,
    symbol_at,
    takes,
    Progress,
};
use crate::interpreter::thread::{
    bag_matches,
    bag_save,
    empty_threads,
    fresh_captures,
    groups_from,
    groups_of,
    threads_add,
    threads_empty,
    Bag,
    Threads,
};
use crate::regex::Instruction;
use vstd::prelude::*;

verus! {

/// The thread list holds a thread at `pc` with these captures.
pub open spec fn holds_thread(threads: Threads, pc: int, captures: Seq<usize>) -> bool {
    &&& 0 <= pc < threads.len()
    &&& threads[pc] matches Some(bag) && bag.contains(captures)
}

/// A thread list holds the threads it held and those that have arrived.
pub proof fn lemma_threads_add_holds(
    threads: Threads,
    pc: int,
    incoming: Bag,
    at: int,
    captures: Seq<usize>,
)
    ensures
        holds_thread(threads_add(threads, pc, incoming), at, captures) <==> holds_thread(
            threads,
            at,
            captures,
        ) || (at == pc && 0 <= pc < threads.len() && incoming.contains(captures)),
        threads_add(threads, pc, incoming).len() == threads.len(),
{
    if 0 <= pc < threads.len() {
        let present = match threads[pc] {
            Some(bag) => bag,
            None => Seq::empty(),
        };
        lemma_bag_union_merges(present, incoming);
        if threads[pc] is None {
            assert(!present.contains(captures));
        }
    }
}

/// The instruction of a group keeps the threads and the matches that are
/// there already.
pub proof fn lemma_dispatch_keeps(
    program: Seq<Instruction>,
    group: (int, Bag),
    index: usize,
    symbol: Option<u8>,
    progress: Progress,
)
    ensures
        forall|at: int, captures: Seq<usize>| #[trigger]
            holds_thread(progress.temp, at, captures) ==> holds_thread(
                dispatch(program, group, index, symbol, progress).temp,
                at,
                captures,
            ),
        forall|at: int, captures: Seq<usize>| #[trigger]
            holds_thread(progress.next, at, captures) ==> holds_thread(
                dispatch(program, group, index, symbol, progress).next,
                at,
                captures,
            ),
        forall|found: (usize, usize)| #[trigger]
            progress.matches.contains(found) ==> dispatch(
                program,
                group,
                index,
                symbol,
                progress,
            ).matches.contains(found),
{
    let (pc, bag) = group;
    let after = dispatch(program, group, index, symbol, progress);
    assert forall|at: int, captures: Seq<usize>| #[trigger]
        holds_thread(progress.temp, at, captures) implies holds_thread(
        after.temp,
        at,
        captures,
    ) by {
        match program[pc] {
            Instruction::RangeBranch(lo, hi, dest) => {
                lemma_threads_add_holds(progress.temp, dest as int, bag, at, captures);
                lemma_threads_add_holds(progress.temp, pc + 1, bag, at, captures);
            },
            Instruction::Jump(dest) => {
                lemma_threads_add_holds(progress.temp, dest as int, bag, at, captures);
            },
            Instruction::Split(pc1, pc2) => {
                lemma_threads_add_holds(progress.temp, pc1 as int, bag, at, captures);
                lemma_threads_add_holds(
                    threads_add(progress.temp, pc1 as int, bag),
                    pc2 as int,
                    bag,
                    at,
                    captures,
                );
            },
            Instruction::Save(slot) => {
                lemma_threads_add_holds(
                    progress.temp,
                    pc + 1,
                    bag_save(bag, slot as int, index),
                    at,
                    captures,
                );
            },
            _ => {},
        }
    }
    assert forall|at: int, captures: Seq<usize>| #[trigger]
        holds_thread(progress.next, at, captures) implies holds_thread(
        after.next,
        at,
        captures,
    ) by {
        lemma_threads_add_holds(progress.next, pc + 1, bag, at, captures);
    }
    assert forall|found: (usize, usize)| #[trigger]
        progress.matches.contains(found) implies after.matches.contains(found) by {
        let k = choose|k: int| 0 <= k < progress.matches.len() && progress.matches[k] == found;
        if after.matches != progress.matches {
            assert(after.matches[k] == found);
        }
    }
}

/// The instruction of a group moves each thread of the group: a thread on
/// `Match` reports its match, a thread that goes on is among those that go
/// on, and a thread that takes the symbol is among those that wait.
pub proof fn lemma_dispatch_moves(
    program: Seq<Instruction>,
    group: (int, Bag),
    index: usize,
    symbol: Option<u8>,
    progress: Progress,
    captures: Seq<usize>,
)
    requires
        0 <= group.0 < program.len(),
        progress.temp.len() == program.len(),
        progress.next.len() == program.len(),
        group.1.contains(captures),
    ensures
        program[group.0] == Instruction::Match ==> dispatch(
            program,
            group,
            index,
            symbol,
            progress,
        ).matches.contains((captures[0], captures[1])),
        forall|target: int, after: Seq<usize>| #[trigger]
            goes_on(program, index, symbol, group.0, captures, target, after) ==> holds_thread(
                dispatch(program, group, index, symbol, progress).temp,
                target,
                after,
            ),
        takes(program, symbol, group.0) ==> holds_thread(
            dispatch(program, group, index, symbol, progress).next,
            group.0 + 1,
            captures,
        ),
{
    let (pc, bag) = group;
    let done = dispatch(program, group, index, symbol, progress);
    let i = choose|i: int| 0 <= i < bag.len() && bag[i] == captures;
    if program[pc] == Instruction::Match {
        assert(bag_matches(bag, 0)[i] == (captures[0], captures[1]));
        assert(done.matches[progress.matches.len() + i] == (captures[0], captures[1]));
    }
    if takes(program, symbol, pc) {
        lemma_threads_add_holds(progress.next, pc + 1, bag, pc + 1, captures);
    }
    assert forall|target: int, after: Seq<usize>| #[trigger]
        goes_on(program, index, symbol, pc, captures, target, after) implies holds_thread(
        done.temp,
        target,
        after,
    ) by {
        match program[pc] {
            Instruction::RangeBranch(lo, hi, dest) => {
                lemma_threads_add_holds(progress.temp, target, bag, target, after);
            },
            Instruction::Jump(dest) => {
                lemma_threads_add_holds(progress.temp, target, bag, target, after);
            },
            Instruction::Split(pc1, pc2) => {
                let first = threads_add(progress.temp, pc1 as int, bag);
                lemma_threads_add_holds(progress.temp, pc1 as int, bag, target, after);
                lemma_threads_add_holds(first, pc2 as int, bag, target, after);
            },
            Instruction::Save(slot) => {
                let saved = bag_save(bag, slot as int, index);
                assert(saved[i] == after);
                lemma_threads_add_holds(progress.temp, target, saved, target, after);
            },
            _ => {},
        }
    }
}

/// A pass keeps the threads and the matches that are there already.
pub proof fn lemma_sweep_keeps(
    program: Seq<Instruction>,
    groups: Seq<(int, Bag)>,
    index: usize,
    symbol: Option<u8>,
    progress: Progress,
)
    ensures
        forall|at: int, captures: Seq<usize>| #[trigger]
            holds_thread(progress.temp, at, captures) ==> holds_thread(
                sweep(program, groups, index, symbol, progress).temp,
                at,
                captures,
            ),
        forall|at: int, captures: Seq<usize>| #[trigger]
            holds_thread(progress.next, at, captures) ==> holds_thread(
                sweep(program, groups, index, symbol, progress).next,
                at,
                captures,
            ),
        forall|found: (usize, usize)| #[trigger]
            progress.matches.contains(found) ==> sweep(
                program,
                groups,
                index,
                symbol,
                progress,
            ).matches.contains(found),
    decreases groups.len(),
{
    if groups.len() > 0 {
        lemma_dispatch_keeps(program, groups[0], index, symbol, progress);
        lemma_sweep_keeps(
            program,
            groups.drop_first(),
            index,
            symbol,
            dispatch(program, groups[0], index, symbol, progress),
        );
    }
}

/// A pass moves each thread of each group.
pub proof fn lemma_sweep_moves(
    program: Seq<Instruction>,
    groups: Seq<(int, Bag)>,
    index: usize,
    symbol: Option<u8>,
    progress: Progress,
    k: int,
    captures: Seq<usize>,
)
    requires
        forall|i: int| 0 <= i < groups.len() ==> 0 <= (#[trigger] groups[i]).0 < program.len(),
        progress.temp.len() == program.len(),
        progress.next.len() == program.len(),
        0 <= k < groups.len(),
        groups[k].1.contains(captures),
    ensures
        program[groups[k].0] == Instruction::Match ==> sweep(
            program,
            groups,
            index,
            symbol,
            progress,
        ).matches.contains((captures[0], captures[1])),
        forall|target: int, after: Seq<usize>| #[trigger]
            goes_on(program, index, symbol, groups[k].0, captures, target, after) ==> holds_thread(
                sweep(program, groups, index, symbol, progress).temp,
                target,
                after,
            ),
        takes(program, symbol, groups[k].0) ==> holds_thread(
            sweep(program, groups, index, symbol, progress).next,
            groups[k].0 + 1,
            captures,
        ),
    decreases groups.len(),
{
    let first = dispatch(program, groups[0], index, symbol, progress);
    let rest = groups.drop_first();
    lemma_dispatch_length(program, groups[0], index, symbol, progress);
    if k == 0 {
        lemma_dispatch_moves(program, groups[0], index, symbol, progress, captures);
        lemma_sweep_keeps(program, rest, index, symbol, first);
    } else {
        assert forall|i: int| 0 <= i < rest.len() implies 0 <= (#[trigger] rest[i]).0
            < program.len() by {
            assert(rest[i] == groups[i + 1]);
        }
        assert(rest[k - 1] == groups[k]);
        lemma_sweep_moves(program, rest, index, symbol, first, k - 1, captures);
    }
}

/// Every group of a thread list is among the groups that it hands out.
pub proof fn lemma_groups_from_holds(threads: Threads, from: int, pc: int)
    requires
        0 <= from <= pc < threads.len(),
        threads[pc] is Some,
    ensures
        exists|k: int|
            0 <= k < groups_from(threads, from).len() && #[trigger] groups_from(threads, from)[k]
                == (pc, threads[pc]->0),
    decreases threads.len() - from,
{
    let all = groups_from(threads, from);
    if from == pc {
        assert(all[0] == (pc, threads[pc]->0));
    } else {
        lemma_groups_from_holds(threads, from + 1, pc);
        let rest = groups_from(threads, from + 1);
        let k = choose|k: int| 0 <= k < rest.len() && #[trigger] rest[k] == (pc, threads[pc]->0);
        match threads[from] {
            Some(bag) => {
                assert(all[k + 1] == rest[k]);
            },
            None => {
                assert(all[k] == rest[k]);
            },
        }
    }
}

/// A pass over a thread list moves each thread that the list holds.
pub proof fn lemma_pass_moves(
    program: Seq<Instruction>,
    current: Threads,
    next: Threads,
    index: usize,
    symbol: Option<u8>,
    pc: int,
    captures: Seq<usize>,
)
    requires
        current.len() == program.len(),
        next.len() == program.len(),
        holds_thread(current, pc, captures),
    ensures
        ({
            let pass = sweep(
                program,
                groups_of(current),
                index,
                symbol,
                Progress { temp: empty_threads(current.len()), next, matches: Seq::empty() },
            );
            &&& program[pc] == Instruction::Match ==> pass.matches.contains(
                (captures[0], captures[1]),
            )
            &&& forall|target: int, after: Seq<usize>| #[trigger]
                goes_on(program, index, symbol, pc, captures, target, after) ==> holds_thread(
                    pass.temp,
                    target,
                    after,
                )
            &&& takes(program, symbol, pc) ==> holds_thread(pass.next, pc + 1, captures)
            &&& forall|at: int, waiting: Seq<usize>| #[trigger]
                holds_thread(next, at, waiting) ==> holds_thread(pass.next, at, waiting)
        }),
{
    let start = Progress { temp: empty_threads(current.len()), next, matches: Seq::empty() };
    let groups = groups_of(current);
    lemma_groups_from_members(current, 0);
    lemma_groups_from_holds(current, 0, pc);
    let k = choose|k: int| 0 <= k < groups.len() && #[trigger] groups[k] == (pc, current[pc]->0);
    lemma_sweep_moves(program, groups, index, symbol, start, k, captures);
    lemma_sweep_keeps(program, groups, index, symbol, start);
}

/// The threads that wait for the next input position still wait when the
/// position is done.
pub proof fn lemma_closure_keeps(
    program: Seq<Instruction>,
    current: Threads,
    next: Threads,
    index: usize,
    symbol: Option<u8>,
    rounds: nat,
)
    ensures
        forall|at: int, captures: Seq<usize>| #[trigger]
            holds_thread(next, at, captures) ==> holds_thread(
                closure(program, current, next, index, symbol, rounds).0,
                at,
                captures,
            ),
        closure(program, current, next, index, symbol, rounds).0.len() == next.len(),
    decreases rounds,
{
    if rounds == 0 || threads_empty(current) {
    } else {
        let start = Progress {
            temp: empty_threads(current.len()),
            next,
            matches: Seq::empty(),
        };
        let pass = sweep(program, groups_of(current), index, symbol, start);
        lemma_sweep_keeps(program, groups_of(current), index, symbol, start);
        lemma_sweep_length(program, groups_of(current), index, symbol, start);
        lemma_closure_keeps(program, pass.temp, pass.next, index, symbol, (rounds - 1) as nat);
    }
}

/// A rank that goes down on every way through the program measures the
/// threads of any thread list.
pub proof fn lemma_settled_ranks(
    program: Seq<Instruction>,
    rank: Seq<int>,
    current: Threads,
    symbol: Option<u8>,
)
    requires
        settled_by(program, rank),
        current.len() == program.len(),
    ensures
        ranks(program, current, symbol, rank),
        ranks_below(current, rank, program.len() as int),
{
}

/// What a match is part of when it is found at the end of a path that is
/// followed from the moment at which the threads of `current` run, with
/// `rounds` passes left at that input position: the matches of that position
/// if the path ends there, and else the matches of the positions after it up
/// to the one where the path ends.
pub open spec fn found_along(
    program: Seq<Instruction>,
    symbols: Seq<u8>,
    slots: nat,
    path: Seq<Moment>,
    current: Threads,
    next: Threads,
    rounds: nat,
) -> bool {
    let index = path[0].index;
    let done = closure(
        program,
        current,
        next,
        index as usize,
        symbol_at(symbols, index),
        rounds,
    );
    if path.last().index == index {
        done.1.contains(reported(path))
    } else {
        matches_between(
            program,
            symbols,
            index + 1,
            path.last().index + 1,
            done.0,
            slots,
        ).contains(reported(path))
    }
}

/// A thread list that holds a thread at the first moment of a path to a
/// `Match` instruction leads to the match at the end of the path.
pub proof fn lemma_path_is_followed(
    program: Seq<Instruction>,
    symbols: Seq<u8>,
    slots: nat,
    rank: Seq<int>,
    path: Seq<Moment>,
    current: Threads,
    next: Threads,
    rounds: nat,
)
    requires
        settled_by(program, rank),
        is_path(program, symbols, path),
        ends_on_match(program, path),
        current.len() == program.len(),
        next.len() == program.len(),
        holds_thread(current, path[0].pc, path[0].captures),
        ranks_below(current, rank, rounds as int),
    ensures
        found_along(program, symbols, slots, path, current, next, rounds),
    decreases path.len(),
{
    let index = path[0].index;
    let pc = path[0].pc;
    let captures = path[0].captures;
    let symbol = symbol_at(symbols, index);
    let start = Progress { temp: empty_threads(current.len()), next, matches: Seq::empty() };
    let pass = sweep(program, groups_of(current), index as usize, symbol, start);
    let rest = closure(program, pass.temp, pass.next, index as usize, symbol, (rounds - 1) as nat);
    let done = closure(program, current, next, index as usize, symbol, rounds);

    // The list holds a thread, so there is a pass.
    assert(current[pc] is Some);
    assert(0 <= rank[pc] < rounds);
    assert(!threads_empty(current));
    assert(done == (rest.0, pass.matches + rest.1));

    lemma_pass_moves(program, current, next, index as usize, symbol, pc, captures);
    lemma_sweep_length(program, groups_of(current), index as usize, symbol, start);
    lemma_settled_ranks(program, rank, current, symbol);
    lemma_pass_lowers_ranks(program, current, next, index as usize, symbol, rank, rounds as int);
    lemma_path_goes_forward(program, symbols, path, 0);

    if path.len() == 1 {
        let found = reported(path);
        let k = choose|k: int| 0 <= k < pass.matches.len() && pass.matches[k] == found;
        assert(done.1[k] == found);
    } else {
        let tail = path.drop_first();
        lemma_path_rest(program, symbols, path);
        lemma_path_goes_forward(program, symbols, tail, 0);
        assert(reported(tail) == reported(path));
        if path[1].index == index {
            assert(goes_on(
                program,
                index as usize,
                symbol,
                pc,
                captures,
                path[1].pc,
                path[1].captures,
            ));
            lemma_path_is_followed(
                program,
                symbols,
                slots,
                rank,
                tail,
                pass.temp,
                pass.next,
                (rounds - 1) as nat,
            );
            if path.last().index == index {
                let found = reported(path);
                let k = choose|k: int| 0 <= k < rest.1.len() && rest.1[k] == found;
                assert(done.1[pass.matches.len() + k] == found);
            }
        } else {
            assert(takes(program, symbol, pc));
            assert(holds_thread(pass.next, pc + 1, captures));
            lemma_closure_keeps(
                program,
                pass.temp,
                pass.next,
                index as usize,
                symbol,
                (rounds - 1) as nat,
            );
            assert(holds_thread(done.0, pc + 1, captures));
            let seed = seq![fresh_captures(slots)];
            let started = seeded(done.0, slots);
            lemma_threads_add_holds(done.0, 0, seed, pc + 1, captures);
            lemma_settled_ranks(program, rank, started, symbol_at(symbols, index + 1));
            lemma_path_is_followed(
                program,
                symbols,
                slots,
                rank,
                tail,
                started,
                empty_threads(program.len()),
                program.len(),
            );
            let here = step(program, started, (index + 1) as usize, symbol_at(symbols, index + 1));
            let later = matches_between(
                program,
                symbols,
                index + 2,
                path.last().index + 1,
                here.0,
                slots,
            );
            let found = reported(path);
            assert(matches_between(
                program,
                symbols,
                index + 1,
                path.last().index + 1,
                done.0,
                slots,
            ) == here.1 + later);
            if path.last().index == index + 1 {
                let k = choose|k: int| 0 <= k < here.1.len() && here.1[k] == found;
                assert((here.1 + later)[k] == found);
            } else {
                let k = choose|k: int| 0 <= k < later.len() && later[k] == found;
                assert((here.1 + later)[here.1.len() + k] == found);
            }
        }
    }
}

/// A thread that starts at some input index and comes to a `Match`
/// instruction is found, whatever threads were there before: its match is
/// among the matches of the input positions up to the one where it ends.
pub proof fn lemma_path_is_found_between(
    program: Seq<Instruction>,
    symbols: Seq<u8>,
    slots: nat,
    rank: Seq<int>,
    path: Seq<Moment>,
    from: int,
    current: Threads,
)
    requires
        settled_by(program, rank),
        is_match_path(program, symbols, slots, path),
        current.len() == program.len(),
        0 <= from <= path[0].index,
    ensures
        matches_between(
            program,
            symbols,
            from,
            path.last().index + 1,
            current,
            slots,
        ).contains(reported(path)),
    decreases path[0].index - from,
{
    let found = reported(path);
    let upto = path.last().index + 1;
    let started = seeded(current, slots);
    let here = step(program, started, from as usize, symbol_at(symbols, from));
    let later = matches_between(program, symbols, from + 1, upto, here.0, slots);
    lemma_path_goes_forward(program, symbols, path, 0);
    assert(matches_between(program, symbols, from, upto, current, slots) == here.1 + later);
    let seed = seq![fresh_captures(slots)];
    lemma_threads_add_holds(current, 0, seed, 0, fresh_captures(slots));
    if from == path[0].index {
        assert(seed[0] == fresh_captures(slots));
        assert(holds_thread(started, 0, path[0].captures));
        lemma_settled_ranks(program, rank, started, symbol_at(symbols, from));
        lemma_path_is_followed(
            program,
            symbols,
            slots,
            rank,
            path,
            started,
            empty_threads(program.len()),
            program.len(),
        );
        if path.last().index == from {
            let k = choose|k: int| 0 <= k < here.1.len() && here.1[k] == found;
            assert((here.1 + later)[k] == found);
        } else {
            let k = choose|k: int| 0 <= k < later.len() && later[k] == found;
            assert((here.1 + later)[here.1.len() + k] == found);
        }
    } else {
        lemma_closure_keeps(
            program,
            started,
            empty_threads(program.len()),
            from as usize,
            symbol_at(symbols, from),
            program.len(),
        );
        lemma_path_is_found_between(program, symbols, slots, rank, path, from + 1, here.0);
        let k = choose|k: int| 0 <= k < later.len() && later[k] == found;
        assert((here.1 + later)[here.1.len() + k] == found);
    }
}

/// The matches of the input positions from `from` to `upto` are those up to
/// a position in between, followed by those from there on.
pub proof fn lemma_matches_between_split(
    program: Seq<Instruction>,
    symbols: Seq<u8>,
    slots: nat,
    from: int,
    mid: int,
    upto: int,
    current: Threads,
) -> (later: Seq<(usize, usize)>)
    requires
        from <= mid <= upto,
    ensures
        matches_between(program, symbols, from, upto, current, slots) == matches_between(
            program,
            symbols,
            from,
            mid,
            current,
            slots,
        ) + later,
    decreases mid - from,
{
    let all = matches_between(program, symbols, from, upto, current, slots);
    if from == mid {
        assert(all == Seq::<(usize, usize)>::empty() + all);
        all
    } else {
        let here = step(program, seeded(current, slots), from as usize, symbol_at(symbols, from));
        let later = lemma_matches_between_split(
            program,
            symbols,
            slots,
            from + 1,
            mid,
            upto,
            here.0,
        );
        let front = matches_between(program, symbols, from + 1, mid, here.0, slots);
        assert(all == (here.1 + front) + later);
        later
    }
}

/// Every match of a program in which no thread can go on for ever is found:
/// whatever way a thread takes from its start at some input index to a
/// `Match` instruction, what it reports is among the matches of the search.
pub proof fn lemma_every_match_is_found(
    program: Seq<Instruction>,
    symbols: Seq<u8>,
    path: Seq<Moment>,
)
    requires
        settles(program),
        is_match_path(program, symbols, slots_needed(program) as nat, path),
    ensures
        all_matches(program, symbols).contains(reported(path)),
{
    let rank = choose|rank: Seq<int>| settled_by(program, rank);
    let slots = slots_needed(program) as nat;
    let start = empty_threads(program.len());
    let upto = path.last().index + 1;
    lemma_path_goes_forward(program, symbols, path, 0);
    lemma_path_goes_forward(program, symbols, path, path.len() - 1);
    lemma_path_is_found_between(program, symbols, slots, rank, path, 0, start);
    let later = lemma_matches_between_split(
        program,
        symbols,
        slots,
        0,
        upto,
        symbols.len() as int + 1,
        start,
    );
    let front = matches_between(program, symbols, 0, upto, start, slots);
    let k = choose|k: int| 0 <= k < front.len() && front[k] == reported(path);
    assert((front + later)[k] == reported(path));
}

} // verus!
