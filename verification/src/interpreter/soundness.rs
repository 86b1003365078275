//! Nothing is made up: every match that the interpreter finds is the match
//! of a thread, and lies within the input.

use crate::interpreter::paths::{is_match_path, is_path, moves, reported, starts_fresh, Moment};
use crate::interpreter::proofs::{
    bag_satisfies,
    kept_along,
    lemma_closure_sound,
    lemma_threads_add_satisfies,
    matches_satisfy,
    threads_satisfy,
};
use crate::interpreter::semantics::{
    all_matches,
    goes_on,
    matches_between,
    search_result,
    seeded,
    slots_needed,
    step,
    symbol_at,
    symbols_of,
    takes,
};
use crate::interpreter::selection::{first_longest, lemma_longest_wins};
use crate::interpreter::thread::{empty_threads, fresh_captures, Threads};
use crate::regex::Instruction;
use vstd::prelude::*;

verus! {

/// The threads that have two capture slots or more and have recorded no
/// input index above `index`.
pub open spec fn recorded_by(index: int) -> spec_fn(int, Seq<usize>) -> bool {
    |pc: int, captures: Seq<usize>|
        captures.len() >= 2 && forall|slot: int|
            0 <= slot < captures.len() ==> #[trigger] captures[slot] <= index
}

/// The matches that neither start nor end above `index`.
pub open spec fn found_by(index: int) -> spec_fn((usize, usize)) -> bool {
    |found: (usize, usize)| found.0 <= index && found.1 <= index
}

/// What holds of every thread by `here` holds of every thread by `there`.
pub open spec fn weaker(
    here: spec_fn(int, Seq<usize>) -> bool,
    there: spec_fn(int, Seq<usize>) -> bool,
) -> bool {
    forall|pc: int, captures: Seq<usize>| #[trigger] here(pc, captures) ==> there(pc, captures)
}

/// Threads that satisfy `here` satisfy what is weaker.
pub proof fn lemma_threads_satisfy_weaker(
    threads: Threads,
    here: spec_fn(int, Seq<usize>) -> bool,
    there: spec_fn(int, Seq<usize>) -> bool,
)
    requires
        threads_satisfy(threads, here),
        weaker(here, there),
    ensures
        threads_satisfy(threads, there),
{
    assert forall|pc: int| 0 <= pc < threads.len() implies (#[trigger] threads[pc] matches Some(
        bag,
    ) ==> bag_satisfies(bag, pc, there)) by {
        if let Some(bag) = threads[pc] {
            assert(bag_satisfies(bag, pc, here));
            assert forall|i: int| 0 <= i < bag.len() implies there(pc, #[trigger] bag[i]) by {
                assert(here(pc, bag[i]));
            }
        }
    }
}

/// A thread list without threads satisfies everything.
pub proof fn lemma_empty_threads_satisfy(capacity: nat, inv: spec_fn(int, Seq<usize>) -> bool)
    ensures
        threads_satisfy(empty_threads(capacity), inv),
        empty_threads(capacity).len() == capacity,
{
}

/// A thread records no index above the one it has come to.
pub proof fn lemma_recorded_kept(program: Seq<Instruction>, index: usize, symbol: Option<u8>)
    ensures
        kept_along(
            program,
            index,
            symbol,
            recorded_by(index as int),
            recorded_by(index as int),
            found_by(index as int),
        ),
{
    let here = recorded_by(index as int);
    assert forall|pc: int, captures: Seq<usize>, target: int, after: Seq<usize>|
        here(pc, captures) && #[trigger] goes_on(
            program,
            index,
            symbol,
            pc,
            captures,
            target,
            after,
        ) implies here(target, after) by {
        assert forall|slot: int| 0 <= slot < after.len() implies #[trigger] after[slot]
            <= index by {
            assert(captures[slot] <= index);
        }
    }
    assert forall|pc: int, captures: Seq<usize>|
        0 <= pc < program.len() && program[pc] == Instruction::Match && #[trigger] here(
            pc,
            captures,
        ) implies found_by(index as int)((captures[0], captures[1])) by {
        assert(captures[0] <= index);
        assert(captures[1] <= index);
    }
}

/// The matches of the input positions below `upto` neither start nor end at
/// `upto` or above.
pub proof fn lemma_matches_between_within(
    program: Seq<Instruction>,
    symbols: Seq<u8>,
    slots: nat,
    from: int,
    upto: int,
    current: Threads,
)
    requires
        0 <= from,
        upto <= usize::MAX + 1,
        slots >= 2,
        current.len() == program.len(),
        threads_satisfy(current, recorded_by(from)),
    ensures
        matches_satisfy(
            matches_between(program, symbols, from, upto, current, slots),
            found_by(upto - 1),
        ),
    decreases upto - from,
{
    if from < upto {
        let started = seeded(current, slots);
        let symbol = symbol_at(symbols, from);
        let here = step(program, started, from as usize, symbol);
        let later = matches_between(program, symbols, from + 1, upto, here.0, slots);
        let all = matches_between(program, symbols, from, upto, current, slots);
        let seed = seq![fresh_captures(slots)];
        assert(bag_satisfies(seed, 0, recorded_by(from)));
        lemma_threads_add_satisfies(current, 0, seed, recorded_by(from));
        lemma_recorded_kept(program, from as usize, symbol);
        lemma_empty_threads_satisfy(program.len(), recorded_by(from));
        lemma_closure_sound(
            program,
            started,
            empty_threads(program.len()),
            from as usize,
            symbol,
            program.len(),
            recorded_by(from),
            recorded_by(from),
            found_by(from),
        );
        assert(weaker(recorded_by(from), recorded_by(from + 1))) by {
            assert forall|pc: int, captures: Seq<usize>| #[trigger]
                recorded_by(from)(pc, captures) implies recorded_by(from + 1)(pc, captures) by {
                assert forall|slot: int| 0 <= slot < captures.len() implies #[trigger]
                    captures[slot] <= from + 1 by {
                    assert(captures[slot] <= from);
                }
            }
        }
        lemma_threads_satisfy_weaker(here.0, recorded_by(from), recorded_by(from + 1));
        lemma_matches_between_within(program, symbols, slots, from + 1, upto, here.0);
        assert forall|k: int| 0 <= k < all.len() implies found_by(upto - 1)(#[trigger] all[k]) by {
            if k < here.1.len() {
                assert(found_by(from)(here.1[k]));
            } else {
                assert(found_by(upto - 1)(later[k - here.1.len()]));
            }
        }
    }
}

/// What a search returns is one of the matches found, and lies within the
/// text: it neither starts nor ends after the last character.
pub proof fn lemma_search_within_text(program: Seq<Instruction>, text: Seq<char>)
    requires
        text.len() <= usize::MAX,
    ensures
        search_result(program, text) matches Some(found) ==> {
            &&& all_matches(program, symbols_of(text)).contains(found)
            &&& found.0 <= text.len()
            &&& found.1 <= text.len()
        },
{
    let symbols = symbols_of(text);
    let all = all_matches(program, symbols);
    lemma_longest_wins(all);
    if all.len() > 0 {
        let k = choose|k: int| first_longest(all, k);
        lemma_slots_needed(program);
        lemma_empty_threads_satisfy(program.len(), recorded_by(0));
        lemma_matches_between_within(
            program,
            symbols,
            slots_needed(program) as nat,
            0,
            symbols.len() as int + 1,
            empty_threads(program.len()),
        );
        assert(found_by(symbols.len() as int)(all[k]));
    }
}

/// A thread has at least the two capture slots of the overall match.
pub proof fn lemma_slots_needed(program: Seq<Instruction>)
    ensures
        slots_needed(program) >= 2,
    decreases program.len(),
{
    if program.len() > 0 {
        lemma_slots_needed(program.drop_last());
    }
}

/// Any thread.
pub open spec fn any_thread() -> spec_fn(int, Seq<usize>) -> bool {
    |pc: int, captures: Seq<usize>| true
}

/// No match.
pub open spec fn no_match() -> spec_fn((usize, usize)) -> bool {
    |found: (usize, usize)| false
}

/// With a program that holds no `Match` instruction nothing is found between
/// any two input positions.
pub proof fn lemma_nothing_between(
    program: Seq<Instruction>,
    symbols: Seq<u8>,
    slots: nat,
    from: int,
    upto: int,
    current: Threads,
)
    requires
        forall|pc: int| 0 <= pc < program.len() ==> program[pc] != Instruction::Match,
        current.len() == program.len(),
    ensures
        matches_between(program, symbols, from, upto, current, slots).len() == 0,
    decreases upto - from,
{
    if from < upto {
        let started = seeded(current, slots);
        let symbol = symbol_at(symbols, from);
        let here = step(program, started, from as usize, symbol);
        assert(threads_satisfy(started, any_thread()));
        lemma_empty_threads_satisfy(program.len(), any_thread());
        assert(kept_along(program, from as usize, symbol, any_thread(), any_thread(), no_match()));
        lemma_closure_sound(
            program,
            started,
            empty_threads(program.len()),
            from as usize,
            symbol,
            program.len(),
            any_thread(),
            any_thread(),
            no_match(),
        );
        if here.1.len() > 0 {
            assert(no_match()(here.1[0]));
        }
        lemma_nothing_between(program, symbols, slots, from + 1, upto, here.0);
    }
}

/// A program that holds no `Match` instruction, such as one of `Die` alone,
/// matches nothing, whatever the text.
pub proof fn lemma_no_match_without_match_instruction(program: Seq<Instruction>, text: Seq<char>)
    requires
        forall|pc: int| 0 <= pc < program.len() ==> program[pc] != Instruction::Match,
    ensures
        search_result(program, text) is None,
{
    let symbols = symbols_of(text);
    lemma_nothing_between(
        program,
        symbols,
        slots_needed(program) as nat,
        0,
        symbols.len() as int + 1,
        empty_threads(program.len()),
    );
    lemma_longest_wins(all_matches(program, symbols));
}

/// The threads that some way through the program and the input brings to
/// this moment.
pub open spec fn reached(
    program: Seq<Instruction>,
    symbols: Seq<u8>,
    slots: nat,
    index: int,
) -> spec_fn(int, Seq<usize>) -> bool {
    |pc: int, captures: Seq<usize>|
        exists|path: Seq<Moment>|
            {
                &&& #[trigger] is_path(program, symbols, path)
                &&& starts_fresh(path, slots)
                &&& path.last() == Moment { index, pc, captures }
            }
}

/// The matches that some thread reports at input index `index`.
pub open spec fn matched_at(
    program: Seq<Instruction>,
    symbols: Seq<u8>,
    slots: nat,
    index: int,
) -> spec_fn((usize, usize)) -> bool {
    |found: (usize, usize)|
        exists|path: Seq<Moment>|
            {
                &&& #[trigger] is_match_path(program, symbols, slots, path)
                &&& path.last().index == index
                &&& reported(path) == found
            }
}

/// The matches that some thread reports at an input index from `from` up
/// to, but not including, `upto`.
pub open spec fn matched_between(
    program: Seq<Instruction>,
    symbols: Seq<u8>,
    slots: nat,
    from: int,
    upto: int,
) -> spec_fn((usize, usize)) -> bool {
    |found: (usize, usize)|
        exists|path: Seq<Moment>|
            {
                &&& #[trigger] is_match_path(program, symbols, slots, path)
                &&& from <= path.last().index < upto
                &&& reported(path) == found
            }
}

/// A path with one more move at its end is a path.
pub proof fn lemma_path_extend(
    program: Seq<Instruction>,
    symbols: Seq<u8>,
    path: Seq<Moment>,
    to: Moment,
)
    requires
        is_path(program, symbols, path),
        moves(program, symbols, path.last(), to),
    ensures
        is_path(program, symbols, path.push(to)),
        path.push(to)[0] == path[0],
        path.push(to).last() == to,
{
    let longer = path.push(to);
    assert forall|k: int| 0 <= k < longer.len() - 1 implies moves(
        program,
        symbols,
        #[trigger] longer[k],
        longer[k + 1],
    ) by {
        if k < path.len() - 1 {
            assert(moves(program, symbols, path[k], path[k + 1]));
        }
    }
}

/// The threads that run at an input position have come there on some way,
/// and so have those that they become.
pub proof fn lemma_reached_kept(
    program: Seq<Instruction>,
    symbols: Seq<u8>,
    slots: nat,
    index: int,
)
    requires
        0 <= index <= symbols.len(),
        index <= usize::MAX,
    ensures
        kept_along(
            program,
            index as usize,
            symbol_at(symbols, index),
            reached(program, symbols, slots, index),
            reached(program, symbols, slots, index + 1),
            matched_at(program, symbols, slots, index),
        ),
{
    let symbol = symbol_at(symbols, index);
    let here = reached(program, symbols, slots, index);
    let later = reached(program, symbols, slots, index + 1);
    let found = matched_at(program, symbols, slots, index);
    assert forall|pc: int, captures: Seq<usize>, target: int, after: Seq<usize>|
        here(pc, captures) && #[trigger] goes_on(
            program,
            index as usize,
            symbol,
            pc,
            captures,
            target,
            after,
        ) implies here(target, after) by {
        let path = choose|path: Seq<Moment>|
            {
                &&& #[trigger] is_path(program, symbols, path)
                &&& starts_fresh(path, slots)
                &&& path.last() == Moment { index, pc, captures }
            };
        let to = Moment { index, pc: target, captures: after };
        lemma_path_extend(program, symbols, path, to);
        assert(is_path(program, symbols, path.push(to)));
    }
    assert forall|pc: int, captures: Seq<usize>|
        #[trigger] here(pc, captures) && takes(program, symbol, pc) implies later(
        pc + 1,
        captures,
    ) by {
        let path = choose|path: Seq<Moment>|
            {
                &&& #[trigger] is_path(program, symbols, path)
                &&& starts_fresh(path, slots)
                &&& path.last() == Moment { index, pc, captures }
            };
        let to = Moment { index: index + 1, pc: pc + 1, captures };
        lemma_path_extend(program, symbols, path, to);
        assert(is_path(program, symbols, path.push(to)));
    }
    assert forall|pc: int, captures: Seq<usize>|
        0 <= pc < program.len() && program[pc] == Instruction::Match && #[trigger] here(
            pc,
            captures,
        ) implies found((captures[0], captures[1])) by {
        let path = choose|path: Seq<Moment>|
            {
                &&& #[trigger] is_path(program, symbols, path)
                &&& starts_fresh(path, slots)
                &&& path.last() == Moment { index, pc, captures }
            };
        assert(is_match_path(program, symbols, slots, path));
    }
}

/// Every match found between two input positions is the match of a thread
/// that ends between them.
pub proof fn lemma_matches_between_sound(
    program: Seq<Instruction>,
    symbols: Seq<u8>,
    slots: nat,
    from: int,
    upto: int,
    current: Threads,
)
    requires
        0 <= from,
        upto <= symbols.len() + 1,
        symbols.len() <= usize::MAX,
        program.len() > 0,
        current.len() == program.len(),
        threads_satisfy(current, reached(program, symbols, slots, from)),
    ensures
        matches_satisfy(
            matches_between(program, symbols, from, upto, current, slots),
            matched_between(program, symbols, slots, from, upto),
        ),
    decreases upto - from,
{
    if from < upto {
        let started = seeded(current, slots);
        let symbol = symbol_at(symbols, from);
        let here = step(program, started, from as usize, symbol);
        let later = matches_between(program, symbols, from + 1, upto, here.0, slots);
        let all = matches_between(program, symbols, from, upto, current, slots);
        let arrived = reached(program, symbols, slots, from);
        let seed = seq![fresh_captures(slots)];
        assert(arrived(0, fresh_captures(slots))) by {
            let path = seq![Moment { index: from, pc: 0, captures: fresh_captures(slots) }];
            assert(is_path(program, symbols, path));
        }
        assert(bag_satisfies(seed, 0, arrived));
        lemma_threads_add_satisfies(current, 0, seed, arrived);
        lemma_reached_kept(program, symbols, slots, from);
        lemma_empty_threads_satisfy(program.len(), reached(program, symbols, slots, from + 1));
        lemma_closure_sound(
            program,
            started,
            empty_threads(program.len()),
            from as usize,
            symbol,
            program.len(),
            arrived,
            reached(program, symbols, slots, from + 1),
            matched_at(program, symbols, slots, from),
        );
        lemma_matches_between_sound(program, symbols, slots, from + 1, upto, here.0);
        let wanted = matched_between(program, symbols, slots, from, upto);
        assert forall|k: int| 0 <= k < all.len() implies wanted(#[trigger] all[k]) by {
            if k < here.1.len() {
                assert(matched_at(program, symbols, slots, from)(here.1[k]));
                let path = choose|path: Seq<Moment>|
                    {
                        &&& #[trigger] is_match_path(program, symbols, slots, path)
                        &&& path.last().index == from
                        &&& reported(path) == here.1[k]
                    };
                assert(is_match_path(program, symbols, slots, path));
            } else {
                assert(matched_between(program, symbols, slots, from + 1, upto)(
                    later[k - here.1.len()],
                ));
                let path = choose|path: Seq<Moment>|
                    {
                        &&& #[trigger] is_match_path(program, symbols, slots, path)
                        &&& from + 1 <= path.last().index < upto
                        &&& reported(path) == later[k - here.1.len()]
                    };
                assert(is_match_path(program, symbols, slots, path));
            }
        }
    }
}

/// Every match that a search finds is a match of the program: some thread
/// starts at some input index, takes a way through the program and the
/// input to a `Match` instruction and reports it.
pub proof fn lemma_every_match_found_is_one(
    program: Seq<Instruction>,
    symbols: Seq<u8>,
    found: (usize, usize),
)
    requires
        symbols.len() <= usize::MAX,
        all_matches(program, symbols).contains(found),
    ensures
        exists|path: Seq<Moment>|
            #[trigger] is_match_path(program, symbols, slots_needed(program) as nat, path)
                && reported(path) == found,
{
    let slots = slots_needed(program) as nat;
    let all = all_matches(program, symbols);
    let k = choose|k: int| 0 <= k < all.len() && all[k] == found;
    if program.len() == 0 {
        lemma_nothing_between(
            program,
            symbols,
            slots,
            0,
            symbols.len() as int + 1,
            empty_threads(program.len()),
        );
    } else {
        lemma_empty_threads_satisfy(program.len(), reached(program, symbols, slots, 0));
        lemma_matches_between_sound(
            program,
            symbols,
            slots,
            0,
            symbols.len() as int + 1,
            empty_threads(program.len()),
        );
        assert(matched_between(program, symbols, slots, 0, symbols.len() as int + 1)(all[k]));
        let path = choose|path: Seq<Moment>|
            {
                &&& #[trigger] is_match_path(program, symbols, slots, path)
                &&& 0 <= path.last().index < symbols.len() as int + 1
                &&& reported(path) == found
            };
        assert(is_match_path(program, symbols, slots, path));
    }
}

} // verus!
