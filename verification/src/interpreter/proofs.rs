//! Facts about thread lists and about what the interpreter computes.

use crate::interpreter::semantics::{
    closure,
    dispatch,
    goes_on,
    seeded,
    sweep,
    takes,
    threads_have_pair,
    Progress,
};
use crate::interpreter::thread::{
    bag_has_pair,
    bag_insert,
    bag_save,
    bag_union,
    empty_threads,
    fresh_captures,
    groups_from,
    groups_of,
    threads_add,
    threads_empty,
    Bag,
    Threads,
};
use crate::regex::Instruction;
use vstd::prelude::*;

verus! {

/// Each group that a thread list hands out from `from` on is the group that
/// the list holds at the program counter it comes with, and the program
/// counters rise from one group to the next: no program counter comes twice.
pub proof fn lemma_groups_from_members(threads: Threads, from: int)
    requires
        0 <= from,
    ensures
        forall|k: int|
            0 <= k < groups_from(threads, from).len() ==> {
                let group = #[trigger] groups_from(threads, from)[k];
                &&& from <= group.0 < threads.len()
                &&& threads[group.0] == Some(group.1)
            },
        forall|j: int, k: int|
            0 <= j < k < groups_from(threads, from).len() ==> groups_from(threads, from)[j].0
                < groups_from(threads, from)[k].0,
    decreases threads.len() - from,
{
    if from < threads.len() {
        lemma_groups_from_members(threads, from + 1);
        let rest = groups_from(threads, from + 1);
        match threads[from] {
            Some(bag) => {
                let all = groups_from(threads, from);
                assert(all == seq![(from, bag)] + rest);
                assert forall|k: int| 0 <= k < all.len() implies {
                    let group = #[trigger] all[k];
                    &&& from <= group.0 < threads.len()
                    &&& threads[group.0] == Some(group.1)
                } by {
                    if k > 0 {
                        assert(all[k] == rest[k - 1]);
                    }
                }
                assert forall|j: int, k: int| 0 <= j < k < all.len() implies all[j].0
                    < all[k].0 by {
                    assert(all[k] == rest[k - 1]);
                    if j > 0 {
                        assert(all[j] == rest[j - 1]);
                    }
                }
            },
            None => {},
        }
    }
}

/// Every capture vector of `bag` satisfies `inv` at `pc`.
pub open spec fn bag_satisfies(bag: Bag, pc: int, inv: spec_fn(int, Seq<usize>) -> bool) -> bool {
    forall|i: int| 0 <= i < bag.len() ==> inv(pc, #[trigger] bag[i])
}

/// Every thread of `threads` satisfies `inv` at its program counter.
pub open spec fn threads_satisfy(threads: Threads, inv: spec_fn(int, Seq<usize>) -> bool) -> bool {
    forall|pc: int|
        0 <= pc < threads.len() ==> (#[trigger] threads[pc] matches Some(bag) ==> bag_satisfies(
            bag,
            pc,
            inv,
        ))
}

/// Every match of `matches` satisfies `found`.
pub open spec fn matches_satisfy(
    matches: Seq<(usize, usize)>,
    found: spec_fn((usize, usize)) -> bool,
) -> bool {
    forall|k: int| 0 <= k < matches.len() ==> found(#[trigger] matches[k])
}

/// What holds of a thread by `here` still holds of it when it goes on at the
/// same input position; when it takes the input symbol, `later` holds of it;
/// and when it rests on a match, `found` holds of the match it reports.
pub open spec fn kept_along(
    program: Seq<Instruction>,
    index: usize,
    symbol: Option<u8>,
    here: spec_fn(int, Seq<usize>) -> bool,
    later: spec_fn(int, Seq<usize>) -> bool,
    found: spec_fn((usize, usize)) -> bool,
) -> bool {
    &&& forall|pc: int, captures: Seq<usize>, target: int, after: Seq<usize>|
        here(pc, captures) && #[trigger] goes_on(
            program,
            index,
            symbol,
            pc,
            captures,
            target,
            after,
        ) ==> here(target, after)
    &&& forall|pc: int, captures: Seq<usize>|
        #[trigger] here(pc, captures) && takes(program, symbol, pc) ==> later(pc + 1, captures)
    &&& forall|pc: int, captures: Seq<usize>|
        0 <= pc < program.len() && program[pc] == Instruction::Match && #[trigger] here(
            pc,
            captures,
        ) ==> found((captures[0], captures[1]))
}

/// A union of two bags whose capture vectors satisfy `inv` satisfies it.
pub proof fn lemma_bag_union_satisfies(
    bag: Bag,
    incoming: Bag,
    pc: int,
    inv: spec_fn(int, Seq<usize>) -> bool,
)
    requires
        bag_satisfies(bag, pc, inv),
        bag_satisfies(incoming, pc, inv),
    ensures
        bag_satisfies(bag_union(bag, incoming), pc, inv),
    decreases incoming.len(),
{
    if incoming.len() > 0 {
        lemma_bag_union_satisfies(bag, incoming.drop_last(), pc, inv);
        let before = bag_union(bag, incoming.drop_last());
        let after = bag_insert(before, incoming.last());
        assert forall|i: int| 0 <= i < after.len() implies inv(pc, #[trigger] after[i]) by {
            if i < before.len() {
                assert(after[i] == before[i]);
            } else {
                assert(after[i] == incoming[incoming.len() - 1]);
            }
        }
    }
}

/// Threads that satisfy `inv` at the program counter where they arrive
/// leave a thread list whose threads satisfy it.
pub proof fn lemma_threads_add_satisfies(
    threads: Threads,
    pc: int,
    incoming: Bag,
    inv: spec_fn(int, Seq<usize>) -> bool,
)
    requires
        threads_satisfy(threads, inv),
        0 <= pc < threads.len() ==> bag_satisfies(incoming, pc, inv),
    ensures
        threads_satisfy(threads_add(threads, pc, incoming), inv),
        threads_add(threads, pc, incoming).len() == threads.len(),
{
    if 0 <= pc < threads.len() {
        let present = match threads[pc] {
            Some(bag) => bag,
            None => Seq::empty(),
        };
        assert(threads[pc] is Some ==> bag_satisfies(present, pc, inv));
        lemma_bag_union_satisfies(present, incoming, pc, inv);
        let after = threads_add(threads, pc, incoming);
        assert forall|q: int| 0 <= q < after.len() implies (#[trigger] after[q] matches Some(bag)
            ==> bag_satisfies(bag, q, inv)) by {
            if q != pc {
                assert(after[q] == threads[q]);
            }
        }
    }
}

/// One instruction keeps what `kept_along` says.
pub proof fn lemma_dispatch_sound(
    program: Seq<Instruction>,
    group: (int, Bag),
    index: usize,
    symbol: Option<u8>,
    progress: Progress,
    here: spec_fn(int, Seq<usize>) -> bool,
    later: spec_fn(int, Seq<usize>) -> bool,
    found: spec_fn((usize, usize)) -> bool,
)
    requires
        kept_along(program, index, symbol, here, later, found),
        0 <= group.0 < program.len(),
        bag_satisfies(group.1, group.0, here),
        progress.temp.len() == program.len(),
        progress.next.len() == program.len(),
        threads_satisfy(progress.temp, here),
        threads_satisfy(progress.next, later),
        matches_satisfy(progress.matches, found),
    ensures
        dispatch(program, group, index, symbol, progress).temp.len() == program.len(),
        dispatch(program, group, index, symbol, progress).next.len() == program.len(),
        threads_satisfy(dispatch(program, group, index, symbol, progress).temp, here),
        threads_satisfy(dispatch(program, group, index, symbol, progress).next, later),
        matches_satisfy(dispatch(program, group, index, symbol, progress).matches, found),
{
    let (pc, bag) = group;
    let after = dispatch(program, group, index, symbol, progress);
    match program[pc] {
        Instruction::Match => {
            assert forall|k: int| 0 <= k < after.matches.len() implies found(
                #[trigger] after.matches[k],
            ) by {
                if k >= progress.matches.len() {
                    let c = bag[k - progress.matches.len()];
                    assert(here(pc, c));
                    assert(after.matches[k] == (c[0], c[1]));
                }
            }
        },
        Instruction::Die => {},
        Instruction::Consume => {
            if symbol is Some {
                assert forall|i: int| 0 <= i < bag.len() && pc + 1 < program.len() implies later(
                    pc + 1,
                    #[trigger] bag[i],
                ) by {
                    assert(here(pc, bag[i]) && takes(program, symbol, pc));
                }
                lemma_threads_add_satisfies(progress.next, pc + 1, bag, later);
            }
        },
        Instruction::Range(lo, hi, inverted) => {
            assert forall|i: int|
                0 <= i < bag.len() && pc + 1 < program.len() && takes(
                    program,
                    symbol,
                    pc,
                ) implies later(pc + 1, #[trigger] bag[i]) by {
                assert(here(pc, bag[i]) && takes(program, symbol, pc));
            }
            if after.next != progress.next {
                lemma_threads_add_satisfies(progress.next, pc + 1, bag, later);
            }
        },
        Instruction::RangeBranch(lo, hi, dest) => {
            if let Some(s) = symbol {
                let target = if crate::interpreter::semantics::in_range(lo, hi, s) {
                    dest as int
                } else {
                    pc + 1
                };
                assert forall|i: int| 0 <= i < bag.len() && 0 <= target < program.len() implies here(
                    target,
                    #[trigger] bag[i],
                ) by {
                    assert(here(pc, bag[i]) && goes_on(
                        program,
                        index,
                        symbol,
                        pc,
                        bag[i],
                        target,
                        bag[i],
                    ));
                }
                lemma_threads_add_satisfies(progress.temp, target, bag, here);
            }
        },
        Instruction::Jump(dest) => {
            let target = dest as int;
            assert forall|i: int| 0 <= i < bag.len() && 0 <= target < program.len() implies here(
                target,
                #[trigger] bag[i],
            ) by {
                assert(here(pc, bag[i]) && goes_on(
                    program,
                    index,
                    symbol,
                    pc,
                    bag[i],
                    target,
                    bag[i],
                ));
            }
            lemma_threads_add_satisfies(progress.temp, target, bag, here);
        },
        Instruction::Split(pc1, pc2) => {
            assert forall|i: int| 0 <= i < bag.len() && 0 <= pc1 < program.len() implies here(
                pc1 as int,
                #[trigger] bag[i],
            ) by {
                assert(here(pc, bag[i]) && goes_on(
                    program,
                    index,
                    symbol,
                    pc,
                    bag[i],
                    pc1 as int,
                    bag[i],
                ));
            }
            assert forall|i: int| 0 <= i < bag.len() && 0 <= pc2 < program.len() implies here(
                pc2 as int,
                #[trigger] bag[i],
            ) by {
                assert(here(pc, bag[i]) && goes_on(
                    program,
                    index,
                    symbol,
                    pc,
                    bag[i],
                    pc2 as int,
                    bag[i],
                ));
            }
            lemma_threads_add_satisfies(progress.temp, pc1 as int, bag, here);
            lemma_threads_add_satisfies(
                threads_add(progress.temp, pc1 as int, bag),
                pc2 as int,
                bag,
                here,
            );
        },
        Instruction::Save(slot) => {
            let saved = bag_save(bag, slot as int, index);
            assert forall|i: int| 0 <= i < saved.len() && pc + 1 < program.len() implies here(
                pc + 1,
                #[trigger] saved[i],
            ) by {
                assert(here(pc, bag[i]) && goes_on(
                    program,
                    index,
                    symbol,
                    pc,
                    bag[i],
                    pc + 1,
                    saved[i],
                ));
            }
            lemma_threads_add_satisfies(progress.temp, pc + 1, saved, here);
        },
    }
}

/// The groups are at program counters of the program, and their threads
/// satisfy `inv`.
pub open spec fn groups_satisfy(
    program: Seq<Instruction>,
    groups: Seq<(int, Bag)>,
    inv: spec_fn(int, Seq<usize>) -> bool,
) -> bool {
    forall|k: int|
        0 <= k < groups.len() ==> {
            &&& 0 <= (#[trigger] groups[k]).0 < program.len()
            &&& bag_satisfies(groups[k].1, groups[k].0, inv)
        }
}

/// One pass keeps what `kept_along` says.
pub proof fn lemma_sweep_sound(
    program: Seq<Instruction>,
    groups: Seq<(int, Bag)>,
    index: usize,
    symbol: Option<u8>,
    progress: Progress,
    here: spec_fn(int, Seq<usize>) -> bool,
    later: spec_fn(int, Seq<usize>) -> bool,
    found: spec_fn((usize, usize)) -> bool,
)
    requires
        kept_along(program, index, symbol, here, later, found),
        groups_satisfy(program, groups, here),
        progress.temp.len() == program.len(),
        progress.next.len() == program.len(),
        threads_satisfy(progress.temp, here),
        threads_satisfy(progress.next, later),
        matches_satisfy(progress.matches, found),
    ensures
        sweep(program, groups, index, symbol, progress).temp.len() == program.len(),
        sweep(program, groups, index, symbol, progress).next.len() == program.len(),
        threads_satisfy(sweep(program, groups, index, symbol, progress).temp, here),
        threads_satisfy(sweep(program, groups, index, symbol, progress).next, later),
        matches_satisfy(sweep(program, groups, index, symbol, progress).matches, found),
    decreases groups.len(),
{
    if groups.len() > 0 {
        lemma_dispatch_sound(program, groups[0], index, symbol, progress, here, later, found);
        let rest = groups.drop_first();
        assert forall|k: int| 0 <= k < rest.len() implies {
            &&& 0 <= (#[trigger] rest[k]).0 < program.len()
            &&& bag_satisfies(rest[k].1, rest[k].0, here)
        } by {
            assert(rest[k] == groups[k + 1]);
        }
        lemma_sweep_sound(
            program,
            rest,
            index,
            symbol,
            dispatch(program, groups[0], index, symbol, progress),
            here,
            later,
            found,
        );
    }
}

/// The groups of a thread list whose threads satisfy `inv` satisfy it.
pub proof fn lemma_groups_satisfy(
    program: Seq<Instruction>,
    threads: Threads,
    inv: spec_fn(int, Seq<usize>) -> bool,
)
    requires
        threads.len() <= program.len(),
        threads_satisfy(threads, inv),
    ensures
        groups_satisfy(program, groups_of(threads), inv),
{
    lemma_groups_from_members(threads, 0);
    assert forall|k: int| 0 <= k < groups_of(threads).len() implies {
        &&& 0 <= (#[trigger] groups_of(threads)[k]).0 < program.len()
        &&& bag_satisfies(groups_of(threads)[k].1, groups_of(threads)[k].0, inv)
    } by {
        let group = groups_of(threads)[k];
        assert(threads[group.0] == Some(group.1));
    }
}

/// An input position keeps what `kept_along` says: if `here` holds of the
/// threads that run, then `later` holds of the threads that wait for the next
/// position, and `found` of the matches.
pub proof fn lemma_closure_sound(
    program: Seq<Instruction>,
    current: Threads,
    next: Threads,
    index: usize,
    symbol: Option<u8>,
    rounds: nat,
    here: spec_fn(int, Seq<usize>) -> bool,
    later: spec_fn(int, Seq<usize>) -> bool,
    found: spec_fn((usize, usize)) -> bool,
)
    requires
        kept_along(program, index, symbol, here, later, found),
        current.len() == program.len(),
        next.len() == program.len(),
        threads_satisfy(current, here),
        threads_satisfy(next, later),
    ensures
        closure(program, current, next, index, symbol, rounds).0.len() == program.len(),
        threads_satisfy(closure(program, current, next, index, symbol, rounds).0, later),
        matches_satisfy(closure(program, current, next, index, symbol, rounds).1, found),
    decreases rounds,
{
    if rounds == 0 || threads_empty(current) {
    } else {
        let start = Progress {
            temp: empty_threads(current.len()),
            next,
            matches: Seq::empty(),
        };
        lemma_groups_satisfy(program, current, here);
        lemma_sweep_sound(program, groups_of(current), index, symbol, start, here, later, found);
        let pass = sweep(program, groups_of(current), index, symbol, start);
        lemma_closure_sound(
            program,
            pass.temp,
            pass.next,
            index,
            symbol,
            (rounds - 1) as nat,
            here,
            later,
            found,
        );
    }
}

/// At the end of the input no thread of a pass takes a symbol.
pub proof fn lemma_sweep_at_end(
    program: Seq<Instruction>,
    groups: Seq<(int, Bag)>,
    index: usize,
    progress: Progress,
)
    ensures
        sweep(program, groups, index, None, progress).next == progress.next,
    decreases groups.len(),
{
    if groups.len() > 0 {
        lemma_sweep_at_end(
            program,
            groups.drop_first(),
            index,
            dispatch(program, groups[0], index, None, progress),
        );
    }
}

/// At the end of the input no thread is left that waits for a symbol.
pub proof fn lemma_closure_at_end(
    program: Seq<Instruction>,
    current: Threads,
    next: Threads,
    index: usize,
    rounds: nat,
)
    ensures
        closure(program, current, next, index, None, rounds).0 == next,
    decreases rounds,
{
    if rounds == 0 || threads_empty(current) {
    } else {
        let start = Progress {
            temp: empty_threads(current.len()),
            next,
            matches: Seq::empty(),
        };
        lemma_sweep_at_end(program, groups_of(current), index, start);
        let pass = sweep(program, groups_of(current), index, None, start);
        lemma_closure_at_end(program, pass.temp, pass.next, index, (rounds - 1) as nat);
    }
}

/// The threads with the two slots of the overall match.
pub open spec fn with_pair() -> spec_fn(int, Seq<usize>) -> bool {
    |pc: int, captures: Seq<usize>| captures.len() >= 2
}

/// Any match.
pub open spec fn any_match() -> spec_fn((usize, usize)) -> bool {
    |found: (usize, usize)| true
}

/// A thread keeps its capture slots wherever it goes.
pub proof fn lemma_pair_kept(program: Seq<Instruction>, index: usize, symbol: Option<u8>)
    ensures
        kept_along(program, index, symbol, with_pair(), with_pair(), any_match()),
{
}

/// Every group has the slots of the overall match exactly if every thread
/// has two capture slots or more.
pub proof fn lemma_have_pair(threads: Threads)
    ensures
        threads_have_pair(threads) <==> threads_satisfy(threads, with_pair()),
{
    if threads_have_pair(threads) {
        assert forall|pc: int| 0 <= pc < threads.len() implies (#[trigger] threads[pc] matches Some(
            bag,
        ) ==> bag_satisfies(bag, pc, with_pair())) by {
            if let Some(bag) = threads[pc] {
                assert(bag_has_pair(bag, 0));
            }
        }
    }
    if threads_satisfy(threads, with_pair()) {
        assert forall|pc: int| 0 <= pc < threads.len() implies (#[trigger] threads[pc] matches Some(
            bag,
        ) ==> bag_has_pair(bag, 0)) by {
            if let Some(bag) = threads[pc] {
                assert(bag_satisfies(bag, pc, with_pair()));
            }
        }
    }
}

/// One pass keeps the slots of the overall match in both thread lists.
pub proof fn lemma_sweep_keeps_pair(
    program: Seq<Instruction>,
    current: Threads,
    index: usize,
    symbol: Option<u8>,
    next: Threads,
)
    requires
        current.len() == program.len(),
        next.len() == program.len(),
        threads_have_pair(current),
        threads_have_pair(next),
    ensures
        ({
            let pass = sweep(
                program,
                groups_of(current),
                index,
                symbol,
                Progress { temp: empty_threads(program.len()), next, matches: Seq::empty() },
            );
            &&& pass.temp.len() == program.len()
            &&& pass.next.len() == program.len()
            &&& threads_have_pair(pass.temp)
            &&& threads_have_pair(pass.next)
        }),
{
    let start = Progress { temp: empty_threads(program.len()), next, matches: Seq::empty() };
    let pass = sweep(program, groups_of(current), index, symbol, start);
    lemma_pair_kept(program, index, symbol);
    lemma_have_pair(current);
    lemma_have_pair(next);
    lemma_groups_satisfy(program, current, with_pair());
    lemma_sweep_sound(
        program,
        groups_of(current),
        index,
        symbol,
        start,
        with_pair(),
        with_pair(),
        any_match(),
    );
    lemma_have_pair(pass.temp);
    lemma_have_pair(pass.next);
}

/// The groups of a thread list in which every group has the slots of the
/// overall match have them.
pub proof fn lemma_groups_have_pair(threads: Threads)
    requires
        threads_have_pair(threads),
    ensures
        forall|k: int|
            0 <= k < groups_of(threads).len() ==> bag_has_pair(
                (#[trigger] groups_of(threads)[k]).1,
                0,
            ),
{
    lemma_groups_from_members(threads, 0);
    assert forall|k: int| 0 <= k < groups_of(threads).len() implies bag_has_pair(
        (#[trigger] groups_of(threads)[k]).1,
        0,
    ) by {
        let group = groups_of(threads)[k];
        assert(threads[group.0] == Some(group.1));
    }
}

/// A new thread with at least two slots keeps the slots of the overall match.
pub proof fn lemma_seeded_has_pair(current: Threads, slots: nat)
    requires
        threads_have_pair(current),
        slots >= 2,
    ensures
        threads_have_pair(seeded(current, slots)),
        seeded(current, slots).len() == current.len(),
{
    let seed = seq![fresh_captures(slots)];
    lemma_have_pair(current);
    assert(bag_satisfies(seed, 0, with_pair()));
    lemma_threads_add_satisfies(current, 0, seed, with_pair());
    lemma_have_pair(seeded(current, slots));
}

} // verus!
