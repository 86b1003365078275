//! Merging: a thread list holds one group for each program counter, and a
//! group holds each capture vector once.

use crate::interpreter::proofs::lemma_groups_from_members;
use crate::interpreter::semantics::{dispatch, sweep, Progress};
use crate::interpreter::thread::{
    bag_insert,
    bag_union,
    empty_threads,
    groups_of,
    threads_add,
    Bag,
    Threads,
};
use crate::regex::Instruction;
use vstd::prelude::*;

verus! {

/// No group of `threads` holds a capture vector twice.
pub open spec fn threads_without_duplicates(threads: Threads) -> bool {
    forall|pc: int|
        0 <= pc < threads.len() ==> (#[trigger] threads[pc] matches Some(bag)
            ==> bag.no_duplicates())
}

/// A thread list hands out at most one group for each program counter,
/// whatever has arrived in it.
pub proof fn lemma_one_group_per_pc(threads: Threads)
    ensures
        forall|j: int, k: int|
            0 <= j < k < groups_of(threads).len() ==> groups_of(threads)[j].0 != groups_of(
                threads,
            )[k].0,
{
    lemma_groups_from_members(threads, 0);
}

/// After more capture vectors have joined a bag, it holds what it held and
/// what joined, and nothing else; and if it held nothing twice, it still
/// holds nothing twice.
pub proof fn lemma_bag_union_merges(bag: Bag, incoming: Bag)
    ensures
        bag.no_duplicates() ==> bag_union(bag, incoming).no_duplicates(),
        forall|captures: Seq<usize>|
            bag_union(bag, incoming).contains(captures) <==> bag.contains(captures)
                || incoming.contains(captures),
    decreases incoming.len(),
{
    if incoming.len() > 0 {
        let before = bag_union(bag, incoming.drop_last());
        let after = bag_insert(before, incoming.last());
        lemma_bag_union_merges(bag, incoming.drop_last());
        assert forall|captures: Seq<usize>|
            after.contains(captures) <==> bag.contains(captures) || incoming.contains(
                captures,
            ) by {
            if after.contains(captures) {
                let i = choose|i: int| 0 <= i < after.len() && after[i] == captures;
                if i < before.len() {
                    assert(before.contains(captures));
                    if incoming.drop_last().contains(captures) {
                        let j = choose|j: int|
                            0 <= j < incoming.drop_last().len() && incoming.drop_last()[j]
                                == captures;
                        assert(incoming[j] == captures);
                    }
                } else {
                    assert(incoming[incoming.len() - 1] == captures);
                }
            }
            if bag.contains(captures) {
                assert(before.contains(captures));
                let i = choose|i: int| 0 <= i < before.len() && before[i] == captures;
                assert(after[i] == captures);
            }
            if incoming.contains(captures) {
                let j = choose|j: int| 0 <= j < incoming.len() && incoming[j] == captures;
                if j < incoming.len() - 1 {
                    assert(incoming.drop_last()[j] == captures);
                    assert(before.contains(captures));
                    let i = choose|i: int| 0 <= i < before.len() && before[i] == captures;
                    assert(after[i] == captures);
                } else if before.contains(captures) {
                } else {
                    assert(after[before.len() as int] == captures);
                }
            }
        }
    }
}

/// Threads that arrive leave every group without duplicates.
pub proof fn lemma_threads_add_merges(threads: Threads, pc: int, incoming: Bag)
    requires
        threads_without_duplicates(threads),
    ensures
        threads_without_duplicates(threads_add(threads, pc, incoming)),
{
    if 0 <= pc < threads.len() {
        let present = match threads[pc] {
            Some(bag) => bag,
            None => Seq::empty(),
        };
        lemma_bag_union_merges(present, incoming);
        let after = threads_add(threads, pc, incoming);
        assert forall|q: int| 0 <= q < after.len() implies (#[trigger] after[q] matches Some(bag)
            ==> bag.no_duplicates()) by {
            if q != pc {
                assert(after[q] == threads[q]);
            }
        }
    }
}

/// One instruction leaves every group without duplicates.
pub proof fn lemma_dispatch_merges(
    program: Seq<Instruction>,
    group: (int, Bag),
    index: usize,
    symbol: Option<u8>,
    progress: Progress,
)
    requires
        threads_without_duplicates(progress.temp),
        threads_without_duplicates(progress.next),
    ensures
        threads_without_duplicates(dispatch(program, group, index, symbol, progress).temp),
        threads_without_duplicates(dispatch(program, group, index, symbol, progress).next),
{
    let (pc, bag) = group;
    let after = dispatch(program, group, index, symbol, progress);
    if after.next != progress.next {
        lemma_threads_add_merges(progress.next, pc + 1, bag);
    }
    match program[pc] {
        Instruction::RangeBranch(lo, hi, dest) => {
            lemma_threads_add_merges(progress.temp, dest as int, bag);
            lemma_threads_add_merges(progress.temp, pc + 1, bag);
        },
        Instruction::Jump(dest) => {
            lemma_threads_add_merges(progress.temp, dest as int, bag);
        },
        Instruction::Split(pc1, pc2) => {
            lemma_threads_add_merges(progress.temp, pc1 as int, bag);
            lemma_threads_add_merges(threads_add(progress.temp, pc1 as int, bag), pc2 as int, bag);
        },
        Instruction::Save(slot) => {
            lemma_threads_add_merges(
                progress.temp,
                pc + 1,
                crate::interpreter::thread::bag_save(bag, slot as int, index),
            );
        },
        _ => {},
    }
}

/// One pass leaves every group without duplicates.
pub proof fn lemma_sweep_merges(
    program: Seq<Instruction>,
    groups: Seq<(int, Bag)>,
    index: usize,
    symbol: Option<u8>,
    progress: Progress,
)
    requires
        threads_without_duplicates(progress.temp),
        threads_without_duplicates(progress.next),
    ensures
        threads_without_duplicates(sweep(program, groups, index, symbol, progress).temp),
        threads_without_duplicates(sweep(program, groups, index, symbol, progress).next),
    decreases groups.len(),
{
    if groups.len() > 0 {
        lemma_dispatch_merges(program, groups[0], index, symbol, progress);
        lemma_sweep_merges(
            program,
            groups.drop_first(),
            index,
            symbol,
            dispatch(program, groups[0], index, symbol, progress),
        );
    }
}

/// After each pass over a thread list, the list of the threads that go on
/// holds at most one group for each program counter, and each group holds
/// each capture vector once. The same holds of the threads that wait for the
/// next input position.
pub proof fn lemma_pass_merges_threads(
    program: Seq<Instruction>,
    current: Threads,
    next: Threads,
    index: usize,
    symbol: Option<u8>,
)
    requires
        threads_without_duplicates(next),
    ensures
        ({
            let pass = sweep(
                program,
                groups_of(current),
                index,
                symbol,
                Progress { temp: empty_threads(current.len()), next, matches: Seq::empty() },
            );
            &&& threads_without_duplicates(pass.temp)
            &&& threads_without_duplicates(pass.next)
            &&& forall|j: int, k: int|
                0 <= j < k < groups_of(pass.temp).len() ==> groups_of(pass.temp)[j].0
                    != groups_of(pass.temp)[k].0
            &&& forall|j: int, k: int|
                0 <= j < k < groups_of(pass.next).len() ==> groups_of(pass.next)[j].0
                    != groups_of(pass.next)[k].0
        }),
{
    let start = Progress { temp: empty_threads(current.len()), next, matches: Seq::empty() };
    let pass = sweep(program, groups_of(current), index, symbol, start);
    lemma_sweep_merges(program, groups_of(current), index, symbol, start);
    lemma_one_group_per_pc(pass.temp);
    lemma_one_group_per_pc(pass.next);
}

} // verus!
