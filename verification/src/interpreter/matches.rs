//! What a search returns, said of the ways that threads can take.

use crate::interpreter::coverage::{
    lemma_every_match_is_found,
    lemma_matches_between_split,
    lemma_path_is_found_between,
};
use crate::interpreter::paths::{
    is_match_path,
    lemma_path_goes_forward,
    reported,
    settled_by,
    settles,
    Moment,
};
use crate::interpreter::selection::{first_longest, lemma_longest_wins};
use crate::interpreter::semantics::{
    all_matches,
    longest_match,
    matches_between,
    search_result,
    slots_needed,
    span,
    symbols_of,
};
use crate::interpreter::soundness::{
    found_by,
    lemma_empty_threads_satisfy,
    lemma_every_match_found_is_one,
    lemma_matches_between_within,
    lemma_slots_needed,
    recorded_by,
};
use crate::interpreter::thread::empty_threads;
use crate::regex::Instruction;
use vstd::prelude::*;

verus! {

/// The matches that a search finds are the matches of the program in the
/// input, all of them and no others, where no thread of the program can go
/// on for ever without taking a symbol.
pub proof fn lemma_found_are_the_matches(
    program: Seq<Instruction>,
    symbols: Seq<u8>,
    found: (usize, usize),
)
    requires
        settles(program),
        symbols.len() <= usize::MAX,
    ensures
        all_matches(program, symbols).contains(found) <==> exists|path: Seq<Moment>|
            #[trigger] is_match_path(program, symbols, slots_needed(program) as nat, path)
                && reported(path) == found,
{
    if all_matches(program, symbols).contains(found) {
        lemma_every_match_found_is_one(program, symbols, found);
    }
    if exists|path: Seq<Moment>|
        #[trigger] is_match_path(program, symbols, slots_needed(program) as nat, path) && reported(
            path,
        ) == found {
        let path = choose|path: Seq<Moment>|
            #[trigger] is_match_path(program, symbols, slots_needed(program) as nat, path)
                && reported(path) == found;
        lemma_every_match_is_found(program, symbols, path);
    }
}

/// A search starts a thread at every input index, so it misses no match:
/// where a thread takes a way from index `path[0].index` to a `Match`
/// instruction at index `path.last().index` and reports these two, the
/// search returns a match that is at least as long, and one that is no
/// longer starts no later.
pub proof fn lemma_match_starts_anywhere(
    program: Seq<Instruction>,
    symbols: Seq<u8>,
    path: Seq<Moment>,
)
    requires
        settles(program),
        symbols.len() <= usize::MAX,
        is_match_path(program, symbols, slots_needed(program) as nat, path),
        reported(path).0 == path[0].index,
        reported(path).1 == path.last().index,
    ensures
        longest_match(all_matches(program, symbols)) matches Some(found) && {
            &&& span(found) >= path.last().index - path[0].index
            &&& span(found) == path.last().index - path[0].index ==> found.0 <= path[0].index
        },
{
    let rank = choose|rank: Seq<int>| settled_by(program, rank);
    let slots = slots_needed(program) as nat;
    let start = empty_threads(program.len());
    let end = path.last().index;
    let all = all_matches(program, symbols);
    lemma_path_goes_forward(program, symbols, path, path.len() - 1);
    lemma_slots_needed(program);

    // The match of the path is found by the time its last index is done.
    lemma_path_is_found_between(program, symbols, slots, rank, path, 0, start);
    let early = matches_between(program, symbols, 0, end + 1, start, slots);
    let later = lemma_matches_between_split(
        program,
        symbols,
        slots,
        0,
        end + 1,
        symbols.len() as int + 1,
        start,
    );
    assert(all == early + later);
    let at = choose|at: int| 0 <= at < early.len() && early[at] == reported(path);
    assert(all[at] == reported(path));

    // What is found by then does not end after that index.
    lemma_empty_threads_satisfy(program.len(), recorded_by(0));
    lemma_matches_between_within(program, symbols, slots, 0, end + 1, start);

    lemma_longest_wins(all);
    let k = choose|k: int| first_longest(all, k);
    assert(span(all[at]) <= span(all[k]));
    if span(all[k]) == span(all[at]) {
        assert(k <= at);
        assert(all[k] == early[k]);
        assert(found_by(end)(early[k]));
    }
}

/// A program that cannot match without input finds nothing in the empty
/// text: if no thread comes from its start to a `Match` instruction without
/// taking a symbol, the search of the empty text returns nothing.
pub proof fn lemma_empty_text(program: Seq<Instruction>)
    requires
        forall|path: Seq<Moment>|
            !#[trigger] is_match_path(
                program,
                Seq::<u8>::empty(),
                slots_needed(program) as nat,
                path,
            ),
    ensures
        search_result(program, Seq::<char>::empty()) is None,
{
    let symbols = symbols_of(Seq::<char>::empty());
    assert(symbols =~= Seq::<u8>::empty());
    let all = all_matches(program, symbols);
    lemma_longest_wins(all);
    if all.len() > 0 {
        assert(all.contains(all[0]));
        lemma_every_match_found_is_one(program, symbols, all[0]);
    }
}

} // verus!
