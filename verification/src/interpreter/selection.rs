//! The choice among the matches found: the longest, and the first of those.

use crate::interpreter::semantics::{longest_match, span};
use vstd::prelude::*;

verus! {

/// Match `k` of `matches` is as long as any of them and longer than all
/// before it.
pub open spec fn first_longest(matches: Seq<(usize, usize)>, k: int) -> bool {
    &&& 0 <= k < matches.len()
    &&& forall|j: int| 0 <= j < matches.len() ==> span(#[trigger] matches[j]) <= span(matches[k])
    &&& forall|j: int| 0 <= j < k ==> span(#[trigger] matches[j]) < span(matches[k])
}

/// Of the matches found the longest is chosen, and of several longest ones
/// the one found first; nothing is chosen only if nothing was found.
pub proof fn lemma_longest_wins(matches: Seq<(usize, usize)>)
    ensures
        longest_match(matches) is None <==> matches.len() == 0,
        matches.len() > 0 ==> exists|k: int| first_longest(matches, k),
        forall|k: int| first_longest(matches, k) ==> longest_match(matches) == Some(matches[k]),
    decreases matches.len(),
{
    if matches.len() > 0 {
        let before = matches.drop_last();
        let last = matches.last();
        lemma_longest_wins(before);
        let chosen = if before.len() == 0 {
            matches.len() - 1
        } else {
            let kept = choose|k: int| first_longest(before, k);
            assert(before[kept] == matches[kept]);
            if span(before[kept]) >= span(last) {
                kept
            } else {
                matches.len() - 1
            }
        };
        assert(longest_match(matches) == Some(matches[chosen]));
        assert forall|j: int| 0 <= j < matches.len() implies span(#[trigger] matches[j]) <= span(
            matches[chosen],
        ) by {
            if j < before.len() {
                assert(before[j] == matches[j]);
            }
        }
        assert forall|j: int| 0 <= j < chosen implies span(#[trigger] matches[j]) < span(
            matches[chosen],
        ) by {
            assert(before[j] == matches[j]);
        }
        assert(first_longest(matches, chosen));
        assert forall|k: int| first_longest(matches, k) implies k == chosen by {
            if k < chosen {
                assert(span(matches[k]) < span(matches[chosen]));
                assert(span(matches[chosen]) <= span(matches[k]));
            } else if chosen < k {
                assert(span(matches[chosen]) < span(matches[k]));
                assert(span(matches[k]) <= span(matches[chosen]));
            }
        }
    } else {
        assert forall|k: int| !first_longest(matches, k) by {}
    }
}

} // verus!
