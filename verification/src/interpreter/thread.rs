//! Thread lists: the threads that wait at one input position, keyed by
//! program counter.
//!
//! All threads that rest at the same program counter form one group. A group
//! carries the capture vectors of its threads, each vector once, in the order
//! in which they arrived. A thread list holds at most one group for each
//! program counter below its capacity.

use crate::interpreter::dedup::{lemma_threads_add_merges, threads_without_duplicates};
use vstd::prelude::*;

verus! {

/// The capture vectors of one group, in order of arrival.
pub type Bag = Seq<Seq<usize>>;

/// A thread list seen as a table: the group that waits at each program counter.
pub type Threads = Seq<Option<Seq<Seq<usize>>>>;

/// A capture vector of `slots` entries in which nothing has been recorded.
pub open spec fn fresh_captures(slots: nat) -> Seq<usize> {
    Seq::new(slots, |i: int| 0usize)
}

/// `captures` with `index` recorded in `slot`; a vector without that slot is
/// left as it is.
pub open spec fn captures_save(captures: Seq<usize>, slot: int, index: usize) -> Seq<usize> {
    if 0 <= slot < captures.len() {
        captures.update(slot, index)
    } else {
        captures
    }
}

/// Every vector of `bag` with `index` recorded in `slot`.
pub open spec fn bag_save(bag: Bag, slot: int, index: usize) -> Bag {
    bag.map_values(|captures: Seq<usize>| captures_save(captures, slot, index))
}

/// The boundaries of submatch `pair` in each vector of `bag`.
pub open spec fn bag_matches(bag: Bag, pair: int) -> Seq<(usize, usize)> {
    bag.map_values(|captures: Seq<usize>| (captures[2 * pair], captures[2 * pair + 1]))
}

/// Every vector of `bag` has the two slots of submatch `pair`.
pub open spec fn bag_has_pair(bag: Bag, pair: int) -> bool {
    forall|i: int| 0 <= i < bag.len() ==> (#[trigger] bag[i]).len() >= 2 * pair + 2
}

/// `bag` with `captures` added at the end, unless it is there already.
pub open spec fn bag_insert(bag: Bag, captures: Seq<usize>) -> Bag {
    if bag.contains(captures) {
        bag
    } else {
        bag.push(captures)
    }
}

/// `bag` followed by the vectors of `incoming` that it does not hold yet.
pub open spec fn bag_union(bag: Bag, incoming: Bag) -> Bag
    decreases incoming.len(),
{
    if incoming.len() == 0 {
        bag
    } else {
        bag_insert(bag_union(bag, incoming.drop_last()), incoming.last())
    }
}

/// The table of the given capacity with no group in it.
pub open spec fn empty_threads(capacity: nat) -> Threads {
    Seq::new(capacity, |pc: int| None::<Bag>)
}

/// No program counter of `threads` has a group.
pub open spec fn threads_empty(threads: Threads) -> bool {
    forall|pc: int| 0 <= pc < threads.len() ==> threads[pc] is None
}

/// `threads` after the vectors of `incoming` have arrived at `pc`: they join
/// the group that waits there, or form a new one. A program counter outside
/// the table changes nothing.
pub open spec fn threads_add(threads: Threads, pc: int, incoming: Bag) -> Threads {
    if 0 <= pc < threads.len() {
        let present = match threads[pc] {
            Some(bag) => bag,
            None => Seq::empty(),
        };
        threads.update(pc, Some(bag_union(present, incoming)))
    } else {
        threads
    }
}

/// The groups of `threads` at program counters from `from` on, each with its
/// program counter, by rising program counter.
pub open spec fn groups_from(threads: Threads, from: int) -> Seq<(int, Bag)>
    decreases threads.len() - from,
{
    if from < 0 || from >= threads.len() {
        Seq::empty()
    } else {
        match threads[from] {
            Some(bag) => seq![(from, bag)] + groups_from(threads, from + 1),
            None => groups_from(threads, from + 1),
        }
    }
}

/// All groups of `threads`, by rising program counter.
pub open spec fn groups_of(threads: Threads) -> Seq<(int, Bag)> {
    groups_from(threads, 0)
}

spec fn bag_view(data: Seq<ThreadData>) -> Bag {
    data.map_values(|d: ThreadData| d@)
}

spec fn slots_view(slots: Seq<Option<Vec<ThreadData>>>) -> Threads {
    Seq::new(
        slots.len(),
        |pc: int|
            match slots[pc] {
                Some(data) => Some(bag_view(data@)),
                None => None,
            },
    )
}

/// Clearing a slot below `from` does not change the groups from `from` on.
proof fn lemma_groups_from_after_take(threads: Threads, taken: int, from: int)
    requires
        0 <= taken < from,
        taken < threads.len(),
    ensures
        groups_from(threads.update(taken, None), from) == groups_from(threads, from),
    decreases threads.len() - from,
{
    if from < threads.len() {
        lemma_groups_from_after_take(threads, taken, from + 1);
    }
}

/// The capture slots of one thread.
struct ThreadData {
    match_indices: Vec<usize>,
}

impl View for ThreadData {
    type V = Seq<usize>;

    closed spec fn view(&self) -> Seq<usize> {
        self.match_indices@
    }
}

impl ThreadData {
    /// The capture vector of a thread that has recorded nothing: the start
    /// and the end of the overall match.
    fn new() -> (data: Self)
        ensures
            data@ == fresh_captures(2),
    {
        let mut match_indices: Vec<usize> = Vec::new();
        match_indices.push(0);
        match_indices.push(0);
        assert(match_indices@ =~= fresh_captures(2));
        ThreadData { match_indices }
    }

    /// As `new`, with the given number of slots.
    fn with_slots(slots: usize) -> (data: Self)
        ensures
            data@ == fresh_captures(slots as nat),
    {
        let mut match_indices: Vec<usize> = Vec::new();
        let mut i: usize = 0;
        while i < slots
            invariant
                i <= slots,
                match_indices@ == fresh_captures(i as nat),
            decreases slots - i,
        {
            match_indices.push(0);
            i = i + 1;
            assert(match_indices@ =~= fresh_captures(i as nat));
        }
        ThreadData { match_indices }
    }

    /// Whether both threads have recorded the same in every slot.
    fn same(&self, other: &ThreadData) -> (equal: bool)
        ensures
            equal == (self@ == other@),
    {
        if self.match_indices.len() != other.match_indices.len() {
            return false;
        }
        let mut i: usize = 0;
        while i < self.match_indices.len()
            invariant
                i <= self.match_indices@.len(),
                self.match_indices@.len() == other.match_indices@.len(),
                forall|k: int| 0 <= k < i ==> self.match_indices@[k] == other.match_indices@[k],
            decreases self.match_indices@.len() - i,
        {
            if self.match_indices[i] != other.match_indices[i] {
                return false;
            }
            i = i + 1;
        }
        assert(self.match_indices@ =~= other.match_indices@);
        true
    }

    /// A copy that shares nothing with this capture vector.
    fn duplicate(&self) -> (data: Self)
        ensures
            data@ == self@,
    {
        let mut match_indices: Vec<usize> = Vec::new();
        let mut i: usize = 0;
        while i < self.match_indices.len()
            invariant
                i <= self.match_indices@.len(),
                match_indices@ == self.match_indices@.take(i as int),
            decreases self.match_indices@.len() - i,
        {
            match_indices.push(self.match_indices[i]);
            i = i + 1;
            assert(match_indices@ =~= self.match_indices@.take(i as int));
        }
        assert(self.match_indices@.take(i as int) =~= self.match_indices@);
        ThreadData { match_indices }
    }

    /// Records `char_index` in slot `match_index`, if there is such a slot.
    fn save(&mut self, match_index: usize, char_index: usize)
        ensures
            final(self)@ == captures_save(old(self)@, match_index as int, char_index),
    {
        if match_index < self.match_indices.len() {
            self.match_indices[match_index] = char_index;
        }
    }
}

/// Whether a group holds this capture vector already.
fn bag_contains(bag: &Vec<ThreadData>, data: &ThreadData) -> (found: bool)
    ensures
        found == bag_view(bag@).contains(data@),
{
    let mut i: usize = 0;
    while i < bag.len()
        invariant
            i <= bag@.len(),
            forall|k: int| 0 <= k < i ==> bag_view(bag@)[k] != data@,
        decreases bag@.len() - i,
    {
        if bag[i].same(data) {
            assert(bag_view(bag@)[i as int] == data@);
            return true;
        }
        i = i + 1;
    }
    false
}

/// A position-in-program-keyed set of pending threads.
pub struct ThreadList {
    threads: Vec<Option<Vec<ThreadData>>>,
}

impl View for ThreadList {
    type V = Threads;

    closed spec fn view(&self) -> Threads {
        slots_view(self.threads@)
    }
}

impl ThreadList {
    /// A list without threads, for program counters below `capacity`.
    pub fn new(capacity: usize) -> (list: Self)
        ensures
            list@ == empty_threads(capacity as nat),
            threads_without_duplicates(list@),
    {
        let mut threads: Vec<Option<Vec<ThreadData>>> = Vec::new();
        let mut i: usize = 0;
        while i < capacity
            invariant
                i <= capacity,
                threads@.len() == i,
                forall|k: int| 0 <= k < i ==> threads@[k] is None,
            decreases capacity - i,
        {
            threads.push(None);
            i = i + 1;
        }
        assert(slots_view(threads@) =~= empty_threads(capacity as nat));
        ThreadList { threads }
    }

    /// Lets the threads of `thread_data` arrive at `pc`. They join the group
    /// that waits there, each capture vector once, or form a new group. A
    /// program counter at or above the capacity is dropped.
    pub fn add_thread(&mut self, pc: usize, thread_data: ThreadGroup)
        ensures
            final(self)@ == threads_add(old(self)@, pc as int, thread_data.captures()),
            threads_without_duplicates(old(self)@) ==> threads_without_duplicates(final(self)@),
    {
        proof {
            if threads_without_duplicates(self@) {
                lemma_threads_add_merges(self@, pc as int, thread_data.captures());
            }
        }
        if pc < self.threads.len() {
            let mut bag: Vec<ThreadData> = match self.threads[pc].take() {
                Some(present) => present,
                None => Vec::new(),
            };
            let ghost present = bag_view(bag@);
            let ghost incoming = bag_view(thread_data.data@);
            assert(present == match old(self)@[pc as int] {
                Some(b) => b,
                None => Seq::empty(),
            });
            for data in it: thread_data.data
                invariant
                    it.seq() == thread_data.data@,
                    incoming == bag_view(thread_data.data@),
                    bag_view(bag@) == bag_union(present, incoming.take(it.index())),
            {
                assert(incoming.take(it.index() + 1).drop_last() =~= incoming.take(it.index()));
                assert(incoming.take(it.index() + 1).last() == data@);
                if !bag_contains(&bag, &data) {
                    let ghost before = bag_view(bag@);
                    bag.push(data);
                    assert(bag_view(bag@) =~= before.push(data@));
                }
            }
            assert(incoming.take(incoming.len() as int) =~= incoming);
            self.threads[pc] = Some(bag);
            assert(self@ =~= threads_add(old(self)@, pc as int, thread_data.captures()));
        }
    }

    /// Removes all groups.
    pub fn clear(&mut self)
        ensures
            final(self)@ == empty_threads(old(self)@.len()),
    {
        let mut i: usize = 0;
        while i < self.threads.len()
            invariant
                i <= self.threads@.len(),
                self.threads@.len() == old(self).threads@.len(),
                forall|k: int| 0 <= k < i ==> self.threads@[k] is None,
            decreases self.threads@.len() - i,
        {
            self.threads[i] = None;
            i = i + 1;
        }
        assert(self@ =~= empty_threads(old(self)@.len()));
    }

    /// Hands out the groups of the list, by rising program counter, and
    /// leaves the list without groups.
    pub fn iter_mut(&mut self) -> (groups: ThreadListIterMut)
        ensures
            groups.remaining() == groups_of(old(self)@),
            final(self)@ == empty_threads(old(self)@.len()),
    {
        let mut slots = ThreadList::new(self.threads.len()).threads;
        std::mem::swap(&mut self.threads, &mut slots);
        ThreadListIterMut { slots, position: 0 }
    }

    /// Whether no program counter has a group.
    pub fn is_empty(&self) -> (empty: bool)
        ensures
            empty == threads_empty(self@),
    {
        let mut i: usize = 0;
        while i < self.threads.len()
            invariant
                i <= self.threads@.len(),
                forall|k: int| 0 <= k < i ==> self@[k] is None,
            decreases self.threads@.len() - i,
        {
            if self.threads[i].is_some() {
                assert(self@[i as int] is Some);
                return false;
            }
            i = i + 1;
        }
        true
    }
}

/// The groups taken out of a thread list, handed out one by one.
pub struct ThreadListIterMut {
    slots: Vec<Option<Vec<ThreadData>>>,
    position: usize,
}

impl ThreadListIterMut {
    /// The groups that are still to come, each with its program counter.
    pub closed spec fn remaining(&self) -> Seq<(int, Bag)> {
        groups_from(slots_view(self.slots@), self.position as int)
    }

    /// The next group, or `None` when all have been handed out.
    pub fn next(&mut self) -> (group: Option<ThreadGroup>)
        ensures
            old(self).remaining().len() == 0 ==> group is None && final(self).remaining().len()
                == 0,
            old(self).remaining().len() > 0 ==> {
                &&& group matches Some(g)
                &&& g@ == old(self).remaining()[0]
                &&& final(self).remaining() == old(self).remaining().drop_first()
            },
    {
        while self.position < self.slots.len()
            invariant
                self.remaining() == old(self).remaining(),
            decreases self.slots@.len() - self.position,
        {
            let pc = self.position;
            let ghost before = slots_view(self.slots@);
            self.position = pc + 1;
            match self.slots[pc].take() {
                Some(data) => {
                    proof {
                        assert(slots_view(self.slots@) =~= before.update(pc as int, None));
                        lemma_groups_from_after_take(before, pc as int, pc + 1);
                        assert(old(self).remaining().drop_first() =~= groups_from(
                            before,
                            pc + 1,
                        ));
                    }
                    return Some(ThreadGroup { pc, data });
                },
                None => {
                    assert(slots_view(self.slots@) =~= before);
                },
            }
        }
        None
    }
}

/// A group of threads that are all at the same execution point in the program.
pub struct ThreadGroup {
    pub pc: usize,
    data: Vec<ThreadData>,
}

impl View for ThreadGroup {
    type V = (int, Bag);

    /// The program counter of the group and the capture vectors of its threads.
    closed spec fn view(&self) -> (int, Bag) {
        (self.pc as int, bag_view(self.data@))
    }
}

impl ThreadGroup {
    /// The capture vectors of the threads of the group.
    pub open spec fn captures(&self) -> Bag {
        self@.1
    }

    /// The program counter at which the threads of the group rest.
    pub fn pc(&self) -> (pc: usize)
        ensures
            pc == self@.0,
    {
        self.pc
    }

    /// A group of one thread at `pc` that has recorded nothing, with the two
    /// capture slots of the overall match.
    pub fn new(pc: usize) -> (group: Self)
        ensures
            group@ == (pc as int, seq![fresh_captures(2)]),
    {
        let mut data: Vec<ThreadData> = Vec::new();
        data.push(ThreadData::new());
        assert(bag_view(data@) =~= seq![fresh_captures(2)]);
        ThreadGroup { pc, data }
    }

    /// As `new`, with the given number of capture slots.
    pub fn with_slots(pc: usize, slots: usize) -> (group: Self)
        ensures
            group@ == (pc as int, seq![fresh_captures(slots as nat)]),
    {
        let mut data: Vec<ThreadData> = Vec::new();
        data.push(ThreadData::with_slots(slots));
        assert(bag_view(data@) =~= seq![fresh_captures(slots as nat)]);
        ThreadGroup { pc, data }
    }

    /// Records `char_index` in slot `match_index` of every capture vector.
    pub fn save(&mut self, match_index: usize, char_index: usize)
        ensures
            final(self)@ == (
                old(self)@.0,
                bag_save(old(self).captures(), match_index as int, char_index),
            ),
    {
        let mut i: usize = 0;
        while i < self.data.len()
            invariant
                i <= self.data@.len(),
                self.pc == old(self).pc,
                self.data@.len() == old(self).data@.len(),
                forall|k: int|
                    0 <= k < i ==> (#[trigger] self.data@[k])@ == captures_save(
                        old(self).data@[k]@,
                        match_index as int,
                        char_index,
                    ),
                forall|k: int| i <= k < self.data@.len() ==> self.data@[k] == old(self).data@[k],
            decreases self.data@.len() - i,
        {
            self.data[i].save(match_index, char_index);
            i = i + 1;
        }
        assert(self.captures() =~= bag_save(
            old(self).captures(),
            match_index as int,
            char_index,
        ));
    }

    /// The start and the end of submatch `match_index` as each thread of the
    /// group recorded them.
    pub fn get_match_data(&self, match_index: usize) -> (char_indices: Vec<(usize, usize)>)
        requires
            bag_has_pair(self.captures(), match_index as int),
        ensures
            char_indices@ == bag_matches(self.captures(), match_index as int),
    {
        let mut char_indices: Vec<(usize, usize)> = Vec::with_capacity(self.data.len());
        let mut i: usize = 0;
        while i < self.data.len()
            invariant
                i <= self.data@.len(),
                bag_has_pair(self.captures(), match_index as int),
                char_indices@ == bag_matches(self.captures(), match_index as int).take(i as int),
            decreases self.data@.len() - i,
        {
            let data = &self.data[i];
            assert(self.captures()[i as int] == data@);
            assert(data.match_indices.len() >= 2 * match_index + 2);
            let start = data.match_indices[match_index * 2];
            let end = data.match_indices[match_index * 2 + 1];
            char_indices.push((start, end));
            i = i + 1;
            assert(char_indices@ =~= bag_matches(self.captures(), match_index as int).take(
                i as int,
            ));
        }
        assert(bag_matches(self.captures(), match_index as int).take(i as int)
            =~= bag_matches(self.captures(), match_index as int));
        char_indices
    }
}

impl Clone for ThreadGroup {
    /// A group at the same program counter with a copy of every capture vector.
    fn clone(&self) -> (group: Self)
        ensures
            group@ == self@,
    {
        let mut data: Vec<ThreadData> = Vec::with_capacity(self.data.len());
        let mut i: usize = 0;
        while i < self.data.len()
            invariant
                i <= self.data@.len(),
                data@.len() == i,
                bag_view(data@) == bag_view(self.data@).take(i as int),
            decreases self.data@.len() - i,
        {
            data.push(self.data[i].duplicate());
            i = i + 1;
            assert(bag_view(data@) =~= bag_view(self.data@).take(i as int));
        }
        assert(bag_view(self.data@).take(i as int) =~= bag_view(self.data@));
        ThreadGroup { pc: self.pc, data }
    }
}

} // verus!
