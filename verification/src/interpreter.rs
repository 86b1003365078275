//! The interpreter: it steps all threads of a program through the input.
//!
//! At each input position a new thread starts at the first instruction, so a
//! match may begin anywhere. All threads run until each of them has ended or
//! waits for the next input symbol; threads that meet at one program counter
//! are merged, so that an instruction runs at most once in each pass over the
//! thread list. Of the matches found the longest is reported, and of several
//! longest ones the first.

use crate::interpreter::proofs::{
    lemma_closure_at_end,
    lemma_groups_from_members,
    lemma_groups_have_pair,
    lemma_seeded_has_pair,
    lemma_sweep_keeps_pair,
};
use crate::interpreter::selection::{first_longest, lemma_longest_wins};
use crate::interpreter::semantics::{
    all_matches,
    closure,
    dispatch,
    longer_match,
    longest_match,
    matches_between,
    matches_from,
    search_result,
    seeded,
    slots_needed,
    step,
    sweep,
    symbol_at,
    symbol_of,
    symbols_of,
    threads_have_pair,
    Progress,
};
use crate::interpreter::soundness::lemma_search_within_text;
use crate::interpreter::thread::{bag_has_pair, empty_threads, groups_of, ThreadGroup, ThreadList};
use crate::regex::Instruction;
use vstd::prelude::*;

pub mod coverage;
pub mod dedup;
pub mod matches;
pub mod paths;
pub mod proofs;
pub mod quiescence;
pub mod selection;
pub mod semantics;
pub mod soundness;
pub mod thread;

verus! {

/// The symbol that stands for a character of the input.
pub fn to_symbol(c: char) -> (symbol: u8)
    ensures
        symbol == symbol_of(c),
{
    if (c as u32) < 128 {
        c as u8
    } else {
        0xFE
    }
}

/// The symbols of a text, one for each character.
pub fn to_symbols(input: &str) -> (symbols: Vec<u8>)
    ensures
        symbols@ == symbols_of(input@),
{
    let mut symbols: Vec<u8> = Vec::new();
    for c in chars: input.chars()
        invariant
            chars.seq() == input@,
            symbols@ == symbols_of(input@.take(chars.index())),
    {
        symbols.push(to_symbol(c));
        assert(input@.take(chars.index() + 1) =~= input@.take(chars.index()).push(c));
    }
    assert(input@.take(input@.len() as int) =~= input@);
    symbols
}

/// The number of capture slots that the threads of `program` carry.
pub fn capture_slots(program: &[Instruction]) -> (slots: usize)
    ensures
        slots == slots_needed(program@),
        slots >= 2,
{
    let mut slots: usize = 2;
    let mut i: usize = 0;
    while i < program.len()
        invariant
            i <= program@.len(),
            slots == slots_needed(program@.take(i as int)),
            slots >= 2,
        decreases program@.len() - i,
    {
        assert(program@.take(i + 1).drop_last() =~= program@.take(i as int));
        match program[i] {
            Instruction::Save(slot) => {
                if slot >= slots {
                    slots = if slot < usize::MAX {
                        slot + 1
                    } else {
                        usize::MAX
                    };
                }
            },
            _ => {},
        }
        i = i + 1;
    }
    assert(program@.take(i as int) =~= program@);
    slots
}

/// The better of the best match so far and a later one: the later one only
/// if it is longer.
pub fn longer(best: Option<(usize, usize)>, later: (usize, usize)) -> (better: Option<
    (usize, usize),
>)
    ensures
        better == longer_match(best, later),
{
    match best {
        Some(b) => {
            if b.1 as u128 + later.0 as u128 >= later.1 as u128 + b.0 as u128 {
                best
            } else {
                Some(later)
            }
        },
        None => Some(later),
    }
}

/// The longest of `matches`, and among several of that length the first.
pub fn longest(matches: &Vec<(usize, usize)>) -> (best: Option<(usize, usize)>)
    ensures
        best == longest_match(matches@),
        best is None <==> matches@.len() == 0,
        forall|k: int| first_longest(matches@, k) ==> best == Some(matches@[k]),
{
    proof {
        lemma_longest_wins(matches@);
    }
    let mut best: Option<(usize, usize)> = None;
    let mut i: usize = 0;
    while i < matches.len()
        invariant
            i <= matches@.len(),
            best == longest_match(matches@.take(i as int)),
        decreases matches@.len() - i,
    {
        assert(matches@.take(i + 1).drop_last() =~= matches@.take(i as int));
        best = longer(best, matches[i]);
        i = i + 1;
    }
    assert(matches@.take(i as int) =~= matches@);
    best
}

/// The interpreter of one program.
pub struct Executor<'a> {
    program: &'a [Instruction],
    slots: usize,
}

impl<'a> Executor<'a> {
    /// The program that the interpreter runs.
    pub closed spec fn program(&self) -> Seq<Instruction> {
        self.program@
    }

    /// A thread that starts has the capture slots that the program needs.
    #[verifier::type_invariant]
    spec fn slots_fit(self) -> bool {
        self.slots == slots_needed(self.program@) && self.slots >= 2
    }

    /// An interpreter for `prog`.
    pub fn new(prog: &'a [Instruction]) -> (executor: Self)
        ensures
            executor.program() == prog@,
    {
        Executor { program: prog, slots: capture_slots(prog) }
    }

    /// One pass over `current_threads`: each group is taken out and runs its
    /// instruction once. Threads that go on at this input position arrive in
    /// `temp_threads`, threads that have taken the input symbol in
    /// `next_threads`; the matches found are returned.
    fn _execution_step(
        &self,
        current_threads: &mut ThreadList,
        temp_threads: &mut ThreadList,
        next_threads: &mut ThreadList,
        char_index: usize,
        input_char: Option<u8>,
    ) -> (matches: Vec<(usize, usize)>)
        requires
            old(current_threads)@.len() <= self.program().len(),
            threads_have_pair(old(current_threads)@),
        ensures
            final(current_threads)@ == empty_threads(old(current_threads)@.len()),
            (Progress {
                temp: final(temp_threads)@,
                next: final(next_threads)@,
                matches: matches@,
            }) == sweep(
                self.program(),
                groups_of(old(current_threads)@),
                char_index,
                input_char,
                (Progress {
                    temp: old(temp_threads)@,
                    next: old(next_threads)@,
                    matches: Seq::empty(),
                }),
            ),
    {
        let mut matches: Vec<(usize, usize)> = Vec::new();
        let ghost goal = sweep(
            self.program(),
            groups_of(old(current_threads)@),
            char_index,
            input_char,
            (Progress { temp: old(temp_threads)@, next: old(next_threads)@, matches: Seq::empty() }),
        );
        proof {
            lemma_groups_from_members(old(current_threads)@, 0);
            lemma_groups_have_pair(old(current_threads)@);
        }
        let mut groups = current_threads.iter_mut();
        loop
            invariant
                current_threads@ == empty_threads(old(current_threads)@.len()),
                forall|k: int|
                    0 <= k < groups.remaining().len() ==> {
                        &&& (#[trigger] groups.remaining()[k]).0 < self.program().len()
                        &&& bag_has_pair(groups.remaining()[k].1, 0)
                    },
                sweep(
                    self.program(),
                    groups.remaining(),
                    char_index,
                    input_char,
                    (Progress { temp: temp_threads@, next: next_threads@, matches: matches@ }),
                ) == goal,
            ensures
                (Progress { temp: temp_threads@, next: next_threads@, matches: matches@ }) == goal,
            decreases groups.remaining().len(),
        {
            let ghost waiting = groups.remaining();
            let ghost before = Progress {
                temp: temp_threads@,
                next: next_threads@,
                matches: matches@,
            };
            match groups.next() {
                None => {
                    break ;
                },
                Some(mut thread_group) => {
                    let pc = thread_group.pc();
                    proof {
                        assert(thread_group@ == waiting[0]);
                        assert forall|k: int| 0 <= k < groups.remaining().len() implies {
                            &&& (#[trigger] groups.remaining()[k]).0 < self.program().len()
                            &&& bag_has_pair(groups.remaining()[k].1, 0)
                        } by {
                            assert(groups.remaining()[k] == waiting[k + 1]);
                        }
                    }
                    match self.program[pc] {
                        Instruction::Match => {
                            let mut found = thread_group.get_match_data(0);
                            matches.append(&mut found);
                        },
                        Instruction::Die => {},
                        Instruction::Consume => {
                            if input_char.is_some() {
                                next_threads.add_thread(pc + 1, thread_group);
                            }
                        },
                        Instruction::Range(c_min, c_max, inverted) => {
                            match input_char {
                                Some(symbol) => {
                                    let in_range = c_min <= symbol && symbol <= c_max;
                                    if in_range != inverted {
                                        next_threads.add_thread(pc + 1, thread_group);
                                    }
                                },
                                None => {},
                            }
                        },
                        Instruction::RangeBranch(c_min, c_max, new_pc) => {
                            match input_char {
                                Some(symbol) => {
                                    if c_min <= symbol && symbol <= c_max {
                                        temp_threads.add_thread(new_pc, thread_group);
                                    } else {
                                        temp_threads.add_thread(pc + 1, thread_group);
                                    }
                                },
                                None => {},
                            }
                        },
                        Instruction::Jump(new_pc) => {
                            temp_threads.add_thread(new_pc, thread_group);
                        },
                        Instruction::Split(pc1, pc2) => {
                            temp_threads.add_thread(pc1, thread_group.clone());
                            temp_threads.add_thread(pc2, thread_group);
                        },
                        Instruction::Save(dest) => {
                            thread_group.save(dest, char_index);
                            temp_threads.add_thread(pc + 1, thread_group);
                        },
                    }
                    assert((Progress {
                        temp: temp_threads@,
                        next: next_threads@,
                        matches: matches@,
                    }) == dispatch(self.program(), waiting[0], char_index, input_char, before));
                },
            }
        }
        matches
    }

    /// One input position: the threads of `current_threads` run at input
    /// index `char_index`, where the input holds `input_char`, or nothing at
    /// its end. Afterwards `current_threads` holds the threads that wait for
    /// the next position; the matches found are returned.
    pub fn execution_step(
        &mut self,
        current_threads: &mut ThreadList,
        char_index: usize,
        input_char: Option<u8>,
    ) -> (matches: Vec<(usize, usize)>)
        requires
            old(current_threads)@.len() == old(self).program().len(),
            threads_have_pair(old(current_threads)@),
        ensures
            *final(self) == *old(self),
            (final(current_threads)@, matches@) == step(
                old(self).program(),
                old(current_threads)@,
                char_index,
                input_char,
            ),
            final(current_threads)@.len() == old(current_threads)@.len(),
            threads_have_pair(final(current_threads)@),
    {
        let mut temp_threads = ThreadList::new(self.program.len());
        let mut next_threads = ThreadList::new(self.program.len());
        let mut matches: Vec<(usize, usize)> = Vec::new();
        let mut rounds: usize = 0;
        let ghost goal = step(self.program(), old(current_threads)@, char_index, input_char);

        while !current_threads.is_empty() && rounds < self.program.len()
            invariant
                *self == *old(self),
                rounds <= self.program().len(),
                current_threads@.len() == self.program().len(),
                next_threads@.len() == self.program().len(),
                temp_threads@ == empty_threads(self.program().len()),
                threads_have_pair(current_threads@),
                threads_have_pair(next_threads@),
                ({
                    let rest = closure(
                        self.program(),
                        current_threads@,
                        next_threads@,
                        char_index,
                        input_char,
                        (self.program().len() - rounds) as nat,
                    );
                    rest.0 == goal.0 && matches@ + rest.1 == goal.1
                }),
            decreases self.program().len() - rounds,
        {
            let ghost rest = closure(
                self.program(),
                current_threads@,
                next_threads@,
                char_index,
                input_char,
                (self.program().len() - rounds) as nat,
            );
            let ghost pass = sweep(
                self.program(),
                groups_of(current_threads@),
                char_index,
                input_char,
                (Progress {
                    temp: empty_threads(self.program().len()),
                    next: next_threads@,
                    matches: Seq::empty(),
                }),
            );
            let ghost found_before = matches@;
            proof {
                lemma_groups_have_pair(current_threads@);
                lemma_sweep_keeps_pair(
                    self.program(),
                    current_threads@,
                    char_index,
                    input_char,
                    next_threads@,
                );
            }
            let mut found = self._execution_step(
                current_threads,
                &mut temp_threads,
                &mut next_threads,
                char_index,
                input_char,
            );
            matches.append(&mut found);
            current_threads.clear();
            std::mem::swap(current_threads, &mut temp_threads);
            rounds = rounds + 1;
            proof {
                let later = closure(
                    self.program(),
                    pass.temp,
                    pass.next,
                    char_index,
                    input_char,
                    (self.program().len() - rounds) as nat,
                );
                assert(rest == (later.0, pass.matches + later.1));
                assert(matches@ + later.1 =~= found_before + (pass.matches + later.1));
            }
        }

        // The threads that took the input symbol start the next position.
        current_threads.clear();
        std::mem::swap(current_threads, &mut next_threads);
        assert(matches@ + Seq::<(usize, usize)>::empty() =~= matches@);
        matches
    }

    /// Searches `input`: a new thread starts at every input position, the
    /// end of the input included, beside the threads of `current_threads`,
    /// and the longest match found is returned, the first among several.
    pub fn run(&mut self, current_threads: &mut ThreadList, input: &'a str) -> (found: Option<
        (usize, usize),
    >)
        requires
            old(current_threads)@.len() == old(self).program().len(),
            threads_have_pair(old(current_threads)@),
        ensures
            *final(self) == *old(self),
            found == longest_match(
                matches_from(
                    old(self).program(),
                    symbols_of(input@),
                    0,
                    old(current_threads)@,
                    slots_needed(old(self).program()) as nat,
                ),
            ),
            final(current_threads)@ == empty_threads(old(self).program().len()),
            input@.len() <= usize::MAX,
    {
        proof {
            use_type_invariant(&*self);
        }
        let symbols = to_symbols(input);
        let mut all_matches: Vec<(usize, usize)> = Vec::new();
        let ghost slots = self.slots as nat;
        let ghost goal = matches_from(self.program(), symbols@, 0, old(current_threads)@, slots);

        let mut char_index: usize = 0;
        while char_index < symbols.len()
            invariant
                *self == *old(self),
                slots == self.slots == slots_needed(self.program()),
                slots >= 2,
                char_index <= symbols@.len(),
                current_threads@.len() == self.program().len(),
                threads_have_pair(current_threads@),
                all_matches@ + matches_from(
                    self.program(),
                    symbols@,
                    char_index as int,
                    current_threads@,
                    slots,
                ) == goal,
            decreases symbols@.len() - char_index,
        {
            let ghost found_before = all_matches@;
            let ghost before = current_threads@;
            proof {
                lemma_seeded_has_pair(current_threads@, slots);
            }
            current_threads.add_thread(0, ThreadGroup::with_slots(0, self.slots));
            let mut found = self.execution_step(
                current_threads,
                char_index,
                Some(symbols[char_index]),
            );
            all_matches.append(&mut found);
            proof {
                let later = matches_from(
                    self.program(),
                    symbols@,
                    char_index + 1,
                    current_threads@,
                    slots,
                );
                let here = step(
                    self.program(),
                    seeded(before, slots),
                    char_index,
                    symbol_at(symbols@, char_index as int),
                );
                assert(all_matches@ + later =~= found_before + (here.1 + later));
            }
            char_index = char_index + 1;
        }

        // One more position, for the threads that rest on a match at the end
        // of the input.
        let ghost found_before = all_matches@;
        let ghost before = current_threads@;
        proof {
            lemma_seeded_has_pair(current_threads@, slots);
        }
        current_threads.add_thread(0, ThreadGroup::with_slots(0, self.slots));
        let mut found = self.execution_step(current_threads, char_index, None);
        all_matches.append(&mut found);
        proof {
            let end = symbols@.len() as int;
            let here = step(
                self.program(),
                seeded(before, slots),
                char_index,
                symbol_at(symbols@, end),
            );
            let after = matches_between(
                self.program(),
                symbols@,
                end + 1,
                end + 1,
                here.0,
                slots,
            );
            assert(all_matches@ =~= found_before + (here.1 + after));
            lemma_closure_at_end(
                self.program(),
                seeded(before, slots),
                empty_threads(self.program().len()),
                char_index,
                self.program().len(),
            );
        }

        longest(&all_matches)
    }
}

/// Searches `input` for the longest match of `prog`, which may begin at any
/// input position. Returns the start and the end of the match, counted in
/// characters, or `None` if there is no match. Of several longest matches
/// the one found first is returned.
pub fn search(prog: &[Instruction], input: &str) -> (found: Option<(usize, usize)>)
    ensures
        found == search_result(prog@, input@),
        found is None <==> all_matches(prog@, symbols_of(input@)).len() == 0,
        forall|k: int|
            first_longest(all_matches(prog@, symbols_of(input@)), k) ==> found == Some(
                all_matches(prog@, symbols_of(input@))[k],
            ),
        found matches Some(range) ==> range.0 <= input@.len() && range.1 <= input@.len(),
{
    let mut executor = Executor::new(prog);
    let mut current_threads = ThreadList::new(prog.len());
    let found = executor.run(&mut current_threads, input);
    proof {
        lemma_longest_wins(all_matches(prog@, symbols_of(input@)));
        lemma_search_within_text(prog@, input@);
    }
    found
}

} // verus!
