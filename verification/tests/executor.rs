use pikevm::interpreter::thread::{ThreadGroup, ThreadList};
use pikevm::interpreter::{capture_slots, longer, longest, to_symbol, to_symbols, Executor};
use pikevm::regex::Instruction;

fn pcs(list: &mut ThreadList) -> Vec<usize> {
    let mut seen = Vec::new();
    let mut groups = list.iter_mut();
    while let Some(group) = groups.next() {
        seen.push(group.pc());
    }
    seen
}

#[test]
fn symbols_of_ascii_are_their_bytes() {
    assert_eq!(to_symbol('a'), b'a');
    assert_eq!(to_symbol('\0'), 0);
    assert_eq!(to_symbol('\u{7f}'), 0x7F);
    assert_eq!(to_symbols("az0"), vec![b'a', b'z', b'0']);
    assert_eq!(to_symbols(""), Vec::<u8>::new());
}

#[test]
fn symbols_of_other_characters_are_the_sentinel() {
    assert_eq!(to_symbol('\u{80}'), 0xFE);
    assert_eq!(to_symbol('\u{e9}'), 0xFE);
    assert_eq!(to_symbol('\u{10ffff}'), 0xFE);
    assert_eq!(to_symbols("a\u{e9}b"), vec![b'a', 0xFE, b'b']);
}

#[test]
fn capture_slots_cover_the_highest_save() {
    assert_eq!(capture_slots(&[]), 2);
    assert_eq!(capture_slots(&[Instruction::Match]), 2);
    assert_eq!(capture_slots(&[Instruction::Save(0), Instruction::Save(1)]), 2);
    assert_eq!(capture_slots(&[Instruction::Save(5), Instruction::Save(3)]), 6);
    assert_eq!(capture_slots(&[Instruction::Save(2)]), 3);
}

#[test]
fn longer_keeps_the_first_of_equal_length() {
    assert_eq!(longer(None, (3, 4)), Some((3, 4)));
    assert_eq!(longer(Some((0, 1)), (3, 4)), Some((0, 1)));
    assert_eq!(longer(Some((0, 1)), (3, 5)), Some((3, 5)));
    assert_eq!(longer(Some((0, 2)), (3, 4)), Some((0, 2)));
    assert_eq!(longer(Some((2, 0)), (5, 4)), Some((5, 4)));
    assert_eq!(longer(Some((usize::MAX, 0)), (0, usize::MAX)), Some((0, usize::MAX)));
    assert_eq!(longer(Some((0, usize::MAX)), (usize::MAX, 0)), Some((0, usize::MAX)));
}

#[test]
fn longest_of_several() {
    assert_eq!(longest(&vec![]), None);
    assert_eq!(longest(&vec![(1, 1)]), Some((1, 1)));
    assert_eq!(longest(&vec![(0, 1), (2, 5), (1, 4), (6, 8)]), Some((2, 5)));
    assert_eq!(longest(&vec![(4, 4), (0, 0)]), Some((4, 4)));
}

#[test]
fn step_consumes_and_moves_on() {
    let program = vec![
        Instruction::Save(0),
        Instruction::Range(b'a', b'a', false),
        Instruction::Save(1),
        Instruction::Match,
    ];
    let mut executor = Executor::new(&program);
    let mut current = ThreadList::new(program.len());
    current.add_thread(0, ThreadGroup::new(0));
    let found = executor.execution_step(&mut current, 0, Some(b'a'));
    assert_eq!(found, vec![]);
    assert_eq!(pcs(&mut current), vec![2]);

    current.add_thread(2, ThreadGroup::new(2));
    let found = executor.execution_step(&mut current, 1, None);
    assert_eq!(found, vec![(0, 1)]);
    assert!(current.is_empty());
}

#[test]
fn step_records_the_index_given() {
    let program = vec![Instruction::Save(0), Instruction::Save(1), Instruction::Match];
    let mut executor = Executor::new(&program);
    let mut current = ThreadList::new(program.len());
    current.add_thread(0, ThreadGroup::new(0));
    let found = executor.execution_step(&mut current, 17, Some(b'x'));
    assert_eq!(found, vec![(17, 17)]);
    assert!(current.is_empty());
}

#[test]
fn step_merges_threads_that_meet() {
    // Both branches of the split come to the same instruction.
    let program = vec![
        Instruction::Split(1, 2),
        Instruction::Jump(2),
        Instruction::Save(1),
        Instruction::Match,
    ];
    let mut executor = Executor::new(&program);
    let mut current = ThreadList::new(program.len());
    current.add_thread(0, ThreadGroup::new(0));
    let found = executor.execution_step(&mut current, 3, Some(b'x'));
    // One thread reaches the match directly, the other one pass later.
    assert_eq!(found, vec![(0, 3), (0, 3)]);
}

#[test]
fn step_without_symbol_drops_consuming_threads() {
    let program = vec![
        Instruction::Split(1, 2),
        Instruction::Consume,
        Instruction::RangeBranch(0, 255, 3),
        Instruction::Match,
    ];
    let mut executor = Executor::new(&program);
    let mut current = ThreadList::new(program.len());
    current.add_thread(0, ThreadGroup::new(0));
    let found = executor.execution_step(&mut current, 0, None);
    assert_eq!(found, vec![]);
    assert!(current.is_empty());

    current.add_thread(0, ThreadGroup::new(0));
    let found = executor.execution_step(&mut current, 0, Some(b'q'));
    assert_eq!(found, vec![(0, 0)]);
    assert_eq!(pcs(&mut current), vec![2]);
}

#[test]
fn step_ends_after_as_many_passes_as_instructions() {
    let program = vec![Instruction::Split(0, 1), Instruction::Match];
    let mut executor = Executor::new(&program);
    let mut current = ThreadList::new(program.len());
    current.add_thread(0, ThreadGroup::new(0));
    let found = executor.execution_step(&mut current, 0, Some(b'a'));
    // The match is reached in the second pass; there is no third.
    assert_eq!(found, vec![(0, 0)]);
    assert!(current.is_empty());
}

#[test]
fn run_starts_a_thread_at_every_position() {
    let program = vec![
        Instruction::Save(0),
        Instruction::Range(b'b', b'b', false),
        Instruction::Save(1),
        Instruction::Match,
    ];
    let mut executor = Executor::new(&program);
    let mut current = ThreadList::new(program.len());
    assert_eq!(executor.run(&mut current, "aab"), Some((2, 3)));
}

#[test]
fn run_goes_on_with_the_threads_given() {
    // A thread that waits at the second instruction needs one more symbol.
    let program = vec![
        Instruction::Die,
        Instruction::Consume,
        Instruction::Save(1),
        Instruction::Match,
    ];
    let mut executor = Executor::new(&program);
    let mut current = ThreadList::new(program.len());
    assert_eq!(executor.run(&mut current, "ab"), None);
    let mut waiting = ThreadList::new(program.len());
    waiting.add_thread(1, ThreadGroup::new(1));
    assert_eq!(executor.run(&mut waiting, "ab"), Some((0, 1)));
}
