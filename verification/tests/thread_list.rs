use pikevm::interpreter::thread::{ThreadGroup, ThreadList};

#[test]
fn new_list_is_empty() {
    let list = ThreadList::new(4);
    assert!(list.is_empty());
    let none = ThreadList::new(0);
    assert!(none.is_empty());
}

#[test]
fn added_group_is_handed_out_once() {
    let mut list = ThreadList::new(4);
    list.add_thread(2, ThreadGroup::new(0));
    assert!(!list.is_empty());
    let mut groups = list.iter_mut();
    let group = groups.next().expect("one group");
    assert_eq!(group.pc(), 2);
    assert_eq!(group.pc, 2);
    assert_eq!(group.get_match_data(0), vec![(0, 0)]);
    assert!(groups.next().is_none());
    assert!(groups.next().is_none());
    assert!(list.is_empty());
}

#[test]
fn groups_come_by_rising_program_counter() {
    let mut list = ThreadList::new(5);
    list.add_thread(3, ThreadGroup::new(3));
    list.add_thread(0, ThreadGroup::new(0));
    list.add_thread(4, ThreadGroup::new(4));
    let mut groups = list.iter_mut();
    let mut seen = Vec::new();
    while let Some(group) = groups.next() {
        seen.push(group.pc());
    }
    assert_eq!(seen, vec![0, 3, 4]);
}

#[test]
fn same_program_counter_gives_one_group() {
    let mut list = ThreadList::new(3);
    let mut first = ThreadGroup::new(1);
    first.save(0, 5);
    let mut second = ThreadGroup::new(1);
    second.save(0, 7);
    list.add_thread(1, first);
    list.add_thread(1, second);
    let mut groups = list.iter_mut();
    let group = groups.next().expect("one group");
    assert_eq!(group.pc(), 1);
    assert_eq!(group.get_match_data(0), vec![(5, 0), (7, 0)]);
    assert!(groups.next().is_none());
}

#[test]
fn equal_capture_vectors_collapse() {
    let mut list = ThreadList::new(3);
    let mut first = ThreadGroup::new(1);
    first.save(1, 9);
    let mut second = ThreadGroup::new(2);
    second.save(1, 9);
    let mut third = ThreadGroup::new(2);
    third.save(1, 4);
    list.add_thread(1, first);
    list.add_thread(1, second);
    list.add_thread(1, third);
    list.add_thread(1, ThreadGroup::new(0));
    let mut again = ThreadGroup::new(0);
    again.save(1, 4);
    list.add_thread(1, again);
    let mut groups = list.iter_mut();
    let group = groups.next().expect("one group");
    assert_eq!(group.get_match_data(0), vec![(0, 9), (0, 4), (0, 0)]);
}

#[test]
fn program_counter_outside_the_list_is_dropped() {
    let mut list = ThreadList::new(2);
    list.add_thread(2, ThreadGroup::new(2));
    list.add_thread(usize::MAX, ThreadGroup::new(0));
    assert!(list.is_empty());
    let mut none = ThreadList::new(0);
    none.add_thread(0, ThreadGroup::new(0));
    assert!(none.is_empty());
}

#[test]
fn clear_removes_all_groups() {
    let mut list = ThreadList::new(3);
    list.add_thread(0, ThreadGroup::new(0));
    list.add_thread(2, ThreadGroup::new(2));
    list.clear();
    assert!(list.is_empty());
    assert!(list.iter_mut().next().is_none());
    // The list has kept its room for three program counters.
    list.add_thread(3, ThreadGroup::new(3));
    assert!(list.is_empty());
    list.add_thread(2, ThreadGroup::new(2));
    assert!(!list.is_empty());
}

#[test]
fn taking_the_groups_empties_the_list() {
    let mut list = ThreadList::new(3);
    list.add_thread(0, ThreadGroup::new(0));
    list.add_thread(1, ThreadGroup::new(1));
    let mut groups = list.iter_mut();
    assert!(list.is_empty());
    assert_eq!(groups.next().expect("first").pc(), 0);
    list.add_thread(2, ThreadGroup::new(2));
    assert_eq!(groups.next().expect("second").pc(), 1);
    assert!(groups.next().is_none());
    assert!(!list.is_empty());
}

#[test]
fn new_group_has_two_slots() {
    let group = ThreadGroup::new(6);
    assert_eq!(group.pc(), 6);
    assert_eq!(group.get_match_data(0), vec![(0, 0)]);
}

#[test]
fn group_with_more_slots() {
    let mut group = ThreadGroup::with_slots(1, 4);
    group.save(2, 8);
    group.save(3, 9);
    group.save(1, 3);
    assert_eq!(group.get_match_data(0), vec![(0, 3)]);
    assert_eq!(group.get_match_data(1), vec![(8, 9)]);
}

#[test]
fn save_sets_the_slot_in_every_vector() {
    let mut list = ThreadList::new(1);
    let mut first = ThreadGroup::new(0);
    first.save(0, 1);
    let mut second = ThreadGroup::new(0);
    second.save(0, 2);
    list.add_thread(0, first);
    list.add_thread(0, second);
    let mut group = list.iter_mut().next().expect("one group");
    group.save(1, 6);
    assert_eq!(group.get_match_data(0), vec![(1, 6), (2, 6)]);
    group.save(0, 4);
    assert_eq!(group.get_match_data(0), vec![(4, 6), (4, 6)]);
}

#[test]
fn save_to_a_missing_slot_changes_nothing() {
    let mut group = ThreadGroup::new(0);
    group.save(2, 5);
    group.save(usize::MAX, 5);
    assert_eq!(group.get_match_data(0), vec![(0, 0)]);
}

#[test]
fn clone_is_independent() {
    let mut group = ThreadGroup::new(3);
    group.save(0, 2);
    let copy = group.clone();
    group.save(0, 7);
    assert_eq!(copy.pc(), 3);
    assert_eq!(copy.get_match_data(0), vec![(2, 0)]);
    assert_eq!(group.get_match_data(0), vec![(7, 0)]);
}
