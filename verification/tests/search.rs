use pikevm::interpreter::search;
use pikevm::regex::Instruction;

fn literal_a() -> Vec<Instruction> {
    vec![
        Instruction::Save(0),
        Instruction::Range(b'a', b'a', false),
        Instruction::Save(1),
        Instruction::Match,
    ]
}

fn a_star() -> Vec<Instruction> {
    vec![
        Instruction::Save(0),
        Instruction::Split(2, 4),
        Instruction::Range(b'a', b'a', false),
        Instruction::Jump(1),
        Instruction::Save(1),
        Instruction::Match,
    ]
}

fn letters_then_z() -> Vec<Instruction> {
    vec![
        Instruction::Split(1, 4),
        Instruction::Range(b'a', b'c', false),
        Instruction::Jump(0),
        Instruction::Die,
        Instruction::Save(0),
        Instruction::Range(b'z', b'z', false),
        Instruction::Save(1),
        Instruction::Match,
    ]
}

#[test]
fn empty_input_matches_empty_program() {
    let program = vec![Instruction::Match];
    assert_eq!(search(&program, ""), Some((0, 0)));
}

#[test]
fn empty_input_does_not_match_a_consuming_program() {
    assert_eq!(search(&literal_a(), ""), None);
    let any = vec![Instruction::Consume, Instruction::Match];
    assert_eq!(search(&any, ""), None);
}

#[test]
fn die_alone_never_matches() {
    let program = vec![Instruction::Die];
    assert_eq!(search(&program, ""), None);
    assert_eq!(search(&program, "a"), None);
    assert_eq!(search(&program, "some longer text"), None);
}

#[test]
fn single_character_matches() {
    assert_eq!(search(&literal_a(), "a"), Some((0, 1)));
}

#[test]
fn single_character_does_not_match_another() {
    assert_eq!(search(&literal_a(), "b"), None);
}

#[test]
fn star_takes_the_whole_run() {
    assert_eq!(search(&a_star(), "aaa"), Some((0, 3)));
}

#[test]
fn star_matches_the_empty_string() {
    assert_eq!(search(&a_star(), ""), Some((0, 0)));
    assert_eq!(search(&a_star(), "b"), Some((0, 0)));
}

#[test]
fn match_may_begin_anywhere() {
    let program = vec![
        Instruction::Save(0),
        Instruction::Range(b'a', b'a', false),
        Instruction::Range(b'b', b'b', false),
        Instruction::Save(1),
        Instruction::Match,
    ];
    assert_eq!(search(&program, "xxabyy"), Some((2, 4)));
    assert_eq!(search(&program, "ab"), Some((0, 2)));
    assert_eq!(search(&program, "xxayby"), None);
}

#[test]
fn prefix_loop_then_literal() {
    assert_eq!(search(&letters_then_z(), "abcz"), Some((3, 4)));
    assert_eq!(search(&letters_then_z(), "abcq"), None);
    assert_eq!(search(&letters_then_z(), "abc"), None);
}

#[test]
fn literal_is_found_before_trailing_text() {
    assert_eq!(search(&letters_then_z(), "abczq"), Some((3, 4)));
}

#[test]
fn inverted_range_takes_other_symbols() {
    let program = vec![
        Instruction::Save(0),
        Instruction::Range(b'a', b'a', true),
        Instruction::Save(1),
        Instruction::Match,
    ];
    assert_eq!(search(&program, "bax"), Some((0, 1)));
    assert_eq!(search(&program, "aaa"), None);
    assert_eq!(search(&program, "aab"), Some((2, 3)));
}

#[test]
fn search_is_repeatable() {
    let program = a_star();
    let first = search(&program, "baaab");
    let second = search(&program, "baaab");
    assert_eq!(first, second);
    assert_eq!(first, Some((1, 4)));
}

#[test]
fn longest_match_wins() {
    // a+ : the run of three is longer than the run of two before it.
    let program = vec![
        Instruction::Save(0),
        Instruction::Range(b'a', b'a', false),
        Instruction::Split(1, 3),
        Instruction::Save(1),
        Instruction::Match,
    ];
    assert_eq!(search(&program, "aa-aaa-a"), Some((3, 6)));
}

#[test]
fn first_of_equally_long_matches_wins() {
    let program = vec![
        Instruction::Save(0),
        Instruction::Range(b'a', b'a', false),
        Instruction::Split(1, 3),
        Instruction::Save(1),
        Instruction::Match,
    ];
    assert_eq!(search(&program, "aa-aa"), Some((0, 2)));
    assert_eq!(search(&literal_a(), "aaa"), Some((0, 1)));
}

#[test]
fn text_before_the_match_does_not_shorten_it() {
    let program = a_star();
    assert_eq!(search(&program, "aaa"), Some((0, 3)));
    assert_eq!(search(&program, "xyaaa"), Some((2, 5)));
}

#[test]
fn consume_takes_any_symbol() {
    let program = vec![
        Instruction::Save(0),
        Instruction::Consume,
        Instruction::Consume,
        Instruction::Save(1),
        Instruction::Match,
    ];
    assert_eq!(search(&program, "xyz"), Some((0, 2)));
    assert_eq!(search(&program, "x"), None);
}

#[test]
fn range_branch_routes_without_taking_the_symbol() {
    // A digit goes to the match, anything else dies.
    let program = vec![
        Instruction::Save(0),
        Instruction::RangeBranch(b'0', b'9', 3),
        Instruction::Die,
        Instruction::Consume,
        Instruction::Save(1),
        Instruction::Match,
    ];
    assert_eq!(search(&program, "ab7c"), Some((2, 3)));
    assert_eq!(search(&program, "abc"), None);
    // At the end of the input there is no symbol to branch on.
    assert_eq!(search(&program, ""), None);
}

#[test]
fn program_without_save_reports_zero_zero() {
    let program = vec![Instruction::Range(b'a', b'a', false), Instruction::Match];
    assert_eq!(search(&program, "xa"), Some((0, 0)));
    assert_eq!(search(&program, "x"), None);
}

#[test]
fn characters_outside_ascii_count_as_one_symbol() {
    // 0xFE stands for every character outside ASCII.
    let program = vec![
        Instruction::Save(0),
        Instruction::Range(0xFE, 0xFE, false),
        Instruction::Range(b'b', b'b', false),
        Instruction::Save(1),
        Instruction::Match,
    ];
    assert_eq!(search(&program, "a\u{e9}b"), Some((1, 3)));
    assert_eq!(search(&program, "\u{4e16}b"), Some((0, 2)));
    assert_eq!(search(&literal_a(), "\u{e9}\u{e9}a"), Some((2, 3)));
}

#[test]
fn empty_program_matches_nothing() {
    let program: Vec<Instruction> = Vec::new();
    assert_eq!(search(&program, ""), None);
    assert_eq!(search(&program, "abc"), None);
}

#[test]
fn destinations_outside_the_program_are_dropped() {
    let jump_out = vec![Instruction::Jump(7), Instruction::Match];
    assert_eq!(search(&jump_out, "abc"), None);
    let split_half_out = vec![Instruction::Split(9, 1), Instruction::Match];
    assert_eq!(search(&split_half_out, "abc"), Some((0, 0)));
    let falls_off = vec![Instruction::Save(0), Instruction::Consume];
    assert_eq!(search(&falls_off, "abc"), None);
}

#[test]
fn thread_that_goes_round_for_ever_is_given_up() {
    let spin = vec![Instruction::Jump(0)];
    assert_eq!(search(&spin, "abc"), None);
    let spin_beside_match = vec![Instruction::Split(0, 1), Instruction::Match];
    assert_eq!(search(&spin_beside_match, "ab"), Some((0, 0)));
}

#[test]
fn higher_capture_slots_do_not_disturb_the_match() {
    let program = vec![
        Instruction::Save(0),
        Instruction::Save(2),
        Instruction::Range(b'a', b'a', false),
        Instruction::Save(3),
        Instruction::Save(1),
        Instruction::Match,
    ];
    assert_eq!(search(&program, "xa"), Some((1, 2)));
}

#[test]
fn end_recorded_before_start_is_shorter_than_nothing() {
    // The start is recorded after the symbol, the end never: (1, 0).
    // Such a pair has a length below zero.
    let program = vec![
        Instruction::Range(b'a', b'a', false),
        Instruction::Save(0),
        Instruction::Match,
    ];
    assert_eq!(search(&program, "a"), Some((1, 0)));
    assert_eq!(search(&program, "aa"), Some((1, 0)));
}

#[test]
fn optional_repeats_do_not_blow_up() {
    // (a?){n}a{n} against n times `a`: an engine that tries the alternatives
    // one after another needs 2^n attempts.
    let n: usize = 24;
    let mut program = vec![Instruction::Save(0)];
    for _ in 0..n {
        let pc = program.len();
        program.push(Instruction::Split(pc + 1, pc + 2));
        program.push(Instruction::Range(b'a', b'a', false));
    }
    for _ in 0..n {
        program.push(Instruction::Range(b'a', b'a', false));
    }
    program.push(Instruction::Save(1));
    program.push(Instruction::Match);
    let text = "a".repeat(n);
    assert_eq!(search(&program, &text), Some((0, n)));
    let longer = "a".repeat(2 * n + 5);
    assert_eq!(search(&program, &longer), Some((0, 2 * n)));
    let shorter = "a".repeat(n - 1);
    assert_eq!(search(&program, &shorter), None);
}

#[test]
fn long_text_is_searched_to_its_end() {
    let program = vec![
        Instruction::Save(0),
        Instruction::Range(b'x', b'x', false),
        Instruction::Range(b'y', b'y', false),
        Instruction::Save(1),
        Instruction::Match,
    ];
    let mut text = "ab".repeat(1500);
    text.push_str("xy");
    assert_eq!(search(&program, &text), Some((3000, 3002)));
}
