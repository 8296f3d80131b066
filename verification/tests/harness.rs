use puzzle_solver::frontier::{PriorityQueueFrontier, StackFrontier};
use puzzle_solver::puzzles::fifteen_puzzle::{FifteenPuzzle, FifteenPuzzleAction};
use puzzle_solver::puzzles::silly_puzzle::{SillyPuzzle, SillyPuzzleAction};
use puzzle_solver::search::{AStarSearch, DepthLimitedSearch, Solution};
use puzzle_solver::test::{parse_test_case, run_test, test_one, TestCase};

type Priority = PriorityQueueFrontier<FifteenPuzzle>;

fn moves(pieces: &[u8]) -> Vec<FifteenPuzzleAction> {
    pieces.iter().map(|piece| FifteenPuzzleAction::new(*piece)).collect()
}

#[test]
fn a_case_keeps_its_limit_also_as_a_depth() {
    let case = TestCase::new(SillyPuzzle::new(3), vec![SillyPuzzleAction::new(1)], 100);
    assert_eq!(case.get_limit(), 100);
    assert_eq!(case.get_depth_limit(), 100);
    assert_eq!(case.get_start_state().n, 3);
    assert_eq!(case.get_correct_path().len(), 1);
    let far = TestCase::new(SillyPuzzle::new(3), Vec::new(), u64::MAX);
    assert_eq!(far.get_limit(), u64::MAX);
    assert_eq!(far.get_depth_limit(), u32::MAX);
    let edge = TestCase::new(SillyPuzzle::new(3), Vec::new(), 4294967295);
    assert_eq!(edge.get_depth_limit(), u32::MAX);
    let beyond = TestCase::new(SillyPuzzle::new(3), Vec::new(), 4294967296);
    assert_eq!(beyond.get_depth_limit(), u32::MAX);
}

#[test]
fn a_solution_passes_if_it_is_no_longer_than_the_recorded_path() {
    let start = FifteenPuzzle::new(0xfedcba9876543021);
    let goal = FifteenPuzzle::default();
    let case = TestCase::new(start, moves(&[2, 1]), 2);
    assert!(case.check_solution(&Solution::new(start, goal, moves(&[2, 1]))));
    assert!(case.check_solution(&Solution::new(start, goal, moves(&[1, 2]))));
    assert!(case.check_solution(&Solution::new(start, goal, moves(&[2]))));
    assert!(case.check_solution(&Solution::new(start, goal, moves(&[]))));
    assert!(!case.check_solution(&Solution::new(start, goal, moves(&[2, 1, 4]))));
}

#[test]
fn a_case_is_held_against_a_search() {
    let start = FifteenPuzzle::new(0xfedcba9876543021);
    let good = TestCase::new(start, moves(&[2, 1]), 2);
    assert!(test_one::<FifteenPuzzle, Priority, AStarSearch<FifteenPuzzle>>(&good, u64::MAX));
    let generous = TestCase::new(start, moves(&[2, 1, 4, 4]), 10);
    assert!(test_one::<FifteenPuzzle, Priority, AStarSearch<FifteenPuzzle>>(&generous, u64::MAX));
    // the recorded path is shorter than any that there is
    let strict = TestCase::new(start, moves(&[2]), 2);
    assert!(!test_one::<FifteenPuzzle, Priority, AStarSearch<FifteenPuzzle>>(&strict, u64::MAX));
    // the limit is too low to find anything
    let shallow = TestCase::new(start, moves(&[2, 1]), 1);
    assert!(!test_one::<FifteenPuzzle, Priority, AStarSearch<FifteenPuzzle>>(&shallow, u64::MAX));
    // the budget is too small to find anything
    assert!(!test_one::<FifteenPuzzle, Priority, AStarSearch<FifteenPuzzle>>(&good, 1));
}

#[test]
fn a_search_is_run_under_a_limit() {
    type Stack = StackFrontier<SillyPuzzle>;
    let found = run_test::<SillyPuzzle, Stack, DepthLimitedSearch<SillyPuzzle, Stack>>(
        SillyPuzzle::new(60),
        9,
        u64::MAX,
    );
    assert_eq!(found.ok().unwrap().unwrap().path_length(), 9);
    let nothing = run_test::<SillyPuzzle, Stack, DepthLimitedSearch<SillyPuzzle, Stack>>(
        SillyPuzzle::new(60),
        8,
        u64::MAX,
    );
    assert!(nothing.ok().unwrap().is_none());
    let cut = run_test::<SillyPuzzle, Stack, DepthLimitedSearch<SillyPuzzle, Stack>>(
        SillyPuzzle::new(60),
        9,
        3,
    );
    assert!(cut.is_err());
}

#[test]
fn a_line_of_a_file_of_cases_is_read() {
    let case = parse_test_case("2 0.1 12 0xfedcba9876543021 xyz 2-1").unwrap();
    assert_eq!(case.get_limit(), 2);
    assert_eq!(case.get_depth_limit(), 2);
    assert_eq!(case.get_start_state().board, 0xfedcba9876543021);
    assert_eq!(case.get_correct_path(), &moves(&[2, 1]));
    assert!(test_one::<FifteenPuzzle, Priority, AStarSearch<FifteenPuzzle>>(&case, u64::MAX));

    let case = parse_test_case("17 a b 0x0123456789abcdef c a-B-f-0-1 and more").unwrap();
    assert_eq!(case.get_limit(), 17);
    assert_eq!(case.get_start_state().board, 0x0123456789abcdef);
    assert_eq!(case.get_correct_path(), &moves(&[10, 11, 15, 0, 1]));

    // a board without marks, with marks twice, with few digits; fields that are empty; a single action
    assert_eq!(parse_test_case("1 a b 1f c 3").unwrap().get_start_state().board, 0x1f);
    assert_eq!(parse_test_case("1 a b 0x0x1f c 3").unwrap().get_start_state().board, 0x1f);
    assert_eq!(parse_test_case("+1   0xFFFFFFFFFFFFFFFF  +3").unwrap().get_start_state().board, u64::MAX);
    assert_eq!(parse_test_case("4294967295 a b 0x0 c ff").unwrap().get_limit(), 4294967295);
    assert_eq!(parse_test_case("1 a b 0x0 c ff").unwrap().get_correct_path(), &moves(&[255]));
}

#[test]
fn a_line_that_is_no_case_is_not_read() {
    for line in [
        "",
        "2",
        "2 0.1 12 0xfedcba9876543021 xyz",
        "2 0.1 12  0xfedcba9876543021 xyz 2-1",
        "x 0.1 12 0xfedcba9876543021 xyz 2-1",
        "-2 0.1 12 0xfedcba9876543021 xyz 2-1",
        "4294967296 0.1 12 0xfedcba9876543021 xyz 2-1",
        "2 0.1 12 0xfedcba987654302g xyz 2-1",
        "2 0.1 12 0x xyz 2-1",
        "2 0.1 12 0x10000000000000000 xyz 2-1",
        "2 0.1 12 0xfedcba9876543021 xyz 2-",
        "2 0.1 12 0xfedcba9876543021 xyz -1",
        "2 0.1 12 0xfedcba9876543021 xyz 2--1",
        "2 0.1 12 0xfedcba9876543021 xyz 2-g",
        "2 0.1 12 0xfedcba9876543021 xyz 2-100",
        "2 0.1 12 0xfedcba9876543021 xyz ",
        " 2 0.1 12 0xfedcba9876543021 xyz 2-1",
        "2\t0.1\t12\t0xfedcba9876543021\txyz\t2-1",
    ] {
        assert!(parse_test_case(line).is_none());
    }
}
