use puzzle_solver::action::Action;
use puzzle_solver::frontier::StackFrontier;
use puzzle_solver::puzzles::fifteen_puzzle::FifteenPuzzle;
use puzzle_solver::puzzles::rubiks_cube::{CubeAction, CubeState};
use puzzle_solver::puzzles::silly_puzzle::{SillyPuzzle, SillyPuzzleAction};
use puzzle_solver::search::{
    AStarSearch, BreadthFirstSearch, DepthLimitedSearch, EvaluationLimitedSearch,
    IterativeDeepeningAStarSearch, IterativeDeepeningDepthFirstSearch, Search,
};
use puzzle_solver::state::State;

const NO_LIMIT: u64 = u64::MAX;

fn replay<S: State>(start: &S, path: &Vec<S::Action>) -> S {
    let mut state = start.duplicate();
    for action in path {
        state = state.perform_action(action);
    }
    state
}

#[test]
fn silly_puzzle_depth_first_within_100_takes_69_steps() {
    let mut search = DepthLimitedSearch::<SillyPuzzle, StackFrontier<SillyPuzzle>>::new(100);
    let solution = search.search(SillyPuzzle::new(0), NO_LIMIT).ok().unwrap().unwrap();
    assert_eq!(solution.path_length(), 69);
    assert_eq!(solution.get_path().len(), 69);
    assert_eq!(solution.get_start_state().n, 0);
    assert_eq!(solution.get_final_state().n, 69);
    for action in solution.get_path() {
        assert!(action.equals(&SillyPuzzleAction::new(1)));
    }
}

#[test]
fn fifteen_puzzle_two_moves_from_the_goal_is_solved_in_two() {
    let start = FifteenPuzzle::new(0xfedcba9876543021);
    assert!(start.is_valid());
    let mut search = AStarSearch::<FifteenPuzzle>::new(NO_LIMIT);
    let solution = search.search(start, NO_LIMIT).ok().unwrap().unwrap();
    assert_eq!(solution.path_length(), 2);
    assert_eq!(solution.get_final_state().board, 0xfedcba9876543210);
    assert_eq!(solution.get_path()[0].piece, 2);
    assert_eq!(solution.get_path()[1].piece, 1);
}

#[test]
fn fifteen_puzzle_at_the_goal_is_solved_by_no_move() {
    let mut search = AStarSearch::<FifteenPuzzle>::new(NO_LIMIT);
    let solution = search.search(FifteenPuzzle::default(), NO_LIMIT).ok().unwrap().unwrap();
    assert_eq!(solution.path_length(), 0);
    assert_eq!(solution.get_final_state().board, 0xfedcba9876543210);
    // one expansion is enough: the goal is found at the first node taken off
    let mut frugal = AStarSearch::<FifteenPuzzle>::new(NO_LIMIT);
    assert!(frugal.search(FifteenPuzzle::default(), 1).ok().unwrap().is_some());
}

#[test]
fn cube_scrambled_by_three_turns_is_solved_in_at_most_three() {
    for _ in 0..5 {
        let (cube, turns) = CubeState::scrambled_cube(3);
        assert_eq!(turns.len(), 3);
        assert!(cube.is_valid());
        assert!(replay(&CubeState::default(), &turns).equals(&cube));
        let mut search = IterativeDeepeningAStarSearch::<CubeState>::new(0);
        let solution = search.search(cube, NO_LIMIT).ok().unwrap().unwrap();
        assert!(solution.path_length() <= 3);
        let end = replay(&cube, solution.get_path());
        assert_eq!(end.faces, CubeState::default_cube());
        assert_eq!(solution.get_final_state().faces, CubeState::default_cube());
    }
}

#[test]
fn evaluation_limited_search_that_finds_nothing_notes_the_lowest_evaluation_left_out() {
    let mut search = EvaluationLimitedSearch::<SillyPuzzle, StackFrontier<SillyPuzzle>>::new(10);
    assert_eq!(search.get_lowest_evaluation_above_limit(), None);
    let outcome = search.search(SillyPuzzle::new(0), NO_LIMIT).ok().unwrap();
    assert!(outcome.is_none());
    // the two children of the root cost 1 and are 68 and 70 from the goal
    assert_eq!(search.get_lowest_evaluation_above_limit(), Some(69));
    assert!(search.get_lowest_evaluation_above_limit().unwrap() > 10);
}

#[test]
fn a_returned_path_leads_from_the_start_to_a_goal() {
    let start = FifteenPuzzle::new(0xfedcba9806547321);
    assert!(start.is_valid());
    let mut search = AStarSearch::<FifteenPuzzle>::new(NO_LIMIT);
    let solution = search.search(start, NO_LIMIT).ok().unwrap().unwrap();
    let end = replay(&start, solution.get_path());
    assert!(end.is_goal_state());
    assert_eq!(end.board, solution.get_final_state().board);
    assert_eq!(solution.path_length(), 4);

    let mut breadth_first = BreadthFirstSearch::<SillyPuzzle>::new(0);
    let solution = breadth_first.search(SillyPuzzle::new(66), NO_LIMIT).ok().unwrap().unwrap();
    assert!(replay(&SillyPuzzle::new(66), solution.get_path()).is_goal_state());
    assert_eq!(solution.path_length(), 3);
}

#[test]
fn a_returned_path_never_undoes_a_move_at_once() {
    let start = FifteenPuzzle::new(0xfedcba9806547321);
    let mut search = IterativeDeepeningDepthFirstSearch::<FifteenPuzzle>::new(0);
    let solution = search.search(start, NO_LIMIT).ok().unwrap().unwrap();
    let path = solution.get_path();
    let mut states = vec![start];
    for action in path {
        let next = states[states.len() - 1].perform_action(action);
        states.push(next);
    }
    for i in 2..states.len() {
        assert_ne!(states[i].board, states[i - 2].board);
    }
    assert_eq!(solution.path_length(), 4);
}

#[test]
fn the_evaluation_bound_grows_from_pass_to_pass() {
    // the passes of iterative-deepening A*, made by hand
    let start = SillyPuzzle::new(60);
    let mut limit = start.heuristic() as u64;
    assert_eq!(limit, 9);
    let mut rounds = 0;
    loop {
        let mut pass = EvaluationLimitedSearch::<SillyPuzzle, StackFrontier<SillyPuzzle>>::new(limit);
        let outcome = pass.search(start, NO_LIMIT).ok().unwrap();
        if let Some(solution) = outcome {
            assert_eq!(solution.path_length(), 9);
            break;
        }
        let lowest = pass.get_lowest_evaluation_above_limit().unwrap();
        assert!(lowest > limit);
        limit = lowest;
        rounds += 1;
        assert!(rounds < 10);
    }
    // the estimate is exact, so the first pass finds the goal
    assert_eq!(rounds, 0);

    // away from the goal the first step costs 1 and leaves 10: the bound goes from 9 to 11
    let mut pass = EvaluationLimitedSearch::<CubeState, StackFrontier<CubeState>>::new(0);
    let (cube, _) = (CubeState::default().perform_action(&CubeAction::U), 0);
    assert!(pass.search(cube, NO_LIMIT).ok().unwrap().is_none());
    assert_eq!(pass.get_lowest_evaluation_above_limit(), Some(1));
}

#[test]
fn iterative_deepening_a_star_finds_the_way_through_the_silly_puzzle() {
    let mut search = IterativeDeepeningAStarSearch::<SillyPuzzle>::new(0);
    let solution = search.search(SillyPuzzle::new(75), NO_LIMIT).ok().unwrap().unwrap();
    assert_eq!(solution.path_length(), 6);
    assert_eq!(solution.get_final_state().n, 69);
}
