use puzzle_solver::action::Action;
use puzzle_solver::frontier::{PriorityQueueFrontier, QueueFrontier, StackFrontier};
use puzzle_solver::puzzles::fifteen_puzzle::FifteenPuzzle;
use puzzle_solver::puzzles::rubiks_cube::{CubeAction, CubeState};
use puzzle_solver::puzzles::silly_puzzle::{SillyPuzzle, SillyPuzzleAction};
use puzzle_solver::search::{
    AStarSearch, BreadthFirstSearch, DepthFirstSearch, DepthLimitedSearch, EvaluationLimitedSearch,
    IterativeDeepeningAStarSearch, IterativeDeepeningDepthFirstSearch,
    IterativeDeepeningEvaluationSearch, IterativeDeepeningSearch, Search, Solution, TreeSearch,
};
use puzzle_solver::state::State;

const NO_LIMIT: u64 = u64::MAX;

#[test]
fn strategies_have_names() {
    assert_eq!(BreadthFirstSearch::<SillyPuzzle>::new(0).to_string(), "TreeSearch");
    assert_eq!(DepthFirstSearch::<SillyPuzzle>::new(0).to_string(), "TreeSearch");
    assert_eq!(AStarSearch::<SillyPuzzle>::new(0).to_string(), "DepthLimitedSearch");
    assert_eq!(
        IterativeDeepeningDepthFirstSearch::<SillyPuzzle>::new(0).to_string(),
        "IterativeDeepeningSearch"
    );
    assert_eq!(
        EvaluationLimitedSearch::<SillyPuzzle, StackFrontier<SillyPuzzle>>::new(0).to_string(),
        "HeuristicLimitedSearch"
    );
    assert_eq!(
        IterativeDeepeningAStarSearch::<SillyPuzzle>::new(0).to_string(),
        "IterativeDeepeningEvaluationSearch"
    );
}

#[test]
fn breadth_first_search_finds_a_shortest_path() {
    let mut search = BreadthFirstSearch::<FifteenPuzzle>::new(0);
    let solution = search.search(FifteenPuzzle::new(0xfedcba9806547321), NO_LIMIT).ok().unwrap().unwrap();
    assert_eq!(solution.path_length(), 4);
    let mut search = BreadthFirstSearch::<CubeState>::new(0);
    let cube = CubeState::default().perform_action(&CubeAction::R).perform_action(&CubeAction::U2);
    let solution = search.search(cube, NO_LIMIT).ok().unwrap().unwrap();
    assert_eq!(solution.get_path(), &vec![CubeAction::U2, CubeAction::RPrime]);
}

#[test]
fn depth_first_search_runs_out_of_budget_on_an_endless_branch() {
    // the step down is tried first, and below 0 there is no goal
    let mut search = DepthFirstSearch::<SillyPuzzle>::new(0);
    assert!(search.search(SillyPuzzle::new(0), 10_000).is_err());
    let mut search = TreeSearch::<SillyPuzzle, StackFrontier<SillyPuzzle>>::new(0);
    // above the goal the step down leads to it
    let solution = search.search(SillyPuzzle::new(80), 10_000).ok().unwrap().unwrap();
    assert_eq!(solution.path_length(), 11);
}

#[test]
fn a_budget_of_nothing_allows_no_expansion() {
    let mut search = BreadthFirstSearch::<SillyPuzzle>::new(0);
    // a goal at the root is found without any expansion
    assert_eq!(search.search(SillyPuzzle::new(69), 0).ok().unwrap().unwrap().path_length(), 0);
    // next to the goal the root has to be expanded, and nothing else
    assert!(search.search(SillyPuzzle::new(68), 0).is_err());
    assert_eq!(search.search(SillyPuzzle::new(68), 1).ok().unwrap().unwrap().path_length(), 1);
    // two steps from the goal the root and its children are expanded, and with them the
    // grandchild that waits before the goal
    assert!(search.search(SillyPuzzle::new(71), 3).is_err());
    assert_eq!(search.search(SillyPuzzle::new(71), 4).ok().unwrap().unwrap().path_length(), 2);
    assert!(search.search(SillyPuzzle::new(67), 2).is_err());
    assert_eq!(search.search(SillyPuzzle::new(67), 3).ok().unwrap().unwrap().path_length(), 2);
    let mut deepening = IterativeDeepeningDepthFirstSearch::<SillyPuzzle>::new(0);
    assert!(deepening.search(SillyPuzzle::new(60), 20).is_err());
    assert!(deepening.search(SillyPuzzle::new(60), NO_LIMIT).ok().unwrap().is_some());
    let mut a_star = IterativeDeepeningAStarSearch::<CubeState>::new(0);
    let cube = CubeState::default().perform_action(&CubeAction::R).perform_action(&CubeAction::U2);
    assert!(a_star.search(cube, 5).is_err());
    assert_eq!(a_star.search(cube, NO_LIMIT).ok().unwrap().unwrap().path_length(), 2);
}

#[test]
fn a_depth_limit_that_is_too_low_finds_nothing() {
    let mut search = DepthLimitedSearch::<SillyPuzzle, StackFrontier<SillyPuzzle>>::new(68);
    assert!(search.search(SillyPuzzle::new(0), NO_LIMIT).ok().unwrap().is_none());
    let mut search = DepthLimitedSearch::<SillyPuzzle, QueueFrontier<SillyPuzzle>>::new(3);
    assert!(search.search(SillyPuzzle::new(65), NO_LIMIT).ok().unwrap().is_none());
    let mut search = DepthLimitedSearch::<SillyPuzzle, QueueFrontier<SillyPuzzle>>::new(4);
    assert_eq!(search.search(SillyPuzzle::new(65), NO_LIMIT).ok().unwrap().unwrap().path_length(), 4);
    let mut search = DepthLimitedSearch::<SillyPuzzle, PriorityQueueFrontier<SillyPuzzle>>::new(0);
    assert!(search.search(SillyPuzzle::new(68), NO_LIMIT).ok().unwrap().is_none());
    assert_eq!(search.search(SillyPuzzle::new(69), NO_LIMIT).ok().unwrap().unwrap().path_length(), 0);
}

#[test]
fn iterative_deepening_finds_a_shallowest_goal() {
    let mut search = IterativeDeepeningDepthFirstSearch::<SillyPuzzle>::new(0);
    let solution = search.search(SillyPuzzle::new(75), NO_LIMIT).ok().unwrap().unwrap();
    assert_eq!(solution.path_length(), 6);
    for action in solution.get_path() {
        assert!(action.equals(&SillyPuzzleAction::new(-1)));
    }
    let mut search = IterativeDeepeningSearch::<FifteenPuzzle, QueueFrontier<FifteenPuzzle>>::new(0);
    let solution = search.search(FifteenPuzzle::new(0xfedcba9876043251), NO_LIMIT).ok().unwrap().unwrap();
    assert_eq!(solution.path_length(), 2);
    let mut search = IterativeDeepeningDepthFirstSearch::<SillyPuzzle>::new(0);
    assert_eq!(search.search(SillyPuzzle::new(69), NO_LIMIT).ok().unwrap().unwrap().path_length(), 0);
}

#[test]
fn evaluation_limited_search_stays_within_its_limit() {
    type Pass = EvaluationLimitedSearch<SillyPuzzle, StackFrontier<SillyPuzzle>>;
    // on the straight way to the goal the evaluation is the distance at the start
    let mut pass = Pass::new(9);
    let solution = pass.search(SillyPuzzle::new(60), NO_LIMIT).ok().unwrap().unwrap();
    assert_eq!(solution.path_length(), 9);
    // the step away from the goal was left out: it costs 1 and leaves 10
    assert_eq!(pass.get_lowest_evaluation_above_limit(), Some(11));
    let mut pass = Pass::new(8);
    assert!(pass.search(SillyPuzzle::new(60), NO_LIMIT).ok().unwrap().is_none());
    assert_eq!(pass.get_lowest_evaluation_above_limit(), Some(9));
    // what an earlier search has noted is forgotten
    assert!(pass.search(SillyPuzzle::new(50), NO_LIMIT).ok().unwrap().is_none());
    assert_eq!(pass.get_lowest_evaluation_above_limit(), Some(19));
    // at the goal nothing is asked
    assert!(pass.search(SillyPuzzle::new(69), NO_LIMIT).ok().unwrap().is_some());
    assert_eq!(pass.get_lowest_evaluation_above_limit(), None);
}

#[test]
fn iterative_deepening_evaluation_search_solves_the_sliding_puzzle() {
    let mut search = IterativeDeepeningAStarSearch::<FifteenPuzzle>::new(0);
    let start = FifteenPuzzle::new(0xfedcba9806547321);
    let solution = search.search(start, NO_LIMIT).ok().unwrap().unwrap();
    assert_eq!(solution.path_length(), 4);
    let mut end = start;
    for action in solution.get_path() {
        end = end.perform_action(action);
    }
    assert!(end.is_goal_state());
    let mut search = IterativeDeepeningEvaluationSearch::<FifteenPuzzle, QueueFrontier<FifteenPuzzle>>::new(0);
    assert_eq!(search.search(start, NO_LIMIT).ok().unwrap().unwrap().path_length(), 4);
}

#[test]
fn a_solution_is_shown_in_lines() {
    let path = vec![SillyPuzzleAction::new(1), SillyPuzzleAction::new(1), SillyPuzzleAction::new(-1)];
    let solution = Solution::new(SillyPuzzle::new(68), SillyPuzzle::new(69), path);
    assert_eq!(solution.path_length(), 3);
    assert_eq!(solution.get_path().len(), 3);
    assert_eq!(solution.display_path(), "+ + - \n");
    let start = SillyPuzzle::new(68).display_pretty();
    let end = SillyPuzzle::new(69).display_pretty();
    let states = format!("Start: \n{}\nFinal: \n{}\n", start, end);
    assert_eq!(solution.display_final(), states);
    assert_eq!(solution.display(), format!("Solution Found!\n{}Path (3): \n+ + - \n", states));
    let empty = Solution::new(SillyPuzzle::new(69), SillyPuzzle::new(69), Vec::new());
    assert_eq!(empty.path_length(), 0);
    assert_eq!(empty.display_path(), "\n");
    assert_eq!(empty.display(), format!("Solution Found!\nStart: \n{}\nFinal: \n{}\nPath (0): \n\n", end, end));
}

#[test]
fn a_star_with_a_depth_limit_searches_best_first() {
    let mut search = AStarSearch::<FifteenPuzzle>::new(4);
    let solution = search.search(FifteenPuzzle::new(0xfedcba9806547321), NO_LIMIT).ok().unwrap().unwrap();
    assert_eq!(solution.path_length(), 4);
    let mut search = AStarSearch::<FifteenPuzzle>::new(3);
    assert!(search.search(FifteenPuzzle::new(0xfedcba9806547321), NO_LIMIT).ok().unwrap().is_none());
    // led by the estimate, the search takes few nodes off the frontier
    let mut search = AStarSearch::<SillyPuzzle>::new(NO_LIMIT);
    let solution = search.search(SillyPuzzle::new(0), 70).ok().unwrap().unwrap();
    assert_eq!(solution.path_length(), 69);
}
