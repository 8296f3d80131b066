//! Recorded cases to hold a search against: a start state, a path that is
//! known to solve it, and the limit under which to search.
use vstd::prelude::*;
use crate::action::Action;
use crate::state::{State, walk, in_tree};
use crate::frontier::Frontier;
use crate::search::{Search, Solution, OutOfBudget, outcome_of};
use crate::puzzles::fifteen_puzzle::{FifteenPuzzle, FifteenPuzzleAction};
use crate::text::{chars_of, parts, read_unsigned, split_at_marks, unsigned_number};

verus! {

/// A recorded case.
pub struct TestCase<S: State> {
    start_state: S,
    correct_path: Vec<S::Action>,
    limit: u64,
    depth_limit: u32,
}

/// The limit as a depth: the limit itself, or the greatest depth that a
/// node can have where the limit is beyond it.
pub open spec fn as_depth(limit: u64) -> u32 {
    if limit <= u32::MAX {
        limit as u32
    } else {
        u32::MAX
    }
}

impl<S: State> TestCase<S> {
    pub closed spec fn start_state(&self) -> S {
        self.start_state
    }

    pub closed spec fn correct_path(&self) -> Seq<S::Action> {
        self.correct_path@
    }

    pub closed spec fn limit(&self) -> u64 {
        self.limit
    }

    pub closed spec fn depth_limit(&self) -> u32 {
        self.depth_limit
    }

    pub fn new(start_state: S, correct_path: Vec<S::Action>, limit: u64) -> (case: TestCase<S>)
        ensures
            case.start_state() == start_state,
            case.correct_path() == correct_path@,
            case.limit() == limit,
            case.depth_limit() == as_depth(limit),
    {
        let depth_limit: u32 = if limit <= u32::MAX as u64 {
            limit as u32
        } else {
            u32::MAX
        };
        TestCase { start_state, correct_path, limit, depth_limit }
    }

    pub fn get_limit(&self) -> (limit: u64)
        ensures
            limit == self.limit(),
    {
        self.limit
    }

    pub fn get_depth_limit(&self) -> (depth_limit: u32)
        ensures
            depth_limit == self.depth_limit(),
    {
        self.depth_limit
    }

    pub fn get_correct_path(&self) -> (path: &Vec<S::Action>)
        ensures
            path@ == self.correct_path(),
    {
        &self.correct_path
    }

    pub fn get_start_state(&self) -> (state: &S)
        ensures
            *state == self.start_state(),
    {
        &self.start_state
    }

    /// Whether the solution is no longer than the recorded path.
    pub fn check_solution(&self, solution: &Solution<S>) -> (passed: bool)
        ensures
            passed == (solution.path().len() <= self.correct_path().len()),
    {
        solution.get_path().len() <= self.correct_path.len()
    }
}

/// A search by the strategy `E` as `new` makes it under the given limit.
pub fn run_test<S: State, F: Frontier<S>, E: Search<S, F>>(
    start_state: S,
    limit: u64,
    budget: u64,
) -> (result: Result<Option<Solution<S>>, OutOfBudget>)
    requires
        start_state.wf(),
    ensures
        exists|strategy: E| #[trigger]
            strategy.made_with(limit) && outcome_of::<S, F, E>(
                strategy,
                start_state,
                budget,
                result,
            ),
{
    let mut searcher = E::new(limit);
    let ghost strategy = searcher;
    let result = searcher.search(start_state, budget);
    proof {
        assert(strategy.made_with(limit) && outcome_of::<S, F, E>(
            strategy,
            start_state,
            budget,
            result,
        ));
    }
    result
}

/// Whether `passed` is the verdict on a search by `strategy` from the start
/// state of `case` under `budget`. The case passes where the search finds a
/// solution that is no longer than the recorded path. It fails where the
/// search finds a longer one, where it finds nothing because no branch that
/// the strategy explores ends in a goal, and where it is cut off.
pub open spec fn verdict_of<S: State, F: Frontier<S>, E: Search<S, F>>(
    strategy: E,
    case: TestCase<S>,
    budget: u64,
    passed: bool,
) -> bool {
    let origin = case.start_state();
    let recorded = case.correct_path().len();
    if passed {
        exists|path: Seq<S::Action>|
            {
                &&& #[trigger] strategy.explores(origin, path)
                &&& in_tree(origin, path)
                &&& walk(origin, path).is_goal()
                &&& path.len() <= recorded
            }
    } else {
        &&& !origin.is_goal()
        &&& {
            ||| exists|path: Seq<S::Action>|
                {
                    &&& #[trigger] strategy.explores(origin, path)
                    &&& in_tree(origin, path)
                    &&& walk(origin, path).is_goal()
                    &&& path.len() > recorded
                }
            ||| forall|path: Seq<S::Action>| #[trigger]
                strategy.explores(origin, path) ==> !walk(origin, path).is_goal()
            ||| strategy.cut_off(origin, budget)
        }
    }
}

/// Whether a search by the strategy `E` under the limit of the case finds
/// a solution that is no longer than the recorded path.
pub fn test_one<S: State, F: Frontier<S>, E: Search<S, F>>(test_case: &TestCase<S>, budget: u64) -> (passed:
    bool)
    requires
        test_case.start_state().wf(),
    ensures
        exists|strategy: E| #[trigger]
            strategy.made_with(test_case.limit()) && verdict_of::<S, F, E>(
                strategy,
                *test_case,
                budget,
                passed,
            ),
        test_case.start_state().is_goal() ==> passed,
{
    let result = run_test::<S, F, E>(
        test_case.get_start_state().duplicate(),
        test_case.get_limit(),
        budget,
    );
    let ghost strategy = choose|strategy: E| #[trigger]
        strategy.made_with(test_case.limit()) && outcome_of::<S, F, E>(
            strategy,
            test_case.start_state(),
            budget,
            result,
        );
    match result {
        Ok(Some(solution)) => {
            let passed = test_case.check_solution(&solution);
            proof {
                assert(strategy.explores(test_case.start_state(), solution.path()));
                assert(verdict_of::<S, F, E>(strategy, *test_case, budget, passed));
            }
            passed
        },
        Ok(None) => {
            proof {
                assert(verdict_of::<S, F, E>(strategy, *test_case, budget, false));
            }
            false
        },
        Err(_) => {
            proof {
                assert(verdict_of::<S, F, E>(strategy, *test_case, budget, false));
            }
            false
        },
    }
}

/// A text without the marks `0x` at its beginning, however many there are.
pub open spec fn without_marks(text: Seq<char>) -> Seq<char>
    decreases text.len(),
{
    if text.len() >= 2 && text[0] == '0' && text[1] == 'x' {
        without_marks(text.skip(2))
    } else {
        text
    }
}

/// The actions that the given texts stand for, if each of them stands for
/// one.
pub open spec fn recorded_path(texts: Seq<Seq<char>>) -> Option<Seq<FifteenPuzzleAction>>
    decreases texts.len(),
{
    if texts.len() == 0 {
        Some(Seq::empty())
    } else {
        match (recorded_path(texts.drop_last()), FifteenPuzzleAction::parsed(texts.last())) {
            (Some(path), Some(action)) => Some(path.push(action)),
            _ => None,
        }
    }
}

/// What a line of a file of recorded cases of the sliding-tile puzzle stands
/// for: a depth limit, a board and a path. The line has six fields or more
/// with single blanks between them. The first is the depth limit in decimal
/// digits, the fourth the board in hexadecimal digits after `0x`, the sixth
/// the actions of the path with dashes between them; the others are not
/// looked at.
pub open spec fn recorded_case(line: Seq<char>) -> Option<(int, int, Seq<FifteenPuzzleAction>)> {
    let fields = parts(line, ' ');
    if fields.len() < 6 {
        None
    } else {
        match (
            unsigned_number(fields[0], 10, u32::MAX as int),
            unsigned_number(without_marks(fields[3]), 16, u64::MAX as int),
            recorded_path(parts(fields[5], '-')),
        ) {
            (Some(depth_limit), Some(board), Some(path)) => Some((depth_limit, board, path)),
            _ => None,
        }
    }
}

/// Reads a line of a file of recorded cases of the sliding-tile puzzle.
pub fn parse_test_case(line: &str) -> (case: Option<TestCase<FifteenPuzzle>>)
    ensures
        match case {
            Some(case) => recorded_case(line@) == Some(
                (case.limit() as int, case.start_state().board as int, case.correct_path()),
            ),
            None => recorded_case(line@) is None,
        },
        case matches Some(case) ==> case.depth_limit() == as_depth(case.limit()),
{
    let chars = chars_of(line);
    let len = chars.len();
    assert(chars@.subrange(0, len as int) =~= line@);
    let fields = split_at_marks(&chars, 0, len, ' ');
    if fields.len() < 6 {
        return None;
    }
    let ghost texts = parts(line@, ' ');
    let (from, to) = fields[0];
    assert(chars@.subrange(from as int, to as int) == texts[0]);
    let depth_limit = match read_unsigned(&chars, from, to, 10, u32::MAX as u64) {
        Some(depth_limit) => depth_limit,
        None => {
            return None;
        },
    };
    let (from, to) = fields[3];
    assert(chars@.subrange(from as int, to as int) == texts[3]);
    let mut begin = from;
    while to - begin >= 2 && chars[begin] == '0' && chars[begin + 1] == 'x'
        invariant
            from <= begin <= to <= chars@.len(),
            texts.len() >= 6,
            without_marks(chars@.subrange(begin as int, to as int)) == without_marks(texts[3]),
        decreases to - begin,
    {
        proof {
            let here = chars@.subrange(begin as int, to as int);
            assert(here.skip(2) =~= chars@.subrange(begin + 2, to as int));
        }
        begin += 2;
    }
    let board = match read_unsigned(&chars, begin, to, 16, u64::MAX) {
        Some(board) => board,
        None => {
            return None;
        },
    };
    let (from, to) = fields[5];
    assert(chars@.subrange(from as int, to as int) == texts[5]);
    let steps = split_at_marks(&chars, from, to, '-');
    let ghost step_texts = parts(texts[5], '-');
    let mut path: Vec<FifteenPuzzleAction> = Vec::new();
    let mut i: usize = 0;
    assert(step_texts.take(0) =~= Seq::<Seq<char>>::empty());
    while i < steps.len()
        invariant
            i <= steps@.len(),
            steps@.len() == step_texts.len(),
            texts == parts(line@, ' '),
            texts.len() >= 6,
            step_texts == parts(texts[5], '-'),
            forall|k: int|
                0 <= k < steps@.len() ==> {
                    &&& (#[trigger] steps@[k]).0 <= steps@[k].1 <= chars@.len()
                    &&& chars@.subrange(steps@[k].0 as int, steps@[k].1 as int) == step_texts[k]
                },
            recorded_path(step_texts.take(i as int)) == Some(path@),
        decreases steps@.len() - i,
    {
        let (step_from, step_to) = steps[i];
        let ghost upto = step_texts.take(i + 1);
        proof {
            assert(upto.drop_last() =~= step_texts.take(i as int));
            assert(upto.last() == step_texts[i as int]);
        }
        match read_unsigned(&chars, step_from, step_to, 16, 255) {
            Some(piece) => {
                path.push(FifteenPuzzleAction::new(piece as u8));
            },
            None => {
                proof {
                    lemma_recorded_path_prefix(step_texts, i + 1);
                }
                return None;
            },
        }
        i += 1;
    }
    assert(step_texts.take(i as int) =~= step_texts);
    Some(TestCase::new(FifteenPuzzle::new(board), path, depth_limit))
}

/// Where the first texts stand for no path, all of them stand for none.
pub proof fn lemma_recorded_path_prefix(texts: Seq<Seq<char>>, k: int)
    requires
        0 <= k <= texts.len(),
        recorded_path(texts.take(k)) is None,
    ensures
        recorded_path(texts) is None,
    decreases texts.len(),
{
    if k == texts.len() {
        assert(texts.take(k) =~= texts);
    } else {
        assert(texts.drop_last().take(k) =~= texts.take(k));
        lemma_recorded_path_prefix(texts.drop_last(), k);
    }
}

} // verus!
