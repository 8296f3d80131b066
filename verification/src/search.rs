//! The strategies of a search and what a search finds.
use vstd::prelude::*;
use vstd::string::*;
use crate::action::Action;
use crate::state::{State, walk, in_tree, never_undoes, evaluation_of};
use crate::node::Node;
use crate::frontier::{Frontier, QueueFrontier, StackFrontier, PriorityQueueFrontier};
use crate::text::{numeral, append_numeral};
use crate::expansion::{reach, uses_up, expanded_inv, account, ahead, ahead_of_goals};
pub use crate::expansion::tree_search;

verus! {

/// What a successful search found: where it started, the goal state it
/// reached, and the actions that lead from the one to the other.
pub struct Solution<S: State> {
    start_state: S,
    final_state: S,
    path: Vec<S::Action>,
}

/// The search was cut off because it had used up its budget of expansions.
pub struct OutOfBudget;

impl<S: State> Solution<S> {
    pub closed spec fn start_state(self) -> S {
        self.start_state
    }

    pub closed spec fn final_state(self) -> S {
        self.final_state
    }

    pub closed spec fn path(self) -> Seq<S::Action> {
        self.path@
    }

    pub fn new(start_state: S, final_state: S, path: Vec<S::Action>) -> (solution: Solution<S>)
        ensures
            solution.start_state() == start_state,
            solution.final_state() == final_state,
            solution.path() == path@,
    {
        Solution { start_state, final_state, path }
    }

    pub fn get_start_state(&self) -> (state: &S)
        ensures
            *state == self.start_state(),
    {
        &self.start_state
    }

    pub fn get_final_state(&self) -> (state: &S)
        ensures
            *state == self.final_state(),
    {
        &self.final_state
    }

    pub fn get_path(&self) -> (path: &Vec<S::Action>)
        ensures
            path@ == self.path(),
    {
        &self.path
    }

    /// The number of actions of the path, as far as 32 bits hold it.
    pub fn path_length(&self) -> (n: u32)
        ensures
            n == self.path().len() as u32,
    {
        let len = self.path.len();
        #[verifier::truncate]
        (len as u32)
    }

    /// Whether the states and the actions of the solution are states and
    /// actions of the domain, so that they can be shown.
    pub open spec fn wf(self) -> bool {
        &&& self.start_state().wf()
        &&& self.final_state().wf()
        &&& forall|i: int| 0 <= i < self.path().len() ==> (#[trigger] self.path()[i]).wf()
    }

    /// The line that shows the path: each action, followed by a blank.
    pub fn display_path(&self) -> (text: String)
        requires
            self.wf(),
        ensures
            text@ == path_line(self.path()),
    {
        let mut text = String::new();
        let mut i: usize = 0;
        assert(self.path().take(0) =~= Seq::<S::Action>::empty());
        assert(text@ =~= path_text(self.path().take(0)));
        while i < self.path.len()
            invariant
                i <= self.path().len(),
                self.wf(),
                text@ == path_text(self.path().take(i as int)),
            decreases self.path().len() - i,
        {
            let shown = self.path[i].to_string();
            text.append(shown.as_str());
            text.append(" ");
            proof {
                reveal_strlit(" ");
                let upto = self.path().take(i + 1);
                assert(upto.drop_last() =~= self.path().take(i as int));
                assert(upto.last() == self.path()[i as int]);
                assert(text@ =~= path_text(upto));
            }
            i += 1;
        }
        text.append("\n");
        proof {
            reveal_strlit("\n");
            assert(self.path().take(i as int) =~= self.path());
            assert(text@ =~= path_line(self.path()));
        }
        text
    }

    /// The lines that show the start state and the final state.
    pub fn display_final(&self) -> (text: String)
        requires
            self.wf(),
        ensures
            text@ == "Start: \n"@ + self.start_state().picture() + "\nFinal: \n"@
                + self.final_state().picture() + "\n"@,
    {
        let mut text = String::from_str("Start: \n");
        let start = self.start_state.display_pretty();
        text.append(start.as_str());
        text.append("\nFinal: \n");
        let end = self.final_state.display_pretty();
        text.append(end.as_str());
        text.append("\n");
        assert(text@ =~= "Start: \n"@ + self.start_state().picture() + "\nFinal: \n"@
            + self.final_state().picture() + "\n"@);
        text
    }

    /// The lines that show the whole solution: the two states, the number
    /// of actions and the actions.
    pub fn display(&self) -> (text: String)
        requires
            self.wf(),
        ensures
            text@ == "Solution Found!\n"@ + ("Start: \n"@ + self.start_state().picture()
                + "\nFinal: \n"@ + self.final_state().picture() + "\n"@) + "Path ("@ + numeral(
                (self.path().len() as u32) as int,
                10,
            ) + "): \n"@ + path_line(self.path()),
    {
        let mut text = String::from_str("Solution Found!\n");
        let states = self.display_final();
        text.append(states.as_str());
        text.append("Path (");
        append_numeral(&mut text, self.path_length() as u64, 10);
        text.append("): \n");
        let path = self.display_path();
        text.append(path.as_str());
        assert(text@ =~= "Solution Found!\n"@ + ("Start: \n"@ + self.start_state().picture()
            + "\nFinal: \n"@ + self.final_state().picture() + "\n"@) + "Path ("@ + numeral(
            (self.path().len() as u32) as int,
            10,
        ) + "): \n"@ + path_line(self.path()));
        text
    }
}

/// The text forms of the actions of a path, each followed by a blank.
pub open spec fn path_text<A: Action>(path: Seq<A>) -> Seq<char>
    decreases path.len(),
{
    if path.len() == 0 {
        Seq::empty()
    } else {
        path_text(path.drop_last()) + path.last().rendering() + seq![' ']
    }
}

/// The line that shows a path.
pub open spec fn path_line<A: Action>(path: Seq<A>) -> Seq<char> {
    path_text(path) + seq!['\n']
}

/// The rule by which a single pass through the tree leaves nodes out.
pub trait Pruning<S: State>: Sized {
    /// Whether `prune` leaves out the node that `path` leads to from
    /// `origin`.
    spec fn rejects(&self, origin: S, path: Seq<S::Action>) -> bool;

    /// Whether what the rule has noted is what it notes when `prune` has
    /// been asked about exactly the nodes that the paths of `judged` lead to
    /// from `origin`.
    spec fn has_judged(&self, origin: S, judged: Set<Seq<S::Action>>) -> bool;

    /// Whether two rules differ at most in what they have noted.
    spec fn same_rule(&self, other: &Self) -> bool;

    /// Rules that differ at most in what they have noted leave out the same
    /// nodes.
    proof fn lemma_same_rule(a: &Self, b: &Self, c: &Self)
        ensures
            a.same_rule(a),
            a.same_rule(b) && b.same_rule(c) ==> a.same_rule(c),
            a.same_rule(b) ==> forall|origin: S, path: Seq<S::Action>| #[trigger]
                a.rejects(origin, path) == b.rejects(origin, path),
    ;

    /// Whether `node` is left out of the search.
    fn prune(&mut self, node: &Node<S>) -> (rejected: bool)
        requires
            node.wf(),
        ensures
            rejected == old(self).rejects(node.origin(), node.path()),
            final(self).same_rule(old(self)),
            forall|judged: Set<Seq<S::Action>>| #[trigger]
                old(self).has_judged(node.origin(), judged) ==> final(self).has_judged(
                    node.origin(),
                    judged.insert(node.path()),
                ),
    ;
}

/// A way of searching: which branches of the tree are explored, and, by the
/// frontier, in what order.
pub trait Search<S: State, F: Frontier<S>>: Sized {
    /// Whether the strategy looks at the branch `path` of the tree below
    /// `origin`, should no goal turn up before.
    spec fn explores(&self, origin: S, path: Seq<S::Action>) -> bool;

    /// The name of the strategy.
    spec fn name() -> Seq<char>;

    /// Whether the strategy is as `new` makes it under `limit`.
    spec fn made_with(&self, limit: u64) -> bool;

    /// Whether a search from `origin` may be cut off under `budget`: whether
    /// the expansions that the strategy makes before any goal can use the
    /// budget up.
    spec fn cut_off(&self, origin: S, budget: u64) -> bool;

    /// The strategy under the given limit.
    fn new(limit: u64) -> (strategy: Self)
        ensures
            strategy.made_with(limit),
    ;

    /// Looks for a goal state from `start_state`, expanding at most `budget`
    /// nodes.
    fn search(&mut self, start_state: S, budget: u64) -> (result: Result<
        Option<Solution<S>>,
        OutOfBudget,
    >)
        requires
            start_state.wf(),
        ensures
            forall|origin: S, path: Seq<S::Action>| #[trigger]
                final(self).explores(origin, path) == old(self).explores(origin, path),
            start_state.is_goal() ==> (result matches Ok(Some(solution))
                && solution.path().len() == 0),
            match result {
                Ok(Some(solution)) => {
                    &&& solution.start_state() == start_state
                    &&& solution.final_state() == walk(start_state, solution.path())
                    &&& solution.final_state().is_goal()
                    &&& solution.wf()
                    &&& in_tree(start_state, solution.path())
                    &&& never_undoes(start_state, solution.path())
                    &&& old(self).explores(start_state, solution.path())
                },
                Ok(None) => forall|path: Seq<S::Action>| #[trigger]
                    old(self).explores(start_state, path) ==> !walk(start_state, path).is_goal(),
                Err(_) => old(self).cut_off(start_state, budget),
            },
    ;

    fn to_string(&self) -> (s: String)
        ensures
            s@ == Self::name(),
    ;
}

/// Whether `result` is an outcome of a search by `strategy` from `origin`
/// under `budget`: a solution is a branch of the tree that the strategy
/// explores and that ends in a goal; nothing is found only where no branch
/// that the strategy explores ends in a goal; the search is cut off only
/// where the strategy says that the budget can be used up; and a goal at
/// the start is found.
pub open spec fn outcome_of<S: State, F: Frontier<S>, E: Search<S, F>>(
    strategy: E,
    origin: S,
    budget: u64,
    result: Result<Option<Solution<S>>, OutOfBudget>,
) -> bool {
    &&& origin.is_goal() ==> (result matches Ok(Some(solution)) && solution.path().len() == 0)
    &&& match result {
        Ok(Some(solution)) => {
            &&& solution.start_state() == origin
            &&& solution.final_state() == walk(origin, solution.path())
            &&& solution.final_state().is_goal()
            &&& solution.wf()
            &&& in_tree(origin, solution.path())
            &&& never_undoes(origin, solution.path())
            &&& strategy.explores(origin, solution.path())
        },
        Ok(None) => forall|path: Seq<S::Action>| #[trigger]
            strategy.explores(origin, path) ==> !walk(origin, path).is_goal(),
        Err(_) => strategy.cut_off(origin, budget),
    }
}

/// Whether `spent` accounts for a budget that was used up: it holds, for
/// each node that was expanded, the round of the search in which it was
/// and the path that led to it. Each such path is a branch of the tree
/// that ends in no goal.
pub open spec fn spends<S: State>(
    origin: S,
    spent: Set<(nat, Seq<S::Action>)>,
    budget: u64,
) -> bool {
    &&& spent.finite()
    &&& spent.len() == budget
    &&& forall|round: nat, path: Seq<S::Action>| #[trigger]
        spent.contains((round, path)) ==> in_tree(origin, path) && !walk(origin, path).is_goal()
}

/// Whether `expanded` accounts for a budget that a search of a single pass
/// has used up: it holds as many paths as the budget allows, each of which
/// is a branch of the tree that ends in no goal.
pub open spec fn spends_at_once<S: State>(
    origin: S,
    expanded: Set<Seq<S::Action>>,
    budget: u64,
) -> bool {
    &&& expanded.finite()
    &&& expanded.len() == budget
    &&& forall|path: Seq<S::Action>| #[trigger]
        expanded.contains(path) ==> in_tree(origin, path) && !walk(origin, path).is_goal()
}

/// Whether the frontier `F` hands out the node that was reached by `path`
/// before a pass through the branches of `explored` has come to the end of
/// one that ends in a goal: of each such branch some node waits, while which
/// the node may leave. With `QueueFrontier` the path is then no longer than
/// any such branch; with `PriorityQueueFrontier` each such branch has a node
/// whose evaluation is no lower than that of the node.
pub open spec fn found_first<S: State, F: Frontier<S>>(
    origin: S,
    explored: Set<Seq<S::Action>>,
    path: Seq<S::Action>,
) -> bool {
    forall|branch: Seq<S::Action>| #[trigger]
        explored.contains(branch) && walk(origin, branch).is_goal() ==> ahead::<S, F>(
            origin,
            path,
            branch,
        )
}

/// Whether `expanded` holds the paths to the nodes that a single pass
/// through the branches of `explored` has expanded when it has used up
/// `budget`: as many as the budget allows, each of them explored, ending in
/// no goal, and handed out before the pass has come to the end of a branch
/// that ends in a goal.
pub open spec fn spent_in_pass<S: State, F: Frontier<S>>(
    origin: S,
    explored: Set<Seq<S::Action>>,
    expanded: Set<Seq<S::Action>>,
    budget: u64,
) -> bool {
    &&& expanded.finite()
    &&& expanded.len() == budget
    &&& forall|path: Seq<S::Action>| #[trigger]
        expanded.contains(path) ==> {
            &&& explored.contains(path)
            &&& in_tree(origin, path)
            &&& !walk(origin, path).is_goal()
            &&& found_first::<S, F>(origin, explored, path)
        }
}

/// Whether a single pass through the branches of `explored` may be cut off
/// under `budget`.
pub open spec fn cut_short<S: State, F: Frontier<S>>(
    origin: S,
    explored: Set<Seq<S::Action>>,
    budget: u64,
) -> bool {
    exists|expanded: Set<Seq<S::Action>>| #[trigger]
        spent_in_pass::<S, F>(origin, explored, expanded, budget)
}

/// What the expansion loop says of a pass of `rule`, said of the branches
/// that the pass reaches.
pub proof fn lemma_account<S: State, F: Frontier<S>, P: Pruning<S>>(
    rule: P,
    origin: S,
    explored: Set<Seq<S::Action>>,
    expanded: Set<Seq<S::Action>>,
    used: u64,
)
    requires
        account::<S, F, P>(rule, origin, expanded, used),
        explored == reach::<S, P>(rule, origin),
    ensures
        spent_in_pass::<S, F>(origin, explored, expanded, used),
{
    reveal(account);
    assert forall|path: Seq<S::Action>| #[trigger] expanded.contains(path) implies {
        &&& explored.contains(path)
        &&& in_tree(origin, path)
        &&& !walk(origin, path).is_goal()
        &&& found_first::<S, F>(origin, explored, path)
    } by {
        lemma_reached_in_tree::<S, P>(rule, origin, path);
        assert(ahead_of_goals::<S, F, P>(rule, origin, path));
    }
}

/// With a queue for its frontier a pass finds a goal that is as shallow as
/// any, and expands no node that is deeper.
pub proof fn lemma_breadth_first<S: State>(
    origin: S,
    explored: Set<Seq<S::Action>>,
    path: Seq<S::Action>,
    branch: Seq<S::Action>,
)
    requires
        found_first::<S, QueueFrontier<S>>(origin, explored, path),
        explored.contains(branch),
        walk(origin, branch).is_goal(),
    ensures
        path.len() <= branch.len(),
{
    assert(ahead::<S, QueueFrontier<S>>(origin, path, branch));
}

/// With a priority queue for its frontier a pass finds a goal, and expands
/// nodes, whose evaluation is no higher than the highest along any branch
/// that ends in a goal.
pub proof fn lemma_best_first<S: State>(
    origin: S,
    explored: Set<Seq<S::Action>>,
    path: Seq<S::Action>,
    branch: Seq<S::Action>,
)
    requires
        found_first::<S, PriorityQueueFrontier<S>>(origin, explored, path),
        explored.contains(branch),
        walk(origin, branch).is_goal(),
    ensures
        exists|k: int|
            0 <= k <= branch.len() && evaluation_of(origin, path) <= evaluation_of(
                origin,
                #[trigger] branch.take(k),
            ),
{
    assert(ahead::<S, PriorityQueueFrontier<S>>(origin, path, branch));
}

/// The paths of `paths`, each marked with `round`.
pub open spec fn tagged<A>(round: nat, paths: Set<Seq<A>>) -> Set<(nat, Seq<A>)> {
    paths.map(|path: Seq<A>| (round, path))
}

/// Marking the paths of a set with a round gives as many marked paths.
pub proof fn lemma_tagged<A>(round: nat, paths: Set<Seq<A>>)
    requires
        paths.finite(),
    ensures
        tagged(round, paths).finite(),
        tagged(round, paths).len() == paths.len(),
        forall|r: nat, path: Seq<A>| #[trigger]
            tagged(round, paths).contains((r, path)) <==> r == round && paths.contains(path),
{
    let f = |path: Seq<A>| (round, path);
    assert(vstd::relations::injective_on(f, paths));
    vstd::set_lib::lemma_map_size(paths, tagged(round, paths), f);
    assert forall|r: nat, path: Seq<A>| #[trigger]
        tagged(round, paths).contains((r, path)) <==> r == round && paths.contains(path) by {
        if r == round && paths.contains(path) {
            assert(f(path) == (r, path));
        }
    }
}

/// Whether a single pass of `strategy` reaches the node that `path` leads
/// to from `origin`: the path is a branch of the tree, and `prune` leaves
/// out none of the nodes along it.
pub open spec fn reached<S: State, P: Pruning<S>>(
    strategy: P,
    origin: S,
    path: Seq<S::Action>,
) -> bool
    decreases path.len(),
{
    if path.len() == 0 {
        true
    } else {
        let before = path.drop_last();
        &&& reached::<S, P>(strategy, origin, before)
        &&& !strategy.rejects(origin, path)
        &&& path.len() <= u32::MAX
        &&& walk(origin, before).legal_actions().contains(path.last())
        &&& before.len() > 0 ==> walk(origin, path) != walk(origin, before.drop_last())
    }
}

/// What a single pass reaches is a branch of the tree.
pub proof fn lemma_reached_in_tree<S: State, P: Pruning<S>>(
    strategy: P,
    origin: S,
    path: Seq<S::Action>,
)
    requires
        reached::<S, P>(strategy, origin, path),
    ensures
        in_tree(origin, path),
    decreases path.len(),
{
    if path.len() > 0 {
        lemma_reached_in_tree::<S, P>(strategy, origin, path.drop_last());
    }
}

/// A single pass that reaches a node has reached the nodes above it.
pub proof fn lemma_reached_prefix<S: State, P: Pruning<S>>(
    strategy: P,
    origin: S,
    path: Seq<S::Action>,
    k: int,
)
    requires
        reached::<S, P>(strategy, origin, path),
        0 <= k <= path.len(),
    ensures
        reached::<S, P>(strategy, origin, path.take(k)),
    decreases path.len(),
{
    if k == path.len() {
        assert(path.take(k) =~= path);
    } else {
        lemma_reached_prefix::<S, P>(strategy, origin, path.drop_last(), k);
        assert(path.drop_last().take(k) =~= path.take(k));
    }
}

/// The paths that `prune` is asked about when the nodes of `expanded` are
/// expanded: the branches of the tree that continue one of them by one
/// action.
pub open spec fn candidates<S: State>(origin: S, expanded: Set<Seq<S::Action>>) -> Set<
    Seq<S::Action>,
> {
    Set::new(
        |path: Seq<S::Action>|
            path.len() > 0 && expanded.contains(path.drop_last()) && in_tree(origin, path),
    )
}

/// Explores the whole tree: leaves out no node.
pub struct TreeSearch<S: State, F: Frontier<S>> {
    phantom_s: core::marker::PhantomData<S>,
    phantom_f: core::marker::PhantomData<F>,
}

impl<S: State, F: Frontier<S>> TreeSearch<S, F> {
    /// The branches that the strategy explores below `origin`.
    pub open spec fn explored(self, origin: S) -> Set<Seq<S::Action>> {
        Set::new(|path: Seq<S::Action>| in_tree(origin, path))
    }

    /// A pass that leaves out nothing reaches every branch of the tree.
    pub proof fn lemma_reaches_tree(self, origin: S, path: Seq<S::Action>)
        ensures
            reached::<S, Self>(self, origin, path) == in_tree(origin, path),
        decreases path.len(),
    {
        if path.len() > 0 {
            self.lemma_reaches_tree(origin, path.drop_last());
        }
    }
}

impl<S: State, F: Frontier<S>> Pruning<S> for TreeSearch<S, F> {
    open spec fn rejects(&self, origin: S, path: Seq<S::Action>) -> bool {
        false
    }

    open spec fn has_judged(&self, origin: S, judged: Set<Seq<S::Action>>) -> bool {
        true
    }

    open spec fn same_rule(&self, other: &Self) -> bool {
        true
    }

    proof fn lemma_same_rule(a: &Self, b: &Self, c: &Self) {
    }

    fn prune(&mut self, _node: &Node<S>) -> (rejected: bool) {
        false
    }
}

impl<S: State, F: Frontier<S>> Search<S, F> for TreeSearch<S, F> {
    open spec fn explores(&self, origin: S, path: Seq<S::Action>) -> bool {
        in_tree(origin, path)
    }

    open spec fn name() -> Seq<char> {
        "TreeSearch"@
    }

    /// The limit is not looked at: there is one such strategy.
    open spec fn made_with(&self, limit: u64) -> bool {
        true
    }

    fn new(_limit: u64) -> (strategy: TreeSearch<S, F>) {
        TreeSearch { phantom_s: core::marker::PhantomData, phantom_f: core::marker::PhantomData }
    }

    /// A search is cut off where a pass through the whole tree uses up the
    /// budget before the frontier hands out a goal.
    open spec fn cut_off(&self, origin: S, budget: u64) -> bool {
        cut_short::<S, F>(origin, self.explored(origin), budget)
    }

    /// The solution is the first branch to a goal that the frontier hands
    /// out.
    fn search(&mut self, start_state: S, budget: u64) -> (result: Result<
        Option<Solution<S>>,
        OutOfBudget,
    >)
        ensures
            result matches Ok(Some(solution)) ==> found_first::<S, F>(
                start_state,
                old(self).explored(start_state),
                solution.path(),
            ),
    {
        let ghost rule = *self;
        let (result, used) = tree_search::<S, F, Self>(self, &start_state, budget);
        proof {
            assert forall|path: Seq<S::Action>|
                reached::<S, Self>(rule, start_state, path) == in_tree(start_state, path) by {
                rule.lemma_reaches_tree(start_state, path);
            }
            let explored = rule.explored(start_state);
            assert(explored =~= reach::<S, Self>(rule, start_state));
            let expanded = choose|expanded: Set<Seq<S::Action>>| #[trigger]
                account::<S, F, Self>(rule, start_state, expanded, used);
            lemma_account::<S, F, Self>(rule, start_state, explored, expanded, used);
        }
        result
    }

    fn to_string(&self) -> (s: String) {
        String::from_str("TreeSearch")
    }
}

/// Explores the tree down to a depth: leaves out the nodes below it.
pub struct DepthLimitedSearch<S: State, F: Frontier<S>> {
    depth_limit: u32,
    phantom_s: core::marker::PhantomData<S>,
    phantom_f: core::marker::PhantomData<F>,
}

impl<S: State, F: Frontier<S>> DepthLimitedSearch<S, F> {
    /// The branches that the strategy explores below `origin`.
    pub open spec fn explored(self, origin: S) -> Set<Seq<S::Action>> {
        Set::new(|path: Seq<S::Action>| in_tree(origin, path) && path.len() <= self.depth_limit())
    }

    /// The greatest depth of a node that is not left out.
    pub closed spec fn depth_limit(&self) -> nat {
        self.depth_limit as nat
    }

    /// A pass that leaves out the nodes below a depth reaches the branches
    /// of the tree that are no longer than that.
    pub proof fn lemma_reaches_to_depth(self, origin: S, path: Seq<S::Action>)
        ensures
            reached::<S, Self>(self, origin, path) == (in_tree(origin, path) && path.len()
                <= self.depth_limit()),
        decreases path.len(),
    {
        if path.len() > 0 {
            self.lemma_reaches_to_depth(origin, path.drop_last());
        }
    }
}

impl<S: State, F: Frontier<S>> Pruning<S> for DepthLimitedSearch<S, F> {
    open spec fn rejects(&self, origin: S, path: Seq<S::Action>) -> bool {
        path.len() > self.depth_limit()
    }

    open spec fn has_judged(&self, origin: S, judged: Set<Seq<S::Action>>) -> bool {
        true
    }

    open spec fn same_rule(&self, other: &Self) -> bool {
        self.depth_limit() == other.depth_limit()
    }

    proof fn lemma_same_rule(a: &Self, b: &Self, c: &Self) {
    }

    fn prune(&mut self, node: &Node<S>) -> (rejected: bool) {
        node.get_depth() > self.depth_limit
    }
}

impl<S: State, F: Frontier<S>> Search<S, F> for DepthLimitedSearch<S, F> {
    open spec fn explores(&self, origin: S, path: Seq<S::Action>) -> bool {
        in_tree(origin, path) && path.len() <= self.depth_limit()
    }

    open spec fn name() -> Seq<char> {
        "DepthLimitedSearch"@
    }

    /// The depth limit is `limit`, or the greatest depth that a node can
    /// have where `limit` is beyond it.
    open spec fn made_with(&self, limit: u64) -> bool {
        self.depth_limit() == if limit <= u32::MAX {
            limit as nat
        } else {
            u32::MAX as nat
        }
    }

    /// The depth limit is `limit`, or the greatest depth that a node can
    /// have where `limit` is beyond it.
    fn new(limit: u64) -> (strategy: DepthLimitedSearch<S, F>)
        ensures
            strategy.depth_limit() == if limit <= u32::MAX {
                limit as nat
            } else {
                u32::MAX as nat
            },
    {
        let depth_limit: u32 = if limit <= u32::MAX as u64 {
            limit as u32
        } else {
            u32::MAX
        };
        DepthLimitedSearch {
            depth_limit,
            phantom_s: core::marker::PhantomData,
            phantom_f: core::marker::PhantomData,
        }
    }

    /// A search is cut off where a pass down to the depth limit uses up the
    /// budget before the frontier hands out a goal.
    open spec fn cut_off(&self, origin: S, budget: u64) -> bool {
        cut_short::<S, F>(origin, self.explored(origin), budget)
    }

    /// The solution is the first branch to a goal that the frontier hands
    /// out.
    fn search(&mut self, start_state: S, budget: u64) -> (result: Result<
        Option<Solution<S>>,
        OutOfBudget,
    >)
        ensures
            final(self).depth_limit() == old(self).depth_limit(),
            result matches Ok(Some(solution)) ==> found_first::<S, F>(
                start_state,
                old(self).explored(start_state),
                solution.path(),
            ),
    {
        let ghost rule = *self;
        let (result, used) = tree_search::<S, F, Self>(self, &start_state, budget);
        proof {
            assert forall|path: Seq<S::Action>|
                reached::<S, Self>(rule, start_state, path) == (in_tree(start_state, path)
                    && path.len() <= rule.depth_limit()) by {
                rule.lemma_reaches_to_depth(start_state, path);
            }
            let explored = rule.explored(start_state);
            assert(explored =~= reach::<S, Self>(rule, start_state));
            let expanded = choose|expanded: Set<Seq<S::Action>>| #[trigger]
                account::<S, F, Self>(rule, start_state, expanded, used);
            lemma_account::<S, F, Self>(rule, start_state, explored, expanded, used);
        }
        result
    }

    fn to_string(&self) -> (s: String) {
        String::from_str("DepthLimitedSearch")
    }
}

/// Breadth-first search: the whole tree, the nodes that were found first
/// first.
pub type BreadthFirstSearch<S> = TreeSearch<S, QueueFrontier<S>>;

/// Depth-first search: the whole tree, the nodes that were found last first.
pub type DepthFirstSearch<S> = TreeSearch<S, StackFrontier<S>>;

/// Whether `spent` accounts for the expansions of the rounds before
/// `round`, `used` in all: each of its paths is a branch of the tree that
/// ends in no goal, marked with the round in which it was expanded.
pub open spec fn spent_before<S: State>(
    origin: S,
    spent: Set<(nat, Seq<S::Action>)>,
    round: nat,
    used: nat,
) -> bool {
    &&& spent.finite()
    &&& spent.len() == used
    &&& forall|r: nat, path: Seq<S::Action>| #[trigger]
        spent.contains((r, path)) ==> r < round && in_tree(origin, path) && !walk(
            origin,
            path,
        ).is_goal()
}

/// The expansions of one more round, added to those of the rounds before.
pub proof fn lemma_spend_round<S: State>(
    origin: S,
    spent: Set<(nat, Seq<S::Action>)>,
    round: nat,
    used: nat,
    expanded: Set<Seq<S::Action>>,
)
    requires
        spent_before(origin, spent, round, used),
        expanded.finite(),
        forall|path: Seq<S::Action>| #[trigger]
            expanded.contains(path) ==> in_tree(origin, path) && !walk(origin, path).is_goal(),
    ensures
        spent_before(
            origin,
            spent.union(tagged(round, expanded)),
            round + 1,
            used + expanded.len(),
        ),
        forall|r: nat, path: Seq<S::Action>| #[trigger]
            spent.union(tagged(round, expanded)).contains((r, path)) ==> spent.contains((r, path))
                || (r == round && expanded.contains(path)),
{
    lemma_tagged(round, expanded);
    let marked = tagged(round, expanded);
    assert(spent.disjoint(marked)) by {
        assert forall|x: (nat, Seq<S::Action>)| !(spent.contains(x) && marked.contains(x)) by {
            if spent.contains(x) && marked.contains(x) {
                assert(spent.contains((x.0, x.1)));
                assert(marked.contains((x.0, x.1)));
            }
        }
    }
    vstd::set_lib::lemma_set_disjoint_lens(spent, marked);
}

/// Whether `spent` accounts for a budget that depth-limited passes under
/// the limits from 1 on have used up in the pass under the limit `last`:
/// it holds, for each node that was expanded, the limit of its pass and the
/// path that led to it. Each pass before the last has expanded every branch
/// that is no longer than its limit, and found no goal: no branch that ends
/// in a goal is shorter than `last`.
pub open spec fn spent_deepening<S: State>(
    origin: S,
    spent: Set<(nat, Seq<S::Action>)>,
    last: nat,
    budget: u64,
) -> bool {
    &&& spends(origin, spent, budget)
    &&& 1 <= last <= u32::MAX
    &&& forall|round: nat, path: Seq<S::Action>| #[trigger]
        spent.contains((round, path)) ==> 1 <= round <= last && path.len() <= round
    &&& forall|round: nat, path: Seq<S::Action>|
        1 <= round < last && in_tree(origin, path) && path.len() <= round ==> #[trigger] spent.contains(
            (round, path),
        )
    &&& forall|branch: Seq<S::Action>|
        in_tree(origin, branch) && #[trigger] walk(origin, branch).is_goal() ==> last
            <= branch.len()
}

/// Depth-limited passes under a limit that grows by one from pass to pass,
/// from one on: finds a goal that is as shallow as any.
pub struct IterativeDeepeningSearch<S: State, F: Frontier<S>> {
    phantom_s: core::marker::PhantomData<S>,
    phantom_f: core::marker::PhantomData<F>,
}

impl<S: State, F: Frontier<S>> Search<S, F> for IterativeDeepeningSearch<S, F> {
    open spec fn explores(&self, origin: S, path: Seq<S::Action>) -> bool {
        in_tree(origin, path)
    }

    open spec fn name() -> Seq<char> {
        "IterativeDeepeningSearch"@
    }

    /// The limit is not looked at: there is one such strategy.
    open spec fn made_with(&self, limit: u64) -> bool {
        true
    }

    fn new(_limit: u64) -> (strategy: IterativeDeepeningSearch<S, F>) {
        IterativeDeepeningSearch {
            phantom_s: core::marker::PhantomData,
            phantom_f: core::marker::PhantomData,
        }
    }

    /// A search is cut off where the passes use up the budget before one
    /// of them finds a goal.
    open spec fn cut_off(&self, origin: S, budget: u64) -> bool {
        exists|spent: Set<(nat, Seq<S::Action>)>, last: nat| #[trigger]
            spent_deepening(origin, spent, last, budget)
    }

    /// The budget is that of all passes together. Where the pass under the
    /// greatest depth that a node can have finds nothing, no further pass
    /// could find anything, and the search ends.
    fn search(&mut self, start_state: S, budget: u64) -> (result: Result<
        Option<Solution<S>>,
        OutOfBudget,
    >)
        ensures
            result matches Ok(Some(solution)) ==> forall|path: Seq<S::Action>|
                in_tree(start_state, path) && #[trigger] walk(start_state, path).is_goal()
                    ==> solution.path().len() <= path.len(),
    {
        let mut depth: u32 = 1;
        let mut left: u64 = budget;
        let ghost mut spent: Set<(nat, Seq<S::Action>)> = Set::empty();
        loop
            invariant
                start_state.wf(),
                1 <= depth,
                left <= budget,
                spent_before(start_state, spent, depth as nat, (budget - left) as nat),
                forall|round: nat, path: Seq<S::Action>| #[trigger]
                    spent.contains((round, path)) ==> 1 <= round && path.len() <= round,
                forall|round: nat, path: Seq<S::Action>|
                    1 <= round < depth && in_tree(start_state, path) && path.len() <= round
                        ==> #[trigger] spent.contains((round, path)),
                depth > 1 ==> forall|path: Seq<S::Action>|
                    in_tree(start_state, path) && path.len() < depth ==> !(#[trigger] walk(
                        start_state,
                        path,
                    )).is_goal(),
            decreases u32::MAX - depth,
        {
            let mut pass = DepthLimitedSearch::<S, F>::new(depth as u64);
            let ghost rule = pass;
            let (result, used) = tree_search::<S, F, DepthLimitedSearch<S, F>>(
                &mut pass,
                &start_state,
                left,
            );
            proof {
                assert forall|path: Seq<S::Action>|
                    reached::<S, DepthLimitedSearch<S, F>>(rule, start_state, path) == (in_tree(
                        start_state,
                        path,
                    ) && path.len() <= depth) by {
                    rule.lemma_reaches_to_depth(start_state, path);
                }
            }
            match result {
                Ok(Some(solution)) => {
                    return Ok(Some(solution));
                },
                Err(e) => {
                    proof {
                        let expanded = choose|expanded: Set<Seq<S::Action>>|
                            uses_up::<S, DepthLimitedSearch<S, F>>(
                                rule,
                                start_state,
                                expanded,
                                left,
                            );
                        lemma_spend_round(
                            start_state,
                            spent,
                            depth as nat,
                            (budget - left) as nat,
                            expanded,
                        );
                        let all = spent.union(tagged(depth as nat, expanded));
                        assert(spends(start_state, all, budget));
                        assert forall|branch: Seq<S::Action>|
                            in_tree(start_state, branch) && #[trigger] walk(
                                start_state,
                                branch,
                            ).is_goal() implies depth <= branch.len() by {
                            if branch.len() == 0 {
                                assert(branch =~= Seq::<S::Action>::empty());
                            }
                        }
                        assert(spent_deepening(start_state, all, depth as nat, budget));
                    }
                    return Err(e);
                },
                Ok(None) => {
                    proof {
                        let expanded = reach::<S, DepthLimitedSearch<S, F>>(rule, start_state);
                        lemma_spend_round(
                            start_state,
                            spent,
                            depth as nat,
                            (budget - left) as nat,
                            expanded,
                        );
                        lemma_tagged(depth as nat, expanded);
                        let all = spent.union(tagged(depth as nat, expanded));
                        assert forall|round: nat, path: Seq<S::Action>|
                            1 <= round < depth + 1 && in_tree(start_state, path) && path.len()
                                <= round implies #[trigger] all.contains((round, path)) by {
                            if round == depth {
                                assert(expanded.contains(path));
                                assert(tagged(depth as nat, expanded).contains((round, path)));
                            }
                        }
                        spent = all;
                    }
                    left = left - used;
                    if depth == u32::MAX {
                        proof {
                            assert forall|path: Seq<S::Action>| #[trigger]
                                in_tree(start_state, path) implies !walk(
                                start_state,
                                path,
                            ).is_goal() by {
                                crate::state::lemma_in_tree_depth(start_state, path);
                            }
                        }
                        return Ok(None);
                    }
                    depth = depth + 1;
                },
            }
        }
    }

    fn to_string(&self) -> (s: String) {
        String::from_str("IterativeDeepeningSearch")
    }
}

/// Best-first search down to a depth: the nodes of the lowest evaluation
/// first. With a limit that no depth reaches this is A*.
pub type AStarSearch<S> = DepthLimitedSearch<S, PriorityQueueFrontier<S>>;

/// Iterative deepening, the nodes that were found last first.
pub type IterativeDeepeningDepthFirstSearch<S> = IterativeDeepeningSearch<S, StackFrontier<S>>;

/// Explores the tree as far as the evaluation of the nodes stays within a
/// limit: leaves out the nodes whose evaluation is above it, and notes the
/// lowest evaluation among them.
pub struct EvaluationLimitedSearch<S: State, F: Frontier<S>> {
    evaluation_limit: u64,
    lowest_evaluation_above_limit: Option<u64>,
    phantom_s: core::marker::PhantomData<S>,
    phantom_f: core::marker::PhantomData<F>,
}

/// Whether the evaluation stays within `limit` all along `path`, the root
/// apart.
pub open spec fn within_evaluation<S: State>(limit: nat, origin: S, path: Seq<S::Action>) -> bool {
    forall|k: int| 1 <= k <= path.len() ==> evaluation_of(origin, #[trigger] path.take(k)) <= limit
}

impl<S: State, F: Frontier<S>> EvaluationLimitedSearch<S, F> {
    /// The greatest evaluation of a node that is not left out.
    pub closed spec fn evaluation_limit(&self) -> nat {
        self.evaluation_limit as nat
    }

    /// The lowest evaluation among the nodes that were left out, if any
    /// was.
    pub closed spec fn lowest_evaluation_above_limit(&self) -> Option<u64> {
        self.lowest_evaluation_above_limit
    }

    /// The paths that lead to the nodes which a pass that finds nothing has
    /// asked `prune` about: the branches of the tree that stay within the
    /// limit up to their last node.
    pub open spec fn judged_by_pass(&self, origin: S) -> Set<Seq<S::Action>> {
        candidates(origin, reach::<S, Self>(*self, origin))
    }

    /// A pass that leaves out the nodes above a limit reaches the branches
    /// of the tree along which the evaluation stays within it.
    pub proof fn lemma_reaches_within(self, origin: S, path: Seq<S::Action>)
        ensures
            reached::<S, Self>(self, origin, path) == (in_tree(origin, path) && within_evaluation(
                self.evaluation_limit(),
                origin,
                path,
            )),
        decreases path.len(),
    {
        let limit = self.evaluation_limit();
        if path.len() > 0 {
            let before = path.drop_last();
            self.lemma_reaches_within(origin, before);
            if in_tree(origin, path) && within_evaluation(limit, origin, path) {
                assert(path.take(path.len() as int) =~= path);
                assert forall|k: int| 1 <= k <= before.len() implies evaluation_of(
                    origin,
                    #[trigger] before.take(k),
                ) <= limit by {
                    assert(before.take(k) =~= path.take(k));
                }
            }
            if reached::<S, Self>(self, origin, path) {
                assert forall|k: int| 1 <= k <= path.len() implies evaluation_of(
                    origin,
                    #[trigger] path.take(k),
                ) <= limit by {
                    if k == path.len() {
                        assert(path.take(k) =~= path);
                    } else {
                        assert(before.take(k) =~= path.take(k));
                    }
                }
            }
        }
    }

    /// The bound tightens from pass to pass: the lowest evaluation that a
    /// pass has noted is above the limit of the pass, and it is the least
    /// evaluation of the nodes that the pass has left out.
    pub proof fn lemma_bound_tightens(self, origin: S, judged: Set<Seq<S::Action>>)
        requires
            self.has_judged(origin, judged),
        ensures
            match self.lowest_evaluation_above_limit() {
                None => forall|path: Seq<S::Action>| #[trigger]
                    judged.contains(path) ==> !self.rejects(origin, path),
                Some(lowest) => {
                    &&& lowest > self.evaluation_limit()
                    &&& exists|path: Seq<S::Action>| #[trigger]
                        judged.contains(path) && self.rejects(origin, path) && evaluation_of(
                            origin,
                            path,
                        ) == lowest
                    &&& forall|path: Seq<S::Action>| #[trigger]
                        judged.contains(path) && self.rejects(origin, path) ==> lowest
                            <= evaluation_of(origin, path)
                },
            },
    {
    }

    /// The nodes that a pass leaves out are those that it is asked about and
    /// whose evaluation is above its limit.
    pub proof fn lemma_left_out(self, origin: S, expanded: Set<Seq<S::Action>>)
        requires
            expanded_inv::<S, Self>(self, origin, expanded),
        ensures
            forall|path: Seq<S::Action>| #[trigger]
                candidates(origin, expanded).contains(path) && self.rejects(origin, path)
                    ==> left_out(origin, self.evaluation_limit(), path),
            expanded == reach::<S, Self>(self, origin) ==> forall|path: Seq<S::Action>| #[trigger]
                left_out(origin, self.evaluation_limit(), path) ==> candidates(
                    origin,
                    expanded,
                ).contains(path) && self.rejects(origin, path),
    {
        assert forall|path: Seq<S::Action>| #[trigger]
            candidates(origin, expanded).contains(path) && self.rejects(
                origin,
                path,
            ) implies left_out(origin, self.evaluation_limit(), path) by {
            self.lemma_reaches_within(origin, path.drop_last());
        }
        if expanded == reach::<S, Self>(self, origin) {
            assert forall|path: Seq<S::Action>| #[trigger]
                left_out(origin, self.evaluation_limit(), path) implies candidates(
                origin,
                expanded,
            ).contains(path) && self.rejects(origin, path) by {
                self.lemma_reaches_within(origin, path.drop_last());
                crate::state::lemma_in_tree_prefix(origin, path, path.len() - 1);
                assert(path.take(path.len() - 1) =~= path.drop_last());
            }
        }
    }

    /// The branches that a pass reaches are those within its limit.
    pub proof fn lemma_reach_is_within(self, origin: S)
        ensures
            reach::<S, Self>(self, origin) == within_limit(origin, self.evaluation_limit()),
    {
        assert forall|path: Seq<S::Action>|
            reach::<S, Self>(self, origin).contains(path) == within_limit(
                origin,
                self.evaluation_limit(),
            ).contains(path) by {
            self.lemma_reaches_within(origin, path);
        }
        assert(reach::<S, Self>(self, origin) =~= within_limit(origin, self.evaluation_limit()));
    }

    /// What a pass has noted when it has expanded the nodes of `expanded`:
    /// the lowest evaluation among the nodes that it has left out so far.
    pub proof fn lemma_noted(
        rule: Self,
        after: Self,
        origin: S,
        expanded: Set<Seq<S::Action>>,
        used: u64,
    )
        requires
            account::<S, F, Self>(rule, origin, expanded, used),
            after.has_judged(origin, candidates(origin, expanded)),
            after.evaluation_limit() == rule.evaluation_limit(),
        ensures
            spent_in_pass::<S, F>(
                origin,
                within_limit(origin, rule.evaluation_limit()),
                expanded,
                used,
            ),
            expanded.subset_of(within_limit(origin, rule.evaluation_limit())),
            forall|path: Seq<S::Action>| #[trigger]
                expanded.contains(path) ==> !walk(origin, path).is_goal(),
            used == 0 ==> after.lowest_evaluation_above_limit() is None,
            after.lowest_evaluation_above_limit() matches Some(lowest) ==> {
                &&& lowest > rule.evaluation_limit()
                &&& exists|path: Seq<S::Action>|
                    left_out(origin, rule.evaluation_limit(), path) && #[trigger] evaluation_of(
                        origin,
                        path,
                    ) == lowest
            },
    {
        reveal(account);
        let explored = within_limit(origin, rule.evaluation_limit());
        assert(explored =~= reach::<S, Self>(rule, origin)) by {
            assert forall|path: Seq<S::Action>|
                explored.contains(path) == reach::<S, Self>(rule, origin).contains(path) by {
                rule.lemma_reaches_within(origin, path);
            }
        }
        lemma_account::<S, F, Self>(rule, origin, explored, expanded, used);
        if used == 0 {
            assert(expanded =~= Set::<Seq<S::Action>>::empty());
            assert(candidates(origin, expanded) =~= Set::<Seq<S::Action>>::empty());
        }
        rule.lemma_left_out(origin, expanded);
        after.lemma_bound_tightens(origin, candidates(origin, expanded));
        if after.lowest_evaluation_above_limit() is Some {
            let lowest = after.lowest_evaluation_above_limit().unwrap();
            let witness = choose|path: Seq<S::Action>| #[trigger]
                candidates(origin, expanded).contains(path) && after.rejects(origin, path)
                    && evaluation_of(origin, path) == lowest;
            assert(rule.rejects(origin, witness));
            assert(left_out(origin, rule.evaluation_limit(), witness));
        }
    }

    /// What a pass has noted when it has found nothing: the lowest
    /// evaluation among all the nodes that a pass under its limit leaves
    /// out.
    pub proof fn lemma_noted_all(rule: Self, after: Self, origin: S)
        requires
            after.has_judged(origin, candidates(origin, reach::<S, Self>(rule, origin))),
            after.evaluation_limit() == rule.evaluation_limit(),
            forall|path: Seq<S::Action>| #[trigger]
                reached::<S, Self>(rule, origin, path) ==> !walk(origin, path).is_goal(),
        ensures
            match after.lowest_evaluation_above_limit() {
                None => forall|path: Seq<S::Action>|
                    !#[trigger] left_out(origin, rule.evaluation_limit(), path),
                Some(lowest) => forall|path: Seq<S::Action>|
                    left_out(origin, rule.evaluation_limit(), path) ==> lowest
                        <= #[trigger] evaluation_of(origin, path),
            },
    {
        let all = reach::<S, Self>(rule, origin);
        assert(expanded_inv::<S, Self>(rule, origin, all)) by {
            assert forall|path: Seq<S::Action>| #[trigger] all.contains(path) && path.len()
                > 0 implies all.contains(path.drop_last()) by {}
            assert forall|path: Seq<S::Action>| #[trigger] all.contains(path) implies !walk(
                origin,
                path,
            ).is_goal() by {
                assert(reached::<S, Self>(rule, origin, path));
            }
        }
        rule.lemma_left_out(origin, all);
        after.lemma_bound_tightens(origin, candidates(origin, all));
        assert forall|path: Seq<S::Action>|
            left_out(origin, rule.evaluation_limit(), path) implies candidates(origin, all).contains(
            path,
        ) && after.rejects(origin, path) by {}
    }

    /// The first branch to a goal that the frontier hands out, said of the
    /// branches within the limit.
    pub proof fn lemma_found_first(rule: Self, origin: S, path: Seq<S::Action>)
        requires
            ahead_of_goals::<S, F, Self>(rule, origin, path),
        ensures
            found_first::<S, F>(origin, within_limit(origin, rule.evaluation_limit()), path),
    {
        assert forall|branch: Seq<S::Action>| #[trigger]
            within_limit(origin, rule.evaluation_limit()).contains(branch) && walk(
                origin,
                branch,
            ).is_goal() implies ahead::<S, F>(origin, path, branch) by {
            rule.lemma_reaches_within(origin, branch);
        }
    }

    /// Where a pass that found nothing has left out no node, it has reached
    /// every branch of the tree.
    pub proof fn lemma_nothing_left_out(self, rule: Self, origin: S, path: Seq<S::Action>)
        requires
            self.same_rule(&rule),
            self.has_judged(origin, rule.judged_by_pass(origin)),
            self.lowest_evaluation_above_limit() is None,
            in_tree(origin, path),
        ensures
            reached::<S, Self>(rule, origin, path),
        decreases path.len(),
    {
        if path.len() > 0 {
            self.lemma_nothing_left_out(rule, origin, path.drop_last());
            assert(reach::<S, Self>(rule, origin).contains(path.drop_last()));
            assert(rule.judged_by_pass(origin).contains(path));
        }
    }

    pub fn get_lowest_evaluation_above_limit(&self) -> (lowest: Option<u64>)
        ensures
            lowest == self.lowest_evaluation_above_limit(),
    {
        self.lowest_evaluation_above_limit
    }
}

impl<S: State, F: Frontier<S>> Pruning<S> for EvaluationLimitedSearch<S, F> {
    open spec fn rejects(&self, origin: S, path: Seq<S::Action>) -> bool {
        evaluation_of(origin, path) > self.evaluation_limit()
    }

    open spec fn has_judged(&self, origin: S, judged: Set<Seq<S::Action>>) -> bool {
        match self.lowest_evaluation_above_limit() {
            None => forall|path: Seq<S::Action>| #[trigger]
                judged.contains(path) ==> evaluation_of(origin, path) <= self.evaluation_limit(),
            Some(lowest) => {
                &&& lowest > self.evaluation_limit()
                &&& exists|path: Seq<S::Action>| #[trigger]
                    judged.contains(path) && evaluation_of(origin, path) == lowest
                &&& forall|path: Seq<S::Action>| #[trigger]
                    judged.contains(path) && evaluation_of(origin, path) > self.evaluation_limit()
                        ==> lowest <= evaluation_of(origin, path)
            },
        }
    }

    open spec fn same_rule(&self, other: &Self) -> bool {
        self.evaluation_limit() == other.evaluation_limit()
    }

    proof fn lemma_same_rule(a: &Self, b: &Self, c: &Self) {
    }

    fn prune(&mut self, node: &Node<S>) -> (rejected: bool)
        ensures
            final(self).evaluation_limit() == old(self).evaluation_limit(),
            final(self).lowest_evaluation_above_limit() == if !rejected {
                old(self).lowest_evaluation_above_limit()
            } else {
                match old(self).lowest_evaluation_above_limit() {
                    Some(lowest) if lowest <= node.evaluation() => Some(lowest),
                    _ => Some(node.evaluation() as u64),
                }
            },
    {
        let eval = node.eval();
        let ghost origin = node.origin();
        let ghost path = node.path();
        let ghost before = *self;
        proof {
            node.lemma_cost_depth_consistency();
            assert(eval == evaluation_of(origin, path));
        }
        if eval > self.evaluation_limit {
            let lowest = match self.lowest_evaluation_above_limit {
                Some(lowest) => if lowest <= eval {
                    lowest
                } else {
                    eval
                },
                None => eval,
            };
            self.lowest_evaluation_above_limit = Some(lowest);
            proof {
                assert forall|judged: Set<Seq<S::Action>>| #[trigger]
                    before.has_judged(origin, judged) implies self.has_judged(
                    origin,
                    judged.insert(path),
                ) by {
                    let grown = judged.insert(path);
                    if lowest == eval {
                        assert(grown.contains(path) && evaluation_of(origin, path) == lowest);
                    } else {
                        let witness = choose|p: Seq<S::Action>| #[trigger]
                            judged.contains(p) && evaluation_of(origin, p) == lowest;
                        assert(grown.contains(witness) && evaluation_of(origin, witness) == lowest);
                    }
                }
            }
            true
        } else {
            proof {
                assert forall|judged: Set<Seq<S::Action>>| #[trigger]
                    before.has_judged(origin, judged) implies self.has_judged(
                    origin,
                    judged.insert(path),
                ) by {
                    let grown = judged.insert(path);
                    if before.lowest_evaluation_above_limit() is Some {
                        let lowest = before.lowest_evaluation_above_limit().unwrap();
                        let witness = choose|p: Seq<S::Action>| #[trigger]
                            judged.contains(p) && evaluation_of(origin, p) == lowest;
                        assert(grown.contains(witness) && evaluation_of(origin, witness) == lowest);
                    }
                }
            }
            false
        }
    }
}

impl<S: State, F: Frontier<S>> Search<S, F> for EvaluationLimitedSearch<S, F> {
    open spec fn explores(&self, origin: S, path: Seq<S::Action>) -> bool {
        in_tree(origin, path) && within_evaluation(self.evaluation_limit(), origin, path)
    }

    open spec fn name() -> Seq<char> {
        "HeuristicLimitedSearch"@
    }

    /// The evaluation limit is `limit`, and nothing is noted yet.
    open spec fn made_with(&self, limit: u64) -> bool {
        self.evaluation_limit() == limit && self.lowest_evaluation_above_limit() is None
    }

    /// A search is cut off where a pass within the evaluation limit uses up
    /// the budget before the frontier hands out a goal.
    open spec fn cut_off(&self, origin: S, budget: u64) -> bool {
        cut_short::<S, F>(origin, within_limit(origin, self.evaluation_limit()), budget)
    }

    fn new(limit: u64) -> (strategy: EvaluationLimitedSearch<S, F>)
        ensures
            strategy.evaluation_limit() == limit,
            strategy.lowest_evaluation_above_limit() is None,
    {
        EvaluationLimitedSearch {
            evaluation_limit: limit,
            lowest_evaluation_above_limit: None,
            phantom_s: core::marker::PhantomData,
            phantom_f: core::marker::PhantomData,
        }
    }

    /// Forgets what an earlier search has noted. Afterwards the lowest
    /// evaluation that is noted is that of a node which the search has left
    /// out; where the search finds nothing, it is the least among the nodes
    /// that a pass under the limit leaves out.
    fn search(&mut self, start_state: S, budget: u64) -> (result: Result<
        Option<Solution<S>>,
        OutOfBudget,
    >)
        ensures
            final(self).evaluation_limit() == old(self).evaluation_limit(),
            final(self).lowest_evaluation_above_limit() matches Some(lowest) ==> {
                &&& lowest > old(self).evaluation_limit()
                &&& exists|path: Seq<S::Action>|
                    left_out(start_state, old(self).evaluation_limit(), path)
                        && #[trigger] evaluation_of(start_state, path) == lowest
            },
            result matches Ok(None) ==> match final(self).lowest_evaluation_above_limit() {
                None => forall|path: Seq<S::Action>|
                    !#[trigger] left_out(start_state, old(self).evaluation_limit(), path),
                Some(lowest) => forall|path: Seq<S::Action>|
                    left_out(start_state, old(self).evaluation_limit(), path) ==> lowest
                        <= #[trigger] evaluation_of(start_state, path),
            },
            result matches Ok(None) ==> final(self).has_judged(
                start_state,
                old(self).judged_by_pass(start_state),
            ),
            result matches Ok(Some(solution)) ==> found_first::<S, F>(
                start_state,
                within_limit(start_state, old(self).evaluation_limit()),
                solution.path(),
            ),
            start_state.is_goal() ==> final(self).lowest_evaluation_above_limit() is None,
            exists|expanded: Set<Seq<S::Action>>|
                {
                    &&& #[trigger] final(self).has_judged(
                        start_state,
                        candidates(start_state, expanded),
                    )
                    &&& expanded.subset_of(
                        within_limit(start_state, old(self).evaluation_limit()),
                    )
                    &&& forall|path: Seq<S::Action>| #[trigger]
                        expanded.contains(path) ==> !walk(start_state, path).is_goal()
                },
    {
        self.lowest_evaluation_above_limit = None;
        let ghost rule = *self;
        let (result, used) = tree_search::<S, F, Self>(self, &start_state, budget);
        proof {
            let expanded = choose|expanded: Set<Seq<S::Action>>|
                {
                    &&& #[trigger] account::<S, F, Self>(rule, start_state, expanded, used)
                    &&& self.has_judged(start_state, candidates(start_state, expanded))
                };
            Self::lemma_noted(rule, *self, start_state, expanded, used);
            if result matches Ok(None) {
                Self::lemma_noted_all(rule, *self, start_state);
            }
            if result is Ok && result->Ok_0 is Some {
                Self::lemma_found_first(rule, start_state, result->Ok_0->Some_0.path());
            }
        }
        proof {
            rule.lemma_reach_is_within(start_state);
            old(self).lemma_reach_is_within(start_state);
            if result is Ok && result->Ok_0 is Some {
                rule.lemma_reaches_within(start_state, result->Ok_0->Some_0.path());
            }
            if result is Ok && result->Ok_0 is None {
                assert forall|path: Seq<S::Action>| #[trigger]
                    old(self).explores(start_state, path) implies !walk(
                    start_state,
                    path,
                ).is_goal() by {
                    assert(within_limit(start_state, rule.evaluation_limit()).contains(path));
                    assert(reach::<S, Self>(rule, start_state).contains(path));
                    assert(reached::<S, Self>(rule, start_state, path));
                }
            }
        }
        result
    }

    fn to_string(&self) -> (s: String) {
        String::from_str("HeuristicLimitedSearch")
    }
}

/// Evaluation-limited passes, each under the lowest evaluation that the
/// pass before it has left out, from the estimate for the start state on.
pub struct IterativeDeepeningEvaluationSearch<S: State, F: Frontier<S>> {
    phantom_s: core::marker::PhantomData<S>,
    phantom_f: core::marker::PhantomData<F>,
}

/// How a pass of the iterative-deepening evaluation search ended.
pub enum Pass<S: State> {
    /// The pass found a goal.
    Found(Solution<S>),
    /// The pass found nothing and left out nodes; the next pass runs under
    /// the limit given here.
    Raised(u64),
    /// The pass found nothing and left out nothing.
    Exhausted,
    /// The pass used up its budget.
    Interrupted,
}

/// Whether a pass under `limit` finds nothing and raises the limit to
/// `next`: no branch on which the evaluation stays within `limit` ends in a
/// goal, and `next` is the lowest evaluation of the nodes that the pass
/// leaves out.
pub open spec fn raised<S: State>(origin: S, limit: nat, next: nat) -> bool {
    &&& forall|path: Seq<S::Action>| #[trigger]
        within_limit(origin, limit).contains(path) ==> !walk(origin, path).is_goal()
    &&& exists|path: Seq<S::Action>|
        left_out(origin, limit, path) && #[trigger] evaluation_of(origin, path) == next
    &&& forall|path: Seq<S::Action>|
        left_out(origin, limit, path) ==> next <= #[trigger] evaluation_of(origin, path)
}

/// Whether `limits` are the limits of the passes of a search from `origin`,
/// one after the other: the first is the estimate for `origin`, and each
/// pass but the last has found nothing and raised the limit to the next.
pub open spec fn passes<S: State>(origin: S, limits: Seq<nat>) -> bool {
    &&& limits.len() > 0
    &&& limits[0] == origin.estimate()
    &&& forall|i: int|
        0 <= i < limits.len() - 1 ==> raised(origin, #[trigger] limits[i], limits[i + 1])
}

/// Whether `spent` accounts for a budget that the passes under `limits`
/// have used up in the last of them: it holds, for each node that was
/// expanded, the number of its pass and the path that led to it. Each pass
/// before the last has expanded every branch on which the evaluation stays
/// within its limit.
pub open spec fn spent_tightening<S: State>(
    origin: S,
    spent: Set<(nat, Seq<S::Action>)>,
    limits: Seq<nat>,
    budget: u64,
) -> bool {
    &&& spends(origin, spent, budget)
    &&& passes(origin, limits)
    &&& forall|round: nat, path: Seq<S::Action>| #[trigger]
        spent.contains((round, path)) ==> round < limits.len() && within_limit(
            origin,
            limits[round as int],
        ).contains(path)
    &&& forall|round: nat, path: Seq<S::Action>|
        round + 1 < limits.len() && within_limit(origin, limits[round as int]).contains(path)
            ==> #[trigger] spent.contains((round, path))
}

/// The paths that a pass under `limit` reaches from `origin`: the branches of
/// the tree along which the evaluation stays within the limit.
pub open spec fn within_limit<S: State>(origin: S, limit: nat) -> Set<Seq<S::Action>> {
    Set::new(
        |path: Seq<S::Action>| in_tree(origin, path) && within_evaluation(limit, origin, path),
    )
}

/// Whether a pass under `limit` leaves out the node that `path` leads to
/// from `origin`: the pass reaches the node above it, and its own evaluation
/// is above the limit.
pub open spec fn left_out<S: State>(origin: S, limit: nat, path: Seq<S::Action>) -> bool {
    &&& path.len() > 0
    &&& in_tree(origin, path)
    &&& within_evaluation(limit, origin, path.drop_last())
    &&& evaluation_of(origin, path) > limit
}

impl<S: State, F: Frontier<S>> IterativeDeepeningEvaluationSearch<S, F> {
    /// One pass under `limit`, with the number of nodes that it expanded.
    ///
    /// The bound tightens: where the pass finds nothing, the limit for the
    /// next pass is above the limit of this one, and it is the lowest
    /// evaluation of the nodes that this pass has left out.
    pub fn pass(start_state: &S, limit: u64, budget: u64) -> (outcome: (Pass<S>, u64))
        requires
            start_state.wf(),
        ensures
            outcome.1 <= budget,
            start_state.is_goal() ==> (outcome.0 matches Pass::Found(solution)
                && solution.path().len() == 0),
            match outcome.0 {
                Pass::Found(solution) => {
                    &&& solution.start_state() == *start_state
                    &&& solution.final_state() == walk(*start_state, solution.path())
                    &&& solution.final_state().is_goal()
                    &&& within_limit(*start_state, limit as nat).contains(solution.path())
                    &&& solution.wf()
                    &&& never_undoes(*start_state, solution.path())
                },
                Pass::Raised(next) => {
                    &&& next > limit
                    &&& exists|path: Seq<S::Action>|
                        left_out(*start_state, limit as nat, path) && #[trigger] evaluation_of(
                            *start_state,
                            path,
                        ) == next
                    &&& forall|path: Seq<S::Action>|
                        left_out(*start_state, limit as nat, path) ==> next
                            <= #[trigger] evaluation_of(*start_state, path)
                    &&& forall|path: Seq<S::Action>| #[trigger]
                        within_limit(*start_state, limit as nat).contains(path) ==> !walk(
                            *start_state,
                            path,
                        ).is_goal()
                    &&& within_limit(*start_state, limit as nat).finite()
                    &&& within_limit(*start_state, limit as nat).len() == outcome.1
                },
                Pass::Exhausted => {
                    &&& forall|path: Seq<S::Action>| #[trigger]
                        in_tree(*start_state, path) ==> !walk(*start_state, path).is_goal()
                    &&& forall|path: Seq<S::Action>| #[trigger]
                        in_tree(*start_state, path) ==> within_limit(
                            *start_state,
                            limit as nat,
                        ).contains(path)
                    &&& within_limit(*start_state, limit as nat).finite()
                    &&& within_limit(*start_state, limit as nat).len() == outcome.1
                },
                Pass::Interrupted => {
                    &&& outcome.1 == budget
                    &&& exists|expanded: Set<Seq<S::Action>>|
                        {
                            &&& #[trigger] spends_at_once(*start_state, expanded, budget)
                            &&& expanded.subset_of(within_limit(*start_state, limit as nat))
                        }
                },
            },
    {
        let mut pass = EvaluationLimitedSearch::<S, F>::new(limit);
        let ghost rule = pass;
        let (result, used) = tree_search::<S, F, EvaluationLimitedSearch<S, F>>(
            &mut pass,
            start_state,
            budget,
        );
        let ghost origin = *start_state;
        proof {
            assert forall|path: Seq<S::Action>|
                reached::<S, EvaluationLimitedSearch<S, F>>(rule, origin, path) == (in_tree(
                    origin,
                    path,
                ) && within_evaluation(limit as nat, origin, path)) by {
                rule.lemma_reaches_within(origin, path);
            }
            assert(reach::<S, EvaluationLimitedSearch<S, F>>(rule, origin) =~= within_limit(
                origin,
                limit as nat,
            ));
        }
        match result {
            Ok(Some(solution)) => {
                proof {
                    rule.lemma_reaches_within(origin, solution.path());
                }
                (Pass::Found(solution), used)
            },
            Err(_) => {
                proof {
                    let expanded = choose|expanded: Set<Seq<S::Action>>|
                        uses_up::<S, EvaluationLimitedSearch<S, F>>(
                            rule,
                            origin,
                            expanded,
                            budget,
                        );
                    assert(spends_at_once(origin, expanded, budget));
                    assert(expanded.subset_of(within_limit(origin, limit as nat)));
                }
                (Pass::Interrupted, used)
            },
            Ok(None) => {
                let ghost judged = rule.judged_by_pass(origin);
                proof {
                    pass.lemma_bound_tightens(origin, judged);
                    assert(expanded_inv::<S, EvaluationLimitedSearch<S, F>>(
                        rule,
                        origin,
                        reach::<S, EvaluationLimitedSearch<S, F>>(rule, origin),
                    )) by {
                        assert forall|path: Seq<S::Action>| #[trigger]
                            reach::<S, EvaluationLimitedSearch<S, F>>(rule, origin).contains(
                                path,
                            ) && path.len() > 0 implies reach::<S, EvaluationLimitedSearch<S, F>>(
                            rule,
                            origin,
                        ).contains(path.drop_last()) by {}
                    }
                    rule.lemma_left_out(
                        origin,
                        reach::<S, EvaluationLimitedSearch<S, F>>(rule, origin),
                    );
                }
                match pass.get_lowest_evaluation_above_limit() {
                    None => {
                        proof {
                            assert forall|path: Seq<S::Action>| #[trigger]
                                in_tree(origin, path) implies !walk(origin, path).is_goal()
                                && within_limit(origin, limit as nat).contains(path) by {
                                pass.lemma_nothing_left_out(rule, origin, path);
                            }
                        }
                        (Pass::Exhausted, used)
                    },
                    Some(lowest) => {
                        proof {
                            let witness = choose|path: Seq<S::Action>| #[trigger]
                                judged.contains(path) && pass.rejects(origin, path)
                                    && evaluation_of(origin, path) == lowest;
                            assert(left_out(origin, limit as nat, witness));
                            assert forall|path: Seq<S::Action>|
                                left_out(origin, limit as nat, path) implies lowest
                                <= #[trigger] evaluation_of(origin, path) by {
                                assert(judged.contains(path) && pass.rejects(origin, path));
                            }
                        }
                        (Pass::Raised(lowest), used)
                    },
                }
            },
        }
    }
}

impl<S: State, F: Frontier<S>> Search<S, F> for IterativeDeepeningEvaluationSearch<S, F> {
    open spec fn explores(&self, origin: S, path: Seq<S::Action>) -> bool {
        in_tree(origin, path)
    }

    open spec fn name() -> Seq<char> {
        "IterativeDeepeningEvaluationSearch"@
    }

    /// The limit is not looked at: there is one such strategy.
    open spec fn made_with(&self, limit: u64) -> bool {
        true
    }

    fn new(_limit: u64) -> (strategy: IterativeDeepeningEvaluationSearch<S, F>) {
        IterativeDeepeningEvaluationSearch {
            phantom_s: core::marker::PhantomData,
            phantom_f: core::marker::PhantomData,
        }
    }

    /// A search is cut off where the passes use up the budget before one
    /// of them finds a goal.
    open spec fn cut_off(&self, origin: S, budget: u64) -> bool {
        exists|spent: Set<(nat, Seq<S::Action>)>, limits: Seq<nat>| #[trigger]
            spent_tightening(origin, spent, limits, budget)
    }

    /// The budget is that of all passes together. Where a pass finds
    /// nothing and has left out no node, no further pass could find
    /// anything, and the search ends. A solution is found by the first pass
    /// whose limit admits a goal: along it the evaluation stays within that
    /// limit.
    fn search(&mut self, start_state: S, budget: u64) -> (result: Result<
        Option<Solution<S>>,
        OutOfBudget,
    >)
        ensures
            result matches Ok(Some(solution)) ==> exists|limits: Seq<nat>|
                #[trigger] passes(start_state, limits) && within_limit(
                    start_state,
                    limits.last(),
                ).contains(solution.path()),
    {
        let mut limit: u64 = start_state.heuristic() as u64;
        let mut left: u64 = budget;
        let ghost mut spent: Set<(nat, Seq<S::Action>)> = Set::empty();
        let ghost mut round: nat = 0;
        let ghost mut limits: Seq<nat> = seq![limit as nat];
        loop
            invariant
                start_state.wf(),
                left <= budget,
                spent_before(start_state, spent, round, (budget - left) as nat),
                limits.len() == round + 1,
                limits[round as int] == limit,
                passes(start_state, limits),
                forall|r: nat, path: Seq<S::Action>| #[trigger]
                    spent.contains((r, path)) ==> within_limit(
                        start_state,
                        limits[r as int],
                    ).contains(path),
                forall|r: nat, path: Seq<S::Action>|
                    r < round && within_limit(start_state, limits[r as int]).contains(path)
                        ==> #[trigger] spent.contains((r, path)),
            decreases u64::MAX - limit,
        {
            let (outcome, used) = Self::pass(&start_state, limit, left);
            match outcome {
                Pass::Found(solution) => {
                    proof {
                        assert(limits.last() == limit);
                    }
                    return Ok(Some(solution));
                },
                Pass::Interrupted => {
                    proof {
                        let expanded = choose|expanded: Set<Seq<S::Action>>|
                            {
                                &&& #[trigger] spends_at_once(start_state, expanded, left)
                                &&& expanded.subset_of(within_limit(start_state, limit as nat))
                            };
                        lemma_spend_round(
                            start_state,
                            spent,
                            round,
                            (budget - left) as nat,
                            expanded,
                        );
                        let all = spent.union(tagged(round, expanded));
                        assert(spends(start_state, all, budget));
                        assert forall|r: nat, path: Seq<S::Action>| #[trigger]
                            all.contains((r, path)) implies r < limits.len() && within_limit(
                            start_state,
                            limits[r as int],
                        ).contains(path) by {
                            if !spent.contains((r, path)) {
                                assert(expanded.contains(path));
                            }
                        }
                        assert(spent_tightening(start_state, all, limits, budget));
                    }
                    return Err(OutOfBudget);
                },
                Pass::Exhausted => {
                    return Ok(None);
                },
                Pass::Raised(next) => {
                    proof {
                        let expanded = within_limit(start_state, limit as nat);
                        lemma_spend_round(
                            start_state,
                            spent,
                            round,
                            (budget - left) as nat,
                            expanded,
                        );
                        lemma_tagged(round, expanded);
                        let all = spent.union(tagged(round, expanded));
                        let raised_limits = limits.push(next as nat);
                        assert forall|r: nat, path: Seq<S::Action>| #[trigger]
                            all.contains((r, path)) implies within_limit(
                            start_state,
                            raised_limits[r as int],
                        ).contains(path) by {
                            if !spent.contains((r, path)) {
                                assert(expanded.contains(path));
                            }
                        }
                        assert forall|r: nat, path: Seq<S::Action>|
                            r < round + 1 && within_limit(
                                start_state,
                                raised_limits[r as int],
                            ).contains(path) implies #[trigger] all.contains((r, path)) by {
                            if r == round {
                                assert(tagged(round, expanded).contains((r, path)));
                            } else {
                                assert(spent.contains((r, path)));
                            }
                        }
                        assert(raised(start_state, limit as nat, next as nat));
                        assert forall|i: int|
                            0 <= i < raised_limits.len() - 1 implies raised(
                            start_state,
                            #[trigger] raised_limits[i],
                            raised_limits[i + 1],
                        ) by {
                            if i < limits.len() - 1 {
                                assert(raised(start_state, limits[i], limits[i + 1]));
                            }
                        }
                        spent = all;
                        round = round + 1;
                        limits = raised_limits;
                    }
                    left = left - used;
                    limit = next;
                },
            }
        }
    }

    fn to_string(&self) -> (s: String) {
        String::from_str("IterativeDeepeningEvaluationSearch")
    }
}

/// Iterative-deepening A*: the evaluation-limited passes, the nodes that
/// were found last first.
pub type IterativeDeepeningAStarSearch<S> = IterativeDeepeningEvaluationSearch<
    S,
    StackFrontier<S>,
>;

} // verus!
