//! The expansion loop that the strategies share, and what holds while it
//! runs.
use vstd::prelude::*;
use vstd::multiset::Multiset;
use std::rc::Rc;
use crate::action::Action;
use crate::state::{State, walk, in_tree, never_undoes};
use crate::node::{Node, share};
use crate::frontier::Frontier;
use crate::search::{
    Pruning,
    Solution,
    OutOfBudget,
    reached,
    candidates,
    lemma_reached_in_tree,
    lemma_reached_prefix,
};

verus! {

/// Whether a node that was reached by `path` is among `contents`.
pub open spec fn waiting<S: State>(contents: Multiset<Node<S>>, path: Seq<S::Action>) -> bool {
    exists|n: Node<S>| #[trigger] contents.count(n) > 0 && n.path() == path
}

/// Whether `n` is a node that a pass of `rule` puts on the frontier when it
/// expands `parent`.
pub open spec fn heir<S: State, P: Pruning<S>>(
    rule: P,
    parent: Node<S>,
    n: Node<S>,
) -> bool {
    &&& n.wf()
    &&& n.origin() == parent.origin()
    &&& n.path().len() > 0
    &&& n.path().drop_last() == parent.path()
    &&& reached::<S, P>(rule, n.origin(), n.path())
}

/// Whether `a` is one of the first `i` of `actions`.
pub open spec fn among<A>(actions: Seq<A>, i: int, a: A) -> bool {
    exists|j: int| 0 <= j < i && #[trigger] actions[j] == a
}

/// The branches of the tree that continue `path` by one of the first `i`
/// of `actions`.
pub open spec fn asked<S: State>(
    origin: S,
    path: Seq<S::Action>,
    actions: Seq<S::Action>,
    i: int,
) -> Set<Seq<S::Action>> {
    Set::new(
        |p: Seq<S::Action>|
            p.len() > 0 && p.drop_last() == path && in_tree(origin, p) && among(
                actions,
                i,
                p.last(),
            ),
    )
}

/// Puts on the frontier the nodes that the legal actions lead to from
/// `node`, but for those that lead back to the state above `node` and those
/// that the strategy leaves out.
fn expand<S: State, F: Frontier<S>, P: Pruning<S>>(
    strategy: &mut P,
    frontier: &mut F,
    node: Node<S>,
    Ghost(rule): Ghost<P>,
    Ghost(judged): Ghost<Set<Seq<S::Action>>>,
)
    requires
        old(strategy).same_rule(&rule),
        old(strategy).has_judged(node.origin(), judged),
        old(frontier).wf(),
        old(frontier).orderly(node.depth()),
        node.wf(),
        reached::<S, P>(rule, node.origin(), node.path()),
    ensures
        final(frontier).orderly(node.depth()),
        final(strategy).same_rule(&rule),
        final(strategy).has_judged(
            node.origin(),
            judged.union(candidates(node.origin(), set![node.path()])),
        ),
        final(frontier).wf(),
        forall|n: Node<S>| #[trigger]
            final(frontier).contents().count(n) == old(frontier).contents().count(n) + (if heir::<S, P>(rule, node, n) {
                1nat
            } else {
                0nat
            }),
        forall|a: S::Action|
            reached::<S, P>(rule, node.origin(), #[trigger] node.path().push(a)) ==> waiting(
                final(frontier).contents(),
                node.path().push(a),
            ),
{
    let ghost origin = node.origin();
    let ghost q = node.path();
    let ghost f0 = frontier.contents();
    let ghost parent = node;
    proof {
        node.lemma_cost_depth_consistency();
        node.lemma_shape();
        S::lemma_legal_actions(&node.state());
        lemma_reached_in_tree::<S, P>(rule, origin, q);
    }
    if node.get_depth() == u32::MAX {
        proof {
            assert(judged.union(candidates(origin, set![q])) =~= judged) by {
                assert forall|p: Seq<S::Action>| !candidates(origin, set![q]).contains(p) by {
                    if p.len() > 0 && p.drop_last() == q {
                        assert(p.len() == q.len() + 1);
                    }
                }
            }
            assert forall|n: Node<S>| !heir::<S, P>(rule, parent, n) by {
                if n.path().len() > 0 && n.path().drop_last() == q {
                    assert(n.path().len() == q.len() + 1);
                }
            }
            assert forall|a: S::Action| !reached::<S, P>(rule, origin, #[trigger] q.push(a)) by {
                assert(q.push(a).len() == q.len() + 1);
            }
        }
        return ;
    }
    let actions = node.get_possible_actions();
    let rc_node = Rc::new(node);
    let mut i: usize = 0;
    proof {
        assert(judged.union(asked(origin, q, actions@, 0)) =~= judged);
    }
    while i < actions.len()
        invariant
            0 <= i <= actions.len(),
            *rc_node == parent,
            parent.wf(),
            parent.origin() == origin,
            parent.path() == q,
            parent.depth() == q.len(),
            parent.depth() < u32::MAX,
            parent.state() == walk(origin, q),
            parent.state().wf(),
            in_tree(origin, q),
            reached::<S, P>(rule, origin, q),
            actions@ == parent.state().legal_actions(),
            actions@.no_duplicates(),
            strategy.same_rule(&rule),
            frontier.wf(),
            frontier.orderly(parent.depth()),
            strategy.has_judged(origin, judged.union(asked(origin, q, actions@, i as int))),
            forall|n: Node<S>| #[trigger]
                frontier.contents().count(n) == f0.count(n) + (if heir::<S, P>(rule, parent, n)
                    && among(actions@, i as int, n.path().last()) {
                    1nat
                } else {
                    0nat
                }),
            forall|j: int|
                0 <= j < i && reached::<S, P>(rule, origin, q.push(#[trigger] actions@[j]))
                    ==> waiting(frontier.contents(), q.push(actions@[j])),
        decreases actions.len() - i,
    {
        let ghost before = frontier.contents();
        let ghost a = actions@[i as int];
        let ghost c = q.push(a);
        proof {
            assert(parent.state().legal_actions().contains(a));
            assert(c.drop_last() =~= q);
            assert(!among(actions@, i as int, a)) by {
                if among(actions@, i as int, a) {
                    let j = choose|j: int| 0 <= j < i && #[trigger] actions@[j] == a;
                    assert(actions@[j] == actions@[i as int]);
                }
            }
        }
        let child = Node::next_node(share(&rc_node), &actions[i]);
        let undoes = match rc_node.get_parent_node() {
            Some(grandparent) => grandparent.get_state().equals(child.get_state()),
            None => false,
        };
        proof {
            parent.lemma_shape();
            child.lemma_cost_depth_consistency();
            if parent.parent() is Some {
                let g = parent.parent().unwrap();
                g.lemma_cost_depth_consistency();
                assert(q.drop_last() =~= g.path());
            }
            assert(undoes == (q.len() > 0 && walk(origin, c) == walk(origin, q.drop_last())));
            assert(in_tree(origin, c) == !undoes);
        }
        let ghost mut inserted = false;
        if !undoes {
            let ghost asking = *strategy;
            let rejected = strategy.prune(&child);
            proof {
                P::lemma_same_rule(strategy, &asking, &rule);
                P::lemma_same_rule(&asking, &rule, &rule);
                assert(judged.union(asked(origin, q, actions@, i as int)).insert(c) =~= judged.union(
                    asked(origin, q, actions@, i + 1),
                )) by {
                    lemma_asked_step(origin, q, actions@, i as int);
                }
                assert(reached::<S, P>(rule, origin, c) == !rejected);
            }
            if !rejected {
                frontier.insert(child);
                proof {
                    inserted = true;
                }
            }
        } else {
            proof {
                assert(asked(origin, q, actions@, i as int) =~= asked(origin, q, actions@, i + 1)) by {
                    lemma_asked_step(origin, q, actions@, i as int);
                }
                assert(!reached::<S, P>(rule, origin, c));
            }
        }
        proof {
            assert(inserted == reached::<S, P>(rule, origin, c));
            assert forall|n: Node<S>| #[trigger]
                frontier.contents().count(n) == f0.count(n) + (if heir::<S, P>(rule, parent, n)
                    && among(actions@, i + 1, n.path().last()) {
                    1nat
                } else {
                    0nat
                }) by {
                lemma_among_step(actions@, i as int, n.path().last());
                if heir::<S, P>(rule, parent, n) && n.path().last() == a {
                    assert(n.path() =~= n.path().drop_last().push(n.path().last()));
                    assert(n.path() == c);
                    n.lemma_same_path_same_node(&child);
                }
                if n == child && inserted {
                    assert(heir::<S, P>(rule, parent, n));
                }
            }
            assert forall|j: int|
                0 <= j < i + 1 && reached::<S, P>(
                    rule,
                    origin,
                    q.push(#[trigger] actions@[j]),
                ) implies waiting(frontier.contents(), q.push(actions@[j])) by {
                if j < i {
                    assert(waiting(before, q.push(actions@[j])));
                    let n = choose|n: Node<S>| #[trigger]
                        before.count(n) > 0 && n.path() == q.push(actions@[j]);
                    assert(frontier.contents().count(n) > 0);
                } else {
                    assert(frontier.contents().count(child) > 0);
                }
            }
        }
        i += 1;
    }
    proof {
        assert(asked(origin, q, actions@, actions@.len() as int) =~= candidates(origin, set![q])) by {
            assert forall|p: Seq<S::Action>|
                candidates(origin, set![q]).contains(p) implies asked(
                origin,
                q,
                actions@,
                actions@.len() as int,
            ).contains(p) by {
                let j = actions@.index_of(p.last());
                assert(actions@[j] == p.last());
            }
        }
        assert forall|n: Node<S>| heir::<S, P>(rule, parent, n) implies among(
            actions@,
            actions@.len() as int,
            n.path().last(),
        ) by {
            let j = actions@.index_of(n.path().last());
            assert(actions@[j] == n.path().last());
        }
        assert forall|a: S::Action|
            reached::<S, P>(rule, origin, #[trigger] q.push(a)) implies waiting(
            frontier.contents(),
            q.push(a),
        ) by {
            assert(q.push(a).drop_last() =~= q);
            let j = actions@.index_of(a);
            assert(actions@[j] == a);
        }
    }
}

/// One more action is among the first `i + 1` than among the first `i`.
proof fn lemma_among_step<A>(actions: Seq<A>, i: int, a: A)
    requires
        0 <= i < actions.len(),
    ensures
        among(actions, i + 1, a) == (among(actions, i, a) || actions[i] == a),
{
    if among(actions, i, a) {
        let j = choose|j: int| 0 <= j < i && #[trigger] actions[j] == a;
        assert(0 <= j < i + 1 && actions[j] == a);
    }
    if actions[i] == a {
        assert(0 <= i < i + 1 && actions[i] == a);
    }
}

/// What is asked about after one more action: the branch by that action
/// besides, if it is one.
proof fn lemma_asked_step<S: State>(
    origin: S,
    path: Seq<S::Action>,
    actions: Seq<S::Action>,
    i: int,
)
    requires
        0 <= i < actions.len(),
    ensures
        asked(origin, path, actions, i + 1) == if in_tree(origin, path.push(actions[i])) {
            asked(origin, path, actions, i).insert(path.push(actions[i]))
        } else {
            asked(origin, path, actions, i)
        },
{
    let c = path.push(actions[i]);
    assert(c.drop_last() =~= path);
    assert(c.last() == actions[i]);
    let grown = if in_tree(origin, c) {
        asked(origin, path, actions, i).insert(c)
    } else {
        asked(origin, path, actions, i)
    };
    assert forall|p: Seq<S::Action>| asked(origin, path, actions, i + 1).contains(p)
        == grown.contains(p) by {
        if p.len() > 0 {
            lemma_among_step(actions, i, p.last());
            if p.drop_last() == path && p.last() == actions[i] {
                assert(p =~= p.drop_last().push(p.last()));
            }
        }
    }
    assert(asked(origin, path, actions, i + 1) =~= grown);
}

/// Whether some node that waits in `contents` was reached by a prefix of
/// `path`.
pub open spec fn covered<S: State>(contents: Multiset<Node<S>>, path: Seq<S::Action>) -> bool {
    exists|k: int| 0 <= k <= path.len() && waiting(contents, #[trigger] path.take(k))
}

/// The paths that a single pass of `rule` reaches from `origin`.
pub open spec fn reach<S: State, P: Pruning<S>>(rule: P, origin: S) -> Set<
    Seq<S::Action>,
> {
    Set::new(|path: Seq<S::Action>| reached::<S, P>(rule, origin, path))
}

/// Each node that waits was reached by a pass of `rule` from `origin`, waits
/// once, was not expanded, and was reached from a node that was.
pub open spec fn waiting_inv<S: State, P: Pruning<S>>(
    rule: P,
    origin: S,
    contents: Multiset<Node<S>>,
    expanded: Set<Seq<S::Action>>,
) -> bool {
    forall|n: Node<S>| #[trigger]
        contents.count(n) > 0 ==> {
            &&& contents.count(n) == 1
            &&& n.wf()
            &&& n.origin() == origin
            &&& reached::<S, P>(rule, origin, n.path())
            &&& !expanded.contains(n.path())
            &&& n.path().len() > 0 ==> expanded.contains(n.path().drop_last())
        }
}

/// Each path that was expanded was reached by a pass of `rule` from
/// `origin`, ends in no goal, and continues a path that was expanded.
pub open spec fn expanded_inv<S: State, P: Pruning<S>>(
    rule: P,
    origin: S,
    expanded: Set<Seq<S::Action>>,
) -> bool {
    forall|p: Seq<S::Action>| #[trigger]
        expanded.contains(p) ==> {
            &&& reached::<S, P>(rule, origin, p)
            &&& !walk(origin, p).is_goal()
            &&& p.len() > 0 ==> expanded.contains(p.drop_last())
        }
}

/// Each path that a pass of `rule` reaches from `origin` was expanded or
/// continues the path of a node that waits.
pub open spec fn coverage_inv<S: State, P: Pruning<S>>(
    rule: P,
    origin: S,
    contents: Multiset<Node<S>>,
    expanded: Set<Seq<S::Action>>,
) -> bool {
    forall|p: Seq<S::Action>| #[trigger]
        reached::<S, P>(rule, origin, p) ==> expanded.contains(p) || covered(contents, p)
}

/// What holds between the nodes that wait and the paths that were expanded
/// while a pass is under way.
pub open spec fn pass_inv<S: State, P: Pruning<S>>(
    rule: P,
    origin: S,
    contents: Multiset<Node<S>>,
    expanded: Set<Seq<S::Action>>,
) -> bool {
    &&& waiting_inv::<S, P>(rule, origin, contents, expanded)
    &&& expanded_inv::<S, P>(rule, origin, expanded)
    &&& coverage_inv::<S, P>(rule, origin, contents, expanded)
}

/// How the frontier changes when `popped` is taken off and expanded.
pub open spec fn expansion<S: State, P: Pruning<S>>(
    rule: P,
    before: Multiset<Node<S>>,
    popped: Node<S>,
    after: Multiset<Node<S>>,
) -> bool {
    &&& before.count(popped) > 0
    &&& forall|n: Node<S>| #[trigger]
        after.count(n) == (if n == popped {
            before.count(n) - 1
        } else {
            before.count(n) as int
        }) + (if heir::<S, P>(rule, popped, n) {
            1int
        } else {
            0int
        })
    &&& forall|a: S::Action|
        reached::<S, P>(rule, popped.origin(), #[trigger] popped.path().push(a)) ==> waiting(
            after,
            popped.path().push(a),
        )
}

/// After an expansion the nodes that wait are still as `waiting_inv` says.
proof fn lemma_step_waiting<S: State, P: Pruning<S>>(
    rule: P,
    origin: S,
    before: Multiset<Node<S>>,
    popped: Node<S>,
    after: Multiset<Node<S>>,
    expanded: Set<Seq<S::Action>>,
)
    requires
        waiting_inv::<S, P>(rule, origin, before, expanded),
        expanded_inv::<S, P>(rule, origin, expanded),
        expansion::<S, P>(rule, before, popped, after),
    ensures
        waiting_inv::<S, P>(rule, origin, after, expanded.insert(popped.path())),
{
    let q = popped.path();
    let grown = expanded.insert(q);
    assert(before.count(popped) > 0);
    assert forall|n: Node<S>| #[trigger] after.count(n) > 0 implies {
        &&& after.count(n) == 1
        &&& n.wf()
        &&& n.origin() == origin
        &&& reached::<S, P>(rule, origin, n.path())
        &&& !grown.contains(n.path())
        &&& n.path().len() > 0 ==> grown.contains(n.path().drop_last())
    } by {
        if heir::<S, P>(rule, popped, n) {
            // a node reached from `popped` is new: else `popped` had been expanded
            if before.count(n) > 0 {
                assert(expanded.contains(n.path().drop_last()));
                assert(false);
            }
            if expanded.contains(n.path()) {
                assert(expanded.contains(n.path().drop_last()));
                assert(false);
            }
            assert(n.path().len() == q.len() + 1);
        } else {
            assert(n != popped);
            assert(before.count(n) > 0);
            if n.path() == q {
                n.lemma_same_path_same_node(&popped);
            }
        }
    }
}

/// After an expansion each path that the pass reaches is still accounted for.
proof fn lemma_step_coverage<S: State, P: Pruning<S>>(
    rule: P,
    origin: S,
    before: Multiset<Node<S>>,
    popped: Node<S>,
    after: Multiset<Node<S>>,
    expanded: Set<Seq<S::Action>>,
)
    requires
        popped.origin() == origin,
        coverage_inv::<S, P>(rule, origin, before, expanded),
        expansion::<S, P>(rule, before, popped, after),
    ensures
        coverage_inv::<S, P>(rule, origin, after, expanded.insert(popped.path())),
{
    let q = popped.path();
    let grown = expanded.insert(q);
    assert forall|p: Seq<S::Action>| #[trigger] reached::<S, P>(rule, origin, p) implies (
    grown.contains(p) || covered(after, p)) by {
        if !expanded.contains(p) {
            assert(covered(before, p));
            let k = choose|k: int| 0 <= k <= p.len() && waiting(before, #[trigger] p.take(k));
            let n = choose|n: Node<S>| #[trigger] before.count(n) > 0 && n.path() == p.take(k);
            if n == popped {
                if k == p.len() {
                    assert(p.take(k) =~= p);
                } else {
                    lemma_reached_prefix::<S, P>(rule, origin, p, k + 1);
                    assert(p.take(k + 1) =~= q.push(p[k]));
                    assert(waiting(after, p.take(k + 1)));
                }
            } else {
                assert(after.count(n) > 0);
                assert(waiting(after, p.take(k)));
            }
        }
    }
}

/// Expanding a node that waits keeps what holds during a pass.
proof fn lemma_pass_step<S: State, P: Pruning<S>>(
    rule: P,
    origin: S,
    before: Multiset<Node<S>>,
    popped: Node<S>,
    after: Multiset<Node<S>>,
    expanded: Set<Seq<S::Action>>,
)
    requires
        pass_inv::<S, P>(rule, origin, before, expanded),
        !popped.state().is_goal(),
        expansion::<S, P>(rule, before, popped, after),
    ensures
        !expanded.contains(popped.path()),
        pass_inv::<S, P>(rule, origin, after, expanded.insert(popped.path())),
{
    assert(before.count(popped) > 0);
    popped.lemma_cost_depth_consistency();
    lemma_step_waiting::<S, P>(rule, origin, before, popped, after, expanded);
    lemma_step_coverage::<S, P>(rule, origin, before, popped, after, expanded);
}

/// Whether the frontier `F` hands out a node that was reached by `path`
/// before it has handed out the nodes all along `branch`: while some node
/// along the branch waits, the node may leave.
pub open spec fn ahead<S: State, F: Frontier<S>>(
    origin: S,
    path: Seq<S::Action>,
    branch: Seq<S::Action>,
) -> bool {
    exists|k: int| 0 <= k <= branch.len() && F::leaves_first(origin, path, #[trigger] branch.take(k))
}

/// Whether the frontier `F` hands out a node that was reached by `path`
/// before a pass of `rule` has come to the end of any branch that ends in a
/// goal.
pub open spec fn ahead_of_goals<S: State, F: Frontier<S>, P: Pruning<S>>(
    rule: P,
    origin: S,
    path: Seq<S::Action>,
) -> bool {
    forall|branch: Seq<S::Action>| #[trigger]
        reached::<S, P>(rule, origin, branch) && walk(origin, branch).is_goal() ==> ahead::<S, F>(
            origin,
            path,
            branch,
        )
}

/// Whether `expanded` holds the paths to the nodes that a pass of `rule`
/// has expanded, `used` in all: each is reached by the pass, ends in no
/// goal, continues a path that is among them, and was handed out before the
/// pass had come to the end of any branch that ends in a goal.
#[verifier::opaque]
pub open spec fn account<S: State, F: Frontier<S>, P: Pruning<S>>(
    rule: P,
    origin: S,
    expanded: Set<Seq<S::Action>>,
    used: u64,
) -> bool {
    &&& expanded.finite()
    &&& expanded.len() == used
    &&& expanded_inv::<S, P>(rule, origin, expanded)
    &&& forall|path: Seq<S::Action>| #[trigger]
        expanded.contains(path) ==> ahead_of_goals::<S, F, P>(rule, origin, path)
}

/// A node that the frontier hands out during a pass leaves before the pass
/// has come to the end of any branch that ends in a goal: of such a branch
/// some node still waits.
proof fn lemma_popped_ahead<S: State, F: Frontier<S>, P: Pruning<S>>(
    rule: P,
    origin: S,
    before: Multiset<Node<S>>,
    popped: Node<S>,
    expanded: Set<Seq<S::Action>>,
)
    requires
        pass_inv::<S, P>(rule, origin, before, expanded),
        before.count(popped) > 0,
        forall|m: Node<S>| #[trigger]
            before.count(m) > 0 && m.origin() == popped.origin() ==> F::leaves_first(
                popped.origin(),
                popped.path(),
                m.path(),
            ),
    ensures
        ahead_of_goals::<S, F, P>(rule, origin, popped.path()),
{
    assert forall|branch: Seq<S::Action>| #[trigger]
        reached::<S, P>(rule, origin, branch) && walk(origin, branch).is_goal() implies ahead::<
        S,
        F,
    >(origin, popped.path(), branch) by {
        assert(covered(before, branch));
        let k = choose|k: int| 0 <= k <= branch.len() && waiting(before, #[trigger] branch.take(k));
        let m = choose|m: Node<S>| #[trigger] before.count(m) > 0 && m.path() == branch.take(k);
        assert(F::leaves_first(origin, popped.path(), branch.take(k)));
    }
}

/// Whether `expanded` accounts for a budget that a single pass of `rule`
/// used up: it holds as many paths as the budget allows, each of which the
/// pass reaches and none of which ends in a goal.
pub open spec fn uses_up<S: State, P: Pruning<S>>(
    rule: P,
    origin: S,
    expanded: Set<Seq<S::Action>>,
    budget: u64,
) -> bool {
    &&& expanded.finite()
    &&& expanded.len() == budget
    &&& forall|p: Seq<S::Action>| #[trigger]
        expanded.contains(p) ==> reached::<S, P>(rule, origin, p) && !walk(origin, p).is_goal()
}

/// The expansion loop that the strategies share: takes the nodes off the
/// frontier one by one, from the root for `start_state` on, stops at the
/// first whose state is a goal, and expands every other; it is cut off where
/// it would expand more nodes than `budget`. Besides the outcome it returns
/// the number of nodes that it expanded.
pub fn tree_search<S: State, F: Frontier<S>, P: Pruning<S>>(
    strategy: &mut P,
    start_state: &S,
    budget: u64,
) -> (result: (Result<Option<Solution<S>>, OutOfBudget>, u64))
    requires
        start_state.wf(),
        old(strategy).has_judged(*start_state, Set::<Seq<S::Action>>::empty()),
    ensures
        final(strategy).same_rule(old(strategy)),
        result.1 <= budget,
        start_state.is_goal() ==> (result.0 matches Ok(Some(solution)) && solution.path().len()
            == 0),
        start_state.is_goal() ==> result.1 == 0,
        exists|expanded: Set<Seq<S::Action>>|
            {
                &&& #[trigger] account::<S, F, P>(
                    *old(strategy),
                    *start_state,
                    expanded,
                    result.1,
                )
                &&& final(strategy).has_judged(*start_state, candidates(*start_state, expanded))
            },
        match result.0 {
            Ok(Some(solution)) => {
                &&& ahead_of_goals::<S, F, P>(*old(strategy), *start_state, solution.path())
                &&& solution.start_state() == *start_state
                &&& solution.final_state() == walk(*start_state, solution.path())
                &&& solution.final_state().is_goal()
                &&& reached::<S, P>(*old(strategy), *start_state, solution.path())
                &&& solution.wf()
                &&& in_tree(*start_state, solution.path())
                &&& never_undoes(*start_state, solution.path())
            },
            Ok(None) => {
                &&& forall|p: Seq<S::Action>| #[trigger]
                    reached::<S, P>(*old(strategy), *start_state, p) ==> !walk(
                        *start_state,
                        p,
                    ).is_goal()
                &&& reach::<S, P>(*old(strategy), *start_state).finite()
                &&& reach::<S, P>(*old(strategy), *start_state).len() == result.1
                &&& final(strategy).has_judged(
                    *start_state,
                    candidates(*start_state, reach::<S, P>(*old(strategy), *start_state)),
                )
            },
            Err(_) => {
                &&& result.1 == budget
                &&& exists|expanded: Set<Seq<S::Action>>| #[trigger]
                    uses_up::<S, P>(*old(strategy), *start_state, expanded, budget)
            },
        },
{
    broadcast use vstd::multiset::group_multiset_axioms;

    let ghost rule = *strategy;
    let ghost origin = *start_state;
    let ghost mut expanded: Set<Seq<S::Action>> = Set::empty();
    proof {
        P::lemma_same_rule(&rule, &rule, &rule);
    }
    let mut frontier = F::new();
    let root = Node::new(start_state);
    proof {
        assert forall|p: Seq<S::Action>| #[trigger]
            reached::<S, P>(rule, origin, p) implies covered(
            frontier.contents().insert(root),
            p,
        ) by {
            assert(frontier.contents().insert(root).count(root) > 0);
            assert(p.take(0) =~= root.path());
            assert(waiting(frontier.contents().insert(root), p.take(0)));
        }
        assert(candidates(origin, expanded) =~= Set::<Seq<S::Action>>::empty());
    }
    frontier.insert(root);
    let mut left = budget;
    let ghost mut floor: nat = 0;
    while !frontier.is_empty()
        invariant
            frontier.orderly(floor),
            forall|path: Seq<S::Action>| #[trigger]
                expanded.contains(path) ==> ahead_of_goals::<S, F, P>(rule, origin, path),
            start_state.wf(),
            root.path().len() == 0,
            start_state.is_goal() ==> expanded.len() == 0,
            expanded.len() == 0 ==> frontier.contents() == Multiset::<Node<S>>::empty().insert(
                root,
            ),
            origin == *start_state,
            rule == *old(strategy),
            strategy.same_rule(&rule),
            frontier.wf(),
            left <= budget,
            expanded.finite(),
            expanded.len() == budget - left,
            pass_inv::<S, P>(rule, origin, frontier.contents(), expanded),
            strategy.has_judged(origin, candidates(origin, expanded)),
        decreases left,
    {
        let ghost before = frontier.contents();
        let popped = frontier.pop();
        let node = popped.unwrap();
        proof {
            assert(before.count(node) > 0);
            node.lemma_cost_depth_consistency();
            node.lemma_shape();
            lemma_popped_ahead::<S, F, P>(rule, origin, before, node, expanded);
            floor = node.depth();
        }
        if node.get_state().is_goal_state() {
            proof {
                lemma_reached_in_tree::<S, P>(rule, origin, node.path());
                crate::state::lemma_no_immediate_undo(origin, node.path());
                crate::state::lemma_in_tree_wf(origin, node.path());
                reveal(account);
                assert(account::<S, F, P>(rule, origin, expanded, (budget - left) as u64));
            }
            let path = trace(&node);
            let solution = Solution::new(
                start_state.duplicate(),
                node.get_state().duplicate(),
                path,
            );
            return (Ok(Some(solution)), budget - left);
        }
        if left == 0 {
            proof {
                assert(uses_up::<S, P>(rule, origin, expanded, budget));
                reveal(account);
                assert(account::<S, F, P>(rule, origin, expanded, budget));
            }
            return (Err(OutOfBudget), budget);
        }
        let ghost q = node.path();
        let ghost popped_node = node;
        let ghost rest = frontier.contents();
        expand::<S, F, P>(strategy, &mut frontier, node, Ghost(rule), Ghost(candidates(origin, expanded)));
        proof {
            assert(expansion::<S, P>(rule, before, popped_node, frontier.contents())) by {
                assert forall|n: Node<S>| #[trigger]
                    frontier.contents().count(n) == (if n == popped_node {
                        before.count(n) - 1
                    } else {
                        before.count(n) as int
                    }) + (if heir::<S, P>(rule, popped_node, n) {
                        1int
                    } else {
                        0int
                    }) by {
                    assert(rest.count(n) == if n == popped_node {
                        before.count(n) - 1
                    } else {
                        before.count(n) as int
                    });
                }
            }
            lemma_pass_step::<S, P>(
                rule,
                origin,
                before,
                popped_node,
                frontier.contents(),
                expanded,
            );
            assert(candidates(origin, expanded).union(candidates(origin, set![q])) =~= candidates(
                origin,
                expanded.insert(q),
            ));
            expanded = expanded.insert(q);
        }
        left = left - 1;
    }
    proof {
        reveal(account);
        assert(account::<S, F, P>(rule, origin, expanded, (budget - left) as u64));
        assert(expanded =~= reach::<S, P>(rule, origin)) by {
            assert forall|p: Seq<S::Action>|
                reach::<S, P>(rule, origin).contains(p) implies expanded.contains(p) by {
                if covered(frontier.contents(), p) {
                    let k = choose|k: int|
                        0 <= k <= p.len() && waiting(frontier.contents(), #[trigger] p.take(k));
                    let n = choose|n: Node<S>| #[trigger]
                        frontier.contents().count(n) > 0 && n.path() == p.take(k);
                    assert(frontier.contents().count(n) <= frontier.contents().len());
                }
            }
        }
    }
    (Ok(None), budget - left)
}

/// The actions that lead to `node`, first to last.
fn trace<S: State>(node: &Node<S>) -> (path: Vec<S::Action>)
    requires
        node.wf(),
    ensures
        path@ == node.path(),
{
    let mut path: Vec<S::Action> = Vec::new();
    let mut current: &Node<S> = node;
    proof {
        current.lemma_cost_depth_consistency();
    }
    while current.get_parent_node().is_some()
        invariant
            current.wf(),
            current.depth() == current.path().len(),
            current.path() + path@ == node.path(),
        decreases current.depth(),
    {
        proof {
            current.lemma_shape();
        }
        let ghost before = path@;
        let ghost below = *current;
        let action = current.get_action().unwrap().duplicate();
        path.insert(0, action);
        current = current.get_parent_node().unwrap();
        proof {
            current.lemma_cost_depth_consistency();
            below.lemma_cost_depth_consistency();
            assert(path@ =~= seq![action] + before);
            assert(current.path() + path@ =~= below.path() + before);
        }
    }
    proof {
        current.lemma_shape();
        assert(current.path() + path@ =~= path@);
    }
    path
}

} // verus!
