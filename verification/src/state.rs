//! What the engine asks of the states of a domain, and the paths through them.
use vstd::prelude::*;
use crate::action::{Action, total_cost};

verus! {

/// A snapshot of a searchable domain.
pub trait State: Sized {
    type Action: Action;

    /// Whether this value is a state of the domain.
    spec fn wf(&self) -> bool;

    /// The actions that can be taken in this state, in the order in which
    /// they are tried.
    spec fn legal_actions(&self) -> Seq<Self::Action>;

    /// The state that an action leads to.
    spec fn successor(&self, action: &Self::Action) -> Self;

    /// Whether the search may stop here.
    spec fn is_goal(&self) -> bool;

    /// The estimated cost of the way from here to a goal.
    spec fn estimate(&self) -> nat;

    /// The text form of this state.
    spec fn rendering(&self) -> Seq<char>;

    /// The picture of this state that is shown to a person.
    spec fn picture(&self) -> Seq<char>;

    /// No action is listed twice, and a listed action is a move of the
    /// domain that leads to a state of the domain.
    proof fn lemma_legal_actions(state: &Self)
        requires
            state.wf(),
        ensures
            state.legal_actions().no_duplicates(),
            forall|action: Self::Action| #[trigger]
                state.legal_actions().contains(action) ==> action.wf() && state.successor(
                    &action,
                ).wf(),
    ;

    /// Whether this value is a state of the domain.
    fn is_valid(&self) -> (valid: bool)
        ensures
            valid == self.wf(),
    ;

    fn display_pretty(&self) -> (s: String)
        requires
            self.wf(),
        ensures
            s@ == self.picture(),
    ;

    fn list_actions(&self) -> (actions: Vec<Self::Action>)
        requires
            self.wf(),
        ensures
            actions@ == self.legal_actions(),
            forall|i: int| 0 <= i < actions@.len() ==> (#[trigger] actions@[i]).wf(),
    ;

    fn perform_action(&self, action: &Self::Action) -> (next: Self)
        requires
            self.wf(),
            self.legal_actions().contains(*action),
        ensures
            next == self.successor(action),
            next.wf(),
    ;

    fn is_goal_state(&self) -> (b: bool)
        requires
            self.wf(),
        ensures
            b == self.is_goal(),
    ;

    fn heuristic(&self) -> (h: u32)
        requires
            self.wf(),
        ensures
            h == self.estimate(),
    ;

    fn to_string(&self) -> (s: String)
        requires
            self.wf(),
        ensures
            s@ == self.rendering(),
    ;

    /// A copy that is equal to this value.
    fn duplicate(&self) -> (r: Self)
        ensures
            r == *self,
    ;

    /// Whether two states are the same.
    fn equals(&self, other: &Self) -> (b: bool)
        ensures
            b == (*self == *other),
    ;
}

/// The state that a path of actions leads to from `origin`.
pub open spec fn walk<S: State>(origin: S, path: Seq<S::Action>) -> S
    decreases path.len(),
{
    if path.len() == 0 {
        origin
    } else {
        walk(origin, path.drop_last()).successor(&path.last())
    }
}

/// What a path has cost plus the estimate of what is left from where it ends.
pub open spec fn evaluation_of<S: State>(origin: S, path: Seq<S::Action>) -> nat {
    total_cost(path) + walk(origin, path).estimate()
}

/// Whether a path is a branch of the search tree below `origin`: each action
/// is legal where it is taken, no action leads back to the state before the
/// action that preceded it, and the depth fits the machine.
pub open spec fn in_tree<S: State>(origin: S, path: Seq<S::Action>) -> bool
    decreases path.len(),
{
    if path.len() == 0 {
        true
    } else {
        let before = path.drop_last();
        &&& in_tree(origin, before)
        &&& path.len() <= u32::MAX
        &&& walk(origin, before).legal_actions().contains(path.last())
        &&& before.len() > 0 ==> walk(origin, path) != walk(origin, before.drop_last())
    }
}

/// Whether each action of a path is legal in the state in which it is taken.
pub open spec fn legal_path<S: State>(origin: S, path: Seq<S::Action>) -> bool {
    forall|i: int|
        0 <= i < path.len() ==> walk(origin, path.take(i)).legal_actions().contains(
            #[trigger] path[i],
        )
}

/// Whether no two consecutive actions of a path lead back to the state in
/// which the first of them was taken.
pub open spec fn never_undoes<S: State>(origin: S, path: Seq<S::Action>) -> bool {
    forall|k: int|
        2 <= k <= path.len() ==> walk(origin, #[trigger] path.take(k)) != walk(
            origin,
            path.take(k - 2),
        )
}

/// A prefix of a branch of the search tree is a branch of it.
pub proof fn lemma_in_tree_prefix<S: State>(origin: S, path: Seq<S::Action>, k: int)
    requires
        in_tree(origin, path),
        0 <= k <= path.len(),
    ensures
        in_tree(origin, path.take(k)),
    decreases path.len(),
{
    if k == path.len() {
        assert(path.take(k) =~= path);
    } else {
        lemma_in_tree_prefix(origin, path.drop_last(), k);
        assert(path.drop_last().take(k) =~= path.take(k));
    }
}

/// No branch of the search tree is deeper than the machine can count.
pub proof fn lemma_in_tree_depth<S: State>(origin: S, path: Seq<S::Action>)
    requires
        in_tree(origin, path),
    ensures
        path.len() <= u32::MAX,
{
}

/// No returned path undoes a move at once: on a branch of the search tree
/// no two consecutive actions lead back to the state in which the first of
/// them was taken.
pub proof fn lemma_no_immediate_undo<S: State>(origin: S, path: Seq<S::Action>)
    requires
        in_tree(origin, path),
    ensures
        never_undoes(origin, path),
{
    assert forall|k: int| 2 <= k <= path.len() implies walk(origin, #[trigger] path.take(k))
        != walk(origin, path.take(k - 2)) by {
        lemma_in_tree_prefix(origin, path, k);
        let upto = path.take(k);
        assert(upto.drop_last().drop_last() =~= path.take(k - 2));
    }
}

/// The states along a branch of the search tree below a state of the domain
/// are states of the domain, and its actions are moves of the domain.
pub proof fn lemma_in_tree_wf<S: State>(origin: S, path: Seq<S::Action>)
    requires
        origin.wf(),
        in_tree(origin, path),
    ensures
        walk(origin, path).wf(),
        forall|i: int| 0 <= i < path.len() ==> (#[trigger] path[i]).wf(),
    decreases path.len(),
{
    if path.len() > 0 {
        let before = path.drop_last();
        lemma_in_tree_wf(origin, before);
        S::lemma_legal_actions(&walk(origin, before));
        assert forall|i: int| 0 <= i < path.len() implies (#[trigger] path[i]).wf() by {
            if i < before.len() {
                assert(path[i] == before[i]);
            } else {
                assert(path[i] == path.last());
            }
        }
    }
}

} // verus!
