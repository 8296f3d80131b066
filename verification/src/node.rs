//! The records of the search tree.
use vstd::prelude::*;
use std::rc::Rc;
use crate::action::{Action, total_cost};
use crate::state::{State, walk, legal_path};

verus! {

/// A state together with the way that led to it: the node it was reached
/// from, the action that was taken there, what the way has cost and how many
/// actions it holds. A node shares the node it was reached from with the
/// other nodes reached from there.
pub struct Node<S: State> {
    state: S,
    action: Option<S::Action>,
    parent_node: Option<Rc<Node<S>>>,
    path_cost: u64,
    depth: u32,
}

/// `Rc::clone`: another handle to the same shared value. The contract claims
/// that the new handle holds the value that the given one holds.
#[verifier::external_body]
pub(crate) fn share<T>(handle: &Rc<T>) -> (other: Rc<T>)
    ensures
        other == *handle,
{
    Rc::clone(handle)
}

impl<S: State> Node<S> {
    /// The state of this node.
    pub closed spec fn state(self) -> S {
        self.state
    }

    /// The action that led to this node; a root has none.
    pub closed spec fn action(self) -> Option<S::Action> {
        self.action
    }

    /// The node that this node was reached from; a root has none.
    pub closed spec fn parent(self) -> Option<Node<S>> {
        match self.parent_node {
            None => None,
            Some(p) => Some(*p),
        }
    }

    /// What the way to this node has cost.
    pub closed spec fn path_cost(self) -> nat {
        self.path_cost as nat
    }

    /// How many actions lead to this node.
    pub closed spec fn depth(self) -> nat {
        self.depth as nat
    }

    /// The cost so far plus the estimate of what is left.
    pub open spec fn evaluation(self) -> nat {
        self.path_cost() + self.state().estimate()
    }

    /// The state of the root above this node.
    pub closed spec fn origin(self) -> S
        decreases self,
    {
        match self.parent_node {
            None => self.state,
            Some(p) => p.origin(),
        }
    }

    /// The actions that lead from the root to this node, first to last.
    pub closed spec fn path(self) -> Seq<S::Action>
        decreases self,
    {
        match self.parent_node {
            None => Seq::empty(),
            Some(p) => match self.action {
                None => p.path(),
                Some(a) => p.path().push(a),
            },
        }
    }

    /// Whether this node and the nodes above it are as `new` and `next_node`
    /// make them.
    pub closed spec fn wf(self) -> bool
        decreases self,
    {
        &&& self.state.wf()
        &&& self.path_cost <= self.depth * u32::MAX
        &&& match self.parent_node {
            None => self.action is None && self.depth == 0 && self.path_cost == 0,
            Some(p) => {
                &&& p.wf()
                &&& self.action matches Some(a)
                &&& p.state.legal_actions().contains(a)
                &&& self.state == p.state.successor(&a)
                &&& self.depth == p.depth + 1
                &&& self.path_cost == p.path_cost + a.cost()
            },
        }
    }

    /// A root has no parent, no action, no cost and no depth; any other node
    /// continues the way to its parent by its action.
    pub proof fn lemma_shape(&self)
        requires
            self.wf(),
        ensures
            self.state().wf(),
            self.origin().wf(),
            match self.parent() {
                None => {
                    &&& self.action() is None
                    &&& self.origin() == self.state()
                    &&& self.path() == Seq::<S::Action>::empty()
                },
                Some(p) => {
                    &&& p.wf()
                    &&& self.action() matches Some(a)
                    &&& p.state().legal_actions().contains(a)
                    &&& self.state() == p.state().successor(&a)
                    &&& self.origin() == p.origin()
                    &&& self.path() == p.path().push(a)
                },
            },
        decreases self,
    {
        match self.parent_node {
            None => {},
            Some(p) => {
                p.lemma_shape();
            },
        }
    }

    /// The cost of a node is the summed cost of the actions that lead to it,
    /// its depth is their number, and its state is where they lead from the
    /// root.
    pub proof fn lemma_cost_depth_consistency(&self)
        requires
            self.wf(),
        ensures
            self.path_cost() == total_cost(self.path()),
            self.depth() == self.path().len(),
            self.depth() <= u32::MAX,
            self.state() == walk(self.origin(), self.path()),
            legal_path(self.origin(), self.path()),
        decreases self,
    {
        match self.parent_node {
            None => {},
            Some(p) => {
                p.lemma_cost_depth_consistency();
                let a = self.action.unwrap();
                let path = self.path();
                assert(path.drop_last() =~= p.path());
                assert(path.last() == a);
                assert forall|i: int| 0 <= i < path.len() implies walk(
                    self.origin(),
                    path.take(i),
                ).legal_actions().contains(#[trigger] path[i]) by {
                    if i < p.path().len() {
                        assert(path.take(i) =~= p.path().take(i));
                        assert(path[i] == p.path()[i]);
                    } else {
                        assert(path.take(i) =~= p.path());
                    }
                }
            },
        }
    }

    /// Two nodes below the same root that were reached by the same actions
    /// are the same node.
    pub proof fn lemma_same_path_same_node(&self, other: &Self)
        requires
            self.wf(),
            other.wf(),
            self.origin() == other.origin(),
            self.path() == other.path(),
        ensures
            *self == *other,
        decreases self,
    {
        self.lemma_cost_depth_consistency();
        other.lemma_cost_depth_consistency();
        match self.parent_node {
            None => {
                assert(other.parent_node is None);
            },
            Some(p) => {
                assert(other.parent_node is Some);
                let q = other.parent_node.unwrap();
                let a = self.action.unwrap();
                let b = other.action.unwrap();
                assert(self.path().drop_last() =~= p.path());
                assert(other.path().drop_last() =~= q.path());
                assert(self.path().last() == a);
                assert(other.path().last() == b);
                p.lemma_same_path_same_node(&*q);
            },
        }
    }

    /// The root of a search tree.
    pub fn new(state: &S) -> (node: Self)
        requires
            state.wf(),
        ensures
            node.wf(),
            node.state() == *state,
            node.origin() == *state,
            node.path() == Seq::<S::Action>::empty(),
            node.parent() is None,
            node.action() is None,
            node.path_cost() == 0,
            node.depth() == 0,
    {
        Node { state: state.duplicate(), action: None, parent_node: None, path_cost: 0, depth: 0 }
    }

    pub fn get_state(&self) -> (state: &S)
        ensures
            *state == self.state(),
    {
        &self.state
    }

    pub fn get_action(&self) -> (action: Option<&S::Action>)
        ensures
            action.is_some() == self.action().is_some(),
            action matches Some(a) ==> *a == self.action().unwrap(),
    {
        self.action.as_ref()
    }

    pub fn get_parent_node(&self) -> (parent: Option<&Node<S>>)
        ensures
            parent.is_some() == self.parent().is_some(),
            parent matches Some(p) ==> *p == self.parent().unwrap(),
    {
        match &self.parent_node {
            None => None,
            Some(p) => Some(&**p),
        }
    }

    pub fn get_possible_actions(&self) -> (actions: Vec<S::Action>)
        requires
            self.wf(),
        ensures
            actions@ == self.state().legal_actions(),
    {
        self.state.list_actions()
    }

    pub fn get_path_cost(&self) -> (cost: u64)
        ensures
            cost == self.path_cost(),
            self.wf() ==> cost == total_cost(self.path()),
    {
        proof {
            if self.wf() {
                self.lemma_cost_depth_consistency();
            }
        }
        self.path_cost
    }

    pub fn get_depth(&self) -> (depth: u32)
        ensures
            depth == self.depth(),
            self.wf() ==> depth == self.path().len(),
    {
        proof {
            if self.wf() {
                self.lemma_cost_depth_consistency();
            }
        }
        self.depth
    }

    /// The node that `action` leads to from `parent_node`.
    pub fn next_node(parent_node: Rc<Self>, action: &S::Action) -> (node: Self)
        requires
            parent_node.wf(),
            parent_node.depth() < u32::MAX,
            parent_node.state().legal_actions().contains(*action),
        ensures
            node.wf(),
            node.parent() == Some(*parent_node),
            node.action() == Some(*action),
            node.state() == parent_node.state().successor(action),
            node.origin() == parent_node.origin(),
            node.path() == parent_node.path().push(*action),
            node.path_cost() == parent_node.path_cost() + action.cost(),
            node.depth() == parent_node.depth() + 1,
    {
        proof {
            S::lemma_legal_actions(&parent_node.state);
        }
        let new_cost = parent_node.path_cost + action.get_cost() as u64;
        let new_depth = parent_node.depth + 1;
        let new_state = parent_node.state.perform_action(action);
        Node {
            state: new_state,
            action: Some(action.duplicate()),
            parent_node: Some(parent_node),
            path_cost: new_cost,
            depth: new_depth,
        }
    }

    /// The cost so far plus the estimate of what is left.
    pub fn eval(&self) -> (value: u64)
        requires
            self.wf(),
        ensures
            value == self.evaluation(),
    {
        self.path_cost + self.state.heuristic() as u64
    }
}

/// Two nodes are equal if their states are: how a state was reached does
/// not count.
impl<S: State> PartialEq for Node<S> {
    fn eq(&self, other: &Self) -> (equal: bool) {
        self.state.equals(&other.state)
    }
}

impl<S: State> vstd::std_specs::cmp::PartialEqSpecImpl for Node<S> {
    open spec fn obeys_eq_spec() -> bool {
        true
    }

    open spec fn eq_spec(&self, other: &Self) -> bool {
        self.state() == other.state()
    }
}

} // verus!
