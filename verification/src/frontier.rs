//! The collections of nodes that wait to be expanded.
use vstd::prelude::*;
use vstd::multiset::Multiset;
use std::collections::VecDeque;
use crate::state::{State, evaluation_of};
use crate::node::Node;

verus! {

/// The nodes that wait to be expanded. Which of them leaves first is for
/// each kind of frontier to say; a node that was put in twice waits twice.
pub trait Frontier<S: State>: Sized {
    /// Whether the frontier is as its own operations leave it.
    spec fn wf(&self) -> bool;

    /// The nodes that wait.
    spec fn contents(&self) -> Multiset<Node<S>>;

    /// Whether the nodes wait as a search leaves them that has last taken
    /// off a node of depth `floor`: such a search puts in a root first, and
    /// then only nodes one deeper than the node that it took off last.
    spec fn orderly(&self, floor: nat) -> bool;

    /// Whether this kind of frontier hands out a node that was reached by
    /// `first` while a node that was reached by `other` waits.
    spec fn leaves_first(origin: S, first: Seq<S::Action>, other: Seq<S::Action>) -> bool;

    fn new() -> (frontier: Self)
        ensures
            frontier.wf(),
            frontier.contents() == Multiset::<Node<S>>::empty(),
            frontier.orderly(0),
    ;

    fn clear(&mut self)
        ensures
            final(self).wf(),
            final(self).contents() == Multiset::<Node<S>>::empty(),
            final(self).orderly(0),
    ;

    fn is_empty(&self) -> (b: bool)
        requires
            self.wf(),
        ensures
            b == (self.contents().len() == 0),
    ;

    fn insert(&mut self, node: Node<S>)
        requires
            old(self).wf(),
            node.wf(),
        ensures
            final(self).wf(),
            final(self).contents() == old(self).contents().insert(node),
            forall|floor: nat| #[trigger]
                old(self).orderly(floor) && (node.depth() == floor + 1 || (old(
                    self,
                ).contents().len() == 0 && node.depth() == floor)) ==> final(self).orderly(floor),
    ;

    fn pop(&mut self) -> (node: Option<Node<S>>)
        requires
            old(self).wf(),
        ensures
            final(self).wf(),
            match node {
                None => old(self).contents().len() == 0 && final(self).contents() == old(
                    self,
                ).contents(),
                Some(n) => old(self).contents().contains(n) && final(self).contents() == old(
                    self,
                ).contents().remove(n),
            },
            node matches Some(n) ==> forall|floor: nat| #[trigger]
                old(self).orderly(floor) ==> final(self).orderly(n.depth()),
            node matches Some(n) ==> forall|floor: nat, m: Node<S>|
                #[trigger] old(self).orderly(floor) && #[trigger] old(self).contents().count(m) > 0
                    && m.origin() == n.origin() ==> Self::leaves_first(
                    n.origin(),
                    n.path(),
                    m.path(),
                ),
    ;

    fn size(&self) -> (n: usize)
        requires
            self.wf(),
        ensures
            n == self.contents().len(),
    ;
}

/// First in, first out.
pub struct QueueFrontier<S: State> {
    queue: VecDeque<Node<S>>,
}

impl<S: State> QueueFrontier<S> {
    /// The waiting nodes, the one that leaves next first.
    pub closed spec fn order(&self) -> Seq<Node<S>> {
        self.queue@
    }
}

impl<S: State> Frontier<S> for QueueFrontier<S> {
    open spec fn wf(&self) -> bool {
        true
    }

    open spec fn contents(&self) -> Multiset<Node<S>> {
        self.order().to_multiset()
    }

    /// No node waits before a shallower one, and all are of depth `floor`
    /// or one deeper.
    open spec fn orderly(&self, floor: nat) -> bool {
        &&& forall|i: int|
            0 <= i < self.order().len() ==> (#[trigger] self.order()[i]).wf() && floor
                <= self.order()[i].depth() <= floor + 1
        &&& forall|i: int, j: int|
            0 <= i < j < self.order().len() ==> (#[trigger] self.order()[i]).depth() <= (
            #[trigger] self.order()[j]).depth()
    }

    /// The node that leaves is no deeper than any that waits.
    open spec fn leaves_first(origin: S, first: Seq<S::Action>, other: Seq<S::Action>) -> bool {
        first.len() <= other.len()
    }

    fn new() -> (frontier: QueueFrontier<S>)
        ensures
            frontier.order() == Seq::<Node<S>>::empty(),
    {
        broadcast use vstd::seq_lib::group_to_multiset_ensures;

        let frontier = QueueFrontier { queue: VecDeque::new() };
        assert(frontier.order().to_multiset().len() == 0);
        assert(frontier.order().to_multiset() =~= Multiset::<Node<S>>::empty());
        frontier
    }

    fn clear(&mut self)
        ensures
            final(self).order() == Seq::<Node<S>>::empty(),
    {
        broadcast use vstd::seq_lib::group_to_multiset_ensures;

        self.queue.clear();
        assert(self.order().to_multiset().len() == 0);
        assert(self.order().to_multiset() =~= Multiset::<Node<S>>::empty());
    }

    fn is_empty(&self) -> (b: bool)
        ensures
            b == (self.order().len() == 0),
    {
        broadcast use vstd::seq_lib::group_to_multiset_ensures;

        self.queue.len() == 0
    }

    fn insert(&mut self, node: Node<S>)
        ensures
            final(self).order() == old(self).order().push(node),
    {
        broadcast use vstd::seq_lib::group_to_multiset_ensures;

        self.queue.push_back(node);
    }

    fn pop(&mut self) -> (node: Option<Node<S>>)
        ensures
            node is Some == (old(self).order().len() > 0),
            node matches Some(n) ==> n == old(self).order().first() && final(self).order() == old(
                self,
            ).order().drop_first(),
    {
        broadcast use vstd::seq_lib::group_to_multiset_ensures;

        let ghost before = self.order();
        let node = self.queue.pop_front();
        proof {
            if before.len() > 0 {
                assert(self.order() =~= before.remove(0));
                assert(before.contains(before[0]));
                let n = before[0];
                assert forall|floor: nat| #[trigger] old(self).orderly(floor) implies self.orderly(
                    n.depth(),
                ) by {
                    assert forall|i: int| 0 <= i < self.order().len() implies (
                    #[trigger] self.order()[i]).wf() && n.depth() <= self.order()[i].depth()
                        <= n.depth() + 1 by {
                        assert(self.order()[i] == before[i + 1]);
                    }
                    assert forall|i: int, j: int| 0 <= i < j < self.order().len() implies (
                    #[trigger] self.order()[i]).depth() <= (#[trigger] self.order()[j]).depth() by {
                        assert(self.order()[i] == before[i + 1]);
                        assert(self.order()[j] == before[j + 1]);
                    }
                }
                assert forall|floor: nat, m: Node<S>|
                    #[trigger] old(self).orderly(floor) && #[trigger] old(self).contents().count(m)
                        > 0 && m.origin() == n.origin() implies n.path().len() <= m.path().len() by {
                    assert(before.contains(m));
                    let j = choose|j: int| 0 <= j < before.len() && before[j] == m;
                    n.lemma_cost_depth_consistency();
                    m.lemma_cost_depth_consistency();
                }
            }
        }
        node
    }

    fn size(&self) -> (n: usize)
        ensures
            n == self.order().len(),
    {
        broadcast use vstd::seq_lib::group_to_multiset_ensures;

        self.queue.len()
    }
}

/// Last in, first out.
pub struct StackFrontier<S: State> {
    stack: VecDeque<Node<S>>,
}

impl<S: State> StackFrontier<S> {
    /// The waiting nodes, the one that leaves next last.
    pub closed spec fn order(&self) -> Seq<Node<S>> {
        self.stack@
    }
}

impl<S: State> Frontier<S> for StackFrontier<S> {
    open spec fn wf(&self) -> bool {
        true
    }

    open spec fn contents(&self) -> Multiset<Node<S>> {
        self.order().to_multiset()
    }

    /// Any order will do.
    open spec fn orderly(&self, floor: nat) -> bool {
        true
    }

    /// The node that was put in last leaves, whatever else waits.
    open spec fn leaves_first(origin: S, first: Seq<S::Action>, other: Seq<S::Action>) -> bool {
        true
    }

    fn new() -> (frontier: StackFrontier<S>)
        ensures
            frontier.order() == Seq::<Node<S>>::empty(),
    {
        broadcast use vstd::seq_lib::group_to_multiset_ensures;

        let frontier = StackFrontier { stack: VecDeque::new() };
        assert(frontier.order().to_multiset().len() == 0);
        assert(frontier.order().to_multiset() =~= Multiset::<Node<S>>::empty());
        frontier
    }

    fn clear(&mut self)
        ensures
            final(self).order() == Seq::<Node<S>>::empty(),
    {
        broadcast use vstd::seq_lib::group_to_multiset_ensures;

        self.stack.clear();
        assert(self.order().to_multiset().len() == 0);
        assert(self.order().to_multiset() =~= Multiset::<Node<S>>::empty());
    }

    fn is_empty(&self) -> (b: bool)
        ensures
            b == (self.order().len() == 0),
    {
        broadcast use vstd::seq_lib::group_to_multiset_ensures;

        self.stack.len() == 0
    }

    fn insert(&mut self, node: Node<S>)
        ensures
            final(self).order() == old(self).order().push(node),
    {
        broadcast use vstd::seq_lib::group_to_multiset_ensures;

        self.stack.push_back(node);
    }

    fn pop(&mut self) -> (node: Option<Node<S>>)
        ensures
            node is Some == (old(self).order().len() > 0),
            node matches Some(n) ==> n == old(self).order().last() && final(self).order() == old(
                self,
            ).order().drop_last(),
    {
        broadcast use vstd::seq_lib::group_to_multiset_ensures;

        let ghost before = self.order();
        let node = self.stack.pop_back();
        proof {
            if before.len() > 0 {
                assert(self.order() =~= before.remove(before.len() - 1));
                assert(before.contains(before[before.len() - 1]));
            }
        }
        node
    }

    fn size(&self) -> (n: usize)
        ensures
            n == self.order().len(),
    {
        broadcast use vstd::seq_lib::group_to_multiset_ensures;

        self.stack.len()
    }
}

/// `<[T]>::swap`: exchanges two items of a vector. The contract claims that
/// afterwards each of the two places holds what the other held, and every
/// other place what it held before.
#[verifier::external_body]
fn swap_items<T>(items: &mut Vec<T>, i: usize, j: usize)
    requires
        i < old(items).len(),
        j < old(items).len(),
    ensures
        final(items)@ == old(items)@.update(i as int, old(items)@[j as int]).update(
            j as int,
            old(items)@[i as int],
        ),
{
    items.swap(i, j)
}

/// The place above place `i` in a heap.
pub open spec fn above(i: int) -> int {
    (i - 1) / 2
}

/// Whether no key is smaller than the key above it.
pub open spec fn heap_ordered(keys: Seq<u64>) -> bool {
    forall|i: int| 1 <= i < keys.len() ==> keys[above(i)] <= #[trigger] keys[i]
}

/// Whether the keys are ordered as a heap but for place `hole`, whose key
/// may be smaller than the key above it; the keys below `hole` are no
/// smaller than the key above `hole`.
pub open spec fn ordered_but_above(keys: Seq<u64>, hole: int) -> bool {
    &&& forall|i: int| 1 <= i < keys.len() && i != hole ==> keys[above(i)] <= #[trigger] keys[i]
    &&& forall|i: int|
        1 <= i < keys.len() && above(i) == hole && hole >= 1 ==> keys[above(hole)]
            <= #[trigger] keys[i]
}

/// Whether the keys are ordered as a heap but for place `hole`, whose key
/// may be greater than the keys below it; the keys below `hole` are no
/// smaller than the key above `hole`.
pub open spec fn ordered_but_below(keys: Seq<u64>, hole: int) -> bool {
    &&& forall|i: int|
        1 <= i < keys.len() && above(i) != hole ==> keys[above(i)] <= #[trigger] keys[i]
    &&& forall|i: int|
        1 <= i < keys.len() && above(i) == hole && hole >= 1 ==> keys[above(hole)]
            <= #[trigger] keys[i]
}

/// The first key of a heap is the least.
pub proof fn lemma_heap_least(keys: Seq<u64>, i: int)
    requires
        heap_ordered(keys),
        0 <= i < keys.len(),
    ensures
        keys[0] <= keys[i],
    decreases i,
{
    if i > 0 {
        lemma_heap_least(keys, above(i));
    }
}

/// Exchanging two items of a sequence changes nothing in what it holds.
pub proof fn lemma_swap_to_multiset<T>(items: Seq<T>, i: int, j: int)
    requires
        0 <= i < items.len(),
        0 <= j < items.len(),
    ensures
        items.update(i, items[j]).update(j, items[i]).to_multiset() == items.to_multiset(),
{
    broadcast use vstd::seq_lib::group_to_multiset_ensures;
    broadcast use vstd::multiset::group_multiset_axioms;

    let once = items.update(i, items[j]);
    vstd::seq_lib::to_multiset_update(items, i, items[j]);
    vstd::seq_lib::to_multiset_update(once, j, items[i]);
    assert(items.contains(items[i]));
    assert(items.contains(items[j]));
    assert(items.to_multiset().insert(items[j]).remove(items[i]).insert(items[i]).remove(once[j])
        =~= items.to_multiset());
}

/// Lowest evaluation first; among nodes of the same evaluation any may
/// leave first.
pub struct PriorityQueueFrontier<S: State> {
    nodes: Vec<Node<S>>,
    keys: Vec<u64>,
}

impl<S: State> PriorityQueueFrontier<S> {
    /// The waiting nodes as the heap holds them.
    pub closed spec fn nodes(&self) -> Seq<Node<S>> {
        self.nodes@
    }

    /// The evaluations of the waiting nodes, place by place.
    pub closed spec fn keys(&self) -> Seq<u64> {
        self.keys@
    }

    /// Whether each key is the evaluation of the node in its place.
    pub open spec fn keyed(&self) -> bool {
        &&& self.nodes().len() == self.keys().len()
        &&& forall|i: int|
            0 <= i < self.nodes().len() ==> (#[trigger] self.nodes()[i]).wf() && self.keys()[i]
                == self.nodes()[i].evaluation()
    }

    /// Exchanges the nodes of two places, with their keys.
    fn swap(&mut self, i: usize, j: usize)
        requires
            old(self).keyed(),
            i < old(self).nodes().len(),
            j < old(self).nodes().len(),
        ensures
            final(self).keyed(),
            final(self).nodes() == old(self).nodes().update(i as int, old(self).nodes()[j as int]).update(
                j as int,
                old(self).nodes()[i as int],
            ),
            final(self).keys() == old(self).keys().update(i as int, old(self).keys()[j as int]).update(
                j as int,
                old(self).keys()[i as int],
            ),
            final(self).contents() == old(self).contents(),
    {
        proof {
            lemma_swap_to_multiset(self.nodes@, i as int, j as int);
        }
        swap_items(&mut self.nodes, i, j);
        swap_items(&mut self.keys, i, j);
    }

    /// Moves the node of place `start` up to where no key above it is
    /// greater.
    fn sift_up(&mut self, start: usize)
        requires
            old(self).keyed(),
            start < old(self).nodes().len(),
            ordered_but_above(old(self).keys(), start as int),
        ensures
            final(self).wf(),
            final(self).contents() == old(self).contents(),
    {
        let mut i = start;
        while i > 0
            invariant
                self.keyed(),
                i < self.nodes().len(),
                ordered_but_above(self.keys(), i as int),
                self.contents() == old(self).contents(),
            ensures
                self.keyed(),
                heap_ordered(self.keys()),
                self.contents() == old(self).contents(),
            decreases i,
        {
            let up = (i - 1) / 2;
            if self.keys[up] <= self.keys[i] {
                break ;
            }
            self.swap(up, i);
            i = up;
        }
    }

    /// Moves the node of place `start` down to where no key below it is
    /// smaller.
    fn sift_down(&mut self, start: usize)
        requires
            old(self).keyed(),
            start < old(self).nodes().len(),
            ordered_but_below(old(self).keys(), start as int),
        ensures
            final(self).wf(),
            final(self).contents() == old(self).contents(),
    {
        let len = self.keys.len();
        let mut i = start;
        while i < len / 2
            invariant
                self.keyed(),
                len == self.nodes().len(),
                i < len,
                ordered_but_below(self.keys(), i as int),
                self.contents() == old(self).contents(),
            ensures
                self.keyed(),
                heap_ordered(self.keys()),
                self.contents() == old(self).contents(),
            decreases len - i,
        {
            let left = 2 * i + 1;
            let right = left + 1;
            let least = if right < len && self.keys[right] < self.keys[left] {
                right
            } else {
                left
            };
            if self.keys[i] <= self.keys[least] {
                break ;
            }
            self.swap(i, least);
            i = least;
        }
    }
}

impl<S: State> Frontier<S> for PriorityQueueFrontier<S> {
    open spec fn wf(&self) -> bool {
        self.keyed() && heap_ordered(self.keys())
    }

    open spec fn contents(&self) -> Multiset<Node<S>> {
        self.nodes().to_multiset()
    }

    /// Any order of putting in will do.
    open spec fn orderly(&self, floor: nat) -> bool {
        true
    }

    /// The node that leaves has no higher an evaluation than any that
    /// waits.
    open spec fn leaves_first(origin: S, first: Seq<S::Action>, other: Seq<S::Action>) -> bool {
        evaluation_of(origin, first) <= evaluation_of(origin, other)
    }

    fn new() -> (frontier: PriorityQueueFrontier<S>) {
        broadcast use vstd::seq_lib::group_to_multiset_ensures;

        let frontier = PriorityQueueFrontier { nodes: Vec::new(), keys: Vec::new() };
        assert(frontier.nodes().to_multiset().len() == 0);
        assert(frontier.nodes().to_multiset() =~= Multiset::<Node<S>>::empty());
        frontier
    }

    fn clear(&mut self) {
        broadcast use vstd::seq_lib::group_to_multiset_ensures;

        self.nodes.clear();
        self.keys.clear();
        assert(self.nodes().to_multiset().len() == 0);
        assert(self.nodes().to_multiset() =~= Multiset::<Node<S>>::empty());
    }

    fn is_empty(&self) -> (b: bool) {
        broadcast use vstd::seq_lib::group_to_multiset_ensures;

        self.nodes.len() == 0
    }

    fn insert(&mut self, node: Node<S>) {
        broadcast use vstd::seq_lib::group_to_multiset_ensures;

        let key = node.eval();
        self.nodes.push(node);
        self.keys.push(key);
        let last = self.nodes.len() - 1;
        self.sift_up(last);
    }

    /// The node that leaves has the lowest evaluation of those that wait.
    fn pop(&mut self) -> (node: Option<Node<S>>)
        ensures
            node matches Some(n) ==> forall|m: Node<S>| #[trigger]
                old(self).contents().contains(m) ==> n.evaluation() <= m.evaluation(),
    {
        broadcast use vstd::seq_lib::group_to_multiset_ensures;

        if self.nodes.len() == 0 {
            return None;
        }
        let ghost before = self.nodes();
        let ghost keys_before = self.keys();
        proof {
            assert forall|m: Node<S>| #[trigger] before.to_multiset().contains(m) implies before[0].evaluation()
                <= m.evaluation() by {
                assert(before.contains(m));
                let i = choose|i: int| 0 <= i < before.len() && before[i] == m;
                lemma_heap_least(keys_before, i);
            }
            assert forall|floor: nat, m: Node<S>|
                #[trigger] old(self).orderly(floor) && #[trigger] old(self).contents().count(m) > 0
                    && m.origin() == before[0].origin() implies Self::leaves_first(
                before[0].origin(),
                before[0].path(),
                m.path(),
            ) by {
                assert(before.contains(m));
                let i = choose|i: int| 0 <= i < before.len() && before[i] == m;
                lemma_heap_least(keys_before, i);
                before[0].lemma_cost_depth_consistency();
                m.lemma_cost_depth_consistency();
            }
        }
        let last = self.nodes.len() - 1;
        self.swap(0, last);
        let ghost swapped = self.nodes();
        let node = self.nodes.pop();
        let _ = self.keys.pop();
        proof {
            assert(swapped[last as int] == before[0]);
            assert(self.nodes() =~= swapped.remove(last as int));
            assert(before.contains(before[0]));
        }
        if self.nodes.len() > 0 {
            self.sift_down(0);
        }
        node
    }

    fn size(&self) -> (n: usize) {
        broadcast use vstd::seq_lib::group_to_multiset_ensures;

        self.nodes.len()
    }
}

} // verus!
