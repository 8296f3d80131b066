use puzzle_solver::frontier::{Frontier, PriorityQueueFrontier, QueueFrontier, StackFrontier};
use puzzle_solver::node::Node;
use puzzle_solver::puzzles::silly_puzzle::SillyPuzzle;

fn root(n: i32) -> Node<SillyPuzzle> {
    Node::new(&SillyPuzzle::new(n))
}

#[test]
fn queue_frontier_hands_out_first_what_came_first() {
    let mut frontier = QueueFrontier::<SillyPuzzle>::new();
    assert!(frontier.is_empty());
    assert_eq!(frontier.size(), 0);
    frontier.insert(root(1));
    frontier.insert(root(2));
    frontier.insert(root(3));
    assert!(!frontier.is_empty());
    assert_eq!(frontier.size(), 3);
    assert_eq!(frontier.pop().unwrap().get_state().n, 1);
    assert_eq!(frontier.pop().unwrap().get_state().n, 2);
    frontier.insert(root(4));
    assert_eq!(frontier.pop().unwrap().get_state().n, 3);
    assert_eq!(frontier.pop().unwrap().get_state().n, 4);
    assert!(frontier.pop().is_none());
    assert!(frontier.is_empty());
}

#[test]
fn stack_frontier_hands_out_first_what_came_last() {
    let mut frontier = StackFrontier::<SillyPuzzle>::new();
    assert!(frontier.is_empty());
    frontier.insert(root(1));
    frontier.insert(root(2));
    frontier.insert(root(3));
    assert_eq!(frontier.size(), 3);
    assert_eq!(frontier.pop().unwrap().get_state().n, 3);
    frontier.insert(root(4));
    assert_eq!(frontier.pop().unwrap().get_state().n, 4);
    assert_eq!(frontier.pop().unwrap().get_state().n, 2);
    assert_eq!(frontier.pop().unwrap().get_state().n, 1);
    assert!(frontier.pop().is_none());
    assert_eq!(frontier.size(), 0);
}

#[test]
fn priority_frontier_hands_out_the_lowest_evaluation_first() {
    let mut frontier = PriorityQueueFrontier::<SillyPuzzle>::new();
    assert!(frontier.is_empty());
    // the evaluation of a root is its distance from 69
    for n in [60, 69, 10, 68, 100, 70, 0] {
        frontier.insert(root(n));
    }
    assert_eq!(frontier.size(), 7);
    let mut popped = Vec::new();
    while let Some(node) = frontier.pop() {
        popped.push(node.eval());
    }
    assert_eq!(popped, vec![0, 1, 1, 9, 31, 59, 69]);
    assert!(frontier.is_empty());
    assert!(frontier.pop().is_none());
}

#[test]
fn priority_frontier_sorts_many_nodes() {
    let mut frontier = PriorityQueueFrontier::<SillyPuzzle>::new();
    let mut seed: u64 = 12345;
    let mut expected = Vec::new();
    for _ in 0..500 {
        seed = seed.wrapping_mul(6364136223846793005).wrapping_add(1442695040888963407);
        let n = ((seed >> 33) % 10000) as i32 - 5000;
        expected.push((69 - n).unsigned_abs() as u64);
        frontier.insert(root(n));
    }
    expected.sort();
    assert_eq!(frontier.size(), 500);
    let mut popped = Vec::new();
    while let Some(node) = frontier.pop() {
        popped.push(node.eval());
    }
    assert_eq!(popped, expected);
}

#[test]
fn priority_frontier_takes_nodes_between_pops() {
    let mut frontier = PriorityQueueFrontier::<SillyPuzzle>::new();
    frontier.insert(root(50));
    frontier.insert(root(40));
    assert_eq!(frontier.pop().unwrap().get_state().n, 50);
    frontier.insert(root(65));
    frontier.insert(root(30));
    assert_eq!(frontier.pop().unwrap().get_state().n, 65);
    assert_eq!(frontier.pop().unwrap().get_state().n, 40);
    assert_eq!(frontier.pop().unwrap().get_state().n, 30);
    assert!(frontier.pop().is_none());
}

#[test]
fn clear_empties_each_frontier() {
    let mut queue = QueueFrontier::<SillyPuzzle>::new();
    let mut stack = StackFrontier::<SillyPuzzle>::new();
    let mut priority = PriorityQueueFrontier::<SillyPuzzle>::new();
    for n in 0..5 {
        queue.insert(root(n));
        stack.insert(root(n));
        priority.insert(root(n));
    }
    queue.clear();
    stack.clear();
    priority.clear();
    assert!(queue.is_empty() && stack.is_empty() && priority.is_empty());
    assert_eq!(queue.size() + stack.size() + priority.size(), 0);
    assert!(queue.pop().is_none() && stack.pop().is_none() && priority.pop().is_none());
    priority.insert(root(3));
    assert_eq!(priority.pop().unwrap().get_state().n, 3);
}
