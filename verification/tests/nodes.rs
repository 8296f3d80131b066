use std::rc::Rc;

use puzzle_solver::action::Action;
use puzzle_solver::node::Node;
use puzzle_solver::puzzles::fifteen_puzzle::{FifteenPuzzle, FifteenPuzzleAction};
use puzzle_solver::puzzles::silly_puzzle::{SillyPuzzle, SillyPuzzleAction};

#[test]
fn a_root_has_no_parent_no_action_no_cost_and_no_depth() {
    let node = Node::new(&SillyPuzzle::new(7));
    assert_eq!(node.get_state().n, 7);
    assert!(node.get_parent_node().is_none());
    assert!(node.get_action().is_none());
    assert_eq!(node.get_path_cost(), 0);
    assert_eq!(node.get_depth(), 0);
    assert_eq!(node.eval(), 62);
    assert_eq!(node.get_possible_actions().len(), 2);
}

#[test]
fn cost_and_depth_count_the_actions_that_lead_to_a_node() {
    let up = SillyPuzzleAction::new(1);
    let down = SillyPuzzleAction::new(-1);
    let root = Rc::new(Node::new(&SillyPuzzle::new(0)));
    let first = Rc::new(Node::next_node(Rc::clone(&root), &up));
    let second = Rc::new(Node::next_node(Rc::clone(&first), &up));
    let third = Node::next_node(Rc::clone(&second), &down);
    assert_eq!(first.get_depth(), 1);
    assert_eq!(second.get_depth(), 2);
    assert_eq!(third.get_depth(), 3);
    assert_eq!(third.get_path_cost(), 3);
    assert_eq!(third.get_state().n, 1);
    assert_eq!(third.eval(), 3 + 68);
    assert!(third.get_action().unwrap().equals(&down));
    // the cost is the summed cost of the actions on the way up to the root
    let mut node = &third;
    let mut summed = 0;
    let mut ancestors = 0;
    while let Some(parent) = node.get_parent_node() {
        summed += node.get_action().unwrap().get_cost() as u64;
        ancestors += 1;
        node = parent;
    }
    assert_eq!(summed, third.get_path_cost());
    assert_eq!(ancestors, third.get_depth());
    assert_eq!(node.get_state().n, 0);
}

#[test]
fn children_share_their_parent() {
    let root = Rc::new(Node::new(&FifteenPuzzle::default()));
    let actions = root.get_possible_actions();
    assert_eq!(actions.len(), 2);
    let left = Node::next_node(Rc::clone(&root), &actions[0]);
    let right = Node::next_node(Rc::clone(&root), &actions[1]);
    assert_eq!(left.get_parent_node().unwrap().get_state().board, 0xfedcba9876543210);
    assert_eq!(right.get_parent_node().unwrap().get_state().board, 0xfedcba9876543210);
    assert_eq!(left.get_state().board, 0xfedcba9876543201);
    assert_eq!(right.get_state().board, 0xfedcba9876503214);
    assert!(left.get_action().unwrap().equals(&FifteenPuzzleAction::new(1)));
    assert_eq!(left.get_depth(), 1);
    assert_eq!(right.get_path_cost(), 1);
    assert_eq!(Rc::strong_count(&root), 3);
}
