//! A generic tree-search engine.
//!
//! A domain is given as a type of states and a type of actions. The engine
//! looks for a sequence of actions that leads from a start state to a goal
//! state. A frontier chooses the order in which the pending nodes are
//! expanded, a strategy the part of the tree that is explored.
//!
//! Costs, heuristic estimates and limits are whole numbers of cost units. A
//! search is given a budget of expansions, so that it comes to an end
//! whatever the domain.
pub mod action;
pub mod state;
pub mod node;
pub mod frontier;
pub mod expansion;
pub mod search;
pub mod text;
pub mod puzzles;
pub mod test;
