//! The domains that come with the engine.
pub mod silly_puzzle;
pub mod fifteen_puzzle;
pub mod fifteen_puzzle_fast;
pub mod rubiks_cube;
