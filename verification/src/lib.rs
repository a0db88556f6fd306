//! Monte Carlo tree search for turn-based games with full information.
//!
//! A [`SearchTree`] is made for a position of a game, searched for a number
//! of playthroughs, asked for the move to play, and moved on to the position
//! after a move, keeping what it learned about it. The game is anything that
//! implements [`GameState`]; how a node chooses among its children is a
//! [`TreePolicy`].
//!
//! `game` holds the traits of a game and what it means for a game to be
//! finite, `model` the tree as a mathematical value with every operation
//! on it, `preservation` the proofs that the operations keep a tree well
//! formed, `laws` what holds of the operations taken together, and `node` and
//! `tree` the tree that runs.

pub mod choice;
pub mod game;
pub mod laws;
pub mod model;
pub mod node;
pub mod preservation;
mod shared;
pub mod tree;

pub use game::{Action, EndStatus, GameState, Player, TreePolicy};
pub use node::Node;
pub use tree::SearchTree;
