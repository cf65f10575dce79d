//! Monte Carlo tree search over deterministic, perfect-information,
//! turn-based games, with a tic-tac-toe board as a concrete game.

pub mod game;
pub mod mcts;
pub mod ucb;
pub mod tic_tac_toe;
pub mod tree;
