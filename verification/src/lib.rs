//! Monte-Carlo tree search over chess positions, kept alive across the moves
//! of a game, with the session logic that drives it.

pub mod game;
pub mod mcts;
pub mod rules;
pub mod utils;
