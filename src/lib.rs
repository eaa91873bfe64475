//! A move-selection engine for Ultimate Tic-Tac-Toe: the rules of the game,
//! an environment over action codes, Monte Carlo tree search and flat
//! Monte Carlo rollouts.

use vstd::prelude::*;

pub mod player;
pub mod winner;
pub mod small_board;
pub mod big_board;
pub mod game;
pub mod env;
mod random;
pub mod mcts;
pub mod pmcts;

verus! {

} // verus!
