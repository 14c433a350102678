//! N-in-a-row on an N×N board: a bitboard game model, a table of winning
//! lines, and exhaustive, alpha-beta and Monte Carlo tree search players.
use vstd::prelude::*;

pub mod bitboards;
pub mod board;
pub mod minimax;
pub mod forced;
pub mod alphabeta;
pub mod mcts;
pub mod players;
pub mod positions;

verus! {

/// Side length of the board.
pub const N: usize = 3;

/// Number of squares on the board.
pub const N2: usize = N * N;

/// Number of winning lines: N rows, N columns and two diagonals.
pub const N_STATES: usize = 2 * N + 2;

} // verus!
