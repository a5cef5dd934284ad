//! A bitboard Othello engine: move generation, capture resolution,
//! terminal detection, a positional evaluator and a time-bounded
//! alpha-beta search, with contracts stated over the squares of the board.

pub mod bits;
pub mod constants;
pub mod board;
pub mod ai_logic;
