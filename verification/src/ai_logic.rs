#![allow(non_camel_case_types)]

use vstd::prelude::*;
use crate::bits::{bit, is_set, is_square, popcount};
use crate::board::Board;
use crate::constants::{Color, Difficulty};

pub mod minimax;
pub mod random_ai;

verus! {

/// The seconds that a search may spend on one turn.
pub const TURN_SECONDS: u64 = 30;

/// How the computer picks its move.
#[derive(Clone, Copy, Debug, PartialEq, Eq, Structural)]
pub enum AI_Type {
    Random,
    Minimax,
    MCTS,
}

/// The computer's side of a game: how it picks a move, and which colour it plays.
#[derive(Clone, Copy, Debug)]
pub struct AI_Logic_Handler {
    pub ai: AI_Type,
    pub color: Color,
}

/// The way of picking a move that goes with a difficulty: random play for
/// `Easy`, tree search for `Hard`, minimax for everything else.
pub open spec fn ai_for(ai_difficulty: Difficulty) -> AI_Type {
    match ai_difficulty {
        Difficulty::Easy => AI_Type::Random,
        Difficulty::Normal => AI_Type::Minimax,
        Difficulty::Hard => AI_Type::MCTS,
        Difficulty::Unset => AI_Type::Minimax,
    }
}

impl AI_Logic_Handler {
    /// A handler that plays `color` at the given difficulty.
    pub fn new(color: Color, ai_difficulty: Difficulty) -> (handler: Self)
        ensures
            handler.color == color,
            handler.ai == ai_for(ai_difficulty),
    {
        let ai = match ai_difficulty {
            Difficulty::Easy => AI_Type::Random,
            Difficulty::Normal => AI_Type::Minimax,
            Difficulty::Hard => AI_Type::MCTS,
            _ => AI_Type::Minimax,
        };
        Self { ai, color }
    }

    /// The computer's move on `board`, as a mask of one square, or 0
    /// where it has none. Random play picks from `possible_moves`; the
    /// search works out the legal moves of the side to move itself and
    /// gives 0 only where there are none; tree search is not there yet
    /// and never moves.
    pub fn get_ai_move(&self, possible_moves: &u64, board: Board) -> (selected: u64)
        requires
            board.wf(),
        ensures
            self.ai == AI_Type::MCTS ==> selected == 0,
            self.ai == AI_Type::Random ==> {
                &&& popcount(*possible_moves) == 0 ==> selected == 0
                &&& popcount(*possible_moves) > 0 ==> exists|i: int|
                    is_set(*possible_moves, i) && selected == #[trigger] bit(i)
                &&& is_square(*possible_moves) ==> selected == *possible_moves
            },
            self.ai == AI_Type::Minimax ==> {
                &&& minimax::is_choice(board, TURN_SECONDS, selected)
                &&& !board.has_no_move(board.current_player) ==> exists|i: int|
                    board.is_legal_for(board.current_player, i) && selected == #[trigger] bit(i)
                &&& board.has_no_move(board.current_player) ==> selected == 0
                &&& minimax::no_time(board, TURN_SECONDS) ==> selected == minimax::best_below(
                    board.legal(),
                    minimax::static_scores(board),
                    64,
                ).0
                &&& exists|readings: Seq<Seq<u64>>|
                    readings.len() == 64 && selected == #[trigger] minimax::timed_choice(
                        board,
                        TURN_SECONDS,
                        readings,
                    )
            },
    {
        match self.ai {
            AI_Type::Random => random_ai::get_random_move(*possible_moves),
            AI_Type::Minimax => minimax::get_minimax_move(board, TURN_SECONDS),
            AI_Type::MCTS => 0,
        }
    }
}

} // verus!
