//! What a player does on a turn.

use crate::direction::{pt, Direction, Square};
use crate::piece::Piece;
use crate::player::Score;
use vstd::prelude::*;

verus! {

#[derive(Debug)]
pub enum Move {
    /// Hand the tiles back and draw new ones. Changes nothing on the board
    /// and wins no points.
    SwapPieces,
    /// Lay the tiles out from the square in the direction, for the score.
    PlacePieces(Square, Direction, Vec<Piece>, Score),
}

/// A move as a mathematical value.
pub enum MoveView {
    Swap,
    Place { start: (int, int), direction: Direction, pieces: Seq<Piece>, score: nat },
}

impl View for Move {
    type V = MoveView;

    open spec fn view(&self) -> MoveView {
        match *self {
            Move::SwapPieces => MoveView::Swap,
            Move::PlacePieces(sq, direction, pieces, score) => MoveView::Place {
                start: pt(sq),
                direction,
                pieces: pieces@,
                score: score as nat,
            },
        }
    }
}

} // verus!
