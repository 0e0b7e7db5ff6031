//! A placement under construction: the node of the move search.

use crate::direction::{fits, pt, Direction, Square};
use crate::linevalidator::{Line, LineValidator};
use crate::mv::{Move, MoveView};
use crate::piece::Piece;
use crate::player::Score;
use vstd::prelude::*;

verus! {

/// A candidate placement: the tiles chosen so far, where they would go, and
/// what is known of the lines they would form.
///
/// The search offers a placement to the board tile by tile: all but the
/// last tile have been judged already, and `main_validator`, `perp_scores`
/// and `mainline_score` hold what was found for them.
pub struct Partial {
    pub start_square: Square,
    pub direction: Direction,
    pub pieces: Vec<Piece>,
    /// The square that the last tile of `pieces` would stand on.
    pub last_square: Square,
    /// What the line along `direction` is worth.
    pub mainline_score: Score,
    /// What the lines across `direction` are worth, taken together.
    pub perp_scores: Score,
    /// The state of the line along `direction`; `None` until the first tile
    /// has been judged.
    pub main_validator: Option<LineValidator>,
}

/// A placement under construction as a mathematical value.
pub struct PartialView {
    pub start: (int, int),
    pub direction: Direction,
    pub pieces: Seq<Piece>,
    pub last: (int, int),
    pub mainline_score: nat,
    pub perp_scores: nat,
    pub validator: Option<Line>,
}

impl PartialView {
    /// The placement of one tile, not judged yet.
    pub open spec fn single(start: (int, int), direction: Direction, piece: Piece) -> PartialView {
        PartialView {
            start,
            direction,
            pieces: seq![piece],
            last: start,
            mainline_score: 0,
            perp_scores: 0,
            validator: None,
        }
    }

    pub open spec fn total_score(self) -> nat {
        self.mainline_score + self.perp_scores
    }

    /// The placement as a move.
    pub open spec fn as_move(self) -> MoveView {
        MoveView::Place {
            start: self.start,
            direction: self.direction,
            pieces: self.pieces,
            score: self.total_score(),
        }
    }

    /// The placement with `piece` as one tile more, one square further, if
    /// the line along the direction is known and accepts the tile.
    pub open spec fn child(self, piece: Piece) -> Option<PartialView> {
        match self.validator {
            None => None,
            Some(line) => if line.accepts(piece) {
                Some(
                    PartialView {
                        start: self.start,
                        direction: self.direction,
                        pieces: self.pieces.push(piece),
                        last: self.direction.step(self.last),
                        mainline_score: self.mainline_score,
                        perp_scores: self.perp_scores,
                        validator: Some(line.extend(piece)),
                    },
                )
            } else {
                None
            },
        }
    }
}

impl View for Partial {
    type V = PartialView;

    open spec fn view(&self) -> PartialView {
        PartialView {
            start: pt(self.start_square),
            direction: self.direction,
            pieces: self.pieces@,
            last: pt(self.last_square),
            mainline_score: self.mainline_score as nat,
            perp_scores: self.perp_scores as nat,
            validator: match self.main_validator {
                None => None,
                Some(lv) => Some(lv@),
            },
        }
    }
}

impl Partial {
    /// The validator, where there is one, holds between one and six tiles.
    pub open spec fn wf(&self) -> bool {
        self.main_validator matches Some(lv) ==> lv.wf()
    }

    pub fn new(square: Square, direction: &Direction, piece: Piece) -> (p: Partial)
        ensures
            p@ == PartialView::single(pt(square), *direction, piece),
            p.wf(),
    {
        let mut pieces: Vec<Piece> = Vec::new();
        pieces.push(piece);
        assert(pieces@ =~= seq![piece]);
        Partial {
            start_square: square,
            direction: *direction,
            pieces,
            mainline_score: 0,
            perp_scores: 0,
            last_square: square,
            main_validator: None,
        }
    }

    pub fn total_score(&self) -> (r: Score)
        requires
            self.mainline_score + self.perp_scores <= usize::MAX,
        ensures
            r == self@.total_score(),
    {
        self.mainline_score + self.perp_scores
    }

    pub fn save_as_move(&self) -> (m: Move)
        requires
            self.mainline_score + self.perp_scores <= usize::MAX,
        ensures
            m@ == self@.as_move(),
    {
        Move::PlacePieces(
            self.start_square,
            self.direction,
            clone_pieces(&self.pieces),
            self.total_score(),
        )
    }

    /// The placement with `next_piece` as one tile more, where the line
    /// along the direction is known and accepts the tile. This placement
    /// stays as it is, so several tiles can be tried from it.
    pub fn try_extend(&self, next_piece: Piece) -> (r: Option<Partial>)
        requires
            self.wf(),
            fits(self.direction.step(pt(self.last_square))),
        ensures
            match r {
                Some(p) => self@.child(next_piece) == Some(p@) && p.wf(),
                None => self@.child(next_piece) is None,
            },
    {
        match self.main_validator {
            None => None,
            Some(ref lv) => {
                match lv.clone_extend(next_piece) {
                    None => None,
                    Some(lv2) => {
                        let mut new_pieces = clone_pieces(&self.pieces);
                        new_pieces.push(next_piece);
                        Some(
                            Partial {
                                start_square: self.start_square,
                                direction: self.direction,
                                pieces: new_pieces,
                                mainline_score: self.mainline_score,
                                perp_scores: self.perp_scores,
                                last_square: self.direction.apply(self.last_square),
                                main_validator: Some(lv2),
                            },
                        )
                    },
                }
            },
        }
    }
}

/// A copy of the tiles.
pub(crate) fn clone_pieces(pieces: &Vec<Piece>) -> (r: Vec<Piece>)
    ensures
        r@ == pieces@,
{
    let r = pieces.clone();
    assert(r@ =~= pieces@);
    r
}

} // verus!
