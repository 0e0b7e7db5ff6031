//! A player: the tiles in hand and the points won so far.

use crate::piece::Bag;
use vstd::prelude::*;

verus! {

pub type Score = usize;

#[derive(Debug, Clone)]
pub struct PlayerState {
    pub bag: Bag,
    pub score: Score,
}

impl PlayerState {
    /// A player with no tiles and no points.
    pub fn new() -> (ps: PlayerState)
        ensures
            ps.bag@ == Seq::<crate::piece::Piece>::empty(),
            ps.score == 0,
    {
        PlayerState { bag: Vec::new(), score: 0 }
    }
}

} // verus!
