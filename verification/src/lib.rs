//! A move generator for a tile-matching game played on a square grid.
//!
//! Tiles carry one of six colours and one of six shapes. A line of tiles is
//! legal when its tiles share a colour and differ in shape, or share a shape
//! and differ in colour. The crate keeps the board, checks and scores
//! candidate placements incrementally, and searches a player's hand for the
//! highest-scoring placement.

pub mod board;
pub mod direction;
pub mod gamestate;
pub mod linevalidator;
pub mod mv;
pub mod partial;
pub mod piece;
pub mod player;
pub mod rules;
pub mod search;
