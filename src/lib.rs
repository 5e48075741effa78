//! Streets and Alleys solitaire: the board model, the rules for moving
//! cards, and the decisions that drive a session of play.

pub mod board;
pub mod card;
pub mod keys;
pub mod game;
