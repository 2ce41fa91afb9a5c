//! A solver for a tarot-deck patience game: card model, board state, the
//! automatic cascade into the foundations, the manual-move generator and a
//! best-first search over boards.

pub mod card;
pub mod board;
pub mod moves;
pub mod search;
pub mod parse;
pub mod confluence;
