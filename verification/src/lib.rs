//! A falling-block puzzle game: the playing field, the pieces and their moves,
//! line clearing, the piece queue and a simple placement search.

pub mod block_kind;
pub mod block;
pub mod random;
pub mod game;
pub mod ai;
pub mod ga;
pub mod control;
