//! A chess rule engine with hybrid pieces: a piece that moves onto a piece of
//! its own color merges with it, and the merged piece moves as either could.

pub mod ai;
pub mod board;
pub mod interface;
pub mod loc;
pub mod piece;
pub mod rules;

pub use board::Board;
pub use interface::Interface;
pub use loc::Loc;
pub use piece::Piece;
