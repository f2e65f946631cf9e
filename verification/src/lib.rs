//! An engine for a game of pawns, drones and queens on a board of four
//! columns and eight rows, where a piece belongs to the player in whose
//! half of the board it stands.

pub mod bits;
pub mod board;
pub mod fen;
pub mod gen_tables;
pub mod legal;
pub mod position;
pub mod search;
pub mod show;

pub use board::{Board, JsBoard, Piece, SQUARE};
pub use gen_tables::{stringify_move, BitStack, LocStack, LocStack64, Tables};
pub use position::{JsPosition, Position};
pub use search::Searcher;
