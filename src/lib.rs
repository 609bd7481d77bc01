//! A falling-block puzzle engine: pieces and their rotation, the board with
//! collision tests, locking and line clearing, a bag randomizer, and the game
//! state machine that ties them together.
pub mod bag;
pub mod board;
pub mod display;
pub mod game;
pub mod input;
pub mod piece;
pub mod util;

pub use bag::PieceBag;
pub use board::Board;
pub use display::{Display, Pixel};
pub use game::{Game, GameUpdate, Key, BOARD_HEIGHT, BOARD_WIDTH, HIDDEN_ROWS};
pub use input::{key_from_byte, key_from_escape, ESCAPE};
pub use piece::Piece;
pub use util::{Color, Direction, Point};
