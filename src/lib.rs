mod api;
mod board;
mod forced;
mod geometry;
mod movegen;
mod search;
mod types;

pub use api::{forced_moves, get_best_move, get_winner, possible_moves};
pub use board::Board;
pub use types::{Color, IFigure, Kind, Move, MoveError};
