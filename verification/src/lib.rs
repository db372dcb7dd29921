//! The game of Chomp: the board's alive-set, the effect of a move on it, and an
//! exhaustive search for a move that forces a win.
//!
//! - `position`: squares, board dimensions, errors.
//! - `state`: the alive-set of a board, kept in canonical order.
//! - `rules`: what a move removes and which boards are won, over sets of
//!   squares, with what holds of every board.
//! - `agent`: applying a move and searching for a winning one.
//! - `game`: one round of a game against the search.
//! - `board`: the board of a game, its setup and its grid.
//! - `grid`: what the grid shows.
//! - `text`: squares and dimensions as text.
//! - `sequences`: greatest and distinct coordinates.

pub mod agent;
pub mod board;
pub mod game;
pub mod grid;
pub mod position;
pub mod rules;
pub mod sequences;
pub mod state;
pub mod text;

pub use crate::agent::{chomp, winning_move};
pub use crate::board::{Board, Game};
pub use crate::game::{play_round, GameStatus, Round};
pub use crate::position::{BoardError, BoardSize, Position};
pub use crate::state::BoardState;
