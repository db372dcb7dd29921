//! The board of a game: its alive squares and the move that the player chose.

use crate::grid::{is_grid_of, slot_content, taken_before};
use crate::position::{BoardError, BoardSize, Position};
use crate::sequences::{columns_of, distinct, lemma_distinct_count, rows_of};
use crate::state::{listing, rectangle, BoardState};
use vstd::prelude::*;

verus! {

/// A board: the squares still in play and the player's pending move, if any.
#[derive(Debug)]
pub struct Board {
    pub state: BoardState,
    pub player_move: Option<Position>,
}

/// Setting up a game.
pub trait Game: Sized {
    /// A board before the game is set up.
    fn new() -> Self;

    /// Puts the squares of a full board of the given dimensions in play.
    fn default_state(&mut self, size: BoardSize) -> Result<(), BoardError>;
}

impl Board {
    /// The squares of `current` that are not among `chomped`. The board
    /// itself stays as it is.
    pub fn chomped_board(current: &mut Board, chomped: BoardState) -> (rest: BoardState)
        ensures
            rest@ == old(current).state@.difference(chomped@),
            *final(current) == *old(current),
    {
        current.state.difference(&chomped)
    }

    /// Lays the alive squares out as a grid, line by line.
    ///
    /// The grid has a line for each distinct row and an entry for each
    /// distinct column. The squares are dealt in canonical order to the
    /// entries column by column: an entry takes the next square where that
    /// square's row is the entry's line, counted from 1, and else shows
    /// `('_', 0)`.
    pub fn format_board(&self) -> (matrix: Vec<Vec<(char, u8)>>)
        ensures
            is_grid_of(self.state@, matrix@),
    {
        let squares = self.state.positions();
        let columns = distinct(columns_of(&squares)).len();
        let rows = distinct(rows_of(&squares)).len();
        proof {
            lemma_distinct_count(squares@, |q: Position| q.0);
            lemma_distinct_count(squares@, |q: Position| q.1);
        }
        let mut slots: Vec<(char, u8)> = Vec::new();
        let mut head: usize = 0;
        let mut column: usize = 0;
        while column < columns
            invariant
                column <= columns,
                slots@.len() == column * rows,
                head == taken_before(squares@, rows as int, column * rows),
                head <= squares@.len(),
                forall|k: int| 0 <= k < slots@.len() ==> #[trigger] slots@[k] == slot_content(
                    squares@,
                    rows as int,
                    k,
                ),
            decreases columns - column,
        {
            let mut row: usize = 0;
            while row < rows
                invariant
                    row <= rows,
                    column < columns,
                    slots@.len() == column * rows + row,
                    head == taken_before(squares@, rows as int, column * rows + row),
                    head <= squares@.len(),
                    forall|k: int| 0 <= k < slots@.len() ==> #[trigger] slots@[k] == slot_content(
                        squares@,
                        rows as int,
                        k,
                    ),
                decreases rows - row,
            {
                proof {
                    let slot = column * rows + row;
                    assert(slot % (rows as int) == row) by (nonlinear_arith)
                        requires
                            slot == column * rows + row,
                            0 <= row < rows,
                            0 <= column,
                    ;
                }
                if head < squares.len() && squares[head].1 as usize == row + 1 {
                    slots.push((squares[head].0, squares[head].1));
                    head += 1;
                } else {
                    slots.push(('_', 0));
                }
                row += 1;
            }
            assert(column * rows + rows == (column + 1) * rows) by (nonlinear_arith);
            column += 1;
        }
        let mut matrix: Vec<Vec<(char, u8)>> = Vec::new();
        let mut row: usize = 0;
        while row < rows
            invariant
                row <= rows,
                slots.len() == columns * rows,
                matrix@.len() == row,
                forall|r: int| 0 <= r < row ==> (#[trigger] matrix@[r])@.len() == columns,
                forall|r: int, c: int|
                    0 <= r < row && 0 <= c < columns ==> #[trigger] matrix@[r]@[c] == slots@[c
                        * rows + r],
            decreases rows - row,
        {
            let mut line: Vec<(char, u8)> = Vec::new();
            let mut column: usize = 0;
            while column < columns
                invariant
                    column <= columns,
                    row < rows,
                    slots.len() == columns * rows,
                    line@.len() == column,
                    forall|c: int| 0 <= c < column ==> #[trigger] line@[c] == slots@[c * rows + row],
                decreases columns - column,
            {
                assert(0 <= column * rows && column * rows + row < columns * rows)
                    by (nonlinear_arith)
                    requires
                        0 <= column < columns,
                        0 <= row < rows,
                ;
                line.push(slots[column * rows + row]);
                column += 1;
            }
            matrix.push(line);
            row += 1;
        }
        proof {
            assert forall|r: int, c: int| 0 <= r < rows && 0 <= c < columns implies #[trigger] matrix@[r]@[c]
                == slot_content(listing(self.state@), rows as int, c * rows + r) by {
                assert(0 <= c * rows + r < columns * rows) by (nonlinear_arith)
                    requires
                        0 <= c < columns,
                        0 <= r < rows,
                ;
            }
        }
        matrix
    }
}

impl Game for Board {
    /// A board without squares and without a pending move.
    fn new() -> (board: Board)
        ensures
            board.state@ == Set::<Position>::empty(),
            board.player_move is None,
    {
        Board { state: BoardState::new(), player_move: None }
    }

    /// Puts the squares of a full board of the given dimensions in play,
    /// beside those that are.
    ///
    /// Dimensions that do not fit are refused, and the board stays as it is.
    fn default_state(&mut self, size: BoardSize) -> (outcome: Result<(), BoardError>)
        ensures
            final(self).player_move == old(self).player_move,
            size.fits() ==> outcome is Ok && final(self).state@ == old(self).state@.union(
                rectangle(size),
            ),
            !size.fits() ==> outcome is Err && outcome->Err_0 == BoardError::OutOfRange
                && final(self).state@ == old(self).state@,
    {
        self.state.fill(size)
    }
}

impl Clone for Board {
    /// A board with the same alive squares and the same pending move.
    fn clone(&self) -> (copy: Board)
        ensures
            copy.state@ == self.state@,
            copy.player_move == self.player_move,
    {
        Board { state: self.state.clone(), player_move: self.player_move }
    }
}

} // verus!
