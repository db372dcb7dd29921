//! Squares of the board, board dimensions and the errors of the library.

use vstd::prelude::*;

verus! {

/// A square of the board: its column letter and its row number.
///
/// Columns run from `'a'` to the right, rows from `1` downwards. The derived
/// order is the canonical one: by column, then by row.
#[derive(PartialEq, Eq, Structural, Hash, Debug, Clone, Copy, PartialOrd, Ord)]
pub struct Position(pub char, pub u8);

/// The dimensions of a board: the number of rows, then the number of columns.
#[derive(PartialEq, Eq, Structural, Debug, Clone, Copy)]
pub struct BoardSize(pub u8, pub u8);

/// What the library refuses.
#[derive(PartialEq, Eq, Structural, Debug, Clone, Copy)]
pub enum BoardError {
    /// The chosen square is not alive.
    InvalidMove,
    /// The requested dimensions do not fit the board.
    OutOfRange,
    /// A query that needs an alive square was made of a board without one.
    EmptyBoard,
}

/// Number of letters in the column alphabet `'a'..='j'`.
pub const MAX_COLUMNS: u8 = 10;

/// The letter of the column with the given index, counted from 0.
pub open spec fn column_letter(index: int) -> char {
    (index + 97) as char
}

/// The index of the column with the given letter, counted from 0.
pub open spec fn column_index(letter: char) -> int {
    letter as int - 97
}

/// The square whose capture loses the game.
pub open spec fn poison() -> Position {
    Position('a', 1)
}

impl Position {
    /// The canonical order of squares: by column, then by row.
    pub open spec fn precedes(self, other: Position) -> bool {
        self.0 < other.0 || (self.0 == other.0 && self.1 < other.1)
    }

    /// Whether `other` lies weakly to the right of `self` and at or below it.
    pub open spec fn reaches(self, other: Position) -> bool {
        self.0 <= other.0 && self.1 <= other.1
    }

    /// Whether `self` is a square of the grid: no column before `'a'`, no row
    /// before `1`.
    pub open spec fn on_grid(self) -> bool {
        'a' <= self.0 && 1 <= self.1
    }

    /// Whether `self` comes before `other` in the canonical order.
    pub fn is_before(&self, other: &Position) -> (before: bool)
        ensures
            before == self.precedes(*other),
    {
        self.0 < other.0 || (self.0 == other.0 && self.1 < other.1)
    }

    /// Whether `self` is the poison square.
    pub fn is_poison(&self) -> (poisoned: bool)
        ensures
            poisoned == (*self == poison()),
    {
        self.0 == 'a' && self.1 == 1
    }
}

/// The canonical order is a strict total order.
pub proof fn lemma_precedes_is_total(a: Position, b: Position, c: Position)
    ensures
        !a.precedes(a),
        !(a.precedes(b) && b.precedes(a)),
        a.precedes(b) && b.precedes(c) ==> a.precedes(c),
        a.precedes(b) || b.precedes(a) || a == b,
{
}

impl BoardSize {
    /// Whether a board of these dimensions can be set up: at least one row, and
    /// between one and `MAX_COLUMNS` columns.
    pub open spec fn fits(self) -> bool {
        1 <= self.0 && 1 <= self.1 <= MAX_COLUMNS
    }

    /// Whether a board of these dimensions can be set up.
    pub fn is_valid(&self) -> (valid: bool)
        ensures
            valid == self.fits(),
    {
        1 <= self.0 && 1 <= self.1 && self.1 <= MAX_COLUMNS
    }
}

/// The letter of the column with the given index, counted from 0.
pub fn column_of(index: u8) -> (letter: char)
    requires
        index < MAX_COLUMNS,
    ensures
        letter == column_letter(index as int),
        column_index(letter) == index,
{
    (index + 97u8) as char
}

} // verus!
