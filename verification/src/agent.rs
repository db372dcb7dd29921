//! The moves of the game: applying one to a board, and finding one that wins.

use crate::position::{BoardError, Position};
use crate::rules::{
    after_chomp, is_first_forcing, is_forcing, is_winning, lemma_after_chomp, lemma_chomp_shrinks,
};
use crate::sequences::{
    columns_of, distinct, first_occurrences, greatest, lemma_first_occurrences, rows_of,
};
use crate::state::{ascending, BoardState};
use vstd::prelude::*;

verus! {

/// The columns that do not stand before `first`, in their order.
fn columns_from(columns: &Vec<char>, first: char) -> (kept: Vec<char>)
    ensures
        kept@ == columns@.filter(|c: char| first <= c),
{
    let mut kept: Vec<char> = Vec::new();
    let mut at: usize = 0;
    proof {
        reveal(Seq::filter);
    }
    while at < columns.len()
        invariant
            at <= columns@.len(),
            kept@ == columns@.subrange(0, at as int).filter(|c: char| first <= c),
        decreases columns@.len() - at,
    {
        let column = columns[at];
        if first <= column {
            kept.push(column);
        }
        at += 1;
        proof {
            reveal(Seq::filter);
            assert(columns@.subrange(0, at as int).drop_last() =~= columns@.subrange(
                0,
                at - 1,
            ));
        }
    }
    assert(columns@.subrange(0, at as int) =~= columns@);
    kept
}

/// Whether the sweep over the first `done` columns has struck `q`: its column
/// is one of them and its row lies between `low` and `high`.
spec fn struck(columns: Seq<char>, done: int, low: u8, high: u8, q: Position) -> bool {
    low <= q.1 <= high && exists|k: int| 0 <= k < done && #[trigger] columns[k] == q.0
}

/// Applies a move: the board without the chosen square and the squares to its
/// right that are in its row or below. The given board is left as it is.
///
/// The sweep runs over the columns of the board from the chosen one on, and
/// in each from the chosen row to the greatest row of the whole board, not
/// of the column alone: `lemma_after_chomp` shows that it removes the same
/// squares. A square that is not alive is no move.
pub fn chomp(posn: &BoardState, pos: Position) -> (outcome: Result<BoardState, BoardError>)
    ensures
        posn@.contains(pos) ==> outcome is Ok && outcome->Ok_0@ == after_chomp(posn@, pos),
        !posn@.contains(pos) ==> outcome is Err && outcome->Err_0 == BoardError::InvalidMove,
{
    if !posn.contains(&pos) {
        return Err(BoardError::InvalidMove);
    }
    let squares = posn.positions();
    let start_row = pos.1;
    let rows = rows_of(&squares);
    let ghost all_rows = rows@;
    proof {
        assert(squares@.to_set().contains(pos));
        let k = choose|k: int| 0 <= k < squares@.len() && squares@[k] == pos;
        assert(rows@[k] == start_row);
    }
    let end_row = greatest(rows).unwrap();
    let columns = distinct(columns_of(&squares));
    let columns = columns_from(&columns, pos.0);
    let mut next = posn.clone();
    let mut done: usize = 0;
    while done < columns.len()
        invariant
            done <= columns@.len(),
            start_row <= end_row,
            forall|q: Position| #[trigger]
                next@.contains(q) <==> posn@.contains(q) && !struck(
                    columns@,
                    done as int,
                    start_row,
                    end_row,
                    q,
                ),
        decreases columns@.len() - done,
    {
        let column = columns[done];
        let mut row = start_row;
        loop
            invariant_except_break
                start_row <= row <= end_row,
                forall|q: Position| #[trigger]
                    next@.contains(q) <==> posn@.contains(q) && !struck(
                        columns@,
                        done as int,
                        start_row,
                        end_row,
                        q,
                    ) && !(q.0 == column && start_row <= q.1 < row),
            invariant
                done < columns@.len(),
                column == columns@[done as int],
            ensures
                forall|q: Position| #[trigger]
                    next@.contains(q) <==> posn@.contains(q) && !struck(
                        columns@,
                        done + 1,
                        start_row,
                        end_row,
                        q,
                    ),
            decreases end_row - row,
        {
            next.remove(&Position(column, row));
            if row == end_row {
                break ;
            }
            row += 1;
        }
        done += 1;
    }
    proof {
        let s = posn@;
        let all_columns = squares@.map_values(|q: Position| q.0);
        lemma_first_occurrences(all_columns);
        lemma_after_chomp(s, pos);
        assert forall|q: Position| next@.contains(q) <==> after_chomp(s, pos).contains(q) by {
            if s.contains(q) {
                assert(squares@.to_set().contains(q));
                let k = choose|k: int| 0 <= k < squares@.len() && squares@[k] == q;
                assert(all_rows[k] == q.1);
                assert(all_columns[k] == q.0);
                assert(all_columns.contains(q.0));
                if pos.reaches(q) {
                    let unique = first_occurrences(all_columns);
                    assert(unique.contains(q.0));
                    let i = choose|i: int| 0 <= i < unique.len() && unique[i] == q.0;
                    unique.lemma_filter_contains(|c: char| pos.0 <= c, i);
                    let j = choose|j: int| 0 <= j < columns@.len() && columns@[j] == q.0;
                    assert(struck(columns@, columns@.len() as int, start_row, end_row, q));
                } else if struck(columns@, columns@.len() as int, start_row, end_row, q) {
                    let j = choose|j: int| 0 <= j < columns@.len() && columns@[j] == q.0;
                    first_occurrences(all_columns).lemma_filter_pred(
                        |c: char| pos.0 <= c,
                        j,
                    );
                }
            }
        }
        assert(next@ =~= after_chomp(s, pos));
    }
    Ok(next)
}

/// Searches for a move that forces a win, trying the moves in canonical
/// order and every reply to each.
///
/// Returns the first move after which the opponent has no forced win, or
/// `None` where there is none: the player to move then loses against best
/// play. The search visits every line of play, so its time grows
/// exponentially with the number of alive squares: callers bound the board.
pub fn winning_move(posn: &BoardState) -> (found: Option<Position>)
    ensures
        found is Some <==> is_winning(posn@),
        found matches Some(p) ==> is_first_forcing(posn@, p),
    decreases posn@.len(),
{
    let squares = posn.positions();
    proof {
        posn.lemma_finite();
    }
    let mut at: usize = 0;
    while at < squares.len()
        invariant
            at <= squares@.len(),
            ascending(squares@),
            squares@.to_set() == posn@,
            posn@.finite(),
            forall|k: int| 0 <= k < at ==> !is_forcing(posn@, #[trigger] squares@[k]),
        decreases squares@.len() - at,
    {
        let candidate = squares[at];
        assert(squares@.to_set().contains(candidate));
        if !candidate.is_poison() {
            let next = chomp(posn, candidate).unwrap();
            proof {
                lemma_chomp_shrinks(posn@, candidate);
            }
            if winning_move(&next).is_none() {
                proof {
                    assert(is_forcing(posn@, candidate));
                    assert forall|q: Position| is_forcing(posn@, q) implies candidate == q
                        || candidate.precedes(q) by {
                        assert(squares@.to_set().contains(q));
                        let k = choose|k: int| 0 <= k < squares@.len() && squares@[k] == q;
                        if k < at {
                            assert(!is_forcing(posn@, squares@[k]));
                        }
                    }
                }
                return Some(candidate);
            }
        }
        at += 1;
    }
    proof {
        assert forall|q: Position| !is_forcing(posn@, q) by {
            if posn@.contains(q) {
                assert(squares@.to_set().contains(q));
                let k = choose|k: int| 0 <= k < squares@.len() && squares@[k] == q;
                assert(!is_forcing(posn@, squares@[k]));
            }
        }
    }
    None
}

} // verus!
