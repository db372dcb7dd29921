//! The grid of a board: how the alive squares are dealt to its entries, and
//! what it shows of the boards that a game passes through.

use crate::position::{BoardSize, Position};
use crate::rules::{after_chomp, lemma_after_chomp};
use crate::sequences::{first_occurrences, lemma_distinct_count, lemma_first_occurrences};
use crate::state::{ascending, lemma_listing, listing, rectangle};
use vstd::prelude::*;

verus! {

/// The number of squares that the slots before `slot` have taken from
/// `squares`. The slots of a grid with `rows` rows are counted column by
/// column, and a slot takes the next square where that square's row is the
/// slot's own.
pub open spec fn taken_before(squares: Seq<Position>, rows: int, slot: int) -> int
    decreases slot,
{
    if slot <= 0 {
        0
    } else {
        let head = taken_before(squares, rows, slot - 1);
        if head < squares.len() && squares[head].1 == (slot - 1) % rows + 1 {
            head + 1
        } else {
            head
        }
    }
}

/// What the slot shows: the square that it takes, or `('_', 0)`.
pub open spec fn slot_content(squares: Seq<Position>, rows: int, slot: int) -> (char, u8) {
    let head = taken_before(squares, rows, slot);
    if 0 <= head < squares.len() && squares[head].1 == slot % rows + 1 {
        (squares[head].0, squares[head].1)
    } else {
        ('_', 0)
    }
}

/// Whether `matrix` is the grid of the alive squares `s`: a line for each
/// distinct row, an entry in it for each distinct column, and in each entry
/// what its slot shows.
pub open spec fn is_grid_of(s: Set<Position>, matrix: Seq<Vec<(char, u8)>>) -> bool {
    let rows = s.map(|q: Position| q.1).len() as int;
    let columns = s.map(|q: Position| q.0).len() as int;
    &&& matrix.len() == rows
    &&& forall|r: int| 0 <= r < rows ==> (#[trigger] matrix[r])@.len() == columns
    &&& forall|r: int, c: int|
        0 <= r < rows && 0 <= c < columns ==> #[trigger] matrix[r]@[c] == slot_content(
            listing(s),
            rows,
            c * rows + r,
        )
}

/// Whether `q` stands in row 1 or under an alive square of its column.
pub open spec fn stands_on_stack(s: Set<Position>, q: Position) -> bool {
    1 <= q.1 && (1 < q.1 ==> s.contains(Position(q.0, (q.1 - 1) as u8)))
}

/// Whether every column of the board is a stack: its alive squares are the
/// rows from 1 to some row, without a gap.
pub open spec fn is_stacked(s: Set<Position>) -> bool {
    forall|q: Position| s.contains(q) ==> #[trigger] stands_on_stack(s, q)
}

/// The columns of the squares, each once, in ascending order.
pub open spec fn columns_in_order(squares: Seq<Position>) -> Seq<char> {
    first_occurrences(squares.map_values(|q: Position| q.0))
}

/// Every column of a full board is a stack.
pub proof fn lemma_rectangle_is_stacked(size: BoardSize)
    ensures
        is_stacked(rectangle(size)),
{
    assert forall|q: Position| rectangle(size).contains(q) implies #[trigger] stands_on_stack(
        rectangle(size),
        q,
    ) by {}
}

/// A move leaves every column a stack.
pub proof fn lemma_chomp_keeps_stacked(s: Set<Position>, p: Position)
    requires
        is_stacked(s),
    ensures
        is_stacked(after_chomp(s, p)),
{
    lemma_after_chomp(s, p);
    let t = after_chomp(s, p);
    assert forall|q: Position| t.contains(q) implies #[trigger] stands_on_stack(t, q) by {
        assert(stands_on_stack(s, q));
    }
}

/// Whether the square comes before the place `(column, row)` in canonical
/// order.
spec fn is_before(q: Position, column: char, row: int) -> bool {
    q.0 < column || (q.0 == column && q.1 < row)
}

/// The number of squares that come before the place `(column, row)`.
#[verifier::opaque]
spec fn rank(squares: Seq<Position>, column: char, row: int) -> int
    decreases squares.len(),
{
    if squares.len() == 0 {
        0
    } else if is_before(squares.last(), column, row) {
        squares.len() as int
    } else {
        rank(squares.drop_last(), column, row)
    }
}

/// Whether the first `count` squares, and no others, come before the place.
spec fn splits_at(squares: Seq<Position>, column: char, row: int, count: int) -> bool {
    0 <= count <= squares.len() && forall|i: int|
        0 <= i < squares.len() ==> (i < count <==> is_before(#[trigger] squares[i], column, row))
}

/// In an ascending sequence the squares before a place are the first `rank`
/// squares, and no other count splits the sequence so.
proof fn lemma_rank(squares: Seq<Position>, column: char, row: int, count: int)
    requires
        ascending(squares),
    ensures
        splits_at(squares, column, row, rank(squares, column, row)),
        splits_at(squares, column, row, count) ==> count == rank(squares, column, row),
    decreases squares.len(),
{
    reveal(rank);
    let found = rank(squares, column, row);
    if squares.len() > 0 {
        let front = squares.drop_last();
        lemma_rank(front, column, row, count);
        if is_before(squares.last(), column, row) {
            assert forall|i: int| 0 <= i < squares.len() implies is_before(
                #[trigger] squares[i],
                column,
                row,
            ) by {
                if i < squares.len() - 1 {
                    assert(squares[i].precedes(squares.last()));
                }
            }
        } else {
            assert forall|i: int| 0 <= i < squares.len() implies (i < found <==> is_before(
                #[trigger] squares[i],
                column,
                row,
            )) by {
                if i < squares.len() - 1 {
                    assert(front[i] == squares[i]);
                }
            }
        }
    }
    if splits_at(squares, column, row, count) && count != found {
        if count < found {
            assert(is_before(squares[count], column, row));
        } else {
            assert(is_before(squares[found], column, row));
        }
    }
}

/// The first occurrences of values that never descend ascend.
proof fn lemma_first_occurrences_ascend(values: Seq<char>)
    requires
        forall|i: int, j: int| 0 <= i < j < values.len() ==> values[i] <= values[j],
    ensures
        forall|i: int, j: int|
            0 <= i < j < first_occurrences(values).len() ==> first_occurrences(values)[i]
                < first_occurrences(values)[j],
    decreases values.len(),
{
    if values.len() > 0 {
        let front = values.drop_last();
        let earlier = first_occurrences(front);
        let kept = first_occurrences(values);
        lemma_first_occurrences_ascend(front);
        lemma_first_occurrences(front);
        if !earlier.contains(values.last()) {
            assert forall|i: int, j: int| 0 <= i < j < kept.len() implies kept[i] < kept[j] by {
                if j == kept.len() - 1 {
                    assert(earlier.contains(earlier[i]));
                    assert(front.contains(earlier[i]));
                    let k = choose|k: int| 0 <= k < front.len() && front[k] == earlier[i];
                    assert(values[k] <= values[values.len() - 1]);
                } else {
                    assert(kept[i] == earlier[i] && kept[j] == earlier[j]);
                }
            }
        }
    }
}

/// The columns of an ascending sequence ascend, and they are the columns of
/// its squares.
proof fn lemma_columns_in_order(squares: Seq<Position>)
    requires
        ascending(squares),
    ensures
        forall|i: int, j: int|
            0 <= i < j < columns_in_order(squares).len() ==> columns_in_order(squares)[i]
                < columns_in_order(squares)[j],
        forall|k: int|
            0 <= k < squares.len() ==> columns_in_order(squares).contains(
                (#[trigger] squares[k]).0,
            ),
        forall|j: int|
            0 <= j < columns_in_order(squares).len() ==> exists|k: int|
                0 <= k < squares.len() && (#[trigger] squares[k]).0 == #[trigger] columns_in_order(
                    squares,
                )[j],
{
    let values = squares.map_values(|q: Position| q.0);
    let columns = columns_in_order(squares);
    assert forall|i: int, j: int| 0 <= i < j < values.len() implies values[i] <= values[j] by {
        assert(squares[i].precedes(squares[j]));
    }
    lemma_first_occurrences_ascend(values);
    lemma_first_occurrences(values);
    assert forall|k: int| 0 <= k < squares.len() implies columns.contains(
        (#[trigger] squares[k]).0,
    ) by {
        assert(values[k] == squares[k].0);
        assert(values.contains(squares[k].0));
    }
    assert forall|j: int| 0 <= j < columns.len() implies exists|k: int|
        0 <= k < squares.len() && (#[trigger] squares[k]).0 == #[trigger] columns[j] by {
        assert(columns.contains(columns[j]));
        assert(values.contains(columns[j]));
        let k = choose|k: int| 0 <= k < values.len() && values[k] == columns[j];
        assert(squares[k].0 == columns[j]);
    }
}

/// Whether the square at `k` stands in row 1 or right after the square above
/// it.
spec fn follows_in_stack(squares: Seq<Position>, k: int) -> bool {
    1 <= squares[k].1 && (1 < squares[k].1 ==> 0 < k && squares[k - 1] == Position(
        squares[k].0,
        (squares[k].1 - 1) as u8,
    ))
}

/// Whether each square of the sequence stands in row 1 or right after the
/// square above it.
spec fn is_stacked_sequence(squares: Seq<Position>) -> bool {
    forall|k: int| 0 <= k < squares.len() ==> #[trigger] follows_in_stack(squares, k)
}

/// The ascending sequence of a stacked board is a stacked sequence.
proof fn lemma_stacked_sequence(squares: Seq<Position>)
    requires
        ascending(squares),
        is_stacked(squares.to_set()),
    ensures
        is_stacked_sequence(squares),
{
    let s = squares.to_set();
    assert forall|k: int| 0 <= k < squares.len() implies #[trigger] follows_in_stack(
        squares,
        k,
    ) by {
        let q = squares[k];
        assert(s.contains(q));
        assert(stands_on_stack(s, q));
        if 1 < q.1 {
            let above = Position(q.0, (q.1 - 1) as u8);
            assert(squares.contains(above));
            let i = choose|i: int| 0 <= i < squares.len() && squares[i] == above;
            if i > k {
                assert(squares[k].precedes(squares[i]));
            }
            if i < k - 1 {
                assert(squares[i].precedes(squares[k - 1]));
                assert(squares[k - 1].precedes(squares[k]));
            }
        }
    }
}

/// The rows from 1 to `top`.
spec fn rows_to(top: int) -> Set<u8> {
    Set::new(|row: u8| 1 <= row <= top)
}

/// There are `top` rows from 1 to `top`.
proof fn lemma_rows_to(top: int)
    requires
        0 <= top <= 255,
    ensures
        rows_to(top).finite(),
        rows_to(top).len() == top,
    decreases top,
{
    if top == 0 {
        assert(rows_to(top) =~= Set::<u8>::empty());
    } else {
        lemma_rows_to(top - 1);
        assert(rows_to(top) =~= rows_to(top - 1).insert(top as u8));
    }
}

/// A stacked board has no square below as many rows as it has distinct rows.
proof fn lemma_rows_of_stacked(squares: Seq<Position>)
    requires
        ascending(squares),
        is_stacked(squares.to_set()),
    ensures
        forall|k: int|
            0 <= k < squares.len() ==> (#[trigger] squares[k]).1 <= squares.to_set().map(
                |q: Position| q.1,
            ).len(),
{
    let s = squares.to_set();
    let rows = s.map(|q: Position| q.1);
    vstd::seq_lib::seq_to_set_is_finite(squares);
    s.lemma_map_finite(|q: Position| q.1);
    assert forall|k: int| 0 <= k < squares.len() implies (#[trigger] squares[k]).1
        <= rows.len() by {
        let top = squares[k].1;
        lemma_rows_to(top as int);
        assert forall|row: u8| rows_to(top as int).contains(row) implies rows.contains(row) by {
            lemma_stack_holds(s, squares[k], row);
            assert(s.contains(Position(squares[k].0, row)));
        }
        vstd::set_lib::lemma_len_subset(rows_to(top as int), rows);
    }
}

/// With a square, a stacked board holds every square above it.
proof fn lemma_stack_holds(s: Set<Position>, q: Position, row: u8)
    requires
        is_stacked(s),
        s.contains(q),
        1 <= row <= q.1,
    ensures
        s.contains(Position(q.0, row)),
    decreases q.1 - row,
{
    if row < q.1 {
        assert(stands_on_stack(s, q));
        lemma_stack_holds(s, Position(q.0, (q.1 - 1) as u8), row);
    }
}

/// Whether the squares are those of a stacked board in canonical order, none
/// of them below row `rows`.
spec fn is_laid_out(squares: Seq<Position>, rows: int) -> bool {
    &&& ascending(squares)
    &&& is_stacked_sequence(squares)
    &&& forall|k: int| 0 <= k < squares.len() ==> (#[trigger] squares[k]).1 <= rows
}

/// What the slot of `column` and `row` does when the squares before its place
/// are taken: it takes the square of its place where that is alive, and
/// nothing else.
proof fn lemma_slot(squares: Seq<Position>, rows: int, column: char, row: int, head: int)
    requires
        is_laid_out(squares, rows),
        columns_in_order(squares).contains(column),
        1 <= row <= rows,
        row <= 255,
        head == rank(squares, column, row),
    ensures
        0 <= head <= squares.len(),
        (head < squares.len() && squares[head].1 == row) <==> squares.to_set().contains(
            Position(column, row as u8),
        ),
        head < squares.len() && squares[head].1 == row ==> squares[head] == Position(
            column,
            row as u8,
        ),
        rank(squares, column, row + 1) == if head < squares.len() && squares[head].1 == row {
            head + 1
        } else {
            head
        },
{
    let place = Position(column, row as u8);
    lemma_rank(squares, column, row, head);
    lemma_columns_in_order(squares);
    let columns = columns_in_order(squares);
    let j = choose|j: int| 0 <= j < columns.len() && columns[j] == column;
    let witness = choose|k: int| 0 <= k < squares.len() && (#[trigger] squares[k]).0 == columns[j];
    let takes = head < squares.len() && squares[head].1 == row;
    if takes {
        let q = squares[head];
        assert(!is_before(q, column, row));
        assert(follows_in_stack(squares, head));
        if q.0 != column {
            if row == 1 {
                assert(follows_in_stack(squares, witness));
                assert(!is_before(squares[witness], column, row));
                if witness < head {
                } else if witness > head {
                    assert(squares[head].precedes(squares[witness]));
                }
                assert(false);
            } else {
                assert(is_before(squares[head - 1], column, row));
                assert(false);
            }
        }
        assert(q == place);
        assert(squares.contains(place));
        assert forall|i: int| 0 <= i < squares.len() implies (i < head + 1 <==> is_before(
            #[trigger] squares[i],
            column,
            row + 1,
        )) by {
            if i > head {
                assert(squares[head].precedes(squares[i]));
            }
        }
        lemma_rank(squares, column, row + 1, head + 1);
    } else {
        if squares.contains(place) {
            let i = choose|i: int| 0 <= i < squares.len() && squares[i] == place;
            assert(!is_before(squares[i], column, row));
            assert(head <= i);
            if head < i {
                assert(squares[head].precedes(squares[i]));
                assert(!is_before(squares[head], column, row));
            }
            assert(false);
        }
        assert forall|i: int| 0 <= i < squares.len() implies (i < head <==> is_before(
            #[trigger] squares[i],
            column,
            row + 1,
        )) by {
            if i >= head && is_before(squares[i], column, row + 1) {
                assert(!is_before(squares[i], column, row));
                assert(squares[i] == place);
            }
        }
        lemma_rank(squares, column, row + 1, head);
    }
}

/// The squares before the first place of a column are those up to the last
/// place of the column before it.
proof fn lemma_next_column(squares: Seq<Position>, rows: int, j: int)
    requires
        is_laid_out(squares, rows),
        0 <= j,
        j + 1 < columns_in_order(squares).len(),
    ensures
        rank(squares, columns_in_order(squares)[j], rows + 1) == rank(
            squares,
            columns_in_order(squares)[j + 1],
            1,
        ),
{
    let columns = columns_in_order(squares);
    let count = rank(squares, columns[j], rows + 1);
    lemma_rank(squares, columns[j], rows + 1, count);
    lemma_columns_in_order(squares);
    assert forall|i: int| 0 <= i < squares.len() implies (is_before(
        #[trigger] squares[i],
        columns[j],
        rows + 1,
    ) <==> is_before(squares[i], columns[j + 1], 1)) by {
        assert(follows_in_stack(squares, i));
        let c = squares[i].0;
        assert(columns.contains(c));
        let k = choose|k: int| 0 <= k < columns.len() && columns[k] == c;
        if k <= j {
            if k < j {
                assert(columns[k] < columns[j]);
            }
            assert(columns[j] < columns[j + 1]);
        } else if k > j + 1 {
            assert(columns[j + 1] < columns[k]);
            assert(columns[j] < columns[j + 1]);
        } else {
            assert(columns[j] < columns[j + 1]);
        }
    }
    lemma_rank(squares, columns[j + 1], 1, count);
}

/// No square comes before the first place of the first column.
proof fn lemma_first_column(squares: Seq<Position>, rows: int)
    requires
        is_laid_out(squares, rows),
        0 < columns_in_order(squares).len(),
    ensures
        rank(squares, columns_in_order(squares)[0], 1) == 0,
{
    let columns = columns_in_order(squares);
    lemma_columns_in_order(squares);
    assert forall|i: int| 0 <= i < squares.len() implies !is_before(
        #[trigger] squares[i],
        columns[0],
        1,
    ) by {
        assert(follows_in_stack(squares, i));
        let c = squares[i].0;
        assert(columns.contains(c));
        let k = choose|k: int| 0 <= k < columns.len() && columns[k] == c;
        if 0 < k {
            assert(columns[0] < columns[k]);
        }
    }
    lemma_rank(squares, columns[0], 1, 0);
}

/// The slots before the slot of a place have taken the squares before the
/// place.
proof fn lemma_taken(squares: Seq<Position>, rows: int, j: int, r: int)
    requires
        is_laid_out(squares, rows),
        0 <= j < columns_in_order(squares).len(),
        0 <= r < rows <= 255,
    ensures
        taken_before(squares, rows, j * rows + r) == rank(
            squares,
            columns_in_order(squares)[j],
            r + 1,
        ),
    decreases j, r,
{
    let columns = columns_in_order(squares);
    let slot = j * rows + r;
    if r > 0 {
        lemma_taken(squares, rows, j, r - 1);
        let head = taken_before(squares, rows, slot - 1);
        assert(columns.contains(columns[j]));
        lemma_slot(squares, rows, columns[j], r, head);
        assert(0 <= slot - 1 && (slot - 1) % rows == r - 1) by (nonlinear_arith)
            requires
                slot == j * rows + r,
                0 < r < rows,
                0 <= j,
        ;
    } else if j > 0 {
        lemma_taken(squares, rows, j - 1, rows - 1);
        assert(slot - 1 == (j - 1) * rows + (rows - 1) && 0 <= slot - 1 && (slot - 1) % rows
            == rows - 1) by (nonlinear_arith)
            requires
                slot == j * rows + r,
                r == 0,
                0 < j,
                0 < rows,
        ;
        let head = taken_before(squares, rows, slot - 1);
        assert(columns.contains(columns[j - 1]));
        lemma_slot(squares, rows, columns[j - 1], rows, head);
        lemma_next_column(squares, rows, j - 1);
    } else {
        assert(slot == 0) by (nonlinear_arith)
            requires
                slot == j * rows + r,
                r == 0,
                j == 0,
        ;
        lemma_first_column(squares, rows);
    }
}

/// The grid of a board whose columns are stacks shows the board: the entry
/// of a line and a column shows the square of that row and column where it
/// is alive, and `('_', 0)` where it is not.
pub proof fn lemma_grid_of_stacked_board(
    squares: Seq<Position>,
    matrix: Seq<Vec<(char, u8)>>,
    r: int,
    c: int,
)
    requires
        ascending(squares),
        is_stacked(squares.to_set()),
        is_grid_of(squares.to_set(), matrix),
        0 <= r < matrix.len(),
        0 <= c < matrix[r]@.len(),
    ensures
        c < columns_in_order(squares).len(),
        r < 255,
        matrix[r]@[c] == if squares.to_set().contains(
            Position(columns_in_order(squares)[c], (r + 1) as u8),
        ) {
            (columns_in_order(squares)[c], (r + 1) as u8)
        } else {
            ('_', 0u8)
        },
{
    let s = squares.to_set();
    let rows = s.map(|q: Position| q.1).len() as int;
    let columns = columns_in_order(squares);
    lemma_listing(squares);
    lemma_distinct_count(squares, |q: Position| q.0);
    lemma_stacked_sequence(squares);
    lemma_rows_of_stacked(squares);
    assert(rows <= 255) by {
        vstd::seq_lib::seq_to_set_is_finite(squares);
        lemma_rows_to(255);
        assert forall|row: u8| s.map(|q: Position| q.1).contains(row) implies rows_to(255).contains(
            row,
        ) by {
            let q = choose|q: Position| s.contains(q) && row == q.1;
            assert(stands_on_stack(s, q));
        }
        vstd::set_lib::lemma_len_subset(s.map(|q: Position| q.1), rows_to(255));
    }
    assert(is_laid_out(squares, rows));
    let slot = c * rows + r;
    lemma_taken(squares, rows, c, r);
    assert(slot % rows == r) by (nonlinear_arith)
        requires
            slot == c * rows + r,
            0 <= r < rows,
            0 <= c,
    ;
    assert(columns.contains(columns[c]));
    lemma_slot(squares, rows, columns[c], r + 1, taken_before(squares, rows, slot));
}

} // verus!
