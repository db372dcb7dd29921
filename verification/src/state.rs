//! The alive-set of a board: the squares that no move has removed yet.

use crate::position::{column_index, column_of, BoardError, BoardSize, Position};
use vstd::prelude::*;
use vstd::std_specs::cmp::PartialEqSpec;

verus! {

/// Whether the squares of `s` stand in canonical order, each once.
pub open spec fn ascending(s: Seq<Position>) -> bool {
    forall|i: int, j: int| 0 <= i < j < s.len() ==> s[i].precedes(s[j])
}

/// Two ascending sequences with the same squares are the same sequence.
pub proof fn lemma_ascending_unique(a: Seq<Position>, b: Seq<Position>)
    requires
        ascending(a),
        ascending(b),
        a.to_set() == b.to_set(),
    ensures
        a == b,
    decreases a.len(),
{
    if a.len() == 0 {
        if b.len() > 0 {
            assert(b.to_set().contains(b[0]));
            assert(a.contains(b[0]));
        }
        assert(a =~= b);
    } else {
        let top = a.last();
        assert(a.to_set().contains(top));
        assert(b.contains(top));
        let k = choose|k: int| 0 <= k < b.len() && b[k] == top;
        if k < b.len() - 1 {
            let later = b.last();
            assert(b.to_set().contains(later));
            assert(a.contains(later));
            let i = choose|i: int| 0 <= i < a.len() && a[i] == later;
            assert(b[k].precedes(later));
            if i < a.len() - 1 {
                assert(a[i].precedes(top));
            }
            assert(false);
        }
        let a0 = a.drop_last();
        let b0 = b.drop_last();
        assert forall|p: Position| a0.to_set().contains(p) == b0.to_set().contains(p) by {
            if a0.contains(p) {
                let i = choose|i: int| 0 <= i < a0.len() && a0[i] == p;
                assert(a[i] == p);
                assert(a[i].precedes(top));
                assert(a.to_set().contains(p));
                assert(b.contains(p));
                let j = choose|j: int| 0 <= j < b.len() && b[j] == p;
                assert(b0[j] == p);
            }
            if b0.contains(p) {
                let j = choose|j: int| 0 <= j < b0.len() && b0[j] == p;
                assert(b[j] == p);
                assert(b[j].precedes(top));
                assert(b.to_set().contains(p));
                assert(a.contains(p));
                let i = choose|i: int| 0 <= i < a.len() && a[i] == p;
                assert(a0[i] == p);
            }
        }
        assert(a0.to_set() =~= b0.to_set());
        lemma_ascending_unique(a0, b0);
        assert(a =~= a0.push(top));
        assert(b =~= b0.push(top));
    }
}

/// The squares of `s` in canonical order.
pub open spec fn listing(s: Set<Position>) -> Seq<Position> {
    choose|l: Seq<Position>| ascending(l) && l.to_set() == s
}

/// An ascending sequence is the listing of its squares.
pub proof fn lemma_listing(l: Seq<Position>)
    requires
        ascending(l),
    ensures
        listing(l.to_set()) == l,
{
    lemma_ascending_unique(listing(l.to_set()), l);
}

/// An ascending sequence holds no square twice.
pub proof fn lemma_ascending_distinct(s: Seq<Position>)
    requires
        ascending(s),
    ensures
        s.no_duplicates(),
        s.to_set().finite(),
        s.to_set().len() == s.len(),
{
    assert forall|i: int, j: int| 0 <= i < s.len() && 0 <= j < s.len() && i != j implies s[i]
        != s[j] by {
        if i < j {
            assert(s[i].precedes(s[j]));
        } else {
            assert(s[j].precedes(s[i]));
        }
    }
    vstd::seq_lib::seq_to_set_is_finite(s);
    s.unique_seq_to_set();
}

/// Whether `q` is a square of the first `rows` rows and `columns` columns.
pub open spec fn in_rectangle(q: Position, rows: int, columns: int) -> bool {
    1 <= q.1 <= rows && 0 <= column_index(q.0) < columns
}

/// The squares of a full board of the given dimensions.
pub open spec fn rectangle(size: BoardSize) -> Set<Position> {
    Set::new(|q: Position| in_rectangle(q, size.0 as int, size.1 as int))
}

/// Whether some square of `s` stands in `row`, and none in a greater row.
pub open spec fn is_max_row(s: Set<Position>, row: u8) -> bool {
    (exists|q: Position| #[trigger] s.contains(q) && q.1 == row) && forall|q: Position| #[trigger]
        s.contains(q) ==> q.1 <= row
}

/// Whether some square of `s` stands in `row`, and none in a lesser row.
pub open spec fn is_min_row(s: Set<Position>, row: u8) -> bool {
    (exists|q: Position| #[trigger] s.contains(q) && q.1 == row) && forall|q: Position| #[trigger]
        s.contains(q) ==> row <= q.1
}

/// Whether some square of `s` stands in `column`, and none in a later column.
pub open spec fn is_max_column(s: Set<Position>, column: char) -> bool {
    (exists|q: Position| #[trigger] s.contains(q) && q.0 == column) && forall|q: Position| #[trigger]
        s.contains(q) ==> q.0 <= column
}

/// Whether some square of `s` stands in `column`, and none in an earlier
/// column.
pub open spec fn is_min_column(s: Set<Position>, column: char) -> bool {
    (exists|q: Position| #[trigger] s.contains(q) && q.0 == column) && forall|q: Position| #[trigger]
        s.contains(q) ==> column <= q.0
}

/// The alive squares of a board, kept in canonical order.
#[derive(Debug)]
pub struct BoardState {
    cells: Vec<Position>,
}

impl View for BoardState {
    type V = Set<Position>;

    /// The set of alive squares.
    closed spec fn view(&self) -> Set<Position> {
        self.cells@.to_set()
    }
}

impl BoardState {
    #[verifier::type_invariant]
    closed spec fn well_formed(&self) -> bool {
        ascending(self.cells@)
    }

    /// The alive-set is finite.
    pub proof fn lemma_finite(&self)
        ensures
            self@.finite(),
    {
        vstd::seq_lib::seq_to_set_is_finite(self.cells@);
    }

    /// A board without alive squares.
    pub fn new() -> (state: BoardState)
        ensures
            state@ == Set::<Position>::empty(),
    {
        let state = BoardState { cells: Vec::new() };
        assert(state@ =~= Set::<Position>::empty());
        state
    }

    /// The number of alive squares.
    pub fn len(&self) -> (n: usize)
        ensures
            n == self@.len(),
    {
        proof {
            use_type_invariant(self);
            lemma_ascending_distinct(self.cells@);
        }
        self.cells.len()
    }

    /// Whether no square is alive.
    pub fn is_empty(&self) -> (empty: bool)
        ensures
            empty == (self@ == Set::<Position>::empty()),
    {
        self.has_none()
    }

    /// Whether the list of alive squares is empty.
    fn has_none(&self) -> (none: bool)
        ensures
            none == (self.cells@.len() == 0),
            none == (self@ == Set::<Position>::empty()),
    {
        proof {
            if self.cells@.len() > 0 {
                assert(self@.contains(self.cells@[0]));
            } else {
                assert(self@ =~= Set::<Position>::empty());
            }
        }
        self.cells.len() == 0
    }

    /// The index of the first alive square that does not come before `square`.
    fn rank(&self, square: &Position) -> (at: usize)
        ensures
            at <= self.cells@.len(),
            forall|k: int| 0 <= k < at ==> self.cells@[k].precedes(*square),
            at < self.cells@.len() ==> !self.cells@[at as int].precedes(*square),
    {
        let mut at: usize = 0;
        while at < self.cells.len() && self.cells[at].is_before(square)
            invariant
                at <= self.cells@.len(),
                forall|k: int| 0 <= k < at ==> self.cells@[k].precedes(*square),
            decreases self.cells@.len() - at,
        {
            at += 1;
        }
        at
    }

    /// Whether `square` is alive.
    pub fn contains(&self, square: &Position) -> (alive: bool)
        ensures
            alive == self@.contains(*square),
    {
        let at = self.rank(square);
        let alive = at < self.cells.len() && self.cells[at] == *square;
        proof {
            use_type_invariant(self);
            if self.cells@.contains(*square) {
                let k = choose|k: int| 0 <= k < self.cells@.len() && self.cells@[k] == *square;
                if k < at {
                    assert(self.cells@[k].precedes(*square));
                } else if k > at {
                    assert(self.cells@[at as int].precedes(self.cells@[k]));
                }
            }
        }
        alive
    }

    /// Makes `square` alive. Returns whether it was not alive before.
    pub fn insert(&mut self, square: Position) -> (fresh: bool)
        ensures
            final(self)@ == old(self)@.insert(square),
            fresh == !old(self)@.contains(square),
    {
        let at = self.rank(&square);
        proof {
            use_type_invariant(&*self);
        }
        if at < self.cells.len() && self.cells[at] == square {
            assert(self@.contains(self.cells@[at as int]));
            assert(self@ =~= self@.insert(square));
            false
        } else {
            let ghost before = self.cells@;
            proof {
                if before.contains(square) {
                    let k = choose|k: int| 0 <= k < before.len() && before[k] == square;
                    if k < at {
                        assert(before[k].precedes(square));
                    } else if k > at {
                        assert(before[at as int].precedes(before[k]));
                    }
                }
            }
            let mut next = self.cells.clone();
            assert(next@ =~= before);
            next.insert(at, square);
            proof {
                let after = next@;
                assert forall|i: int, j: int| 0 <= i < j < after.len() implies after[i].precedes(
                    after[j],
                ) by {
                    if j == at {
                        assert(after[i] == before[i]);
                    } else if i == at {
                        assert(after[j] == before[j - 1]);
                        if j - 1 > at {
                            assert(before[at as int].precedes(before[j - 1]));
                        }
                    } else {
                        let bi = if i < at { i } else { i - 1 };
                        let bj = if j < at { j } else { j - 1 };
                        assert(after[i] == before[bi]);
                        assert(after[j] == before[bj]);
                    }
                }
                assert forall|q: Position| after.to_set().contains(q) == before.to_set().insert(
                    square,
                ).contains(q) by {
                    if after.contains(q) {
                        let k = choose|k: int| 0 <= k < after.len() && after[k] == q;
                        if k < at {
                            assert(before[k] == q);
                        } else if k > at {
                            assert(before[k - 1] == q);
                        }
                    }
                    if before.contains(q) {
                        let k = choose|k: int| 0 <= k < before.len() && before[k] == q;
                        if k < at {
                            assert(after[k] == q);
                        } else {
                            assert(after[k + 1] == q);
                        }
                    }
                    if q == square {
                        assert(after[at as int] == q);
                    }
                }
                assert(after.to_set() =~= before.to_set().insert(square));
            }
            self.cells = next;
            true
        }
    }

    /// Takes `square` from the alive squares. Returns whether it was alive.
    pub fn remove(&mut self, square: &Position) -> (taken: bool)
        ensures
            final(self)@ == old(self)@.remove(*square),
            taken == old(self)@.contains(*square),
    {
        let at = self.rank(square);
        proof {
            use_type_invariant(&*self);
        }
        let ghost before = self.cells@;
        proof {
            if before.contains(*square) {
                let k = choose|k: int| 0 <= k < before.len() && before[k] == *square;
                if k < at {
                    assert(before[k].precedes(*square));
                } else if k > at {
                    assert(before[at as int].precedes(before[k]));
                }
            }
        }
        if at < self.cells.len() && self.cells[at] == *square {
            let mut next = self.cells.clone();
            assert(next@ =~= before);
            next.remove(at);
            proof {
                let after = next@;
                assert forall|i: int, j: int| 0 <= i < j < after.len() implies after[i].precedes(
                    after[j],
                ) by {
                    let bi = if i < at { i } else { i + 1 };
                    let bj = if j < at { j } else { j + 1 };
                    assert(after[i] == before[bi]);
                    assert(after[j] == before[bj]);
                }
                assert forall|q: Position| after.to_set().contains(q) == before.to_set().remove(
                    *square,
                ).contains(q) by {
                    if after.contains(q) {
                        let k = choose|k: int| 0 <= k < after.len() && after[k] == q;
                        let bk = if k < at { k } else { k + 1 };
                        assert(before[bk] == q);
                        if bk < at {
                            assert(before[bk].precedes(before[at as int]));
                        } else {
                            assert(before[at as int].precedes(before[bk]));
                        }
                    }
                    if before.contains(q) && q != *square {
                        let k = choose|k: int| 0 <= k < before.len() && before[k] == q;
                        if k < at {
                            assert(after[k] == q);
                        } else {
                            assert(after[k - 1] == q);
                        }
                    }
                }
                assert(after.to_set() =~= before.to_set().remove(*square));
            }
            self.cells = next;
            true
        } else {
            assert(self@ =~= self@.remove(*square));
            false
        }
    }

    /// The alive squares in canonical order.
    pub fn positions(&self) -> (squares: Vec<Position>)
        ensures
            squares@ == listing(self@),
            ascending(squares@),
            squares@.to_set() == self@,
    {
        proof {
            use_type_invariant(self);
            lemma_listing(self.cells@);
        }
        let mut squares: Vec<Position> = Vec::new();
        let mut at: usize = 0;
        while at < self.cells.len()
            invariant
                at <= self.cells@.len(),
                squares@ == self.cells@.subrange(0, at as int),
            decreases self.cells@.len() - at,
        {
            squares.push(self.cells[at]);
            at += 1;
            assert(squares@ =~= self.cells@.subrange(0, at as int));
        }
        assert(squares@ =~= self.cells@);
        squares
    }

    /// The greatest row in which a square is alive.
    pub fn max_row(&self) -> (outcome: Result<u8, BoardError>)
        ensures
            self@ == Set::<Position>::empty() ==> outcome is Err && outcome->Err_0
                == BoardError::EmptyBoard,
            self@ != Set::<Position>::empty() ==> outcome is Ok && is_max_row(
                self@,
                outcome->Ok_0,
            ),
    {
        if self.has_none() {
            return Err(BoardError::EmptyBoard);
        }
        let mut row = self.cells[0].1;
        let mut at: usize = 1;
        while at < self.cells.len()
            invariant
                1 <= at <= self.cells@.len(),
                exists|k: int| 0 <= k < at && (#[trigger] self.cells@[k]).1 == row,
                forall|k: int| 0 <= k < at ==> (#[trigger] self.cells@[k]).1 <= row,
            decreases self.cells@.len() - at,
        {
            if row < self.cells[at].1 {
                row = self.cells[at].1;
            }
            at += 1;
        }
        proof {
            let k = choose|k: int| 0 <= k < at && (#[trigger] self.cells@[k]).1 == row;
            assert(self@.contains(self.cells@[k]));
        }
        Ok(row)
    }

    /// The least row in which a square is alive.
    pub fn min_row(&self) -> (outcome: Result<u8, BoardError>)
        ensures
            self@ == Set::<Position>::empty() ==> outcome is Err && outcome->Err_0
                == BoardError::EmptyBoard,
            self@ != Set::<Position>::empty() ==> outcome is Ok && is_min_row(
                self@,
                outcome->Ok_0,
            ),
    {
        if self.has_none() {
            return Err(BoardError::EmptyBoard);
        }
        let mut row = self.cells[0].1;
        let mut at: usize = 1;
        while at < self.cells.len()
            invariant
                1 <= at <= self.cells@.len(),
                exists|k: int| 0 <= k < at && (#[trigger] self.cells@[k]).1 == row,
                forall|k: int| 0 <= k < at ==> row <= (#[trigger] self.cells@[k]).1,
            decreases self.cells@.len() - at,
        {
            if self.cells[at].1 < row {
                row = self.cells[at].1;
            }
            at += 1;
        }
        proof {
            let k = choose|k: int| 0 <= k < at && (#[trigger] self.cells@[k]).1 == row;
            assert(self@.contains(self.cells@[k]));
        }
        Ok(row)
    }

    /// The last column in which a square is alive.
    pub fn max_column(&self) -> (outcome: Result<char, BoardError>)
        ensures
            self@ == Set::<Position>::empty() ==> outcome is Err && outcome->Err_0
                == BoardError::EmptyBoard,
            self@ != Set::<Position>::empty() ==> outcome is Ok && is_max_column(
                self@,
                outcome->Ok_0,
            ),
    {
        if self.has_none() {
            return Err(BoardError::EmptyBoard);
        }
        let last = self.cells.len() - 1;
        proof {
            use_type_invariant(self);
            assert(self@.contains(self.cells@[last as int]));
            assert forall|q: Position| #[trigger] self@.contains(q) implies q.0
                <= self.cells@[last as int].0 by {
                let k = choose|k: int| 0 <= k < self.cells@.len() && self.cells@[k] == q;
                if k < last {
                    assert(self.cells@[k].precedes(self.cells@[last as int]));
                }
            }
        }
        Ok(self.cells[last].0)
    }

    /// The first column in which a square is alive.
    pub fn min_column(&self) -> (outcome: Result<char, BoardError>)
        ensures
            self@ == Set::<Position>::empty() ==> outcome is Err && outcome->Err_0
                == BoardError::EmptyBoard,
            self@ != Set::<Position>::empty() ==> outcome is Ok && is_min_column(
                self@,
                outcome->Ok_0,
            ),
    {
        if self.has_none() {
            return Err(BoardError::EmptyBoard);
        }
        proof {
            use_type_invariant(self);
            assert(self@.contains(self.cells@[0]));
            assert forall|q: Position| #[trigger] self@.contains(q) implies self.cells@[0].0
                <= q.0 by {
                let k = choose|k: int| 0 <= k < self.cells@.len() && self.cells@[k] == q;
                if 0 < k {
                    assert(self.cells@[0].precedes(self.cells@[k]));
                }
            }
        }
        Ok(self.cells[0].0)
    }

    /// The alive squares that are not alive in `other`.
    pub fn difference(&self, other: &BoardState) -> (rest: BoardState)
        ensures
            rest@ == self@.difference(other@),
    {
        proof {
            use_type_invariant(self);
        }
        let mut rest = BoardState::new();
        let mut at: usize = 0;
        while at < self.cells.len()
            invariant
                at <= self.cells@.len(),
                forall|q: Position| #[trigger]
                    rest@.contains(q) <==> self.cells@.subrange(0, at as int).contains(q)
                        && !other@.contains(q),
            decreases self.cells@.len() - at,
        {
            let square = self.cells[at];
            let ghost done = self.cells@.subrange(0, at as int);
            let ghost grown = self.cells@.subrange(0, at + 1);
            proof {
                assert(grown =~= done.push(square));
                assert forall|q: Position| grown.contains(q) <==> done.contains(q) || q
                    == square by {
                    if done.contains(q) {
                        let k = choose|k: int| 0 <= k < done.len() && done[k] == q;
                        assert(grown[k] == q);
                    }
                    if q == square {
                        assert(grown[at as int] == q);
                    }
                }
            }
            if !other.contains(&square) {
                rest.insert(square);
            }
            at += 1;
        }
        proof {
            assert(self.cells@.subrange(0, at as int) =~= self.cells@);
            assert(rest@ =~= self@.difference(other@));
        }
        rest
    }

    /// Makes every square of a full board of the given dimensions alive.
    ///
    /// Dimensions that do not fit are refused, and the board stays as it is.
    pub fn fill(&mut self, size: BoardSize) -> (outcome: Result<(), BoardError>)
        ensures
            size.fits() ==> outcome is Ok && final(self)@ == old(self)@.union(rectangle(size)),
            !size.fits() ==> outcome is Err && outcome->Err_0 == BoardError::OutOfRange
                && final(self)@ == old(self)@,
    {
        if !size.is_valid() {
            return Err(BoardError::OutOfRange);
        }
        let ghost before = self@;
        let mut row: u8 = 1;
        loop
            invariant_except_break
                1 <= row <= size.0,
                forall|q: Position| #[trigger]
                    self@.contains(q) <==> before.contains(q) || in_rectangle(
                        q,
                        row - 1,
                        size.1 as int,
                    ),
            invariant
                size.fits(),
            ensures
                forall|q: Position| #[trigger]
                    self@.contains(q) <==> before.contains(q) || in_rectangle(
                        q,
                        size.0 as int,
                        size.1 as int,
                    ),
            decreases size.0 - row,
        {
            let mut column: u8 = 0;
            while column < size.1
                invariant
                    column <= size.1,
                    size.fits(),
                    1 <= row <= size.0,
                    forall|q: Position| #[trigger]
                        self@.contains(q) <==> before.contains(q) || in_rectangle(
                            q,
                            row - 1,
                            size.1 as int,
                        ) || (q.1 == row && 0 <= column_index(q.0) < column),
                decreases size.1 - column,
            {
                self.insert(Position(column_of(column), row));
                column += 1;
            }
            if row == size.0 {
                break ;
            }
            row += 1;
        }
        assert(self@ =~= before.union(rectangle(size)));
        Ok(())
    }
}

impl Clone for BoardState {
    /// A board with the same alive squares.
    fn clone(&self) -> (copy: BoardState)
        ensures
            copy@ == self@,
    {
        proof {
            use_type_invariant(self);
        }
        let cells = self.cells.clone();
        assert(cells@ =~= self.cells@);
        BoardState { cells }
    }
}

impl PartialEq for BoardState {
    /// Whether the two boards have the same alive squares.
    fn eq(&self, other: &BoardState) -> (same: bool) {
        proof {
            use_type_invariant(self);
            use_type_invariant(other);
            if self@ == other@ {
                lemma_ascending_unique(self.cells@, other.cells@);
            }
        }
        if self.cells.len() != other.cells.len() {
            return false;
        }
        let mut at: usize = 0;
        while at < self.cells.len()
            invariant
                at <= self.cells@.len(),
                self.cells@.len() == other.cells@.len(),
                self@ == other@ ==> self.cells@ == other.cells@,
                self.cells@.subrange(0, at as int) == other.cells@.subrange(0, at as int),
            decreases self.cells@.len() - at,
        {
            if self.cells[at] != other.cells[at] {
                assert(self.cells@ != other.cells@);
                return false;
            }
            at += 1;
            assert(self.cells@.subrange(0, at as int) =~= self.cells@.subrange(0, at - 1).push(
                self.cells@[at - 1],
            ));
            assert(other.cells@.subrange(0, at as int) =~= other.cells@.subrange(0, at - 1).push(
                other.cells@[at - 1],
            ));
        }
        assert(self.cells@ =~= self.cells@.subrange(0, at as int));
        assert(other.cells@ =~= other.cells@.subrange(0, at as int));
        true
    }
}

impl Eq for BoardState {

}

impl vstd::std_specs::cmp::PartialEqSpecImpl for BoardState {
    open spec fn obeys_eq_spec() -> bool {
        true
    }

    open spec fn eq_spec(&self, other: &BoardState) -> bool {
        self@ == other@
    }
}

/// Setting up a board depends on the dimensions alone: two boards that were
/// empty and were filled for the same dimensions hold the squares of the full
/// board, list them alike and are equal.
pub proof fn lemma_setup_is_deterministic(first: BoardState, second: BoardState, size: BoardSize)
    requires
        first@ == Set::<Position>::empty().union(rectangle(size)),
        second@ == Set::<Position>::empty().union(rectangle(size)),
    ensures
        first@ == rectangle(size),
        listing(first@) == listing(second@),
        first.eq_spec(&second),
{
    assert(first@ =~= rectangle(size));
}

} // verus!
