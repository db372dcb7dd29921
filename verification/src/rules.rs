//! The rules of Chomp over sets of squares: what a move removes, which
//! positions are won, and what holds of every board.

use crate::position::{column_index, column_letter, poison, BoardSize, Position};
use crate::state::rectangle;
use vstd::prelude::*;

verus! {

/// Whether some alive square stands in `column`.
pub open spec fn has_column(s: Set<Position>, column: char) -> bool {
    exists|q: Position| #[trigger] s.contains(q) && q.0 == column
}

/// Whether `row` is no greater than the greatest row of an alive square.
pub open spec fn within_rows(s: Set<Position>, row: u8) -> bool {
    exists|q: Position| #[trigger] s.contains(q) && row <= q.1
}

/// The squares that a move at `p` bites off: those in a column of the board
/// from `p`'s column on, with a row from `p`'s row to the greatest row of
/// the board.
pub open spec fn bite(s: Set<Position>, p: Position) -> Set<Position> {
    Set::new(|q: Position| p.reaches(q) && has_column(s, q.0) && within_rows(s, q.1))
}

/// The alive squares after a move at `p`.
pub open spec fn after_chomp(s: Set<Position>, p: Position) -> Set<Position> {
    s.difference(bite(s, p))
}

/// A move removes exactly the alive squares weakly to the right of the chosen
/// square and at or below it.
pub proof fn lemma_after_chomp(s: Set<Position>, p: Position)
    ensures
        forall|q: Position| #[trigger]
            after_chomp(s, p).contains(q) <==> s.contains(q) && !p.reaches(q),
        after_chomp(s, p) == s.filter(|q: Position| !p.reaches(q)),
{
    assert forall|q: Position| #[trigger]
        after_chomp(s, p).contains(q) <==> s.contains(q) && !p.reaches(q) by {
        if s.contains(q) {
            assert(has_column(s, q.0));
            assert(within_rows(s, q.1));
        }
    }
    assert(after_chomp(s, p) =~= s.filter(|q: Position| !p.reaches(q)));
}

/// A move on an alive square removes that square and leaves fewer squares
/// than there were.
pub proof fn lemma_chomp_shrinks(s: Set<Position>, p: Position)
    requires
        s.finite(),
        s.contains(p),
    ensures
        !after_chomp(s, p).contains(p),
        after_chomp(s, p).finite(),
        after_chomp(s, p).len() < s.len(),
{
    lemma_after_chomp(s, p);
    let t = after_chomp(s, p);
    assert(t.subset_of(s.remove(p)));
    vstd::set_lib::lemma_len_subset(t, s.remove(p));
}

/// Whatever square is chosen, alive or not, no square comes to life.
pub proof fn lemma_chomp_subset(s: Set<Position>, p: Position)
    ensures
        after_chomp(s, p).subset_of(s),
{
}

/// The poison square survives every move on another square of the grid.
pub proof fn lemma_poison_survives(s: Set<Position>, p: Position)
    requires
        s.contains(poison()),
        p != poison(),
        p.on_grid(),
    ensures
        after_chomp(s, p).contains(poison()),
{
    lemma_after_chomp(s, p);
}

/// A move on the poison square leaves nothing of a board on the grid: the
/// board is empty only after the move that ends the game.
pub proof fn lemma_poison_takes_all(s: Set<Position>)
    requires
        forall|q: Position| #[trigger] s.contains(q) ==> q.on_grid(),
    ensures
        after_chomp(s, poison()) == Set::<Position>::empty(),
{
    lemma_after_chomp(s, poison());
    assert forall|q: Position| !after_chomp(s, poison()).contains(q) by {
        if s.contains(q) {
            assert(poison().reaches(q));
        }
    }
    assert(after_chomp(s, poison()) =~= Set::<Position>::empty());
}

/// Whether the alive squares form a staircase within `within`: with a square,
/// every square of `within` weakly to its left and at or above it is alive.
pub open spec fn is_staircase(s: Set<Position>, within: Set<Position>) -> bool {
    forall|q: Position, r: Position|
        #[trigger] s.contains(q) && #[trigger] within.contains(r) && r.reaches(q) ==> s.contains(r)
}

/// A move keeps a staircase a staircase.
pub proof fn lemma_chomp_keeps_staircase(s: Set<Position>, within: Set<Position>, p: Position)
    requires
        is_staircase(s, within),
    ensures
        is_staircase(after_chomp(s, p), within),
{
    lemma_after_chomp(s, p);
    let t = after_chomp(s, p);
    assert forall|q: Position, r: Position|
        #[trigger] t.contains(q) && #[trigger] within.contains(r) && r.reaches(q) implies t.contains(
        r,
    ) by {
        assert(s.contains(q));
        assert(s.contains(r));
    }
}

/// Whether `p` is a move that the player to move may choose: an alive square
/// other than the poison square.
pub open spec fn is_move(s: Set<Position>, p: Position) -> bool {
    s.contains(p) && p != poison()
}

/// Whether the player to move can force a win: some move leaves a board from
/// which the opponent cannot.
pub open spec fn is_winning(s: Set<Position>) -> bool
    decreases s.len(),
    when s.finite()
    via is_winning_decreases
{
    exists|p: Position| is_move(s, p) && !is_winning(#[trigger] after_chomp(s, p))
}

#[via_fn]
proof fn is_winning_decreases(s: Set<Position>) {
    assert forall|p: Position| is_move(s, p) implies (#[trigger] after_chomp(s, p)).len()
        < s.len() by {
        lemma_chomp_shrinks(s, p);
    }
}

/// Whether `p` is a move that leaves the opponent without a forced win.
pub open spec fn is_forcing(s: Set<Position>, p: Position) -> bool {
    is_move(s, p) && !is_winning(after_chomp(s, p))
}

/// Whether `p` is the first move, in canonical order, that leaves the opponent
/// without a forced win.
pub open spec fn is_first_forcing(s: Set<Position>, p: Position) -> bool {
    is_forcing(s, p) && forall|q: Position| is_forcing(s, q) ==> p == q || p.precedes(q)
}

/// A move on a square that a later move reaches makes no difference to what
/// the later move leaves.
pub proof fn lemma_chomp_absorbs(s: Set<Position>, p: Position, q: Position)
    requires
        q.reaches(p),
    ensures
        after_chomp(after_chomp(s, p), q) == after_chomp(s, q),
{
    lemma_after_chomp(s, p);
    lemma_after_chomp(s, q);
    lemma_after_chomp(after_chomp(s, p), q);
    assert(after_chomp(after_chomp(s, p), q) =~= after_chomp(s, q));
}

/// A full board has finitely many squares, and they form a staircase.
pub proof fn lemma_rectangle(size: BoardSize)
    ensures
        rectangle(size).finite(),
        is_staircase(rectangle(size), rectangle(size)),
        size.fits() ==> rectangle(size).contains(poison()),
{
    let codes = vstd::set_lib::set_int_range(0, 256 * size.1);
    let decode = |k: int| Position(column_letter(k / 256), (k % 256) as u8);
    vstd::set_lib::lemma_int_range(0, 256 * size.1);
    codes.lemma_map_finite(decode);
    assert forall|q: Position| rectangle(size).contains(q) implies codes.map(decode).contains(
        q,
    ) by {
        let k = column_index(q.0) * 256 + q.1;
        assert(codes.contains(k));
        assert(decode(k) == q);
    }
    vstd::set_lib::lemma_set_subset_finite(codes.map(decode), rectangle(size));
}

/// On every full board of more than one square the player to move can force a
/// win.
pub proof fn lemma_rectangle_is_winning(size: BoardSize)
    requires
        size.fits(),
        size != BoardSize(1, 1),
    ensures
        is_winning(rectangle(size)),
{
    let board = rectangle(size);
    let corner = Position(column_letter(size.1 - 1), size.0);
    lemma_rectangle(size);
    assert(board.contains(corner));
    assert(corner != poison());
    let rest = after_chomp(board, corner);
    lemma_chomp_shrinks(board, corner);
    if is_winning(rest) {
        let reply = choose|p: Position| is_move(rest, p) && !is_winning(after_chomp(rest, p));
        lemma_after_chomp(board, corner);
        assert(board.contains(reply));
        assert(reply.reaches(corner));
        lemma_chomp_absorbs(board, corner, reply);
        assert(is_forcing(board, reply));
    } else {
        assert(is_forcing(board, corner));
    }
}

} // verus!
