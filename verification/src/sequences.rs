//! Sequences of coordinates: their greatest value and their distinct values.

use crate::position::Position;
use itertools::Itertools;
use std::hash::Hash;
use vstd::prelude::*;

verus! {

/// The coordinates of a square: column letters and row numbers. Their `==` is
/// equality of values and their hash follows it.
pub(crate) trait Coordinate: Copy + Eq + Hash {

}

impl Coordinate for char {

}

impl Coordinate for u8 {

}

/// The values of `s` in the order in which each occurs first.
pub open spec fn first_occurrences<T>(s: Seq<T>) -> Seq<T>
    decreases s.len(),
{
    if s.len() == 0 {
        s
    } else {
        let earlier = first_occurrences(s.drop_last());
        if earlier.contains(s.last()) {
            earlier
        } else {
            earlier.push(s.last())
        }
    }
}

/// The first occurrences hold every value of the sequence, each once.
pub proof fn lemma_first_occurrences<T>(s: Seq<T>)
    ensures
        first_occurrences(s).no_duplicates(),
        first_occurrences(s).len() <= s.len(),
        forall|x: T| first_occurrences(s).contains(x) <==> s.contains(x),
    decreases s.len(),
{
    let kept = first_occurrences(s);
    if s.len() > 0 {
        let front = s.drop_last();
        let earlier = first_occurrences(front);
        lemma_first_occurrences(front);
        assert(front.len() == s.len() - 1);
        assert(kept.len() >= earlier.len());
        assert forall|k: int| 0 <= k < earlier.len() implies kept[k] == earlier[k] by {}
        assert forall|x: T| kept.contains(x) <==> s.contains(x) by {
            if s.contains(x) {
                let i = choose|i: int| 0 <= i < s.len() && s[i] == x;
                if i < s.len() - 1 {
                    assert(front[i] == x);
                    assert(front.contains(x));
                    assert(earlier.contains(x));
                    let k = choose|k: int| 0 <= k < earlier.len() && earlier[k] == x;
                    assert(kept[k] == x);
                } else if earlier.contains(x) {
                    let k = choose|k: int| 0 <= k < earlier.len() && earlier[k] == x;
                    assert(kept[k] == x);
                } else {
                    assert(kept[kept.len() - 1] == x);
                }
            }
            if kept.contains(x) {
                let k = choose|k: int| 0 <= k < kept.len() && kept[k] == x;
                if k < earlier.len() {
                    assert(earlier[k] == x);
                    assert(earlier.contains(x));
                    assert(front.contains(x));
                    let i = choose|i: int| 0 <= i < front.len() && front[i] == x;
                    assert(s[i] == x);
                } else {
                    assert(s[s.len() - 1] == x);
                }
            }
        }
        assert forall|i: int, j: int|
            0 <= i < kept.len() && 0 <= j < kept.len() && i != j implies kept[i] != kept[j] by {
            if i < earlier.len() && j < earlier.len() {
            } else if i < earlier.len() {
                assert(earlier.contains(earlier[i]));
            } else {
                assert(earlier.contains(earlier[j]));
            }
        }
    }
}

/// Whether `m` is the greatest value of `s`.
pub open spec fn is_greatest(s: Seq<u8>, m: u8) -> bool {
    s.contains(m) && forall|i: int| 0 <= i < s.len() ==> s[i] <= m
}

/// Calls `itertools::max`, which is `Iterator::max` on the values: `None` for
/// no values, else the greatest of them.
#[verifier::external_body]
pub(crate) fn greatest(values: Vec<u8>) -> (m: Option<u8>)
    ensures
        values@.len() == 0 ==> m is None,
        values@.len() > 0 ==> m is Some && is_greatest(values@, m->0),
{
    itertools::max(values)
}

/// Calls `Itertools::unique`, which drops every value that the iteration has
/// produced before and keeps the others in their order.
#[verifier::external_body]
pub(crate) fn distinct<T: Coordinate>(values: Vec<T>) -> (kept: Vec<T>)
    ensures
        kept@ == first_occurrences(values@),
{
    values.into_iter().unique().collect()
}

/// The rows of the squares, in their order.
pub(crate) fn rows_of(squares: &Vec<Position>) -> (rows: Vec<u8>)
    ensures
        rows@ == squares@.map_values(|q: Position| q.1),
{
    let mut rows: Vec<u8> = Vec::new();
    let mut at: usize = 0;
    while at < squares.len()
        invariant
            at <= squares@.len(),
            rows@ == squares@.subrange(0, at as int).map_values(|q: Position| q.1),
        decreases squares@.len() - at,
    {
        rows.push(squares[at].1);
        at += 1;
        assert(rows@ =~= squares@.subrange(0, at as int).map_values(|q: Position| q.1));
    }
    assert(squares@.subrange(0, at as int) =~= squares@);
    rows
}

/// The columns of the squares, in their order.
pub(crate) fn columns_of(squares: &Vec<Position>) -> (columns: Vec<char>)
    ensures
        columns@ == squares@.map_values(|q: Position| q.0),
{
    let mut columns: Vec<char> = Vec::new();
    let mut at: usize = 0;
    while at < squares.len()
        invariant
            at <= squares@.len(),
            columns@ == squares@.subrange(0, at as int).map_values(|q: Position| q.0),
        decreases squares@.len() - at,
    {
        columns.push(squares[at].0);
        at += 1;
        assert(columns@ =~= squares@.subrange(0, at as int).map_values(|q: Position| q.0));
    }
    assert(squares@.subrange(0, at as int) =~= squares@);
    columns
}

/// The number of distinct values among the first occurrences is the number
/// of values that `f` takes on the squares.
pub proof fn lemma_distinct_count<T>(squares: Seq<Position>, f: spec_fn(Position) -> T)
    ensures
        first_occurrences(squares.map_values(f)).len() == squares.to_set().map(f).len(),
{
    let values = squares.map_values(f);
    let kept = first_occurrences(values);
    lemma_first_occurrences(values);
    kept.unique_seq_to_set();
    assert(kept.to_set() =~= values.to_set());
    squares.lemma_to_set_map_commutes(f);
}

} // verus!
