//! One round of a game against the search: the player's move, then the reply.

use crate::agent::{chomp, winning_move};
use crate::position::{BoardError, Position};
use crate::rules::{after_chomp, is_first_forcing, is_winning};
use crate::state::BoardState;
use vstd::prelude::*;

verus! {

/// Where a game stands after a round.
#[derive(PartialEq, Eq, Structural, Debug, Clone, Copy)]
pub enum GameStatus {
    /// Both sides have moved and squares are left: the player moves next.
    InProgress,
    /// The player's move took the last squares, the poison square among
    /// them: the player has lost.
    MoverLosesOnPoison,
    /// The search found no forcing reply to the player's move: the player
    /// has won.
    OpponentHasNoWinningMove,
}

/// The outcome of a round.
#[derive(Debug)]
pub struct Round {
    /// Where the game stands.
    pub status: GameStatus,
    /// The alive squares after the round.
    pub state: BoardState,
    /// The reply of the search, where it made one.
    pub reply: Option<Position>,
}

/// What a round leaves of the board `s` when the player moves at `p`.
pub open spec fn round_of(s: Set<Position>, p: Position, round: Round) -> bool {
    let left = after_chomp(s, p);
    if left == Set::<Position>::empty() {
        &&& round.status == GameStatus::MoverLosesOnPoison
        &&& round.state@ == left
        &&& round.reply is None
    } else if !is_winning(left) {
        &&& round.status == GameStatus::OpponentHasNoWinningMove
        &&& round.state@ == left
        &&& round.reply is None
    } else {
        &&& round.status == GameStatus::InProgress
        &&& round.reply matches Some(answer)
        &&& is_first_forcing(left, answer)
        &&& round.state@ == after_chomp(left, answer)
    }
}

/// Plays a round: applies the player's move to the board and, where squares
/// are left, the reply that the search finds. The given board is left as it is.
///
/// A move on a square that is not alive is refused.
pub fn play_round(state: &BoardState, player_move: Position) -> (outcome: Result<
    Round,
    BoardError,
>)
    ensures
        state@.contains(player_move) ==> outcome is Ok && round_of(
            state@,
            player_move,
            outcome->Ok_0,
        ),
        !state@.contains(player_move) ==> outcome is Err && outcome->Err_0
            == BoardError::InvalidMove,
{
    let left = match chomp(state, player_move) {
        Ok(left) => left,
        Err(error) => {
            return Err(error);
        },
    };
    if left.is_empty() {
        return Ok(Round { status: GameStatus::MoverLosesOnPoison, state: left, reply: None });
    }
    match winning_move(&left) {
        None => Ok(Round { status: GameStatus::OpponentHasNoWinningMove, state: left, reply: None }),
        Some(answer) => {
            let after = chomp(&left, answer).unwrap();
            Ok(Round { status: GameStatus::InProgress, state: after, reply: Some(answer) })
        },
    }
}

} // verus!
