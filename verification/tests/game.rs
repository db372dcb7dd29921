use chomp_board::{play_round, BoardError, BoardSize, BoardState, GameStatus, Position};

fn board_of(squares: &[(char, u8)]) -> BoardState {
    let mut state = BoardState::new();
    for (column, row) in squares {
        state.insert(Position(*column, *row));
    }
    state
}

fn full_board(rows: u8, columns: u8) -> BoardState {
    let mut state = BoardState::new();
    assert_eq!(state.fill(BoardSize(rows, columns)), Ok(()));
    state
}

#[test]
fn round_with_a_reply_goes_on() {
    let round = play_round(&full_board(2, 2), Position('a', 2)).unwrap();
    assert_eq!(round.status, GameStatus::InProgress);
    assert_eq!(round.reply, Some(Position('b', 1)));
    assert_eq!(round.state, board_of(&[('a', 1)]));
}

#[test]
fn round_on_the_poison_square_loses() {
    let round = play_round(&full_board(2, 2), Position('a', 1)).unwrap();
    assert_eq!(round.status, GameStatus::MoverLosesOnPoison);
    assert_eq!(round.reply, None);
    assert!(round.state.is_empty());
}

#[test]
fn round_that_leaves_no_winning_reply_wins() {
    let round = play_round(&full_board(2, 2), Position('b', 2)).unwrap();
    assert_eq!(round.status, GameStatus::OpponentHasNoWinningMove);
    assert_eq!(round.reply, None);
    assert_eq!(round.state, board_of(&[('a', 1), ('a', 2), ('b', 1)]));
}

#[test]
fn round_on_a_dead_square_is_refused() {
    let state = full_board(2, 2);
    let outcome = play_round(&state, Position('c', 1));
    assert!(matches!(outcome, Err(BoardError::InvalidMove)));
    assert_eq!(state.len(), 4);
}

#[test]
fn rounds_of_a_game_end() {
    let mut state = full_board(3, 3);
    let mut rounds = 0;
    loop {
        let choice = *state.positions().last().unwrap();
        let round = play_round(&state, choice).unwrap();
        rounds += 1;
        assert!(round.state.len() < state.len());
        if round.status != GameStatus::InProgress {
            break;
        }
        assert!(round.state.contains(&Position('a', 1)));
        state = round.state;
    }
    assert!(rounds <= 9);
}
