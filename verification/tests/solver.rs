use chomp_board::{chomp, winning_move, BoardSize, BoardState, Position};

fn board_of(squares: &[(char, u8)]) -> BoardState {
    let mut state = BoardState::new();
    for (column, row) in squares {
        state.insert(Position(*column, *row));
    }
    state
}

fn full_board(rows: u8, columns: u8) -> BoardState {
    let mut state = BoardState::new();
    assert_eq!(state.fill(BoardSize(rows, columns)), Ok(()));
    state
}

#[test]
fn poison_alone_has_no_winning_move() {
    assert_eq!(winning_move(&board_of(&[('a', 1)])), None);
}

#[test]
fn empty_board_has_no_winning_move() {
    assert_eq!(winning_move(&BoardState::new()), None);
}

#[test]
fn square_right_of_poison_is_the_winning_move() {
    let state = board_of(&[('a', 1), ('b', 1)]);
    assert_eq!(winning_move(&state), Some(Position('b', 1)));
    let after = chomp(&state, Position('b', 1)).unwrap();
    assert_eq!(after, board_of(&[('a', 1)]));
    assert_eq!(winning_move(&after), None);
}

#[test]
fn two_by_two_board_is_won_by_its_corner() {
    assert_eq!(winning_move(&full_board(2, 2)), Some(Position('b', 2)));
}

#[test]
fn two_by_two_game_ends_with_the_second_player_on_the_poison() {
    let mut state = full_board(2, 2);
    let mut mover = 0;
    let mut moves = 0;
    loop {
        let choice = match winning_move(&state) {
            Some(square) => square,
            None => {
                let squares = state.positions();
                *squares.last().unwrap()
            },
        };
        state = chomp(&state, choice).unwrap();
        moves += 1;
        assert!(moves <= 4);
        if state.is_empty() {
            assert_eq!(choice, Position('a', 1));
            break;
        }
        mover = 1 - mover;
    }
    assert_eq!(mover, 1);
}

#[test]
fn every_small_full_board_but_the_single_square_is_won() {
    for rows in 1..=3u8 {
        for columns in 1..=3u8 {
            let found = winning_move(&full_board(rows, columns));
            assert_eq!(found.is_some(), (rows, columns) != (1, 1));
        }
    }
}

#[test]
fn winning_move_leaves_a_board_without_one() {
    for rows in 1..=3u8 {
        for columns in 1..=4u8 {
            let state = full_board(rows, columns);
            if let Some(square) = winning_move(&state) {
                assert_ne!(square, Position('a', 1));
                let after = chomp(&state, square).unwrap();
                assert_eq!(winning_move(&after), None);
            }
        }
    }
}

#[test]
fn corner_of_equal_arms_has_no_winning_move() {
    assert_eq!(winning_move(&board_of(&[('a', 1), ('a', 2), ('b', 1)])), None);
    assert_eq!(
        winning_move(&board_of(&[('a', 1), ('a', 2), ('a', 3), ('b', 1), ('c', 1)])),
        None
    );
}

#[test]
fn first_winning_move_in_canonical_order_is_returned() {
    let state = board_of(&[('a', 1), ('a', 2), ('a', 3), ('b', 1), ('b', 2), ('c', 1)]);
    for square in [Position('a', 3), Position('b', 2), Position('c', 1)] {
        let after = chomp(&state, square).unwrap();
        assert_eq!(winning_move(&after), None);
    }
    assert_eq!(winning_move(&state), Some(Position('a', 3)));
}

#[test]
fn winning_move_does_not_depend_on_the_order_of_insertion() {
    let forward = board_of(&[('a', 1), ('a', 2), ('b', 1), ('b', 2), ('c', 1), ('c', 2)]);
    let backward = board_of(&[('c', 2), ('c', 1), ('b', 2), ('b', 1), ('a', 2), ('a', 1)]);
    assert_eq!(winning_move(&forward), Some(Position('c', 2)));
    assert_eq!(winning_move(&backward), Some(Position('c', 2)));
}

#[test]
fn column_of_squares_is_won_by_the_square_under_the_poison() {
    let state = board_of(&[('a', 1), ('a', 2), ('a', 3), ('a', 4)]);
    assert_eq!(winning_move(&state), Some(Position('a', 2)));
}
