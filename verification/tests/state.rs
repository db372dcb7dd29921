use chomp_board::{BoardError, BoardSize, BoardState, Position};

fn board_of(squares: &[(char, u8)]) -> BoardState {
    let mut state = BoardState::new();
    for (column, row) in squares {
        state.insert(Position(*column, *row));
    }
    state
}

#[test]
fn new_state_is_empty() {
    let state = BoardState::new();
    assert!(state.is_empty());
    assert_eq!(state.len(), 0);
    assert_eq!(state.positions(), Vec::<Position>::new());
    assert!(!state.contains(&Position('a', 1)));
}

#[test]
fn insert_reports_whether_the_square_is_new() {
    let mut state = BoardState::new();
    assert!(state.insert(Position('b', 2)));
    assert!(!state.insert(Position('b', 2)));
    assert!(state.insert(Position('a', 1)));
    assert_eq!(state.len(), 2);
    assert!(state.contains(&Position('b', 2)));
    assert!(state.contains(&Position('a', 1)));
    assert!(!state.contains(&Position('a', 2)));
}

#[test]
fn remove_reports_whether_the_square_was_alive() {
    let mut state = board_of(&[('a', 1), ('a', 2), ('b', 1)]);
    assert!(state.remove(&Position('a', 2)));
    assert!(!state.remove(&Position('a', 2)));
    assert!(!state.remove(&Position('c', 1)));
    assert_eq!(state, board_of(&[('a', 1), ('b', 1)]));
}

#[test]
fn positions_come_in_canonical_order() {
    let state = board_of(&[('c', 1), ('a', 3), ('b', 2), ('a', 1), ('b', 1)]);
    assert_eq!(
        state.positions(),
        vec![
            Position('a', 1),
            Position('a', 3),
            Position('b', 1),
            Position('b', 2),
            Position('c', 1),
        ]
    );
    let mut sorted = state.positions();
    sorted.sort();
    assert_eq!(sorted, state.positions());
}

#[test]
fn states_with_the_same_squares_are_equal() {
    let first = board_of(&[('a', 1), ('b', 1), ('a', 2)]);
    let second = board_of(&[('a', 2), ('a', 1), ('b', 1)]);
    assert_eq!(first, second);
    assert_ne!(first, board_of(&[('a', 1), ('b', 1)]));
    assert_ne!(first, board_of(&[('a', 1), ('b', 1), ('b', 2)]));
}

#[test]
fn clone_has_the_same_squares() {
    let state = board_of(&[('a', 1), ('b', 1), ('a', 2)]);
    let mut copy = state.clone();
    assert_eq!(copy, state);
    copy.remove(&Position('a', 2));
    assert_eq!(state.len(), 3);
    assert_eq!(copy.len(), 2);
}

#[test]
fn difference_keeps_what_the_other_lacks() {
    let state = board_of(&[('a', 1), ('a', 2), ('b', 1), ('b', 2)]);
    let other = board_of(&[('b', 2), ('c', 3), ('a', 2)]);
    assert_eq!(state.difference(&other), board_of(&[('a', 1), ('b', 1)]));
    assert_eq!(state.difference(&BoardState::new()), state);
    assert_eq!(state.difference(&state), BoardState::new());
}

#[test]
fn fill_makes_the_full_rectangle() {
    let mut state = BoardState::new();
    assert_eq!(state.fill(BoardSize(2, 3)), Ok(()));
    assert_eq!(
        state,
        board_of(&[('a', 1), ('a', 2), ('b', 1), ('b', 2), ('c', 1), ('c', 2)])
    );
}

#[test]
fn fill_of_one_square_is_the_poison_square() {
    let mut state = BoardState::new();
    assert_eq!(state.fill(BoardSize(1, 1)), Ok(()));
    assert_eq!(state.positions(), vec![Position('a', 1)]);
}

#[test]
fn fill_of_the_largest_board_has_every_square() {
    let mut state = BoardState::new();
    assert_eq!(state.fill(BoardSize(255, 10)), Ok(()));
    assert_eq!(state.len(), 2550);
    assert!(state.contains(&Position('j', 255)));
    assert!(!state.contains(&Position('k', 1)));
    assert!(!state.contains(&Position('a', 0)));
}

#[test]
fn fill_adds_to_the_squares_that_are_alive() {
    let mut state = board_of(&[('d', 4)]);
    assert_eq!(state.fill(BoardSize(1, 2)), Ok(()));
    assert_eq!(state, board_of(&[('a', 1), ('b', 1), ('d', 4)]));
}

#[test]
fn fill_refuses_dimensions_out_of_range() {
    for size in [BoardSize(0, 3), BoardSize(3, 0), BoardSize(0, 0), BoardSize(3, 11), BoardSize(3, 255)] {
        let mut state = board_of(&[('a', 1)]);
        assert_eq!(state.fill(size), Err(BoardError::OutOfRange));
        assert_eq!(state, board_of(&[('a', 1)]));
    }
}

#[test]
fn repeated_setup_gives_equal_boards() {
    let mut first = BoardState::new();
    let mut second = BoardState::new();
    assert_eq!(first.fill(BoardSize(3, 4)), Ok(()));
    assert_eq!(second.fill(BoardSize(3, 4)), Ok(()));
    assert_eq!(first, second);
    assert_eq!(first.positions(), second.positions());
}

#[test]
fn bounds_of_a_board() {
    let state = board_of(&[('b', 2), ('b', 5), ('c', 3), ('e', 4)]);
    assert_eq!(state.min_row(), Ok(2));
    assert_eq!(state.max_row(), Ok(5));
    assert_eq!(state.min_column(), Ok('b'));
    assert_eq!(state.max_column(), Ok('e'));
}

#[test]
fn bounds_of_an_empty_board_are_an_error() {
    let state = BoardState::new();
    assert_eq!(state.min_row(), Err(BoardError::EmptyBoard));
    assert_eq!(state.max_row(), Err(BoardError::EmptyBoard));
    assert_eq!(state.min_column(), Err(BoardError::EmptyBoard));
    assert_eq!(state.max_column(), Err(BoardError::EmptyBoard));
}

#[test]
fn valid_sizes() {
    assert!(BoardSize(1, 1).is_valid());
    assert!(BoardSize(255, 10).is_valid());
    assert!(!BoardSize(0, 1).is_valid());
    assert!(!BoardSize(1, 0).is_valid());
    assert!(!BoardSize(1, 11).is_valid());
}

#[test]
fn order_and_poison_of_squares() {
    assert!(Position('a', 2).is_before(&Position('b', 1)));
    assert!(Position('a', 1).is_before(&Position('a', 2)));
    assert!(!Position('a', 2).is_before(&Position('a', 2)));
    assert!(!Position('b', 1).is_before(&Position('a', 9)));
    assert!(Position('a', 1).is_poison());
    assert!(!Position('a', 2).is_poison());
    assert!(!Position('b', 1).is_poison());
    assert!(Position('a', 2) < Position('b', 1));
}

#[test]
fn column_letters() {
    assert_eq!(chomp_board::position::column_of(0), 'a');
    assert_eq!(chomp_board::position::column_of(9), 'j');
    assert_eq!(chomp_board::position::MAX_COLUMNS, 10);
}
