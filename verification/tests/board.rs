use chomp_board::{chomp, Board, BoardError, BoardSize, BoardState, Game, Position};

fn board_of(squares: &[(char, u8)]) -> BoardState {
    let mut state = BoardState::new();
    for (column, row) in squares {
        state.insert(Position(*column, *row));
    }
    state
}

#[test]
fn new_board_has_no_squares_and_no_move() {
    let board: Board = Game::new();
    assert!(board.state.is_empty());
    assert_eq!(board.player_move, None);
}

#[test]
fn default_state_sets_up_the_full_board() {
    let mut board: Board = Game::new();
    assert_eq!(board.default_state(BoardSize(3, 4)), Ok(()));
    assert_eq!(board.state.len(), 12);
    assert!(board.state.contains(&Position('a', 1)));
    assert!(board.state.contains(&Position('d', 3)));
    assert!(!board.state.contains(&Position('e', 1)));
    assert!(!board.state.contains(&Position('a', 4)));
    assert_eq!(board.player_move, None);
}

#[test]
fn default_state_refuses_dimensions_out_of_range() {
    let mut board: Board = Game::new();
    assert_eq!(board.default_state(BoardSize(3, 11)), Err(BoardError::OutOfRange));
    assert_eq!(board.default_state(BoardSize(0, 4)), Err(BoardError::OutOfRange));
    assert_eq!(board.default_state(BoardSize(4, 0)), Err(BoardError::OutOfRange));
    assert!(board.state.is_empty());
}

#[test]
fn chomped_board_is_the_board_without_the_chomped_squares() {
    let mut board: Board = Game::new();
    assert_eq!(<Board as Game>::default_state(&mut board, BoardSize(3, 4)), Ok(()));
    let chomped = board_of(&[('c', 2), ('d', 2), ('c', 3), ('d', 3)]);
    let rest = Board::chomped_board(&mut board, chomped);
    assert_eq!(rest.contains(&Position('a', 1)), true);
    assert_eq!(rest.contains(&Position('c', 2)), false);
    assert_eq!(rest.len(), 8);
    assert_eq!(board.state.len(), 12);
}

#[test]
fn clone_of_a_board_keeps_squares_and_move() {
    let mut board: Board = Game::new();
    assert_eq!(board.default_state(BoardSize(2, 2)), Ok(()));
    board.player_move = Some(Position('b', 2));
    let copy = board.clone();
    assert_eq!(copy.state, board.state);
    assert_eq!(copy.player_move, Some(Position('b', 2)));
}

#[test]
fn format_board_of_a_full_board() {
    let mut board: Board = Game::new();
    assert_eq!(board.default_state(BoardSize(2, 3)), Ok(()));
    assert_eq!(
        board.format_board(),
        vec![
            vec![('a', 1), ('b', 1), ('c', 1)],
            vec![('a', 2), ('b', 2), ('c', 2)],
        ]
    );
}

#[test]
fn format_board_of_a_staircase() {
    let board = Board {
        state: board_of(&[('a', 1), ('a', 2), ('a', 3), ('b', 1), ('b', 2), ('c', 1)]),
        player_move: None,
    };
    assert_eq!(
        board.format_board(),
        vec![
            vec![('a', 1), ('b', 1), ('c', 1)],
            vec![('a', 2), ('b', 2), ('_', 0)],
            vec![('a', 3), ('_', 0), ('_', 0)],
        ]
    );
}

#[test]
fn format_board_of_an_empty_board() {
    let board: Board = Game::new();
    assert_eq!(board.format_board(), Vec::<Vec<(char, u8)>>::new());
}

#[test]
fn format_board_deals_squares_by_row_alone() {
    let board = Board { state: board_of(&[('a', 1), ('b', 2)]), player_move: None };
    assert_eq!(
        board.format_board(),
        vec![vec![('a', 1), ('_', 0)], vec![('b', 2), ('_', 0)]]
    );
}

#[test]
fn format_board_of_a_single_row() {
    let board = Board { state: board_of(&[('a', 1), ('b', 1), ('c', 1)]), player_move: None };
    assert_eq!(board.format_board(), vec![vec![('a', 1), ('b', 1), ('c', 1)]]);
}

#[test]
fn format_board_shows_the_board_during_a_game() {
    let mut board: Board = Game::new();
    assert_eq!(board.default_state(BoardSize(4, 5)), Ok(()));
    for choice in [Position('d', 3), Position('b', 4), Position('e', 1), Position('c', 2)] {
        board.state = chomp(&board.state, choice).unwrap();
        let grid = board.format_board();
        let columns = ['a', 'b', 'c', 'd', 'e'];
        for (r, line) in grid.iter().enumerate() {
            for (c, entry) in line.iter().enumerate() {
                let square = Position(columns[c], r as u8 + 1);
                if board.state.contains(&square) {
                    assert_eq!(*entry, (square.0, square.1));
                } else {
                    assert_eq!(*entry, ('_', 0));
                }
            }
        }
        assert_eq!(grid.len(), 4);
    }
}
