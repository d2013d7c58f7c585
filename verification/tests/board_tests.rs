use minesweeper::board::{Board, FlagError, GameState, OpenError, Square};

fn setup_board_9_9_10(start_position: (usize, usize), seed: u64) -> Board {
    let mut board = Board::new(9, 9, 10);
    board.init_mines(start_position, Some(seed));
    board
}

fn expected_mines() -> Vec<(usize, usize)> {
    vec![
        (0, 7),
        (1, 5),
        (1, 6),
        (3, 1),
        (4, 3),
        (4, 4),
        (6, 1),
        (7, 2),
        (8, 0),
        (8, 6),
    ]
}

/// The positions shown as mines by the projection, sorted.
fn projected_mines(board: &Board) -> Vec<(usize, usize)> {
    let map = board.get_board_state();
    let mut v: Vec<(usize, usize)> = Vec::new();
    for (y, row) in map.iter().enumerate() {
        for (x, sq) in row.iter().enumerate() {
            if matches!(sq, Square::Mine) {
                v.push((x, y));
            }
        }
    }
    v.sort();
    v
}

#[test]
fn test_mines() {
    let mut board = setup_board_9_9_10((0, 0), 1);
    // the mine layout only becomes visible once the game is lost
    let lost = board.open((3, 1));
    assert_eq!(lost, Ok(GameState::Lost));
    let v = projected_mines(&board);
    println!("{:?}", v);
    assert_eq!(v, expected_mines());
}

#[test]
fn test_neighbors() {
    let board = setup_board_9_9_10((0, 0), 1);
    let neigh_board_corner = board.iter_neighbors((0, 0));
    let neigh_middle = board.iter_neighbors((4, 4));
    let neigh_edge = board.iter_neighbors((0, 4));
    assert_eq!(neigh_board_corner.len(), 3);
    assert_eq!(neigh_middle.len(), 8);
    assert_eq!(neigh_edge.len(), 5);
}

#[test]
fn test_open_clear_field() {
    let mut board = setup_board_9_9_10((0, 0), 1);
    board.open((0, 5)).unwrap();
    board.open((4, 2)).unwrap();
    board.open((5, 7)).unwrap();
}

#[test]
fn test_open_already_open_field() {
    let mut board = setup_board_9_9_10((0, 0), 1);
    let err = board.open((0, 1));
    match err {
        Ok(_) => panic!("Expected an error, but got OK"),
        Err(OpenError::AlreadyOpen) => {}
        Err(_) => panic!("Wrong error type returned"),
    }
}

#[test]
fn test_open_bomb() {
    let mut board = setup_board_9_9_10((0, 0), 1);
    let err = board.open((3, 1));
    match err {
        Ok(GameState::Lost) => {}
        _ => panic!("Wrong gamestate returned"),
    }
}

#[test]
fn test_same_seed_same_game() {
    let mut b1 = setup_board_9_9_10((0, 0), 5);
    let mut b2 = setup_board_9_9_10((0, 0), 5);
    assert_eq!(b1.get_board_state(), b2.get_board_state());
    let r1 = b1.open((4, 4));
    let r2 = b2.open((4, 4));
    assert_eq!(r1, r2);
    let f1 = b1.flag((8, 8));
    let f2 = b2.flag((8, 8));
    assert_eq!(f1, f2);
    assert_eq!(b1.get_board_state(), b2.get_board_state());
}

#[test]
fn test_start_is_never_a_mine() {
    for seed in 0..20u64 {
        let mut board = Board::new(9, 9, 10);
        board.init_mines((4, 4), Some(seed));
        // lose on purpose to reveal the layout, then look at the start cell
        'outer: for y in 0..9usize {
            for x in 0..9usize {
                if let Ok(GameState::Lost) = board.open((x, y)) {
                    break 'outer;
                }
            }
        }
        let mines = projected_mines(&board);
        assert!(!mines.contains(&(4, 4)));
    }
}

#[test]
fn test_flag_unflag_leaves_board_unchanged() {
    let mut board = setup_board_9_9_10((0, 0), 1);
    let before = board.get_board_state();
    assert_eq!(board.flag((8, 8)), Ok(GameState::OnGoing));
    assert_eq!(board.flag((8, 8)), Ok(GameState::OnGoing));
    assert_eq!(board.get_board_state(), before);
    assert!(board.ongoing());
}

#[test]
fn test_win_by_flagging_all_mines() {
    let mut board = setup_board_9_9_10((0, 0), 1);
    let mines = expected_mines();
    // open every non-mine cell first
    for y in 0..9usize {
        for x in 0..9usize {
            if !mines.contains(&(x, y)) {
                match board.open((x, y)) {
                    Ok(GameState::OnGoing) | Err(OpenError::AlreadyOpen) => {}
                    other => panic!("unexpected open result {:?}", other),
                }
            }
        }
    }
    assert!(board.ongoing());
    // flagging the mines ends the game on the last flag
    for (k, &m) in mines.iter().enumerate() {
        let r = board.flag(m);
        if k + 1 < mines.len() {
            assert_eq!(r, Ok(GameState::OnGoing));
        } else {
            assert_eq!(r, Ok(GameState::Won));
        }
    }
    assert!(!board.ongoing());
    assert!(!board.lost());
    assert!(board.initialized());
}

#[test]
fn test_projection_values_and_precedence() {
    let mut board = setup_board_9_9_10((0, 0), 1);
    let map = board.get_board_state();
    // the start cell has no adjacent mines and was opened by the cascade
    assert_eq!(map[0][0], Square::Opened(0));
    // the mine at (3, 1) stays hidden while the game is on
    assert_eq!(map[1][3], Square::NotYetOpened);
    // a flag shows as a flag
    assert_eq!(board.flag((3, 1)), Ok(GameState::OnGoing));
    let map = board.get_board_state();
    assert_eq!(map[1][3], Square::Flag);
    // after a loss every mine is revealed, but flags are drawn on top
    assert_eq!(board.open((4, 3)), Ok(GameState::Lost));
    let map = board.get_board_state();
    assert_eq!(map[3][4], Square::Mine);
    assert_eq!(map[1][3], Square::Flag);
}

#[test]
fn test_board_state_before_init() {
    let board = Board::new(3, 4, 2);
    let map = board.get_board_state();
    assert_eq!(map.len(), 3);
    for row in &map {
        assert_eq!(row.len(), 4);
        for sq in row {
            assert_eq!(*sq, Square::NotYetOpened);
        }
    }
    assert!(!board.initialized());
    assert!(!board.ongoing());
    assert!(!board.lost());
}

#[test]
fn test_open_errors_before_and_after_the_game() {
    let mut board = Board::new(9, 9, 10);
    assert_eq!(board.open((0, 0)), Err(OpenError::MinesNotInit));
    assert_eq!(board.flag((0, 0)), Err(FlagError::MinesNotInit));
    board.init_mines((0, 0), Some(1));
    assert_eq!(board.open((9, 0)), Err(OpenError::OutOfBounds));
    assert_eq!(board.open((0, 9)), Err(OpenError::OutOfBounds));
    assert_eq!(board.flag((42, 0)), Err(FlagError::OutOfBounds));
    // flagged cells cannot be opened, opened cells cannot be flagged
    assert_eq!(board.flag((4, 2)), Ok(GameState::OnGoing));
    assert_eq!(board.open((4, 2)), Err(OpenError::AlreadyFlagged));
    assert_eq!(board.flag((0, 0)), Err(FlagError::AlreadyOpen));
    // after a loss everything is rejected
    assert_eq!(board.open((4, 3)), Ok(GameState::Lost));
    assert!(board.lost());
    assert_eq!(board.open((5, 5)), Err(OpenError::AlreadyLost));
    assert_eq!(board.flag((5, 5)), Err(FlagError::AlreadyLost));
}

#[test]
fn test_won_board_rejects_moves() {
    // a 1x2 board with one mine: the mine must sit on the only other cell
    let mut board = Board::new(1, 2, 1);
    board.init_mines((0, 0), Some(7));
    assert!(board.ongoing());
    assert_eq!(board.flag((1, 0)), Ok(GameState::Won));
    assert_eq!(board.open((0, 0)), Err(OpenError::AlreadyWon));
    assert_eq!(board.flag((1, 0)), Err(FlagError::AlreadyWon));
}

#[test]
fn test_frontier_on_a_tiny_board() {
    let mut board = Board::new(1, 2, 1);
    board.init_mines((0, 0), Some(3));
    // only the start cell is open, and its neighbor is still closed
    assert_eq!(board.get_frontier(), vec![(0, 0)]);
    let map = board.get_board_state();
    assert_eq!(map[0][0], Square::Opened(1));
}

#[test]
fn test_init_without_seed() {
    let mut board = Board::new(5, 5, 3);
    board.init_mines((2, 2), None);
    assert!(board.initialized());
    assert!(board.ongoing());
    let map = board.get_board_state();
    // whatever the layout, the start cell is safe and was opened
    assert!(matches!(map[2][2], Square::Opened(_)));
}

#[test]
fn test_zero_mines_wins_on_first_open() {
    let mut board = Board::new(2, 2, 0);
    board.init_mines((0, 0), Some(1));
    // the cascade reveals the whole board, which wins the game at once
    assert!(board.initialized());
    assert!(!board.ongoing());
    assert!(!board.lost());
    let map = board.get_board_state();
    for row in &map {
        for sq in row {
            assert_eq!(*sq, Square::Opened(0));
        }
    }
}

#[test]
fn test_config_round_trip() {
    let args = minesweeper::config::Args::new(Some(9), 10, 11, 12);
    assert_eq!(args.get_seed(), Some(9));
    assert_eq!(args.get_rows(), 10);
    assert_eq!(args.get_cols(), 11);
    assert_eq!(args.get_mines(), 12);
}
