use connect_four::game::{check_if_game_over, create_board, get_last_in_row, make_move, reset_game};
use connect_four::{CellState, GameOver, MoveError, HEIGHT, SIZE, WIDTH};

#[test]
fn test_game_over_1() {
    let mut board = create_board();
    board[10] = CellState::PlayerTwo;
    board[16] = CellState::PlayerOne;
    board[17] = CellState::PlayerOne;
    board[21] = CellState::PlayerOne;
    board[24] = CellState::PlayerOne;
    board[23] = CellState::PlayerTwo;
    board[28] = CellState::PlayerTwo;
    board[29] = CellState::PlayerTwo;
    board[30] = CellState::PlayerOne;
    board[31] = CellState::PlayerTwo;
    board[32] = CellState::PlayerOne;
    board[35] = CellState::PlayerTwo;
    board[36] = CellState::PlayerOne;
    board[37] = CellState::PlayerTwo;
    board[38] = CellState::PlayerOne;
    board[39] = CellState::PlayerOne;
    board[40] = CellState::PlayerTwo;
    board[41] = CellState::PlayerTwo;

    let game_over = check_if_game_over(&board, &CellState::PlayerTwo, 41);
    assert!(game_over.is_none());
}

#[test]
fn test_game_over_2() {
    let mut board = create_board();
    board[3] = CellState::PlayerTwo;
    board[10] = CellState::PlayerTwo;
    board[16] = CellState::PlayerTwo;
    board[17] = CellState::PlayerOne;
    board[23] = CellState::PlayerTwo;
    board[24] = CellState::PlayerOne;
    board[25] = CellState::PlayerOne;
    board[29] = CellState::PlayerTwo;
    board[30] = CellState::PlayerOne;
    board[31] = CellState::PlayerTwo;
    board[32] = CellState::PlayerOne;
    board[34] = CellState::PlayerOne;
    board[35] = CellState::PlayerTwo;
    board[36] = CellState::PlayerOne;
    board[37] = CellState::PlayerOne;
    board[38] = CellState::PlayerOne;
    board[39] = CellState::PlayerTwo;
    board[41] = CellState::PlayerTwo;

    for i in 0..SIZE {
        if board[i] != CellState::Empty {
            let game_over = check_if_game_over(&board, &board[i], i);
            assert!(game_over.is_none(), "index: {}, winner: {:?}", i, game_over);
        }
    }
}

#[test]
fn resolve_on_empty_board_hits_the_bottom_row() {
    let board = create_board();
    assert_eq!(get_last_in_row(&board, 0), Ok((HEIGHT - 1) * WIDTH));
    for column in 0..WIDTH {
        assert_eq!(get_last_in_row(&board, column), Ok((HEIGHT - 1) * WIDTH + column));
    }
}

#[test]
fn resolve_rejects_a_column_off_the_board() {
    let board = create_board();
    assert_eq!(get_last_in_row(&board, WIDTH), Err(MoveError::InvalidColumn));
    assert_eq!(get_last_in_row(&board, 100), Err(MoveError::InvalidColumn));
}

#[test]
fn pieces_stack_and_a_full_column_stays_full() {
    let mut board = create_board();
    for drop in 0..HEIGHT {
        let index = make_move(&mut board, CellState::PlayerOne, 2).unwrap();
        assert_eq!(index, (HEIGHT - 1 - drop) * WIDTH + 2);
    }
    let before = board.clone();
    assert_eq!(get_last_in_row(&board, 2), Err(MoveError::ColumnFull));
    assert_eq!(make_move(&mut board, CellState::PlayerTwo, 2), Err(MoveError::ColumnFull));
    assert_eq!(board, before);
}

#[test]
fn vertical_win_only_on_the_fourth_piece() {
    let mut board = create_board();
    for drop in 0..4 {
        let index = make_move(&mut board, CellState::PlayerOne, 3).unwrap();
        let outcome = check_if_game_over(&board, &CellState::PlayerOne, index);
        if drop < 3 {
            assert_eq!(outcome, None);
        } else {
            assert_eq!(outcome, Some(GameOver::Winner(CellState::PlayerOne)));
        }
    }
}

#[test]
fn horizontal_win_is_detected_from_either_end() {
    let mut board = create_board();
    for column in 1..5 {
        make_move(&mut board, CellState::PlayerTwo, column).unwrap();
    }
    let left_end = (HEIGHT - 1) * WIDTH + 1;
    let right_end = (HEIGHT - 1) * WIDTH + 4;
    assert_eq!(
        check_if_game_over(&board, &CellState::PlayerTwo, left_end),
        Some(GameOver::Winner(CellState::PlayerTwo))
    );
    assert_eq!(
        check_if_game_over(&board, &CellState::PlayerTwo, right_end),
        Some(GameOver::Winner(CellState::PlayerTwo))
    );
}

#[test]
fn diagonal_win_is_detected() {
    let mut board = create_board();
    // a staircase: player one on the rising diagonal from column 0
    for column in 0..4 {
        for _ in 0..column {
            make_move(&mut board, CellState::PlayerTwo, column).unwrap();
        }
        make_move(&mut board, CellState::PlayerOne, column).unwrap();
    }
    let top_of_stairs = (HEIGHT - 4) * WIDTH + 3;
    assert_eq!(board[top_of_stairs], CellState::PlayerOne);
    assert_eq!(
        check_if_game_over(&board, &CellState::PlayerOne, top_of_stairs),
        Some(GameOver::Winner(CellState::PlayerOne))
    );
}

#[test]
fn three_in_a_row_is_no_win() {
    let mut board = create_board();
    for column in 1..4 {
        make_move(&mut board, CellState::PlayerTwo, column).unwrap();
    }
    let last = (HEIGHT - 1) * WIDTH + 3;
    assert_eq!(check_if_game_over(&board, &CellState::PlayerTwo, last), None);
}

/// A full board holding no four-in-a-row for either player, row by row
/// from the top.
fn lineless_full_board() -> Vec<CellState> {
    let rows = ["OXOXOOX", "XXOOOXO", "OOXOOOX", "XXXOXXX", "OXXXOXO", "OXOXOXO"];
    let mut board = create_board();
    for (row, cells) in rows.iter().enumerate() {
        for (column, glyph) in cells.bytes().enumerate() {
            board[row * WIDTH + column] = if glyph == b'X' {
                CellState::PlayerOne
            } else {
                CellState::PlayerTwo
            };
        }
    }
    board
}

#[test]
fn full_board_without_a_line_is_a_draw() {
    let board = lineless_full_board();
    assert_eq!(board[SIZE - 1], CellState::PlayerTwo);
    assert_eq!(
        check_if_game_over(&board, &CellState::PlayerTwo, SIZE - 1),
        Some(GameOver::Draw)
    );
    for i in 0..SIZE {
        assert_eq!(check_if_game_over(&board, &board[i], i), Some(GameOver::Draw));
    }
}

#[test]
fn open_board_without_a_line_goes_on() {
    let mut board = lineless_full_board();
    board[0] = CellState::Empty;
    assert_eq!(check_if_game_over(&board, &CellState::PlayerTwo, SIZE - 1), None);
}

#[test]
fn reset_clears_the_board_and_the_turn() {
    let mut board = create_board();
    make_move(&mut board, CellState::PlayerTwo, 5).unwrap();
    let mut turn = CellState::PlayerTwo;
    reset_game(&mut board, &mut turn);
    assert_eq!(turn, CellState::PlayerOne);
    assert!(board.iter().all(|&cell| cell == CellState::Empty));
}
