use connect_four::bot::{bot_move, get_best_move, recursive_check_outcome, SCORE_ONE};
use connect_four::game::{check_if_game_over, create_board, get_last_in_row, make_move};
use connect_four::{BotDifficulty, CellState, HEIGHT, SIZE, WIDTH};

#[test]
fn test_best_move() {
    let mut board = create_board();
    for i in 0..(SIZE / 2) {
        let index = get_last_in_row(&board, i % WIDTH).unwrap();
        board[index] = CellState::PlayerOne;
        if let Some(_) = check_if_game_over(&board, &CellState::PlayerOne, index) {
            println!("Player 1 wins!");
            break;
        }

        let index = get_best_move(&board, BotDifficulty::Easy);
        board[index] = CellState::PlayerTwo;

        if let Some(_) = check_if_game_over(&board, &CellState::PlayerTwo, index) {
            println!("Player 2 wins!");
            break;
        }
    }
}

#[test]
fn opening_move_answers_right_above_the_first_piece() {
    for k in 0..WIDTH {
        let mut board = create_board();
        make_move(&mut board, CellState::PlayerOne, k).unwrap();
        let reply = get_best_move(&board, BotDifficulty::Easy);
        assert_eq!(reply, (HEIGHT - 2) * WIDTH + k);
        assert_eq!(reply % WIDTH, k);
    }
}

#[test]
fn opening_move_is_the_same_for_every_difficulty() {
    let difficulties = [
        BotDifficulty::Easy,
        BotDifficulty::Normal,
        BotDifficulty::Difficult,
        BotDifficulty::Expert,
    ];
    let mut board = create_board();
    make_move(&mut board, CellState::PlayerOne, 4).unwrap();
    for difficulty in difficulties {
        assert_eq!(get_best_move(&board, difficulty), (HEIGHT - 2) * WIDTH + 4);
    }
}

/// A board where dropping into column 0 wins for the bot at once: player
/// two already has three pieces stacked there.
fn board_with_bot_win_in_column_0() -> Vec<CellState> {
    let mut board = create_board();
    for _ in 0..3 {
        make_move(&mut board, CellState::PlayerTwo, 0).unwrap();
        make_move(&mut board, CellState::PlayerOne, 3).unwrap();
    }
    // break player one's own column before it reaches four
    make_move(&mut board, CellState::PlayerTwo, 3).unwrap();
    make_move(&mut board, CellState::PlayerOne, 5).unwrap();
    board
}

#[test]
fn a_sure_win_is_taken_at_every_difficulty() {
    let difficulties = [
        BotDifficulty::Easy,
        BotDifficulty::Normal,
        BotDifficulty::Difficult,
        BotDifficulty::Expert,
    ];
    for difficulty in difficulties {
        let board = board_with_bot_win_in_column_0();
        let chosen = get_best_move(&board, difficulty);
        let score = recursive_check_outcome(board.clone(), chosen, CellState::PlayerTwo, 0);
        assert_eq!(score, SCORE_ONE);
    }
}

#[test]
fn the_bot_never_picks_an_occupied_cell() {
    let mut board = create_board();
    make_move(&mut board, CellState::PlayerOne, 2).unwrap();
    make_move(&mut board, CellState::PlayerTwo, 2).unwrap();
    make_move(&mut board, CellState::PlayerOne, 4).unwrap();
    make_move(&mut board, CellState::PlayerTwo, 6).unwrap();
    for _ in 0..50 {
        let chosen = get_best_move(&board, BotDifficulty::Easy);
        assert!(chosen < SIZE);
        assert_eq!(board[chosen], CellState::Empty);
        assert_eq!(chosen, get_last_in_row(&board, chosen % WIDTH).unwrap());
    }
}

#[test]
fn expert_is_deterministic() {
    let mut board = create_board();
    make_move(&mut board, CellState::PlayerOne, 3).unwrap();
    make_move(&mut board, CellState::PlayerTwo, 3).unwrap();
    make_move(&mut board, CellState::PlayerOne, 2).unwrap();
    make_move(&mut board, CellState::PlayerTwo, 4).unwrap();
    let first = get_best_move(&board, BotDifficulty::Expert);
    for _ in 0..10 {
        assert_eq!(get_best_move(&board, BotDifficulty::Expert), first);
    }
}

#[test]
fn bot_move_places_the_piece_it_chose() {
    let mut board = create_board();
    make_move(&mut board, CellState::PlayerOne, 1).unwrap();
    make_move(&mut board, CellState::PlayerTwo, 1).unwrap();
    make_move(&mut board, CellState::PlayerOne, 5).unwrap();
    make_move(&mut board, CellState::PlayerTwo, 0).unwrap();
    let before = board.clone();
    let index = bot_move(&mut board, BotDifficulty::Normal);
    assert_eq!(before[index], CellState::Empty);
    assert_eq!(board[index], CellState::PlayerTwo);
    for i in 0..SIZE {
        if i != index {
            assert_eq!(board[i], before[i]);
        }
    }
}

#[test]
fn scoring_an_immediate_loss_for_the_bot_is_zero() {
    let mut board = create_board();
    // three player-one pieces stacked in column 6; a fourth wins
    for _ in 0..3 {
        make_move(&mut board, CellState::PlayerOne, 6).unwrap();
        make_move(&mut board, CellState::PlayerTwo, 1).unwrap();
    }
    make_move(&mut board, CellState::PlayerOne, 1).unwrap();
    make_move(&mut board, CellState::PlayerTwo, 2).unwrap();
    let landing = get_last_in_row(&board, 6).unwrap();
    let score = recursive_check_outcome(board.clone(), landing, CellState::PlayerOne, 0);
    assert_eq!(score, 0);
}

/// All candidate scores of a board, one per still-open column.
fn candidate_scores(board: &Vec<CellState>) -> Vec<u64> {
    let mut scores = Vec::new();
    for column in 0..WIDTH {
        if let Ok(landing) = get_last_in_row(board, column) {
            scores.push(recursive_check_outcome(
                board.clone(),
                landing,
                CellState::PlayerTwo,
                0,
            ));
        }
    }
    scores
}

fn mid_game_board() -> Vec<CellState> {
    let mut board = create_board();
    make_move(&mut board, CellState::PlayerOne, 3).unwrap();
    make_move(&mut board, CellState::PlayerTwo, 3).unwrap();
    make_move(&mut board, CellState::PlayerOne, 2).unwrap();
    make_move(&mut board, CellState::PlayerTwo, 4).unwrap();
    board
}

#[test]
fn expert_picks_a_top_scoring_column() {
    let board = mid_game_board();
    let chosen = get_best_move(&board, BotDifficulty::Expert);
    let chosen_score = recursive_check_outcome(board.clone(), chosen, CellState::PlayerTwo, 0);
    for score in candidate_scores(&board) {
        assert!(chosen_score >= score);
    }
}

#[test]
fn normal_never_draws_from_the_worse_half() {
    let board = mid_game_board();
    let mut scores = candidate_scores(&board);
    scores.sort();
    scores.reverse();
    let pool = (scores.len() - scores.len() / 2).max(1);
    let floor = scores[pool - 1];
    for _ in 0..50 {
        let chosen = get_best_move(&board, BotDifficulty::Normal);
        let chosen_score =
            recursive_check_outcome(board.clone(), chosen, CellState::PlayerTwo, 0);
        assert!(chosen_score >= floor);
    }
}

#[test]
fn difficulty_cycles_in_order_and_wraps() {
    assert_eq!(BotDifficulty::Off.next(), BotDifficulty::Easy);
    assert_eq!(BotDifficulty::Easy.next(), BotDifficulty::Normal);
    assert_eq!(BotDifficulty::Normal.next(), BotDifficulty::Difficult);
    assert_eq!(BotDifficulty::Difficult.next(), BotDifficulty::Expert);
    assert_eq!(BotDifficulty::Expert.next(), BotDifficulty::Off);
}
