//! Game-state engine for a two-player gravity-drop connection game on a
//! 7 x 6 grid, with an optional computer opponent.
//!
//! The board is a row-major sequence of cells; a dropped piece lands in the
//! lowest empty cell of its column. The engine offers move resolution,
//! win/draw detection local to the last move, and the bot's column choice,
//! a depth-bounded recursive scorer with difficulty-tiered randomization.

use vstd::prelude::*;

pub mod bot;
pub mod game;
pub mod input;

verus! {

/// Number of columns of the board.
pub const WIDTH: usize = 7;

/// Number of rows of the board.
pub const HEIGHT: usize = 6;

/// Number of cells of the board.
pub const SIZE: usize = WIDTH * HEIGHT;

/// One cell of the board: empty, or holding a piece of one of the players.
#[derive(Clone, Copy, PartialEq, Eq, Structural, Debug)]
pub enum CellState {
    Empty,
    PlayerOne,
    PlayerTwo,
}

/// The result of evaluating the board after a move, when the game is over.
#[derive(Clone, Copy, PartialEq, Eq, Structural, Debug)]
pub enum GameOver {
    Draw,
    Winner(CellState),
}

/// A decoded player command, as handed in by the input-reading shell.
#[derive(Clone, Copy, PartialEq, Eq, Structural, Debug)]
pub enum Command {
    Quit,
    Bot,
    Reset,
    Move(usize),
}

/// The strength tier of the computer opponent, in increasing order.
#[derive(Clone, Copy, PartialEq, Eq, Structural, Debug)]
pub enum BotDifficulty {
    Off,
    Easy,
    Normal,
    Difficult,
    Expert,
}

/// The two ways resolving a column can fail: the column index is out of
/// range, or the column has no empty cell left.
#[derive(Clone, Copy, PartialEq, Eq, Structural, Debug)]
pub enum MoveError {
    InvalidColumn,
    ColumnFull,
}

/// The board: a row-major sequence of `SIZE` cells. Index
/// `grid_row * WIDTH + column`, with `grid_row` 0 at the top.
pub type Board = Vec<CellState>;

impl BotDifficulty {
    /// Cycle to the next difficulty tier, wrapping around after the last.
    pub fn next(self) -> (r: BotDifficulty)
        ensures
            self == BotDifficulty::Off ==> r == BotDifficulty::Easy,
            self == BotDifficulty::Easy ==> r == BotDifficulty::Normal,
            self == BotDifficulty::Normal ==> r == BotDifficulty::Difficult,
            self == BotDifficulty::Difficult ==> r == BotDifficulty::Expert,
            self == BotDifficulty::Expert ==> r == BotDifficulty::Off,
    {
        match self {
            BotDifficulty::Off => BotDifficulty::Easy,
            BotDifficulty::Easy => BotDifficulty::Normal,
            BotDifficulty::Normal => BotDifficulty::Difficult,
            BotDifficulty::Difficult => BotDifficulty::Expert,
            BotDifficulty::Expert => BotDifficulty::Off,
        }
    }
}

} // verus!
