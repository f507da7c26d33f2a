//! Board operations: creating and resetting the board, resolving a
//! gravity drop, placing a piece, and win/draw detection local to the
//! last move.

use vstd::prelude::*;

use crate::{Board, CellState, GameOver, MoveError, HEIGHT, SIZE, WIDTH};

verus! {

/// A well-formed board holds exactly `SIZE` cells.
pub open spec fn board_wf(b: Seq<CellState>) -> bool {
    b.len() == SIZE
}

/// The cell at column `x`, grid row `y` (`y` is 0 at the top).
pub open spec fn cell_at(b: Seq<CellState>, x: int, y: int) -> CellState {
    b[y * (WIDTH as int) + x]
}

/// Whether `(x, y)` is a coordinate on the board.
pub open spec fn in_bounds(x: int, y: int) -> bool {
    0 <= x < WIDTH && 0 <= y < HEIGHT
}

/// Every cell of the board is occupied.
pub open spec fn board_full(b: Seq<CellState>) -> bool {
    forall|i: int| 0 <= i < b.len() ==> b[i] != CellState::Empty
}

/// Column `x` still has at least one empty cell.
pub open spec fn col_has_empty(b: Seq<CellState>, x: int) -> bool {
    exists|y: int| 0 <= y < HEIGHT && cell_at(b, x, y) == CellState::Empty
}

/// The flat index of the bottom-most empty cell of column `x`, scanning
/// grid rows from `y` upward; `-1` if rows `0..=y` are all occupied.
pub open spec fn landing_from(b: Seq<CellState>, x: int, y: int) -> int
    decreases y + 1 when y >= -1
{
    if y < 0 {
        -1
    } else if cell_at(b, x, y) == CellState::Empty {
        y * (WIDTH as int) + x
    } else {
        landing_from(b, x, y - 1)
    }
}

/// The flat index where a piece dropped into column `x` lands: the
/// bottom-most empty cell of the column; `-1` if the column is full.
pub open spec fn landing_index(b: Seq<CellState>, x: int) -> int {
    landing_from(b, x, (HEIGHT as int) - 1)
}

/// Create an empty board.
pub fn create_board() -> (r: Board)
    ensures
        board_wf(r@),
        forall|i: int| 0 <= i < SIZE ==> r@[i] == CellState::Empty,
{
    let mut board: Vec<CellState> = Vec::new();
    let mut i: usize = 0;
    while i < SIZE
        invariant
            i <= SIZE,
            board@.len() == i,
            forall|k: int| 0 <= k < i ==> board@[k] == CellState::Empty,
        decreases SIZE - i,
    {
        board.push(CellState::Empty);
        i = i + 1;
    }
    board
}

/// If rows `y+1..HEIGHT` of column `x` are occupied and row `y` is empty,
/// the landing scan from any row `y2 >= y` stops at row `y`.
proof fn lemma_landing_from_found(b: Seq<CellState>, x: int, y: int, y2: int)
    requires
        board_wf(b),
        0 <= x < WIDTH,
        0 <= y <= y2 < HEIGHT,
        cell_at(b, x, y) == CellState::Empty,
        forall|yy: int| y < yy <= y2 ==> cell_at(b, x, yy) != CellState::Empty,
    ensures
        landing_from(b, x, y2) == y * (WIDTH as int) + x,
    decreases y2 - y,
{
    if y2 > y {
        lemma_landing_from_found(b, x, y, y2 - 1);
    }
}

/// If rows `0..=y2` of column `x` are all occupied, the landing scan
/// from row `y2` finds nothing.
proof fn lemma_landing_from_none(b: Seq<CellState>, x: int, y2: int)
    requires
        board_wf(b),
        0 <= x < WIDTH,
        -1 <= y2 < HEIGHT,
        forall|yy: int| 0 <= yy <= y2 ==> cell_at(b, x, yy) != CellState::Empty,
    ensures
        landing_from(b, x, y2) == -1,
    decreases y2 + 1,
{
    if y2 >= 0 {
        lemma_landing_from_none(b, x, y2 - 1);
    }
}

/// What `landing_index` means on a column that still has room: it is the
/// bottom-most empty cell of the column.
pub proof fn lemma_landing_props(b: Seq<CellState>, x: int)
    requires
        board_wf(b),
        0 <= x < WIDTH,
        col_has_empty(b, x),
    ensures
        ({
            let i = landing_index(b, x);
            0 <= i < SIZE
                && i % (WIDTH as int) == x
                && b[i] == CellState::Empty
                && cell_at(b, x, i / (WIDTH as int)) == CellState::Empty
                && forall|yy: int|
                    i / (WIDTH as int) < yy < HEIGHT ==> cell_at(b, x, yy) != CellState::Empty
        }),
{
    assert(exists|y: int|
        0 <= y < HEIGHT && cell_at(b, x, y) == CellState::Empty && (forall|yy: int|
            y < yy < HEIGHT ==> cell_at(b, x, yy) != CellState::Empty)) by {
        let ye = choose|y: int| 0 <= y < HEIGHT && cell_at(b, x, y) == CellState::Empty;
        let yb = bottom_empty(b, x, ye);
        assert(0 <= yb < HEIGHT && cell_at(b, x, yb) == CellState::Empty && (forall|yy: int|
            yb < yy < HEIGHT ==> cell_at(b, x, yy) != CellState::Empty));
    }
    let y0 = choose|y: int|
        0 <= y < HEIGHT && cell_at(b, x, y) == CellState::Empty && (forall|yy: int|
            y < yy < HEIGHT ==> cell_at(b, x, yy) != CellState::Empty);
    lemma_landing_from_found(b, x, y0, (HEIGHT as int) - 1);
    let i = landing_index(b, x);
    assert(i == y0 * (WIDTH as int) + x);
    assert(i % (WIDTH as int) == x && i / (WIDTH as int) == y0) by (nonlinear_arith)
        requires
            i == y0 * (WIDTH as int) + x,
            0 <= x < WIDTH,
            0 <= y0,
            WIDTH == 7,
    ;
}

/// The bottom-most empty row of column `x` at or below row `ye` (which
/// must be empty): every row strictly below the result is occupied.
proof fn bottom_empty(b: Seq<CellState>, x: int, ye: int) -> (yb: int)
    requires
        board_wf(b),
        0 <= x < WIDTH,
        0 <= ye < HEIGHT,
        cell_at(b, x, ye) == CellState::Empty,
    ensures
        ye <= yb < HEIGHT,
        cell_at(b, x, yb) == CellState::Empty,
        forall|yy: int| yb < yy < HEIGHT ==> cell_at(b, x, yy) != CellState::Empty,
    decreases HEIGHT - ye,
{
    if exists|yy: int| ye < yy < HEIGHT && cell_at(b, x, yy) == CellState::Empty {
        let yn = choose|yy: int| ye < yy < HEIGHT && cell_at(b, x, yy) == CellState::Empty;
        bottom_empty(b, x, yn)
    } else {
        ye
    }
}

/// Resolve a gravity drop: the flat index of the bottom-most empty cell
/// of column `row`, or the reason there is none.
pub fn get_last_in_row(board: &Board, row: usize) -> (r: Result<usize, MoveError>)
    requires
        board_wf(board@),
    ensures
        ({
            match r {
                Ok(i) => row < WIDTH && col_has_empty(board@, row as int)
                    && i as int == landing_index(board@, row as int) && i < SIZE
                    && board@[i as int] == CellState::Empty
                    && i as int % (WIDTH as int) == row
                    && forall|yy: int|
                        i as int / (WIDTH as int) < yy < HEIGHT
                            ==> cell_at(board@, row as int, yy) != CellState::Empty,
                Err(MoveError::InvalidColumn) => row >= WIDTH,
                Err(MoveError::ColumnFull) => row < WIDTH && !col_has_empty(board@, row as int),
            }
        }),
{
    if row >= WIDTH {
        return Err(MoveError::InvalidColumn);
    }
    let mut y: usize = HEIGHT;
    while y > 0
        invariant
            board_wf(board@),
            row < WIDTH,
            y <= HEIGHT,
            forall|yy: int| y <= yy < HEIGHT ==> cell_at(board@, row as int, yy) != CellState::Empty,
        decreases y,
    {
        y = y - 1;
        let i = y * WIDTH + row;
        assert(cell_at(board@, row as int, y as int) == board@[i as int]);
        if board[i] == CellState::Empty {
            proof {
                lemma_landing_from_found(board@, row as int, y as int, (HEIGHT as int) - 1);
                assert(i as int % (WIDTH as int) == row && i as int / (WIDTH as int) == y)
                    by (nonlinear_arith)
                    requires
                        i as int == y * (WIDTH as int) + row,
                        0 <= row < WIDTH,
                        0 <= y,
                        WIDTH == 7,
                ;
            }
            return Ok(i);
        }
    }
    Err(MoveError::ColumnFull)
}

/// Drop a piece of `turn` into column `row`: write it to the bottom-most
/// empty cell of the column and report that cell's index. On failure the
/// board is left unmodified.
pub fn make_move(board: &mut Board, turn: CellState, row: usize) -> (r: Result<usize, MoveError>)
    requires
        board_wf(old(board)@),
    ensures
        board_wf(final(board)@),
        ({
            match r {
                Ok(i) => row < WIDTH && col_has_empty(old(board)@, row as int)
                    && i as int == landing_index(old(board)@, row as int) && i < SIZE
                    && old(board)@[i as int] == CellState::Empty
                    && i as int % (WIDTH as int) == row
                    && final(board)@ == old(board)@.update(i as int, turn),
                Err(MoveError::InvalidColumn) => row >= WIDTH && final(board)@ == old(board)@,
                Err(MoveError::ColumnFull) => row < WIDTH
                    && !col_has_empty(old(board)@, row as int) && final(board)@ == old(board)@,
            }
        }),
{
    match get_last_in_row(&board, row) {
        Ok(index) => {
            board.set(index, turn);
            Ok(index)
        },
        Err(message) => Err(message),
    }
}

/// Clear every cell of the board and hand the turn back to player one.
pub fn reset_game(board: &mut Board, turn: &mut CellState)
    requires
        board_wf(old(board)@),
    ensures
        board_wf(final(board)@),
        forall|i: int| 0 <= i < SIZE ==> final(board)@[i] == CellState::Empty,
        *final(turn) == CellState::PlayerOne,
{
    let mut i: usize = 0;
    while i < SIZE
        invariant
            board_wf(board@),
            i <= SIZE,
            forall|k: int| 0 <= k < i ==> board@[k] == CellState::Empty,
        decreases SIZE - i,
    {
        board.set(i, CellState::Empty);
        i = i + 1;
    }
    *turn = CellState::PlayerOne;
}

/// The flat index of the cell at column `row`, grid row `column`.
pub fn transform_to_index(row: usize, column: usize) -> (r: usize)
    requires
        row < WIDTH,
        column < HEIGHT,
    ensures
        r == column * WIDTH + row,
        r < SIZE,
{
    column * WIDTH + row
}

/// Step `j` of the line through `(x0, y0)` with direction `(dx, dy)`
/// lands on the board and holds a piece of `t`.
pub open spec fn good_step(
    b: Seq<CellState>,
    t: CellState,
    x0: int,
    y0: int,
    dx: int,
    dy: int,
    j: int,
) -> bool {
    in_bounds(x0 + j * dx, y0 + j * dy) && cell_at(b, x0 + j * dx, y0 + j * dy) == t
}

/// Steps `s..s+4` of the line through `(x0, y0)` with direction
/// `(dx, dy)` all land on the board and all hold a piece of `t`.
pub open spec fn window_all(
    b: Seq<CellState>,
    t: CellState,
    x0: int,
    y0: int,
    dx: int,
    dy: int,
    s: int,
) -> bool {
    forall|j: int| s <= j < s + 4 ==> good_step(b, t, x0, y0, dx, dy, j)
}

/// Four or more contiguous cells of `t` lie on the line through
/// `(x0, y0)` with direction `(dx, dy)`, one of them at `(x0, y0)`:
/// some window of four consecutive steps around the cell is all `t`.
pub open spec fn line_through(
    b: Seq<CellState>,
    t: CellState,
    x0: int,
    y0: int,
    dx: int,
    dy: int,
) -> bool {
    exists|s: int| -3 <= s <= 0 && #[trigger] window_all(b, t, x0, y0, dx, dy, s)
}

/// The piece at flat index `i` completes a line of four or more cells of
/// `t` in one of the four directions: horizontal, vertical, or a diagonal.
pub open spec fn wins_at(b: Seq<CellState>, t: CellState, i: int) -> bool {
    let x0 = i % (WIDTH as int);
    let y0 = i / (WIDTH as int);
    ||| line_through(b, t, x0, y0, 1, 0)
    ||| line_through(b, t, x0, y0, 0, 1)
    ||| line_through(b, t, x0, y0, 1, 1)
    ||| line_through(b, t, x0, y0, -1, 1)
}

/// The number of contiguous cells of `turn` strictly beyond `(x0, y0)`
/// along direction `(dx, dy)`: the largest `n` with steps `1..=n` all
/// on the board and all holding `turn`.
fn run_len(board: &Board, turn: CellState, x0: usize, y0: usize, dx: i32, dy: i32) -> (n: usize)
    requires
        board_wf(board@),
        in_bounds(x0 as int, y0 as int),
        -1 <= dx <= 1,
        -1 <= dy <= 1,
        dx != 0 || dy != 0,
    ensures
        forall|j: int|
            1 <= j <= n ==> good_step(board@, turn, x0 as int, y0 as int, dx as int, dy as int, j),
        !good_step(board@, turn, x0 as int, y0 as int, dx as int, dy as int, n + 1),
        n <= 6,
{
    let mut n: usize = 0;
    let mut x: i32 = x0 as i32 + dx;
    let mut y: i32 = y0 as i32 + dy;
    loop
        invariant
            board_wf(board@),
            in_bounds(x0 as int, y0 as int),
            -1 <= dx <= 1,
            -1 <= dy <= 1,
            dx != 0 || dy != 0,
            n <= 6,
            x == x0 + (n + 1) * dx,
            y == y0 + (n + 1) * dy,
            forall|j: int|
                1 <= j <= n
                    ==> good_step(board@, turn, x0 as int, y0 as int, dx as int, dy as int, j),
        decreases 7 - n,
    {
        if !(0 <= x && x < WIDTH as i32 && 0 <= y && y < HEIGHT as i32) {
            return n;
        }
        let i = (y as usize) * WIDTH + (x as usize);
        if board[i] != turn {
            assert(cell_at(board@, x as int, y as int) == board@[i as int]);
            return n;
        }
        assert(good_step(board@, turn, x0 as int, y0 as int, dx as int, dy as int, n + 1)) by {
            assert(cell_at(board@, x as int, y as int) == board@[i as int]);
        }
        n = n + 1;
        proof {
            assert((n + 1) * dx == n * dx + dx) by (nonlinear_arith);
            assert((n + 1) * dy == n * dy + dy) by (nonlinear_arith);
            assert(n <= 6) by {
                assert(good_step(board@, turn, x0 as int, y0 as int, dx as int, dy as int, n as int));
                assert(in_bounds(x0 + n * dx, y0 + n * dy));
                if dx != 0 {
                    assert(n * dx <= 6 && n * dx >= -6 ==> n <= 6) by (nonlinear_arith)
                        requires dx == 1 || dx == -1, n >= 0,
                    ;
                } else {
                    assert(n * dy <= 5 && n * dy >= -5 ==> n <= 5) by (nonlinear_arith)
                        requires dy == 1 || dy == -1, n >= 0,
                    ;
                }
            }
        }
        x = x + dx;
        y = y + dy;
    }
}

/// Counting `f` matching cells forward along `(dx, dy)` and `bk` matching
/// cells backward, both runs maximal, the placed cell plus the two runs
/// reach four exactly when a four-window of `t` cells lies on that line
/// through the placed cell.
proof fn lemma_runs_iff_line(
    b: Seq<CellState>,
    t: CellState,
    x0: int,
    y0: int,
    dx: int,
    dy: int,
    edx: int,
    edy: int,
    f: int,
    bk: int,
)
    requires
        board_wf(b),
        in_bounds(x0, y0),
        cell_at(b, x0, y0) == t,
        edx == -dx,
        edy == -dy,
        f >= 0,
        bk >= 0,
        forall|j: int| 1 <= j <= f ==> good_step(b, t, x0, y0, dx, dy, j),
        !good_step(b, t, x0, y0, dx, dy, f + 1),
        forall|j: int| 1 <= j <= bk ==> good_step(b, t, x0, y0, edx, edy, j),
        !good_step(b, t, x0, y0, edx, edy, bk + 1),
    ensures
        (1 + f + bk >= 4) <==> line_through(b, t, x0, y0, dx, dy),
{
    assert forall|j: int|
        good_step(b, t, x0, y0, edx, edy, j) == good_step(b, t, x0, y0, dx, dy, -j) by {
        assert(x0 + j * edx == x0 + (-j) * dx) by (nonlinear_arith)
            requires edx == -dx,
        ;
        assert(y0 + j * edy == y0 + (-j) * dy) by (nonlinear_arith)
            requires edy == -dy,
        ;
    }
    assert(good_step(b, t, x0, y0, dx, dy, 0)) by {
        assert(x0 + 0 * dx == x0 && y0 + 0 * dy == y0) by (nonlinear_arith);
    }
    if 1 + f + bk >= 4 {
        let s = if bk >= 3 { -3 } else { -bk };
        assert forall|j: int| s <= j < s + 4 implies good_step(b, t, x0, y0, dx, dy, j) by {
            if j > 0 {
                assert(j <= s + 3 <= f);
            } else if j < 0 {
                assert(-j <= bk);
                assert(good_step(b, t, x0, y0, edx, edy, -j));
            }
        }
        assert(window_all(b, t, x0, y0, dx, dy, s));
        assert(line_through(b, t, x0, y0, dx, dy));
    }
    if line_through(b, t, x0, y0, dx, dy) {
        let s = choose|s: int| -3 <= s <= 0 && #[trigger] window_all(b, t, x0, y0, dx, dy, s);
        assert(f >= s + 3) by {
            if f < s + 3 {
                assert(s <= f + 1 < s + 4);
                assert(good_step(b, t, x0, y0, dx, dy, f + 1));
            }
        }
        assert(bk >= -s) by {
            if bk < -s {
                assert(s <= -(bk + 1) < s + 4);
                assert(good_step(b, t, x0, y0, dx, dy, -(bk + 1)));
                assert(good_step(b, t, x0, y0, edx, edy, bk + 1));
            }
        }
    }
}

/// Whether the piece at `(x0, y0)` completes a four-line in direction
/// `(dx, dy)`, counting matching cells forward and backward from it.
fn direction_win(board: &Board, turn: CellState, x0: usize, y0: usize, dx: i32, dy: i32) -> (w:
    bool)
    requires
        board_wf(board@),
        in_bounds(x0 as int, y0 as int),
        -1 <= dx <= 1,
        -1 <= dy <= 1,
        dx != 0 || dy != 0,
        cell_at(board@, x0 as int, y0 as int) == turn,
    ensures
        w == line_through(board@, turn, x0 as int, y0 as int, dx as int, dy as int),
{
    let forward = run_len(board, turn, x0, y0, dx, dy);
    let backward = run_len(board, turn, x0, y0, -dx, -dy);
    let count = 1 + forward + backward;
    proof {
        lemma_runs_iff_line(
            board@,
            turn,
            x0 as int,
            y0 as int,
            dx as int,
            dy as int,
            (-dx) as int,
            (-dy) as int,
            forward as int,
            backward as int,
        );
    }
    count >= 4
}

/// Evaluate the board after a piece of `turn` was just written at
/// `last_move_index`: a win for `turn` if that piece completes a line of
/// four, else a draw if the board is full, else the game goes on.
pub fn check_if_game_over(board: &Board, turn: &CellState, last_move_index: usize) -> (r: Option<
    GameOver,
>)
    requires
        board_wf(board@),
        last_move_index < SIZE,
        board@[last_move_index as int] == *turn,
        *turn != CellState::Empty,
    ensures
        (r == Some(GameOver::Winner(*turn))) <==> wins_at(board@, *turn, last_move_index as int),
        (r == Some(GameOver::Draw)) <==> (!wins_at(board@, *turn, last_move_index as int)
            && board_full(board@)),
        (r is None) <==> (!wins_at(board@, *turn, last_move_index as int) && !board_full(board@)),
{
    let x0 = last_move_index % WIDTH;
    let y0 = last_move_index / WIDTH;
    proof {
        assert(cell_at(board@, x0 as int, y0 as int) == board@[last_move_index as int]);
    }
    let win = direction_win(board, *turn, x0, y0, 1, 0) || direction_win(board, *turn, x0, y0, 0, 1)
        || direction_win(board, *turn, x0, y0, 1, 1)
        || direction_win(board, *turn, x0, y0, -1, 1);
    if win {
        return Some(GameOver::Winner(*turn));
    }
    let mut i: usize = 0;
    while i < SIZE
        invariant
            board_wf(board@),
            i <= SIZE,
            !wins_at(board@, *turn, last_move_index as int),
            forall|k: int| 0 <= k < i ==> board@[k] != CellState::Empty,
        decreases SIZE - i,
    {
        if board[i] == CellState::Empty {
            return None;
        }
        i = i + 1;
    }
    Some(GameOver::Draw)
}

/// The gravity invariant: in every column, below an occupied cell every
/// cell is occupied. Boards built only by gravity drops satisfy it.
pub open spec fn gravity_wf(b: Seq<CellState>) -> bool {
    forall|x: int, y1: int, y2: int|
        #![trigger cell_at(b, x, y1), cell_at(b, x, y2)]
        0 <= x < WIDTH && 0 <= y1 <= y2 < HEIGHT && cell_at(b, x, y1) != CellState::Empty
            ==> cell_at(b, x, y2) != CellState::Empty
}

/// Once the top cell of a column is occupied, a gravity-respecting board
/// has no empty cell anywhere in that column, so every later attempt to
/// resolve that column must fail with `ColumnFull`.
pub proof fn lemma_full_column_stays_full(b: Seq<CellState>, x: int)
    requires
        board_wf(b),
        gravity_wf(b),
        0 <= x < WIDTH,
        cell_at(b, x, 0) != CellState::Empty,
    ensures
        !col_has_empty(b, x),
{
    assert forall|y: int| 0 <= y < HEIGHT implies cell_at(b, x, y) != CellState::Empty by {
        assert(cell_at(b, x, 0) != CellState::Empty && cell_at(b, x, y) == cell_at(b, x, y));
    }
}

/// Placing a piece at the landing cell of a column preserves the gravity
/// invariant: the landing cell sits directly on top of the column's pile.
pub proof fn lemma_place_preserves_gravity(b: Seq<CellState>, x: int, t: CellState)
    requires
        board_wf(b),
        gravity_wf(b),
        0 <= x < WIDTH,
        col_has_empty(b, x),
        t != CellState::Empty,
    ensures
        gravity_wf(b.update(landing_index(b, x), t)),
{
    lemma_landing_props(b, x);
    let i = landing_index(b, x);
    let y0 = i / (WIDTH as int);
    let b2 = b.update(i, t);
    assert forall|xx: int, yy: int|
        0 <= xx < WIDTH && 0 <= yy < HEIGHT implies #[trigger] cell_at(b2, xx, yy) == (if xx == x
        && yy == y0 {
        t
    } else {
        cell_at(b, xx, yy)
    }) by {
        assert(yy * (WIDTH as int) + xx == i <==> (xx == x && yy == y0)) by (nonlinear_arith)
            requires
                i == y0 * (WIDTH as int) + x,
                0 <= x < WIDTH,
                0 <= xx < WIDTH,
                0 <= y0,
                0 <= yy,
                WIDTH == 7,
        ;
    }
    assert forall|xx: int, y1: int, y2: int|
        #![trigger cell_at(b2, xx, y1), cell_at(b2, xx, y2)]
        0 <= xx < WIDTH && 0 <= y1 <= y2 < HEIGHT && cell_at(b2, xx, y1) != CellState::Empty
        implies cell_at(b2, xx, y2) != CellState::Empty by {
        if xx == x && y2 == y0 {
        } else if xx == x && y1 == y0 {
            assert(y2 > y0);
            assert(cell_at(b, xx, y2) != CellState::Empty);
        } else {
            assert(cell_at(b, xx, y1) == cell_at(b2, xx, y1));
            assert(cell_at(b, xx, y2) != CellState::Empty);
        }
    }
}

} // verus!
