//! The computer opponent: a depth-bounded recursive scorer over
//! speculative moves on private board copies, and a difficulty-tiered,
//! randomized choice among the score-ranked candidate columns.
//!
//! A position's score is a dyadic rational in `[0, 1]`, held exactly as an
//! integer count of units of 2^-35: `SCORE_ONE` stands for 1. Terminal
//! scores are 0 or 1, and folding a child score into the accumulator by
//! `(acc + child) / 2` at most 7 times per level over at most 5 levels
//! keeps every intermediate value a multiple of the unit, so the integer
//! division is exact and the arithmetic loses nothing.

use vstd::prelude::*;

use rand::Rng;

use crate::game::{
    board_full, board_wf, cell_at, check_if_game_over, col_has_empty, get_last_in_row,
    landing_index, lemma_landing_props, wins_at,
};
use crate::{Board, BotDifficulty, CellState, GameOver, SIZE, WIDTH};

verus! {

/// The score of a sure win (or of a position past the search horizon):
/// 1.0 in units of 2^-35.
pub const SCORE_ONE: u64 = 0x8_0000_0000;

/// The player who moves after `p`.
pub open spec fn opposite(p: CellState) -> CellState {
    if p == CellState::PlayerOne {
        CellState::PlayerTwo
    } else {
        CellState::PlayerOne
    }
}

/// The score of placing `player` at flat index `index`, searching `depth`
/// levels deep already: 0 for a line of player one (the human), `SCORE_ONE`
/// for a line of player two (the bot), a draw, or the search horizon at
/// depth 5; otherwise the fold of all children's scores, in column order,
/// into an accumulator that starts at `SCORE_ONE`.
pub open spec fn score_spec(b: Seq<CellState>, index: int, player: CellState, depth: int) -> int
    decreases 5 - depth, 0int,
    when 0 <= depth <= 5
{
    let b2 = b.update(index, player);
    if wins_at(b2, player, index) {
        if player == CellState::PlayerOne {
            0
        } else {
            SCORE_ONE as int
        }
    } else if board_full(b2) {
        SCORE_ONE as int
    } else if depth == 5 {
        SCORE_ONE as int
    } else {
        fold_scores(b2, opposite(player), depth + 1, 0, SCORE_ONE as int)
    }
}

/// Fold the scores of dropping `player` into each still-open column
/// `col..WIDTH` of `b` into the accumulator, pairwise: `(acc + child) / 2`.
pub open spec fn fold_scores(
    b: Seq<CellState>,
    player: CellState,
    depth: int,
    col: int,
    acc: int,
) -> int
    decreases 5 - depth, 1 + WIDTH - col,
    when 0 <= depth <= 5 && 0 <= col <= WIDTH
{
    if col >= WIDTH {
        acc
    } else {
        let acc2 = if col_has_empty(b, col) {
            (acc + score_spec(b, landing_index(b, col), player, depth)) / 2
        } else {
            acc
        };
        fold_scores(b, player, depth, col + 1, acc2)
    }
}

/// Scores stay between 0 (a human win) and `SCORE_ONE` (a bot win).
pub proof fn lemma_score_bounds(b: Seq<CellState>, index: int, player: CellState, depth: int)
    requires
        0 <= depth <= 5,
    ensures
        0 <= score_spec(b, index, player, depth) <= SCORE_ONE,
    decreases 5 - depth, 0int,
{
    let b2 = b.update(index, player);
    if !wins_at(b2, player, index) && !board_full(b2) && depth != 5 {
        lemma_fold_bounds(b2, opposite(player), depth + 1, 0, SCORE_ONE as int);
    }
}

/// The score fold keeps the accumulator between 0 and `SCORE_ONE`.
pub proof fn lemma_fold_bounds(b: Seq<CellState>, player: CellState, depth: int, col: int, acc: int)
    requires
        0 <= depth <= 5,
        0 <= col <= WIDTH,
        0 <= acc <= SCORE_ONE,
    ensures
        0 <= fold_scores(b, player, depth, col, acc) <= SCORE_ONE,
    decreases 5 - depth, 1 + WIDTH - col,
{
    if col < WIDTH {
        let acc2 = if col_has_empty(b, col) {
            (acc + score_spec(b, landing_index(b, col), player, depth)) / 2
        } else {
            acc
        };
        if col_has_empty(b, col) {
            lemma_score_bounds(b, landing_index(b, col), player, depth);
        }
        lemma_fold_bounds(b, player, depth, col + 1, acc2);
    }
}

/// An independently owned copy of the board, for speculative placements.
pub fn clone_board(board: &Board) -> (r: Board)
    ensures
        r@ == board@,
{
    let mut out: Vec<CellState> = Vec::new();
    let mut i: usize = 0;
    while i < board.len()
        invariant
            i <= board@.len(),
            out@ == board@.take(i as int),
        decreases board@.len() - i,
    {
        out.push(board[i]);
        proof {
            assert(board@.take(i + 1) =~= board@.take(i as int).push(board@[i as int]));
        }
        i = i + 1;
    }
    proof {
        assert(board@.take(board@.len() as int) =~= board@);
    }
    out
}

/// Place `cell_state` at `index` on a private copy of the board and score
/// the resulting position: exactly `score_spec` of the board handed in.
pub fn recursive_check_outcome(board: Board, index: usize, cell_state: CellState, depth: usize) -> (
    score: u64)
    requires
        board_wf(board@),
        index < SIZE,
        cell_state == CellState::PlayerOne || cell_state == CellState::PlayerTwo,
        depth <= 5,
    ensures
        score as int == score_spec(board@, index as int, cell_state, depth as int),
        score <= SCORE_ONE,
    decreases 5 - depth,
{
    let ghost b0 = board@;
    let mut board = board;
    board.set(index, cell_state);
    let ghost b2 = board@;
    let game_over = check_if_game_over(&board, &cell_state, index);
    match game_over {
        Some(GameOver::Winner(p)) => {
            if p == CellState::PlayerOne {
                0
            } else {
                SCORE_ONE
            }
        },
        Some(GameOver::Draw) => SCORE_ONE,
        None => {
            if depth == 5 {
                return SCORE_ONE;
            }
            let next_player = if cell_state == CellState::PlayerOne {
                CellState::PlayerTwo
            } else {
                CellState::PlayerOne
            };
            let mut score: u64 = SCORE_ONE;
            let mut col: usize = 0;
            while col < WIDTH
                invariant
                    board_wf(board@),
                    board@ == b2,
                    col <= WIDTH,
                    score <= SCORE_ONE,
                    depth < 5,
                    next_player == opposite(cell_state),
                    next_player == CellState::PlayerOne || next_player == CellState::PlayerTwo,
                    fold_scores(b2, next_player, depth + 1, col as int, score as int)
                        == fold_scores(b2, next_player, depth + 1, 0, SCORE_ONE as int),
                decreases WIDTH - col,
            {
                match get_last_in_row(&board, col) {
                    Ok(index2) => {
                        let child = clone_board(&board);
                        let nested = recursive_check_outcome(child, index2, next_player, depth + 1);
                        score = (score + nested) / 2;
                    },
                    Err(_) => {},
                }
                col = col + 1;
            }
            score
        },
    }
}

/// The candidate entry for still-open column `c`: the landing index of a
/// drop there, paired with the score of the bot placing a piece on it.
pub open spec fn cand_pair(b: Seq<CellState>, c: int) -> (usize, u64) {
    (
        landing_index(b, c) as usize,
        score_spec(b, landing_index(b, c), CellState::PlayerTwo, 0) as u64,
    )
}

/// The candidate list over columns `0..c`, in column order; full columns
/// contribute nothing.
pub open spec fn candidates_upto(b: Seq<CellState>, c: int) -> Seq<(usize, u64)>
    decreases c,
    when c >= 0
{
    if c <= 0 {
        Seq::empty()
    } else if col_has_empty(b, c - 1) {
        candidates_upto(b, c - 1).push(cand_pair(b, c - 1))
    } else {
        candidates_upto(b, c - 1)
    }
}

/// The candidate list of the whole board.
pub open spec fn candidates(b: Seq<CellState>) -> Seq<(usize, u64)> {
    candidates_upto(b, WIDTH as int)
}

/// Every entry of the candidate list is the pair of some open column, and
/// every open column's pair is in the list.
pub proof fn lemma_candidates(b: Seq<CellState>, c: int)
    requires
        0 <= c <= WIDTH,
    ensures
        forall|k: int|
            #![trigger candidates_upto(b, c)[k]]
            0 <= k < candidates_upto(b, c).len() ==> exists|cc: int|
                0 <= cc < c && #[trigger] col_has_empty(b, cc) && candidates_upto(b, c)[k]
                    == cand_pair(b, cc),
        forall|cc: int|
            0 <= cc < c && #[trigger] col_has_empty(b, cc) ==> candidates_upto(b, c).contains(
                cand_pair(b, cc),
            ),
    decreases c,
{
    if c > 0 {
        lemma_candidates(b, c - 1);
        let s = candidates_upto(b, c - 1);
        let full = candidates_upto(b, c);
        if col_has_empty(b, c - 1) {
            assert(full == s.push(cand_pair(b, c - 1)));
        } else {
            assert(full == s);
        }
        assert forall|k: int|
            #![trigger full[k]]
            0 <= k < full.len() implies exists|cc: int|
            0 <= cc < c && #[trigger] col_has_empty(b, cc) && full[k] == cand_pair(b, cc) by {
            if col_has_empty(b, c - 1) && k == s.len() {
                assert(full[k] == cand_pair(b, c - 1));
            } else {
                assert(0 <= k < s.len());
                assert(full[k] == s[k]);
                let cc = choose|cc: int|
                    0 <= cc < c - 1 && #[trigger] col_has_empty(b, cc) && s[k] == cand_pair(b, cc);
                assert(col_has_empty(b, cc) && full[k] == cand_pair(b, cc));
            }
        }
        assert forall|cc: int| 0 <= cc < c && #[trigger] col_has_empty(b, cc) implies full.contains(
            cand_pair(b, cc),
        ) by {
            if cc == c - 1 {
                assert(full[s.len() as int] == cand_pair(b, cc));
            } else {
                assert(s.contains(cand_pair(b, cc)));
                let k = choose|k: int| 0 <= k < s.len() && s[k] == cand_pair(b, cc);
                assert(full[k] == cand_pair(b, cc));
            }
        }
    }
}

/// The list is sorted by score, largest first.
pub open spec fn sorted_desc(s: Seq<(usize, u64)>) -> bool {
    forall|i: int, j: int| 0 <= i < j < s.len() ==> s[i].1 >= s[j].1
}

/// Insert `x` into the descending list `s`, after every entry whose score
/// is at least `x`'s: a stable insertion.
pub open spec fn insert_desc(s: Seq<(usize, u64)>, x: (usize, u64)) -> Seq<(usize, u64)>
    decreases s.len(),
{
    if s.len() == 0 {
        seq![x]
    } else if s[0].1 >= x.1 {
        seq![s[0]] + insert_desc(s.drop_first(), x)
    } else {
        seq![x] + s
    }
}

/// Stable insertion sort by descending score: what sorting the candidate
/// list means. Ties keep their column order.
pub open spec fn sort_desc(s: Seq<(usize, u64)>) -> Seq<(usize, u64)>
    decreases s.len(),
{
    if s.len() == 0 {
        Seq::empty()
    } else {
        insert_desc(sort_desc(s.drop_last()), s.last())
    }
}

/// Inserting at the boundary position `p` (every score before it at least
/// `x`'s, the one at it, if any, below) is what `insert_desc` does.
proof fn lemma_insert_desc_at(s: Seq<(usize, u64)>, x: (usize, u64), p: int)
    requires
        0 <= p <= s.len(),
        forall|q: int| 0 <= q < p ==> s[q].1 >= x.1,
        p < s.len() ==> s[p].1 < x.1,
    ensures
        insert_desc(s, x) == s.insert(p, x),
    decreases s.len(),
{
    if s.len() == 0 {
        assert(insert_desc(s, x) =~= s.insert(0, x));
    } else if p == 0 {
        assert(insert_desc(s, x) =~= s.insert(0, x));
    } else {
        assert forall|q: int| 0 <= q < p - 1 implies s.drop_first()[q].1 >= x.1 by {
            assert(s.drop_first()[q] == s[q + 1]);
        }
        lemma_insert_desc_at(s.drop_first(), x, p - 1);
        assert(seq![s[0]] + s.drop_first().insert(p - 1, x) =~= s.insert(p, x));
    }
}

/// A stable insertion into a descending list keeps it descending, and
/// the head of the result is the larger of `x` and the old head.
proof fn lemma_insert_desc_sorted(s: Seq<(usize, u64)>, x: (usize, u64))
    requires
        sorted_desc(s),
    ensures
        insert_desc(s, x).len() == s.len() + 1,
        sorted_desc(insert_desc(s, x)),
        insert_desc(s, x)[0].1 == (if s.len() > 0 && s[0].1 >= x.1 {
            s[0].1
        } else {
            x.1
        }),
    decreases s.len(),
{
    let r = insert_desc(s, x);
    if s.len() == 0 {
    } else if s[0].1 >= x.1 {
        let rest = s.drop_first();
        assert forall|i: int, j: int| 0 <= i < j < rest.len() implies rest[i].1 >= rest[j].1 by {
            assert(rest[i] == s[i + 1] && rest[j] == s[j + 1]);
        }
        lemma_insert_desc_sorted(rest, x);
        let t = insert_desc(rest, x);
        assert(r == seq![s[0]] + t);
        assert forall|i: int, j: int| 0 <= i < j < r.len() implies r[i].1 >= r[j].1 by {
            if i == 0 {
                assert(r[j] == t[j - 1]);
                if j - 1 > 0 {
                    assert(t[0].1 >= t[j - 1].1);
                }
                if rest.len() > 0 {
                    assert(s[0].1 >= s[1].1);
                }
            } else {
                assert(r[i] == t[i - 1] && r[j] == t[j - 1]);
            }
        }
    } else {
        assert(r == seq![x] + s);
        assert forall|i: int, j: int| 0 <= i < j < r.len() implies r[i].1 >= r[j].1 by {
            if i == 0 {
                assert(r[j] == s[j - 1]);
                if j - 1 > 0 {
                    assert(s[0].1 >= s[j - 1].1);
                }
            } else {
                assert(r[i] == s[i - 1] && r[j] == s[j - 1]);
            }
        }
    }
}

/// The stable sort of any candidate list is descending, whatever the
/// list: sortedness is a property of `sort_desc` itself, not only of
/// what the engine happens to build.
pub proof fn lemma_sort_desc_sorted(s: Seq<(usize, u64)>)
    ensures
        sort_desc(s).len() == s.len(),
        sorted_desc(sort_desc(s)),
    decreases s.len(),
{
    if s.len() > 0 {
        lemma_sort_desc_sorted(s.drop_last());
        lemma_insert_desc_sorted(sort_desc(s.drop_last()), s.last());
    }
}

/// Every entry of a stable insertion is `x` or an entry of the list.
proof fn lemma_insert_desc_entries(s: Seq<(usize, u64)>, x: (usize, u64))
    ensures
        insert_desc(s, x).len() == s.len() + 1,
        forall|k: int|
            #![trigger insert_desc(s, x)[k]]
            0 <= k < s.len() + 1 ==> insert_desc(s, x)[k] == x || s.contains(insert_desc(s, x)[k]),
    decreases s.len(),
{
    let r = insert_desc(s, x);
    if s.len() == 0 {
        assert(r[0] == x);
    } else if s[0].1 >= x.1 {
        let rest = s.drop_first();
        lemma_insert_desc_entries(rest, x);
        let t = insert_desc(rest, x);
        assert(r == seq![s[0]] + t);
        assert forall|k: int| #![trigger r[k]] 0 <= k < s.len() + 1 implies r[k] == x
            || s.contains(r[k]) by {
            if k == 0 {
                assert(r[0] == s[0] && s.contains(s[0]));
            } else {
                assert(r[k] == t[k - 1]);
                if t[k - 1] != x {
                    assert(rest.contains(t[k - 1]));
                    let j = choose|j: int| 0 <= j < rest.len() && rest[j] == t[k - 1];
                    assert(s[j + 1] == t[k - 1]);
                    assert(s.contains(r[k]));
                }
            }
        }
    } else {
        assert(r == seq![x] + s);
        assert forall|k: int| #![trigger r[k]] 0 <= k < s.len() + 1 implies r[k] == x
            || s.contains(r[k]) by {
            if k > 0 {
                assert(r[k] == s[k - 1] && s.contains(s[k - 1]));
            }
        }
    }
}

/// Every entry of the sorted list is an entry of the list it sorts.
pub proof fn lemma_sort_desc_entries(s: Seq<(usize, u64)>)
    ensures
        sort_desc(s).len() == s.len(),
        forall|k: int|
            #![trigger sort_desc(s)[k]]
            0 <= k < sort_desc(s).len() ==> s.contains(sort_desc(s)[k]),
    decreases s.len(),
{
    if s.len() > 0 {
        let shorter = s.drop_last();
        lemma_sort_desc_entries(shorter);
        lemma_insert_desc_entries(sort_desc(shorter), s.last());
        assert forall|k: int| #![trigger sort_desc(s)[k]] 0 <= k < sort_desc(s).len() implies
            s.contains(sort_desc(s)[k]) by {
            let y = sort_desc(s)[k];
            if y == s.last() {
                assert(s[s.len() - 1] == y);
            } else {
                assert(sort_desc(shorter).contains(y));
                let m = choose|m: int| 0 <= m < sort_desc(shorter).len() && sort_desc(shorter)[m]
                    == y;
                assert(shorter.contains(y));
                let j = choose|j: int| 0 <= j < shorter.len() && shorter[j] == y;
                assert(s[j] == y);
            }
        }
    }
}

/// Every entry of the score-sorted candidate list is the candidate pair
/// of some open column: it holds that column's landing index and score.
pub proof fn lemma_sorted_candidates(b: Seq<CellState>)
    requires
        board_wf(b),
    ensures
        sort_desc(candidates(b)).len() == candidates(b).len(),
        sorted_desc(sort_desc(candidates(b))),
        forall|k: int|
            #![trigger sort_desc(candidates(b))[k]]
            0 <= k < sort_desc(candidates(b)).len() ==> exists|cc: int|
                0 <= cc < WIDTH && #[trigger] col_has_empty(b, cc) && sort_desc(candidates(b))[k]
                    == cand_pair(b, cc),
{
    lemma_sort_desc_sorted(candidates(b));
    lemma_sort_desc_entries(candidates(b));
    lemma_candidates(b, WIDTH as int);
    assert forall|k: int|
        #![trigger sort_desc(candidates(b))[k]]
        0 <= k < sort_desc(candidates(b)).len() implies exists|cc: int|
        0 <= cc < WIDTH && #[trigger] col_has_empty(b, cc) && sort_desc(candidates(b))[k]
            == cand_pair(b, cc) by {
        let y = sort_desc(candidates(b))[k];
        assert(candidates(b).contains(y));
        let m = choose|m: int| 0 <= m < candidates(b).len() && candidates(b)[m] == y;
        let cc = choose|cc: int|
            0 <= cc < WIDTH && #[trigger] col_has_empty(b, cc) && candidates(b)[m] == cand_pair(
                b,
                cc,
            );
        assert(col_has_empty(b, cc) && y == cand_pair(b, cc));
    }
}

/// Inserting `x` at its boundary position keeps the list sorted and maps
/// the old entries to known places.
proof fn lemma_insert_keeps(prev: Seq<(usize, u64)>, x: (usize, u64), p: int)
    requires
        sorted_desc(prev),
        0 <= p <= prev.len(),
        forall|q: int| 0 <= q < p ==> prev[q].1 >= x.1,
        p < prev.len() ==> prev[p].1 < x.1,
    ensures
        sorted_desc(prev.insert(p, x)),
        prev.insert(p, x).len() == prev.len() + 1,
        forall|k: int| 0 <= k < p ==> prev.insert(p, x)[k] == prev[k],
        prev.insert(p, x)[p] == x,
        forall|k: int| p < k < prev.len() + 1 ==> prev.insert(p, x)[k] == prev[k - 1],
{
    let r = prev.insert(p, x);
    assert forall|a: int, c2: int| 0 <= a < c2 < r.len() implies r[a].1 >= r[c2].1 by {
        if a < p && c2 < p {
        } else if a < p && c2 == p {
            assert(prev[a].1 >= x.1);
        } else if a < p && c2 > p {
            assert(r[a] == prev[a] && r[c2] == prev[c2 - 1]);
            if a < c2 - 1 {
                assert(prev[a].1 >= prev[c2 - 1].1);
            }
        } else if a == p && c2 > p {
            assert(prev[c2 - 1].1 <= prev[p as int].1);
        } else if a > p && c2 > p {
            assert(prev[a - 1].1 >= prev[c2 - 1].1);
        }
    }
}

/// Sort the candidate list by descending score, stably: exactly the
/// insertion sort of the spec, so ties keep their column order.
fn sort_candidates(v: &Vec<(usize, u64)>) -> (out: Vec<(usize, u64)>)
    ensures
        out@ == sort_desc(v@),
        sorted_desc(out@),
        out@.len() == v@.len(),
        forall|k: int| 0 <= k < v@.len() ==> out@.contains(v@[k]),
        forall|k: int|
            #![trigger out@[k]]
            0 <= k < out@.len() ==> exists|m: int|
                0 <= m < v@.len() && #[trigger] v@[m] == out@[k],
{
    let mut out: Vec<(usize, u64)> = Vec::new();
    let mut i: usize = 0;
    while i < v.len()
        invariant
            i <= v@.len(),
            out@ == sort_desc(v@.take(i as int)),
            sorted_desc(out@),
            out@.len() == i,
            forall|k: int| 0 <= k < i ==> out@.contains(v@[k]),
            forall|k: int|
                #![trigger out@[k]]
                0 <= k < out@.len() ==> exists|m: int|
                    0 <= m < i && #[trigger] v@[m] == out@[k],
        decreases v@.len() - i,
    {
        let x = v[i];
        let ghost prev = out@;
        let mut p: usize = 0;
        while p < out.len() && out[p].1 >= x.1
            invariant
                p <= out@.len(),
                out@ == prev,
                forall|q: int| 0 <= q < p ==> out@[q].1 >= x.1,
            decreases out@.len() - p,
        {
            p = p + 1;
        }
        out.insert(p, x);
        proof {
            lemma_insert_desc_at(prev, x, p as int);
            lemma_insert_keeps(prev, x, p as int);
            assert(v@.take(i + 1).drop_last() =~= v@.take(i as int));
            assert(v@.take(i + 1).last() == v@[i as int]);
            assert(out@ == sort_desc(v@.take(i + 1)));
            assert forall|k: int| 0 <= k < i + 1 implies out@.contains(v@[k]) by {
                if k == i {
                    assert(out@[p as int] == v@[k]);
                } else {
                    assert(prev.contains(v@[k]));
                    let j = choose|j: int| 0 <= j < prev.len() && prev[j] == v@[k];
                    if j < p {
                        assert(out@[j] == v@[k]);
                    } else {
                        assert(out@[j + 1] == v@[k]);
                    }
                }
            }
            assert forall|k: int|
                #![trigger out@[k]]
                0 <= k < out@.len() implies exists|m: int|
                0 <= m < i + 1 && #[trigger] v@[m] == out@[k] by {
                if k == p {
                    assert(v@[i as int] == out@[k]);
                } else if k < p {
                    let m = choose|m: int| 0 <= m < i && #[trigger] v@[m] == prev[k];
                    assert(v@[m] == out@[k]);
                } else {
                    let m = choose|m: int| 0 <= m < i && #[trigger] v@[m] == prev[k - 1];
                    assert(v@[m] == out@[k]);
                }
            }
        }
        i = i + 1;
    }
    proof {
        assert(v@.take(v@.len() as int) =~= v@);
    }
    out
}

/// The number of occupied cells among the first `n`.
pub open spec fn count_nonempty_upto(b: Seq<CellState>, n: int) -> int
    decreases n,
    when n >= 0
{
    if n <= 0 {
        0
    } else {
        count_nonempty_upto(b, n - 1) + (if b[n - 1] != CellState::Empty {
            1int
        } else {
            0int
        })
    }
}

/// The number of pieces on the board.
pub open spec fn piece_count(b: Seq<CellState>) -> int {
    count_nonempty_upto(b, b.len() as int)
}

proof fn lemma_count_nonneg(b: Seq<CellState>, n: int)
    requires
        n >= 0,
    ensures
        count_nonempty_upto(b, n) >= 0,
    decreases n,
{
    if n > 0 {
        lemma_count_nonneg(b, n - 1);
    }
}

proof fn lemma_count_at_least_one(b: Seq<CellState>, i: int, n: int)
    requires
        0 <= i < n,
        b[i] != CellState::Empty,
    ensures
        count_nonempty_upto(b, n) >= 1,
    decreases n,
{
    if i < n - 1 {
        lemma_count_at_least_one(b, i, n - 1);
    } else {
        lemma_count_nonneg(b, n - 1);
    }
}

proof fn lemma_count_at_least_two(b: Seq<CellState>, i: int, j: int, n: int)
    requires
        0 <= i < j < n,
        b[i] != CellState::Empty,
        b[j] != CellState::Empty,
    ensures
        count_nonempty_upto(b, n) >= 2,
    decreases n,
{
    if j < n - 1 {
        lemma_count_at_least_two(b, i, j, n - 1);
    } else {
        lemma_count_at_least_one(b, i, n - 1);
    }
}

/// A board with piece count 1 has nothing but its one occupied cell.
proof fn lemma_single_piece(b: Seq<CellState>, i: int)
    requires
        piece_count(b) == 1,
        0 <= i < b.len(),
        b[i] != CellState::Empty,
    ensures
        forall|j: int| 0 <= j < b.len() && j != i ==> b[j] == CellState::Empty,
{
    assert forall|j: int| 0 <= j < b.len() && j != i implies b[j] == CellState::Empty by {
        if b[j] != CellState::Empty {
            if j < i {
                lemma_count_at_least_two(b, j, i, b.len() as int);
            } else {
                lemma_count_at_least_two(b, i, j, b.len() as int);
            }
        }
    }
}

/// The number of pieces on the board.
fn count_filled(board: &Board) -> (n: usize)
    requires
        board_wf(board@),
    ensures
        n as int == piece_count(board@),
        n <= SIZE,
{
    let mut n: usize = 0;
    let mut i: usize = 0;
    while i < SIZE
        invariant
            board_wf(board@),
            i <= SIZE,
            n <= i,
            n as int == count_nonempty_upto(board@, i as int),
        decreases SIZE - i,
    {
        if board[i] != CellState::Empty {
            n = n + 1;
        }
        i = i + 1;
    }
    n
}

/// The first cell holding a piece of player one, scanning by flat index.
fn find_first_player_one(board: &Board) -> (r: Option<usize>)
    requires
        board_wf(board@),
    ensures
        ({
            match r {
                Some(i) => i < SIZE && board@[i as int] == CellState::PlayerOne && forall|j: int|
                    0 <= j < i ==> board@[j] != CellState::PlayerOne,
                None => forall|j: int| 0 <= j < SIZE ==> board@[j] != CellState::PlayerOne,
            }
        }),
{
    let mut i: usize = 0;
    while i < SIZE
        invariant
            board_wf(board@),
            i <= SIZE,
            forall|j: int| 0 <= j < i ==> board@[j] != CellState::PlayerOne,
        decreases SIZE - i,
    {
        if board[i] == CellState::PlayerOne {
            return Some(i);
        }
        i = i + 1;
    }
    None
}

/// The fixed opening heuristic applies: the opponent has played exactly
/// one piece, and it is not in the top row.
pub open spec fn opening_applies(b: Seq<CellState>) -> bool {
    piece_count(b) == 1 && exists|i: int| WIDTH <= i < b.len() && b[i] == CellState::PlayerOne
}

/// The bot's fixed opening: one row above the opponent's single piece.
/// `None` when the heuristic's precondition does not hold (no single
/// opposing piece below the top row); the caller then searches instead.
fn opening_move(board: &Board) -> (r: Option<usize>)
    requires
        board_wf(board@),
    ensures
        ({
            match r {
                Some(i) => opening_applies(board@) && i + WIDTH < SIZE && board@[i as int
                    + WIDTH as int] == CellState::PlayerOne && board@[i as int]
                    == CellState::Empty && i < SIZE,
                None => !opening_applies(board@),
            }
        }),
{
    let count = count_filled(board);
    if count != 1 {
        return None;
    }
    match find_first_player_one(board) {
        Some(i) => {
            proof {
                lemma_single_piece(board@, i as int);
            }
            if i >= WIDTH {
                return Some(i - WIDTH);
            }
            proof {
                assert forall|j: int| WIDTH <= j < SIZE implies board@[j]
                    != CellState::PlayerOne by {
                    assert(j != i);
                }
            }
            None
        },
        None => None,
    }
}

/// The number of candidates each difficulty tier draws from, out of the
/// `n` score-ranked candidates: all of them for Easy, the better half for
/// Normal, the better three quarters for Difficult, only the best for
/// Expert. Never fewer than one.
pub open spec fn pool_size(d: BotDifficulty, n: int) -> int {
    match d {
        BotDifficulty::Off => 0,
        BotDifficulty::Easy => n,
        BotDifficulty::Normal => if n - n / 2 < 1 {
            1
        } else {
            n - n / 2
        },
        BotDifficulty::Difficult => if n - n / 4 < 1 {
            1
        } else {
            n - n / 4
        },
        BotDifficulty::Expert => 1,
    }
}

/// The pool actually drawn from: a single candidate when the best one is
/// a sure win (taken unconditionally), else the tier's pool.
pub open spec fn effective_pool(b: Seq<CellState>, d: BotDifficulty) -> int {
    let s = sort_desc(candidates(b));
    if s.len() > 0 && s[0].1 == SCORE_ONE {
        1
    } else {
        pool_size(d, s.len() as int)
    }
}

/// What the bot's choice can be: the opening cell when the opening
/// heuristic applies, else the landing index of one of the first
/// `effective_pool` entries of the score-sorted candidate list.
pub open spec fn chooses_valid(b: Seq<CellState>, d: BotDifficulty, r: usize) -> bool {
    if opening_applies(b) {
        r + WIDTH < b.len() && b[r as int + WIDTH as int] == CellState::PlayerOne
    } else {
        exists|k: int|
            0 <= k < effective_pool(b, d) && r == #[trigger] sort_desc(candidates(b))[k].0
    }
}

/// Relies on rand::Rng::gen_range over `0..n`, with rand's thread-local
/// generator: it panics only on an empty range, and otherwise returns a
/// value drawn from the range, so a value strictly below `n`.
#[verifier::external_body]
fn random_below(n: usize) -> (r: usize)
    requires
        n > 0,
    ensures
        r < n,
{
    rand::thread_rng().gen_range(0..n)
}

/// Pick the bot's cell: the fixed opening when it applies, else a
/// random draw from the difficulty tier's pool of score-ranked candidate
/// columns, with a sure win always taken.
pub fn get_best_move(board: &Board, difficulty: BotDifficulty) -> (r: usize)
    requires
        board_wf(board@),
        !board_full(board@),
        difficulty != BotDifficulty::Off,
    ensures
        chooses_valid(board@, difficulty, r),
        r < SIZE,
        board@[r as int] == CellState::Empty,
        !opening_applies(board@) ==> r as int == landing_index(
            board@,
            r as int % (WIDTH as int),
        ) && col_has_empty(board@, r as int % (WIDTH as int)),
        !opening_applies(board@) && (exists|cx: int|
            0 <= cx < WIDTH && #[trigger] col_has_empty(board@, cx) && score_spec(
                board@,
                landing_index(board@, cx),
                CellState::PlayerTwo,
                0,
            ) == SCORE_ONE) ==> score_spec(board@, r as int, CellState::PlayerTwo, 0) == SCORE_ONE,
        !opening_applies(board@) ==> score_spec(board@, r as int, CellState::PlayerTwo, 0)
            >= sort_desc(candidates(board@))[effective_pool(board@, difficulty) - 1].1,
{
    if let Some(i) = opening_move(board) {
        return i;
    }
    let ghost b = board@;
    let mut scores: Vec<(usize, u64)> = Vec::new();
    let mut c: usize = 0;
    while c < WIDTH
        invariant
            board_wf(board@),
            b == board@,
            c <= WIDTH,
            scores@ == candidates_upto(b, c as int),
        decreases WIDTH - c,
    {
        match get_last_in_row(board, c) {
            Ok(index) => {
                let child = clone_board(board);
                let sc = recursive_check_outcome(child, index, CellState::PlayerTwo, 0);
                proof {
                    lemma_score_bounds(b, index as int, CellState::PlayerTwo, 0);
                    assert((index, sc) == cand_pair(b, c as int));
                    assert(candidates_upto(b, c as int + 1) == scores@.push((index, sc)));
                }
                scores.push((index, sc));
            },
            Err(_) => {
                proof {
                    assert(candidates_upto(b, c as int + 1) == scores@);
                }
            },
        }
        c = c + 1;
    }
    proof {
        assert(scores@ == candidates(b));
        lemma_candidates(b, WIDTH as int);
        let i0 = choose|i: int| 0 <= i < b.len() && b[i] == CellState::Empty;
        let c0 = i0 % (WIDTH as int);
        let y0 = i0 / (WIDTH as int);
        assert(cell_at(b, c0, y0) == b[i0]);
        assert(col_has_empty(b, c0));
        assert(candidates(b).contains(cand_pair(b, c0)));
        assert(candidates(b).len() >= 1);
    }
    let sorted = sort_candidates(&scores);
    let ghost s = sort_desc(candidates(b));
    proof {
        assert(sorted@ == s);
    }
    if sorted[0].1 == SCORE_ONE {
        let r = sorted[0].0;
        proof {
            lemma_chosen_entry(b, 0);
            assert(effective_pool(b, difficulty) == 1);
            assert(r == s[0].0);
            assert(chooses_valid(b, difficulty, r));
        }
        return r;
    }
    let length = sorted.len();
    let pool = match difficulty {
        BotDifficulty::Easy => length,
        BotDifficulty::Normal => {
            let t = length - length / 2;
            if t < 1 {
                1
            } else {
                t
            }
        },
        BotDifficulty::Difficult => {
            let t = length - length / 4;
            if t < 1 {
                1
            } else {
                t
            }
        },
        BotDifficulty::Expert => 1,
        BotDifficulty::Off => 1,
    };
    proof {
        assert(pool as int == pool_size(difficulty, length as int));
        assert(1 <= pool <= length);
    }
    let k = random_below(pool);
    let r = sorted[k].0;
    proof {
        lemma_chosen_entry(b, k as int);
        assert(effective_pool(b, difficulty) == pool_size(difficulty, length as int));
        assert(r == s[k as int].0);
        assert(chooses_valid(b, difficulty, r));
        assert(s[k as int].1 >= s[effective_pool(b, difficulty) - 1].1) by {
            let ep = effective_pool(b, difficulty);
            if (k as int) < ep - 1 {
                assert(s[k as int].1 >= s[ep - 1].1);
            }
        }
        assert((exists|cx: int|
            0 <= cx < WIDTH && #[trigger] col_has_empty(b, cx) && score_spec(
                b,
                landing_index(b, cx),
                CellState::PlayerTwo,
                0,
            ) == SCORE_ONE) ==> score_spec(b, r as int, CellState::PlayerTwo, 0) == SCORE_ONE) by {
            if exists|cx: int|
                0 <= cx < WIDTH && #[trigger] col_has_empty(b, cx) && score_spec(
                    b,
                    landing_index(b, cx),
                    CellState::PlayerTwo,
                    0,
                ) == SCORE_ONE {
                let cx = choose|cx: int|
                    0 <= cx < WIDTH && #[trigger] col_has_empty(b, cx) && score_spec(
                        b,
                        landing_index(b, cx),
                        CellState::PlayerTwo,
                        0,
                    ) == SCORE_ONE;
                lemma_score_bounds(b, landing_index(b, cx), CellState::PlayerTwo, 0);
                assert(cand_pair(b, cx).1 == SCORE_ONE);
                assert(candidates(b).contains(cand_pair(b, cx)));
                let m = choose|m: int|
                    0 <= m < candidates(b).len() && candidates(b)[m] == cand_pair(b, cx);
                assert(sorted@.contains(scores@[m]));
                let j = choose|j: int| 0 <= j < sorted@.len() && sorted@[j] == scores@[m];
                if j > 0 {
                    assert(s[0].1 >= s[j].1);
                }
                lemma_chosen_entry(b, 0);
                assert(s[0].1 == SCORE_ONE);
                assert(false);
            }
        }
    }
    r
}

/// Every entry of the score-sorted candidate list stands for an open
/// column: its first component is that column's landing index (an empty
/// cell), its second that landing's exact score.
proof fn lemma_chosen_entry(b: Seq<CellState>, k: int)
    requires
        board_wf(b),
        0 <= k < sort_desc(candidates(b)).len(),
    ensures
        ({
            let r = sort_desc(candidates(b))[k].0;
            r < SIZE && b[r as int] == CellState::Empty && r as int == landing_index(
                b,
                r as int % (WIDTH as int),
            ) && col_has_empty(b, r as int % (WIDTH as int)) && score_spec(
                b,
                r as int,
                CellState::PlayerTwo,
                0,
            ) == sort_desc(candidates(b))[k].1 && 0 <= sort_desc(candidates(b))[k].1 <= SCORE_ONE
        }),
{
    lemma_sorted_candidates(b);
    let s = sort_desc(candidates(b));
    let cc = choose|cc: int|
        0 <= cc < WIDTH && #[trigger] col_has_empty(b, cc) && s[k] == cand_pair(b, cc);
    lemma_landing_props(b, cc);
    lemma_score_bounds(b, landing_index(b, cc), CellState::PlayerTwo, 0);
    assert(s[k].0 as int == landing_index(b, cc));
    assert(s[k].0 as int % (WIDTH as int) == cc);
}

/// The difficulty ordering over the score-sorted candidate list: the
/// tiers draw from nested prefixes — Expert only from the best entry,
/// Normal from the better half, Difficult from the better three quarters,
/// Easy from all `n` — so the worst score a stronger tier can draw is at
/// least the worst score a weaker tier can draw, which is at least the
/// minimum candidate score. Expert's single-entry pool makes its choice
/// deterministic; the other tiers are bounded by their pools, whatever
/// the random draw.
pub proof fn lemma_difficulty_ordering(s: Seq<(usize, u64)>, n: int)
    requires
        sorted_desc(s),
        s.len() == n,
        n >= 1,
    ensures
        pool_size(BotDifficulty::Expert, n) == 1,
        pool_size(BotDifficulty::Easy, n) == n,
        1 <= pool_size(BotDifficulty::Normal, n),
        pool_size(BotDifficulty::Normal, n) <= pool_size(BotDifficulty::Difficult, n),
        pool_size(BotDifficulty::Difficult, n) <= n,
        s[0].1 >= s[pool_size(BotDifficulty::Normal, n) - 1].1,
        s[pool_size(BotDifficulty::Normal, n) - 1].1 >= s[pool_size(
            BotDifficulty::Difficult,
            n,
        ) - 1].1,
        s[pool_size(BotDifficulty::Difficult, n) - 1].1 >= s[n - 1].1,
        forall|k: int| 0 <= k < n ==> #[trigger] s[k].1 >= s[n - 1].1,
{
    assert(n / 4 <= n / 2) by (nonlinear_arith)
        requires n >= 1,
    ;
    let pn = pool_size(BotDifficulty::Normal, n);
    let pd = pool_size(BotDifficulty::Difficult, n);
    assert(1 <= pn <= pd <= n);
    if 0 < pn - 1 {
        assert(s[0].1 >= s[pn - 1].1);
    }
    if pn - 1 < pd - 1 {
        assert(s[pn - 1].1 >= s[pd - 1].1);
    }
    if pd - 1 < n - 1 {
        assert(s[pd - 1].1 >= s[n - 1].1);
    }
    assert forall|k: int| 0 <= k < n implies #[trigger] s[k].1 >= s[n - 1].1 by {
        if k < n - 1 {
            assert(s[k].1 >= s[n - 1].1);
        }
    }
}

/// Choose the bot's cell for this position and place its piece there.
pub fn bot_move(board: &mut Board, difficulty: BotDifficulty) -> (r: usize)
    requires
        board_wf(old(board)@),
        !board_full(old(board)@),
        difficulty != BotDifficulty::Off,
    ensures
        r < SIZE,
        old(board)@[r as int] == CellState::Empty,
        final(board)@ == old(board)@.update(r as int, CellState::PlayerTwo),
        chooses_valid(old(board)@, difficulty, r),
        !opening_applies(old(board)@) ==> r as int == landing_index(
            old(board)@,
            r as int % (WIDTH as int),
        ),
{
    let best_move = get_best_move(board, difficulty);
    board.set(best_move, CellState::PlayerTwo);
    best_move
}

} // verus!
