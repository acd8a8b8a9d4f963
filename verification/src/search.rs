//! Minimax over the 3x3 board, and its pruned executable search.
//!
//! `minimax_value` is the exact game value of a position: a win at ply
//! `depth` counts `10 - depth` for the winning side, so quicker wins (and
//! later losses) are preferred. The executable `minimax` prunes with an
//! alpha-beta window and is proved to agree with `minimax_value` through the
//! fail-soft relation `ab_rel`. `best_move` picks, for the player marked -1,
//! the empty cell with the minimal value, earliest index first.

use crate::board::{
    check_win, count_empty, empties_from, has_empty, has_empty_cell, lemma_empties_from_le,
    lemma_empties_from_pos, lemma_empties_from_update, lemma_valid_update, lemma_win_range,
    valid_board, win_of,
};
use vstd::prelude::*;
use vstd::slice::slice_to_vec;

verus! {

/// The starting score of a fold for `player`: the worst score that side can see.
pub open spec fn worst_for(player: int) -> int {
    if player == 1 {
        i32::MIN as int
    } else {
        i32::MAX as int
    }
}

/// The better of two scores from `player`'s point of view: 1 maximizes, -1 minimizes.
pub open spec fn pick(player: int, x: int, y: int) -> int {
    if player == 1 {
        if x >= y {
            x
        } else {
            y
        }
    } else {
        if x <= y {
            x
        } else {
            y
        }
    }
}

/// The exact minimax value of the board with `player` to move at ply `depth`:
/// a finished game scores `winner * (10 - depth)`, a full board 0, and
/// otherwise the best over all moves of the value one ply deeper.
pub open spec fn minimax_value(b: Seq<i32>, depth: int, player: int) -> int
    decreases count_empty(b), 10int,
{
    if win_of(b) != 0 {
        win_of(b) * (10 - depth)
    } else if count_empty(b) == 0 {
        0
    } else {
        search_from(b, depth, player, 0)
    }
}

/// The best value `player` can reach using only the empty cells at index `i`
/// or higher, folded with `pick`; `worst_for(player)` when none is left.
pub open spec fn search_from(b: Seq<i32>, depth: int, player: int, i: int) -> int
    decreases count_empty(b), 9 - i,
{
    if i < 0 || i >= 9 {
        worst_for(player)
    } else if b[i] == 0 && (player == 1 || player == -1) && valid_board(b) {
        proof {
            lemma_empties_from_update(b, i, player as i32, 0);
        }
        pick(
            player,
            minimax_value(b.update(i, player as i32), depth + 1, -player),
            search_from(b, depth, player, i + 1),
        )
    } else {
        search_from(b, depth, player, i + 1)
    }
}

/// Fail-soft guarantee of a pruned search returning `r` under window
/// `(alpha, beta)` for exact value `m`: inside the window the result is
/// exact, outside it bounds `m` from the side it failed on.
pub open spec fn ab_rel(r: int, alpha: int, beta: int, m: int) -> bool {
    &&& (r <= alpha ==> m <= r)
    &&& (alpha < r < beta ==> r == m)
    &&& (r >= beta ==> m >= r)
}

/// Every reachable value is bounded by the value of an immediate win; with no
/// winner on the board yet the bound tightens by one ply.
pub proof fn lemma_minimax_bounds(b: Seq<i32>, depth: int, player: int)
    requires
        valid_board(b),
        player == 1 || player == -1,
        0 <= depth,
        depth + count_empty(b) <= 9,
    ensures
        depth - 10 <= minimax_value(b, depth, player) <= 10 - depth,
        win_of(b) == 0 ==> depth - 9 <= minimax_value(b, depth, player) <= 9 - depth,
    decreases count_empty(b), 10int,
{
    lemma_win_range(b);
    if win_of(b) != 0 {
    } else if count_empty(b) == 0 {
    } else {
        lemma_empties_from_pos(b, 0);
        lemma_search_from_bounds(b, depth, player, 0);
    }
}

/// The fold over the remaining empty cells stays within one ply of the win
/// bound, and is the fold's starting score when no empty cell remains.
pub proof fn lemma_search_from_bounds(b: Seq<i32>, depth: int, player: int, i: int)
    requires
        valid_board(b),
        player == 1 || player == -1,
        0 <= depth,
        depth + count_empty(b) <= 9,
        0 <= i <= 9,
    ensures
        (exists|j: int| i <= j < 9 && b[j] == 0) ==> depth - 9 <= search_from(b, depth, player, i)
            <= 9 - depth,
        !(exists|j: int| i <= j < 9 && b[j] == 0) ==> search_from(b, depth, player, i)
            == worst_for(player),
    decreases count_empty(b), 9 - i,
{
    if i < 9 {
        lemma_search_from_bounds(b, depth, player, i + 1);
        if b[i] == 0 {
            lemma_empties_from_update(b, i, player as i32, 0);
            lemma_valid_update(b, i, player as i32);
            lemma_minimax_bounds(b.update(i, player as i32), depth + 1, -player);
            assert(i <= i < 9 && b[i] == 0);
        } else {
            if exists|j: int| i <= j < 9 && b[j] == 0 {
                let j = choose|j: int| i <= j < 9 && b[j] == 0;
                assert(i + 1 <= j < 9 && b[j] == 0);
            }
        }
    }
}

/// The fold is at least as good for `player` as any single remaining move.
pub proof fn lemma_search_member(b: Seq<i32>, depth: int, player: int, i: int, j: int)
    requires
        valid_board(b),
        player == 1 || player == -1,
        0 <= i <= j < 9,
        b[j] == 0,
    ensures
        player == 1 ==> search_from(b, depth, 1, i) >= minimax_value(
            b.update(j, 1i32),
            depth + 1,
            -1,
        ),
        player == -1 ==> search_from(b, depth, -1, i) <= minimax_value(
            b.update(j, -1i32),
            depth + 1,
            1,
        ),
    decreases 9 - i,
{
    if i < j {
        lemma_search_member(b, depth, player, i + 1, j);
    }
}

/// If every remaining move of the maximizer stays at or below `bound`, so
/// does the whole fold.
pub proof fn lemma_search_from_upper(b: Seq<i32>, depth: int, i: int, bound: int)
    requires
        valid_board(b),
        0 <= i <= 9,
        i32::MIN as int <= bound,
        forall|j: int| i <= j < 9 && b[j] == 0 ==> minimax_value(b.update(j, 1i32), depth + 1, -1)
            <= bound,
    ensures
        search_from(b, depth, 1, i) <= bound,
    decreases 9 - i,
{
    if i < 9 {
        lemma_search_from_upper(b, depth, i + 1, bound);
    }
}

/// Depth-first search with an alpha-beta window, the working board restored
/// before returning; the result is fail-soft correct for the exact value.
pub fn minimax(board: &mut Vec<i32>, depth: i32, player: i32, alpha: i32, beta: i32) -> (r: i32)
    requires
        valid_board(old(board)@),
        player == 1 || player == -1,
        0 <= depth,
        depth + count_empty(old(board)@) <= 9,
        alpha < beta,
    ensures
        final(board)@ == old(board)@,
        ab_rel(
            r as int,
            alpha as int,
            beta as int,
            minimax_value(old(board)@, depth as int, player as int),
        ),
    decreases count_empty(old(board)@),
{
    let ghost b0 = board@;
    let w = check_win(board);
    proof {
        lemma_win_range(b0);
    }
    if w != 0 {
        let s = 10 - depth;
        if w == 1 {
            return s;
        } else {
            return -s;
        }
    }
    if !has_empty_cell(board) {
        return 0;
    }
    let ghost m = minimax_value(b0, depth as int, player as int);
    let mut best: i32 = if player == 1 {
        i32::MIN
    } else {
        i32::MAX
    };
    let mut lo: i32 = alpha;
    let mut hi: i32 = beta;
    let mut i: usize = 0;
    while i < 9 && lo < hi
        invariant
            board@ == b0,
            b0 == old(board)@,
            valid_board(b0),
            win_of(b0) == 0,
            count_empty(b0) > 0,
            player == 1 || player == -1,
            0 <= depth,
            depth + count_empty(b0) <= 9,
            alpha < beta,
            i <= 9,
            m == minimax_value(b0, depth as int, player as int),
            m == search_from(b0, depth as int, player as int, 0),
            player == 1 ==> hi == beta && lo as int == pick(1, alpha as int, best as int),
            player == -1 ==> lo == alpha && hi as int == pick(-1, beta as int, best as int),
            player == 1 ==> best as int <= pick(1, alpha as int, m),
            player == -1 ==> best as int >= pick(-1, beta as int, m),
            player == 1 ==> best as int >= beta as int || m <= pick(
                1,
                best as int,
                search_from(b0, depth as int, 1, i as int),
            ),
            player == -1 ==> best as int <= alpha as int || m >= pick(
                -1,
                best as int,
                search_from(b0, depth as int, -1, i as int),
            ),
        decreases 9 - i,
    {
        if board[i] == 0 {
            board.set(i, player);
            proof {
                lemma_empties_from_update(b0, i as int, player, 0);
                lemma_valid_update(b0, i as int, player);
            }
            let score = minimax(board, depth + 1, -player, lo, hi);
            board.set(i, 0);
            proof {
                assert(board@ =~= b0);
            }
            let ghost mi = minimax_value(
                b0.update(i as int, player),
                depth as int + 1,
                -(player as int),
            );
            proof {
                lemma_search_member(b0, depth as int, player as int, 0, i as int);
                assert(search_from(b0, depth as int, player as int, i as int) == pick(
                    player as int,
                    mi,
                    search_from(b0, depth as int, player as int, i + 1),
                ));
            }
            if player == 1 {
                if score > best {
                    best = score;
                }
                if best > lo {
                    lo = best;
                }
            } else {
                if score < best {
                    best = score;
                }
                if best < hi {
                    hi = best;
                }
            }
        } else {
            proof {
                assert(search_from(b0, depth as int, player as int, i as int) == search_from(
                    b0,
                    depth as int,
                    player as int,
                    i + 1,
                ));
            }
        }
        i = i + 1;
    }
    proof {
        if i == 9 && lo < hi {
            assert(search_from(b0, depth as int, player as int, 9) == worst_for(player as int));
        }
    }
    best
}

/// The value for the player marked -1 of taking empty cell `i` and then
/// playing the rest of the game perfectly on both sides.
pub open spec fn root_score(b: Seq<i32>, i: int) -> int {
    minimax_value(b.update(i, -1i32), 0, 1)
}

/// `mv` is the move `best_move` owes the caller: an empty cell whose value is
/// minimal (best for -1), and the earliest such cell.
pub open spec fn is_best_move(b: Seq<i32>, mv: int) -> bool {
    &&& 0 <= mv < 9
    &&& b[mv] == 0
    &&& (forall|j: int| 0 <= j < 9 && b[j] == 0 ==> root_score(b, mv) <= root_score(b, j))
    &&& (forall|j: int| 0 <= j < mv && b[j] == 0 ==> root_score(b, mv) < root_score(b, j))
}

/// The optimal move for the player marked -1: every empty cell is tried on a
/// working copy and scored by the pruned search with a fresh full window, and
/// the first cell with the strictly lowest score wins. The caller's board is
/// never touched. On a full board the result is index 0.
pub fn best_move(board: &[i32]) -> (mv: usize)
    requires
        valid_board(board@),
    ensures
        mv < 9,
        has_empty(board@) ==> is_best_move(board@, mv as int),
        !has_empty(board@) ==> mv == 0,
{
    let mut work: Vec<i32> = slice_to_vec(board);
    let mut best_score: i32 = i32::MAX;
    let mut mv: usize = 0;
    let mut i: usize = 0;
    while i < 9
        invariant
            work@ == board@,
            valid_board(board@),
            i <= 9,
            mv < 9,
            forall|j: int| 0 <= j < i && board@[j] == 0 ==> root_score(board@, j)
                >= best_score as int,
            (exists|j: int| 0 <= j < i && board@[j] == 0) ==> (mv as int) < i
                && board@[mv as int] == 0 && best_score as int == root_score(board@, mv as int),
            (exists|j: int| 0 <= j < i && board@[j] == 0) ==> (forall|j: int|
                0 <= j < mv && board@[j] == 0 ==> root_score(board@, j) > best_score as int),
            !(exists|j: int| 0 <= j < i && board@[j] == 0) ==> best_score == i32::MAX && mv == 0,
        decreases 9 - i,
    {
        if work[i] == 0 {
            work.set(i, -1);
            proof {
                lemma_empties_from_update(board@, i as int, -1i32, 0);
                lemma_empties_from_le(board@, 0);
                lemma_valid_update(board@, i as int, -1i32);
            }
            let score = minimax(&mut work, 0, 1, i32::MIN, i32::MAX);
            work.set(i, 0);
            proof {
                assert(work@ =~= board@);
                lemma_minimax_bounds(board@.update(i as int, -1i32), 0, 1);
                assert(score as int == root_score(board@, i as int));
                assert(0 <= i < i + 1 && board@[i as int] == 0);
            }
            if score < best_score {
                best_score = score;
                mv = i;
            }
        }
        i = i + 1;
    }
    proof {
        lemma_empties_from_pos(board@, 0);
    }
    mv
}

} // verus!
