//! Game-level consequences of the search contracts: the best move is unique,
//! a forced cell is taken, an immediate win is taken, and a lone threat of
//! the opponent is blocked.

use crate::board::{
    count_empty, lemma_empties_from_le, lemma_empties_from_pos, lemma_empties_from_update,
    lemma_line_win_implies_win, lemma_valid_update, lemma_win_from_cases, lemma_win_of_update,
    line, line_win, valid_board, win_of,
};
use crate::search::{
    is_best_move, lemma_minimax_bounds, lemma_search_from_upper, lemma_search_member,
    minimax_value, root_score, search_from,
};
use vstd::prelude::*;

verus! {

/// Law: the best move is unique, so `best_move` is a function of the board
/// alone — two calls on the same board return the same index.
pub proof fn lemma_best_move_unique(b: Seq<i32>, m1: int, m2: int)
    requires
        is_best_move(b, m1),
        is_best_move(b, m2),
    ensures
        m1 == m2,
{
    if m1 < m2 {
        assert(root_score(b, m2) < root_score(b, m1));
        assert(root_score(b, m1) <= root_score(b, m2));
    }
    if m2 < m1 {
        assert(root_score(b, m1) < root_score(b, m2));
        assert(root_score(b, m2) <= root_score(b, m1));
    }
}

/// Law: on a board with exactly one empty cell, that cell is the best move.
pub proof fn lemma_forced_move(b: Seq<i32>, k: int, mv: int)
    requires
        valid_board(b),
        0 <= k < 9,
        b[k] == 0,
        forall|j: int| 0 <= j < 9 && j != k ==> b[j] != 0,
        is_best_move(b, mv),
    ensures
        mv == k,
{
}

/// Law: an immediate win is taken. If `i` is the first empty cell where the
/// -1 player completes a line, the best move is `i`: a win now scores -10,
/// strictly better for -1 than anything a longer game can reach.
pub proof fn lemma_immediate_win(b: Seq<i32>, i: int, mv: int)
    requires
        valid_board(b),
        win_of(b) == 0,
        0 <= i < 9,
        b[i] == 0,
        win_of(b.update(i, -1i32)) == -1,
        forall|j: int| 0 <= j < i && b[j] == 0 ==> win_of(#[trigger] b.update(j, -1i32)) != -1,
        is_best_move(b, mv),
    ensures
        mv == i,
{
    assert(root_score(b, i) == -10) by {
        lemma_valid_update(b, i, -1i32);
        assert(minimax_value(b.update(i, -1i32), 0, 1) == win_of(b.update(i, -1i32)) * 10);
    }
    assert forall|j: int|
        0 <= j < 9 && b[j] == 0 && win_of(#[trigger] b.update(j, -1i32)) != -1 implies root_score(
        b,
        j,
    ) >= -9 by {
        lemma_valid_update(b, j, -1i32);
        lemma_win_of_update(b, j, -1i32);
        lemma_empties_from_update(b, j, -1i32, 0);
        lemma_empties_from_le(b, 0);
        lemma_minimax_bounds(b.update(j, -1i32), 0, 1);
    }
    assert(root_score(b, mv) <= root_score(b, i));
    assert(win_of(b.update(mv, -1i32)) == -1);
    if mv > i {
        assert(root_score(b, i) > root_score(b, mv));
    }
}

/// Two marks of the opponent (the +1 player) on a line whose third cell,
/// `c`, is still empty: +1 wins at once by taking `c`.
pub open spec fn threat_at(b: Seq<i32>, k: int, c: int) -> bool {
    let t = line(k);
    &&& 0 <= k < 8
    &&& ((b[t.0] == 1 && b[t.1] == 1 && b[t.2] == 0 && c == t.2) || (b[t.0] == 1 && b[t.2] == 1
        && b[t.1] == 0 && c == t.1) || (b[t.1] == 1 && b[t.2] == 1 && b[t.0] == 0 && c == t.0))
}

/// Law: a lone threat is blocked. If the opponent threatens to win only at
/// cell `c`, and the -1 player has no immediate win of its own, the best move
/// is `c`: every other move lets +1 win at once (score 9), while blocking
/// caps the game at score 8.
pub proof fn lemma_blocking_move(b: Seq<i32>, c: int, mv: int)
    requires
        valid_board(b),
        win_of(b) == 0,
        exists|k: int| threat_at(b, k, c),
        forall|k: int, c2: int| threat_at(b, k, c2) ==> c2 == c,
        forall|j: int| 0 <= j < 9 && b[j] == 0 ==> win_of(#[trigger] b.update(j, -1i32)) != -1,
        is_best_move(b, mv),
    ensures
        mv == c,
{
    let k0 = choose|k: int| threat_at(b, k, c);
    assert(0 <= c < 9 && b[c] == 0);
    assert forall|j: int| 0 <= j < 9 && b[j] == 0 && j != c implies #[trigger] root_score(b, j)
        == 9 by {
        lemma_unblocked_threat_scores_nine(b, k0, c, j);
    }
    assert(root_score(b, c) <= 8) by {
        lemma_blocking_scores_at_most_eight(b, c);
    }
    if mv != c {
        assert(root_score(b, mv) <= root_score(b, c));
        assert(root_score(b, mv) == 9);
    }
}

/// If line `k0` threatens at `c` and the -1 player moves elsewhere (to `j`),
/// the opponent wins on the next ply, so the position is worth exactly 9.
proof fn lemma_unblocked_threat_scores_nine(b: Seq<i32>, k0: int, c: int, j: int)
    requires
        valid_board(b),
        win_of(b) == 0,
        threat_at(b, k0, c),
        0 <= j < 9,
        b[j] == 0,
        j != c,
        win_of(b.update(j, -1i32)) != -1,
    ensures
        root_score(b, j) == 9,
{
    let b2 = b.update(j, -1i32);
    lemma_valid_update(b, j, -1i32);
    lemma_win_of_update(b, j, -1i32);
    assert(win_of(b2) == 0);
    assert(0 <= c < 9 && b[c] == 0 && b2[c] == 0);
    // the threat survives the -1 move elsewhere, and taking c wins for +1
    let b3 = b2.update(c, 1i32);
    lemma_valid_update(b2, c, 1i32);
    let t = line(k0);
    assert(line_win(b3, k0) == 1);
    lemma_line_win_implies_win(b3, k0);
    lemma_win_of_update(b2, c, 1i32);
    assert(win_of(b3) == 1);
    assert(minimax_value(b3, 1, -1) == 9);
    // counting: b2 still has the empty cell c
    lemma_empties_from_update(b, j, -1i32, 0);
    lemma_empties_from_le(b, 0);
    lemma_empties_from_pos(b2, 0);
    assert(0 <= c < 9 && b2[c] == 0);
    assert(count_empty(b2) > 0);
    assert(minimax_value(b2, 0, 1) == search_from(b2, 0, 1, 0));
    lemma_search_member(b2, 0, 1, 0, c);
    assert(search_from(b2, 0, 1, 0) >= 9);
    lemma_minimax_bounds(b2, 0, 1);
    assert(root_score(b, j) == minimax_value(b2, 0, 1));
}

/// If every +1 threat sits at `c`, then after -1 takes `c` the opponent has
/// no one-move win left, so the position is worth at most 8.
proof fn lemma_blocking_scores_at_most_eight(b: Seq<i32>, c: int)
    requires
        valid_board(b),
        win_of(b) == 0,
        0 <= c < 9,
        b[c] == 0,
        forall|k: int, c2: int| threat_at(b, k, c2) ==> c2 == c,
        win_of(b.update(c, -1i32)) != -1,
    ensures
        root_score(b, c) <= 8,
{
    let bc = b.update(c, -1i32);
    lemma_valid_update(b, c, -1i32);
    lemma_win_of_update(b, c, -1i32);
    assert(win_of(bc) == 0);
    lemma_empties_from_update(b, c, -1i32, 0);
    lemma_empties_from_le(b, 0);
    if count_empty(bc) == 0 {
        assert(minimax_value(bc, 0, 1) == 0);
    } else {
        assert forall|t: int| 0 <= t < 9 && bc[t] == 0 implies minimax_value(
            #[trigger] bc.update(t, 1i32),
            1,
            -1,
        ) <= 8 by {
            lemma_no_second_threat(b, c, t);
            let b4 = bc.update(t, 1i32);
            lemma_valid_update(bc, t, 1i32);
            lemma_empties_from_update(bc, t, 1i32, 0);
            lemma_minimax_bounds(b4, 1, -1);
        }
        lemma_search_from_upper(bc, 0, 0, 8);
        assert(minimax_value(bc, 0, 1) == search_from(bc, 0, 1, 0));
    }
}

/// After -1 blocks at `c`, no +1 move at `t` completes a line: such a line
/// would have been a +1 threat of `b` at `t`, and all threats sit at `c`.
proof fn lemma_no_second_threat(b: Seq<i32>, c: int, t: int)
    requires
        valid_board(b),
        win_of(b) == 0,
        0 <= c < 9,
        b[c] == 0,
        forall|k: int, c2: int| threat_at(b, k, c2) ==> c2 == c,
        win_of(b.update(c, -1i32)) != -1,
        0 <= t < 9,
        b.update(c, -1i32)[t] == 0,
    ensures
        win_of(b.update(c, -1i32).update(t, 1i32)) == 0,
{
    let bc = b.update(c, -1i32);
    let b4 = bc.update(t, 1i32);
    lemma_valid_update(b, c, -1i32);
    lemma_valid_update(bc, t, 1i32);
    lemma_win_of_update(b, c, -1i32);
    assert(win_of(bc) == 0);
    lemma_win_of_update(bc, t, 1i32);
    assert(t != c);
    if win_of(b4) != 0 {
        assert(win_of(b4) == 1);
        lemma_win_from_cases(b4, 0);
        let k2 = choose|m: int| 0 <= m < 8 && line_win(b4, m) == win_of(b4);
        let u = line(k2);
        assert(b4[u.0] == 1 && b4[u.1] == 1 && b4[u.2] == 1);
        // cell c holds -1 in b4, so c is not on the line
        assert(u.0 != c && u.1 != c && u.2 != c);
        // if t were not on the line either, the line already won in b
        if u.0 != t && u.1 != t && u.2 != t {
            assert(line_win(b, k2) == 1);
            lemma_line_win_implies_win(b, k2);
            assert(false);
        }
        // t is on the line, the other two cells held 1 already in b
        assert(threat_at(b, k2, t));
        assert(false);
    }
}

} // verus!
