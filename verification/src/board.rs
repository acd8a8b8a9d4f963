//! The 3x3 board: cell values, empty-cell counting, and win detection
//! over the 8 fixed winning lines.

use vstd::prelude::*;

verus! {

/// A board is 9 cells in row-major order, each 0 (empty), 1 or -1 (the players).
pub open spec fn valid_board(b: Seq<i32>) -> bool {
    &&& b.len() == 9
    &&& forall|j: int| 0 <= j < 9 ==> b[j] == 0 || b[j] == 1 || b[j] == -1
}

/// How many cells with index `i` or higher are empty.
pub open spec fn empties_from(b: Seq<i32>, i: int) -> nat
    decreases 9 - i,
{
    if i < 0 || i >= 9 {
        0
    } else if b[i] == 0 {
        1nat + empties_from(b, i + 1)
    } else {
        empties_from(b, i + 1)
    }
}

/// How many cells of the board are empty.
pub open spec fn count_empty(b: Seq<i32>) -> nat {
    empties_from(b, 0)
}

/// Whether any cell of the board is empty.
pub open spec fn has_empty(b: Seq<i32>) -> bool {
    count_empty(b) > 0
}

pub proof fn lemma_empties_from_le(b: Seq<i32>, i: int)
    requires
        0 <= i <= 9,
    ensures
        empties_from(b, i) <= 9 - i,
    decreases 9 - i,
{
    if i < 9 {
        lemma_empties_from_le(b, i + 1);
    }
}

/// Marking one empty cell removes exactly one empty cell from every suffix
/// that contains it.
pub proof fn lemma_empties_from_update(b: Seq<i32>, j: int, p: i32, i: int)
    requires
        b.len() == 9,
        0 <= i <= 9,
        0 <= j < 9,
        b[j] == 0,
        p != 0,
    ensures
        empties_from(b.update(j, p), i) + (if i <= j { 1nat } else { 0nat }) == empties_from(b, i),
    decreases 9 - i,
{
    if i < 9 {
        lemma_empties_from_update(b, j, p, i + 1);
    }
}

/// A suffix has a positive empty count exactly when it contains an empty cell.
pub proof fn lemma_empties_from_pos(b: Seq<i32>, i: int)
    requires
        0 <= i <= 9,
    ensures
        empties_from(b, i) > 0 <==> exists|j: int| i <= j < 9 && b[j] == 0,
    decreases 9 - i,
{
    if i < 9 {
        lemma_empties_from_pos(b, i + 1);
        if b[i] == 0 {
            assert(i <= i < 9 && b[i] == 0);
        } else {
            if exists|j: int| i <= j < 9 && b[j] == 0 {
                let j = choose|j: int| i <= j < 9 && b[j] == 0;
                assert(i + 1 <= j < 9 && b[j] == 0);
            }
        }
    }
}

/// Writing a player's mark or clearing a cell keeps the board valid.
pub proof fn lemma_valid_update(b: Seq<i32>, j: int, p: i32)
    requires
        valid_board(b),
        0 <= j < 9,
        p == 0 || p == 1 || p == -1,
    ensures
        valid_board(b.update(j, p)),
{
    assert forall|t: int| 0 <= t < 9 implies #[trigger] b.update(j, p)[t] == 0
        || b.update(j, p)[t] == 1 || b.update(j, p)[t] == -1 by {
        if t != j {
            assert(b[t] == 0 || b[t] == 1 || b[t] == -1);
        }
    }
}

/// The 8 winning index triples: 3 rows, 3 columns, 2 diagonals.
pub open spec fn line(k: int) -> (int, int, int) {
    if k == 0 {
        (0, 1, 2)
    } else if k == 1 {
        (3, 4, 5)
    } else if k == 2 {
        (6, 7, 8)
    } else if k == 3 {
        (0, 3, 6)
    } else if k == 4 {
        (1, 4, 7)
    } else if k == 5 {
        (2, 5, 8)
    } else if k == 6 {
        (0, 4, 8)
    } else {
        (2, 4, 6)
    }
}

/// The winner on line `k`: the shared mark if all three cells agree and are
/// not empty, else 0.
pub open spec fn line_win(b: Seq<i32>, k: int) -> i32 {
    let t = line(k);
    if b[t.0] != 0 && b[t.0] == b[t.1] && b[t.1] == b[t.2] {
        b[t.0]
    } else {
        0
    }
}

/// The mark of the first winning line among lines `k`, ..., 7, or 0 if none wins.
pub open spec fn win_from(b: Seq<i32>, k: int) -> i32
    decreases 8 - k,
{
    if k < 0 || k >= 8 {
        0
    } else if line_win(b, k) != 0 {
        line_win(b, k)
    } else {
        win_from(b, k + 1)
    }
}

/// The winner on the board: a player's mark if that player completed a line,
/// else 0 (drawn or still in progress).
pub open spec fn win_of(b: Seq<i32>) -> i32 {
    win_from(b, 0)
}

/// The scan over lines reports 0 exactly when no line wins, and a nonzero
/// report is the value of some winning line.
pub proof fn lemma_win_from_cases(b: Seq<i32>, k: int)
    requires
        0 <= k <= 8,
    ensures
        win_from(b, k) == 0 <==> (forall|m: int| k <= m < 8 ==> line_win(b, m) == 0),
        win_from(b, k) != 0 ==> exists|m: int| k <= m < 8 && line_win(b, m) == win_from(b, k),
    decreases 8 - k,
{
    if k < 8 {
        lemma_win_from_cases(b, k + 1);
        if line_win(b, k) != 0 {
            assert(k <= k < 8 && line_win(b, k) == win_from(b, k));
        } else {
            if win_from(b, k + 1) != 0 {
                let m = choose|m: int| k + 1 <= m < 8 && line_win(b, m) == win_from(b, k + 1);
                assert(k <= m < 8 && line_win(b, m) == win_from(b, k));
            } else {
                assert forall|m: int| k <= m < 8 implies #[trigger] line_win(b, m) == 0 by {
                    if m > k {
                        assert(line_win(b, m) == 0);
                    }
                }
            }
        }
    }
}

/// On a valid board the winner is 0, 1 or -1.
pub proof fn lemma_win_range(b: Seq<i32>)
    requires
        valid_board(b),
    ensures
        win_of(b) == 0 || win_of(b) == 1 || win_of(b) == -1,
{
    lemma_win_from_cases(b, 0);
    if win_of(b) != 0 {
        let m = choose|m: int| 0 <= m < 8 && line_win(b, m) == win_of(b);
        let t = line(m);
        assert(0 <= t.0 < 9);
        assert(b[t.0] == 0 || b[t.0] == 1 || b[t.0] == -1);
    }
}

/// A single winning line makes the whole-board winner nonzero.
pub proof fn lemma_line_win_implies_win(b: Seq<i32>, k: int)
    requires
        0 <= k < 8,
        line_win(b, k) != 0,
    ensures
        win_of(b) != 0,
{
    lemma_win_from_cases(b, 0);
}

/// Placing mark `p` on an empty cell of a board with no winner either keeps
/// the board winnerless or makes `p` the winner; it never crowns the other player.
pub proof fn lemma_win_of_update(b: Seq<i32>, j: int, p: i32)
    requires
        valid_board(b),
        win_of(b) == 0,
        0 <= j < 9,
        b[j] == 0,
        p == 1 || p == -1,
    ensures
        win_of(b.update(j, p)) == 0 || win_of(b.update(j, p)) == p,
{
    let b2 = b.update(j, p);
    lemma_win_from_cases(b, 0);
    lemma_win_from_cases(b2, 0);
    if win_of(b2) != 0 {
        let m = choose|m: int| 0 <= m < 8 && line_win(b2, m) == win_of(b2);
        assert(line_win(b, m) == 0);
        let t = line(m);
        if t.0 != j && t.1 != j && t.2 != j {
            assert(b2[t.0] == b[t.0] && b2[t.1] == b[t.1] && b2[t.2] == b[t.2]);
        } else {
            assert(b2[j] == p);
        }
    }
}

/// The three cell indices of winning line `k`.
pub fn line_cells(k: usize) -> (t: (usize, usize, usize))
    requires
        k < 8,
    ensures
        line(k as int) == ((t.0 as int, t.1 as int, t.2 as int)),
        t.0 < 9 && t.1 < 9 && t.2 < 9,
{
    if k == 0 {
        (0, 1, 2)
    } else if k == 1 {
        (3, 4, 5)
    } else if k == 2 {
        (6, 7, 8)
    } else if k == 3 {
        (0, 3, 6)
    } else if k == 4 {
        (1, 4, 7)
    } else if k == 5 {
        (2, 5, 8)
    } else if k == 6 {
        (0, 4, 8)
    } else {
        (2, 4, 6)
    }
}

/// Scan the 8 lines in order and report the first winner's mark, or 0.
pub fn check_win(board: &Vec<i32>) -> (w: i32)
    requires
        board@.len() == 9,
    ensures
        w == win_of(board@),
{
    let mut k: usize = 0;
    while k < 8
        invariant
            k <= 8,
            board@.len() == 9,
            win_of(board@) == win_from(board@, k as int),
        decreases 8 - k,
    {
        let t = line_cells(k);
        let va = board[t.0];
        let vb = board[t.1];
        let vc = board[t.2];
        if va != 0 && va == vb && vb == vc {
            assert(line_win(board@, k as int) == va);
            return va;
        }
        assert(line_win(board@, k as int) == 0);
        k = k + 1;
    }
    0
}

/// Whether the board has an empty cell left to play on.
pub fn has_empty_cell(board: &Vec<i32>) -> (r: bool)
    requires
        board@.len() == 9,
    ensures
        r == has_empty(board@),
{
    let mut i: usize = 0;
    while i < 9
        invariant
            i <= 9,
            board@.len() == 9,
            empties_from(board@, 0) == empties_from(board@, i as int),
        decreases 9 - i,
    {
        if board[i] == 0 {
            assert(empties_from(board@, i as int) > 0);
            return true;
        }
        i = i + 1;
    }
    false
}

} // verus!
