use tictactoe_minimax::best_move;

const LINES: [[usize; 3]; 8] = [
    [0, 1, 2],
    [3, 4, 5],
    [6, 7, 8],
    [0, 3, 6],
    [1, 4, 7],
    [2, 5, 8],
    [0, 4, 8],
    [2, 4, 6],
];

fn winner(b: &[i32; 9]) -> i32 {
    for l in LINES.iter() {
        if b[l[0]] != 0 && b[l[0]] == b[l[1]] && b[l[1]] == b[l[2]] {
            return b[l[0]];
        }
    }
    0
}

#[test]
fn forced_move_last_cell() {
    // exactly one empty cell: it must be returned
    let b = [1, -1, 1, -1, 1, -1, -1, 1, 0];
    assert_eq!(best_move(&b), 8);
}

#[test]
fn forced_move_middle_cell() {
    let b = [1, -1, 1, -1, 0, -1, -1, 1, 1];
    assert_eq!(best_move(&b), 4);
}

#[test]
fn immediate_win_row() {
    // -1 completes the top row at index 2
    let b = [-1, -1, 0, 1, 1, 0, 0, 0, 0];
    assert_eq!(best_move(&b), 2);
}

#[test]
fn immediate_win_column() {
    // -1 completes the left column at index 6
    let b = [-1, 1, 0, -1, 0, 1, 0, 0, 0];
    assert_eq!(best_move(&b), 6);
}

#[test]
fn own_win_over_block() {
    // -1 can win at once at index 5; that beats blocking +1's top row at 2,
    // which would leave +1 free to win later
    let b = [1, 1, 0, -1, -1, 0, 0, 0, 0];
    assert_eq!(best_move(&b), 5);
}

#[test]
fn block_single_threat() {
    // +1 threatens the top row at index 2 and -1 has no win of its own
    let b = [1, 1, 0, 0, 0, 0, 0, -1, 0];
    assert_eq!(best_move(&b), 2);
}

#[test]
fn block_diagonal_threat() {
    // +1 threatens the main diagonal at index 8
    let b = [1, 0, 0, 0, 1, 0, -1, 0, 0];
    assert_eq!(best_move(&b), 8);
}

#[test]
fn empty_board_choice() {
    // on the empty board a corner or the center is the optimal family
    let b = [0i32; 9];
    let mv = best_move(&b);
    assert!(mv == 0 || mv == 2 || mv == 4 || mv == 6 || mv == 8);
}

#[test]
fn determinism() {
    let b = [0, 1, 0, 0, -1, 0, 0, 0, 1];
    assert_eq!(best_move(&b), best_move(&b));
    let z = [0i32; 9];
    assert_eq!(best_move(&z), best_move(&z));
}

#[test]
fn board_unchanged() {
    let b = [1, 0, -1, 0, 0, 0, 0, 1, -1];
    let before = b;
    let _ = best_move(&b);
    assert_eq!(b, before);
}

#[test]
fn full_board_returns_zero() {
    let b = [1, -1, 1, -1, 1, -1, -1, 1, -1];
    assert_eq!(best_move(&b), 0);
}

// -1 plays `best_move`; the opponent tries every reply in turn
fn never_loses_from(b: &mut [i32; 9]) {
    if winner(b) != 0 {
        assert_ne!(winner(b), 1, "the -1 player lost: {:?}", b);
        return;
    }
    if !b.contains(&0) {
        return;
    }
    let mv = best_move(&b[..]);
    assert_eq!(b[mv], 0, "best_move picked an occupied cell on {:?}", b);
    b[mv] = -1;
    if winner(b) == 0 && b.contains(&0) {
        for i in 0..9 {
            if b[i] == 0 {
                b[i] = 1;
                never_loses_from(b);
                b[i] = 0;
            }
        }
    } else {
        assert_ne!(winner(b), 1);
    }
    b[mv] = 0;
}

#[test]
fn empty_board_never_loses() {
    // played out against every opposing strategy, the empty board never ends
    // in a win for +1
    let mut b = [0i32; 9];
    never_loses_from(&mut b);
}
