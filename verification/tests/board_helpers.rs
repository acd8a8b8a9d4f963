use tictactoe_minimax::board::{check_win, has_empty_cell};

#[test]
fn check_win_reports_first_winner() {
    let no_win = vec![1, -1, 1, -1, 1, -1, -1, 1, -1];
    assert_eq!(check_win(&no_win), 0);
    let top_row = vec![1, 1, 1, -1, -1, 0, 0, 0, 0];
    assert_eq!(check_win(&top_row), 1);
    let left_col = vec![-1, 1, 1, -1, 0, 0, -1, 0, 0];
    assert_eq!(check_win(&left_col), -1);
    let diagonal = vec![-1, 1, 1, 0, -1, 0, 0, 0, -1];
    assert_eq!(check_win(&diagonal), -1);
    let ongoing = vec![0i32; 9];
    assert_eq!(check_win(&ongoing), 0);
}

#[test]
fn has_empty_cell_scans_all_cells() {
    let full = vec![1, -1, 1, -1, 1, -1, -1, 1, -1];
    assert!(!has_empty_cell(&full));
    let last_open = vec![1, -1, 1, -1, 1, -1, -1, 1, 0];
    assert!(has_empty_cell(&last_open));
    let empty = vec![0i32; 9];
    assert!(has_empty_cell(&empty));
}
