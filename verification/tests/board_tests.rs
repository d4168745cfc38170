use eight_puzzle::EightPuzzle;

fn board(rows: [[u8; 3]; 3]) -> EightPuzzle {
    EightPuzzle::try_from_rows(rows).unwrap()
}

fn rows_of(b: &EightPuzzle) -> [[u8; 3]; 3] {
    let mut out = [[0u8; 3]; 3];
    for r in 0..3 {
        for c in 0..3 {
            out[r][c] = b.get(r, c);
        }
    }
    out
}

#[test]
fn try_from_rows_accepts_a_permutation() {
    let b = board([[1, 2, 3], [4, 8, 0], [7, 6, 5]]);
    assert_eq!(rows_of(&b), [[1, 2, 3], [4, 8, 0], [7, 6, 5]]);
}

#[test]
fn try_from_rows_rejects_a_duplicate_value() {
    assert!(EightPuzzle::try_from_rows([[1, 2, 3], [4, 5, 5], [7, 8, 0]]).is_none());
}

#[test]
fn try_from_rows_rejects_a_missing_blank() {
    assert!(EightPuzzle::try_from_rows([[1, 2, 3], [4, 5, 6], [7, 8, 9]]).is_none());
}

#[test]
fn try_from_rows_rejects_an_out_of_range_value() {
    assert!(EightPuzzle::try_from_rows([[1, 2, 3], [4, 5, 6], [7, 0, 9]]).is_none());
}

#[test]
fn boards_compare_by_full_grid_equality() {
    let a = board([[1, 2, 3], [4, 8, 0], [7, 6, 5]]);
    let b = board([[1, 2, 3], [4, 8, 0], [7, 6, 5]]);
    let c = board([[1, 2, 3], [4, 8, 0], [7, 5, 6]]);
    assert!(a == b);
    assert!(!(a == c));
}

#[test]
fn move_up_swaps_the_blank_with_the_tile_above() {
    let b = board([[1, 2, 3], [4, 8, 0], [7, 6, 5]]);
    assert_eq!(rows_of(&b.move_up()), [[1, 2, 0], [4, 8, 3], [7, 6, 5]]);
}

#[test]
fn move_down_swaps_the_blank_with_the_tile_below() {
    let b = board([[1, 2, 3], [4, 8, 0], [7, 6, 5]]);
    assert_eq!(rows_of(&b.move_down()), [[1, 2, 3], [4, 8, 5], [7, 6, 0]]);
}

#[test]
fn move_left_swaps_the_blank_with_the_tile_on_its_left() {
    let b = board([[1, 2, 3], [4, 8, 0], [7, 6, 5]]);
    assert_eq!(rows_of(&b.move_left()), [[1, 2, 3], [4, 0, 8], [7, 6, 5]]);
}

#[test]
fn move_right_at_the_edge_is_a_no_op() {
    let b = board([[1, 2, 3], [4, 8, 0], [7, 6, 5]]);
    assert!(b.move_right() == b);
}

#[test]
fn corner_blank_leaves_up_and_left_unchanged() {
    let b = board([[0, 1, 2], [3, 4, 5], [6, 7, 8]]);
    assert!(b.move_up() == b);
    assert!(b.move_left() == b);
}

#[test]
fn corner_blank_still_moves_down_and_right() {
    let b = board([[0, 1, 2], [3, 4, 5], [6, 7, 8]]);
    assert_eq!(rows_of(&b.move_down()), [[3, 1, 2], [0, 4, 5], [6, 7, 8]]);
    assert_eq!(rows_of(&b.move_right()), [[1, 0, 2], [3, 4, 5], [6, 7, 8]]);
}

#[test]
fn move_up_undoes_move_down_away_from_the_bottom_row() {
    let b = board([[1, 2, 3], [4, 8, 0], [7, 6, 5]]);
    assert!(b.move_down().move_up() == b);
    let c = board([[0, 1, 2], [3, 4, 5], [6, 7, 8]]);
    assert!(c.move_down().move_up() == c);
}

#[test]
fn move_up_does_not_undo_move_down_on_the_bottom_row() {
    let b = board([[1, 2, 3], [4, 5, 6], [7, 8, 0]]);
    // The downward slide is already a no-op at the boundary...
    assert!(b.move_down() == b);
    // ...so the upward slide afterwards moves the blank instead of
    // restoring the board.
    assert_eq!(rows_of(&b.move_down().move_up()), [[1, 2, 3], [4, 5, 0], [7, 8, 6]]);
}
