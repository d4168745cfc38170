use eight_puzzle::{
    manhattan_distance_heuristic, misplaced_tile_heuristic, uniform_search_heuristic,
    EightPuzzle, Heuristic,
};

fn board(rows: [[u8; 3]; 3]) -> EightPuzzle {
    EightPuzzle::try_from_rows(rows).unwrap()
}

fn goal() -> EightPuzzle {
    board([[1, 2, 3], [4, 5, 6], [7, 8, 0]])
}

#[test]
fn uniform_heuristic_is_always_zero() {
    let b = board([[8, 7, 1], [6, 0, 2], [5, 4, 3]]);
    assert_eq!(uniform_search_heuristic(b, goal()), 0);
    assert_eq!(uniform_search_heuristic(goal(), goal()), 0);
}

#[test]
fn misplaced_tiles_is_zero_at_the_goal() {
    let g = goal();
    assert_eq!(misplaced_tile_heuristic(g, g), 0);
    let b = board([[8, 7, 1], [6, 0, 2], [5, 4, 3]]);
    assert_eq!(misplaced_tile_heuristic(b, b), 0);
}

#[test]
fn misplaced_tiles_counts_every_differing_cell() {
    let b = board([[1, 2, 3], [4, 8, 0], [7, 6, 5]]);
    // Cells (1,1), (1,2), (2,1) and (2,2) differ from the goal; the blank's
    // cell counts like any tile.
    assert_eq!(misplaced_tile_heuristic(b, goal()), 4);
}

#[test]
fn manhattan_distance_is_zero_at_the_canonical_goal() {
    assert_eq!(manhattan_distance_heuristic(goal(), goal()), 0);
}

#[test]
fn manhattan_distance_sums_row_and_column_offsets() {
    let b = board([[1, 2, 3], [4, 8, 0], [7, 6, 5]]);
    // Tile 8 is one cell from home, tiles 5 and 6 two cells each; the blank
    // contributes nothing. A signed offset that were not folded to a
    // distance would not add up to 5.
    assert_eq!(manhattan_distance_heuristic(b, goal()), 5);
}

#[test]
fn manhattan_distance_measures_against_the_canonical_layout_alone() {
    let b = board([[2, 1, 3], [4, 5, 6], [7, 8, 0]]);
    // Even with the board itself given as the goal, tiles 1 and 2 are each
    // one cell away from the cell their value names.
    assert_eq!(manhattan_distance_heuristic(b, b), 2);
}

#[test]
fn manhattan_distance_never_overestimates_a_known_shortest_path() {
    // This start is five slides from the goal (shown slide by slide), and
    // its Manhattan distance is exactly five, so the heuristic meets the
    // admissibility bound with equality here.
    let b = board([[1, 2, 3], [4, 8, 0], [7, 6, 5]]);
    let solved = b.move_down().move_left().move_up().move_right().move_down();
    assert!(solved == goal());
    assert!(manhattan_distance_heuristic(b, goal()) <= 5);
}

#[test]
fn evaluate_dispatches_to_the_named_heuristics() {
    let b = board([[1, 2, 3], [4, 8, 0], [7, 6, 5]]);
    let g = goal();
    assert_eq!(Heuristic::Uniform.evaluate(b, g), uniform_search_heuristic(b, g));
    assert_eq!(Heuristic::MisplacedTiles.evaluate(b, g), misplaced_tile_heuristic(b, g));
    assert_eq!(
        Heuristic::ManhattanDistance.evaluate(b, g),
        manhattan_distance_heuristic(b, g)
    );
}
