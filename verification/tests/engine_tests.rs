use eight_puzzle::{
    dequeueing_function, enqueueing_function, expand_node, search, EightPuzzle, EightPuzzleNode,
    Heuristic, Moves, Problem,
};

fn board(rows: [[u8; 3]; 3]) -> EightPuzzle {
    EightPuzzle::try_from_rows(rows).unwrap()
}

fn goal() -> EightPuzzle {
    board([[1, 2, 3], [4, 5, 6], [7, 8, 0]])
}

fn node(b: EightPuzzle, g: u64, h: u64, prev_move: Moves) -> EightPuzzleNode {
    EightPuzzleNode { puzzle: b, g, h, prev_move }
}

fn rows_of(b: &EightPuzzle) -> [[u8; 3]; 3] {
    let mut out = [[0u8; 3]; 3];
    for r in 0..3 {
        for c in 0..3 {
            out[r][c] = b.get(r, c);
        }
    }
    out
}

#[test]
fn dequeue_picks_the_lowest_f_breaking_ties_leftmost() {
    let g = goal();
    let mut queue = vec![
        node(g, 2, 1, Moves::Nothing), // f = 3
        node(g, 1, 1, Moves::Up),      // f = 2, leftmost minimum
        node(g, 0, 2, Moves::Down),    // f = 2
    ];
    let (picked, idx) = dequeueing_function(&mut queue);
    assert_eq!(idx, 1);
    assert_eq!(picked.g, 1);
    assert_eq!(picked.h, 1);
    assert!(matches!(picked.prev_move, Moves::Up));
    assert_eq!(queue.len(), 2);
    assert_eq!(queue[0].g, 2);
    assert_eq!(queue[1].g, 0);
}

#[test]
fn dequeue_with_all_costs_equal_picks_the_first_entry() {
    let g = goal();
    let mut queue = vec![
        node(g, 1, 2, Moves::Nothing),
        node(g, 2, 1, Moves::Up),
        node(g, 3, 0, Moves::Down),
    ];
    let (picked, idx) = dequeueing_function(&mut queue);
    assert_eq!(idx, 0);
    assert_eq!(picked.g, 1);
    assert_eq!(queue.len(), 2);
}

#[test]
fn path_cost_saturates_at_the_top_of_its_range() {
    let center = board([[1, 2, 3], [4, 0, 5], [6, 7, 8]]);
    let children = expand_node(node(center, u64::MAX, 0, Moves::Nothing), goal(), Heuristic::Uniform);
    for c in children.iter() {
        assert_eq!(c.g, u64::MAX);
    }
}

#[test]
fn root_expansion_generates_all_possible_slides() {
    let center = board([[1, 2, 3], [4, 0, 5], [6, 7, 8]]);
    let children = expand_node(node(center, 0, 0, Moves::Nothing), goal(), Heuristic::Uniform);
    assert_eq!(children.len(), 4);
    assert!(matches!(children[0].prev_move, Moves::Up));
    assert!(matches!(children[1].prev_move, Moves::Down));
    assert!(matches!(children[2].prev_move, Moves::Left));
    assert!(matches!(children[3].prev_move, Moves::Right));
    assert_eq!(rows_of(&children[0].puzzle), [[1, 0, 3], [4, 2, 5], [6, 7, 8]]);
    for c in children.iter() {
        assert_eq!(c.g, 1);
        assert_eq!(c.h, 0);
    }
}

#[test]
fn expansion_discards_boundary_no_ops() {
    let corner = board([[0, 1, 2], [3, 4, 5], [6, 7, 8]]);
    let children = expand_node(node(corner, 3, 0, Moves::Nothing), goal(), Heuristic::Uniform);
    // Up and Left would leave the corner board unchanged, so only Down and
    // Right survive, in that order.
    assert_eq!(children.len(), 2);
    assert!(matches!(children[0].prev_move, Moves::Down));
    assert!(matches!(children[1].prev_move, Moves::Right));
    assert_eq!(rows_of(&children[0].puzzle), [[3, 1, 2], [0, 4, 5], [6, 7, 8]]);
    assert_eq!(rows_of(&children[1].puzzle), [[1, 0, 2], [3, 4, 5], [6, 7, 8]]);
    assert_eq!(children[0].g, 4);
}

#[test]
fn expansion_suppresses_the_direct_reversal() {
    let center = board([[1, 2, 3], [4, 0, 5], [6, 7, 8]]);
    let children = expand_node(node(center, 0, 0, Moves::Up), goal(), Heuristic::Uniform);
    // The node was made by an upward slide, so Down would regenerate its
    // parent and is skipped.
    assert_eq!(children.len(), 3);
    assert!(matches!(children[0].prev_move, Moves::Up));
    assert!(matches!(children[1].prev_move, Moves::Left));
    assert!(matches!(children[2].prev_move, Moves::Right));
}

#[test]
fn expansion_scores_children_with_the_chosen_heuristic() {
    let b = board([[1, 2, 3], [4, 8, 0], [7, 6, 5]]);
    let children = expand_node(node(b, 0, 0, Moves::Nothing), goal(), Heuristic::ManhattanDistance);
    for c in children.iter() {
        assert_eq!(
            c.h,
            eight_puzzle::manhattan_distance_heuristic(c.puzzle, goal())
        );
    }
}

#[test]
fn enqueue_inserts_the_children_at_the_removal_index_in_order() {
    let corner = board([[0, 1, 2], [3, 4, 5], [6, 7, 8]]);
    let filler = node(goal(), 9, 9, Moves::Nothing);
    let mut queue = vec![filler, filler];
    let parent = node(corner, 0, 0, Moves::Nothing);
    enqueueing_function(&mut queue, goal(), (parent, 1), Heuristic::Uniform);
    assert_eq!(queue.len(), 4);
    assert_eq!(queue[0].g, 9);
    assert!(matches!(queue[1].prev_move, Moves::Down));
    assert!(matches!(queue[2].prev_move, Moves::Right));
    assert_eq!(queue[3].g, 9);
}

#[test]
fn solved_at_once_when_the_initial_board_is_the_goal() {
    for heuristic in [Heuristic::Uniform, Heuristic::MisplacedTiles, Heuristic::ManhattanDistance]
    {
        let problem = Problem { initial_state: goal(), goal_state: goal() };
        let (result, stats) = search(problem, heuristic);
        assert!(result.unwrap() == goal());
        assert_eq!(stats.expansions, 0);
        assert_eq!(stats.peak_frontier_size, 1);
    }
}

#[test]
fn all_three_heuristics_solve_the_same_puzzle() {
    let initial = board([[1, 2, 3], [4, 8, 0], [7, 6, 5]]);
    let problem = Problem { initial_state: initial, goal_state: goal() };

    let (r_uniform, s_uniform) = search(problem, Heuristic::Uniform);
    let (r_misplaced, s_misplaced) = search(problem, Heuristic::MisplacedTiles);
    let (r_manhattan, s_manhattan) = search(problem, Heuristic::ManhattanDistance);

    assert_eq!(rows_of(&r_uniform.unwrap()), [[1, 2, 3], [4, 5, 6], [7, 8, 0]]);
    assert_eq!(rows_of(&r_misplaced.unwrap()), [[1, 2, 3], [4, 5, 6], [7, 8, 0]]);
    assert_eq!(rows_of(&r_manhattan.unwrap()), [[1, 2, 3], [4, 5, 6], [7, 8, 0]]);

    // A better-informed heuristic never expands more nodes here.
    assert!(s_uniform.expansions >= s_misplaced.expansions);
    assert!(s_misplaced.expansions >= s_manhattan.expansions);
}

#[test]
fn one_slide_from_the_goal_is_found_within_four_expansions() {
    let initial = board([[1, 2, 3], [4, 5, 0], [7, 8, 6]]);
    for heuristic in [Heuristic::Uniform, Heuristic::MisplacedTiles, Heuristic::ManhattanDistance]
    {
        let problem = Problem { initial_state: initial, goal_state: goal() };
        let (result, stats) = search(problem, heuristic);
        assert!(result.unwrap() == goal());
        assert!(stats.expansions >= 1);
        assert!(stats.expansions <= 4);
        assert!(stats.peak_frontier_size >= 1);
    }
}

#[test]
fn repeated_searches_share_no_state() {
    let initial = board([[1, 2, 3], [4, 8, 0], [7, 6, 5]]);
    let problem = Problem { initial_state: initial, goal_state: goal() };
    let (first_result, first_stats) = search(problem, Heuristic::MisplacedTiles);
    let (second_result, second_stats) = search(problem, Heuristic::MisplacedTiles);
    assert!(first_result.unwrap() == second_result.unwrap());
    assert_eq!(first_stats, second_stats);
}
