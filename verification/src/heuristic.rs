//! The three heuristic evaluators: uniform (always zero, giving uniform-cost
//! search), misplaced-tile count, and Manhattan-distance sum. Each is a pure,
//! total function of the boards it is given.

use vstd::prelude::*;
use crate::board::{
    apply_slides, blank_of, lemma_blank_of, lemma_moves_valid, slide_tiles, swap_tiles,
    tiles_valid, EightPuzzle, Moves, BLANK,
};

verus! {

/// The number of cells, among the first `upto`, where the two boards differ.
pub open spec fn mismatch_count(s: Seq<u8>, g: Seq<u8>, upto: int) -> int
    decreases upto,
{
    if upto <= 0 {
        0
    } else {
        mismatch_count(s, g, upto - 1) + if s[upto - 1] != g[upto - 1] {
            1int
        } else {
            0int
        }
    }
}

/// The misplaced-tile count: how many of the nine cells hold a different
/// value than the goal's cell, the blank cell counted like any tile.
pub open spec fn spec_misplaced(s: Seq<u8>, g: Seq<u8>) -> int {
    mismatch_count(s, g, 9)
}

/// The distance between two column (or row) numbers.
pub open spec fn dist(a: int, b: int) -> int {
    if a < b {
        b - a
    } else {
        a - b
    }
}

/// The column where a tile of value `v` belongs in the canonical sorted
/// layout `1 2 3 / 4 5 6 / 7 8 blank`.
pub open spec fn goal_col(v: u8) -> int {
    (v - 1) % 3
}

/// The row where a tile of value `v` belongs in the canonical sorted layout.
pub open spec fn goal_row(v: u8) -> int {
    (v - 1) / 3
}

/// How far the tile at flat index `k` is from its place in the canonical
/// layout, walking rows and columns; the blank contributes nothing.
pub open spec fn tile_distance(s: Seq<u8>, k: int) -> int {
    if s[k] == BLANK {
        0
    } else {
        dist(k % 3, goal_col(s[k])) + dist(k / 3, goal_row(s[k]))
    }
}

/// The sum of the tile distances of the first `upto` cells.
pub open spec fn manhattan_sum(s: Seq<u8>, upto: int) -> int
    decreases upto,
{
    if upto <= 0 {
        0
    } else {
        manhattan_sum(s, upto - 1) + tile_distance(s, upto - 1)
    }
}

/// The Manhattan-distance heuristic: the sum, over the eight tiles, of each
/// tile's row-plus-column distance from its place in the canonical sorted
/// layout. The goal positions are derived from the tile values alone, so the
/// measure is always taken against the canonical layout, whatever goal board
/// a search was given.
pub open spec fn spec_manhattan(s: Seq<u8>) -> int {
    manhattan_sum(s, 9)
}

/// Relies on num::abs (num_traits::sign::abs), which returns `-value` for a
/// negative argument and `value` itself otherwise; negating `i64::MIN` would
/// overflow, so that argument is excluded.
#[verifier::external_body]
fn abs_i64(value: i64) -> (r: i64)
    requires
        value != i64::MIN,
    ensures
        r == if value < 0 { -(value as int) } else { value as int },
{
    num::abs(value)
}

/// The uniform heuristic: zero for every board, so the search degrades to
/// uniform-cost search.
pub fn uniform_search_heuristic(_puzzle: EightPuzzle, _goal: EightPuzzle) -> (h: u64)
    ensures
        h == 0,
{
    0
}

/// Counts the cells whose value differs from the goal board's cell. The
/// blank's cell counts like any other, so a board out of place in the blank
/// alone still scores.
pub fn misplaced_tile_heuristic(puzzle: EightPuzzle, goal: EightPuzzle) -> (h: u64)
    ensures
        h == spec_misplaced(puzzle@, goal@),
        h <= 9,
{
    let mut count: u64 = 0;
    let mut k: usize = 0;
    #[verifier::loop_isolation(false)]
    while k < 9
        invariant
            k <= 9,
            count == mismatch_count(puzzle@, goal@, k as int),
            count <= k,
        decreases 9 - k,
    {
        if puzzle.cell(k) != goal.cell(k) {
            count += 1;
        }
        k += 1;
    }
    count
}

/// Sums, over the non-blank tiles, the Manhattan distance between each
/// tile's cell and the cell its value names in the canonical sorted layout
/// (column `(value - 1) % 3`, row `(value - 1) / 3`). The goal argument is
/// not consulted.
pub fn manhattan_distance_heuristic(puzzle: EightPuzzle, _goal: EightPuzzle) -> (h: u64)
    ensures
        h == spec_manhattan(puzzle@),
{
    let mut total: u64 = 0;
    let mut k: usize = 0;
    #[verifier::loop_isolation(false)]
    while k < 9
        invariant
            k <= 9,
            total == manhattan_sum(puzzle@, k as int),
            total <= 200 * k,
        decreases 9 - k,
    {
        let v = puzzle.cell(k);
        if v != BLANK {
            let col: i64 = (k % 3) as i64;
            let gcol: i64 = ((v - 1) % 3) as i64;
            let row: i64 = (k / 3) as i64;
            let grow: i64 = ((v - 1) / 3) as i64;
            let d = abs_i64(col - gcol) + abs_i64(row - grow);
            total += d as u64;
        }
        k += 1;
    }
    total
}

/// The closed set of heuristics a caller may select.
#[derive(Clone, Copy, Debug, PartialEq, Eq, Structural)]
pub enum Heuristic {
    Uniform,
    MisplacedTiles,
    ManhattanDistance,
}

/// The value the selected heuristic assigns to a board against a goal.
pub open spec fn heuristic_value(h: Heuristic, s: Seq<u8>, goal: Seq<u8>) -> int {
    match h {
        Heuristic::Uniform => 0,
        Heuristic::MisplacedTiles => spec_misplaced(s, goal),
        Heuristic::ManhattanDistance => spec_manhattan(s),
    }
}

impl Heuristic {
    /// Evaluates the selected heuristic on the given boards.
    pub fn evaluate(self, puzzle: EightPuzzle, goal: EightPuzzle) -> (h: u64)
        ensures
            h == heuristic_value(self, puzzle@, goal@),
    {
        match self {
            Heuristic::Uniform => uniform_search_heuristic(puzzle, goal),
            Heuristic::MisplacedTiles => misplaced_tile_heuristic(puzzle, goal),
            Heuristic::ManhattanDistance => manhattan_distance_heuristic(puzzle, goal),
        }
    }
}

/// Helper for the zero-at-goal law: no cell among the first `upto` differs
/// from itself.
proof fn lemma_mismatch_self(s: Seq<u8>, upto: int)
    requires
        0 <= upto,
    ensures
        mismatch_count(s, s, upto) == 0,
    decreases upto,
{
    if upto > 0 {
        lemma_mismatch_self(s, upto - 1);
    }
}

/// The misplaced-tile heuristic is zero when the board already equals the
/// goal: every cell matches itself.
pub proof fn lemma_misplaced_zero_at_goal(s: Seq<u8>)
    ensures
        spec_misplaced(s, s) == 0,
{
    lemma_mismatch_self(s, 9);
}

/// The canonical sorted goal layout, `1 2 3 / 4 5 6 / 7 8 blank`.
pub open spec fn canonical_tiles() -> Seq<u8> {
    seq![1u8, 2u8, 3u8, 4u8, 5u8, 6u8, 7u8, 8u8, 0u8]
}

/// The Manhattan-distance heuristic is zero at the canonical sorted layout:
/// every tile sits in the cell its value names. (It is measured against the
/// canonical layout alone, so on a board that differs from that layout the
/// distance is positive even when the board equals the search's goal.)
pub proof fn lemma_manhattan_zero_at_goal(s: Seq<u8>)
    requires
        s == canonical_tiles(),
    ensures
        spec_manhattan(s) == 0,
{
    let c = canonical_tiles();
    assert(tile_distance(c, 0) == 0);
    assert(tile_distance(c, 1) == 0);
    assert(tile_distance(c, 2) == 0);
    assert(tile_distance(c, 3) == 0);
    assert(tile_distance(c, 4) == 0);
    assert(tile_distance(c, 5) == 0);
    assert(tile_distance(c, 6) == 0);
    assert(tile_distance(c, 7) == 0);
    assert(tile_distance(c, 8) == 0);
    assert(manhattan_sum(c, 0) == 0);
    assert(manhattan_sum(c, 1) == 0);
    assert(manhattan_sum(c, 2) == 0);
    assert(manhattan_sum(c, 3) == 0);
    assert(manhattan_sum(c, 4) == 0);
    assert(manhattan_sum(c, 5) == 0);
    assert(manhattan_sum(c, 6) == 0);
    assert(manhattan_sum(c, 7) == 0);
    assert(manhattan_sum(c, 8) == 0);
    assert(manhattan_sum(c, 9) == 0);
}

/// A partial Manhattan sum is never negative.
proof fn lemma_manhattan_sum_nonneg(s: Seq<u8>, u: int)
    requires
        0 <= u,
    ensures
        manhattan_sum(s, u) >= 0,
    decreases u,
{
    if u > 0 {
        lemma_manhattan_sum_nonneg(s, u - 1);
    }
}

/// A Manhattan sum of zero means every summed cell contributes zero.
proof fn lemma_manhattan_sum_zero_parts(s: Seq<u8>, u: int)
    requires
        0 <= u <= 9,
        manhattan_sum(s, u) == 0,
    ensures
        forall|k: int| 0 <= k < u ==> tile_distance(s, k) == 0,
    decreases u,
{
    if u > 0 {
        lemma_manhattan_sum_nonneg(s, u - 1);
        lemma_manhattan_sum_zero_parts(s, u - 1);
    }
}

/// The converse of the zero-at-goal law: on a well-formed board the
/// Manhattan distance vanishes only at the canonical sorted layout, so a
/// goal board that is not that layout scores a positive distance even
/// against itself.
pub proof fn lemma_manhattan_zero_only_at_canonical(s: Seq<u8>)
    requires
        tiles_valid(s),
        spec_manhattan(s) == 0,
    ensures
        s == canonical_tiles(),
{
    lemma_manhattan_sum_zero_parts(s, 9);
    lemma_blank_of(s);
    let b = blank_of(s);
    assert forall|k: int| 0 <= k < 9 && k != b implies s[k] == k + 1 by {
        let v = s[k];
        assert(v != BLANK);
        assert(tile_distance(s, k) == 0);
        assert(k % 3 == goal_col(v));
        assert(k / 3 == goal_row(v));
        assert(k == 3 * (k / 3) + k % 3);
        assert(v - 1 == 3 * ((v - 1) / 3) + (v - 1) % 3);
    }
    assert(b == 8) by {
        if b != 8 {
            assert(s[8] == 9);
        }
    }
    assert(s =~= canonical_tiles());
}

/// When two boards agree outside the cells `i` and `j`, their Manhattan sums
/// differ only in those two cells' contributions.
proof fn lemma_manhattan_sum_two_cells(s: Seq<u8>, t: Seq<u8>, i: int, j: int, u: int)
    requires
        0 <= i < 9,
        0 <= j < 9,
        i != j,
        forall|k: int| 0 <= k < 9 && k != i && k != j ==> s[k] == t[k],
        0 <= u <= 9,
    ensures
        manhattan_sum(t, u) == manhattan_sum(s, u) - (
        if i < u {
            tile_distance(s, i)
        } else {
            0int
        }) - (
        if j < u {
            tile_distance(s, j)
        } else {
            0int
        }) + (
        if i < u {
            tile_distance(t, i)
        } else {
            0int
        }) + (
        if j < u {
            tile_distance(t, j)
        } else {
            0int
        }),
    decreases u,
{
    if u > 0 {
        lemma_manhattan_sum_two_cells(s, t, i, j, u - 1);
    }
}

/// One slide lowers the Manhattan distance by at most one: only the tile
/// swapped with the blank moves, and it moves to an adjacent cell, which
/// changes its own distance by exactly one.
pub proof fn lemma_manhattan_slide_step(s: Seq<u8>, m: Moves)
    requires
        tiles_valid(s),
    ensures
        spec_manhattan(slide_tiles(s, m)) >= spec_manhattan(s) - 1,
{
    let t = slide_tiles(s, m);
    let b = blank_of(s);
    lemma_blank_of(s);
    if t != s {
        let j: int = match m {
            Moves::Up => b - 3,
            Moves::Down => b + 3,
            Moves::Left => b - 1,
            Moves::Right => b + 1,
            Moves::Nothing => b,
        };
        assert(0 <= j < 9 && j != b);
        assert(t == swap_tiles(s, b, j));
        assert(t[b] == s[j]);
        assert(t[j] == s[b]);
        assert(s[j] != BLANK);
        lemma_manhattan_sum_two_cells(s, t, b, j, 9);
        assert(tile_distance(s, b) == 0);
        assert(tile_distance(t, j) == 0);
        assert(tile_distance(t, b) >= tile_distance(s, j) - 1);
    }
}

/// The Manhattan-distance heuristic is admissible: a board that some
/// sequence of slides takes to the canonical sorted layout needs at least
/// its Manhattan distance many slides to get there, so the heuristic never
/// overestimates the true remaining path length.
pub proof fn lemma_manhattan_admissible(s: Seq<u8>, ms: Seq<Moves>)
    requires
        tiles_valid(s),
        apply_slides(s, ms) == canonical_tiles(),
    ensures
        spec_manhattan(s) <= ms.len(),
    decreases ms.len(),
{
    if ms.len() == 0 {
        lemma_manhattan_zero_at_goal(s);
    } else {
        let s1 = slide_tiles(s, ms[0]);
        lemma_moves_valid(s);
        assert(tiles_valid(s1));
        lemma_manhattan_slide_step(s, ms[0]);
        lemma_manhattan_admissible(s1, ms.subrange(1, ms.len() as int));
    }
}

} // verus!
