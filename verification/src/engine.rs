//! The search engine: nodes, the unordered frontier with its
//! extract-minimum and insertion operations, node expansion, and the
//! best-first control loop with its statistics.

use vstd::prelude::*;
use crate::board::{
    apply_slides, lemma_apply_slides_snoc, lemma_blank_of, lemma_move_noop_iff, reachable,
    slide_tiles, tiles_valid, EightPuzzle, Moves,
};
use crate::heuristic::{heuristic_value, Heuristic};

verus! {

/// The pair of boards a single search is about, fixed for its lifetime.
#[derive(Clone, Copy, Debug)]
pub struct Problem {
    pub initial_state: EightPuzzle,
    pub goal_state: EightPuzzle,
}

/// A frontier entry: a board, the path cost `g` that reached it, its
/// heuristic estimate `h`, and the direction that produced it (used only to
/// avoid generating the direct reversal).
#[derive(Clone, Copy, Debug)]
pub struct EightPuzzleNode {
    pub puzzle: EightPuzzle,
    pub g: u64,
    pub h: u64,
    pub prev_move: Moves,
}

/// The counters one search run accumulates; every run owns its own instance.
#[derive(Clone, Copy, Debug, PartialEq, Eq, Structural)]
pub struct SearchStats {
    /// How many nodes were expanded.
    pub expansions: u64,
    /// The largest frontier size observed at the top of the loop.
    pub peak_frontier_size: usize,
}

/// The priority of a frontier entry: f = g + h.
pub open spec fn fcost(n: EightPuzzleNode) -> int {
    n.g + n.h
}

/// The path cost of a child: one more than the parent's, held at the top of
/// the range rather than wrapping.
pub open spec fn sat_succ(g: u64) -> u64 {
    if g == u64::MAX {
        g
    } else {
        (g + 1) as u64
    }
}

/// The direction that undoes a slide: expanding in it would regenerate the
/// parent's board.
pub open spec fn reverse_of(m: Moves) -> Moves {
    match m {
        Moves::Up => Moves::Down,
        Moves::Down => Moves::Up,
        Moves::Left => Moves::Right,
        Moves::Right => Moves::Left,
        Moves::Nothing => Moves::Nothing,
    }
}

/// The directions a node is expanded in: all four in the fixed order up,
/// down, left, right, except the direct reversal of the slide that produced
/// the node; the root, which no slide produced, expands in all four.
pub open spec fn candidate_moves(prev: Moves) -> Seq<Moves> {
    match prev {
        Moves::Up => seq![Moves::Up, Moves::Left, Moves::Right],
        Moves::Down => seq![Moves::Down, Moves::Left, Moves::Right],
        Moves::Left => seq![Moves::Up, Moves::Down, Moves::Left],
        Moves::Right => seq![Moves::Up, Moves::Down, Moves::Right],
        Moves::Nothing => seq![Moves::Up, Moves::Down, Moves::Left, Moves::Right],
    }
}

/// The boards expansion accepts, with the direction that made each: the
/// candidate directions in order, each applied to the parent board, keeping
/// only those whose slide really changed it (a boundary no-op would
/// regenerate the parent itself).
pub open spec fn child_views(s: Seq<u8>, dirs: Seq<Moves>) -> Seq<(Seq<u8>, Moves)>
    decreases dirs.len(),
{
    if dirs.len() <= 0 {
        Seq::empty()
    } else {
        let front = child_views(s, dirs.drop_last());
        let t = slide_tiles(s, dirs.last());
        if t == s {
            front
        } else {
            front.push((t, dirs.last()))
        }
    }
}

/// A generated child agrees with its description: the board and direction
/// given, path cost one past the parent's, and the chosen heuristic's value
/// for its board.
pub open spec fn child_matches(
    n: EightPuzzleNode,
    parent: EightPuzzleNode,
    goal: Seq<u8>,
    h: Heuristic,
    cv: (Seq<u8>, Moves),
) -> bool {
    &&& n.puzzle@ == cv.0
    &&& n.puzzle.wf()
    &&& n.prev_move == cv.1
    &&& n.g == sat_succ(parent.g)
    &&& n.h == heuristic_value(h, cv.0, goal)
}

/// The outcome of expanding `node`: one child per accepted direction, in
/// order, each as `child_matches` describes.
pub open spec fn expansion_ok(
    r: Seq<EightPuzzleNode>,
    node: EightPuzzleNode,
    goal: Seq<u8>,
    h: Heuristic,
) -> bool {
    let cs = child_views(node.puzzle@, candidate_moves(node.prev_move));
    &&& r.len() == cs.len()
    &&& forall|i: int| 0 <= i < r.len() ==> child_matches(#[trigger] r[i], node, goal, h, cs[i])
}

/// The expansion policy in one sentence: a direction is a candidate exactly
/// when it is a real slide and not the direct reversal of the one that
/// produced the node. In particular the root, produced by no slide, expands
/// in all four directions.
pub proof fn lemma_candidates_are_non_reversals(prev: Moves)
    ensures
        forall|m: Moves| #[trigger]
            candidate_moves(prev).contains(m) <==> (m != reverse_of(prev) && m != Moves::Nothing),
{
    let dirs = candidate_moves(prev);
    assert forall|m: Moves|
        #[trigger] dirs.contains(m) <==> (m != reverse_of(prev) && m != Moves::Nothing) by {
        if m != reverse_of(prev) && m != Moves::Nothing {
            match m {
                Moves::Up => assert(dirs[0] == Moves::Up),
                Moves::Down => {
                    if dirs[0] != Moves::Down {
                        assert(dirs[1] == Moves::Down);
                    }
                },
                Moves::Left => {
                    if dirs[1] != Moves::Left {
                        assert(dirs[2] == Moves::Left);
                    }
                },
                Moves::Right => {
                    if dirs[2] != Moves::Right {
                        assert(dirs[3] == Moves::Right);
                    }
                },
                Moves::Nothing => {},
            }
        }
    }
}

/// Every accepted child's board is the slide of the parent's board in the
/// direction recorded with it.
proof fn lemma_child_views_shape(s: Seq<u8>, dirs: Seq<Moves>)
    ensures
        forall|i: int|
            0 <= i < child_views(s, dirs).len() ==> (#[trigger] child_views(s, dirs)[i]).0
                == slide_tiles(s, child_views(s, dirs)[i].1),
    decreases dirs.len(),
{
    if dirs.len() > 0 {
        lemma_child_views_shape(s, dirs.drop_last());
        let front = child_views(s, dirs.drop_last());
        let cs = child_views(s, dirs);
        assert forall|i: int| 0 <= i < cs.len() implies (#[trigger] cs[i]).0 == slide_tiles(
            s,
            cs[i].1,
        ) by {
            if i < front.len() {
                assert(cs[i] == front[i]);
            } else {
                assert(cs[i] == (slide_tiles(s, dirs.last()), dirs.last()));
            }
        }
    }
}

/// If some candidate direction really changes the board, at least one child
/// is accepted.
proof fn lemma_child_views_some(s: Seq<u8>, dirs: Seq<Moves>, i: int)
    requires
        0 <= i < dirs.len(),
        slide_tiles(s, dirs[i]) != s,
    ensures
        child_views(s, dirs).len() >= 1,
    decreases dirs.len(),
{
    if i < dirs.len() - 1 {
        assert(dirs.drop_last()[i] == dirs[i]);
        lemma_child_views_some(s, dirs.drop_last(), i);
    }
}

/// No more children are accepted than directions were tried.
proof fn lemma_child_views_len(s: Seq<u8>, dirs: Seq<Moves>)
    ensures
        child_views(s, dirs).len() <= dirs.len(),
    decreases dirs.len(),
{
    if dirs.len() > 0 {
        lemma_child_views_len(s, dirs.drop_last());
    }
}

/// A candidate direction whose slide really changes the board contributes
/// its own entry to the accepted children.
proof fn lemma_child_views_witness(s: Seq<u8>, dirs: Seq<Moves>, i: int)
    requires
        0 <= i < dirs.len(),
        slide_tiles(s, dirs[i]) != s,
    ensures
        exists|k: int|
            0 <= k < child_views(s, dirs).len() && #[trigger] child_views(s, dirs)[k] == (
            slide_tiles(s, dirs[i]),
            dirs[i],
            ),
    decreases dirs.len(),
{
    let cs = child_views(s, dirs);
    if i == dirs.len() - 1 {
        assert(cs[cs.len() - 1] == (slide_tiles(s, dirs[i]), dirs[i]));
    } else {
        assert(dirs.drop_last()[i] == dirs[i]);
        lemma_child_views_witness(s, dirs.drop_last(), i);
        let front = child_views(s, dirs.drop_last());
        let k = choose|k: int|
            0 <= k < front.len() && #[trigger] front[k] == (slide_tiles(s, dirs[i]), dirs[i]);
        assert(cs[k] == front[k]);
    }
}

/// How many frontier entries carry path cost exactly one: the children of
/// the root, and nothing else, have that cost.
pub open spec fn count_ones(q: Seq<EightPuzzleNode>) -> int
    decreases q.len(),
{
    if q.len() <= 0 {
        0
    } else {
        count_ones(q.drop_last()) + if q.last().g == 1 {
            1int
        } else {
            0int
        }
    }
}

/// The count of cost-one entries lies between zero and the length.
proof fn lemma_count_ones_bounds(q: Seq<EightPuzzleNode>)
    ensures
        0 <= count_ones(q) <= q.len(),
    decreases q.len(),
{
    if q.len() > 0 {
        lemma_count_ones_bounds(q.drop_last());
    }
}

/// The count of cost-one entries adds up over concatenation.
proof fn lemma_count_ones_concat(a: Seq<EightPuzzleNode>, b: Seq<EightPuzzleNode>)
    ensures
        count_ones(a.add(b)) == count_ones(a) + count_ones(b),
    decreases b.len(),
{
    if b.len() == 0 {
        assert(a.add(b) =~= a);
    } else {
        assert(a.add(b).drop_last() =~= a.add(b.drop_last()));
        assert(a.add(b).last() == b.last());
        lemma_count_ones_concat(a, b.drop_last());
    }
}

/// A block with no cost-one entry counts zero.
proof fn lemma_count_ones_none(q: Seq<EightPuzzleNode>)
    requires
        forall|i: int| 0 <= i < q.len() ==> (#[trigger] q[i]).g != 1,
    ensures
        count_ones(q) == 0,
    decreases q.len(),
{
    if q.len() > 0 {
        lemma_count_ones_none(q.drop_last());
    }
}

/// A cost-one entry anywhere makes the count positive.
proof fn lemma_count_ones_some(q: Seq<EightPuzzleNode>, j: int)
    requires
        0 <= j < q.len(),
        q[j].g == 1,
    ensures
        count_ones(q) >= 1,
    decreases q.len(),
{
    lemma_count_ones_bounds(q.drop_last());
    if j < q.len() - 1 {
        lemma_count_ones_some(q.drop_last(), j);
    }
}

/// Removing one entry splits the count into the entry's own contribution and
/// the rest.
proof fn lemma_count_ones_remove(q: Seq<EightPuzzleNode>, i: int)
    requires
        0 <= i < q.len(),
    ensures
        count_ones(q) == count_ones(q.remove(i)) + if q[i].g == 1 {
            1int
        } else {
            0int
        },
{
    let mid = seq![q[i]];
    assert(q =~= q.subrange(0, i).add(mid).add(q.subrange(i + 1, q.len() as int)));
    lemma_count_ones_concat(q.subrange(0, i).add(mid), q.subrange(i + 1, q.len() as int));
    lemma_count_ones_concat(q.subrange(0, i), mid);
    lemma_count_ones_concat(q.subrange(0, i), q.subrange(i + 1, q.len() as int));
    assert(mid.drop_last() =~= Seq::<EightPuzzleNode>::empty());
    assert(count_ones(Seq::<EightPuzzleNode>::empty()) == 0);
    assert(mid.last() == q[i]);
    assert(count_ones(mid) == if q[i].g == 1 { 1int } else { 0int });
}

/// Expansion never comes back empty: wherever the blank sits, the candidate
/// directions keep either both vertical or both horizontal slides, and one
/// of those two is always possible.
pub proof fn lemma_expansion_nonempty(s: Seq<u8>, prev: Moves)
    requires
        tiles_valid(s),
    ensures
        child_views(s, candidate_moves(prev)).len() >= 1,
{
    let b = crate::board::blank_of(s);
    lemma_blank_of(s);
    lemma_move_noop_iff(s);
    let dirs = candidate_moves(prev);
    match prev {
        Moves::Up | Moves::Down => {
            if b % 3 != 0 {
                assert(dirs[1] == Moves::Left);
                lemma_child_views_some(s, dirs, 1);
            } else {
                assert(dirs[2] == Moves::Right);
                lemma_child_views_some(s, dirs, 2);
            }
        },
        Moves::Left | Moves::Right | Moves::Nothing => {
            if b / 3 != 0 {
                assert(dirs[0] == Moves::Up);
                lemma_child_views_some(s, dirs, 0);
            } else {
                assert(dirs[1] == Moves::Down);
                lemma_child_views_some(s, dirs, 1);
            }
        },
    }
}

/// Generates the accepted children of a node: each candidate direction is
/// applied to the node's board, a slide that left the board unchanged is
/// discarded, and every kept child carries path cost one past the node's and
/// the chosen heuristic's estimate for its board against the goal.
#[verifier::loop_isolation(false)]
pub fn expand_node(node: EightPuzzleNode, goal: EightPuzzle, heuristic: Heuristic) -> (r: Vec<
    EightPuzzleNode,
>)
    requires
        node.puzzle.wf(),
    ensures
        expansion_ok(r@, node, goal@, heuristic),
        1 <= r@.len() <= 4,
{
    let mut dirs: Vec<Moves> = Vec::new();
    match node.prev_move {
        Moves::Up => {
            dirs.push(Moves::Up);
            dirs.push(Moves::Left);
            dirs.push(Moves::Right);
        },
        Moves::Down => {
            dirs.push(Moves::Down);
            dirs.push(Moves::Left);
            dirs.push(Moves::Right);
        },
        Moves::Left => {
            dirs.push(Moves::Up);
            dirs.push(Moves::Down);
            dirs.push(Moves::Left);
        },
        Moves::Right => {
            dirs.push(Moves::Up);
            dirs.push(Moves::Down);
            dirs.push(Moves::Right);
        },
        Moves::Nothing => {
            dirs.push(Moves::Up);
            dirs.push(Moves::Down);
            dirs.push(Moves::Left);
            dirs.push(Moves::Right);
        },
    }
    proof {
        assert(dirs@ =~= candidate_moves(node.prev_move));
    }

    let child_g = if node.g == u64::MAX {
        u64::MAX
    } else {
        node.g + 1
    };
    let ghost s = node.puzzle@;

    let mut out: Vec<EightPuzzleNode> = Vec::new();
    let mut i: usize = 0;
    while i < dirs.len()
        invariant
            i <= dirs@.len(),
            out@.len() == child_views(s, dirs@.take(i as int)).len(),
            out@.len() <= i,
            forall|k: int|
                0 <= k < out@.len() ==> child_matches(
                    #[trigger] out@[k],
                    node,
                    goal@,
                    heuristic,
                    child_views(s, dirs@.take(i as int))[k],
                ),
        decreases dirs@.len() - i,
    {
        let m = dirs[i];
        let moved = node.puzzle.slide(m);
        proof {
            assert(dirs@.take(i + 1).drop_last() =~= dirs@.take(i as int));
            assert(dirs@.take(i + 1).last() == dirs@[i as int]);
        }
        if !(moved == node.puzzle) {
            let hv = heuristic.evaluate(moved, goal);
            out.push(
                EightPuzzleNode { puzzle: moved, g: child_g, h: hv, prev_move: m },
            );
        }
        i += 1;
    }
    proof {
        assert(dirs@.take(dirs@.len() as int) =~= dirs@);
        lemma_expansion_nonempty(s, node.prev_move);
    }
    out
}

/// Extracts the frontier entry with the lowest f = g + h, ties broken in
/// favour of the entry inserted leftmost. Returns the entry together with
/// the index it was removed from; the rest of the frontier keeps its order.
pub fn dequeueing_function(nodes: &mut Vec<EightPuzzleNode>) -> (r: (EightPuzzleNode, usize))
    requires
        old(nodes)@.len() > 0,
    ensures
        (r.1 as int) < old(nodes)@.len(),
        r.0 == old(nodes)@[r.1 as int],
        final(nodes)@ == old(nodes)@.remove(r.1 as int),
        forall|i: int| 0 <= i < old(nodes)@.len() ==> fcost(r.0) <= fcost(#[trigger] old(nodes)@[i]),
        forall|i: int| 0 <= i < r.1 as int ==> fcost(#[trigger] old(nodes)@[i]) > fcost(r.0),
{
    let first = nodes[0];
    let mut best_idx: usize = 0;
    let mut best_cost: u128 = first.g as u128 + first.h as u128;
    let mut i: usize = 1;
    #[verifier::loop_isolation(false)]
    while i < nodes.len()
        invariant
            1 <= i <= nodes@.len(),
            (best_idx as int) < i,
            best_cost == fcost(nodes@[best_idx as int]),
            forall|k: int| 0 <= k < i ==> best_cost <= fcost(#[trigger] nodes@[k]),
            forall|k: int| 0 <= k < best_idx as int ==> fcost(#[trigger] nodes@[k]) > best_cost,
        decreases nodes@.len() - i,
    {
        let e = nodes[i];
        let cost = e.g as u128 + e.h as u128;
        if cost < best_cost {
            best_idx = i;
            best_cost = cost;
        }
        i += 1;
    }
    let node = nodes.remove(best_idx);
    (node, best_idx)
}

/// Inserts every accepted child of the dequeued node into the frontier at
/// the position the node was removed from, keeping the children's order;
/// entries before that position and the entries after the inserted block
/// keep their order.
#[verifier::loop_isolation(false)]
pub fn enqueueing_function(
    nodes: &mut Vec<EightPuzzleNode>,
    goal: EightPuzzle,
    node: (EightPuzzleNode, usize),
    heuristic: Heuristic,
)
    requires
        node.1 <= old(nodes)@.len(),
        node.0.puzzle.wf(),
    ensures
        ({
            let cs_len = child_views(node.0.puzzle@, candidate_moves(node.0.prev_move)).len();
            &&& final(nodes)@.len() == old(nodes)@.len() + cs_len
            &&& final(nodes)@.subrange(0, node.1 as int) == old(nodes)@.subrange(0, node.1 as int)
            &&& expansion_ok(
                final(nodes)@.subrange(node.1 as int, node.1 + cs_len),
                node.0,
                goal@,
                heuristic,
            )
            &&& final(nodes)@.subrange(node.1 + cs_len, final(nodes)@.len() as int) == old(
                nodes,
            )@.subrange(node.1 as int, old(nodes)@.len() as int)
        }),
{
    let new_nodes = expand_node(node.0, goal, heuristic);
    let idx = node.1;
    let mut c: usize = 0;
    while c < new_nodes.len()
        invariant
            c <= new_nodes@.len(),
            nodes@ =~= old(nodes)@.subrange(0, idx as int).add(new_nodes@.take(c as int)).add(
                old(nodes)@.subrange(idx as int, old(nodes)@.len() as int),
            ),
        decreases new_nodes@.len() - c,
    {
        let len_now = nodes.len();
        assert(idx + c <= len_now);
        let el = new_nodes[c];
        nodes.insert(idx + c, el);
        proof {
            assert(new_nodes@.take(c + 1) =~= new_nodes@.take(c as int).push(el));
        }
        c += 1;
    }
    proof {
        assert(new_nodes@.take(new_nodes@.len() as int) =~= new_nodes@);
        let cs_len = child_views(node.0.puzzle@, candidate_moves(node.0.prev_move)).len();
        assert(nodes@.subrange(0, idx as int) =~= old(nodes)@.subrange(0, idx as int));
        assert(nodes@.subrange(idx as int, idx + cs_len) =~= new_nodes@);
        assert(nodes@.subrange(idx + cs_len, nodes@.len() as int) =~= old(nodes)@.subrange(
            idx as int,
            old(nodes)@.len() as int,
        ));
    }
}

/// A problem the search is owed to solve outright: the goal board is at
/// most one slide away from the initial board, and the chosen heuristic
/// scores the goal board itself at zero against itself. The second condition
/// always holds for the uniform and misplaced-tile heuristics; for the
/// Manhattan-distance heuristic it holds exactly when the goal is the
/// canonical sorted layout, the one goal its analytic formula measures
/// against.
pub open spec fn one_slide_solvable(problem: Problem, heuristic: Heuristic) -> bool {
    &&& exists|m: Moves| slide_tiles(problem.initial_state@, m) == problem.goal_state@
    &&& heuristic_value(heuristic, problem.goal_state@, problem.goal_state@) == 0
}

/// Runs best-first search from the problem's initial board until the goal
/// board is dequeued. The root expands in all four directions; each dequeued
/// node is expanded in every direction but the reversal of the one that made
/// it, and children whose slide was a boundary no-op are discarded — the
/// sole duplicate-avoidance rule; there is no closed set, so states can be
/// regenerated and re-expanded arbitrarily often. Expansion always accepts
/// at least one child, so the frontier never empties: on an unsolvable input
/// the loop would run forever, a known limitation of the design. So that
/// every call still provably returns, the loop gives up with `None` once the
/// expansion counter tops out at `u64::MAX`, a budget no feasible run
/// reaches; any earlier return carries the goal board itself. When the
/// initial board already equals the goal, the root is dequeued at once and
/// nothing is expanded. Success is owed on the [`one_slide_solvable`]
/// problems: there the goal enters the frontier when the root is expanded,
/// with the lowest f-cost of any entry ever enqueued, and is dequeued within
/// four expansions, far below the budget. The returned counters belong to
/// this run alone.
#[verifier::loop_isolation(false)]
#[verifier::rlimit(100)]
pub fn search(problem: Problem, heuristic: Heuristic) -> (r: (Option<EightPuzzle>, SearchStats))
    requires
        problem.initial_state.wf(),
        problem.goal_state.wf(),
    ensures
        match r.0 {
            Some(found) => {
                &&& found.wf()
                &&& found@ == problem.goal_state@
                &&& reachable(problem.initial_state@, found@)
            },
            None => r.1.expansions == u64::MAX,
        },
        one_slide_solvable(problem, heuristic) ==> r.0 is Some,
        problem.initial_state@ == problem.goal_state@ ==> r.0 is Some && r.1.expansions == 0
            && r.1.peak_frontier_size == 1,
        r.1.peak_frontier_size >= 1,
{
    let root_h = heuristic.evaluate(problem.initial_state, problem.goal_state);
    let root = EightPuzzleNode {
        puzzle: problem.initial_state,
        g: 0,
        h: root_h,
        prev_move: Moves::Nothing,
    };

    let mut queue: Vec<EightPuzzleNode> = Vec::new();
    queue.push(root);
    let mut stats = SearchStats { expansions: 0, peak_frontier_size: 0 };

    proof {
        assert(apply_slides(problem.initial_state@, Seq::<Moves>::empty())
            == problem.initial_state@);
    }

    loop
        invariant
            queue@.len() >= 1,
            forall|i: int| 0 <= i < queue@.len() ==> (#[trigger] queue@[i]).puzzle.wf(),
            forall|i: int|
                0 <= i < queue@.len() ==> reachable(
                    problem.initial_state@,
                    (#[trigger] queue@[i]).puzzle@,
                ),
            problem.initial_state@ == problem.goal_state@ ==> stats.expansions == 0
                && stats.peak_frontier_size == 0,
            stats.expansions == 0 ==> {
                &&& queue@.len() == 1
                &&& queue@[0].puzzle@ == problem.initial_state@
                &&& queue@[0].g == 0
                &&& queue@[0].prev_move == Moves::Nothing
            },
            one_slide_solvable(problem, heuristic) && stats.expansions >= 1 ==> {
                &&& stats.expansions <= 4
                &&& stats.expansions + count_ones(queue@) <= 5
                &&& exists|j: int|
                    0 <= j < queue@.len() && (#[trigger] queue@[j]).g == 1 && queue@[j].h == 0
                        && queue@[j].puzzle@ == problem.goal_state@
                &&& forall|i: int| 0 <= i < queue@.len() ==> (#[trigger] queue@[i]).g >= 1
            },
        decreases u64::MAX - stats.expansions,
    {
        let queue_length = queue.len();
        if queue_length > stats.peak_frontier_size {
            stats.peak_frontier_size = queue_length;
        }

        if queue.is_empty() {
            return (None, stats);
        }

        if stats.expansions == u64::MAX {
            return (None, stats);
        }

        let ghost q0 = queue@;
        let (node, idx) = dequeueing_function(&mut queue);

        if node.puzzle == problem.goal_state {
            return (Some(node.puzzle), stats);
        }

        proof {
            if problem.initial_state@ == problem.goal_state@ {
                assert(node == q0[idx as int]);
                assert(node.puzzle@ == problem.goal_state@);
                assert(false);
            }
            assert forall|j: int| 0 <= j < queue@.len() implies (#[trigger] queue@[j]).puzzle.wf()
                && reachable(problem.initial_state@, queue@[j].puzzle@) by {
                if j < idx as int {
                    assert(queue@[j] == q0[j]);
                } else {
                    assert(queue@[j] == q0[j + 1]);
                }
            }
        }

        let ghost exp0 = stats.expansions;
        stats.expansions = stats.expansions + 1;

        let ghost q1 = queue@;
        enqueueing_function(&mut queue, problem.goal_state, (node, idx), heuristic);
        proof {
            lemma_expansion_nonempty(node.puzzle@, node.prev_move);
            lemma_child_views_shape(node.puzzle@, candidate_moves(node.prev_move));
            let cs = child_views(node.puzzle@, candidate_moves(node.prev_move));
            let cs_len = cs.len();
            assert(queue@.len() == q1.len() + cs_len);
            let ms0 = choose|ms: Seq<Moves>|
                apply_slides(problem.initial_state@, ms) == node.puzzle@;
            assert(apply_slides(problem.initial_state@, ms0) == node.puzzle@);
            assert forall|j: int| 0 <= j < queue@.len() implies (#[trigger] queue@[j]).puzzle.wf()
                && reachable(problem.initial_state@, queue@[j].puzzle@) by {
                if j < idx as int {
                    assert(queue@.subrange(0, idx as int)[j] == queue@[j]);
                    assert(q1.subrange(0, idx as int)[j] == q1[j]);
                } else if j < idx + cs_len {
                    assert(queue@.subrange(idx as int, idx + cs_len)[j - idx] == queue@[j]);
                    let d = cs[j - idx].1;
                    assert(queue@[j].puzzle@ == slide_tiles(node.puzzle@, d));
                    lemma_apply_slides_snoc(problem.initial_state@, ms0, d);
                    assert(apply_slides(problem.initial_state@, ms0.push(d)) == queue@[j].puzzle@);
                } else {
                    assert(queue@.subrange(idx + cs_len, queue@.len() as int)[j - idx - cs_len]
                        == queue@[j]);
                    assert(q1.subrange(idx as int, q1.len() as int)[j - idx - cs_len] == q1[j
                        - cs_len]);
                }
            }
            if one_slide_solvable(problem, heuristic) {
                let init_v = problem.initial_state@;
                let goal_v = problem.goal_state@;
                let mid = queue@.subrange(idx as int, idx + cs_len);
                let pre = queue@.subrange(0, idx as int);
                let suf = queue@.subrange(idx + cs_len, queue@.len() as int);
                assert(queue@ =~= pre.add(mid).add(suf));
                if exp0 == 0 {
                    // The root was just expanded: the whole frontier is its
                    // children, one of which carries the goal board.
                    assert(idx == 0);
                    assert(node == q0[0]);
                    assert(node.puzzle@ == init_v && node.g == 0 && node.prev_move
                        == Moves::Nothing);
                    assert(init_v != goal_v);
                    let m = choose|m: Moves| slide_tiles(init_v, m) == goal_v;
                    assert(slide_tiles(init_v, m) == goal_v);
                    assert(m != Moves::Nothing);
                    let dirs = candidate_moves(Moves::Nothing);
                    let mi: int = match m {
                        Moves::Up => 0,
                        Moves::Down => 1,
                        Moves::Left => 2,
                        Moves::Right => 3,
                        Moves::Nothing => 0,
                    };
                    assert(dirs[mi] == m);
                    lemma_child_views_witness(init_v, dirs, mi);
                    let k = choose|k: int|
                        0 <= k < child_views(init_v, dirs).len() && #[trigger] child_views(
                            init_v,
                            dirs,
                        )[k] == (slide_tiles(init_v, dirs[mi]), dirs[mi]);
                    assert(cs[k] == (goal_v, m));
                    assert(queue@.subrange(0, cs_len as int)[k] == queue@[k]);
                    assert(child_matches(queue@[k], node, goal_v, heuristic, cs[k]));
                    assert(queue@[k].puzzle@ == goal_v && queue@[k].g == 1 && queue@[k].h == 0);
                    assert forall|i2: int| 0 <= i2 < queue@.len() implies (
                    #[trigger] queue@[i2]).g >= 1 by {
                        assert(queue@.subrange(0, cs_len as int)[i2] == queue@[i2]);
                        assert(child_matches(queue@[i2], node, goal_v, heuristic, cs[i2]));
                    }
                    lemma_count_ones_bounds(queue@);
                    lemma_child_views_len(init_v, dirs);
                    assert(stats.expansions + count_ones(queue@) <= 5);
                } else {
                    // A root child of cost one was expanded; the goal child
                    // survives, and the cost-one entries shrink by one.
                    let j = choose|j: int|
                        0 <= j < q0.len() && (#[trigger] q0[j]).g == 1 && q0[j].h == 0
                            && q0[j].puzzle@ == goal_v;
                    assert(fcost(node) <= fcost(q0[j]));
                    assert(node.g >= 1);
                    assert(fcost(node) == 1 && node.g == 1);
                    assert(j != idx as int);
                    let j1: int = if j < idx as int {
                        j
                    } else {
                        j - 1
                    };
                    assert(q1[j1] == q0[j]);
                    assert forall|i2: int| 0 <= i2 < cs_len implies (#[trigger] mid[i2]).g == 2 by {
                        assert(child_matches(mid[i2], node, goal_v, heuristic, cs[i2]));
                    }
                    lemma_count_ones_remove(q0, idx as int);
                    lemma_count_ones_concat(pre.add(mid), suf);
                    lemma_count_ones_concat(pre, mid);
                    lemma_count_ones_none(mid);
                    lemma_count_ones_concat(pre, suf);
                    assert(pre =~= q1.subrange(0, idx as int));
                    assert(suf =~= q1.subrange(idx as int, q1.len() as int));
                    assert(q1 =~= pre.add(suf));
                    assert(count_ones(queue@) == count_ones(q1));
                    assert(count_ones(queue@) == count_ones(q0) - 1);
                    assert(stats.expansions + count_ones(queue@) <= 5);
                    let j2: int = if j1 < idx as int {
                        j1
                    } else {
                        j1 + cs_len
                    };
                    if j1 < idx as int {
                        assert(queue@[j2] == pre[j1]);
                        assert(pre[j1] == q1[j1]);
                    } else {
                        assert(queue@[j2] == suf[j1 - idx]);
                        assert(suf[j1 - idx] == q1[j1]);
                    }
                    assert(queue@[j2].g == 1 && queue@[j2].h == 0 && queue@[j2].puzzle@ == goal_v);
                    lemma_count_ones_some(queue@, j2);
                    assert(stats.expansions <= 4);
                    assert forall|i2: int| 0 <= i2 < queue@.len() implies (
                    #[trigger] queue@[i2]).g >= 1 by {
                        if i2 < idx as int {
                            assert(queue@[i2] == q1[i2]);
                            assert(q1[i2] == q0[i2]);
                        } else if i2 < idx + cs_len {
                            assert(mid[i2 - idx] == queue@[i2]);
                        } else {
                            assert(suf[i2 - idx - cs_len] == queue@[i2]);
                            assert(q1[i2 - cs_len] == q0[i2 - cs_len + 1]);
                        }
                    }
                }
            }
        }
    }
}

} // verus!
