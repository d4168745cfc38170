//! The 3x3 sliding-tile board: representation, well-formedness, and the four
//! slide moves. A move that would push the blank past the boundary is a no-op
//! returning the board unchanged, not an error.

use vstd::prelude::*;

verus! {

/// The blank cell is stored as tile value 0; real tiles are 1 through 8.
pub const BLANK: u8 = 0;

/// Some cell of the board holds the value `v`.
pub open spec fn has_value(s: Seq<u8>, v: u8) -> bool {
    exists|k: int| 0 <= k < 9 && s[k] == v
}

/// A sequence of nine tile values is a well-formed board exactly when it has
/// every value 0 through 8 once: all entries below 9, every such value
/// present, and no two entries equal.
pub open spec fn tiles_valid(s: Seq<u8>) -> bool {
    &&& s.len() == 9
    &&& forall|k: int| 0 <= k < 9 ==> s[k] < 9
    &&& forall|v: u8| v < 9 ==> #[trigger] has_value(s, v)
    &&& forall|k1: int, k2: int| 0 <= k1 < k2 < 9 ==> s[k1] != s[k2]
}

/// The flat index of the blank cell (row-major, row = index / 3,
/// column = index % 3). Well defined whenever the board is well formed.
pub open spec fn blank_of(s: Seq<u8>) -> int {
    choose|k: int| 0 <= k < 9 && s[k] == BLANK
}

/// The board with the entries at `i` and `j` exchanged.
pub open spec fn swap_tiles(s: Seq<u8>, i: int, j: int) -> Seq<u8> {
    s.update(i, s[j]).update(j, s[i])
}

/// Sliding the blank one row up, or the board itself if the blank is on the
/// top row.
pub open spec fn up_tiles(s: Seq<u8>) -> Seq<u8> {
    let b = blank_of(s);
    if b / 3 == 0 {
        s
    } else {
        swap_tiles(s, b, b - 3)
    }
}

/// Sliding the blank one row down, or the board itself if the blank is on the
/// bottom row.
pub open spec fn down_tiles(s: Seq<u8>) -> Seq<u8> {
    let b = blank_of(s);
    if b / 3 == 2 {
        s
    } else {
        swap_tiles(s, b, b + 3)
    }
}

/// Sliding the blank one column left, or the board itself if the blank is on
/// the leftmost column.
pub open spec fn left_tiles(s: Seq<u8>) -> Seq<u8> {
    let b = blank_of(s);
    if b % 3 == 0 {
        s
    } else {
        swap_tiles(s, b, b - 1)
    }
}

/// Sliding the blank one column right, or the board itself if the blank is on
/// the rightmost column.
pub open spec fn right_tiles(s: Seq<u8>) -> Seq<u8> {
    let b = blank_of(s);
    if b % 3 == 2 {
        s
    } else {
        swap_tiles(s, b, b + 1)
    }
}

/// The direction of a slide, or `Nothing` for the root of a search, which no
/// slide produced.
#[derive(Clone, Copy, Debug, PartialEq, Eq, Structural)]
pub enum Moves {
    Up,
    Down,
    Left,
    Right,
    Nothing,
}

/// The board after sliding the blank in the given direction; `Nothing`
/// leaves the board as it is.
pub open spec fn slide_tiles(s: Seq<u8>, m: Moves) -> Seq<u8> {
    match m {
        Moves::Up => up_tiles(s),
        Moves::Down => down_tiles(s),
        Moves::Left => left_tiles(s),
        Moves::Right => right_tiles(s),
        Moves::Nothing => s,
    }
}

/// The board after applying a whole sequence of slides in order.
pub open spec fn apply_slides(s: Seq<u8>, ms: Seq<Moves>) -> Seq<u8>
    decreases ms.len(),
{
    if ms.len() <= 0 {
        s
    } else {
        apply_slides(slide_tiles(s, ms[0]), ms.subrange(1, ms.len() as int))
    }
}

/// A board counts as reachable from another when some sequence of slides
/// takes the one to the other; the empty sequence makes every board
/// reachable from itself.
pub open spec fn reachable(from: Seq<u8>, to: Seq<u8>) -> bool {
    exists|ms: Seq<Moves>| apply_slides(from, ms) == to
}

/// Appending one slide to a sequence applies it after the rest.
pub proof fn lemma_apply_slides_snoc(s: Seq<u8>, ms: Seq<Moves>, m: Moves)
    ensures
        apply_slides(s, ms.push(m)) == slide_tiles(apply_slides(s, ms), m),
    decreases ms.len(),
{
    if ms.len() == 0 {
        assert(ms.push(m)[0] == m);
        assert(ms.push(m).subrange(1, 1) =~= Seq::<Moves>::empty());
        assert(apply_slides(s, ms.push(m)) == apply_slides(
            slide_tiles(s, m),
            ms.push(m).subrange(1, 1),
        ));
        assert(apply_slides(slide_tiles(s, m), Seq::<Moves>::empty()) == slide_tiles(s, m));
        assert(apply_slides(s, ms) == s);
    } else {
        let tail = ms.subrange(1, ms.len() as int);
        assert(ms.push(m)[0] == ms[0]);
        assert(ms.push(m).subrange(1, ms.len() as int + 1) =~= tail.push(m));
        assert(apply_slides(s, ms.push(m)) == apply_slides(slide_tiles(s, ms[0]), tail.push(m)));
        lemma_apply_slides_snoc(slide_tiles(s, ms[0]), tail, m);
        assert(apply_slides(s, ms) == apply_slides(slide_tiles(s, ms[0]), tail));
    }
}

/// In a well-formed board the blank exists and is the only blank cell.
pub proof fn lemma_blank_of(s: Seq<u8>)
    requires
        tiles_valid(s),
    ensures
        0 <= blank_of(s) < 9,
        s[blank_of(s)] == BLANK,
        forall|k: int| 0 <= k < 9 && s[k] == BLANK ==> k == blank_of(s),
{
    assert(has_value(s, BLANK));
    let b = blank_of(s);
    assert(0 <= b < 9 && s[b] == BLANK);
    assert forall|k: int| 0 <= k < 9 && s[k] == BLANK implies k == b by {
        if k != b {
            if k < b {
                assert(s[k] != s[b]);
            } else {
                assert(s[b] != s[k]);
            }
        }
    }
}

/// Exchanging two entries of a well-formed board leaves it well formed.
pub proof fn lemma_swap_valid(s: Seq<u8>, i: int, j: int)
    requires
        tiles_valid(s),
        0 <= i < 9,
        0 <= j < 9,
    ensures
        tiles_valid(swap_tiles(s, i, j)),
{
    let t = swap_tiles(s, i, j);
    assert(t.len() == 9);
    assert forall|v: u8| v < 9 implies #[trigger] has_value(t, v) by {
        assert(has_value(s, v));
        let k0 = choose|k: int| 0 <= k < 9 && s[k] == v;
        assert(0 <= k0 < 9 && s[k0] == v);
        if k0 == i {
            assert(t[j] == v);
        } else if k0 == j {
            assert(t[i] == v);
        } else {
            assert(t[k0] == v);
        }
    }
}

/// Sliding the blank somewhere it can go leaves a well-formed board.
pub proof fn lemma_moves_valid(s: Seq<u8>)
    requires
        tiles_valid(s),
    ensures
        tiles_valid(up_tiles(s)),
        tiles_valid(down_tiles(s)),
        tiles_valid(left_tiles(s)),
        tiles_valid(right_tiles(s)),
{
    let b = blank_of(s);
    lemma_blank_of(s);
    if b / 3 != 0 {
        lemma_swap_valid(s, b, b - 3);
    }
    if b / 3 != 2 {
        lemma_swap_valid(s, b, b + 3);
    }
    if b % 3 != 0 {
        lemma_swap_valid(s, b, b - 1);
    }
    if b % 3 != 2 {
        lemma_swap_valid(s, b, b + 1);
    }
}

/// A slide is a no-op exactly when the blank already sits on the boundary in
/// that direction; away from the boundary it really changes the board.
pub proof fn lemma_move_noop_iff(s: Seq<u8>)
    requires
        tiles_valid(s),
    ensures
        (up_tiles(s) == s) <==> (blank_of(s) / 3 == 0),
        (down_tiles(s) == s) <==> (blank_of(s) / 3 == 2),
        (left_tiles(s) == s) <==> (blank_of(s) % 3 == 0),
        (right_tiles(s) == s) <==> (blank_of(s) % 3 == 2),
{
    let b = blank_of(s);
    lemma_blank_of(s);
    if b / 3 != 0 {
        assert(up_tiles(s)[b] == s[b - 3]);
        assert(s[b - 3] != BLANK);
        assert(up_tiles(s) != s);
    }
    if b / 3 != 2 {
        assert(down_tiles(s)[b] == s[b + 3]);
        assert(s[b + 3] != BLANK);
        assert(down_tiles(s) != s);
    }
    if b % 3 != 0 {
        assert(left_tiles(s)[b] == s[b - 1]);
        assert(s[b - 1] != BLANK);
        assert(left_tiles(s) != s);
    }
    if b % 3 != 2 {
        assert(right_tiles(s)[b] == s[b + 1]);
        assert(s[b + 1] != BLANK);
        assert(right_tiles(s) != s);
    }
}

/// Sliding up after sliding down restores the board, provided the blank did
/// not start on the bottom row; if it did, the downward slide itself is
/// already a no-op, and the inverse law fails there (the upward slide then
/// moves the blank).
pub proof fn lemma_up_down_inverse(s: Seq<u8>)
    requires
        tiles_valid(s),
    ensures
        blank_of(s) / 3 != 2 ==> up_tiles(down_tiles(s)) == s,
        blank_of(s) / 3 == 2 ==> down_tiles(s) == s,
{
    let b = blank_of(s);
    lemma_blank_of(s);
    if b / 3 != 2 {
        let d = down_tiles(s);
        lemma_swap_valid(s, b, b + 3);
        lemma_blank_of(d);
        assert(d[b + 3] == BLANK);
        assert(blank_of(d) == b + 3);
        assert(blank_of(d) / 3 != 0);
        assert(up_tiles(d) =~= s);
    }
}

/// A 3x3 sliding-tile board. The nine cells are stored row-major; the blank
/// is the cell holding [`BLANK`]. Its view is the flat sequence of cells.
#[derive(Clone, Copy, Debug)]
pub struct EightPuzzle {
    tiles: [u8; 9],
}

impl View for EightPuzzle {
    type V = Seq<u8>;

    closed spec fn view(&self) -> Seq<u8> {
        self.tiles@
    }
}

impl PartialEq for EightPuzzle {
    fn eq(&self, other: &EightPuzzle) -> (r: bool) {
        let mut k: usize = 0;
        while k < 9
            invariant
                k <= 9,
                forall|i: int| 0 <= i < k ==> self@[i] == other@[i],
            decreases 9 - k,
        {
            if self.tiles[k] != other.tiles[k] {
                return false;
            }
            k += 1;
        }
        proof {
            assert(self@ =~= other@);
        }
        true
    }
}

impl vstd::std_specs::cmp::PartialEqSpecImpl for EightPuzzle {
    open spec fn obeys_eq_spec() -> bool {
        true
    }

    open spec fn eq_spec(&self, other: &EightPuzzle) -> bool {
        self@ == other@
    }
}

impl EightPuzzle {
    /// Well-formedness: the cells are a permutation of the values 0 through 8,
    /// so there is exactly one blank.
    pub open spec fn wf(self) -> bool {
        tiles_valid(self@)
    }

    /// The row of the blank cell.
    pub open spec fn blank_row(self) -> int {
        blank_of(self@) / 3
    }

    /// The column of the blank cell.
    pub open spec fn blank_col(self) -> int {
        blank_of(self@) % 3
    }

    /// Builds a board from three rows of raw values, with 0 standing for the
    /// blank. Returns the board exactly when the nine values are a
    /// permutation of 0 through 8; any duplicate, missing, or out-of-range
    /// value is rejected.
    #[verifier::loop_isolation(false)]
    pub fn try_from_rows(rows: [[u8; 3]; 3]) -> (r: Option<EightPuzzle>)
        ensures
            match r {
                Some(b) => {
                    &&& b.wf()
                    &&& forall|i: int, j: int|
                        0 <= i < 3 && 0 <= j < 3 ==> b@[3 * i + j] == rows@[i]@[j]
                },
                None => !tiles_valid(
                    Seq::new(9, |k: int| rows@[k / 3]@[k % 3]),
                ),
            },
    {
        let ghost flat: Seq<u8> = Seq::new(9, |k: int| rows@[k / 3]@[k % 3]);
        let mut tiles: [u8; 9] = [0; 9];
        let mut k: usize = 0;
        while k < 9
            invariant
                k <= 9,
                forall|i: int| 0 <= i < k ==> tiles@[i] == flat[i],
            decreases 9 - k,
        {
            tiles[k] = rows[k / 3][k % 3];
            k += 1;
        }
        proof {
            assert(tiles@ =~= flat);
        }

        // Every cell must hold a value below 9.
        let mut k: usize = 0;
        while k < 9
            invariant
                k <= 9,
                tiles@ == flat,
                forall|i: int| 0 <= i < k ==> tiles@[i] < 9,
            decreases 9 - k,
        {
            if tiles[k] >= 9 {
                return None;
            }
            k += 1;
        }

        // Every value 0 through 8 must be present.
        let mut v: u8 = 0;
        while v < 9
            invariant
                v <= 9,
                tiles@ == flat,
                forall|w: u8| w < v ==> #[trigger] has_value(tiles@, w),
            decreases 9 - v,
        {
            let mut found = false;
            let mut k: usize = 0;
            while k < 9
                invariant
                    k <= 9,
                    tiles@ == flat,
                    found <==> exists|i: int| 0 <= i < k && tiles@[i] == v,
                decreases 9 - k,
            {
                if tiles[k] == v {
                    found = true;
                }
                k += 1;
            }
            if !found {
                proof {
                    assert(!has_value(flat, v));
                }
                return None;
            }
            v += 1;
        }

        // No two cells may hold the same value.
        let mut i: usize = 0;
        while i < 9
            invariant
                i <= 9,
                tiles@ == flat,
                forall|a: int, b: int| 0 <= a < b < 9 && a < i ==> tiles@[a] != tiles@[b],
            decreases 9 - i,
        {
            let mut j: usize = i + 1;
            while j < 9
                invariant
                    i < 9,
                    i + 1 <= j <= 9,
                    tiles@ == flat,
                    forall|b: int| i < b < j ==> tiles@[i as int] != tiles@[b],
                decreases 9 - j,
            {
                if tiles[i] == tiles[j] {
                    return None;
                }
                j += 1;
            }
            i += 1;
        }

        let board = EightPuzzle { tiles };
        Some(board)
    }

    /// The tile value at the given row and column.
    pub fn get(&self, row: usize, col: usize) -> (v: u8)
        requires
            row < 3,
            col < 3,
        ensures
            v == self@[3 * row + col],
    {
        self.tiles[3 * row + col]
    }

    /// The tile value at the given flat (row-major) index.
    pub fn cell(&self, k: usize) -> (v: u8)
        requires
            k < 9,
        ensures
            v == self@[k as int],
    {
        self.tiles[k]
    }

    /// Applies the slide for the given direction; `Nothing` returns the
    /// board unchanged.
    pub fn slide(self, m: Moves) -> (r: EightPuzzle)
        requires
            self.wf(),
        ensures
            r@ == slide_tiles(self@, m),
            r.wf(),
    {
        match m {
            Moves::Up => self.move_up(),
            Moves::Down => self.move_down(),
            Moves::Left => self.move_left(),
            Moves::Right => self.move_right(),
            Moves::Nothing => self,
        }
    }

    /// The flat index of the blank cell, found by scanning the cells.
    fn find_blank(&self) -> (idx: usize)
        requires
            self.wf(),
        ensures
            idx < 9,
            idx as int == blank_of(self@),
    {
        let mut k: usize = 0;
        while k < 9
            invariant
                self.wf(),
                k <= 9,
                forall|i: int| 0 <= i < k ==> self@[i] != BLANK,
            decreases 9 - k,
        {
            if self.tiles[k] == BLANK {
                proof {
                    lemma_blank_of(self@);
                }
                return k;
            }
            k += 1;
        }
        proof {
            lemma_blank_of(self@);
            assert(false);
        }
        0
    }

    /// The board after exchanging the cells at flat indices `i` and `j`.
    fn swap(&self, i: usize, j: usize) -> (r: EightPuzzle)
        requires
            i < 9,
            j < 9,
        ensures
            r@ == swap_tiles(self@, i as int, j as int),
    {
        let mut tiles = self.tiles;
        let vi = tiles[i];
        let vj = tiles[j];
        tiles[i] = vj;
        tiles[j] = vi;
        let r = EightPuzzle { tiles };
        proof {
            assert(r@ =~= swap_tiles(self@, i as int, j as int));
        }
        r
    }

    /// Slides the blank one row up by swapping it with the tile above it, or
    /// returns the board unchanged if the blank is already on the top row.
    pub fn move_up(self) -> (r: EightPuzzle)
        requires
            self.wf(),
        ensures
            r@ == up_tiles(self@),
            r.wf(),
    {
        let idx = self.find_blank();
        if idx / 3 == 0 {
            self
        } else {
            proof {
                lemma_swap_valid(self@, idx as int, idx as int - 3);
            }
            self.swap(idx, idx - 3)
        }
    }

    /// Slides the blank one row down by swapping it with the tile below it,
    /// or returns the board unchanged if the blank is already on the bottom
    /// row.
    pub fn move_down(self) -> (r: EightPuzzle)
        requires
            self.wf(),
        ensures
            r@ == down_tiles(self@),
            r.wf(),
    {
        let idx = self.find_blank();
        if idx / 3 == 2 {
            self
        } else {
            proof {
                lemma_swap_valid(self@, idx as int, idx as int + 3);
            }
            self.swap(idx, idx + 3)
        }
    }

    /// Slides the blank one column left by swapping it with the tile on its
    /// left, or returns the board unchanged if the blank is already on the
    /// leftmost column.
    pub fn move_left(self) -> (r: EightPuzzle)
        requires
            self.wf(),
        ensures
            r@ == left_tiles(self@),
            r.wf(),
    {
        let idx = self.find_blank();
        if idx % 3 == 0 {
            self
        } else {
            proof {
                lemma_swap_valid(self@, idx as int, idx as int - 1);
            }
            self.swap(idx, idx - 1)
        }
    }

    /// Slides the blank one column right by swapping it with the tile on its
    /// right, or returns the board unchanged if the blank is already on the
    /// rightmost column.
    pub fn move_right(self) -> (r: EightPuzzle)
        requires
            self.wf(),
        ensures
            r@ == right_tiles(self@),
            r.wf(),
    {
        let idx = self.find_blank();
        if idx % 3 == 2 {
            self
        } else {
            proof {
                lemma_swap_valid(self@, idx as int, idx as int + 1);
            }
            self.swap(idx, idx + 1)
        }
    }
}

} // verus!
