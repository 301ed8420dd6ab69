//! The board: grid dimensions, mine placement, revealed and flagged cells,
//! and the terminal `lost` flag, together with the spec-level model that the
//! contracts of every operation are stated over.
use vstd::prelude::*;

use crate::rng::random_range;

verus! {

/// A grid coordinate, zero-based `(x, y)`.
pub type Position = (usize, usize);

/// Outcome of opening a cell that changed the board: a mine was hit, or the
/// cell was safe and carries its adjacent mine count.
#[derive(Debug, PartialEq, Eq, Structural, Clone, Copy)]
pub enum OpenResult {
    Mine,
    NoMine(u8),
}

/// A rejected request: an impossible board configuration at construction, or
/// a coordinate outside the grid.
#[derive(Debug, PartialEq, Eq, Structural, Clone, Copy)]
pub enum GameError {
    InvalidConfiguration,
    OutOfBounds,
}

/// A position as mathematical integers, for contracts.
pub open spec fn pos_int(p: Position) -> (int, int) {
    (p.0 as int, p.1 as int)
}

/// Two distinct cells within Chebyshev distance 1 of each other.
pub open spec fn is_neighbor(p: (int, int), q: (int, int)) -> bool {
    &&& p != q
    &&& -1 <= p.0 - q.0 <= 1
    &&& -1 <= p.1 - q.1 <= 1
}

/// Number of `true` entries of a sequence of cell marks.
pub open spec fn count_true(s: Seq<bool>) -> int
    decreases s.len(),
{
    if s.len() == 0 {
        0
    } else {
        count_true(s.drop_last()) + if s.last() {
            1int
        } else {
            0int
        }
    }
}

#[derive(Debug)]
pub struct Minesweeper {
    width: usize,
    height: usize,
    mines: Vec<bool>,
    open_field: Vec<bool>,
    flags: Vec<bool>,
    lost: bool,
}

impl Minesweeper {
    pub closed spec fn spec_width(self) -> int {
        self.width as int
    }

    pub closed spec fn spec_height(self) -> int {
        self.height as int
    }

    pub closed spec fn spec_lost(self) -> bool {
        self.lost
    }

    pub open spec fn area(self) -> int {
        self.spec_width() * self.spec_height()
    }

    pub open spec fn in_bounds(self, p: (int, int)) -> bool {
        &&& 0 <= p.0 < self.spec_width()
        &&& 0 <= p.1 < self.spec_height()
    }

    /// Row-major index of a cell.
    pub open spec fn pos_index(self, p: (int, int)) -> int {
        p.1 * self.spec_width() + p.0
    }

    pub closed spec fn mine_at(self, p: (int, int)) -> bool {
        self.mines@[self.pos_index(p)]
    }

    pub closed spec fn revealed_at(self, p: (int, int)) -> bool {
        self.open_field@[self.pos_index(p)]
    }

    pub closed spec fn flagged_at(self, p: (int, int)) -> bool {
        self.flags@[self.pos_index(p)]
    }

    /// Total number of mines on the board.
    pub closed spec fn spec_mine_count(self) -> int {
        count_true(self.mines@)
    }

    /// Number of revealed cells.
    pub closed spec fn spec_revealed_count(self) -> int {
        count_true(self.open_field@)
    }

    /// A well-formed board's dimensions are machine integers.
    pub proof fn lemma_dims(self)
        requires
            self.well_formed(),
        ensures
            0 < self.spec_width() <= usize::MAX,
            0 < self.spec_height() <= usize::MAX,
            self.spec_width() * self.spec_height() <= usize::MAX,
    {
    }

    /// The number of revealed cells never exceeds the area.
    pub proof fn lemma_revealed_count_bounds(self)
        requires
            self.well_formed(),
        ensures
            0 <= self.spec_revealed_count() <= self.area(),
    {
        lemma_count_true_bounds(self.open_field@);
    }

    /// 1 if the cell lies on the grid, else 0.
    pub open spec fn bounds_ind(self, q: (int, int)) -> int {
        if self.in_bounds(q) {
            1
        } else {
            0
        }
    }

    /// How many of the up-to-8 surrounding cells lie on the grid.
    pub open spec fn neighbor_count(self, p: (int, int)) -> int {
        self.bounds_ind((p.0 - 1, p.1 - 1)) + self.bounds_ind((p.0, p.1 - 1)) + self.bounds_ind(
            (p.0 + 1, p.1 - 1),
        ) + self.bounds_ind((p.0 - 1, p.1)) + self.bounds_ind((p.0 + 1, p.1)) + self.bounds_ind(
            (p.0 - 1, p.1 + 1),
        ) + self.bounds_ind((p.0, p.1 + 1)) + self.bounds_ind((p.0 + 1, p.1 + 1))
    }

    /// 1 if the cell lies on the grid and holds a mine, else 0.
    pub open spec fn mine_ind(self, q: (int, int)) -> int {
        if self.in_bounds(q) && self.mine_at(q) {
            1
        } else {
            0
        }
    }

    /// Number of mines among the neighbors of `p`.
    pub open spec fn adj_mine_count(self, p: (int, int)) -> int {
        self.mine_ind((p.0 - 1, p.1 - 1)) + self.mine_ind((p.0, p.1 - 1)) + self.mine_ind(
            (p.0 + 1, p.1 - 1),
        ) + self.mine_ind((p.0 - 1, p.1)) + self.mine_ind((p.0 + 1, p.1)) + self.mine_ind(
            (p.0 - 1, p.1 + 1),
        ) + self.mine_ind((p.0, p.1 + 1)) + self.mine_ind((p.0 + 1, p.1 + 1))
    }

    /// 1 if the cell lies on the grid and is flagged, else 0.
    pub open spec fn flag_ind(self, q: (int, int)) -> int {
        if self.in_bounds(q) && self.flagged_at(q) {
            1
        } else {
            0
        }
    }

    /// Number of flags among the neighbors of `p`.
    pub open spec fn adj_flag_count(self, p: (int, int)) -> int {
        self.flag_ind((p.0 - 1, p.1 - 1)) + self.flag_ind((p.0, p.1 - 1)) + self.flag_ind(
            (p.0 + 1, p.1 - 1),
        ) + self.flag_ind((p.0 - 1, p.1)) + self.flag_ind((p.0 + 1, p.1)) + self.flag_ind(
            (p.0 - 1, p.1 + 1),
        ) + self.flag_ind((p.0, p.1 + 1)) + self.flag_ind((p.0 + 1, p.1 + 1))
    }

    /// Internal invariant: positive dimensions, the three cell maps cover the
    /// whole grid, and no cell is both revealed and flagged.
    pub closed spec fn well_formed(self) -> bool {
        &&& 0 < self.width
        &&& 0 < self.height
        &&& self.width * self.height <= usize::MAX
        &&& self.mines@.len() == self.width * self.height
        &&& self.open_field@.len() == self.width * self.height
        &&& self.flags@.len() == self.width * self.height
        &&& forall|i: int|
            0 <= i < self.width * self.height ==> !(#[trigger] self.open_field@[i]
                && self.flags@[i])
    }

    /// No cell is ever both revealed and flagged.
    pub proof fn lemma_revealed_flagged_exclusive(self, p: (int, int))
        requires
            self.well_formed(),
            self.in_bounds(p),
        ensures
            !(self.revealed_at(p) && self.flagged_at(p)),
    {
        lemma_index_bounds(self.spec_width(), self.spec_height(), p);
    }
}

/// The row-major index of an in-bounds cell lies within the grid's area.
pub proof fn lemma_index_bounds(w: int, h: int, p: (int, int))
    requires
        0 <= p.0 < w,
        0 <= p.1 < h,
    ensures
        0 <= p.1 * w + p.0 < w * h,
{
    assert(0 <= p.1 * w + p.0 < w * h) by (nonlinear_arith)
        requires
            0 <= p.0 < w,
            0 <= p.1 < h,
    ;
}

/// Row-major indexing is injective on in-bounds cells.
pub proof fn lemma_index_injective(w: int, h: int, p: (int, int), q: (int, int))
    requires
        0 <= p.0 < w,
        0 <= p.1 < h,
        0 <= q.0 < w,
        0 <= q.1 < h,
        p.1 * w + p.0 == q.1 * w + q.0,
    ensures
        p == q,
{
    assert(p.0 == q.0 && p.1 == q.1) by (nonlinear_arith)
        requires
            0 <= p.0 < w,
            0 <= p.1 < h,
            0 <= q.0 < w,
            0 <= q.1 < h,
            p.1 * w + p.0 == q.1 * w + q.0,
    ;
}

/// Updating one entry changes the count of `true` entries accordingly.
pub proof fn lemma_count_true_update(s: Seq<bool>, i: int, b: bool)
    requires
        0 <= i < s.len(),
    ensures
        count_true(s.update(i, b)) == count_true(s) - (if s[i] {
            1int
        } else {
            0int
        }) + (if b {
            1int
        } else {
            0int
        }),
    decreases s.len(),
{
    let t = s.update(i, b);
    if i == s.len() - 1 {
        assert(t.drop_last() =~= s.drop_last());
    } else {
        assert(t.drop_last() =~= s.drop_last().update(i, b));
        lemma_count_true_update(s.drop_last(), i, b);
    }
}

/// The count of `true` entries is bounded by the length.
pub proof fn lemma_count_true_bounds(s: Seq<bool>)
    ensures
        0 <= count_true(s) <= s.len(),
    decreases s.len(),
{
    if s.len() > 0 {
        lemma_count_true_bounds(s.drop_last());
    }
}

/// A sequence with no `true` entry has count zero.
pub proof fn lemma_count_true_zero(s: Seq<bool>)
    requires
        forall|i: int| 0 <= i < s.len() ==> !s[i],
    ensures
        count_true(s) == 0,
    decreases s.len(),
{
    if s.len() > 0 {
        lemma_count_true_zero(s.drop_last());
    }
}

/// Counting `true` entries one index further takes in exactly that entry.
pub proof fn lemma_count_true_take_succ(s: Seq<bool>, i: int)
    requires
        0 <= i < s.len(),
    ensures
        count_true(s.take(i + 1)) == count_true(s.take(i)) + (if s[i] {
            1int
        } else {
            0int
        }),
{
    assert(s.take(i + 1).drop_last() =~= s.take(i));
    assert(s.take(i + 1).last() == s[i]);
}

/// Finds the index of the `(k + 1)`-th unmarked cell.
fn kth_free(v: &Vec<bool>, k: usize) -> (idx: usize)
    requires
        k + count_true(v@) < v@.len(),
    ensures
        idx < v@.len(),
        !v@[idx as int],
{
    let n = v.len();
    let mut i: usize = 0;
    let mut seen: usize = 0;
    while i < n
        invariant
            i <= n,
            seen <= k,
            seen == i - count_true(v@.take(i as int)),
        decreases n - i,
    {
        proof {
            lemma_count_true_bounds(v@.take(i as int));
            lemma_count_true_take_succ(v@, i as int);
        }
        if !v[i] {
            if seen == k {
                return i;
            }
            seen = seen + 1;
        }
        i = i + 1;
    }
    proof {
        assert(v@.take(n as int) =~= v@);
        assert(false);
    }
    0
}

/// A vector of `n` cells, all unmarked.
fn false_vec(n: usize) -> (v: Vec<bool>)
    ensures
        v@.len() == n,
        forall|i: int| 0 <= i < n ==> !v@[i],
{
    let mut v: Vec<bool> = Vec::new();
    while v.len() < n
        invariant
            v@.len() <= n,
            forall|i: int| 0 <= i < v@.len() ==> !v@[i],
        decreases n - v@.len(),
    {
        v.push(false);
    }
    v
}

impl Minesweeper {
    /// A board as construction hands it out: well formed, of the requested
    /// shape, with the requested number of mines, nothing revealed or
    /// flagged, and not lost.
    pub open spec fn is_fresh(self, width: int, height: int, mine_count: int) -> bool {
        &&& self.well_formed()
        &&& self.spec_width() == width
        &&& self.spec_height() == height
        &&& self.spec_mine_count() == mine_count
        &&& !self.spec_lost()
        &&& forall|q: (int, int)|
            self.in_bounds(q) ==> !#[trigger] self.revealed_at(q) && !self.flagged_at(q)
    }

    /// Builds a board with `mine_count` mines chosen uniformly at random
    /// without replacement: each draw picks one of the still-free cells, so
    /// the mine set grows by one per draw until it has the requested size.
    /// Rejects a configuration whose mines could not all be placed.
    #[verifier::rlimit(50)]
    pub fn new(width: usize, height: usize, mine_count: usize) -> (r: Result<Minesweeper, GameError>)
        ensures
            r is Ok <==> (0 < width && 0 < height && width * height <= usize::MAX
                && (mine_count as int) < width * height),
            match r {
                Ok(b) => b.is_fresh(width as int, height as int, mine_count as int),
                Err(e) => e == GameError::InvalidConfiguration,
            },
    {
        if width == 0 || height == 0 {
            return Err(GameError::InvalidConfiguration);
        }
        let area = match width.checked_mul(height) {
            Some(a) => a,
            None => {
                return Err(GameError::InvalidConfiguration);
            },
        };
        if mine_count >= area {
            return Err(GameError::InvalidConfiguration);
        }
        let mut mines = false_vec(area);
        proof {
            lemma_count_true_zero(mines@);
        }
        let mut placed: usize = 0;
        while placed < mine_count
            invariant
                mines@.len() == area,
                placed <= mine_count,
                placed == count_true(mines@),
            decreases mine_count - placed,
        {
            let r = random_range(0, area - placed);
            let i = kth_free(&mines, r);
            proof {
                lemma_count_true_update(mines@, i as int, true);
            }
            mines[i] = true;
            placed = placed + 1;
        }
        let open_field = false_vec(area);
        let flags = false_vec(area);
        let b = Minesweeper { width, height, mines, open_field, flags, lost: false };
        proof {
            assert forall|q: (int, int)| b.in_bounds(q) implies !#[trigger] b.revealed_at(q)
                && !b.flagged_at(q) by {
                lemma_index_bounds(width as int, height as int, q);
            }
            assert(b.is_fresh(width as int, height as int, mine_count as int));
        }
        Ok(b)
    }

    /// Builds a board whose mines sit exactly at the given distinct cells:
    /// the deterministic counterpart of `new`, for callers that inject the
    /// drawn cells themselves (a scripted random source).
    pub fn new_with_mines(width: usize, height: usize, mine_positions: &Vec<Position>) -> (b:
        Minesweeper)
        requires
            0 < width,
            0 < height,
            width * height <= usize::MAX,
            forall|j: int|
                0 <= j < mine_positions@.len() ==> (#[trigger] mine_positions@[j]).0 < width
                    && mine_positions@[j].1 < height,
            mine_positions@.no_duplicates(),
            mine_positions@.len() < width * height,
        ensures
            b.is_fresh(width as int, height as int, mine_positions@.len() as int),
            forall|q: (int, int)|
                b.in_bounds(q) ==> (#[trigger] b.mine_at(q) <==> mine_positions@.contains(
                    ((q.0 as usize, q.1 as usize)),
                )),
    {
        let area = width * height;
        let mut mines = false_vec(area);
        proof {
            lemma_count_true_zero(mines@);
            assert forall|q: (int, int)| (0 <= q.0 < width && 0 <= q.1 < height) implies !(
            #[trigger] mines@[q.1 * width + q.0]) by {
                lemma_index_bounds(width as int, height as int, q);
            }
        }
        let n = mine_positions.len();
        let mut k: usize = 0;
        while k < n
            invariant
                n == mine_positions@.len(),
                mines@.len() == area,
                k <= n,
                count_true(mines@) == k,
                forall|q: (int, int)|
                    (0 <= q.0 < width && 0 <= q.1 < height) ==> ((#[trigger] mines@[q.1 * width
                        + q.0]) <==> exists|j: int|
                        0 <= j < k && mine_positions@[j] == ((q.0 as usize, q.1 as usize))),
            decreases n - k,
        {
            let (px, py) = mine_positions[k];
            proof {
                lemma_index_bounds(width as int, height as int, (px as int, py as int));
            }
            let i = py * width + px;
            proof {
                if mines@[i as int] {
                    let j = choose|j: int|
                        0 <= j < k && mine_positions@[j] == ((px as usize, py as usize));
                    assert(mine_positions@[j] == mine_positions@[k as int]);
                    assert(false);
                }
                lemma_count_true_update(mines@, i as int, true);
            }
            mines[i] = true;
            proof {
                assert forall|q: (int, int)| (0 <= q.0 < width && 0 <= q.1 < height) implies ((
                #[trigger] mines@[q.1 * width + q.0]) <==> exists|j: int|
                    0 <= j < k + 1 && mine_positions@[j] == ((q.0 as usize, q.1 as usize))) by {
                    lemma_index_bounds(width as int, height as int, q);
                    if q.1 * width + q.0 == i {
                        lemma_index_injective(
                            width as int,
                            height as int,
                            q,
                            (px as int, py as int),
                        );
                        assert(mine_positions@[k as int] == ((q.0 as usize, q.1 as usize)));
                    } else {
                        if mines@[q.1 * width + q.0] {
                            let j = choose|j: int|
                                0 <= j < k && mine_positions@[j] == ((q.0 as usize, q.1 as usize));
                            assert(0 <= j < k + 1 && mine_positions@[j] == ((q.0 as usize, q.1
                                as usize)));
                        }
                        if exists|j: int|
                            0 <= j < k + 1 && mine_positions@[j] == ((q.0 as usize, q.1
                                as usize)) {
                            let j = choose|j: int|
                                0 <= j < k + 1 && mine_positions@[j] == ((q.0 as usize, q.1
                                    as usize));
                            if j == k {
                                assert(q.0 == px && q.1 == py);
                                assert(false);
                            }
                        }
                    }
                }
            }
            k = k + 1;
        }
        let open_field = false_vec(area);
        let flags = false_vec(area);
        let b = Minesweeper { width, height, mines, open_field, flags, lost: false };
        proof {
            assert forall|q: (int, int)| b.in_bounds(q) implies !#[trigger] b.revealed_at(q)
                && !b.flagged_at(q) by {
                lemma_index_bounds(width as int, height as int, q);
            }
            assert(b.is_fresh(width as int, height as int, mine_positions@.len() as int));
            assert forall|q: (int, int)| b.in_bounds(q) implies (#[trigger] b.mine_at(q)
                <==> mine_positions@.contains(((q.0 as usize, q.1 as usize)))) by {
                lemma_index_bounds(width as int, height as int, q);
            }
        }
        b
    }

    pub fn width(&self) -> (w: usize)
        ensures
            w == self.spec_width(),
    {
        self.width
    }

    pub fn height(&self) -> (h: usize)
        ensures
            h == self.spec_height(),
    {
        self.height
    }

    pub fn is_lost(&self) -> (b: bool)
        ensures
            b == self.spec_lost(),
    {
        self.lost
    }

    pub fn is_mine(&self, pos: Position) -> (b: bool)
        requires
            self.well_formed(),
            self.in_bounds(pos_int(pos)),
        ensures
            b == self.mine_at(pos_int(pos)),
    {
        proof {
            lemma_index_bounds(self.spec_width(), self.spec_height(), pos_int(pos));
        }
        self.mines[pos.1 * self.width + pos.0]
    }

    pub fn is_revealed(&self, pos: Position) -> (b: bool)
        requires
            self.well_formed(),
            self.in_bounds(pos_int(pos)),
        ensures
            b == self.revealed_at(pos_int(pos)),
    {
        proof {
            lemma_index_bounds(self.spec_width(), self.spec_height(), pos_int(pos));
        }
        self.open_field[pos.1 * self.width + pos.0]
    }

    pub fn is_flagged(&self, pos: Position) -> (b: bool)
        requires
            self.well_formed(),
            self.in_bounds(pos_int(pos)),
        ensures
            b == self.flagged_at(pos_int(pos)),
    {
        proof {
            lemma_index_bounds(self.spec_width(), self.spec_height(), pos_int(pos));
        }
        self.flags[pos.1 * self.width + pos.0]
    }

    /// The number of mines on the board.
    pub fn mine_total(&self) -> (n: usize)
        requires
            self.well_formed(),
        ensures
            n == self.spec_mine_count(),
    {
        let mut n: usize = 0;
        let mut i: usize = 0;
        let len = self.mines.len();
        while i < len
            invariant
                i <= len,
                n == count_true(self.mines@.take(i as int)),
                n <= i,
            decreases len - i,
        {
            proof {
                lemma_count_true_take_succ(self.mines@, i as int);
            }
            if self.mines[i] {
                n = n + 1;
            }
            i = i + 1;
        }
        proof {
            assert(self.mines@.take(len as int) =~= self.mines@);
        }
        n
    }

    /// Marks a cell revealed; the one place where `revealed` grows.
    pub(crate) fn set_revealed(&mut self, pos: Position)
        requires
            old(self).well_formed(),
            old(self).in_bounds(pos_int(pos)),
            !old(self).flagged_at(pos_int(pos)),
        ensures
            final(self).well_formed(),
            final(self).spec_width() == old(self).spec_width(),
            final(self).spec_height() == old(self).spec_height(),
            final(self).spec_lost() == old(self).spec_lost(),
            final(self).spec_mine_count() == old(self).spec_mine_count(),
            forall|q: (int, int)|
                old(self).in_bounds(q) ==> #[trigger] final(self).mine_at(q) == old(self).mine_at(
                    q,
                ),
            forall|q: (int, int)|
                old(self).in_bounds(q) ==> #[trigger] final(self).flagged_at(q) == old(
                    self,
                ).flagged_at(q),
            forall|q: (int, int)|
                old(self).in_bounds(q) ==> (#[trigger] final(self).revealed_at(q) == (old(
                    self,
                ).revealed_at(q) || q == pos_int(pos))),
            final(self).spec_revealed_count() == old(self).spec_revealed_count() + (if old(
                self,
            ).revealed_at(pos_int(pos)) {
                0int
            } else {
                1int
            }),
    {
        proof {
            lemma_index_bounds(self.spec_width(), self.spec_height(), pos_int(pos));
            lemma_count_true_update(self.open_field@, self.pos_index(pos_int(pos)), true);
        }
        let i = pos.1 * self.width + pos.0;
        self.open_field[i] = true;
        proof {
            assert forall|q: (int, int)| old(self).in_bounds(q) implies (
            #[trigger] self.revealed_at(q) == (old(self).revealed_at(q) || q == pos_int(
                pos,
            ))) by {
                lemma_index_bounds(self.spec_width(), self.spec_height(), q);
                if self.pos_index(q) == self.pos_index(pos_int(pos)) {
                    lemma_index_injective(
                        self.spec_width(),
                        self.spec_height(),
                        q,
                        pos_int(pos),
                    );
                }
            }
        }
    }

    /// Marks the game lost; the one place where `lost` is set.
    pub(crate) fn set_lost(&mut self)
        requires
            old(self).well_formed(),
        ensures
            final(self).well_formed(),
            final(self).spec_width() == old(self).spec_width(),
            final(self).spec_height() == old(self).spec_height(),
            final(self).spec_lost(),
            final(self).spec_mine_count() == old(self).spec_mine_count(),
            forall|q: (int, int)|
                old(self).in_bounds(q) ==> #[trigger] final(self).mine_at(q) == old(self).mine_at(
                    q,
                ),
            forall|q: (int, int)|
                old(self).in_bounds(q) ==> #[trigger] final(self).flagged_at(q) == old(
                    self,
                ).flagged_at(q),
            forall|q: (int, int)|
                old(self).in_bounds(q) ==> #[trigger] final(self).revealed_at(q) == old(
                    self,
                ).revealed_at(q),
    {
        self.lost = true;
    }

    /// Every grid cell within Chebyshev distance 1 of `pos`, excluding `pos`
    /// itself: 3 for a corner, 5 for an edge cell, 8 for an interior cell.
    pub fn iter_neighbors(&self, pos: Position) -> (v: Vec<Position>)
        requires
            self.well_formed(),
            self.in_bounds(pos_int(pos)),
        ensures
            v@.len() == self.neighbor_count(pos_int(pos)),
            forall|i: int|
                0 <= i < v@.len() ==> self.in_bounds(pos_int(#[trigger] v@[i])) && is_neighbor(
                    pos_int(pos),
                    pos_int(v@[i]),
                ),
            forall|q: (int, int)|
                self.in_bounds(q) && is_neighbor(pos_int(pos), q) ==> v@.contains(
                    ((q.0 as usize, q.1 as usize)),
                ),
            v@.no_duplicates(),
    {
        let (x, y) = pos;
        let mut v: Vec<Position> = Vec::new();
        let ghost mut i_nw: int = -1;
        let ghost mut i_n: int = -1;
        let ghost mut i_ne: int = -1;
        let ghost mut i_w: int = -1;
        let ghost mut i_e: int = -1;
        let ghost mut i_sw: int = -1;
        let ghost mut i_s: int = -1;
        let ghost mut i_se: int = -1;
        if x > 0 && y > 0 {
            v.push((x - 1, y - 1));
            proof {
                i_nw = v@.len() - 1;
            }
        }
        if y > 0 {
            v.push((x, y - 1));
            proof {
                i_n = v@.len() - 1;
            }
        }
        if x + 1 < self.width && y > 0 {
            v.push((x + 1, y - 1));
            proof {
                i_ne = v@.len() - 1;
            }
        }
        if x > 0 {
            v.push((x - 1, y));
            proof {
                i_w = v@.len() - 1;
            }
        }
        if x + 1 < self.width {
            v.push((x + 1, y));
            proof {
                i_e = v@.len() - 1;
            }
        }
        if x > 0 && y + 1 < self.height {
            v.push((x - 1, y + 1));
            proof {
                i_sw = v@.len() - 1;
            }
        }
        if y + 1 < self.height {
            v.push((x, y + 1));
            proof {
                i_s = v@.len() - 1;
            }
        }
        if x + 1 < self.width && y + 1 < self.height {
            v.push((x + 1, y + 1));
            proof {
                i_se = v@.len() - 1;
            }
        }
        proof {
            assert forall|q: (int, int)| self.in_bounds(q) && is_neighbor(pos_int(pos), q)
                implies v@.contains(((q.0 as usize, q.1 as usize))) by {
                let qa = (q.0 as usize, q.1 as usize);
                let dx = q.0 - x as int;
                let dy = q.1 - y as int;
                if dx == -1 && dy == -1 {
                    assert(v@[i_nw] == qa);
                } else if dx == 0 && dy == -1 {
                    assert(v@[i_n] == qa);
                } else if dx == 1 && dy == -1 {
                    assert(v@[i_ne] == qa);
                } else if dx == -1 && dy == 0 {
                    assert(v@[i_w] == qa);
                } else if dx == 1 && dy == 0 {
                    assert(v@[i_e] == qa);
                } else if dx == -1 && dy == 1 {
                    assert(v@[i_sw] == qa);
                } else if dx == 0 && dy == 1 {
                    assert(v@[i_s] == qa);
                } else {
                    assert(dx == 1 && dy == 1);
                    assert(v@[i_se] == qa);
                }
            }
        }
        v
    }

    /// Number of mines among the neighbors of `pos`.
    pub fn neighboring_mines(&self, pos: Position) -> (n: u8)
        requires
            self.well_formed(),
            self.in_bounds(pos_int(pos)),
        ensures
            n as int == self.adj_mine_count(pos_int(pos)),
            n <= 8,
    {
        let (x, y) = pos;
        let mut n: u8 = 0;
        if x > 0 && y > 0 && self.is_mine((x - 1, y - 1)) {
            n = n + 1;
        }
        if y > 0 && self.is_mine((x, y - 1)) {
            n = n + 1;
        }
        if x + 1 < self.width && y > 0 && self.is_mine((x + 1, y - 1)) {
            n = n + 1;
        }
        if x > 0 && self.is_mine((x - 1, y)) {
            n = n + 1;
        }
        if x + 1 < self.width && self.is_mine((x + 1, y)) {
            n = n + 1;
        }
        if x > 0 && y + 1 < self.height && self.is_mine((x - 1, y + 1)) {
            n = n + 1;
        }
        if y + 1 < self.height && self.is_mine((x, y + 1)) {
            n = n + 1;
        }
        if x + 1 < self.width && y + 1 < self.height && self.is_mine((x + 1, y + 1)) {
            n = n + 1;
        }
        n
    }

    /// Number of flags among the neighbors of `pos`.
    pub(crate) fn neighboring_flags(&self, pos: Position) -> (n: u8)
        requires
            self.well_formed(),
            self.in_bounds(pos_int(pos)),
        ensures
            n as int == self.adj_flag_count(pos_int(pos)),
            n <= 8,
    {
        let (x, y) = pos;
        let mut n: u8 = 0;
        if x > 0 && y > 0 && self.is_flagged((x - 1, y - 1)) {
            n = n + 1;
        }
        if y > 0 && self.is_flagged((x, y - 1)) {
            n = n + 1;
        }
        if x + 1 < self.width && y > 0 && self.is_flagged((x + 1, y - 1)) {
            n = n + 1;
        }
        if x > 0 && self.is_flagged((x - 1, y)) {
            n = n + 1;
        }
        if x + 1 < self.width && self.is_flagged((x + 1, y)) {
            n = n + 1;
        }
        if x > 0 && y + 1 < self.height && self.is_flagged((x - 1, y + 1)) {
            n = n + 1;
        }
        if y + 1 < self.height && self.is_flagged((x, y + 1)) {
            n = n + 1;
        }
        if x + 1 < self.width && y + 1 < self.height && self.is_flagged((x + 1, y + 1)) {
            n = n + 1;
        }
        n
    }

    /// Flips the flag on a hidden cell. Revealed cells cannot be flagged, and
    /// a lost board is frozen. Out-of-bounds coordinates are rejected.
    pub fn toggle_flag(&mut self, pos: Position) -> (r: Result<(), GameError>)
        requires
            old(self).well_formed(),
        ensures
            final(self).well_formed(),
            final(self).spec_width() == old(self).spec_width(),
            final(self).spec_height() == old(self).spec_height(),
            final(self).spec_lost() == old(self).spec_lost(),
            final(self).spec_mine_count() == old(self).spec_mine_count(),
            forall|q: (int, int)|
                old(self).in_bounds(q) ==> #[trigger] final(self).mine_at(q) == old(self).mine_at(
                    q,
                ),
            forall|q: (int, int)|
                old(self).in_bounds(q) ==> #[trigger] final(self).revealed_at(q) == old(
                    self,
                ).revealed_at(q),
            r == Result::<(), GameError>::Err(GameError::OutOfBounds) <==> !old(self).in_bounds(
                pos_int(pos),
            ),
            (old(self).in_bounds(pos_int(pos)) && (old(self).spec_lost() || old(self).revealed_at(
                pos_int(pos),
            )) || !old(self).in_bounds(pos_int(pos))) ==> forall|q: (int, int)|
                old(self).in_bounds(q) ==> #[trigger] final(self).flagged_at(q) == old(
                    self,
                ).flagged_at(q),
            (old(self).in_bounds(pos_int(pos)) && !old(self).spec_lost() && !old(
                self,
            ).revealed_at(pos_int(pos))) ==> forall|q: (int, int)|
                old(self).in_bounds(q) ==> #[trigger] final(self).flagged_at(q) == (if q
                    == pos_int(pos) {
                    !old(self).flagged_at(q)
                } else {
                    old(self).flagged_at(q)
                }),
    {
        if !(pos.0 < self.width && pos.1 < self.height) {
            return Err(GameError::OutOfBounds);
        }
        if self.lost || self.is_revealed(pos) {
            return Ok(());
        }
        proof {
            lemma_index_bounds(self.spec_width(), self.spec_height(), pos_int(pos));
        }
        let i = pos.1 * self.width + pos.0;
        let cur = self.flags[i];
        self.flags[i] = !cur;
        proof {
            assert forall|q: (int, int)| old(self).in_bounds(q) implies #[trigger] self.flagged_at(
                q,
            ) == (if q == pos_int(pos) {
                !old(self).flagged_at(q)
            } else {
                old(self).flagged_at(q)
            }) by {
                lemma_index_bounds(self.spec_width(), self.spec_height(), q);
                if self.pos_index(q) == self.pos_index(pos_int(pos)) {
                    lemma_index_injective(
                        self.spec_width(),
                        self.spec_height(),
                        q,
                        pos_int(pos),
                    );
                }
            }
        }
        Ok(())
    }
}

} // verus!
