//! Opening cells: the worklist cascade, its reachability model, and `open`.
use vstd::prelude::*;

use crate::board::GameError;
use crate::board::Minesweeper;
use crate::board::OpenResult;
use crate::board::Position;
use crate::board::is_neighbor;
use crate::board::pos_int;

verus! {

impl Minesweeper {
    /// A cell the cascade may reveal: on the grid, hidden, and not flagged.
    pub open spec fn cascade_ok(self, q: (int, int)) -> bool {
        &&& self.in_bounds(q)
        &&& !self.flagged_at(q)
        &&& !self.revealed_at(q)
    }

    /// A cell the cascade expands through: revealable, safe, and with no
    /// adjacent mines.
    pub open spec fn expands(self, q: (int, int)) -> bool {
        &&& self.cascade_ok(q)
        &&& !self.mine_at(q)
        &&& self.adj_mine_count(q) == 0
    }

    /// `dst` can be revealed from `src` within `n` cascade steps: each step
    /// moves to a revealable neighbor of an already reached zero-adjacency
    /// safe cell.
    pub open spec fn reaches(self, src: (int, int), dst: (int, int), n: nat) -> bool
        decreases n,
    {
        if n == 0 {
            dst == src && self.cascade_ok(src)
        } else {
            self.reaches(src, dst, (n - 1) as nat) || exists|mid: (int, int)|
                self.reaches(src, mid, (n - 1) as nat) && self.expands(mid) && is_neighbor(
                    mid,
                    dst,
                ) && self.cascade_ok(dst)
        }
    }

    /// `dst` lies in the cascade region of `src`: the connected zero-adjacency
    /// region around `src` together with its revealable border.
    pub open spec fn reachable(self, src: (int, int), dst: (int, int)) -> bool {
        exists|n: nat| self.reaches(src, dst, n)
    }

    /// Reachable from one of the cells of `srcs`.
    pub open spec fn reachable_from(self, srcs: Seq<Position>, dst: (int, int)) -> bool {
        exists|i: int| 0 <= i < srcs.len() && self.reachable(pos_int(srcs[i]), dst)
    }

    /// A neighbor of `center` that a chord on `center` opens: hidden and not
    /// flagged.
    pub open spec fn chord_target(self, center: (int, int), q: (int, int)) -> bool {
        &&& is_neighbor(center, q)
        &&& self.cascade_ok(q)
    }

    /// Reachable from one of the cells a chord on `center` opens.
    pub open spec fn chord_reachable(self, center: (int, int), dst: (int, int)) -> bool {
        exists|s: (int, int)| self.chord_target(center, s) && self.reachable(s, dst)
    }
}

/// One more cascade step out of an expanding cell keeps the target reachable.
proof fn lemma_reachable_step(b: Minesweeper, src: (int, int), mid: (int, int), dst: (int, int))
    requires
        b.reachable(src, mid),
        b.expands(mid),
        is_neighbor(mid, dst),
        b.cascade_ok(dst),
    ensures
        b.reachable(src, dst),
{
    let n = choose|n: nat| b.reaches(src, mid, n);
    assert(b.reaches(src, dst, n + 1));
}

/// Any cell the cascade reaches beyond its source is next to a cell without
/// adjacent mines, hence safe.
proof fn lemma_reached_is_safe(b: Minesweeper, src: (int, int), dst: (int, int), n: nat)
    requires
        b.reaches(src, dst, n),
        dst != src,
        b.in_bounds(dst),
    ensures
        !b.mine_at(dst),
    decreases n,
{
    if n > 0 {
        if b.reaches(src, dst, (n - 1) as nat) {
            lemma_reached_is_safe(b, src, dst, (n - 1) as nat);
        } else {
            let mid = choose|mid: (int, int)|
                b.reaches(src, mid, (n - 1) as nat) && b.expands(mid) && is_neighbor(mid, dst)
                    && b.cascade_ok(dst);
            assert(b.adj_mine_count(mid) == 0);
            if b.mine_at(dst) {
                assert(b.mine_ind(dst) == 1);
                assert(false);
            }
        }
    }
}

/// Pushing keeps every element, and adds the pushed one.
proof fn lemma_contains_push<A>(s: Seq<A>, x: A, e: A)
    requires
        s.contains(e) || x == e,
    ensures
        s.push(x).contains(e),
{
    if s.contains(e) {
        let j = choose|j: int| 0 <= j < s.len() && s[j] == e;
        assert(s.push(x)[j] == e);
    } else {
        assert(s.push(x)[s.len() as int] == e);
    }
}

/// An element of a sequence sits before the last position or is the last.
proof fn lemma_contains_drop_last<A>(s: Seq<A>, e: A)
    requires
        s.len() > 0,
        s.contains(e),
    ensures
        s.drop_last().contains(e) || s.last() == e,
{
    let j = choose|j: int| 0 <= j < s.len() && s[j] == e;
    if j < s.len() - 1 {
        assert(s.drop_last()[j] == e);
    }
}

/// From a cell that does not expand, the cascade reveals only that cell.
proof fn lemma_reachable_only_src(b: Minesweeper, src: (int, int), dst: (int, int), n: nat)
    requires
        b.reaches(src, dst, n),
        !b.expands(src),
    ensures
        dst == src,
    decreases n,
{
    if n > 0 {
        if b.reaches(src, dst, (n - 1) as nat) {
            lemma_reachable_only_src(b, src, dst, (n - 1) as nat);
        } else {
            let mid = choose|mid: (int, int)|
                b.reaches(src, mid, (n - 1) as nat) && b.expands(mid) && is_neighbor(mid, dst)
                    && b.cascade_ok(dst);
            lemma_reachable_only_src(b, src, mid, (n - 1) as nat);
            assert(false);
        }
    }
}

/// In a final state that is closed under the cascade rule and where the
/// source is revealed, every reachable cell is revealed.
proof fn lemma_reaches_revealed(
    b0: Minesweeper,
    bf: Minesweeper,
    src: (int, int),
    dst: (int, int),
    n: nat,
)
    requires
        b0.reaches(src, dst, n),
        bf.revealed_at(src),
        forall|q: (int, int), r: (int, int)|
            #![trigger bf.revealed_at(q), is_neighbor(q, r)]
            b0.in_bounds(q) && bf.revealed_at(q) && !b0.revealed_at(q) && !b0.mine_at(q)
                && b0.adj_mine_count(q) == 0 && is_neighbor(q, r) && b0.cascade_ok(r)
                ==> bf.revealed_at(r),
        forall|q: (int, int)|
            b0.in_bounds(q) && b0.revealed_at(q) ==> #[trigger] bf.revealed_at(q),
    ensures
        bf.revealed_at(dst),
    decreases n,
{
    if n == 0 {
    } else if b0.reaches(src, dst, (n - 1) as nat) {
        lemma_reaches_revealed(b0, bf, src, dst, (n - 1) as nat);
    } else {
        let mid = choose|mid: (int, int)|
            b0.reaches(src, mid, (n - 1) as nat) && b0.expands(mid) && is_neighbor(mid, dst)
                && b0.cascade_ok(dst);
        lemma_reaches_revealed(b0, bf, src, mid, (n - 1) as nat);
        assert(bf.revealed_at(mid) && is_neighbor(mid, dst));
    }
}

impl Minesweeper {
    /// Reveals every cell of `start`, cascading outward from zero-adjacency
    /// safe cells through their hidden unflagged neighbors; stops at once,
    /// with the game lost, when a mine is revealed.
    fn run_cascade(&mut self, start: Vec<Position>)
        requires
            old(self).well_formed(),
            !old(self).spec_lost(),
            forall|i: int|
                0 <= i < start@.len() ==> old(self).cascade_ok(pos_int(#[trigger] start@[i])),
        ensures
            final(self).well_formed(),
            final(self).spec_width() == old(self).spec_width(),
            final(self).spec_height() == old(self).spec_height(),
            final(self).spec_mine_count() == old(self).spec_mine_count(),
            forall|q: (int, int)|
                old(self).in_bounds(q) ==> #[trigger] final(self).mine_at(q) == old(self).mine_at(
                    q,
                ),
            forall|q: (int, int)|
                old(self).in_bounds(q) ==> #[trigger] final(self).flagged_at(q) == old(
                    self,
                ).flagged_at(q),
            forall|q: (int, int)|
                old(self).in_bounds(q) && old(self).revealed_at(q)
                    ==> #[trigger] final(self).revealed_at(q),
            forall|q: (int, int)|
                old(self).in_bounds(q) && #[trigger] final(self).revealed_at(q)
                    ==> old(self).revealed_at(q) || old(self).reachable_from(start@, q),
            final(self).spec_lost() == exists|i: int|
                0 <= i < start@.len() && old(self).mine_at(pos_int(#[trigger] start@[i])),
            final(self).spec_lost() ==> exists|i: int|
                0 <= i < start@.len() && old(self).mine_at(pos_int(#[trigger] start@[i]))
                    && final(self).revealed_at(pos_int(start@[i])),
            !final(self).spec_lost() ==> forall|q: (int, int)|
                old(self).in_bounds(q) && old(self).reachable_from(start@, q)
                    ==> #[trigger] final(self).revealed_at(q),
    {
        let ghost b0 = *old(self);
        let ghost start0 = start@;
        let mut stack = start;
        proof {
            b0.lemma_dims();
            assert forall|i: int| 0 <= i < stack@.len() implies b0.reachable_from(
                start0,
                pos_int(#[trigger] stack@[i]),
            ) by {
                assert(b0.reaches(pos_int(start0[i]), pos_int(start0[i]), 0));
            }
            assert forall|i: int| 0 <= i < start0.len() implies self.revealed_at(
                pos_int(#[trigger] start0[i]),
            ) || stack@.contains(start0[i]) by {
                assert(stack@[i] == start0[i]);
            }
        }
        while stack.len() > 0
            invariant
                b0 == *old(self),
                self.well_formed(),
                !self.spec_lost(),
                self.spec_width() == b0.spec_width(),
                self.spec_height() == b0.spec_height(),
                self.spec_mine_count() == b0.spec_mine_count(),
                forall|q: (int, int)|
                    b0.in_bounds(q) ==> #[trigger] self.mine_at(q) == b0.mine_at(q),
                forall|q: (int, int)|
                    b0.in_bounds(q) ==> #[trigger] self.flagged_at(q) == b0.flagged_at(q),
                forall|q: (int, int)|
                    b0.in_bounds(q) && b0.revealed_at(q) ==> #[trigger] self.revealed_at(q),
                forall|q: (int, int)|
                    b0.in_bounds(q) && #[trigger] self.revealed_at(q) ==> b0.revealed_at(q)
                        || b0.reachable_from(start0, q),
                forall|q: (int, int)|
                    b0.in_bounds(q) && #[trigger] self.revealed_at(q) && !b0.revealed_at(q)
                        ==> !b0.mine_at(q),
                forall|i: int|
                    0 <= i < stack@.len() ==> b0.cascade_ok(pos_int(#[trigger] stack@[i])),
                forall|i: int|
                    0 <= i < stack@.len() ==> b0.reachable_from(
                        start0,
                        pos_int(#[trigger] stack@[i]),
                    ),
                forall|i: int|
                    0 <= i < start0.len() ==> self.revealed_at(pos_int(#[trigger] start0[i]))
                        || stack@.contains(start0[i]),
                forall|q: (int, int), r: (int, int)|
                    #![trigger self.revealed_at(q), is_neighbor(q, r)]
                    b0.in_bounds(q) && self.revealed_at(q) && !b0.revealed_at(q) && !b0.mine_at(q)
                        && b0.adj_mine_count(q) == 0 && is_neighbor(q, r) && b0.cascade_ok(r)
                        ==> self.revealed_at(r) || stack@.contains(
                        ((r.0 as usize, r.1 as usize)),
                    ),
            decreases self.area() - self.spec_revealed_count(), stack@.len(),
        {
            proof {
                self.lemma_revealed_count_bounds();
            }
            let ghost s0 = *self;
            let ghost stack_pre = stack@;
            let p = stack.pop().unwrap();
            let ghost pp = pos_int(p);
            proof {
                assert(stack_pre[stack_pre.len() - 1] == p);
                assert(b0.cascade_ok(pp));
                assert(b0.reachable_from(start0, pp));
                assert(stack@ == stack_pre.drop_last());
            }
            if !self.is_revealed(p) {
                self.set_revealed(p);
                proof {
                    self.lemma_revealed_count_bounds();
                    assert forall|q: (int, int)|
                        b0.in_bounds(q) && #[trigger] self.revealed_at(q) implies b0.revealed_at(q)
                        || b0.reachable_from(start0, q) by {
                        if q == pp {
                            assert(b0.reachable_from(start0, pp));
                        }
                    }
                }
                if self.is_mine(p) {
                    self.set_lost();
                    proof {
                        let i = choose|i: int|
                            0 <= i < start0.len() && b0.reachable(pos_int(start0[i]), pp);
                        let n = choose|n: nat| b0.reaches(pos_int(start0[i]), pp, n);
                        if pos_int(start0[i]) != pp {
                            lemma_reached_is_safe(b0, pos_int(start0[i]), pp, n);
                            assert(false);
                        }
                        assert(0 <= i < start0.len() && b0.mine_at(pos_int(start0[i]))
                            && self.revealed_at(pos_int(start0[i])));
                    }
                    return ;
                }
                let mc = self.neighboring_mines(p);
                proof {
                    assert(b0.adj_mine_count(pp) == self.adj_mine_count(pp));
                    assert(!b0.mine_at(pp));
                    assert forall|i: int| 0 <= i < start0.len() implies self.revealed_at(
                        pos_int(#[trigger] start0[i]),
                    ) || stack@.contains(start0[i]) by {
                        if !self.revealed_at(pos_int(start0[i])) {
                            assert(s0.revealed_at(pos_int(start0[i])) || stack_pre.contains(
                                start0[i],
                            ));
                            assert(!s0.revealed_at(pos_int(start0[i])));
                            lemma_contains_drop_last(stack_pre, start0[i]);
                            assert(start0[i] != p);
                        }
                    }
                    assert forall|q: (int, int), r: (int, int)|
                        #![trigger self.revealed_at(q), is_neighbor(q, r)]
                        b0.in_bounds(q) && self.revealed_at(q) && !b0.revealed_at(q)
                            && !b0.mine_at(q) && b0.adj_mine_count(q) == 0 && q != pp
                            && is_neighbor(q, r) && b0.cascade_ok(r) implies self.revealed_at(r)
                        || stack@.contains(((r.0 as usize, r.1 as usize))) by {
                        if !self.revealed_at(r) {
                            let ra = (r.0 as usize, r.1 as usize);
                            assert(s0.revealed_at(q) && is_neighbor(q, r));
                            assert(!s0.revealed_at(r));
                            assert(s0.revealed_at(r) || stack_pre.contains(ra));
                            lemma_contains_drop_last(stack_pre, ra);
                            if stack_pre.last() == ra {
                                assert(pos_int(ra) == r);
                                assert(r == pp);
                                assert(false);
                            }
                        }
                    }
                }
                if mc == 0 {
                    proof {
                        assert(b0.expands(pp));
                    }
                    let nbrs = self.iter_neighbors(p);
                    let mut j: usize = 0;
                    while j < nbrs.len()
                        invariant
                            j <= nbrs@.len(),
                            forall|i: int|
                                0 <= i < stack@.len() ==> b0.cascade_ok(
                                    pos_int(#[trigger] stack@[i]),
                                ),
                            forall|i: int|
                                0 <= i < stack@.len() ==> b0.reachable_from(
                                    start0,
                                    pos_int(#[trigger] stack@[i]),
                                ),
                            forall|i: int|
                                0 <= i < start0.len() ==> self.revealed_at(
                                    pos_int(#[trigger] start0[i]),
                                ) || stack@.contains(start0[i]),
                            forall|q: (int, int), r: (int, int)|
                                #![trigger self.revealed_at(q), is_neighbor(q, r)]
                                b0.in_bounds(q) && self.revealed_at(q) && !b0.revealed_at(q)
                                    && !b0.mine_at(q) && b0.adj_mine_count(q) == 0 && q != pp
                                    && is_neighbor(q, r) && b0.cascade_ok(r)
                                    ==> self.revealed_at(r) || stack@.contains(
                                    ((r.0 as usize, r.1 as usize)),
                                ),
                            forall|t: int|
                                0 <= t < j ==> self.revealed_at(pos_int(#[trigger] nbrs@[t]))
                                    || self.flagged_at(pos_int(nbrs@[t])) || stack@.contains(
                                    nbrs@[t],
                                ),
                        decreases nbrs@.len() - j,
                    {
                        let nb = nbrs[j];
                        let mut was_pushed: bool = false;
                        let ghost stack_prev = stack@;
                        if !self.is_revealed(nb) && !self.is_flagged(nb) {
                            proof {
                                assert(b0.cascade_ok(pos_int(nb)));
                                let i = choose|i: int|
                                    0 <= i < start0.len() && b0.reachable(pos_int(start0[i]), pp);
                                lemma_reachable_step(b0, pos_int(start0[i]), pp, pos_int(nb));
                            }
                            stack.push(nb);
                            was_pushed = true;
                            proof {
                                assert forall|i: int| 0 <= i < stack@.len() implies b0.cascade_ok(
                                    pos_int(#[trigger] stack@[i]),
                                ) && b0.reachable_from(start0, pos_int(stack@[i])) by {
                                    if i < stack_prev.len() {
                                        assert(stack@[i] == stack_prev[i]);
                                    } else {
                                        assert(stack@[i] == nb);
                                    }
                                }
                                assert forall|i: int| 0 <= i < start0.len() implies
                                    self.revealed_at(pos_int(#[trigger] start0[i]))
                                    || stack@.contains(start0[i]) by {
                                    if !self.revealed_at(pos_int(start0[i])) {
                                        lemma_contains_push(stack_prev, nb, start0[i]);
                                    }
                                }
                                assert forall|q: (int, int), r: (int, int)|
                                    #![trigger self.revealed_at(q), is_neighbor(q, r)]
                                    b0.in_bounds(q) && self.revealed_at(q) && !b0.revealed_at(q)
                                        && !b0.mine_at(q) && b0.adj_mine_count(q) == 0 && q != pp
                                        && is_neighbor(q, r) && b0.cascade_ok(r) implies
                                    self.revealed_at(r) || stack@.contains(
                                    ((r.0 as usize, r.1 as usize)),
                                ) by {
                                    if !self.revealed_at(r) && stack_prev.contains(
                                        ((r.0 as usize, r.1 as usize)),
                                    ) {
                                        lemma_contains_push(
                                            stack_prev,
                                            nb,
                                            ((r.0 as usize, r.1 as usize)),
                                        );
                                    }
                                }
                            }
                        }
                        proof {
                            assert forall|t: int| 0 <= t < j + 1 implies self.revealed_at(
                                pos_int(#[trigger] nbrs@[t]),
                            ) || self.flagged_at(pos_int(nbrs@[t])) || stack@.contains(
                                nbrs@[t],
                            ) by {
                                if t == j {
                                    if was_pushed {
                                        lemma_contains_push(stack_prev, nb, nb);
                                    }
                                } else {
                                    if !self.revealed_at(pos_int(nbrs@[t])) && !self.flagged_at(
                                        pos_int(nbrs@[t]),
                                    ) {
                                        if was_pushed {
                                            lemma_contains_push(stack_prev, nb, nbrs@[t]);
                                        }
                                    }
                                }
                            }
                        }
                        j = j + 1;
                    }
                    proof {
                        assert forall|q: (int, int), r: (int, int)|
                            #![trigger self.revealed_at(q), is_neighbor(q, r)]
                            b0.in_bounds(q) && self.revealed_at(q) && !b0.revealed_at(q)
                                && !b0.mine_at(q) && b0.adj_mine_count(q) == 0 && is_neighbor(q, r)
                                && b0.cascade_ok(r) implies self.revealed_at(r) || stack@.contains(
                            ((r.0 as usize, r.1 as usize)),
                        ) by {
                            if q == pp {
                                let ra = (r.0 as usize, r.1 as usize);
                                assert(nbrs@.contains(ra));
                                let t = choose|t: int| 0 <= t < nbrs@.len() && nbrs@[t] == ra;
                                assert(self.revealed_at(pos_int(nbrs@[t])) || self.flagged_at(
                                    pos_int(nbrs@[t]),
                                ) || stack@.contains(nbrs@[t]));
                                assert(pos_int(ra) == r);
                                assert(!self.flagged_at(r));
                            }
                        }
                    }
                } else {
                    proof {
                        assert(b0.adj_mine_count(pp) != 0);
                    }
                }
            } else {
                proof {
                    assert forall|i: int| 0 <= i < start0.len() implies self.revealed_at(
                        pos_int(#[trigger] start0[i]),
                    ) || stack@.contains(start0[i]) by {
                        if !self.revealed_at(pos_int(start0[i])) {
                            assert(s0.revealed_at(pos_int(start0[i])) || stack_pre.contains(
                                start0[i],
                            ));
                            lemma_contains_drop_last(stack_pre, start0[i]);
                            assert(start0[i] != p);
                        }
                    }
                    assert forall|q: (int, int), r: (int, int)|
                        #![trigger self.revealed_at(q), is_neighbor(q, r)]
                        b0.in_bounds(q) && self.revealed_at(q) && !b0.revealed_at(q)
                            && !b0.mine_at(q) && b0.adj_mine_count(q) == 0 && is_neighbor(q, r)
                            && b0.cascade_ok(r) implies self.revealed_at(r) || stack@.contains(
                        ((r.0 as usize, r.1 as usize)),
                    ) by {
                        if !self.revealed_at(r) {
                            let ra = (r.0 as usize, r.1 as usize);
                            assert(s0.revealed_at(q) && is_neighbor(q, r));
                            assert(!s0.revealed_at(r));
                            assert(s0.revealed_at(r) || stack_pre.contains(ra));
                            lemma_contains_drop_last(stack_pre, ra);
                            if stack_pre.last() == ra {
                                assert(pos_int(ra) == r);
                                assert(r == pp);
                                assert(self.revealed_at(pp));
                                assert(false);
                            }
                        }
                    }
                }
            }
        }
        proof {
            assert forall|q: (int, int)|
                b0.in_bounds(q) && b0.reachable_from(start0, q) implies #[trigger] self.revealed_at(
                q,
            ) by {
                let i = choose|i: int|
                    0 <= i < start0.len() && b0.reachable(pos_int(start0[i]), q);
                let n = choose|n: nat| b0.reaches(pos_int(start0[i]), q, n);
                assert(self.revealed_at(pos_int(start0[i])));
                lemma_reaches_revealed(b0, *self, pos_int(start0[i]), q, n);
            }
            assert forall|i: int| 0 <= i < start0.len() implies !b0.mine_at(
                pos_int(#[trigger] start0[i]),
            ) by {
                assert(self.revealed_at(pos_int(start0[i])));
                assert(b0.cascade_ok(pos_int(start0[i])));
            }
        }
    }

    /// Opens a cell. In order of policy: a lost board or a flagged cell is
    /// left unchanged; re-opening a revealed cell whose adjacent mine count
    /// equals its flagged-neighbor count auto-opens the remaining hidden
    /// unflagged neighbors (chording), and otherwise changes nothing; a
    /// hidden cell is revealed, losing the game on a mine and cascading
    /// through its zero-adjacency region when no mine is adjacent.
    /// Out-of-bounds coordinates are rejected.
    pub fn open(&mut self, position: Position) -> (r: Result<Option<OpenResult>, GameError>)
        requires
            old(self).well_formed(),
        ensures
            final(self).well_formed(),
            final(self).spec_width() == old(self).spec_width(),
            final(self).spec_height() == old(self).spec_height(),
            final(self).spec_mine_count() == old(self).spec_mine_count(),
            forall|q: (int, int)|
                old(self).in_bounds(q) ==> #[trigger] final(self).mine_at(q) == old(self).mine_at(
                    q,
                ),
            forall|q: (int, int)|
                old(self).in_bounds(q) ==> #[trigger] final(self).flagged_at(q) == old(
                    self,
                ).flagged_at(q),
            forall|q: (int, int)|
                old(self).in_bounds(q) && old(self).revealed_at(q)
                    ==> #[trigger] final(self).revealed_at(q),
            r is Err <==> !old(self).in_bounds(pos_int(position)),
            r is Err ==> r->Err_0 == GameError::OutOfBounds && final(self).spec_lost() == old(
                self,
            ).spec_lost() && forall|q: (int, int)|
                old(self).in_bounds(q) ==> #[trigger] final(self).revealed_at(q) == old(
                    self,
                ).revealed_at(q),
            old(self).in_bounds(pos_int(position)) && (old(self).spec_lost() || old(
                self,
            ).flagged_at(pos_int(position))) ==> r == Result::<
                Option<OpenResult>,
                GameError,
            >::Ok(None) && final(self).spec_lost() == old(self).spec_lost() && forall|
                q: (int, int),
            |
                old(self).in_bounds(q) ==> #[trigger] final(self).revealed_at(q) == old(
                    self,
                ).revealed_at(q),
            old(self).in_bounds(pos_int(position)) && !old(self).spec_lost() && !old(
                self,
            ).flagged_at(pos_int(position)) && !old(self).revealed_at(pos_int(position)) && old(
                self,
            ).mine_at(pos_int(position)) ==> r == Result::<Option<OpenResult>, GameError>::Ok(
                Some(OpenResult::Mine),
            ) && final(self).spec_lost() && forall|q: (int, int)|
                old(self).in_bounds(q) ==> (#[trigger] final(self).revealed_at(q) <==> old(
                    self,
                ).revealed_at(q) || q == pos_int(position)),
            old(self).in_bounds(pos_int(position)) && !old(self).spec_lost() && !old(
                self,
            ).flagged_at(pos_int(position)) && !old(self).revealed_at(pos_int(position)) && !old(
                self,
            ).mine_at(pos_int(position)) ==> r == Result::<Option<OpenResult>, GameError>::Ok(
                Some(OpenResult::NoMine(old(self).adj_mine_count(pos_int(position)) as u8)),
            ) && !final(self).spec_lost() && forall|q: (int, int)|
                old(self).in_bounds(q) ==> (#[trigger] final(self).revealed_at(q) <==> old(
                    self,
                ).revealed_at(q) || old(self).reachable(pos_int(position), q)),
            old(self).in_bounds(pos_int(position)) && !old(self).spec_lost() && old(
                self,
            ).revealed_at(pos_int(position)) && old(self).adj_mine_count(pos_int(position)) != old(
                self,
            ).adj_flag_count(pos_int(position)) ==> r == Result::<
                Option<OpenResult>,
                GameError,
            >::Ok(Some(OpenResult::NoMine(old(self).adj_mine_count(pos_int(position)) as u8)))
                && final(self).spec_lost() == old(self).spec_lost() && forall|q: (int, int)|
                old(self).in_bounds(q) ==> #[trigger] final(self).revealed_at(q) == old(
                    self,
                ).revealed_at(q),
            old(self).in_bounds(pos_int(position)) && !old(self).spec_lost() && old(
                self,
            ).revealed_at(pos_int(position)) && old(self).adj_mine_count(pos_int(position)) == old(
                self,
            ).adj_flag_count(pos_int(position)) ==> {
                let hit = exists|s: (int, int)|
                    old(self).chord_target(pos_int(position), s) && old(self).mine_at(s);
                &&& final(self).spec_lost() == hit
                &&& (hit ==> r == Result::<Option<OpenResult>, GameError>::Ok(None))
                &&& (!hit ==> r == Result::<Option<OpenResult>, GameError>::Ok(
                    Some(OpenResult::NoMine(old(self).adj_mine_count(pos_int(position)) as u8)),
                ) && forall|q: (int, int)|
                    old(self).in_bounds(q) ==> (#[trigger] final(self).revealed_at(q) <==> old(
                        self,
                    ).revealed_at(q) || old(self).chord_reachable(pos_int(position), q)))
                &&& forall|q: (int, int)|
                    old(self).in_bounds(q) && #[trigger] final(self).revealed_at(q) ==> old(
                        self,
                    ).revealed_at(q) || old(self).chord_reachable(pos_int(position), q)
            },
    {
        let (x, y) = position;
        if !(x < self.width() && y < self.height()) {
            return Err(GameError::OutOfBounds);
        }
        let ghost ppos = pos_int(position);
        if self.is_lost() || self.is_flagged(position) {
            proof {
                self.lemma_revealed_flagged_exclusive(ppos);
            }
            return Ok(None);
        }
        if self.is_revealed(position) {
            let mc = self.neighboring_mines(position);
            let fc = self.neighboring_flags(position);
            if mc != fc {
                return Ok(Some(OpenResult::NoMine(mc)));
            }
            let ghost b0 = *self;
            proof {
                b0.lemma_dims();
            }
            let nbrs = self.iter_neighbors(position);
            let mut targets: Vec<Position> = Vec::new();
            let mut j: usize = 0;
            while j < nbrs.len()
                invariant
                    b0 == *self,
                    j <= nbrs@.len(),
                    forall|i: int|
                        0 <= i < targets@.len() ==> b0.chord_target(
                            ppos,
                            pos_int(#[trigger] targets@[i]),
                        ),
                    forall|t: int|
                        0 <= t < j ==> (b0.cascade_ok(pos_int(#[trigger] nbrs@[t]))
                            ==> targets@.contains(nbrs@[t])),
                decreases nbrs@.len() - j,
            {
                let nb = nbrs[j];
                let ghost targets_prev = targets@;
                let mut pushed: bool = false;
                if !self.is_revealed(nb) && !self.is_flagged(nb) {
                    targets.push(nb);
                    pushed = true;
                }
                proof {
                    assert forall|t: int|
                        0 <= t < j + 1 && b0.cascade_ok(
                            pos_int(#[trigger] nbrs@[t]),
                        ) implies targets@.contains(nbrs@[t]) by {
                        if t == j {
                            assert(pushed);
                            lemma_contains_push(targets_prev, nb, nb);
                        } else {
                            if pushed {
                                lemma_contains_push(targets_prev, nb, nbrs@[t]);
                            }
                        }
                    }
                }
                j = j + 1;
            }
            let ghost tg = targets@;
            proof {
                assert forall|s: (int, int)|
                    b0.chord_target(ppos, s) implies exists|i: int|
                    0 <= i < tg.len() && pos_int(#[trigger] tg[i]) == s by {
                    let sa = (s.0 as usize, s.1 as usize);
                    assert(nbrs@.contains(sa));
                    let t = choose|t: int| 0 <= t < nbrs@.len() && nbrs@[t] == sa;
                    assert(pos_int(nbrs@[t]) == s);
                    assert(b0.cascade_ok(pos_int(nbrs@[t])));
                    assert(tg.contains(nbrs@[t]));
                    let i = choose|i: int| 0 <= i < tg.len() && tg[i] == sa;
                    assert(pos_int(tg[i]) == s);
                }
            }
            self.run_cascade(targets);
            proof {
                let hit = exists|s: (int, int)| b0.chord_target(ppos, s) && b0.mine_at(s);
                if self.spec_lost() {
                    let i = choose|i: int| 0 <= i < tg.len() && b0.mine_at(pos_int(tg[i]));
                    assert(b0.chord_target(ppos, pos_int(tg[i])) && b0.mine_at(pos_int(tg[i])));
                    assert(hit);
                }
                if hit {
                    let s = choose|s: (int, int)| b0.chord_target(ppos, s) && b0.mine_at(s);
                    let i = choose|i: int| 0 <= i < tg.len() && pos_int(tg[i]) == s;
                    assert(b0.mine_at(pos_int(tg[i])));
                    assert(self.spec_lost());
                }
                assert forall|q: (int, int)|
                    b0.in_bounds(q) implies (b0.reachable_from(tg, q) <==> b0.chord_reachable(
                    ppos,
                    q,
                )) by {
                    if b0.reachable_from(tg, q) {
                        let i = choose|i: int| 0 <= i < tg.len() && b0.reachable(pos_int(tg[i]), q);
                        assert(b0.chord_target(ppos, pos_int(tg[i])) && b0.reachable(
                            pos_int(tg[i]),
                            q,
                        ));
                    }
                    if b0.chord_reachable(ppos, q) {
                        let s = choose|s: (int, int)|
                            b0.chord_target(ppos, s) && b0.reachable(s, q);
                        let i = choose|i: int| 0 <= i < tg.len() && pos_int(tg[i]) == s;
                        assert(0 <= i < tg.len() && b0.reachable(pos_int(tg[i]), q));
                    }
                }
            }
            if self.is_lost() {
                return Ok(None);
            }
            return Ok(Some(OpenResult::NoMine(mc)));
        }
        let ghost b0 = *self;
        proof {
            b0.lemma_dims();
        }
        let mut startv: Vec<Position> = Vec::new();
        startv.push(position);
        let ghost sv = startv@;
        proof {
            assert(sv[0] == position);
            assert(b0.cascade_ok(ppos));
        }
        self.run_cascade(startv);
        proof {
            if self.spec_lost() {
                let i = choose|i: int| 0 <= i < sv.len() && b0.mine_at(pos_int(sv[i]));
                assert(pos_int(sv[i]) == ppos);
            }
            if b0.mine_at(ppos) {
                assert(b0.mine_at(pos_int(sv[0])));
                assert(self.spec_lost());
            }
            assert forall|q: (int, int)|
                b0.in_bounds(q) implies (b0.reachable_from(sv, q) <==> b0.reachable(ppos, q)) by {
                if b0.reachable_from(sv, q) {
                    let i = choose|i: int| 0 <= i < sv.len() && b0.reachable(pos_int(sv[i]), q);
                    assert(pos_int(sv[i]) == ppos);
                }
                if b0.reachable(ppos, q) {
                    assert(0 <= 0 < sv.len() && b0.reachable(pos_int(sv[0]), q));
                }
            }
        }
        if self.is_lost() {
            proof {
                assert(b0.mine_at(ppos));
                assert(!b0.expands(ppos));
                assert forall|q: (int, int)|
                    b0.in_bounds(q) && #[trigger] self.revealed_at(q) implies b0.revealed_at(q) || q
                    == ppos by {
                    if !b0.revealed_at(q) {
                        assert(b0.reachable_from(sv, q));
                        assert(b0.reachable(ppos, q));
                        let n = choose|n: nat| b0.reaches(ppos, q, n);
                        lemma_reachable_only_src(b0, ppos, q, n);
                    }
                }
                let i = choose|i: int|
                    0 <= i < sv.len() && b0.mine_at(pos_int(sv[i])) && self.revealed_at(
                        pos_int(sv[i]),
                    );
                assert(self.revealed_at(ppos));
            }
            return Ok(Some(OpenResult::Mine));
        }
        let mc = self.neighboring_mines(position);
        proof {
            assert(b0.adj_mine_count(ppos) == self.adj_mine_count(ppos));
        }
        Ok(Some(OpenResult::NoMine(mc)))
    }
}

} // verus!
