//! Laws of the engine that relate several operations, proved once and for
//! all over the board's model.
use vstd::prelude::*;

use crate::board::Minesweeper;
use crate::board::Position;
use crate::board::is_neighbor;
use crate::board::pos_int;

verus! {

/// On a board at least 2 cells wide and 2 cells high, a cell has 3 grid
/// neighbors in a corner, 5 on an edge and 8 in the interior — always
/// between 3 and 8.
pub proof fn lemma_neighbor_count_range(b: Minesweeper, p: (int, int))
    requires
        b.well_formed(),
        b.in_bounds(p),
        b.spec_width() >= 2,
        b.spec_height() >= 2,
    ensures
        3 <= b.neighbor_count(p) <= 8,
        ((p.0 == 0 || p.0 == b.spec_width() - 1) && (p.1 == 0 || p.1 == b.spec_height() - 1))
            ==> b.neighbor_count(p) == 3,
        ((p.0 == 0 || p.0 == b.spec_width() - 1) && !(p.1 == 0 || p.1 == b.spec_height() - 1))
            ==> b.neighbor_count(p) == 5,
        (!(p.0 == 0 || p.0 == b.spec_width() - 1) && (p.1 == 0 || p.1 == b.spec_height() - 1))
            ==> b.neighbor_count(p) == 5,
        (0 < p.0 < b.spec_width() - 1 && 0 < p.1 < b.spec_height() - 1) ==> b.neighbor_count(p)
            == 8,
{
}

/// Enumerating the neighbors of a cell is deterministic: any two sequences
/// that satisfy the neighbor characterization hold exactly the same cells,
/// so enumerating twice yields the same set.
pub proof fn lemma_neighbors_deterministic(
    b: Minesweeper,
    p: (int, int),
    s1: Seq<Position>,
    s2: Seq<Position>,
)
    requires
        forall|i: int|
            0 <= i < s1.len() ==> b.in_bounds(pos_int(#[trigger] s1[i])) && is_neighbor(
                p,
                pos_int(s1[i]),
            ),
        forall|q: (int, int)|
            b.in_bounds(q) && is_neighbor(p, q) ==> s1.contains(((q.0 as usize, q.1 as usize))),
        forall|i: int|
            0 <= i < s2.len() ==> b.in_bounds(pos_int(#[trigger] s2[i])) && is_neighbor(
                p,
                pos_int(s2[i]),
            ),
        forall|q: (int, int)|
            b.in_bounds(q) && is_neighbor(p, q) ==> s2.contains(((q.0 as usize, q.1 as usize))),
    ensures
        forall|e: Position| s1.contains(e) <==> s2.contains(e),
{
    assert forall|e: Position| s1.contains(e) implies s2.contains(e) by {
        let i = choose|i: int| 0 <= i < s1.len() && s1[i] == e;
        assert(b.in_bounds(pos_int(e)) && is_neighbor(p, pos_int(e)));
        assert(((pos_int(e).0 as usize, pos_int(e).1 as usize)) == e);
    }
    assert forall|e: Position| s2.contains(e) implies s1.contains(e) by {
        let i = choose|i: int| 0 <= i < s2.len() && s2[i] == e;
        assert(b.in_bounds(pos_int(e)) && is_neighbor(p, pos_int(e)));
        assert(((pos_int(e).0 as usize, pos_int(e).1 as usize)) == e);
    }
}

/// Toggling the flag of a hidden cell twice restores the original flags:
/// two flag states that differ from a common origin by flipping the same
/// cell twice agree with the origin everywhere.
pub proof fn lemma_toggle_twice_restores(
    b0: Minesweeper,
    b1: Minesweeper,
    b2: Minesweeper,
    p: (int, int),
)
    requires
        b0.in_bounds(p),
        b1.spec_width() == b0.spec_width(),
        b1.spec_height() == b0.spec_height(),
        forall|q: (int, int)|
            b0.in_bounds(q) ==> #[trigger] b1.flagged_at(q) == (if q == p {
                !b0.flagged_at(q)
            } else {
                b0.flagged_at(q)
            }),
        forall|q: (int, int)|
            b1.in_bounds(q) ==> #[trigger] b2.flagged_at(q) == (if q == p {
                !b1.flagged_at(q)
            } else {
                b1.flagged_at(q)
            }),
    ensures
        forall|q: (int, int)| b0.in_bounds(q) ==> #[trigger] b2.flagged_at(q) == b0.flagged_at(q),
{
}

} // verus!
