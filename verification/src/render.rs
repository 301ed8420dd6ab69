//! Rendering the board: one symbol per cell, one line per row.
use vstd::prelude::*;

use crate::board::Minesweeper;
use crate::board::Position;
use crate::board::pos_int;

verus! {

/// The digit symbol for an adjacent-mine count.
pub open spec fn digit_char(n: int) -> char {
    if n == 1 {
        '1'
    } else if n == 2 {
        '2'
    } else if n == 3 {
        '3'
    } else if n == 4 {
        '4'
    } else if n == 5 {
        '5'
    } else if n == 6 {
        '6'
    } else if n == 7 {
        '7'
    } else if n == 8 {
        '8'
    } else {
        ' '
    }
}

/// Rows are rendered at width-plus-one characters each, the extra one being
/// the newline.
pub open spec fn row_stride(w: int) -> int {
    w + 1
}

impl Minesweeper {
    /// The symbol a cell shows. In priority order: a hidden cell shows the
    /// mine once the game is lost, else its flag, else stays covered; a
    /// revealed cell shows its mine, the digit of a positive adjacent-mine
    /// count, or a cleared blank.
    pub open spec fn spec_cell_char(self, p: (int, int)) -> char {
        if !self.revealed_at(p) {
            if self.spec_lost() && self.mine_at(p) {
                '*'
            } else if self.flagged_at(p) {
                'F'
            } else {
                '#'
            }
        } else if self.mine_at(p) {
            '*'
        } else if self.adj_mine_count(p) > 0 {
            digit_char(self.adj_mine_count(p))
        } else {
            '.'
        }
    }

    /// Index of a cell's symbol in the rendered text.
    pub open spec fn render_index(self, p: (int, int)) -> int {
        p.1 * row_stride(self.spec_width()) + p.0
    }

    fn cell_symbol(&self, pos: Position) -> (c: char)
        requires
            self.well_formed(),
            self.in_bounds(pos_int(pos)),
        ensures
            c == self.spec_cell_char(pos_int(pos)),
    {
        if !self.is_revealed(pos) {
            if self.is_lost() && self.is_mine(pos) {
                '*'
            } else if self.is_flagged(pos) {
                'F'
            } else {
                '#'
            }
        } else if self.is_mine(pos) {
            '*'
        } else {
            let mc = self.neighboring_mines(pos);
            match mc {
                0 => '.',
                1 => '1',
                2 => '2',
                3 => '3',
                4 => '4',
                5 => '5',
                6 => '6',
                7 => '7',
                _ => '8',
            }
        }
    }

    /// The grid as symbols in row-major order, each row closed by a newline.
    pub fn render_cells(&self) -> (v: Vec<char>)
        requires
            self.well_formed(),
        ensures
            v@.len() == self.spec_height() * row_stride(self.spec_width()),
            forall|p: (int, int)|
                self.in_bounds(p) ==> v@[self.render_index(p)] == #[trigger] self.spec_cell_char(
                    p,
                ),
            forall|yy: int|
                0 <= yy < self.spec_height() ==> v@[#[trigger] self.render_index(
                    (self.spec_width(), yy),
                )] == '\n',
    {
        let ghost w = self.spec_width();
        let ghost h = self.spec_height();
        proof {
            self.lemma_dims();
        }
        let mut v: Vec<char> = Vec::new();
        let mut y: usize = 0;
        while y < self.height()
            invariant
                y <= h,
                v@.len() == y * row_stride(w),
                forall|p: (int, int)|
                    self.in_bounds(p) && p.1 < y ==> v@[self.render_index(p)]
                        == #[trigger] self.spec_cell_char(p),
                forall|yy: int|
                    0 <= yy < y ==> v@[#[trigger] self.render_index((w, yy))] == '\n',
            decreases h - y,
        {
            let mut x: usize = 0;
            while x < self.width()
                invariant
                    y < h,
                    x <= w,
                    v@.len() == y * row_stride(w) + x,
                    forall|p: (int, int)|
                        self.in_bounds(p) && p.1 < y ==> v@[self.render_index(p)]
                            == #[trigger] self.spec_cell_char(p),
                    forall|yy: int|
                        0 <= yy < y ==> v@[#[trigger] self.render_index((w, yy))] == '\n',
                    forall|p: (int, int)|
                        self.in_bounds(p) && p.1 == y && p.0 < x ==> v@[self.render_index(p)]
                            == #[trigger] self.spec_cell_char(p),
                decreases w - x,
            {
                let c = self.cell_symbol((x, y));
                let ghost v_prev = v@;
                v.push(c);
                proof {
                    assert forall|p: (int, int)|
                        self.in_bounds(p) && (p.1 < y || (p.1 == y && p.0 < x + 1)) implies v@[self.render_index(
                        p,
                    )] == #[trigger] self.spec_cell_char(p) by {
                        if p.1 == y && p.0 == x {
                            assert(v@[v_prev.len() as int] == c);
                        } else {
                            lemma_render_lt(w, p.0, p.1, x as int, y as int);
                            assert(v@[self.render_index(p)] == v_prev[self.render_index(p)]);
                        }
                    }
                    assert forall|yy: int| 0 <= yy < y implies v@[#[trigger] self.render_index(
                        (w, yy),
                    )] == '\n' by {
                        lemma_render_lt(w, w, yy, x as int, y as int);
                        assert(v@[self.render_index((w, yy))] == v_prev[self.render_index(
                            (w, yy),
                        )]);
                    }
                }
                x = x + 1;
            }
            let ghost v_prev = v@;
            v.push('\n');
            proof {
                assert forall|p: (int, int)|
                    self.in_bounds(p) && p.1 < y + 1 implies v@[self.render_index(p)]
                    == #[trigger] self.spec_cell_char(p) by {
                    lemma_render_lt(w, p.0, p.1, w, y as int);
                    assert(v@[self.render_index(p)] == v_prev[self.render_index(p)]);
                }
                assert forall|yy: int| 0 <= yy < y + 1 implies v@[#[trigger] self.render_index(
                    (w, yy),
                )] == '\n' by {
                    if yy == y {
                        assert(v@[v_prev.len() as int] == '\n');
                    } else {
                        lemma_render_lt(w, w, yy, w, y as int);
                        assert(v@[self.render_index((w, yy))] == v_prev[self.render_index(
                            (w, yy),
                        )]);
                    }
                }
                assert((y + 1) * row_stride(w) == y * row_stride(w) + row_stride(w))
                    by (nonlinear_arith);
            }
            y = y + 1;
        }
        v
    }

    /// The grid rendered as text: `render_cells` joined into one string.
    pub fn render(&self) -> (s: String)
        requires
            self.well_formed(),
        ensures
            s@.len() == self.spec_height() * row_stride(self.spec_width()),
            forall|p: (int, int)|
                self.in_bounds(p) ==> s@[self.render_index(p)] == #[trigger] self.spec_cell_char(
                    p,
                ),
            forall|yy: int|
                0 <= yy < self.spec_height() ==> s@[#[trigger] self.render_index(
                    (self.spec_width(), yy),
                )] == '\n',
    {
        let v = self.render_cells();
        chars_to_string(&v)
    }
}

/// Row-major rendering order: an earlier cell has a smaller index.
proof fn lemma_render_lt(w: int, x1: int, y1: int, x2: int, y2: int)
    requires
        0 <= x1 <= w,
        0 <= y1,
        0 <= x2,
        y1 < y2 || (y1 == y2 && x1 < x2),
    ensures
        0 <= y1 * row_stride(w) + x1 < y2 * row_stride(w) + x2,
{
    assert(0 <= y1 * (w + 1) + x1 < y2 * (w + 1) + x2) by (nonlinear_arith)
        requires
            0 <= x1 <= w,
            0 <= y1,
            0 <= x2,
            y1 < y2 || (y1 == y2 && x1 < x2),
    ;
}

/// Relies on String::from_iter over the characters: the resulting string
/// holds exactly the given characters in order.
#[verifier::external_body]
fn chars_to_string(v: &Vec<char>) -> (s: String)
    ensures
        s@ == v@,
{
    v.iter().collect()
}

} // verus!
