//! A flat grid of marks.

use vstd::prelude::*;

verus! {

/// How many entries of a sequence are false.
pub open spec fn unmarked(s: Seq<bool>) -> nat
    decreases s.len(),
{
    if s.len() == 0 {
        0
    } else {
        unmarked(s.drop_last()) + if s.last() {
            0nat
        } else {
            1nat
        }
    }
}

/// Marking an entry that was not marked leaves one fewer unmarked.
proof fn lemma_marking(s: Seq<bool>, i: int)
    requires
        0 <= i < s.len(),
    ensures
        unmarked(s.update(i, true)) == unmarked(s) - if s[i] {
            0int
        } else {
            1int
        },
    decreases s.len(),
{
    let t = s.update(i, true);
    if i == s.len() - 1 {
        assert(t.drop_last() =~= s.drop_last());
    } else {
        assert(t.drop_last() =~= s.drop_last().update(i, true));
        lemma_marking(s.drop_last(), i);
    }
}

/// A cell of a grid has a place of its own in the rows.
pub proof fn lemma_cell(w: int, h: int, x: int, y: int)
    requires
        0 <= x < w,
        0 <= y < h,
    ensures
        0 <= y * w + x < w * h,
        0 <= y * w,
        forall|a: int, b: int|
            #![trigger b * w + a]
            0 <= a < w && 0 <= b < h && b * w + a == y * w + x ==> a == x && b == y,
{
    assert(0 <= y * w + x < w * h) by (nonlinear_arith)
        requires
            0 <= x < w,
            0 <= y < h,
    ;
    assert(0 <= y * w) by (nonlinear_arith)
        requires
            0 <= x < w,
            0 <= y < h,
    ;
    assert forall|a: int, b: int|
        #![trigger b * w + a]
        0 <= a < w && 0 <= b < h && b * w + a == y * w + x implies a == x && b == y by {
        vstd::arithmetic::div_mod::lemma_fundamental_div_mod_converse(y * w + x, w, y, x);
        vstd::arithmetic::div_mod::lemma_fundamental_div_mod_converse(y * w + x, w, b, a);
    }
}

/// A grid of marks: a flat block rather than a sparse map, for work that touches its cells in
/// order and asks about neighbours constantly.
pub struct Grid {
    w: usize,
    h: usize,
    cells: Vec<bool>,
}

impl Grid {
    /// How many columns.
    pub closed spec fn cols(&self) -> int {
        self.w as int
    }

    /// How many rows.
    pub closed spec fn rows(&self) -> int {
        self.h as int
    }

    /// One mark for each cell.
    pub closed spec fn wf(&self) -> bool {
        self.cells@.len() == self.w * self.h
    }

    /// Whether a position is on the grid.
    pub open spec fn on(&self, x: int, y: int) -> bool {
        0 <= x < self.cols() && 0 <= y < self.rows()
    }

    /// Whether a cell is marked.
    pub closed spec fn at(&self, x: int, y: int) -> bool {
        self.cells@[y * self.w + x]
    }

    /// How many cells are not marked.
    pub closed spec fn blanks(&self) -> nat {
        unmarked(self.cells@)
    }

    /// A grid with nothing marked.
    pub fn new(w: usize, h: usize) -> (g: Grid)
        requires
            w * h <= usize::MAX,
        ensures
            g.wf(),
            g.cols() == w,
            g.rows() == h,
            forall|x: int, y: int| g.on(x, y) ==> !#[trigger] g.at(x, y),
    {
        let g = Grid { w, h, cells: vec![false; w * h] };
        assert forall|x: int, y: int| g.on(x, y) implies !#[trigger] g.at(x, y) by {
            lemma_cell(w as int, h as int, x, y);
        }
        g
    }

    /// How many columns.
    pub fn width(&self) -> (w: usize)
        ensures
            w == self.cols(),
    {
        self.w
    }

    /// How many rows.
    pub fn height(&self) -> (h: usize)
        ensures
            h == self.rows(),
    {
        self.h
    }

    /// The same grid over again.
    pub fn copy(&self) -> (g: Grid)
        requires
            self.wf(),
        ensures
            g.wf(),
            g.cols() == self.cols(),
            g.rows() == self.rows(),
            forall|x: int, y: int| #[trigger] g.at(x, y) == self.at(x, y),
    {
        let cells = self.cells.clone();
        assert(cells@ =~= self.cells@);
        Grid { w: self.w, h: self.h, cells }
    }

    /// Whether a cell is marked.
    pub fn get(&self, x: usize, y: usize) -> (r: bool)
        requires
            self.wf(),
            self.on(x as int, y as int),
        ensures
            r == self.at(x as int, y as int),
    {
        proof {
            lemma_cell(self.w as int, self.h as int, x as int, y as int);
            assert(self.cells.len() == self.cells@.len());
        }
        self.cells[y * self.w + x]
    }

    /// Mark a cell.
    pub fn mark(&mut self, x: usize, y: usize)
        requires
            old(self).wf(),
            old(self).on(x as int, y as int),
        ensures
            final(self).wf(),
            final(self).cols() == old(self).cols(),
            final(self).rows() == old(self).rows(),
            forall|a: int, b: int|
                old(self).on(a, b) ==> #[trigger] final(self).at(a, b) == (old(self).at(a, b) || (a
                    == x && b == y)),
            final(self).blanks() <= old(self).blanks(),
            !old(self).at(x as int, y as int) ==> final(self).blanks() < old(self).blanks(),
    {
        proof {
            lemma_cell(self.w as int, self.h as int, x as int, y as int);
            lemma_marking(self.cells@, y * self.w + x);
            assert(self.cells.len() == self.cells@.len());
        }
        let ghost before = *self;
        self.cells.set(y * self.w + x, true);
        assert forall|a: int, b: int| before.on(a, b) implies #[trigger] self.at(a, b) == (before.at(
            a,
            b,
        ) || (a == x && b == y)) by {
            lemma_cell(self.w as int, self.h as int, a, b);
        }
    }
}

} // verus!
