//! The output lattice and its three states.

use vstd::prelude::*;
use crate::seat::{Cell, Seat};

verus! {

/// Where a grid stands on the way to a solution.
#[derive(Clone, Copy, Debug, PartialEq, Eq, Structural)]
pub enum GridState {
    /// No cell is empty, and at least one has more than one candidate.
    Uncollapsed,
    /// Every cell has exactly one candidate.
    Collapsed,
    /// At least one cell has no candidate left.
    Contradicting,
}

/// A `w` by `h` matrix of seats over `num_possibilities` symbols. Rows are
/// the outer index: the seat in column `x` of row `y` is `data[y][x]`.
#[derive(Clone, Debug, PartialEq, Eq)]
pub struct Grid {
    pub data: Vec<Vec<Seat>>,
    pub num_possibilities: usize,
    pub w: usize,
    pub h: usize,
}

/// The mathematical value of a [`Grid`].
#[verifier::ext_equal]
pub struct GridView {
    pub w: nat,
    pub h: nat,
    pub n: nat,
    pub cells: Seq<Seq<Cell>>,
}

impl GridView {
    /// `(y, x)` names a cell of the grid.
    pub open spec fn has(self, y: int, x: int) -> bool {
        0 <= y < self.h && 0 <= x < self.w
    }

    /// The matrix has `h` rows of `w` cells, and every cell is valid for
    /// `n` symbols.
    pub open spec fn wf(self) -> bool {
        &&& self.cells.len() == self.h
        &&& forall|y: int| 0 <= y < self.h ==> (#[trigger] self.cells[y]).len() == self.w
        &&& forall|y: int, x: int| self.has(y, x) ==> (#[trigger] self.cells[y][x]).valid(self.n)
    }

    /// The grid in which nothing is decided yet.
    pub open spec fn blank(w: nat, h: nat, n: nat) -> GridView {
        GridView {
            w,
            h,
            n,
            cells: Seq::new(h, |y: int| Seq::new(w, |x: int| Cell::fresh(n))),
        }
    }

    /// The matrix has `h` rows of `w` cells.
    pub open spec fn shaped(self) -> bool {
        &&& self.cells.len() == self.h
        &&& forall|y: int| 0 <= y < self.h ==> (#[trigger] self.cells[y]).len() == self.w
    }

    /// Some cell has no candidate left.
    pub open spec fn contradicting(self) -> bool {
        exists|y: int, x: int|
            self.has(y, x) && (#[trigger] self.cells[y][x]).candidates().len() == 0
    }

    /// Every cell has exactly one candidate.
    pub open spec fn solved(self) -> bool {
        forall|y: int, x: int|
            self.has(y, x) ==> (#[trigger] self.cells[y][x]).candidates().len() == 1
    }

    /// The state of the grid. A contradiction is reported before anything
    /// else.
    pub open spec fn state(self) -> GridState {
        if self.contradicting() {
            GridState::Contradicting
        } else if self.solved() {
            GridState::Collapsed
        } else {
            GridState::Uncollapsed
        }
    }

    /// The same grid with the cell at `(y, x)` replaced.
    pub open spec fn with_cell(self, y: int, x: int, cell: Cell) -> GridView {
        GridView { cells: self.cells.update(y, self.cells[y].update(x, cell)), ..self }
    }
}

impl View for Grid {
    type V = GridView;

    open spec fn view(&self) -> GridView {
        GridView {
            w: self.w as nat,
            h: self.h as nat,
            n: self.num_possibilities as nat,
            cells: Seq::new(
                self.data@.len(),
                |y: int| Seq::new(self.data@[y]@.len(), |x: int| self.data@[y]@[x]@),
            ),
        }
    }
}

impl Grid {
    /// The stored matrix has `h` rows of `w` seats, and every seat is valid
    /// for `num_possibilities` symbols.
    pub open spec fn wf(&self) -> bool {
        &&& self.data@.len() == self.h
        &&& forall|y: int| 0 <= y < self.h ==> (#[trigger] self.data@[y])@.len() == self.w
        &&& forall|y: int, x: int|
            0 <= y < self.h && 0 <= x < self.w ==> (#[trigger] self.data@[y]@[x])@.valid(
                self.num_possibilities as nat,
            )
    }

    /// The value of a well-formed grid is well-formed, and its cells are the
    /// values of the stored seats.
    pub proof fn lemma_view(&self)
        requires
            self.wf(),
        ensures
            self@.wf(),
            forall|y: int, x: int|
                0 <= y < self.h && 0 <= x < self.w ==> #[trigger] self@.cells[y][x]
                    == self.data@[y]@[x]@,
    {
        assert forall|y: int| 0 <= y < self.h implies (#[trigger] self@.cells[y]).len()
            == self.w by {
            assert(self.data@[y]@.len() == self.w);
        }
        assert forall|y: int, x: int| 0 <= y < self.h && 0 <= x < self.w implies (
        #[trigger] self@.cells[y][x]) == self.data@[y]@[x]@ && self@.cells[y][x].valid(
            self@.n,
        ) by {
            assert(self.data@[y]@.len() == self.w);
            assert(self.data@[y]@[x]@.valid(self.num_possibilities as nat));
        }
    }

    /// A grid of `w` columns and `h` rows in which every seat is new.
    pub fn new(w: usize, h: usize, num_possibilities: usize) -> (grid: Grid)
        ensures
            grid.wf(),
            grid@ == GridView::blank(w as nat, h as nat, num_possibilities as nat),
    {
        let mut data: Vec<Vec<Seat>> = Vec::new();
        let mut y: usize = 0;
        while y < h
            invariant
                y <= h,
                data@.len() == y,
                forall|v: int| 0 <= v < y ==> (#[trigger] data@[v])@.len() == w,
                forall|v: int, u: int|
                    0 <= v < y && 0 <= u < w ==> (#[trigger] data@[v]@[u])@ == Cell::fresh(
                        num_possibilities as nat,
                    ),
            decreases h - y,
        {
            let mut row: Vec<Seat> = Vec::new();
            let mut x: usize = 0;
            while x < w
                invariant
                    x <= w,
                    row@.len() == x,
                    forall|u: int|
                        0 <= u < x ==> (#[trigger] row@[u])@ == Cell::fresh(
                            num_possibilities as nat,
                        ),
                decreases w - x,
            {
                row.push(Seat::new(num_possibilities));
                x += 1;
            }
            data.push(row);
            y += 1;
        }
        let grid = Grid { data, num_possibilities, w, h };
        proof {
            let blank = GridView::blank(w as nat, h as nat, num_possibilities as nat);
            assert forall|v: int| 0 <= v < h implies #[trigger] grid@.cells[v] == blank.cells[v] by {
                assert(grid@.cells[v] =~= blank.cells[v]);
            }
            assert(grid@.cells =~= blank.cells);
        }
        grid
    }

    /// Whether the stored matrix has the declared shape and holds valid
    /// seats.
    pub fn is_valid(&self) -> (ok: bool)
        ensures
            ok == self.wf(),
    {
        if self.data.len() != self.h {
            return false;
        }
        let mut y: usize = 0;
        while y < self.h
            invariant
                self.data@.len() == self.h,
                y <= self.h,
                forall|v: int| 0 <= v < y ==> (#[trigger] self.data@[v])@.len() == self.w,
                forall|v: int, u: int|
                    0 <= v < y && 0 <= u < self.w ==> (#[trigger] self.data@[v]@[u])@.valid(
                        self.num_possibilities as nat,
                    ),
            decreases self.h - y,
        {
            if self.data[y].len() != self.w {
                return false;
            }
            let mut x: usize = 0;
            while x < self.w
                invariant
                    self.data@.len() == self.h,
                    y < self.h,
                    self.data@[y as int]@.len() == self.w,
                    x <= self.w,
                    forall|u: int|
                        0 <= u < x ==> (#[trigger] self.data@[y as int]@[u])@.valid(
                            self.num_possibilities as nat,
                        ),
                decreases self.w - x,
            {
                if !self.data[y][x].is_valid(self.num_possibilities) {
                    return false;
                }
                x += 1;
            }
            y += 1;
        }
        true
    }

    /// The seat in column `x` of row `y`.
    pub fn get(&self, y: usize, x: usize) -> (seat: &Seat)
        requires
            self.wf(),
            y < self.h,
            x < self.w,
        ensures
            seat@ == self@.cells[y as int][x as int],
    {
        proof {
            self.lemma_view();
        }
        &self.data[y][x]
    }

    /// Puts `seat` in column `x` of row `y`.
    pub fn set(&mut self, y: usize, x: usize, seat: Seat)
        requires
            old(self).wf(),
            y < old(self).h,
            x < old(self).w,
            seat@.valid(old(self).num_possibilities as nat),
        ensures
            final(self).wf(),
            final(self).w == old(self).w,
            final(self).h == old(self).h,
            final(self).num_possibilities == old(self).num_possibilities,
            final(self)@ == old(self)@.with_cell(y as int, x as int, seat@),
    {
        let ghost before = self@;
        self.data[y][x] = seat;
        proof {
            let after = before.with_cell(y as int, x as int, seat@);
            assert forall|v: int, u: int| 0 <= v < self.h && 0 <= u < self.w implies (
            #[trigger] self.data@[v]@[u])@.valid(self.num_possibilities as nat) by {
                assert(old(self).data@[v]@[u]@.valid(self.num_possibilities as nat));
            }
            assert forall|v: int| 0 <= v < self.h implies #[trigger] self@.cells[v]
                == after.cells[v] by {
                assert(self@.cells[v] =~= after.cells[v]);
            }
            assert(self@.cells =~= after.cells);
        }
    }

    /// Where the grid stands: contradicting if a seat has no candidate,
    /// collapsed if every seat has exactly one, uncollapsed otherwise.
    pub fn get_state(&self) -> (state: GridState)
        requires
            self.wf(),
        ensures
            state == self@.state(),
            state == GridState::Collapsed <==> self@.solved(),
            state == GridState::Contradicting <==> self@.contradicting(),
    {
        proof {
            self.lemma_view();
        }
        let mut empty_seen = false;
        let mut all_single = true;
        let mut y: usize = 0;
        while y < self.h
            invariant
                self.wf(),
                y <= self.h,
                empty_seen <==> exists|v: int, u: int|
                    0 <= v < y && 0 <= u < self.w && (#[trigger] self@.cells[v][u]).candidates().len()
                        == 0,
                all_single <==> forall|v: int, u: int|
                    0 <= v < y && 0 <= u < self.w ==> (#[trigger] self@.cells[v][u]).candidates().len()
                        == 1,
            decreases self.h - y,
        {
            let mut x: usize = 0;
            while x < self.w
                invariant
                    self.wf(),
                    y < self.h,
                    x <= self.w,
                    empty_seen <==> exists|v: int, u: int|
                        (0 <= v < y && 0 <= u < self.w || v == y && 0 <= u < x) && (
                        #[trigger] self@.cells[v][u]).candidates().len() == 0,
                    all_single <==> forall|v: int, u: int|
                        (0 <= v < y && 0 <= u < self.w || v == y && 0 <= u < x) ==> (
                        #[trigger] self@.cells[v][u]).candidates().len() == 1,
                decreases self.w - x,
            {
                let count: usize = match &self.data[y][x] {
                    Seat::Collapsed(_) => 1,
                    Seat::Uncertain(ids) => ids.len(),
                };
                assert(count == self@.cells[y as int][x as int].candidates().len());
                if count == 0 {
                    empty_seen = true;
                }
                if count != 1 {
                    all_single = false;
                }
                x += 1;
            }
            y += 1;
        }
        if empty_seen {
            GridState::Contradicting
        } else if all_single {
            GridState::Collapsed
        } else {
            GridState::Uncollapsed
        }
    }
}

} // verus!
