//! Choosing the next cell to decide: the open cell of least entropy.
//!
//! Entropy is a logarithm of weights, which this crate does not compute.
//! The caller ranks the cells instead: a table of integers that orders
//! the cells as their entropy does, a smaller rank for a lower entropy.
//! A cell with a single candidate is decided, whether it is stored so or
//! not: it is never chosen, and its rank is not read.

use vstd::prelude::*;
use crate::grid::{Grid, GridView};
use crate::seat::{Cell, Seat};

verus! {

/// The rank of a cell that can never be chosen.
pub const UNRANKED: i64 = 0x7fff_ffff_ffff_ffff;

/// The ranks of a table, row by row.
pub open spec fn table(ranks: &Vec<Vec<i64>>) -> Seq<Seq<i64>> {
    Seq::new(ranks@.len(), |y: int| ranks@[y]@)
}

/// The table has a rank for every cell of a `w` by `h` grid.
pub open spec fn table_fits(ranks: Seq<Seq<i64>>, w: nat, h: nat) -> bool {
    &&& ranks.len() == h
    &&& forall|y: int| 0 <= y < h ==> (#[trigger] ranks[y]).len() == w
}

/// Whether the table has a rank for every cell of a `w` by `h` grid.
pub fn table_ok(ranks: &Vec<Vec<i64>>, w: usize, h: usize) -> (ok: bool)
    ensures
        ok == table_fits(table(ranks), w as nat, h as nat),
{
    if ranks.len() != h {
        return false;
    }
    let mut y: usize = 0;
    while y < h
        invariant
            ranks@.len() == h,
            y <= h,
            forall|v: int| 0 <= v < y ==> (#[trigger] table(ranks)[v]).len() == w,
        decreases h - y,
    {
        if ranks[y].len() != w {
            assert(table(ranks)[y as int].len() != w);
            return false;
        }
        y += 1;
    }
    true
}

/// `(v, u)` comes before `(y, x)` when the grid is read row by row.
pub open spec fn precedes(v: int, u: int, y: int, x: int) -> bool {
    v < y || (v == y && u < x)
}

impl GridView {
    /// The grid with every cell that has one candidate left decided.
    pub open spec fn finalized(self) -> GridView {
        GridView {
            cells: Seq::new(
                self.h,
                |y: int| Seq::new(self.w, |x: int| self.cells[y][x].finalized()),
            ),
            ..self
        }
    }

    /// The cell at `(y, x)` is open: it is not decided, and the number of
    /// its candidates is not one.
    pub open spec fn open_at(self, y: int, x: int) -> bool {
        self.has(y, x) && self.cells[y][x] is Uncertain && self.cells[y][x].candidates().len()
            != 1
    }

    /// The rank that the table gives the cell at `(y, x)`.
    pub open spec fn rank_at(self, ranks: Seq<Seq<i64>>, y: int, x: int) -> int {
        ranks[y][x] as int
    }

    /// Some open cell has a rank below `UNRANKED`.
    pub open spec fn has_choice(self, ranks: Seq<Seq<i64>>) -> bool {
        exists|y: int, x: int| #[trigger]
            self.open_at(y, x) && self.rank_at(ranks, y, x) < UNRANKED
    }

    /// `(y, x)` is the open cell of least rank, and the first in reading
    /// order of those that share that rank.
    pub open spec fn is_choice(self, ranks: Seq<Seq<i64>>, y: int, x: int) -> bool {
        &&& self.open_at(y, x)
        &&& self.rank_at(ranks, y, x) < UNRANKED
        &&& forall|v: int, u: int| #[trigger]
            self.open_at(v, u) ==> {
                &&& self.rank_at(ranks, y, x) <= self.rank_at(ranks, v, u)
                &&& self.rank_at(ranks, v, u) == self.rank_at(ranks, y, x) ==> !precedes(
                    v,
                    u,
                    y,
                    x,
                )
            }
    }
}

impl GridView {
    /// The cell that the next step decides: the choice by rank, if there is
    /// one.
    pub open spec fn target(self, ranks: Seq<Seq<i64>>) -> Option<(int, int)> {
        if self.has_choice(ranks) {
            Some(choose|p: (int, int)| self.is_choice(ranks, p.0, p.1))
        } else {
            None
        }
    }
}

/// At most one cell is the choice.
pub proof fn lemma_choice_unique(
    grid: GridView,
    ranks: Seq<Seq<i64>>,
    y1: int,
    x1: int,
    y2: int,
    x2: int,
)
    requires
        grid.is_choice(ranks, y1, x1),
        grid.is_choice(ranks, y2, x2),
    ensures
        y1 == y2,
        x1 == x2,
{
    assert(grid.open_at(y1, x1));
    assert(grid.open_at(y2, x2));
}

impl GridView {
    /// Some open cell before `(by, bx)` has a rank below `UNRANKED`.
    pub open spec fn has_choice_before(self, ranks: Seq<Seq<i64>>, by: int, bx: int) -> bool {
        exists|y: int, x: int| #[trigger]
            self.open_at(y, x) && precedes(y, x, by, bx) && self.rank_at(ranks, y, x) < UNRANKED
    }

    /// `p` is the choice among the cells before `(by, bx)`.
    pub open spec fn is_choice_before(
        self,
        ranks: Seq<Seq<i64>>,
        p: (int, int),
        by: int,
        bx: int,
    ) -> bool {
        &&& self.open_at(p.0, p.1)
        &&& precedes(p.0, p.1, by, bx)
        &&& self.rank_at(ranks, p.0, p.1) < UNRANKED
        &&& forall|v: int, u: int| #[trigger]
            self.open_at(v, u) && precedes(v, u, by, bx) ==> {
                &&& self.rank_at(ranks, p.0, p.1) <= self.rank_at(ranks, v, u)
                &&& self.rank_at(ranks, v, u) == self.rank_at(ranks, p.0, p.1) ==> !precedes(
                    v,
                    u,
                    p.0,
                    p.1,
                )
            }
    }

    /// Reading the grid up to `(by, bx)`: where some open cell read so far
    /// has a rank below `UNRANKED`, one of the cells read is the choice
    /// among them.
    pub proof fn lemma_choice_before(self, ranks: Seq<Seq<i64>>, by: int, bx: int)
        requires
            0 <= by <= self.h,
            0 <= bx <= self.w,
            by == self.h ==> bx == 0,
        ensures
            self.has_choice_before(ranks, by, bx) ==> exists|p: (int, int)|
                self.is_choice_before(ranks, p, by, bx),
        decreases by, bx,
    {
        if bx > 0 {
            let cx = bx - 1;
            self.lemma_choice_before(ranks, by, cx);
            assert forall|v: int, u: int|
                precedes(v, u, by, bx) <==> precedes(v, u, by, cx) || (v == by && u == cx) by {}
            let here = (by, cx);
            let here_counts = self.open_at(by, cx) && self.rank_at(ranks, by, cx) < UNRANKED;
            if self.has_choice_before(ranks, by, cx) {
                let p = choose|p: (int, int)| self.is_choice_before(ranks, p, by, cx);
                if here_counts && self.rank_at(ranks, by, cx) < self.rank_at(ranks, p.0, p.1) {
                    assert(self.is_choice_before(ranks, here, by, bx));
                } else {
                    assert(self.is_choice_before(ranks, p, by, bx));
                }
            } else if here_counts {
                assert forall|v: int, u: int| #[trigger]
                    self.open_at(v, u) && precedes(v, u, by, cx) implies self.rank_at(ranks, v, u)
                    >= UNRANKED by {
                    if self.rank_at(ranks, v, u) < UNRANKED {
                        assert(self.open_at(v, u) && precedes(v, u, by, cx));
                    }
                }
                assert(self.is_choice_before(ranks, here, by, bx));
            } else {
                if self.has_choice_before(ranks, by, bx) {
                    let (v, u) = choose|v: int, u: int| #[trigger]
                        self.open_at(v, u) && precedes(v, u, by, bx) && self.rank_at(ranks, v, u)
                            < UNRANKED;
                    assert(self.open_at(v, u) && precedes(v, u, by, cx));
                }
            }
        } else if by > 0 {
            let py = by - 1;
            let pw = self.w as int;
            self.lemma_choice_before(ranks, py, pw);
            assert forall|v: int, u: int| #[trigger]
                self.open_at(v, u) implies (precedes(v, u, by, 0) <==> precedes(v, u, py, pw)) by {}
            if self.has_choice_before(ranks, by, 0) {
                let (v, u) = choose|v: int, u: int| #[trigger]
                    self.open_at(v, u) && precedes(v, u, by, 0) && self.rank_at(ranks, v, u)
                        < UNRANKED;
                assert(self.open_at(v, u) && precedes(v, u, py, pw));
                let p = choose|p: (int, int)| self.is_choice_before(ranks, p, py, pw);
                assert(self.is_choice_before(ranks, p, by, 0));
            }
        } else {
            if self.has_choice_before(ranks, 0, 0) {
                let (v, u) = choose|v: int, u: int| #[trigger]
                    self.open_at(v, u) && precedes(v, u, 0, 0) && self.rank_at(ranks, v, u)
                        < UNRANKED;
            }
        }
    }
}

/// Where some open cell has a rank below `UNRANKED`, one cell is the
/// choice: the target of a step is well defined.
pub proof fn lemma_choice_exists(grid: GridView, ranks: Seq<Seq<i64>>)
    requires
        grid.has_choice(ranks),
    ensures
        exists|p: (int, int)| grid.is_choice(ranks, p.0, p.1),
{
    let (y, x) = choose|y: int, x: int| #[trigger]
        grid.open_at(y, x) && grid.rank_at(ranks, y, x) < UNRANKED;
    let rows = grid.h as int;
    assert(grid.open_at(y, x) && precedes(y, x, rows, 0));
    grid.lemma_choice_before(ranks, rows, 0);
    let p = choose|p: (int, int)| grid.is_choice_before(ranks, p, rows, 0);
    assert forall|v: int, u: int| #[trigger] grid.open_at(v, u) implies precedes(v, u, rows, 0) by {}
    assert(grid.is_choice(ranks, p.0, p.1));
}

/// A cell with a single candidate is passed over, whether it is decided yet
/// or not: it is not open and never the choice, and deciding it changes
/// neither its candidates nor that. Deciding such cells opens or closes no
/// cell of the grid.
pub proof fn lemma_single_candidate_is_passed_over(
    grid: GridView,
    ranks: Seq<Seq<i64>>,
    y: int,
    x: int,
)
    requires
        grid.has(y, x),
        grid.cells[y][x].candidates().len() == 1,
    ensures
        !grid.open_at(y, x),
        !grid.is_choice(ranks, y, x),
        grid.finalized().cells[y][x] == Cell::Collapsed(grid.cells[y][x].candidates()[0]),
        !grid.finalized().open_at(y, x),
        !grid.finalized().is_choice(ranks, y, x),
        forall|v: int, u: int| grid.finalized().open_at(v, u) == grid.open_at(v, u),
{
    assert forall|v: int, u: int| grid.finalized().open_at(v, u) == grid.open_at(v, u) by {
        if grid.has(v, u) {
            assert(grid.finalized().cells[v][u] == grid.cells[v][u].finalized());
        }
    }
}

impl Grid {
    /// Reads the grid row by row, decides every seat that has a single
    /// candidate left, and returns the position `(y, x)` of the open seat of
    /// least rank, the first of them where several share it. Decided seats
    /// are passed over, and so are those decided during this reading. Where
    /// no open seat has a rank below `UNRANKED`, there is no position.
    pub fn select(&mut self, ranks: &Vec<Vec<i64>>) -> (at: Option<(usize, usize)>)
        requires
            old(self).wf(),
            table_fits(table(ranks), old(self).w as nat, old(self).h as nat),
        ensures
            final(self).wf(),
            final(self).w == old(self).w,
            final(self).h == old(self).h,
            final(self).num_possibilities == old(self).num_possibilities,
            final(self)@ == old(self)@.finalized(),
            at is Some <==> old(self)@.has_choice(table(ranks)),
            at matches Some(p) ==> p.0 < old(self).h && p.1 < old(self).w && old(self)@.is_choice(
                table(ranks),
                p.0 as int,
                p.1 as int,
            ),
            old(self)@.target(table(ranks)) == match at {
                Some(p) => Some((p.0 as int, p.1 as int)),
                None => None,
            },
    {
        let ghost start = self@;
        let ghost tab = table(ranks);
        proof {
            self.lemma_view();
        }
        let mut best: (usize, usize) = (0, 0);
        let mut least: i64 = UNRANKED;
        let mut y: usize = 0;
        while y < self.h
            invariant
                self.wf(),
                start.wf(),
                tab == table(ranks),
                table_fits(tab, start.w, start.h),
                self.w == old(self).w,
                self.h == old(self).h,
                self.num_possibilities == old(self).num_possibilities,
                self@.w == start.w && self@.h == start.h && self@.n == start.n,
                y <= self.h,
                forall|v: int, u: int|
                    start.has(v, u) ==> #[trigger] self@.cells[v][u] == if precedes(
                        v,
                        u,
                        y as int,
                        0,
                    ) {
                        start.cells[v][u].finalized()
                    } else {
                        start.cells[v][u]
                    },
                forall|v: int, u: int| #[trigger]
                    start.open_at(v, u) && precedes(v, u, y as int, 0) ==> least
                        <= start.rank_at(tab, v, u),
                least < UNRANKED ==> {
                    &&& start.open_at(best.0 as int, best.1 as int)
                    &&& precedes(best.0 as int, best.1 as int, y as int, 0)
                    &&& start.rank_at(tab, best.0 as int, best.1 as int) == least
                    &&& forall|v: int, u: int| #[trigger]
                        start.open_at(v, u) && precedes(v, u, y as int, 0) && start.rank_at(
                            tab,
                            v,
                            u,
                        ) == least ==> !precedes(v, u, best.0 as int, best.1 as int)
                },
            decreases self.h - y,
        {
            let mut x: usize = 0;
            while x < self.w
                invariant
                    self.wf(),
                    start.wf(),
                    tab == table(ranks),
                    table_fits(tab, start.w, start.h),
                    self.w == old(self).w,
                    self.h == old(self).h,
                    self.num_possibilities == old(self).num_possibilities,
                    self@.w == start.w && self@.h == start.h && self@.n == start.n,
                    y < self.h,
                    x <= self.w,
                    forall|v: int, u: int|
                        start.has(v, u) ==> #[trigger] self@.cells[v][u] == if precedes(
                            v,
                            u,
                            y as int,
                            x as int,
                        ) {
                            start.cells[v][u].finalized()
                        } else {
                            start.cells[v][u]
                        },
                    forall|v: int, u: int| #[trigger]
                        start.open_at(v, u) && precedes(v, u, y as int, x as int) ==> least
                            <= start.rank_at(tab, v, u),
                    least < UNRANKED ==> {
                        &&& start.open_at(best.0 as int, best.1 as int)
                        &&& precedes(best.0 as int, best.1 as int, y as int, x as int)
                        &&& start.rank_at(tab, best.0 as int, best.1 as int) == least
                        &&& forall|v: int, u: int| #[trigger]
                            start.open_at(v, u) && precedes(v, u, y as int, x as int)
                                && start.rank_at(tab, v, u) == least ==> !precedes(
                                v,
                                u,
                                best.0 as int,
                                best.1 as int,
                            )
                    },
                decreases self.w - x,
            {
                let ghost here = start.cells[y as int][x as int];
                assert(start.has(y as int, x as int));
                assert(self@.cells[y as int][x as int] == here);
                let (open, single): (bool, Option<usize>) = match self.get(y, x) {
                    Seat::Collapsed(_) => (false, None),
                    Seat::Uncertain(v) => if v.len() == 1 {
                        (false, Some(v[0]))
                    } else {
                        (true, None)
                    },
                };
                assert(open == start.open_at(y as int, x as int));
                match single {
                    Some(id) => {
                        assert(here.valid(start.n));
                        assert(here.candidates()[0] < start.n);
                        self.set(y, x, Seat::Collapsed(id));
                    },
                    None => {},
                }
                if open {
                    assert(tab[y as int].len() == start.w);
                    let current: i64 = ranks[y][x];
                    assert(current == start.rank_at(tab, y as int, x as int));
                    if current < least {
                        best = (y, x);
                        least = current;
                    }
                }
                assert(self@.cells[y as int][x as int] == here.finalized());
                x += 1;
            }
            y += 1;
        }
        proof {
            let done = start.finalized();
            assert forall|v: int| 0 <= v < start.h implies #[trigger] self@.cells[v]
                == done.cells[v] by {
                assert forall|u: int| 0 <= u < start.w implies self@.cells[v][u]
                    == done.cells[v][u] by {
                    assert(start.has(v, u));
                    assert(precedes(v, u, y as int, 0));
                }
                assert(self@.cells[v].len() == start.w);
                assert(self@.cells[v] =~= done.cells[v]);
            }
            assert(self@.cells =~= done.cells);
            if start.has_choice(tab) {
                let (v, u) = choose|v: int, u: int| #[trigger]
                    start.open_at(v, u) && start.rank_at(tab, v, u) < UNRANKED;
                assert(precedes(v, u, y as int, 0));
                assert(least < UNRANKED);
                assert forall|v: int, u: int| #[trigger] start.open_at(v, u) implies {
                    &&& least <= start.rank_at(tab, v, u)
                    &&& start.rank_at(tab, v, u) == least ==> !precedes(
                        v,
                        u,
                        best.0 as int,
                        best.1 as int,
                    )
                } by {
                    assert(precedes(v, u, y as int, 0));
                }
                let p = choose|p: (int, int)| start.is_choice(tab, p.0, p.1);
                let q = (best.0 as int, best.1 as int);
                assert(start.is_choice(tab, q.0, q.1));
                lemma_choice_unique(start, tab, q.0, q.1, p.0, p.1);
            } else {
                if least < UNRANKED {
                    assert(start.open_at(best.0 as int, best.1 as int));
                    assert(false);
                }
            }
        }
        if least < UNRANKED {
            Some(best)
        } else {
            None
        }
    }
}

} // verus!
