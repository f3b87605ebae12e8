//! Deciding one cell, and the driver that restarts on contradiction.

use vstd::prelude::*;
use crate::grid::{Grid, GridState, GridView};
use crate::random::next_bits;
use crate::rules::{rules_valid, Rule};
use crate::seat::{Cell, Seat};
use crate::select::{lemma_choice_exists, table, table_fits, table_ok};
use crate::weights::{sample, sort_by_weight, Draw, Weights};

verus! {

/// A cell that the caller decided before solving: the seat in column `x`
/// of row `y` holds `id`.
#[derive(Clone, Copy, Debug, PartialEq, Eq, Structural)]
pub struct Seed {
    pub y: usize,
    pub x: usize,
    pub id: usize,
}

/// How a run of the driver ended.
#[derive(Clone, Copy, Debug, PartialEq, Eq, Structural)]
pub enum Ended {
    /// Every cell has exactly one candidate.
    Solved,
    /// The moves allowed were used up before the grid was solved.
    OutOfMoves,
    /// The ranks handed in did not fit the grid.
    BadRanks,
}

/// Every seed names a cell of the grid and an id below `n`.
pub open spec fn seeds_fit(seeds: Seq<Seed>, w: nat, h: nat, n: nat) -> bool {
    forall|i: int|
        0 <= i < seeds.len() ==> (#[trigger] seeds[i]).y < h && seeds[i].x < w && seeds[i].id < n
}

/// Whether every seed names a cell of a `w` by `h` grid and an id below `n`.
pub fn seeds_ok(seeds: &Vec<Seed>, w: usize, h: usize, n: usize) -> (ok: bool)
    ensures
        ok == seeds_fit(seeds@, w as nat, h as nat, n as nat),
{
    let mut i: usize = 0;
    while i < seeds.len()
        invariant
            i <= seeds.len(),
            forall|k: int|
                0 <= k < i ==> (#[trigger] seeds@[k]).y < h && seeds@[k].x < w && seeds@[k].id < n,
        decreases seeds.len() - i,
    {
        if seeds[i].y >= h || seeds[i].x >= w || seeds[i].id >= n {
            return false;
        }
        i += 1;
    }
    true
}

/// No seed after the one at `i` names the same cell.
pub open spec fn stands(seeds: Seq<Seed>, i: int) -> bool {
    forall|j: int|
        i < j < seeds.len() ==> (#[trigger] seeds[j]).y != seeds[i].y || seeds[j].x != seeds[i].x
}

/// A table that `ranker` gave for a grid of the value `before`.
pub open spec fn ranked<F: Fn(&Grid) -> Vec<Vec<i64>>>(
    ranker: F,
    before: GridView,
    tab: Seq<Seq<i64>>,
) -> bool {
    exists|grid: Grid, ranks: Vec<Vec<i64>>|
        #[trigger] call_ensures(ranker, (&grid,), ranks) && grid.wf() && grid@ == before && table(
            &ranks,
        ) == tab
}

/// The cell that a draw leaves: the drawn id, or no candidate at all.
pub open spec fn outcome(drawn: Option<usize>) -> Cell {
    match drawn {
        Some(id) => Cell::Collapsed(id),
        None => Cell::Uncertain(Seq::empty()),
    }
}

impl GridView {
    /// The grid after one step with the draw `r`. Cells with one candidate
    /// left are decided; the target then gets the id drawn from what its
    /// neighbours leave possible, or becomes empty when they leave nothing.
    /// Without a target no cell is written.
    pub open spec fn stepped(
        self,
        rules: Seq<Rule>,
        weights: &Weights,
        ranks: Seq<Seq<i64>>,
        r: Draw,
    ) -> GridView {
        let scanned = self.finalized();
        match self.target(ranks) {
            Some(p) => scanned.with_cell(
                p.0,
                p.1,
                outcome(weights.sampled(scanned.constrained(p.0, p.1, rules), r)),
            ),
            None => scanned,
        }
    }

    /// Every seed that no later seed replaces is in its place.
    pub open spec fn holds_seeds(self, seeds: Seq<Seed>) -> bool {
        forall|i: int|
            0 <= i < seeds.len() && stands(seeds, i) ==> self.cells[(#[trigger] seeds[i]).y as int][seeds[i].x as int]
                == Cell::Collapsed(seeds[i].id)
    }

    /// The grid with the seeds put in, in their order.
    pub open spec fn seeded(self, seeds: Seq<Seed>) -> GridView
        decreases seeds.len(),
    {
        if seeds.len() == 0 {
            self
        } else {
            let seed = seeds.last();
            self.seeded(seeds.drop_last()).with_cell(
                seed.y as int,
                seed.x as int,
                Cell::Collapsed(seed.id),
            )
        }
    }

    /// The grid from which solving starts again: nothing decided but the
    /// seeds.
    pub open spec fn restarted(self, seeds: Seq<Seed>) -> GridView {
        GridView::blank(self.w, self.h, self.n).seeded(seeds)
    }

    /// The grid after the given moves of the driver, each with its table of
    /// ranks and its random bits.
    pub open spec fn run(
        self,
        seeds: Seq<Seed>,
        rules: Seq<Rule>,
        weights: &Weights,
        moves: Seq<(Seq<Seq<i64>>, u32)>,
    ) -> GridView
        decreases moves.len(),
    {
        if moves.len() == 0 {
            self
        } else {
            self.run(seeds, rules, weights, moves.drop_last()).advanced(
                seeds,
                rules,
                weights,
                moves.last().0,
                Draw::from_bits(moves.last().1),
            )
        }
    }

    /// None of the moves was made from a solved grid.
    pub open spec fn unsolved_before(
        self,
        seeds: Seq<Seed>,
        rules: Seq<Rule>,
        weights: &Weights,
        moves: Seq<(Seq<Seq<i64>>, u32)>,
    ) -> bool {
        forall|i: int|
            0 <= i < moves.len() ==> (#[trigger] self.run(
                seeds,
                rules,
                weights,
                moves.take(i),
            )).state() != GridState::Collapsed
    }

    /// Each of the moves that is a step was made with a table that `ranker`
    /// gave for the grid as it stood before that move, and the table fitted
    /// the grid.
    pub open spec fn asked<F: Fn(&Grid) -> Vec<Vec<i64>>>(
        self,
        ranker: F,
        seeds: Seq<Seed>,
        rules: Seq<Rule>,
        weights: &Weights,
        moves: Seq<(Seq<Seq<i64>>, u32)>,
    ) -> bool {
        forall|i: int|
            0 <= i < moves.len() && (#[trigger] self.run(
                seeds,
                rules,
                weights,
                moves.take(i),
            )).state() == GridState::Uncollapsed ==> ranked(
                ranker,
                self.run(seeds, rules, weights, moves.take(i)),
                moves[i].0,
            ) && table_fits(moves[i].0, self.w, self.h)
    }

    /// The grid after one move of the driver: a step while cells are open, a
    /// restart on contradiction, nothing once the grid is solved.
    pub open spec fn advanced(
        self,
        seeds: Seq<Seed>,
        rules: Seq<Rule>,
        weights: &Weights,
        ranks: Seq<Seq<i64>>,
        r: Draw,
    ) -> GridView {
        match self.state() {
            GridState::Uncollapsed => self.stepped(rules, weights, ranks, r),
            GridState::Collapsed => self,
            GridState::Contradicting => self.restarted(seeds),
        }
    }
}

/// A grid with a cell that has no candidate is contradicting, and the move
/// of the driver puts every cell back to what it was when solving began:
/// new, but for the seeds. Neither the draw nor the ranks matter.
pub proof fn lemma_contradiction_restarts(
    grid: GridView,
    y: int,
    x: int,
    seeds: Seq<Seed>,
    rules: Seq<Rule>,
    weights: &Weights,
    ranks: Seq<Seq<i64>>,
    r: Draw,
)
    requires
        grid.has(y, x),
        grid.cells[y][x].candidates().len() == 0,
    ensures
        grid.state() == GridState::Contradicting,
        grid.advanced(seeds, rules, weights, ranks, r) == GridView::blank(
            grid.w,
            grid.h,
            grid.n,
        ).seeded(seeds),
{
}

/// A run of the driver is a function of the grid it starts from, the seeds,
/// the rules, the weights, and the ranks and random bits of its moves: two
/// runs that agree on these end in the same grid.
pub proof fn lemma_same_bits_same_grid(
    first: GridView,
    second: GridView,
    seeds: Seq<Seed>,
    rules: Seq<Rule>,
    weights: &Weights,
    first_moves: Seq<(Seq<Seq<i64>>, u32)>,
    second_moves: Seq<(Seq<Seq<i64>>, u32)>,
)
    requires
        first == second,
        first_moves.len() == second_moves.len(),
        forall|i: int|
            0 <= i < first_moves.len() ==> first_moves[i].0 == second_moves[i].0
                && first_moves[i].1 == second_moves[i].1,
    ensures
        first.run(seeds, rules, weights, first_moves) == second.run(
            seeds,
            rules,
            weights,
            second_moves,
        ),
{
    assert(first_moves =~= second_moves);
}

/// What a step does. Every cell but the target is what it was, decided if
/// it had a single candidate. The target, if there is one, is an open cell
/// of the grid; it is decided to an id that its neighbours leave possible,
/// or, when they leave none, is left without a candidate.
pub proof fn lemma_step_is_consistent(
    grid: GridView,
    rules: Seq<Rule>,
    weights: &Weights,
    ranks: Seq<Seq<i64>>,
    r: Draw,
)
    ensures
        grid.target(ranks) is None ==> grid.stepped(rules, weights, ranks, r) == grid.finalized(),
        forall|y: int, x: int|
            grid.has(y, x) && grid.target(ranks) != Some((y, x)) ==> (#[trigger] grid.stepped(
                rules,
                weights,
                ranks,
                r,
            ).cells[y][x]) == grid.cells[y][x].finalized(),
        grid.target(ranks) matches Some(p) ==> {
            &&& grid.open_at(p.0, p.1)
            &&& match grid.stepped(rules, weights, ranks, r).cells[p.0][p.1] {
                Cell::Collapsed(id) => grid.finalized().constrained(p.0, p.1, rules).contains(id),
                Cell::Uncertain(ids) => ids.len() == 0 && grid.finalized().constrained(
                    p.0,
                    p.1,
                    rules,
                ).len() == 0,
            }
        },
{
    if grid.has_choice(ranks) {
        lemma_choice_exists(grid, ranks);
        let p = choose|p: (int, int)| grid.is_choice(ranks, p.0, p.1);
        assert(grid.is_choice(ranks, p.0, p.1));
        assert(grid.target(ranks) == Some(p));
        let scanned = grid.finalized();
        let left = scanned.constrained(p.0, p.1, rules);
        weights.lemma_sampled(left, r);
        let after = grid.stepped(rules, weights, ranks, r);
        assert(after.cells[p.0][p.1] == outcome(weights.sampled(left, r)));
        assert forall|y: int, x: int| grid.has(y, x) && Some((y, x)) != grid.target(
            ranks,
        ) implies (#[trigger] after.cells[y][x]) == grid.cells[y][x].finalized() by {
            assert(scanned.cells[y][x] == grid.cells[y][x].finalized());
        }
    } else {
        assert forall|y: int, x: int| grid.has(y, x) implies (#[trigger] grid.finalized().cells[y][x])
            == grid.cells[y][x].finalized() by {}
    }
}

/// A step leaves every cell that has a single candidate with that
/// candidate, decided: what is decided is never chosen again.
pub proof fn lemma_step_keeps_decided(
    grid: GridView,
    rules: Seq<Rule>,
    weights: &Weights,
    ranks: Seq<Seq<i64>>,
    r: Draw,
    y: int,
    x: int,
)
    requires
        grid.has(y, x),
        grid.cells[y][x].candidates().len() == 1,
    ensures
        grid.stepped(rules, weights, ranks, r).cells[y][x] == Cell::Collapsed(
            grid.cells[y][x].candidates()[0],
        ),
{
    lemma_step_is_consistent(grid, rules, weights, ranks, r);
    if grid.target(ranks) == Some((y, x)) {
        assert(grid.open_at(y, x));
    }
}

impl GridView {
    /// Putting seeds that fit into a grid gives a grid of the same size
    /// that holds them.
    pub proof fn lemma_seeded(self, seeds: Seq<Seed>)
        requires
            self.shaped(),
            seeds_fit(seeds, self.w, self.h, self.n),
        ensures
            self.seeded(seeds).shaped(),
            self.seeded(seeds).w == self.w,
            self.seeded(seeds).h == self.h,
            self.seeded(seeds).n == self.n,
            self.seeded(seeds).holds_seeds(seeds),
        decreases seeds.len(),
    {
        if seeds.len() > 0 {
            let front = seeds.drop_last();
            let last = seeds.last();
            let before = self.seeded(front);
            let after = self.seeded(seeds);
            assert(seeds_fit(front, self.w, self.h, self.n)) by {
                assert forall|i: int| 0 <= i < front.len() implies (#[trigger] front[i]).y < self.h
                    && front[i].x < self.w && front[i].id < self.n by {
                    assert(front[i] == seeds[i]);
                }
            }
            self.lemma_seeded(front);
            assert(seeds[seeds.len() - 1] == last);
            let placed = Cell::Collapsed(last.id);
            assert(after == before.with_cell(last.y as int, last.x as int, placed));
            assert forall|i: int| 0 <= i < seeds.len() && stands(seeds, i) implies after.cells[(
            #[trigger] seeds[i]).y as int][seeds[i].x as int] == Cell::Collapsed(seeds[i].id) by {
                if i < front.len() {
                    assert(front[i] == seeds[i]);
                    assert(stands(front, i)) by {
                        assert forall|j: int| i < j < front.len() implies (#[trigger] front[j]).y
                            != front[i].y || front[j].x != front[i].x by {
                            assert(front[j] == seeds[j]);
                        }
                    }
                    assert(before.cells[front[i].y as int][front[i].x as int] == Cell::Collapsed(
                        front[i].id,
                    ));
                    assert(seeds[seeds.len() - 1].y != seeds[i].y || seeds[seeds.len() - 1].x
                        != seeds[i].x);
                }
            }
        }
    }

    /// A move of the driver leaves the seeds in their places: a step keeps
    /// what is decided, and a restart puts the seeds back.
    pub proof fn lemma_move_keeps_seeds(
        self,
        seeds: Seq<Seed>,
        rules: Seq<Rule>,
        weights: &Weights,
        ranks: Seq<Seq<i64>>,
        r: Draw,
    )
        requires
            seeds_fit(seeds, self.w, self.h, self.n),
            self.holds_seeds(seeds) || self.state() == GridState::Contradicting,
        ensures
            self.advanced(seeds, rules, weights, ranks, r).holds_seeds(seeds),
            self.advanced(seeds, rules, weights, ranks, r).w == self.w,
            self.advanced(seeds, rules, weights, ranks, r).h == self.h,
            self.advanced(seeds, rules, weights, ranks, r).n == self.n,
    {
        match self.state() {
            GridState::Uncollapsed => {
                let after = self.stepped(rules, weights, ranks, r);
                assert forall|i: int| 0 <= i < seeds.len() && stands(seeds, i) implies after.cells[(
                #[trigger] seeds[i]).y as int][seeds[i].x as int] == Cell::Collapsed(
                    seeds[i].id,
                ) by {
                    let y = seeds[i].y as int;
                    let x = seeds[i].x as int;
                    assert(self.cells[y][x] == Cell::Collapsed(seeds[i].id));
                    lemma_step_keeps_decided(self, rules, weights, ranks, r, y, x);
                }
            },
            GridState::Collapsed => {},
            GridState::Contradicting => {
                GridView::blank(self.w, self.h, self.n).lemma_seeded(seeds);
            },
        }
    }

    /// A run of the driver from a grid that holds its seeds ends in a grid
    /// that holds them.
    pub proof fn lemma_run_keeps_seeds(
        self,
        seeds: Seq<Seed>,
        rules: Seq<Rule>,
        weights: &Weights,
        moves: Seq<(Seq<Seq<i64>>, u32)>,
    )
        requires
            seeds_fit(seeds, self.w, self.h, self.n),
            self.holds_seeds(seeds),
        ensures
            self.run(seeds, rules, weights, moves).holds_seeds(seeds),
            self.run(seeds, rules, weights, moves).w == self.w,
            self.run(seeds, rules, weights, moves).h == self.h,
            self.run(seeds, rules, weights, moves).n == self.n,
        decreases moves.len(),
    {
        if moves.len() > 0 {
            let front = moves.drop_last();
            self.lemma_run_keeps_seeds(seeds, rules, weights, front);
            let before = self.run(seeds, rules, weights, front);
            let r = Draw::from_bits(moves.last().1);
            before.lemma_move_keeps_seeds(seeds, rules, weights, moves.last().0, r);
        }
    }
}

/// A grid that the driver reports as collapsed is solved: every cell has
/// exactly one candidate, and the move leaves the grid as it is.
pub proof fn lemma_collapsed_is_solved(
    grid: GridView,
    seeds: Seq<Seed>,
    rules: Seq<Rule>,
    weights: &Weights,
    ranks: Seq<Seq<i64>>,
    r: Draw,
)
    requires
        grid.state() == GridState::Collapsed,
    ensures
        forall|y: int, x: int|
            grid.has(y, x) ==> (#[trigger] grid.cells[y][x]).candidates().len() == 1,
        grid.advanced(seeds, rules, weights, ranks, r) == grid,
{
}

impl GridView {
    /// A move made from an unsolved grid, after moves none of which was made
    /// from a solved grid, gives moves none of which was.
    pub proof fn lemma_one_more_move(
        self,
        seeds: Seq<Seed>,
        rules: Seq<Rule>,
        weights: &Weights,
        moves: Seq<(Seq<Seq<i64>>, u32)>,
        made: (Seq<Seq<i64>>, u32),
    )
        requires
            self.unsolved_before(seeds, rules, weights, moves),
            self.run(seeds, rules, weights, moves).state() != GridState::Collapsed,
        ensures
            self.unsolved_before(seeds, rules, weights, moves.push(made)),
    {
        let next = moves.push(made);
        assert forall|i: int| 0 <= i < next.len() implies (#[trigger] self.run(
            seeds,
            rules,
            weights,
            next.take(i),
        )).state() != GridState::Collapsed by {
            if i < moves.len() {
                assert(next.take(i) == moves.take(i));
            } else {
                assert(next.take(i) == moves);
            }
        }
    }
}

impl GridView {
    /// A step made with a table that the ranker gave for the grid before
    /// it, after moves of which the same holds, gives moves of which it
    /// holds.
    pub proof fn lemma_one_more_asked<F: Fn(&Grid) -> Vec<Vec<i64>>>(
        self,
        ranker: F,
        seeds: Seq<Seed>,
        rules: Seq<Rule>,
        weights: &Weights,
        moves: Seq<(Seq<Seq<i64>>, u32)>,
        made: (Seq<Seq<i64>>, u32),
    )
        requires
            self.asked(ranker, seeds, rules, weights, moves),
            self.run(seeds, rules, weights, moves).state() == GridState::Uncollapsed ==> ranked(
                ranker,
                self.run(seeds, rules, weights, moves),
                made.0,
            ) && table_fits(made.0, self.w, self.h),
        ensures
            self.asked(ranker, seeds, rules, weights, moves.push(made)),
    {
        let next = moves.push(made);
        assert forall|i: int|
            0 <= i < next.len() && (#[trigger] self.run(
                seeds,
                rules,
                weights,
                next.take(i),
            )).state() == GridState::Uncollapsed implies ranked(
            ranker,
            self.run(seeds, rules, weights, next.take(i)),
            next[i].0,
        ) && table_fits(next[i].0, self.w, self.h) by {
            if i < moves.len() {
                assert(next.take(i) == moves.take(i));
                assert(next[i] == moves[i]);
            } else {
                assert(next.take(i) == moves);
                assert(next[i] == made);
            }
        }
    }
}

impl Grid {
    /// One step with the draw `r`: reads the grid for the open seat of
    /// least rank, finds what its neighbours leave possible there, and
    /// decides it by the draw. Where nothing is possible the seat is left
    /// without a candidate. Where no open seat has a rank, no seat is
    /// written.
    pub fn step_with(
        &mut self,
        rules: &Vec<Rule>,
        weights: &Weights,
        ranks: &Vec<Vec<i64>>,
        r: Draw,
    )
        requires
            old(self).wf(),
            table_fits(table(ranks), old(self).w as nat, old(self).h as nat),
            rules_valid(rules@, old(self).num_possibilities as nat),
            weights.counts@.len() == old(self).num_possibilities,
        ensures
            final(self).wf(),
            final(self).w == old(self).w,
            final(self).h == old(self).h,
            final(self).num_possibilities == old(self).num_possibilities,
            final(self)@ == old(self)@.stepped(rules@, weights, table(ranks), r),
    {
        match self.select(ranks) {
            Some((y, x)) => {
                let mut possibilities = self.constraint(y, x, rules);
                let ghost left = possibilities@;
                sort_by_weight(&mut possibilities, weights);
                let seat = match sample(&possibilities, weights, r) {
                    Some(id) => {
                        assert(left.contains(id));
                        Seat::Collapsed(id)
                    },
                    None => Seat::Uncertain(Vec::new()),
                };
                assert(seat@ == outcome(weights.sampled(left, r)));
                self.set(y, x, seat);
            },
            None => {},
        }
    }

    /// One step with a draw taken from `rng`: 32 bits, of which the upper
    /// 24 make the fraction.
    pub fn step(
        &mut self,
        rules: &Vec<Rule>,
        weights: &Weights,
        ranks: &Vec<Vec<i64>>,
        rng: &mut rand::rngs::StdRng,
    )
        requires
            old(self).wf(),
            table_fits(table(ranks), old(self).w as nat, old(self).h as nat),
            rules_valid(rules@, old(self).num_possibilities as nat),
            weights.counts@.len() == old(self).num_possibilities,
        ensures
            final(self).wf(),
            final(self).w == old(self).w,
            final(self).h == old(self).h,
            final(self).num_possibilities == old(self).num_possibilities,
            exists|bits: u32|
                final(self)@ == old(self)@.stepped(
                    rules@,
                    weights,
                    table(ranks),
                    #[trigger] Draw::from_bits(bits),
                ),
    {
        let bits = next_bits(rng);
        self.step_with(rules, weights, ranks, Draw::from_bits(bits));
    }

    /// Puts the seeds in, in their order.
    pub fn seed(&mut self, seeds: &Vec<Seed>)
        requires
            old(self).wf(),
            seeds_fit(
                seeds@,
                old(self).w as nat,
                old(self).h as nat,
                old(self).num_possibilities as nat,
            ),
        ensures
            final(self).wf(),
            final(self).w == old(self).w,
            final(self).h == old(self).h,
            final(self).num_possibilities == old(self).num_possibilities,
            final(self)@ == old(self)@.seeded(seeds@),
            final(self)@.holds_seeds(seeds@),
    {
        let ghost start = self@;
        proof {
            self.lemma_view();
            start.lemma_seeded(seeds@);
        }
        let mut i: usize = 0;
        while i < seeds.len()
            invariant
                self.wf(),
                self.w == old(self).w,
                self.h == old(self).h,
                self.num_possibilities == old(self).num_possibilities,
                self@.w == start.w && self@.h == start.h && self@.n == start.n,
                seeds_fit(seeds@, start.w, start.h, start.n),
                i <= seeds.len(),
                self@ == start.seeded(seeds@.take(i as int)),
            decreases seeds.len() - i,
        {
            let placed = seeds[i];
            proof {
                let next = seeds@.take(i as int + 1);
                assert(next.drop_last() == seeds@.take(i as int));
                assert(next.last() == placed);
            }
            self.set(placed.y, placed.x, Seat::Collapsed(placed.id));
            i += 1;
        }
        assert(seeds@.take(seeds.len() as int) == seeds@);
    }

    /// Starts again: every seat becomes new, then the seeds are put back.
    pub fn reset(&mut self, seeds: &Vec<Seed>)
        requires
            old(self).wf(),
            seeds_fit(
                seeds@,
                old(self).w as nat,
                old(self).h as nat,
                old(self).num_possibilities as nat,
            ),
        ensures
            final(self).wf(),
            final(self).w == old(self).w,
            final(self).h == old(self).h,
            final(self).num_possibilities == old(self).num_possibilities,
            final(self)@ == old(self)@.restarted(seeds@),
            final(self)@.holds_seeds(seeds@),
    {
        *self = Grid::new(self.w, self.h, self.num_possibilities);
        self.seed(seeds);
    }

    /// One move of the driver with the draw `r`, and the state that the
    /// grid was found in. An uncollapsed grid takes a step, a contradicting
    /// one starts again from its seeds, a collapsed one is left alone.
    pub fn advance_with(
        &mut self,
        seeds: &Vec<Seed>,
        rules: &Vec<Rule>,
        weights: &Weights,
        ranks: &Vec<Vec<i64>>,
        r: Draw,
    ) -> (found: GridState)
        requires
            old(self).wf(),
            table_fits(table(ranks), old(self).w as nat, old(self).h as nat),
            rules_valid(rules@, old(self).num_possibilities as nat),
            weights.counts@.len() == old(self).num_possibilities,
            seeds_fit(
                seeds@,
                old(self).w as nat,
                old(self).h as nat,
                old(self).num_possibilities as nat,
            ),
        ensures
            final(self).wf(),
            final(self).w == old(self).w,
            final(self).h == old(self).h,
            final(self).num_possibilities == old(self).num_possibilities,
            found == old(self)@.state(),
            final(self)@ == old(self)@.advanced(seeds@, rules@, weights, table(ranks), r),
            found == GridState::Collapsed ==> final(self)@.solved(),
            found == GridState::Contradicting ==> final(self)@ == old(self)@.restarted(seeds@),
            old(self)@.holds_seeds(seeds@) ==> final(self)@.holds_seeds(seeds@),
            found == GridState::Contradicting ==> final(self)@.holds_seeds(seeds@),
    {
        proof {
            if old(self)@.holds_seeds(seeds@) || old(self)@.state() == GridState::Contradicting {
                old(self)@.lemma_move_keeps_seeds(seeds@, rules@, weights, table(ranks), r);
            }
        }
        let found = self.get_state();
        match found {
            GridState::Uncollapsed => {
                self.step_with(rules, weights, ranks, r);
            },
            GridState::Collapsed => {},
            GridState::Contradicting => {
                self.reset(seeds);
            },
        }
        found
    }

    /// One move of the driver, with a draw taken from `rng` if the move is a
    /// step.
    pub fn advance(
        &mut self,
        seeds: &Vec<Seed>,
        rules: &Vec<Rule>,
        weights: &Weights,
        ranks: &Vec<Vec<i64>>,
        rng: &mut rand::rngs::StdRng,
    ) -> (found: GridState)
        requires
            old(self).wf(),
            table_fits(table(ranks), old(self).w as nat, old(self).h as nat),
            rules_valid(rules@, old(self).num_possibilities as nat),
            weights.counts@.len() == old(self).num_possibilities,
            seeds_fit(
                seeds@,
                old(self).w as nat,
                old(self).h as nat,
                old(self).num_possibilities as nat,
            ),
        ensures
            final(self).wf(),
            final(self).w == old(self).w,
            final(self).h == old(self).h,
            final(self).num_possibilities == old(self).num_possibilities,
            found == old(self)@.state(),
            exists|bits: u32|
                final(self)@ == old(self)@.advanced(
                    seeds@,
                    rules@,
                    weights,
                    table(ranks),
                    #[trigger] Draw::from_bits(bits),
                ),
            found == GridState::Collapsed ==> final(self)@.solved(),
            found == GridState::Contradicting ==> final(self)@ == old(self)@.restarted(seeds@),
            old(self)@.holds_seeds(seeds@) ==> final(self)@.holds_seeds(seeds@),
            found == GridState::Contradicting ==> final(self)@.holds_seeds(seeds@),
    {
        let found = self.get_state();
        match found {
            GridState::Uncollapsed => {
                self.step(rules, weights, ranks, rng);
                proof {
                    let bits = choose|bits: u32|
                        self@ == old(self)@.stepped(
                            rules@,
                            weights,
                            table(ranks),
                            #[trigger] Draw::from_bits(bits),
                        );
                    if old(self)@.holds_seeds(seeds@) {
                        old(self)@.lemma_move_keeps_seeds(
                            seeds@,
                            rules@,
                            weights,
                            table(ranks),
                            Draw::from_bits(bits),
                        );
                    }
                }
            },
            GridState::Collapsed => {
                assert(self@ == old(self)@.advanced(
                    seeds@,
                    rules@,
                    weights,
                    table(ranks),
                    Draw::from_bits(0),
                ));
            },
            GridState::Contradicting => {
                self.reset(seeds);
                assert(self@ == old(self)@.advanced(
                    seeds@,
                    rules@,
                    weights,
                    table(ranks),
                    Draw::from_bits(0),
                ));
            },
        }
        found
    }
}

impl Grid {
    /// Runs the driver until the grid is solved, for at most `limit` moves.
    /// A move is a step or a restart. Before each step `ranker` is asked to
    /// rank the cells of the grid as it stands, and the draw is taken from
    /// `rng`. A grid that is found solved is returned as it is, and a grid
    /// that is not solved is returned as it is when no move is allowed. A
    /// table from the ranker that does not fit the grid ends the run before
    /// the step. What comes out is reached from the grid handed in by moves
    /// of the driver, each step made with the table that the ranker gave
    /// for the grid before it. Seeds that are in place when the run begins
    /// are in place when it ends: a step decides open cells only, and every
    /// restart puts the seeds back. The caller names at least one seed.
    pub fn collapse<F: Fn(&Grid) -> Vec<Vec<i64>>>(
        &mut self,
        seeds: &Vec<Seed>,
        rules: &Vec<Rule>,
        weights: &Weights,
        ranker: F,
        rng: &mut rand::rngs::StdRng,
        limit: usize,
    ) -> (ended: Ended)
        requires
            old(self).wf(),
            rules_valid(rules@, old(self).num_possibilities as nat),
            weights.counts@.len() == old(self).num_possibilities,
            seeds@.len() > 0,
            seeds_fit(
                seeds@,
                old(self).w as nat,
                old(self).h as nat,
                old(self).num_possibilities as nat,
            ),
            forall|grid: &Grid| grid.wf() ==> call_requires(ranker, (grid,)),
        ensures
            final(self).wf(),
            final(self).w == old(self).w,
            final(self).h == old(self).h,
            final(self).num_possibilities == old(self).num_possibilities,
            ended == Ended::Solved <==> final(self)@.state() == GridState::Collapsed,
            ended == Ended::Solved ==> final(self)@.solved(),
            ended == Ended::BadRanks ==> final(self)@.state() == GridState::Uncollapsed,
            ended == Ended::BadRanks ==> exists|ranks: Vec<Vec<i64>>|
                #[trigger] call_ensures(ranker, (&*final(self),), ranks) && !table_fits(
                    table(&ranks),
                    old(self).w as nat,
                    old(self).h as nat,
                ),
            limit == 0 && old(self)@.state() != GridState::Collapsed ==> ended
                == Ended::OutOfMoves,
            old(self)@.state() == GridState::Collapsed ==> final(self)@ == old(self)@,
            old(self)@.holds_seeds(seeds@) ==> final(self)@.holds_seeds(seeds@),
            exists|moves: Seq<(Seq<Seq<i64>>, u32)>|
                {
                    &&& final(self)@ == #[trigger] old(self)@.run(seeds@, rules@, weights, moves)
                    &&& moves.len() <= limit
                    &&& ended == Ended::OutOfMoves ==> moves.len() == limit
                    &&& ended == Ended::BadRanks ==> moves.len() < limit
                    &&& old(self)@.unsolved_before(seeds@, rules@, weights, moves)
                    &&& old(self)@.asked(ranker, seeds@, rules@, weights, moves)
                },
    {
        let ghost mut moves: Seq<(Seq<Seq<i64>>, u32)> = Seq::empty();
        let mut left: usize = limit;
        loop
            invariant
                self.wf(),
                self.w == old(self).w,
                self.h == old(self).h,
                self.num_possibilities == old(self).num_possibilities,
                rules_valid(rules@, self.num_possibilities as nat),
                weights.counts@.len() == self.num_possibilities,
                seeds_fit(seeds@, self.w as nat, self.h as nat, self.num_possibilities as nat),
                forall|grid: &Grid| grid.wf() ==> call_requires(ranker, (grid,)),
                left <= limit,
                left == limit ==> self@ == old(self)@,
                left < limit ==> old(self)@.state() != GridState::Collapsed,
                moves.len() == limit - left,
                self@ == old(self)@.run(seeds@, rules@, weights, moves),
                old(self)@.unsolved_before(seeds@, rules@, weights, moves),
                old(self)@.asked(ranker, seeds@, rules@, weights, moves),
                old(self)@.holds_seeds(seeds@) ==> self@.holds_seeds(seeds@),
            decreases left,
        {
            match self.get_state() {
                GridState::Collapsed => {
                    return Ended::Solved;
                },
                GridState::Contradicting => {
                    if left == 0 {
                        return Ended::OutOfMoves;
                    }
                    let ghost before = self@;
                    self.reset(seeds);
                    proof {
                        let made = (Seq::<Seq<i64>>::empty(), 0u32);
                        let next = moves.push(made);
                        assert(next.drop_last() == moves);
                        assert(next.last() == made);
                        old(self)@.lemma_one_more_move(seeds@, rules@, weights, moves, made);
                        old(self)@.lemma_one_more_asked(
                            ranker,
                            seeds@,
                            rules@,
                            weights,
                            moves,
                            made,
                        );
                        assert(self@ == before.advanced(
                            seeds@,
                            rules@,
                            weights,
                            made.0,
                            Draw::from_bits(made.1),
                        ));
                        moves = next;
                        if old(self)@.holds_seeds(seeds@) {
                            old(self)@.lemma_run_keeps_seeds(seeds@, rules@, weights, moves);
                        }
                    }
                },
                GridState::Uncollapsed => {
                    if left == 0 {
                        return Ended::OutOfMoves;
                    }
                    let ghost asked_of = *self;
                    let ranks = ranker(&*self);
                    if !table_ok(&ranks, self.w, self.h) {
                        return Ended::BadRanks;
                    }
                    let ghost before = self@;
                    proof {
                        assert(call_ensures(ranker, (&asked_of,), ranks));
                        assert(ranked(ranker, before, table(&ranks)));
                    }
                    self.step(rules, weights, &ranks, rng);
                    proof {
                        let bits = choose|bits: u32|
                            self@ == before.stepped(
                                rules@,
                                weights,
                                table(&ranks),
                                #[trigger] Draw::from_bits(bits),
                            );
                        let made = (table(&ranks), bits);
                        let next = moves.push(made);
                        assert(next.drop_last() == moves);
                        assert(next.last() == made);
                        old(self)@.lemma_one_more_move(seeds@, rules@, weights, moves, made);
                        old(self)@.lemma_one_more_asked(
                            ranker,
                            seeds@,
                            rules@,
                            weights,
                            moves,
                            made,
                        );
                        assert(self@ == before.advanced(
                            seeds@,
                            rules@,
                            weights,
                            made.0,
                            Draw::from_bits(made.1),
                        ));
                        moves = next;
                        if old(self)@.holds_seeds(seeds@) {
                            old(self)@.lemma_run_keeps_seeds(seeds@, rules@, weights, moves);
                        }
                    }
                },
            }
            left -= 1;
        }
    }
}

} // verus!
