//! Learning from a sample: how often each symbol occurs, and which symbols
//! were seen next to which.

use vstd::prelude::*;
use crate::grid::{Grid, GridView};
use crate::rules::{rules_valid, Direction, Rule};
use crate::seat::{Cell, Seat};
use crate::weights::Weights;

verus! {

/// 1 if `id` is a candidate of the cell, else 0.
pub open spec fn holds(cell: Cell, id: usize) -> nat {
    if cell.candidates().contains(id) {
        1
    } else {
        0
    }
}

/// `rules`, with `rule` added at the end unless it is there already.
pub open spec fn add_rule(rules: Seq<Rule>, rule: Rule) -> Seq<Rule> {
    if rules.contains(rule) {
        rules
    } else {
        rules.push(rule)
    }
}

impl GridView {
    /// The id of the decided cell at `(y, x)`.
    pub open spec fn id_at(self, y: int, x: int) -> usize {
        self.cells[y][x].candidates()[0]
    }

    /// `(y, x)` is off the border: it has a neighbour on each side.
    pub open spec fn interior(self, y: int, x: int) -> bool {
        0 < y < self.h - 1 && 0 < x < self.w - 1
    }

    /// The cell at `(y, x)` and its four neighbours are decided.
    pub open spec fn reads_decided(self, y: int, x: int) -> bool {
        &&& self.cells[y][x] is Collapsed
        &&& self.cells[y][x - 1] is Collapsed
        &&& self.cells[y][x + 1] is Collapsed
        &&& self.cells[y + 1][x] is Collapsed
        &&& self.cells[y - 1][x] is Collapsed
    }

    /// Every cell off the border is decided, and so are its four
    /// neighbours.
    pub open spec fn scannable(self) -> bool {
        forall|y: int, x: int| #[trigger] self.interior(y, x) ==> self.reads_decided(y, x)
    }

    /// `rule` records one of the four neighbours of the cell at `(y, x)`.
    pub open spec fn seen_at(self, y: int, x: int, rule: Rule) -> bool {
        let here = self.id_at(y, x);
        ||| rule == Rule(self.id_at(y, x - 1), here, Direction::left())
        ||| rule == Rule(self.id_at(y, x + 1), here, Direction::right())
        ||| rule == Rule(self.id_at(y + 1, x), here, Direction::up())
        ||| rule == Rule(self.id_at(y - 1, x), here, Direction::down())
    }

    /// `rule` records a neighbour of some cell off the border.
    pub open spec fn observed(self, rule: Rule) -> bool {
        exists|y: int, x: int| #[trigger] self.interior(y, x) && self.seen_at(y, x, rule)
    }

    /// `found`, with the rules for the four neighbours of the cell at
    /// `(y, x)` added: the one before it in the row, the one after it, the
    /// one in the row after, the one in the row before.
    pub open spec fn rules_at(self, found: Seq<Rule>, y: int, x: int) -> Seq<Rule> {
        let here = self.id_at(y, x);
        add_rule(
            add_rule(
                add_rule(
                    add_rule(found, Rule(self.id_at(y, x - 1), here, Direction::left())),
                    Rule(self.id_at(y, x + 1), here, Direction::right()),
                ),
                Rule(self.id_at(y + 1, x), here, Direction::up()),
            ),
            Rule(self.id_at(y - 1, x), here, Direction::down()),
        )
    }

    /// `found`, with the rules of the cells in columns 1 to `upto - 1` of
    /// row `y` added.
    pub open spec fn rules_in_row(self, found: Seq<Rule>, y: int, upto: int) -> Seq<Rule>
        decreases upto,
    {
        if upto <= 1 {
            found
        } else {
            self.rules_at(self.rules_in_row(found, y, upto - 1), y, upto - 1)
        }
    }

    /// The rules of the cells off the border in rows 1 to `rows - 1`.
    pub open spec fn rules_upto(self, rows: int) -> Seq<Rule>
        decreases rows,
    {
        if rows <= 1 {
            Seq::empty()
        } else {
            self.rules_in_row(self.rules_upto(rows - 1), rows - 1, self.w - 1)
        }
    }

    /// The rules that the sample shows: for every cell off the border,
    /// read row by row, one rule for each of its four neighbours, each rule
    /// once.
    pub open spec fn derived_rules(self) -> Seq<Rule> {
        self.rules_upto(self.h - 1)
    }

    /// In how many of the first `upto` cells of row `y` the id `id` is a
    /// candidate.
    pub open spec fn occurrences_in_row(self, id: usize, y: int, upto: int) -> nat
        decreases upto,
    {
        if upto <= 0 {
            0
        } else {
            self.occurrences_in_row(id, y, upto - 1) + holds(self.cells[y][upto - 1], id)
        }
    }

    /// In how many cells of the first `rows` rows the id `id` is a
    /// candidate.
    pub open spec fn occurrences_upto(self, id: usize, rows: int) -> nat
        decreases rows,
    {
        if rows <= 0 {
            0
        } else {
            self.occurrences_upto(id, rows - 1) + self.occurrences_in_row(
                id,
                rows - 1,
                self.w as int,
            )
        }
    }

    /// In how many cells of the grid the id `id` is a candidate.
    pub open spec fn occurrences(self, id: usize) -> nat {
        self.occurrences_upto(id, self.h as int)
    }

    /// Some cell of the grid has a candidate.
    pub open spec fn populated(self) -> bool {
        exists|y: int, x: int|
            self.has(y, x) && (#[trigger] self.cells[y][x]).candidates().len() > 0
    }

    /// A row in which `id` is a candidate of the cell in column `x` counts
    /// at least one occurrence once the count has passed that column.
    pub proof fn lemma_row_hit(self, id: usize, y: int, x: int, upto: int)
        requires
            0 <= x < upto,
            holds(self.cells[y][x], id) == 1,
        ensures
            self.occurrences_in_row(id, y, upto) >= 1,
        decreases upto,
    {
        if x < upto - 1 {
            self.lemma_row_hit(id, y, x, upto - 1);
        }
    }

    /// A grid in which `id` is a candidate of the cell at `(y, x)` counts at
    /// least one occurrence once the count has passed that row.
    pub proof fn lemma_grid_hit(self, id: usize, y: int, x: int, rows: int)
        requires
            0 <= y < rows,
            0 <= x < self.w,
            holds(self.cells[y][x], id) == 1,
        ensures
            self.occurrences_upto(id, rows) >= 1,
        decreases rows,
    {
        if y < rows - 1 {
            self.lemma_grid_hit(id, y, x, rows - 1);
        } else {
            self.lemma_row_hit(id, y, x, self.w as int);
        }
    }

    /// No weight is negative, and in a sample with at least one candidate
    /// some id has a weight above zero.
    pub proof fn lemma_some_weight_positive(self)
        requires
            self.wf(),
            self.populated(),
        ensures
            forall|id: usize| self.occurrences(id) >= 0,
            exists|id: usize| id < self.n && #[trigger] self.occurrences(id) > 0,
    {
        let (y, x) = choose|y: int, x: int|
            self.has(y, x) && (#[trigger] self.cells[y][x]).candidates().len() > 0;
        let cell = self.cells[y][x];
        assert(cell.valid(self.n));
        let id = cell.candidates()[0];
        assert(cell.candidates().contains(id));
        self.lemma_grid_hit(id, y, x, self.h as int);
        assert(self.occurrences(id) > 0);
    }
}

/// Adding a rule keeps what was there, adds nothing else, and repeats
/// nothing.
pub proof fn lemma_add_rule(rules: Seq<Rule>, rule: Rule)
    ensures
        forall|r: Rule|
            #![trigger add_rule(rules, rule).contains(r)]
            add_rule(rules, rule).contains(r) <==> rules.contains(r) || r == rule,
        rules.no_duplicates() ==> add_rule(rules, rule).no_duplicates(),
{
    let out = add_rule(rules, rule);
    assert forall|r: Rule| out.contains(r) <==> rules.contains(r) || r == rule by {
        if rules.contains(rule) {
        } else {
            if out.contains(r) {
                let k = choose|k: int| 0 <= k < out.len() && out[k] == r;
                if k < rules.len() {
                    assert(rules[k] == r);
                }
            }
            if rules.contains(r) {
                let k = choose|k: int| 0 <= k < rules.len() && rules[k] == r;
                assert(out[k] == r);
            }
            if r == rule {
                assert(out[rules.len() as int] == r);
            }
        }
    }
    if rules.no_duplicates() && !rules.contains(rule) {
        assert forall|i: int, j: int| 0 <= i < j < out.len() implies out[i] != out[j] by {
            if j == rules.len() {
                assert(rules[i] == out[i]);
                assert(rules.contains(out[i]));
            }
        }
    }
}

impl GridView {
    /// What `rules_at` adds is what is seen at the cell.
    pub proof fn lemma_rules_at(self, found: Seq<Rule>, y: int, x: int)
        ensures
            forall|r: Rule|
                #![trigger self.rules_at(found, y, x).contains(r)]
                self.rules_at(found, y, x).contains(r) <==> found.contains(r) || self.seen_at(
                    y,
                    x,
                    r,
                ),
            found.no_duplicates() ==> self.rules_at(found, y, x).no_duplicates(),
    {
        let here = self.id_at(y, x);
        let r1 = Rule(self.id_at(y, x - 1), here, Direction::left());
        let r2 = Rule(self.id_at(y, x + 1), here, Direction::right());
        let r3 = Rule(self.id_at(y + 1, x), here, Direction::up());
        let r4 = Rule(self.id_at(y - 1, x), here, Direction::down());
        let s1 = add_rule(found, r1);
        let s2 = add_rule(s1, r2);
        let s3 = add_rule(s2, r3);
        lemma_add_rule(found, r1);
        lemma_add_rule(s1, r2);
        lemma_add_rule(s2, r3);
        lemma_add_rule(s3, r4);
        assert forall|r: Rule|
            self.rules_at(found, y, x).contains(r) <==> found.contains(r) || self.seen_at(
                y,
                x,
                r,
            ) by {
            assert(s1.contains(r) <==> found.contains(r) || r == r1);
            assert(s2.contains(r) <==> s1.contains(r) || r == r2);
            assert(s3.contains(r) <==> s2.contains(r) || r == r3);
        }
    }

    /// What `rules_in_row` adds is what is seen in the scanned part of the
    /// row.
    pub proof fn lemma_rules_in_row(self, found: Seq<Rule>, y: int, upto: int)
        ensures
            forall|r: Rule|
                #![trigger self.rules_in_row(found, y, upto).contains(r)]
                self.rules_in_row(found, y, upto).contains(r) <==> found.contains(r) || exists|
                    x: int,
                |
                    0 < x < upto && #[trigger] self.seen_at(y, x, r),
            found.no_duplicates() ==> self.rules_in_row(found, y, upto).no_duplicates(),
        decreases upto,
    {
        if upto > 1 {
            let before = self.rules_in_row(found, y, upto - 1);
            self.lemma_rules_in_row(found, y, upto - 1);
            self.lemma_rules_at(before, y, upto - 1);
            assert forall|r: Rule|
                self.rules_in_row(found, y, upto).contains(r) <==> found.contains(r) || exists|
                    x: int,
                |
                    0 < x < upto && #[trigger] self.seen_at(y, x, r) by {
                if self.rules_in_row(found, y, upto).contains(r) {
                    if before.contains(r) {
                    } else {
                        assert(self.seen_at(y, upto - 1, r));
                    }
                }
                if exists|x: int| 0 < x < upto && #[trigger] self.seen_at(y, x, r) {
                    let x = choose|x: int| 0 < x < upto && #[trigger] self.seen_at(y, x, r);
                    if x < upto - 1 {
                        assert(before.contains(r));
                    }
                }
            }
        }
    }

    /// The rules of the first rows are what is seen off the border in them.
    pub proof fn lemma_rules_upto(self, rows: int)
        ensures
            forall|r: Rule|
                #![trigger self.rules_upto(rows).contains(r)]
                self.rules_upto(rows).contains(r) <==> exists|y: int, x: int|
                    0 < y < rows && 0 < x < self.w - 1 && #[trigger] self.seen_at(y, x, r),
            self.rules_upto(rows).no_duplicates(),
        decreases rows,
    {
        if rows > 1 {
            let before = self.rules_upto(rows - 1);
            self.lemma_rules_upto(rows - 1);
            self.lemma_rules_in_row(before, rows - 1, self.w - 1);
            assert forall|r: Rule|
                self.rules_upto(rows).contains(r) <==> exists|y: int, x: int|
                    0 < y < rows && 0 < x < self.w - 1 && #[trigger] self.seen_at(y, x, r) by {
                if self.rules_upto(rows).contains(r) {
                    if before.contains(r) {
                        let (y, x) = choose|y: int, x: int|
                            0 < y < rows - 1 && 0 < x < self.w - 1 && #[trigger] self.seen_at(
                                y,
                                x,
                                r,
                            );
                        assert(0 < y < rows && self.seen_at(y, x, r));
                    } else {
                        let x = choose|x: int|
                            0 < x < self.w - 1 && #[trigger] self.seen_at(rows - 1, x, r);
                        assert(self.seen_at(rows - 1, x, r));
                    }
                }
                if exists|y: int, x: int|
                    0 < y < rows && 0 < x < self.w - 1 && #[trigger] self.seen_at(y, x, r) {
                    let (y, x) = choose|y: int, x: int|
                        0 < y < rows && 0 < x < self.w - 1 && #[trigger] self.seen_at(y, x, r);
                    if y < rows - 1 {
                        assert(before.contains(r));
                    } else {
                        assert(self.seen_at(rows - 1, x, r));
                    }
                }
            }
        }
    }

    /// The derived rules are exactly the observed ones, each once: which
    /// rules come out does not depend on the order of reading.
    pub proof fn lemma_derived_rules(self)
        ensures
            self.derived_rules().no_duplicates(),
            forall|r: Rule|
                #![trigger self.derived_rules().contains(r)]
                self.derived_rules().contains(r) <==> self.observed(r),
    {
        self.lemma_rules_upto(self.h - 1);
        assert forall|r: Rule| self.derived_rules().contains(r) <==> self.observed(r) by {
            if self.derived_rules().contains(r) {
                let (y, x) = choose|y: int, x: int|
                    0 < y < self.h - 1 && 0 < x < self.w - 1 && #[trigger] self.seen_at(y, x, r);
                assert(self.interior(y, x));
            }
            if self.observed(r) {
                let (y, x) = choose|y: int, x: int| #[trigger]
                    self.interior(y, x) && self.seen_at(y, x, r);
                assert(0 < y < self.h - 1 && 0 < x < self.w - 1 && self.seen_at(y, x, r));
            }
        }
    }
}

/// The number that stands for a rule among those over `n` ids and the
/// four steps along the axes.
pub open spec fn rule_code(rule: Rule, n: int) -> int {
    (rule.0 * n + rule.1) * 4 + if rule.2 == Direction::left() {
        0int
    } else if rule.2 == Direction::right() {
        1int
    } else if rule.2 == Direction::up() {
        2int
    } else {
        3int
    }
}

/// Two pairs of ids below `n` that give the same number are the same
/// pair, and the number is below `n * n`.
pub proof fn lemma_pair_code(a: int, b: int, c: int, d: int, n: int)
    by (nonlinear_arith)
    requires
        0 <= a < n,
        0 <= b < n,
        0 <= c < n,
        0 <= d < n,
    ensures
        0 <= a * n + b < n * n,
        a * n + b == c * n + d ==> a == c && b == d,
{
}

impl GridView {
    /// A rule that a scannable sample shows names ids below `n` and one of
    /// the four steps along the axes.
    pub proof fn lemma_observed_valid(self, rule: Rule)
        requires
            self.wf(),
            self.scannable(),
            self.observed(rule),
        ensures
            rule.0 < self.n,
            rule.1 < self.n,
            rule.2 == Direction::left() || rule.2 == Direction::right() || rule.2
                == Direction::up() || rule.2 == Direction::down(),
    {
        let (v, u) = choose|v: int, u: int| #[trigger] self.interior(v, u) && self.seen_at(v, u, rule);
        assert(self.has(v, u) && self.has(v, u - 1) && self.has(v, u + 1) && self.has(v + 1, u)
            && self.has(v - 1, u));
        assert(self.cells[v][u].valid(self.n));
        assert(self.cells[v][u - 1].valid(self.n));
        assert(self.cells[v][u + 1].valid(self.n));
        assert(self.cells[v + 1][u].valid(self.n));
        assert(self.cells[v - 1][u].valid(self.n));
        assert(self.reads_decided(v, u));
    }

    /// A scannable sample over `n` ids shows at most `4 * n * n` rules:
    /// there are no more rules over its ids and the four steps, and none is
    /// derived twice.
    pub proof fn lemma_rules_count(self)
        requires
            self.wf(),
            self.scannable(),
        ensures
            self.derived_rules().len() <= 4 * (self.n * self.n),
            rules_valid(self.derived_rules(), self.n),
    {
        let rules = self.derived_rules();
        let n = self.n as int;
        self.lemma_derived_rules();
        assert forall|j: int| 0 <= j < rules.len() implies (#[trigger] rules[j]).0 < n
            && rules[j].1 < n by {
            assert(rules.contains(rules[j]));
            self.lemma_observed_valid(rules[j]);
        }
        let codes = Seq::new(rules.len(), |i: int| rule_code(rules[i], n));
        let all = vstd::set_lib::set_int_range(0, 4 * (n * n));
        assert forall|i: int| 0 <= i < codes.len() implies 0 <= #[trigger] codes[i] < 4 * (n * n) by {
            assert(rules.contains(rules[i]));
            self.lemma_observed_valid(rules[i]);
            lemma_pair_code(rules[i].0 as int, rules[i].1 as int, 0, 0, n);
        }
        assert forall|i: int, j: int| 0 <= i < j < codes.len() implies codes[i] != codes[j] by {
            assert(rules.contains(rules[i]));
            assert(rules.contains(rules[j]));
            self.lemma_observed_valid(rules[i]);
            self.lemma_observed_valid(rules[j]);
            lemma_pair_code(
                rules[i].0 as int,
                rules[i].1 as int,
                rules[j].0 as int,
                rules[j].1 as int,
                n,
            );
            assert(rules[i] != rules[j]);
            if codes[i] == codes[j] {
                assert(rules[i].2 == rules[j].2);
                assert(rules[i].0 * n + rules[i].1 == rules[j].0 * n + rules[j].1);
                assert(false);
            }
        }
        assert(codes.no_duplicates());
        codes.unique_seq_to_set();
        assert(codes.to_set().subset_of(all)) by {
            assert forall|c: int| codes.to_set().contains(c) implies all.contains(c) by {
                assert(codes.contains(c));
                let i = choose|i: int| 0 <= i < codes.len() && codes[i] == c;
                assert(0 <= codes[i] < 4 * (n * n));
            }
        }
        assert(0 <= 4 * (n * n)) by (nonlinear_arith);
        vstd::set_lib::lemma_int_range(0, 4 * (n * n));
        vstd::set_lib::lemma_len_subset(codes.to_set(), all);
    }

    /// In no row is an id counted more often than there are cells read.
    pub proof fn lemma_row_count(self, id: usize, y: int, upto: int)
        requires
            0 <= upto,
        ensures
            self.occurrences_in_row(id, y, upto) <= upto,
        decreases upto,
    {
        if upto > 0 {
            self.lemma_row_count(id, y, upto - 1);
        }
    }

    /// No weight is above one: an id is counted at most once for each cell
    /// of the sample.
    pub proof fn lemma_weight_within_unit(self, id: usize, rows: int)
        requires
            0 <= rows,
        ensures
            0 <= self.occurrences_upto(id, rows) <= rows * self.w,
            rows == self.h ==> self.occurrences(id) <= self.w * self.h,
        decreases rows,
    {
        if rows > 0 {
            self.lemma_weight_within_unit(id, rows - 1);
            self.lemma_row_count(id, rows - 1, self.w as int);
            assert((rows - 1) * self.w + self.w == rows * self.w) by (nonlinear_arith);
        } else {
            assert(rows * self.w == 0) by (nonlinear_arith)
                requires
                    rows == 0,
            ;
        }
        if rows == self.h {
            assert(rows * self.w == self.w * self.h) by (nonlinear_arith)
                requires
                    rows == self.h,
            ;
        }
    }
}

/// Two derivations from one sample give the same rules as sets, and
/// neither holds a rule twice.
pub proof fn lemma_derivation_idempotent(sample: GridView, first: Seq<Rule>, second: Seq<Rule>)
    requires
        first == sample.derived_rules(),
        second == sample.derived_rules(),
    ensures
        first.to_set() == second.to_set(),
        first.no_duplicates(),
        second.no_duplicates(),
        first.len() == second.len(),
{
    sample.lemma_derived_rules();
}

impl Grid {
    /// Whether every seat off the border is decided, and its four
    /// neighbours too.
    pub fn can_scan(&self) -> (ok: bool)
        requires
            self.wf(),
        ensures
            ok == self@.scannable(),
    {
        proof {
            self.lemma_view();
        }
        if self.h < 3 || self.w < 3 {
            assert forall|y: int, x: int| !#[trigger] self@.interior(y, x) by {}
            return true;
        }
        let mut y: usize = 1;
        while y < self.h - 1
            invariant
                self.wf(),
                self.h >= 3 && self.w >= 3,
                1 <= y <= self.h - 1,
                forall|v: int, u: int|
                    0 < v < y && #[trigger] self@.interior(v, u) ==> self@.reads_decided(v, u),
            decreases self.h - y,
        {
            let mut x: usize = 1;
            while x < self.w - 1
                invariant
                    self.wf(),
                    self.h >= 3 && self.w >= 3,
                    1 <= y < self.h - 1,
                    1 <= x <= self.w - 1,
                    forall|v: int, u: int|
                        (0 < v < y || v == y && 0 < u < x) && #[trigger] self@.interior(v, u)
                            ==> self@.reads_decided(v, u),
                decreases self.w - x,
            {
                assert(self@.interior(y as int, x as int));
                let all = self.get(y, x).get_id().is_ok() && self.get(y, x - 1).get_id().is_ok()
                    && self.get(y, x + 1).get_id().is_ok() && self.get(y + 1, x).get_id().is_ok()
                    && self.get(y - 1, x).get_id().is_ok();
                if !all {
                    assert(!self@.reads_decided(y as int, x as int));
                    return false;
                }
                x += 1;
            }
            y += 1;
        }
        true
    }
}

/// Whether `rule` occurs in `rules`.
fn contains_rule(rules: &Vec<Rule>, rule: Rule) -> (found: bool)
    ensures
        found == rules@.contains(rule),
{
    let mut i: usize = 0;
    while i < rules.len()
        invariant
            i <= rules.len(),
            !rules@.take(i as int).contains(rule),
        decreases rules.len() - i,
    {
        if rules[i] == rule {
            return true;
        }
        assert(rules@.take(i as int + 1) == rules@.take(i as int).push(rules@[i as int]));
        i += 1;
    }
    assert(rules@.take(rules.len() as int) == rules@);
    false
}

/// Adds `rule` unless it is there already.
fn record(rules: &mut Vec<Rule>, rule: Rule)
    ensures
        final(rules)@ == add_rule(old(rules)@, rule),
{
    if !contains_rule(rules, rule) {
        rules.push(rule);
    }
}

/// Counts the candidates of `seat`.
fn tally(counts: &mut Vec<usize>, seat: &Seat, limit: usize)
    requires
        seat@.valid(old(counts)@.len()),
        forall|id: int| 0 <= id < old(counts)@.len() ==> old(counts)@[id] < limit,
    ensures
        final(counts)@.len() == old(counts)@.len(),
        forall|id: usize|
            id < old(counts)@.len() ==> #[trigger] final(counts)@[id as int] == old(counts)@[id as int]
                + holds(seat@, id),
{
    match seat {
        Seat::Collapsed(i) => {
            assert(seat@.candidates()[0] == *i);
            let ghost before = counts@;
            counts[*i] += 1;
            assert forall|id: usize| id < before.len() implies #[trigger] counts@[id as int]
                == before[id as int] + holds(seat@, id) by {
                if id == *i {
                    assert(seat@.candidates()[0] == id);
                } else {
                }
            }
        },
        Seat::Uncertain(v) => {
            let ghost before = counts@;
            let mut k: usize = 0;
            while k < v.len()
                invariant
                    k <= v.len(),
                    seat@ == Cell::Uncertain(v@),
                    seat@.valid(before.len()),
                    counts@.len() == before.len(),
                    forall|id: int| 0 <= id < before.len() ==> before[id] < limit,
                    forall|id: usize|
                        id < before.len() ==> #[trigger] counts@[id as int] == before[id as int] + (
                        if v@.take(k as int).contains(id) {
                            1nat
                        } else {
                            0nat
                        }),
                decreases v.len() - k,
            {
                let i = v[k];
                assert(seat@.candidates()[k as int] < before.len());
                assert(!v@.take(k as int).contains(i)) by {
                    if v@.take(k as int).contains(i) {
                        let m = choose|m: int| 0 <= m < k && v@.take(k as int)[m] == i;
                        assert(v@[m] == v@[k as int]);
                    }
                }
                let ghost mid = counts@;
                counts[i] += 1;
                assert forall|id: usize| id < before.len() implies #[trigger] counts@[id as int]
                    == before[id as int] + (if v@.take(k as int + 1).contains(id) {
                    1nat
                } else {
                    0nat
                }) by {
                    let next = v@.take(k as int + 1);
                    assert(next == v@.take(k as int).push(i));
                    if id == i {
                        assert(next[k as int] == id);
                    } else {
                        if next.contains(id) {
                            let m = choose|m: int| 0 <= m < next.len() && next[m] == id;
                            assert(v@.take(k as int)[m] == id);
                        }
                        if v@.take(k as int).contains(id) {
                            let m = choose|m: int| 0 <= m < k && v@.take(k as int)[m] == id;
                            assert(next[m] == id);
                        }
                    }
                }
                k += 1;
            }
            assert(v@.take(v.len() as int) == v@);
        },
    }
}

/// Reads a sample. The weights count, for each id, the cells of the whole
/// sample in which it is a candidate, over the number of cells. The rules
/// record, for each cell off the border and each of its four neighbours,
/// that the neighbour's id may stand at that displacement from the cell's
/// id; a rule that is there already is not added again.
pub fn generate_rules(grid: &Grid) -> (learned: (Vec<Rule>, Weights))
    requires
        grid.wf(),
        grid@.scannable(),
        grid.w * grid.h <= usize::MAX,
    ensures
        learned.0@ == grid@.derived_rules(),
        learned.0@.no_duplicates(),
        forall|r: Rule| learned.0@.contains(r) <==> grid@.observed(r),
        rules_valid(learned.0@, grid.num_possibilities as nat),
        learned.0@.len() <= 4 * (grid.num_possibilities * grid.num_possibilities),
        learned.1.total == grid.w * grid.h,
        learned.1.counts@.len() == grid.num_possibilities,
        forall|id: usize|
            id < grid.num_possibilities ==> #[trigger] learned.1.counts@[id as int]
                == grid@.occurrences(id),
        forall|id: int|
            0 <= id < grid.num_possibilities ==> 0 <= #[trigger] learned.1.counts@[id]
                <= learned.1.total,
        grid@.populated() ==> learned.1.some_positive(),
{
    let total: usize = grid.w * grid.h;
    let ghost view = grid@;
    proof {
        grid.lemma_view();
    }
    let mut counts: Vec<usize> = Vec::new();
    let mut n: usize = 0;
    while n < grid.num_possibilities
        invariant
            n <= grid.num_possibilities,
            counts@.len() == n,
            forall|id: int| 0 <= id < n ==> counts@[id] == 0,
        decreases grid.num_possibilities - n,
    {
        counts.push(0);
        n += 1;
    }
    let mut y: usize = 0;
    while y < grid.h
        invariant
            grid.wf(),
            view == grid@,
            view.wf(),
            total == grid.w * grid.h,
            y <= grid.h,
            counts@.len() == grid.num_possibilities,
            forall|id: usize|
                id < grid.num_possibilities ==> #[trigger] counts@[id as int]
                    == view.occurrences_upto(id, y as int),
            forall|id: int| 0 <= id < grid.num_possibilities ==> counts@[id] <= y * grid.w,
        decreases grid.h - y,
    {
        let mut x: usize = 0;
        while x < grid.w
            invariant
                grid.wf(),
                view == grid@,
                view.wf(),
                total == grid.w * grid.h,
                y < grid.h,
                x <= grid.w,
                counts@.len() == grid.num_possibilities,
                forall|id: usize|
                    id < grid.num_possibilities ==> #[trigger] counts@[id as int]
                        == view.occurrences_upto(id, y as int) + view.occurrences_in_row(
                        id,
                        y as int,
                        x as int,
                    ),
                forall|id: int|
                    0 <= id < grid.num_possibilities ==> counts@[id] <= y * grid.w + x,
            decreases grid.w - x,
        {
            assert(y * grid.w + x < grid.w * grid.h) by (nonlinear_arith)
                requires
                    y < grid.h,
                    x < grid.w,
            ;
            assert(view.has(y as int, x as int));
            assert(view.cells[y as int][x as int].valid(view.n));
            let ghost before = counts@;
            tally(&mut counts, grid.get(y, x), total);
            assert forall|id: int| 0 <= id < grid.num_possibilities implies counts@[id] <= y
                * grid.w + x + 1 by {
                assert(counts@[id as usize as int] == before[id as usize as int] + holds(
                    view.cells[y as int][x as int],
                    id as usize,
                ));
            }
            x += 1;
        }
        assert((y + 1) * grid.w == y * grid.w + grid.w) by (nonlinear_arith);
        y += 1;
    }
    assert(y * grid.w == grid.w * grid.h) by (nonlinear_arith)
        requires
            y == grid.h,
    ;
    let weights = Weights::new(counts, total);

    let mut rules: Vec<Rule> = Vec::new();
    if grid.h >= 2 && grid.w >= 2 {
        let last_row = grid.h - 1;
        let last_column = grid.w - 1;
        let mut y: usize = 1;
        while y < last_row
            invariant
                grid.wf(),
                view == grid@,
                view.wf(),
                view.scannable(),
                last_row == grid.h - 1,
                last_column == grid.w - 1,
                1 <= y <= last_row,
                1 <= last_column,
                rules@ == view.rules_upto(y as int),
            decreases last_row - y,
        {
            let mut x: usize = 1;
            while x < last_column
                invariant
                    grid.wf(),
                    view == grid@,
                    view.wf(),
                    view.scannable(),
                    last_row == grid.h - 1,
                    last_column == grid.w - 1,
                    1 <= y < last_row,
                    1 <= x <= last_column,
                    rules@ == view.rules_in_row(view.rules_upto(y as int), y as int, x as int),
                decreases last_column - x,
            {
                assert(view.interior(y as int, x as int));
                let current = grid.get(y, x).get_id().unwrap();
                let left = grid.get(y, x - 1).get_id().unwrap();
                let right = grid.get(y, x + 1).get_id().unwrap();
                let up = grid.get(y + 1, x).get_id().unwrap();
                let down = grid.get(y - 1, x).get_id().unwrap();
                record(&mut rules, Rule(left, current, Direction::left()));
                record(&mut rules, Rule(right, current, Direction::right()));
                record(&mut rules, Rule(up, current, Direction::up()));
                record(&mut rules, Rule(down, current, Direction::down()));
                x += 1;
            }
            y += 1;
        }
    }
    proof {
        if view.populated() {
            view.lemma_some_weight_positive();
            let id = choose|id: usize| id < view.n && #[trigger] view.occurrences(id) > 0;
            let k = id as int;
            assert(weights.counts@[id as int] == view.occurrences(id));
            assert(0 <= k < weights.counts@.len() && weights.counts@[k] > 0);
            assert(weights.some_positive());
        }
        view.lemma_derived_rules();
        if grid.h < 2 || grid.w < 2 {
            view.lemma_rules_empty();
        }
        view.lemma_rules_count();
    }
    (rules, weights)
}

impl GridView {
    /// A grid with fewer than two rows or columns has no cell off the
    /// border, and so no rules.
    pub proof fn lemma_rules_empty(self)
        requires
            self.h < 2 || self.w < 2,
        ensures
            self.derived_rules() == Seq::<Rule>::empty(),
    {
        if self.h >= 2 {
            self.lemma_rules_flat(self.h - 1);
        }
    }

    /// Rows without a cell off the border add no rule.
    pub proof fn lemma_rules_flat(self, rows: int)
        requires
            self.w < 3,
        ensures
            self.rules_upto(rows) == Seq::<Rule>::empty(),
        decreases rows,
    {
        if rows > 1 {
            self.lemma_rules_flat(rows - 1);
        }
    }
}

} // verus!
