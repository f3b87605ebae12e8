//! Adjacency rules and what they allow next to a cell.

use vstd::prelude::*;
use crate::grid::Grid;
use crate::seat::{contains_id, Cell, Seat};

verus! {

/// A displacement on the grid: `dx` columns and `dy` rows. Any displacement
/// can key a rule; the solver itself looks one step along each axis.
#[derive(Clone, Copy, Debug, PartialEq, Eq, Structural)]
pub struct Direction {
    pub dx: i32,
    pub dy: i32,
}

impl Direction {
    /// One column back.
    pub open spec fn spec_left() -> Direction {
        Direction { dx: -1i32, dy: 0 }
    }

    /// One column on.
    pub open spec fn spec_right() -> Direction {
        Direction { dx: 1, dy: 0 }
    }

    /// One row on.
    pub open spec fn spec_up() -> Direction {
        Direction { dx: 0, dy: 1 }
    }

    /// One row back.
    pub open spec fn spec_down() -> Direction {
        Direction { dx: 0, dy: -1i32 }
    }

    /// One column back.
    #[verifier::when_used_as_spec(spec_left)]
    pub fn left() -> (d: Direction)
        ensures
            d == Direction::spec_left(),
    {
        Direction { dx: -1, dy: 0 }
    }

    /// One column on.
    #[verifier::when_used_as_spec(spec_right)]
    pub fn right() -> (d: Direction)
        ensures
            d == Direction::spec_right(),
    {
        Direction { dx: 1, dy: 0 }
    }

    /// One row on. Rows are counted upwards.
    #[verifier::when_used_as_spec(spec_up)]
    pub fn up() -> (d: Direction)
        ensures
            d == Direction::spec_up(),
    {
        Direction { dx: 0, dy: 1 }
    }

    /// One row back.
    #[verifier::when_used_as_spec(spec_down)]
    pub fn down() -> (d: Direction)
        ensures
            d == Direction::spec_down(),
    {
        Direction { dx: 0, dy: -1 }
    }
}

/// `Rule(a, b, d)` says that `a` may stand at displacement `d` from a cell
/// that holds `b`. Nothing follows from it for the opposite displacement.
#[derive(Clone, Copy, Debug, PartialEq, Eq, Structural)]
pub struct Rule(pub usize, pub usize, pub Direction);

/// Every id that a rule names is below `n`.
pub open spec fn rules_valid(rules: Seq<Rule>, n: nat) -> bool {
    forall|j: int| 0 <= j < rules.len() ==> (#[trigger] rules[j]).0 < n && rules[j].1 < n
}

/// Whether every id that a rule names is below `n`.
pub fn rules_fit(rules: &Vec<Rule>, n: usize) -> (ok: bool)
    ensures
        ok == rules_valid(rules@, n as nat),
{
    let mut j: usize = 0;
    while j < rules.len()
        invariant
            j <= rules.len(),
            forall|k: int| 0 <= k < j ==> (#[trigger] rules@[k]).0 < n && rules@[k].1 < n,
        decreases rules.len() - j,
    {
        if rules[j].0 >= n || rules[j].1 >= n {
            return false;
        }
        j += 1;
    }
    true
}

/// Some rule lets `id` stand at `offset` from a cell that holds `subject`.
pub open spec fn allows(rules: Seq<Rule>, subject: usize, offset: Direction, id: usize) -> bool {
    exists|j: int| 0 <= j < rules.len() && #[trigger] rules[j] == Rule(id, subject, offset)
}

/// `id` may stand at `offset` from a cell that could still hold any of
/// `candidates`: it is enough that one of them allows it.
pub open spec fn compatible(
    candidates: Seq<usize>,
    offset: Direction,
    rules: Seq<Rule>,
    id: usize,
) -> bool {
    exists|i: int|
        0 <= i < candidates.len() && allows(rules, #[trigger] candidates[i], offset, id)
}

/// `found`, followed by the ids that `rules` allow at `offset` from
/// `subject` and that are not in it yet, in the order of the rules.
pub open spec fn gather(
    found: Seq<usize>,
    subject: usize,
    offset: Direction,
    rules: Seq<Rule>,
) -> Seq<usize>
    decreases rules.len(),
{
    if rules.len() == 0 {
        found
    } else {
        let before = gather(found, subject, offset, rules.drop_last());
        let rule = rules.last();
        if rule.1 == subject && rule.2 == offset && !before.contains(rule.0) {
            before.push(rule.0)
        } else {
            before
        }
    }
}

/// The ids compatible with `candidates` at `offset`, each once, in the order
/// in which walking the candidates, and for each the rules, first meets them.
pub open spec fn gather_all(candidates: Seq<usize>, offset: Direction, rules: Seq<Rule>) -> Seq<
    usize,
>
    decreases candidates.len(),
{
    if candidates.len() == 0 {
        Seq::empty()
    } else {
        gather(
            gather_all(candidates.drop_last(), offset, rules),
            candidates.last(),
            offset,
            rules,
        )
    }
}

/// `gather` keeps what was found, adds exactly the allowed ids, and adds
/// none twice.
pub proof fn lemma_gather(found: Seq<usize>, subject: usize, offset: Direction, rules: Seq<Rule>)
    requires
        found.no_duplicates(),
    ensures
        gather(found, subject, offset, rules).no_duplicates(),
        forall|id: usize|
            #![trigger gather(found, subject, offset, rules).contains(id)]
            gather(found, subject, offset, rules).contains(id) <==> found.contains(id) || allows(
                rules,
                subject,
                offset,
                id,
            ),
    decreases rules.len(),
{
    let out = gather(found, subject, offset, rules);
    if rules.len() == 0 {
    } else {
        let front = rules.drop_last();
        let before = gather(found, subject, offset, front);
        let rule = rules.last();
        lemma_gather(found, subject, offset, front);
        assert forall|id: usize| out.contains(id) <==> found.contains(id) || allows(
            rules,
            subject,
            offset,
            id,
        ) by {
            if allows(rules, subject, offset, id) {
                let j = choose|j: int| 0 <= j < rules.len() && #[trigger] rules[j] == Rule(id, subject, offset);
                if j < front.len() {
                    assert(front[j] == Rule(id, subject, offset));
                    assert(allows(front, subject, offset, id));
                    assert(before.contains(id));
                } else {
                    assert(rule == Rule(id, subject, offset));
                }
                if out == before {
                } else {
                    assert(out == before.push(rule.0));
                    assert(out[before.len() as int] == rule.0);
                    if before.contains(id) {
                        let k = choose|k: int| 0 <= k < before.len() && before[k] == id;
                        assert(out[k] == id);
                    }
                }
                assert(out.contains(id));
            }
            if found.contains(id) {
                assert(before.contains(id));
                let k = choose|k: int| 0 <= k < before.len() && before[k] == id;
                assert(out[k] == id);
            }
            if out.contains(id) {
                let k = choose|k: int| 0 <= k < out.len() && out[k] == id;
                if k < before.len() {
                    assert(before[k] == id);
                    assert(before.contains(id));
                    if allows(front, subject, offset, id) {
                        let j = choose|j: int| 0 <= j < front.len() && #[trigger] front[j] == Rule(id, subject, offset);
                        assert(rules[j] == Rule(id, subject, offset));
                    }
                } else {
                    assert(id == rule.0);
                    assert(rules[rules.len() - 1] == Rule(id, subject, offset));
                }
            }
        }
    }
}

/// `gather_all` holds exactly the compatible ids, each once.
pub proof fn lemma_gather_all(candidates: Seq<usize>, offset: Direction, rules: Seq<Rule>)
    ensures
        gather_all(candidates, offset, rules).no_duplicates(),
        forall|id: usize|
            #![trigger gather_all(candidates, offset, rules).contains(id)]
            gather_all(candidates, offset, rules).contains(id) <==> compatible(
                candidates,
                offset,
                rules,
                id,
            ),
    decreases candidates.len(),
{
    let out = gather_all(candidates, offset, rules);
    if candidates.len() == 0 {
    } else {
        let front = candidates.drop_last();
        let before = gather_all(front, offset, rules);
        lemma_gather_all(front, offset, rules);
        lemma_gather(before, candidates.last(), offset, rules);
        assert forall|id: usize| out.contains(id) <==> compatible(
            candidates,
            offset,
            rules,
            id,
        ) by {
            if compatible(candidates, offset, rules, id) {
                let i = choose|i: int|
                    0 <= i < candidates.len() && allows(rules, #[trigger] candidates[i], offset, id);
                if i < front.len() {
                    assert(allows(rules, front[i], offset, id));
                    assert(compatible(front, offset, rules, id));
                }
            }
            if out.contains(id) {
                if before.contains(id) {
                    let i = choose|i: int|
                        0 <= i < front.len() && allows(rules, #[trigger] front[i], offset, id);
                    assert(allows(rules, candidates[i], offset, id));
                } else {
                    assert(allows(rules, candidates[candidates.len() - 1], offset, id));
                }
            }
        }
    }
}

/// With valid rules, every gathered id is below `n`.
pub proof fn lemma_gather_all_valid(
    candidates: Seq<usize>,
    offset: Direction,
    rules: Seq<Rule>,
    n: nat,
)
    requires
        rules_valid(rules, n),
    ensures
        forall|k: int|
            0 <= k < gather_all(candidates, offset, rules).len() ==> (#[trigger] gather_all(
                candidates,
                offset,
                rules,
            )[k]) < n,
{
    let out = gather_all(candidates, offset, rules);
    lemma_gather_all(candidates, offset, rules);
    assert forall|k: int| 0 <= k < out.len() implies (#[trigger] out[k]) < n by {
        assert(out.contains(out[k]));
        let i = choose|i: int|
            0 <= i < candidates.len() && allows(rules, #[trigger] candidates[i], offset, out[k]);
        let j = choose|j: int|
            0 <= j < rules.len() && #[trigger] rules[j] == Rule(out[k], candidates[i], offset);
        assert(rules[j].0 < n);
    }
}

/// Adds to `found` what `rules` allow at `direction` from `subject`.
fn gather_into(found: &mut Vec<usize>, subject: usize, direction: &Direction, rules: &Vec<Rule>)
    ensures
        final(found)@ == gather(old(found)@, subject, *direction, rules@),
{
    let ghost start = found@;
    let mut j: usize = 0;
    while j < rules.len()
        invariant
            j <= rules.len(),
            found@ == gather(start, subject, *direction, rules@.take(j as int)),
        decreases rules.len() - j,
    {
        let rule = rules[j];
        proof {
            let next = rules@.take(j as int + 1);
            assert(next.drop_last() == rules@.take(j as int));
            assert(next.last() == rule);
        }
        if rule.1 == subject && rule.2 == *direction {
            if !contains_id(found, rule.0) {
                found.push(rule.0);
            }
        }
        j += 1;
    }
    assert(rules@.take(rules.len() as int) == rules@);
}

impl Grid {
    /// The ids that may stand at `direction` from `surrounding`: those that
    /// `rules` allow next to at least one of its candidates. `None` when
    /// there is no such id.
    pub fn possibilities(
        &self,
        surrounding: &Seat,
        direction: &Direction,
        rules: &Vec<Rule>,
    ) -> (found: Option<Vec<usize>>)
        ensures
            match found {
                Some(ids) => ids@.len() > 0 && ids@ == gather_all(
                    surrounding@.candidates(),
                    *direction,
                    rules@,
                ),
                None => gather_all(surrounding@.candidates(), *direction, rules@).len() == 0,
            },
            found matches Some(ids) ==> ids@.no_duplicates(),
            forall|id: usize|
                compatible(surrounding@.candidates(), *direction, rules@, id) <==> (
                found matches Some(ids) && ids@.contains(id)),
    {
        let mut temp_possibilities: Vec<usize> = Vec::new();
        match surrounding {
            Seat::Uncertain(s) => {
                let mut i: usize = 0;
                while i < s.len()
                    invariant
                        i <= s.len(),
                        temp_possibilities@ == gather_all(s@.take(i as int), *direction, rules@),
                    decreases s.len() - i,
                {
                    proof {
                        let next = s@.take(i as int + 1);
                        assert(next.drop_last() == s@.take(i as int));
                        assert(next.last() == s@[i as int]);
                    }
                    gather_into(&mut temp_possibilities, s[i], direction, rules);
                    i += 1;
                }
                assert(s@.take(s.len() as int) == s@);
            },
            Seat::Collapsed(cell_type) => {
                proof {
                    let one = seq![*cell_type];
                    assert(one.drop_last() == Seq::<usize>::empty());
                    assert(gather_all(one.drop_last(), *direction, rules@) == Seq::<usize>::empty());
                }
                gather_into(&mut temp_possibilities, *cell_type, direction, rules);
            },
        }
        proof {
            let all = gather_all(surrounding@.candidates(), *direction, rules@);
            lemma_gather_all(surrounding@.candidates(), *direction, rules@);
            assert forall|id: usize| #[trigger]
                compatible(surrounding@.candidates(), *direction, rules@, id) == all.contains(
                    id,
                ) by {}
        }
        if temp_possibilities.len() == 0 {
            None
        } else {
            Some(temp_possibilities)
        }
    }
}

} // verus!
