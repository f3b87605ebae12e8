//! What the neighbours of a cell leave possible in it.

use vstd::prelude::*;
use crate::grid::{Grid, GridView};
use crate::rules::{
    compatible, gather_all, lemma_gather_all, lemma_gather_all_valid, rules_valid, Direction, Rule,
};
use crate::seat::contains_id;

verus! {

/// The ids of `ids` that also occur in `other`, in the order of `ids`.
pub open spec fn keep(ids: Seq<usize>, other: Seq<usize>) -> Seq<usize>
    decreases ids.len(),
{
    if ids.len() == 0 {
        Seq::empty()
    } else {
        let front = keep(ids.drop_last(), other);
        if other.contains(ids.last()) {
            front.push(ids.last())
        } else {
            front
        }
    }
}

/// The last of `parts`, narrowed by the first `k` of them in turn.
pub open spec fn meet_upto(parts: Seq<Seq<usize>>, k: int) -> Seq<usize>
    decreases k,
{
    if k <= 0 {
        parts.last()
    } else {
        keep(parts[k - 1], meet_upto(parts, k - 1))
    }
}

/// The ids common to all of `parts`, in the order of the last part that
/// narrowed them. Without parts there is no id.
pub open spec fn meet(parts: Seq<Seq<usize>>) -> Seq<usize> {
    if parts.len() == 0 {
        Seq::empty()
    } else {
        meet_upto(parts, parts.len() - 1)
    }
}

/// `parts` with `part` added, unless `part` is empty: a neighbour for which
/// no rule speaks constrains nothing.
pub open spec fn with_part(parts: Seq<Seq<usize>>, part: Seq<usize>) -> Seq<Seq<usize>> {
    if part.len() > 0 {
        parts.push(part)
    } else {
        parts
    }
}

impl GridView {
    /// What the neighbour at `(y + dy, x + dx)` allows in the cell at
    /// `(y, x)`: the ids that the rules let stand at the displacement that
    /// leads from the neighbour to the cell. A neighbour outside the grid
    /// allows nothing.
    pub open spec fn allowed_from(self, y: int, x: int, dy: int, dx: int, rules: Seq<Rule>) -> Seq<
        usize,
    > {
        if self.has(y + dy, x + dx) {
            gather_all(
                self.cells[y + dy][x + dx].candidates(),
                Direction { dx: (-dx) as i32, dy: (-dy) as i32 },
                rules,
            )
        } else {
            Seq::empty()
        }
    }

    /// The constraints on the cell at `(y, x)`: what the neighbours in the
    /// row before, in the row after, in the column after and in the column
    /// before allow, in this order, leaving out those that allow nothing.
    pub open spec fn contributions(self, y: int, x: int, rules: Seq<Rule>) -> Seq<Seq<usize>> {
        with_part(
            with_part(
                with_part(
                    with_part(Seq::empty(), self.allowed_from(y, x, -1, 0, rules)),
                    self.allowed_from(y, x, 1, 0, rules),
                ),
                self.allowed_from(y, x, 0, 1, rules),
            ),
            self.allowed_from(y, x, 0, -1, rules),
        )
    }

    /// The candidates that the neighbours leave to the cell at `(y, x)`.
    pub open spec fn constrained(self, y: int, x: int, rules: Seq<Rule>) -> Seq<usize> {
        meet(self.contributions(y, x, rules))
    }
}

/// `keep` holds exactly the ids that both sequences hold, and repeats none
/// that `ids` does not repeat.
pub proof fn lemma_keep(ids: Seq<usize>, other: Seq<usize>)
    ensures
        forall|id: usize|
            #![trigger keep(ids, other).contains(id)]
            keep(ids, other).contains(id) <==> ids.contains(id) && other.contains(id),
        ids.no_duplicates() ==> keep(ids, other).no_duplicates(),
    decreases ids.len(),
{
    let out = keep(ids, other);
    if ids.len() == 0 {
    } else {
        let front_ids = ids.drop_last();
        let front = keep(front_ids, other);
        let last = ids.last();
        lemma_keep(front_ids, other);
        assert forall|id: usize| out.contains(id) <==> ids.contains(id) && other.contains(
            id,
        ) by {
            if out.contains(id) {
                let k = choose|k: int| 0 <= k < out.len() && out[k] == id;
                if k < front.len() {
                    assert(front[k] == id);
                    assert(front.contains(id));
                    let m = choose|m: int| 0 <= m < front_ids.len() && front_ids[m] == id;
                    assert(ids[m] == id);
                } else {
                    assert(ids[ids.len() - 1] == id);
                }
            }
            if ids.contains(id) && other.contains(id) {
                let m = choose|m: int| 0 <= m < ids.len() && ids[m] == id;
                if m < front_ids.len() {
                    assert(front_ids[m] == id);
                    assert(front_ids.contains(id));
                    assert(front.contains(id));
                    let k = choose|k: int| 0 <= k < front.len() && front[k] == id;
                    assert(out[k] == id);
                } else {
                    assert(out[out.len() - 1] == id);
                }
            }
        }
        if ids.no_duplicates() {
            assert(front_ids.no_duplicates());
            if other.contains(last) {
                assert(!front.contains(last)) by {
                    if front.contains(last) {
                        assert(front_ids.contains(last));
                        let m = choose|m: int| 0 <= m < front_ids.len() && front_ids[m] == last;
                        assert(ids[m] == ids[ids.len() - 1]);
                    }
                }
                assert forall|i: int, j: int| 0 <= i < j < out.len() implies out[i] != out[j] by {
                    if j == out.len() - 1 {
                        assert(out[i] == front[i]);
                        assert(front.contains(front[i]));
                    }
                }
            }
        }
    }
}

/// The first `k` parts and the last hold every id of `meet_upto`, and it
/// holds every id that they all hold.
pub proof fn lemma_meet_upto(parts: Seq<Seq<usize>>, k: int)
    requires
        0 <= k < parts.len(),
    ensures
        forall|id: usize|
            #![trigger meet_upto(parts, k).contains(id)]
            meet_upto(parts, k).contains(id) <==> parts.last().contains(id) && forall|i: int|
                0 <= i < k ==> (#[trigger] parts[i]).contains(id),
        (forall|i: int| 0 <= i < parts.len() ==> (#[trigger] parts[i]).no_duplicates())
            ==> meet_upto(parts, k).no_duplicates(),
    decreases k,
{
    if k > 0 {
        lemma_meet_upto(parts, k - 1);
        lemma_keep(parts[k - 1], meet_upto(parts, k - 1));
        assert forall|id: usize|
            meet_upto(parts, k).contains(id) <==> parts.last().contains(id) && forall|i: int|
                0 <= i < k ==> (#[trigger] parts[i]).contains(id) by {
            if meet_upto(parts, k).contains(id) {
                assert(parts[k - 1].contains(id));
                assert(meet_upto(parts, k - 1).contains(id));
            }
            if parts.last().contains(id) && forall|i: int|
                0 <= i < k ==> (#[trigger] parts[i]).contains(id) {
                assert(parts[k - 1].contains(id));
                assert(meet_upto(parts, k - 1).contains(id));
            }
        }
    }
}

/// An id is in `meet` exactly when there is at least one part and every
/// part holds it: the parts are intersected. Parts without duplicates give
/// a result without duplicates, and a single part is the result.
pub proof fn lemma_meet(parts: Seq<Seq<usize>>)
    ensures
        forall|id: usize|
            #![trigger meet(parts).contains(id)]
            meet(parts).contains(id) <==> parts.len() > 0 && forall|i: int|
                0 <= i < parts.len() ==> (#[trigger] parts[i]).contains(id),
        (forall|i: int| 0 <= i < parts.len() ==> (#[trigger] parts[i]).no_duplicates())
            ==> meet(parts).no_duplicates(),
        parts.len() == 1 ==> meet(parts) == parts[0],
{
    if parts.len() > 0 {
        lemma_meet_upto(parts, parts.len() - 1);
        assert forall|id: usize|
            meet(parts).contains(id) <==> parts.len() > 0 && forall|i: int|
                0 <= i < parts.len() ==> (#[trigger] parts[i]).contains(id) by {
            if meet(parts).contains(id) {
                assert forall|i: int| 0 <= i < parts.len() implies (#[trigger] parts[i]).contains(
                    id,
                ) by {
                    if i == parts.len() - 1 {
                        assert(parts[i] == parts.last());
                    }
                }
            }
            if forall|i: int| 0 <= i < parts.len() ==> (#[trigger] parts[i]).contains(id) {
                assert(parts[parts.len() - 1].contains(id));
            }
        }
    }
}

/// A neighbour for which no rule speaks adds no part. Next to a neighbour
/// that has something to say it changes nothing; alone it leaves the cell
/// nothing.
pub proof fn lemma_silent_neighbour(parts: Seq<Seq<usize>>)
    ensures
        with_part(parts, Seq::empty()) == parts,
        meet(with_part(parts, Seq::empty())) == meet(parts),
        meet(with_part(Seq::empty(), Seq::empty())) == Seq::<usize>::empty(),
{
}

/// The ids of `ids` that also occur in `other`, in the order of `ids`.
fn keep_common(ids: &Vec<usize>, other: &Vec<usize>) -> (kept: Vec<usize>)
    ensures
        kept@ == keep(ids@, other@),
{
    let mut kept: Vec<usize> = Vec::new();
    let mut i: usize = 0;
    while i < ids.len()
        invariant
            i <= ids.len(),
            kept@ == keep(ids@.take(i as int), other@),
        decreases ids.len() - i,
    {
        proof {
            let next = ids@.take(i as int + 1);
            assert(next.drop_last() == ids@.take(i as int));
            assert(next.last() == ids@[i as int]);
        }
        if contains_id(other, ids[i]) {
            kept.push(ids[i]);
        }
        i += 1;
    }
    assert(ids@.take(ids.len() as int) == ids@);
    kept
}

/// The parts of a collection, each as a sequence.
pub open spec fn parts_of(collection: &Vec<Vec<usize>>) -> Seq<Seq<usize>> {
    Seq::new(collection@.len(), |i: int| collection@[i]@)
}

/// The ids common to all parts of `collection`: its last part, narrowed by
/// the others from the first on.
pub fn intersect(collection: Vec<Vec<usize>>) -> (common: Vec<usize>)
    ensures
        common@ == meet(parts_of(&collection)),
{
    let ghost parts = parts_of(&collection);
    let mut rest = collection;
    let mut possibilities: Vec<usize> = match rest.pop() {
        Some(last) => last,
        None => {
            return Vec::new();
        },
    };
    assert(possibilities@ == parts.last());
    let mut i: usize = 0;
    while i < rest.len()
        invariant
            parts.len() == rest@.len() + 1,
            forall|k: int| 0 <= k < rest@.len() ==> (#[trigger] rest@[k])@ == parts[k],
            i <= rest.len(),
            possibilities@ == meet_upto(parts, i as int),
        decreases rest.len() - i,
    {
        possibilities = keep_common(&rest[i], &possibilities);
        i += 1;
    }
    possibilities
}

impl Grid {
    /// Adds to `collection` what the seat in column `x` of row `y` allows
    /// at `direction`, if it allows anything.
    fn consult(
        &self,
        collection: &mut Vec<Vec<usize>>,
        y: usize,
        x: usize,
        direction: Direction,
        rules: &Vec<Rule>,
    )
        requires
            self.wf(),
            y < self.h,
            x < self.w,
        ensures
            parts_of(final(collection)) == with_part(
                parts_of(old(collection)),
                gather_all(self@.cells[y as int][x as int].candidates(), direction, rules@),
            ),
    {
        let ghost before = parts_of(collection);
        let found = self.possibilities(self.get(y, x), &direction, rules);
        if found.is_some() {
            let part = found.unwrap();
            collection.push(part);
            assert(parts_of(collection) =~= before.push(part@));
        }
    }

    /// The candidates that the neighbours leave to the seat in column `x`
    /// of row `y`: the ids that every neighbour with something to say
    /// allows there. Nothing is left when no neighbour has anything to say.
    pub fn constraint(&self, y: usize, x: usize, rules: &Vec<Rule>) -> (left: Vec<usize>)
        requires
            self.wf(),
            y < self.h,
            x < self.w,
        ensures
            left@ == self@.constrained(y as int, x as int, rules@),
            left@.no_duplicates(),
            rules_valid(rules@, self.num_possibilities as nat) ==> forall|k: int|
                0 <= k < left@.len() ==> (#[trigger] left@[k]) < self.num_possibilities,
    {
        let mut collection: Vec<Vec<usize>> = Vec::new();
        assert(parts_of(&collection) =~= Seq::<Seq<usize>>::empty());
        if y != 0 {
            self.consult(&mut collection, y - 1, x, Direction::up(), rules);
        }
        if y < self.h - 1 {
            self.consult(&mut collection, y + 1, x, Direction::down(), rules);
        }
        if x < self.w - 1 {
            self.consult(&mut collection, y, x + 1, Direction::left(), rules);
        }
        if x != 0 {
            self.consult(&mut collection, y, x - 1, Direction::right(), rules);
        }
        proof {
            self@.lemma_constrained(y as int, x as int, rules@);
        }
        intersect(collection)
    }
}

impl GridView {
    /// No part of the constraint on a cell is empty or repeats an id, and
    /// neither does the result; with valid rules every id in it is below
    /// `n`.
    pub proof fn lemma_constrained(self, y: int, x: int, rules: Seq<Rule>)
        ensures
            forall|i: int|
                0 <= i < self.contributions(y, x, rules).len() ==> (
                #[trigger] self.contributions(y, x, rules)[i]).len() > 0,
            forall|i: int|
                0 <= i < self.contributions(y, x, rules).len() ==> (
                #[trigger] self.contributions(y, x, rules)[i]).no_duplicates(),
            self.constrained(y, x, rules).no_duplicates(),
            rules_valid(rules, self.n) ==> forall|k: int|
                0 <= k < self.constrained(y, x, rules).len() ==> (#[trigger] self.constrained(
                    y,
                    x,
                    rules,
                )[k]) < self.n,
    {
        let parts = self.contributions(y, x, rules);
        self.lemma_allowed_from(y, x, -1, 0, rules);
        self.lemma_allowed_from(y, x, 1, 0, rules);
        self.lemma_allowed_from(y, x, 0, 1, rules);
        self.lemma_allowed_from(y, x, 0, -1, rules);
        lemma_meet(parts);
        if rules_valid(rules, self.n) {
            let out = self.constrained(y, x, rules);
            assert forall|k: int| 0 <= k < out.len() implies (#[trigger] out[k]) < self.n by {
                assert(out.contains(out[k]));
                assert(parts[0].contains(out[k]));
                let m = choose|m: int| 0 <= m < parts[0].len() && parts[0][m] == out[k];
                assert(parts[0][m] < self.n);
            }
        }
    }

    /// What a neighbour allows repeats no id, and with valid rules names
    /// only ids below `n`.
    pub proof fn lemma_allowed_from(self, y: int, x: int, dy: int, dx: int, rules: Seq<Rule>)
        ensures
            self.allowed_from(y, x, dy, dx, rules).no_duplicates(),
            rules_valid(rules, self.n) ==> forall|k: int|
                0 <= k < self.allowed_from(y, x, dy, dx, rules).len() ==> (
                #[trigger] self.allowed_from(y, x, dy, dx, rules)[k]) < self.n,
    {
        if self.has(y + dy, x + dx) {
            let offset = Direction { dx: (-dx) as i32, dy: (-dy) as i32 };
            lemma_gather_all(self.cells[y + dy][x + dx].candidates(), offset, rules);
            if rules_valid(rules, self.n) {
                lemma_gather_all_valid(
                    self.cells[y + dy][x + dx].candidates(),
                    offset,
                    rules,
                    self.n,
                );
            }
        }
    }
}

impl GridView {
    /// The two levels of the constraint on the cell at `(y, x)`. A
    /// neighbour allows an id when the rules let it stand next to at least
    /// one of the neighbour's candidates: within a neighbour, the candidates
    /// are united. The id is left to the cell when some neighbour allows
    /// anything at all, and every neighbour that does allows this id: across
    /// the neighbours, what they allow is intersected, and a neighbour that
    /// allows nothing is passed over.
    pub proof fn lemma_two_levels(self, y: int, x: int, rules: Seq<Rule>, id: usize)
        ensures
            forall|dy: int, dx: int|
                #![trigger self.allowed_from(y, x, dy, dx, rules)]
                self.allowed_from(y, x, dy, dx, rules).contains(id) <==> self.has(y + dy, x + dx)
                    && compatible(
                    self.cells[y + dy][x + dx].candidates(),
                    Direction { dx: (-dx) as i32, dy: (-dy) as i32 },
                    rules,
                    id,
                ),
            self.constrained(y, x, rules).contains(id) <==> {
                &&& self.allowed_from(y, x, -1, 0, rules).len() > 0 || self.allowed_from(
                    y,
                    x,
                    1,
                    0,
                    rules,
                ).len() > 0 || self.allowed_from(y, x, 0, 1, rules).len() > 0 || self.allowed_from(
                    y,
                    x,
                    0,
                    -1,
                    rules,
                ).len() > 0
                &&& self.allowed_from(y, x, -1, 0, rules).len() > 0 ==> self.allowed_from(
                    y,
                    x,
                    -1,
                    0,
                    rules,
                ).contains(id)
                &&& self.allowed_from(y, x, 1, 0, rules).len() > 0 ==> self.allowed_from(
                    y,
                    x,
                    1,
                    0,
                    rules,
                ).contains(id)
                &&& self.allowed_from(y, x, 0, 1, rules).len() > 0 ==> self.allowed_from(
                    y,
                    x,
                    0,
                    1,
                    rules,
                ).contains(id)
                &&& self.allowed_from(y, x, 0, -1, rules).len() > 0 ==> self.allowed_from(
                    y,
                    x,
                    0,
                    -1,
                    rules,
                ).contains(id)
            },
    {
        assert forall|dy: int, dx: int|
            #![trigger self.allowed_from(y, x, dy, dx, rules)]
            self.allowed_from(y, x, dy, dx, rules).contains(id) <==> self.has(y + dy, x + dx)
                && compatible(
                self.cells[y + dy][x + dx].candidates(),
                Direction { dx: (-dx) as i32, dy: (-dy) as i32 },
                rules,
                id,
            ) by {
            if self.has(y + dy, x + dx) {
                lemma_gather_all(
                    self.cells[y + dy][x + dx].candidates(),
                    Direction { dx: (-dx) as i32, dy: (-dy) as i32 },
                    rules,
                );
            }
        }
        let a = self.allowed_from(y, x, -1, 0, rules);
        let b = self.allowed_from(y, x, 1, 0, rules);
        let c = self.allowed_from(y, x, 0, 1, rules);
        let d = self.allowed_from(y, x, 0, -1, rules);
        let p0 = Seq::<Seq<usize>>::empty();
        let p1 = with_part(p0, a);
        let p2 = with_part(p1, b);
        let p3 = with_part(p2, c);
        let p4 = with_part(p3, d);
        assert(p4 == self.contributions(y, x, rules));
        lemma_meet(p4);
        lemma_all_hold(p0, a, id);
        lemma_all_hold(p1, b, id);
        lemma_all_hold(p2, c, id);
        lemma_all_hold(p3, d, id);
    }
}

/// Every part holds `id`.
pub open spec fn all_hold(parts: Seq<Seq<usize>>, id: usize) -> bool {
    forall|i: int| 0 <= i < parts.len() ==> (#[trigger] parts[i]).contains(id)
}

/// With a part added, every part holds `id` exactly when every part held it
/// before and the added part, unless it is empty, holds it too.
pub proof fn lemma_all_hold(parts: Seq<Seq<usize>>, part: Seq<usize>, id: usize)
    ensures
        all_hold(with_part(parts, part), id) <==> all_hold(parts, id) && (part.len() > 0
            ==> part.contains(id)),
        with_part(parts, part).len() > 0 <==> parts.len() > 0 || part.len() > 0,
{
    let next = with_part(parts, part);
    if part.len() > 0 {
        if all_hold(next, id) {
            assert forall|i: int| 0 <= i < parts.len() implies (#[trigger] parts[i]).contains(
                id,
            ) by {
                assert(next[i] == parts[i]);
            }
            assert(next[parts.len() as int] == part);
        }
        if all_hold(parts, id) && part.contains(id) {
            assert forall|i: int| 0 <= i < next.len() implies (#[trigger] next[i]).contains(
                id,
            ) by {
                if i < parts.len() {
                    assert(next[i] == parts[i]);
                }
            }
        }
    }
}

} // verus!
