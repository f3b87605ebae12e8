//! One grid position: either a decided symbol or the symbols still possible.

use vstd::prelude::*;

verus! {

/// The mathematical value of a [`Seat`]: a decided id, or the sequence of
/// ids that are still possible.
#[verifier::ext_equal]
pub enum Cell {
    Collapsed(usize),
    Uncertain(Seq<usize>),
}

impl Cell {
    /// The ids the cell may still become, in stored order. A decided cell
    /// has exactly one.
    pub open spec fn candidates(self) -> Seq<usize> {
        match self {
            Cell::Collapsed(id) => seq![id],
            Cell::Uncertain(ids) => ids,
        }
    }

    /// Every candidate is an id below `n`, and none occurs twice.
    pub open spec fn valid(self, n: nat) -> bool {
        &&& self.candidates().no_duplicates()
        &&& forall|i: int| 0 <= i < self.candidates().len() ==> self.candidates()[i] < n
    }

    /// The cell before anything is known: every id below `n` is possible.
    /// With a single symbol there is nothing to decide.
    pub open spec fn fresh(n: nat) -> Cell {
        if n == 1 {
            Cell::Collapsed(0)
        } else {
            Cell::Uncertain(Seq::new(n, |i: int| i as usize))
        }
    }

    /// An undecided cell with one candidate left becomes decided; any other
    /// cell stays as it is.
    pub open spec fn finalized(self) -> Cell {
        match self {
            Cell::Uncertain(ids) if ids.len() == 1 => Cell::Collapsed(ids[0]),
            _ => self,
        }
    }
}

/// A grid position as stored.
#[derive(Clone, Debug, PartialEq, Eq)]
pub enum Seat {
    Collapsed(usize),
    Uncertain(Vec<usize>),
}

impl View for Seat {
    type V = Cell;

    open spec fn view(&self) -> Cell {
        match *self {
            Seat::Collapsed(id) => Cell::Collapsed(id),
            Seat::Uncertain(ids) => Cell::Uncertain(ids@),
        }
    }
}

/// Why a seat would not give an id.
pub open spec fn uncertain_seat_message() -> Seq<char> {
    "Tried to get id of an uncertain seat"@
}

impl Seat {
    /// A seat for a grid of `num_possibilities` symbols, nothing decided yet.
    pub fn new(num_possibilities: usize) -> (seat: Seat)
        ensures
            seat@ == Cell::fresh(num_possibilities as nat),
            seat@.valid(num_possibilities as nat),
    {
        if num_possibilities > 1 || num_possibilities == 0 {
            let mut ids: Vec<usize> = Vec::new();
            let mut i: usize = 0;
            while i < num_possibilities
                invariant
                    i <= num_possibilities,
                    ids@ == Seq::new(i as nat, |k: int| k as usize),
                decreases num_possibilities - i,
            {
                ids.push(i);
                i += 1;
            }
            Seat::Uncertain(ids)
        } else {
            Seat::Collapsed(0)
        }
    }

    /// The decided id. A seat that is still uncertain gives an error, also
    /// when only one candidate is left in it.
    pub fn get_id(&self) -> (r: Result<usize, &'static str>)
        ensures
            match self@ {
                Cell::Collapsed(id) => r == Ok::<usize, &'static str>(id),
                Cell::Uncertain(_) => r is Err && r->Err_0@ == uncertain_seat_message(),
            },
    {
        match *self {
            Seat::Collapsed(v) => Ok(v),
            Seat::Uncertain(_) => Err("Tried to get id of an uncertain seat"),
        }
    }

    /// Whether every candidate is an id below `n` and none occurs twice.
    pub fn is_valid(&self, n: usize) -> (ok: bool)
        ensures
            ok == self@.valid(n as nat),
    {
        match self {
            Seat::Collapsed(v) => {
                assert(self@.candidates()[0] == *v);
                *v < n
            },
            Seat::Uncertain(ids) => {
                let mut i: usize = 0;
                while i < ids.len()
                    invariant
                        i <= ids.len(),
                        self@.candidates() == ids@,
                        ids@.take(i as int).no_duplicates(),
                        forall|k: int| 0 <= k < i ==> ids@[k] < n,
                    decreases ids.len() - i,
                {
                    if ids[i] >= n {
                        return false;
                    }
                    let mut j: usize = 0;
                    while j < i
                        invariant
                            j <= i,
                            i < ids.len(),
                            self@.candidates() == ids@,
                            forall|m: int| 0 <= m < j ==> ids@[m] != ids@[i as int],
                        decreases i - j,
                    {
                        if ids[j] == ids[i] {
                            return false;
                        }
                        j += 1;
                    }
                    assert(ids@.take(i as int + 1).no_duplicates()) by {
                        let next = ids@.take(i as int + 1);
                        let part = ids@.take(i as int);
                        assert forall|a: int, b: int| 0 <= a < b < next.len() implies next[a]
                            != next[b] by {
                            if b < i {
                                assert(part[a] != part[b]);
                            }
                        }
                    }
                    i += 1;
                }
                assert(ids@.take(ids.len() as int) == ids@);
                true
            },
        }
    }

    /// A copy with the same value.
    pub fn duplicate(&self) -> (copy: Seat)
        ensures
            copy@ == self@,
    {
        match self {
            Seat::Collapsed(v) => Seat::Collapsed(*v),
            Seat::Uncertain(ids) => {
                let mut out: Vec<usize> = Vec::new();
                let mut i: usize = 0;
                while i < ids.len()
                    invariant
                        i <= ids.len(),
                        out@ == ids@.take(i as int),
                    decreases ids.len() - i,
                {
                    out.push(ids[i]);
                    i += 1;
                }
                assert(ids@.take(ids.len() as int) == ids@);
                Seat::Uncertain(out)
            },
        }
    }
}

/// Whether `id` occurs in `ids`.
pub fn contains_id(ids: &Vec<usize>, id: usize) -> (found: bool)
    ensures
        found == ids@.contains(id),
{
    let mut i: usize = 0;
    while i < ids.len()
        invariant
            i <= ids.len(),
            !ids@.take(i as int).contains(id),
        decreases ids.len() - i,
    {
        if ids[i] == id {
            return true;
        }
        assert(ids@.take(i as int + 1) == ids@.take(i as int).push(ids@[i as int]));
        i += 1;
    }
    assert(ids@.take(ids.len() as int) == ids@);
    false
}

} // verus!
