use wfc::{rules_fit, seeds_ok, table_ok, Direction, Grid, Rule, Seat, Seed};

#[test]
fn seat_validity() {
    assert!(Seat::Collapsed(2).is_valid(3));
    assert!(!Seat::Collapsed(3).is_valid(3));
    assert!(Seat::Uncertain(vec![2, 0, 1]).is_valid(3));
    assert!(Seat::Uncertain(vec![]).is_valid(0));
    assert!(!Seat::Uncertain(vec![0, 3]).is_valid(3));
    assert!(!Seat::Uncertain(vec![1, 0, 1]).is_valid(3));
    assert!(!Seat::Uncertain(vec![0, 0]).is_valid(3));
}

#[test]
fn grid_validity() {
    assert!(Grid::new(3, 2, 4).is_valid());
    assert!(Grid::new(0, 0, 0).is_valid());
    let short = Grid { data: vec![vec![Seat::Collapsed(0)]], num_possibilities: 1, w: 1, h: 2 };
    assert!(!short.is_valid());
    let ragged = Grid {
        data: vec![vec![Seat::Collapsed(0), Seat::Collapsed(0)], vec![Seat::Collapsed(0)]],
        num_possibilities: 1,
        w: 2,
        h: 2,
    };
    assert!(!ragged.is_valid());
    let foreign = Grid { data: vec![vec![Seat::Collapsed(1)]], num_possibilities: 1, w: 1, h: 1 };
    assert!(!foreign.is_valid());
    let twice = Grid {
        data: vec![vec![Seat::Uncertain(vec![1, 1])]],
        num_possibilities: 2,
        w: 1,
        h: 1,
    };
    assert!(!twice.is_valid());
}

#[test]
fn rules_fit_when_their_ids_are_known() {
    let rules = vec![Rule(0, 1, Direction::left()), Rule(2, 0, Direction::up())];
    assert!(rules_fit(&rules, 3));
    assert!(!rules_fit(&rules, 2));
    assert!(!rules_fit(&vec![Rule(0, 5, Direction::up())], 5));
    assert!(rules_fit(&vec![], 0));
}

#[test]
fn seeds_fit_when_they_name_a_cell_and_an_id() {
    assert!(seeds_ok(&vec![Seed { y: 1, x: 2, id: 3 }], 3, 2, 4));
    assert!(!seeds_ok(&vec![Seed { y: 2, x: 2, id: 3 }], 3, 2, 4));
    assert!(!seeds_ok(&vec![Seed { y: 1, x: 3, id: 3 }], 3, 2, 4));
    assert!(!seeds_ok(&vec![Seed { y: 1, x: 2, id: 4 }], 3, 2, 4));
    assert!(seeds_ok(&vec![], 0, 0, 0));
}

#[test]
fn a_table_fits_when_it_has_a_rank_for_every_cell() {
    assert!(table_ok(&vec![vec![1, 2, 3], vec![4, 5, 6]], 3, 2));
    assert!(!table_ok(&vec![vec![1, 2, 3]], 3, 2));
    assert!(!table_ok(&vec![vec![1, 2, 3], vec![4, 5]], 3, 2));
    assert!(table_ok(&vec![], 4, 0));
}

#[test]
fn a_sample_can_be_scanned_when_the_cells_read_are_decided() {
    let mut sample = Grid {
        data: vec![vec![Seat::Collapsed(0); 4]; 3],
        num_possibilities: 2,
        w: 4,
        h: 3,
    };
    assert!(sample.can_scan());
    sample.set(0, 0, Seat::Uncertain(vec![0, 1]));
    sample.set(2, 3, Seat::Uncertain(vec![]));
    assert!(sample.can_scan());
    let mut inner = sample.clone();
    inner.set(1, 2, Seat::Uncertain(vec![0]));
    assert!(!inner.can_scan());
    let mut edge = sample.clone();
    edge.set(0, 1, Seat::Uncertain(vec![0]));
    assert!(!edge.can_scan());
    assert!(Grid::new(2, 5, 3).can_scan());
    assert!(!Grid::new(3, 3, 2).can_scan());
}

#[test]
fn a_grid_is_decided_when_every_seat_is() {
    assert!(Grid::new(3, 3, 1).is_decided());
    assert!(!Grid::new(3, 3, 2).is_decided());
    assert!(Grid::new(0, 0, 2).is_decided());
    let single = Grid { data: vec![vec![Seat::Uncertain(vec![0])]], num_possibilities: 1, w: 1, h: 1 };
    assert!(!single.is_decided());
}
