use wfc::{Grid, GridState, Seat};

#[test]
fn new_seat_of_several_symbols_holds_them_all() {
    assert_eq!(Seat::new(3), Seat::Uncertain(vec![0, 1, 2]));
    assert_eq!(Seat::new(2), Seat::Uncertain(vec![0, 1]));
}

#[test]
fn new_seat_of_one_symbol_is_decided() {
    assert_eq!(Seat::new(1), Seat::Collapsed(0));
}

#[test]
fn new_seat_of_no_symbol_is_empty() {
    assert_eq!(Seat::new(0), Seat::Uncertain(vec![]));
}

#[test]
fn decided_seat_gives_its_id() {
    assert_eq!(Seat::Collapsed(7).get_id(), Ok(7));
    assert_eq!(Seat::Collapsed(0).get_id(), Ok(0));
}

#[test]
fn uncertain_seat_gives_no_id() {
    assert_eq!(
        Seat::Uncertain(vec![0, 1]).get_id(),
        Err("Tried to get id of an uncertain seat")
    );
    assert_eq!(
        Seat::Uncertain(vec![]).get_id(),
        Err("Tried to get id of an uncertain seat")
    );
}

#[test]
fn uncertain_seat_with_one_candidate_gives_no_id() {
    assert!(Seat::Uncertain(vec![4]).get_id().is_err());
}

#[test]
fn duplicate_is_equal() {
    let seat = Seat::Uncertain(vec![2, 0, 1]);
    assert_eq!(seat.duplicate(), seat);
    assert_eq!(Seat::Collapsed(3).duplicate(), Seat::Collapsed(3));
}

#[test]
fn new_grid_has_the_asked_shape() {
    let grid = Grid::new(3, 2, 4);
    assert_eq!(grid.w, 3);
    assert_eq!(grid.h, 2);
    assert_eq!(grid.num_possibilities, 4);
    assert_eq!(grid.data.len(), 2);
    for row in grid.data.iter() {
        assert_eq!(row.len(), 3);
        for seat in row.iter() {
            assert_eq!(*seat, Seat::Uncertain(vec![0, 1, 2, 3]));
        }
    }
}

#[test]
fn new_grid_of_one_symbol_is_collapsed() {
    let grid = Grid::new(3, 3, 1);
    for y in 0..3 {
        for x in 0..3 {
            assert_eq!(*grid.get(y, x), Seat::Collapsed(0));
        }
    }
    assert_eq!(grid.get_state(), GridState::Collapsed);
}

#[test]
fn new_grid_of_several_symbols_is_uncollapsed() {
    assert_eq!(Grid::new(2, 2, 3).get_state(), GridState::Uncollapsed);
}

#[test]
fn new_grid_of_no_symbol_is_contradicting() {
    assert_eq!(Grid::new(2, 2, 0).get_state(), GridState::Contradicting);
}

#[test]
fn grid_without_cells_is_collapsed() {
    assert_eq!(Grid::new(0, 0, 3).get_state(), GridState::Collapsed);
    assert_eq!(Grid::new(0, 2, 3).get_state(), GridState::Collapsed);
    assert_eq!(Grid::new(2, 0, 3).get_state(), GridState::Collapsed);
}

#[test]
fn one_empty_seat_makes_the_grid_contradicting() {
    let mut grid = Grid::new(2, 2, 2);
    grid.set(1, 0, Seat::Uncertain(vec![]));
    assert_eq!(grid.get_state(), GridState::Contradicting);
    let mut decided = Grid::new(2, 2, 1);
    decided.set(0, 1, Seat::Uncertain(vec![]));
    assert_eq!(decided.get_state(), GridState::Contradicting);
}

#[test]
fn seats_with_one_candidate_count_as_collapsed() {
    let grid = Grid {
        data: vec![vec![Seat::Collapsed(1), Seat::Uncertain(vec![0])]],
        num_possibilities: 2,
        w: 2,
        h: 1,
    };
    assert_eq!(grid.get_state(), GridState::Collapsed);
}

#[test]
fn set_changes_one_seat_only() {
    let mut grid = Grid::new(2, 2, 2);
    grid.set(0, 1, Seat::Collapsed(1));
    assert_eq!(*grid.get(0, 1), Seat::Collapsed(1));
    assert_eq!(*grid.get(0, 0), Seat::Uncertain(vec![0, 1]));
    assert_eq!(*grid.get(1, 0), Seat::Uncertain(vec![0, 1]));
    assert_eq!(*grid.get(1, 1), Seat::Uncertain(vec![0, 1]));
    assert_eq!(grid.get_state(), GridState::Uncollapsed);
}
