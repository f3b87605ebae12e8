use wfc::{Grid, Seat, UNRANKED};

fn open() -> Seat {
    Seat::Uncertain(vec![0, 1])
}

#[test]
fn least_rank_is_chosen() {
    let mut grid = Grid { data: vec![vec![open(), open()], vec![open(), open()]], num_possibilities: 2, w: 2, h: 2 };
    assert_eq!(grid.select(&vec![vec![5, 7], vec![3, 9]]), Some((1, 0)));
    assert_eq!(grid.select(&vec![vec![5, 2], vec![3, 9]]), Some((0, 1)));
}

#[test]
fn equal_ranks_go_to_the_first_in_reading_order() {
    let mut grid = Grid::new(3, 2, 2);
    assert_eq!(grid.select(&vec![vec![4, 4, 4], vec![4, 4, 4]]), Some((0, 0)));
    assert_eq!(grid.select(&vec![vec![6, 4, 4], vec![4, 4, 4]]), Some((0, 1)));
    assert_eq!(grid.select(&vec![vec![6, 6, 6], vec![5, 4, 4]]), Some((1, 1)));
}

#[test]
fn decided_seats_are_passed_over() {
    let mut grid = Grid {
        data: vec![vec![Seat::Collapsed(0), open()], vec![open(), Seat::Collapsed(1)]],
        num_possibilities: 2,
        w: 2,
        h: 2,
    };
    assert_eq!(grid.select(&vec![vec![-100, 7], vec![8, -100]]), Some((0, 1)));
}

#[test]
fn a_single_candidate_is_decided_and_passed_over() {
    let mut grid = Grid {
        data: vec![
            vec![Seat::Collapsed(0), Seat::Uncertain(vec![0, 1])],
            vec![Seat::Uncertain(vec![2]), Seat::Uncertain(vec![0, 1, 2])],
        ],
        num_possibilities: 3,
        w: 2,
        h: 2,
    };
    // the rank of the seat with one candidate is not read, however low
    assert_eq!(grid.select(&vec![vec![5, 7], vec![-9, 3]]), Some((1, 1)));
    assert_eq!(*grid.get(1, 0), Seat::Collapsed(2));
    assert_eq!(*grid.get(0, 0), Seat::Collapsed(0));
    assert_eq!(*grid.get(0, 1), Seat::Uncertain(vec![0, 1]));
    assert_eq!(*grid.get(1, 1), Seat::Uncertain(vec![0, 1, 2]));
}

#[test]
fn every_single_candidate_is_decided_in_one_reading() {
    let mut grid = Grid {
        data: vec![vec![Seat::Uncertain(vec![1]), Seat::Uncertain(vec![0]), open()]],
        num_possibilities: 2,
        w: 3,
        h: 1,
    };
    assert_eq!(grid.select(&vec![vec![5, 5, 8]]), Some((0, 2)));
    assert_eq!(grid.data, vec![vec![Seat::Collapsed(1), Seat::Collapsed(0), open()]]);
    assert_eq!(grid.select(&vec![vec![5, 5, 1]]), Some((0, 2)));
}

#[test]
fn the_choice_is_the_same_before_and_after_deciding() {
    let stored = vec![vec![Seat::Uncertain(vec![1]), open(), open()]];
    let decided = vec![vec![Seat::Collapsed(1), open(), open()]];
    let table = vec![vec![0, 4, 3]];
    let mut first = Grid { data: stored, num_possibilities: 2, w: 3, h: 1 };
    let mut second = Grid { data: decided, num_possibilities: 2, w: 3, h: 1 };
    assert_eq!(first.select(&table), Some((0, 2)));
    assert_eq!(second.select(&table), Some((0, 2)));
    assert_eq!(first, second);
}

#[test]
fn an_empty_seat_is_open() {
    let mut grid = Grid {
        data: vec![vec![open(), Seat::Uncertain(vec![])]],
        num_possibilities: 2,
        w: 2,
        h: 1,
    };
    assert_eq!(grid.select(&vec![vec![3, 2]]), Some((0, 1)));
}

#[test]
fn negative_ranks_are_lower() {
    let mut grid = Grid::new(2, 1, 2);
    assert_eq!(grid.select(&vec![vec![-1, -5]]), Some((0, 1)));
}

#[test]
fn unranked_seats_are_never_chosen() {
    let mut grid = Grid::new(2, 1, 2);
    assert_eq!(grid.select(&vec![vec![UNRANKED, UNRANKED - 1]]), Some((0, 1)));
    assert_eq!(grid.select(&vec![vec![UNRANKED, UNRANKED]]), None);
}

#[test]
fn with_nothing_to_choose_there_is_no_position() {
    let mut grid = Grid {
        data: vec![vec![Seat::Collapsed(1), open()]],
        num_possibilities: 2,
        w: 2,
        h: 1,
    };
    assert_eq!(grid.select(&vec![vec![0, UNRANKED]]), None);
    let mut done = Grid::new(2, 2, 1);
    assert_eq!(done.select(&vec![vec![0, 0], vec![0, 0]]), None);
    let mut single = Grid {
        data: vec![vec![Seat::Uncertain(vec![0]), Seat::Collapsed(1)]],
        num_possibilities: 2,
        w: 2,
        h: 1,
    };
    assert_eq!(single.select(&vec![vec![0, 0]]), None);
    assert_eq!(single.data, vec![vec![Seat::Collapsed(0), Seat::Collapsed(1)]]);
    let mut none = Grid::new(0, 0, 2);
    assert_eq!(none.select(&vec![]), None);
}

#[test]
fn unranked_is_the_greatest_rank() {
    assert_eq!(UNRANKED, i64::MAX);
}
