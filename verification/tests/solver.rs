use rand::rngs::StdRng;
use rand::{Rng, RngCore, SeedableRng};
use wfc::{
    generate_rules, Direction, Draw, Ended, Grid, GridState, Rule, Seat, Seed, Weights, UNRANKED,
};

fn entropy(seat: &Seat, weights: &Weights) -> f32 {
    match seat {
        Seat::Collapsed(_) => 0.0,
        Seat::Uncertain(ids) => {
            let weight = |id: usize| weights.counts[id] as f32 / weights.total as f32;
            let sum: f32 = ids.iter().map(|id| weight(*id)).sum();
            let log_sum: f32 = ids.iter().map(|id| weight(*id) * weight(*id).log2()).sum();
            sum.log2() - log_sum / sum
        }
    }
}

fn rank(e: f32) -> i64 {
    if e.is_nan() || e >= f32::MAX {
        UNRANKED
    } else if e == 0.0 {
        0
    } else if e > 0.0 {
        e.to_bits() as i64
    } else {
        -((e.to_bits() & 0x7fff_ffff) as i64)
    }
}

fn ranks(grid: &Grid, weights: &Weights) -> Vec<Vec<i64>> {
    grid.data
        .iter()
        .map(|row| row.iter().map(|seat| rank(entropy(seat, weights))).collect())
        .collect()
}

fn solve(
    grid: &mut Grid,
    seeds: &Vec<Seed>,
    rules: &Vec<Rule>,
    weights: &Weights,
    rng: &mut StdRng,
    moves: usize,
) -> bool {
    for _ in 0..moves {
        let table = ranks(grid, weights);
        if grid.advance(seeds, rules, weights, &table, rng) == GridState::Collapsed {
            return true;
        }
    }
    false
}

fn checkerboard() -> Grid {
    let data = (0..4)
        .map(|y| (0..4).map(|x| Seat::Collapsed((x + y) % 2)).collect())
        .collect();
    Grid { data, num_possibilities: 2, w: 4, h: 4 }
}

fn anything_goes(n: usize) -> Vec<Rule> {
    let mut rules = vec![];
    for a in 0..n {
        for b in 0..n {
            rules.push(Rule(a, b, Direction::left()));
            rules.push(Rule(a, b, Direction::right()));
            rules.push(Rule(a, b, Direction::up()));
            rules.push(Rule(a, b, Direction::down()));
        }
    }
    rules
}

#[test]
fn entropy_of_a_decided_or_single_candidate_seat_is_zero() {
    let weights = Weights::new(vec![2, 1], 3);
    assert_eq!(entropy(&Seat::Collapsed(0), &weights), 0.0);
    assert_eq!(rank(entropy(&Seat::Collapsed(0), &weights)), 0);
    assert_eq!(entropy(&Seat::Uncertain(vec![1]), &weights), 0.0);
    assert_eq!(rank(entropy(&Seat::Uncertain(vec![1]), &weights)), 0);
    assert!(rank(entropy(&Seat::Uncertain(vec![0, 1]), &weights)) > 0);
    assert_eq!(rank(entropy(&Seat::Uncertain(vec![]), &weights)), UNRANKED);
}

#[test]
fn entropy_of_two_candidates() {
    // log2(1) - (2/3 log2(2/3) + 1/3 log2(1/3)) / 1
    let weights = Weights::new(vec![2, 1], 3);
    let e = entropy(&Seat::Uncertain(vec![0, 1]), &weights);
    assert!((e - 0.918_295_8).abs() < 1e-6);
    // equal weights of 1/4 each: log2(1/2) - (2 * 1/4 * log2(1/4)) / (1/2) = -1 + 2
    let even = Weights::new(vec![1, 1, 2], 4);
    assert_eq!(entropy(&Seat::Uncertain(vec![0, 1]), &even), 1.0);
}

#[test]
fn ranks_order_as_entropies_do() {
    let values = [-3.5f32, -1.0e-30, -0.0, 0.0, 1.0e-30, 0.5, 0.918, 1.0, 7.25, 3.0e38];
    for a in values.iter() {
        for b in values.iter() {
            assert_eq!(a < b, rank(*a) < rank(*b));
        }
    }
    assert_eq!(rank(0.0), 0);
    assert_eq!(rank(-0.0), 0);
    assert_eq!(rank(f32::NAN), UNRANKED);
    assert_eq!(rank(f32::INFINITY), UNRANKED);
    assert_eq!(rank(f32::MAX), UNRANKED);
    assert!(rank(3.0e38) < UNRANKED);
}

#[test]
fn the_draw_is_the_fraction_that_the_generator_gives() {
    let mut floats = StdRng::seed_from_u64(17);
    let mut words = StdRng::seed_from_u64(17);
    for _ in 0..1000 {
        let fraction: f32 = floats.gen();
        let r = Draw::from_bits(words.next_u32());
        assert_eq!(r.den, 1 << 24);
        assert!(r.num < r.den);
        assert_eq!(r.num as f32 / r.den as f32, fraction);
    }
}

#[test]
fn a_step_decides_the_chosen_seat_by_its_neighbour() {
    let mut grid = Grid {
        data: vec![vec![Seat::Collapsed(0), Seat::Uncertain(vec![0, 1])]],
        num_possibilities: 2,
        w: 2,
        h: 1,
    };
    let rules = vec![Rule(1, 0, Direction::right())];
    let weights = Weights::new(vec![1, 1], 2);
    grid.step_with(&rules, &weights, &vec![vec![0, 10]], Draw { num: 9, den: 10 });
    assert_eq!(grid.data, vec![vec![Seat::Collapsed(0), Seat::Collapsed(1)]]);
    assert_eq!(grid.get_state(), GridState::Collapsed);
}

#[test]
fn a_step_draws_by_weight() {
    let rules = vec![
        Rule(0, 2, Direction::right()),
        Rule(1, 2, Direction::right()),
        Rule(2, 2, Direction::right()),
    ];
    let weights = Weights::new(vec![5, 2, 3], 10);
    let start = Grid {
        data: vec![vec![Seat::Collapsed(2), Seat::Uncertain(vec![0, 1, 2])]],
        num_possibilities: 3,
        w: 2,
        h: 1,
    };
    let table = vec![vec![0, 1]];
    // ascending by weight: 1 (2/10), 2 (3/10), 0 (5/10)
    let mut grid = start.clone();
    grid.step_with(&rules, &weights, &table, Draw { num: 1, den: 10 });
    assert_eq!(*grid.get(0, 1), Seat::Collapsed(1));
    let mut grid = start.clone();
    grid.step_with(&rules, &weights, &table, Draw { num: 2, den: 10 });
    assert_eq!(*grid.get(0, 1), Seat::Collapsed(2));
    let mut grid = start.clone();
    grid.step_with(&rules, &weights, &table, Draw { num: 4, den: 10 });
    assert_eq!(*grid.get(0, 1), Seat::Collapsed(0));
    let mut grid = start.clone();
    grid.step_with(&rules, &weights, &table, Draw { num: 99, den: 100 });
    assert_eq!(*grid.get(0, 1), Seat::Collapsed(0));
}

#[test]
fn a_step_without_a_possible_id_empties_the_seat() {
    let mut grid = Grid {
        data: vec![vec![Seat::Collapsed(0), Seat::Uncertain(vec![0, 1])]],
        num_possibilities: 2,
        w: 2,
        h: 1,
    };
    let weights = Weights::new(vec![1, 1], 2);
    grid.step_with(&vec![], &weights, &vec![vec![0, 10]], Draw { num: 0, den: 1 });
    assert_eq!(grid.data, vec![vec![Seat::Collapsed(0), Seat::Uncertain(vec![])]]);
    assert_eq!(grid.get_state(), GridState::Contradicting);
}

#[test]
fn a_missing_rule_on_one_side_leaves_the_other_side_to_decide() {
    let mut grid = Grid {
        data: vec![vec![Seat::Collapsed(0), Seat::Uncertain(vec![0, 1]), Seat::Collapsed(1)]],
        num_possibilities: 2,
        w: 3,
        h: 1,
    };
    let rules = vec![Rule(1, 0, Direction::right())];
    let weights = Weights::new(vec![1, 1], 2);
    grid.step_with(&rules, &weights, &vec![vec![0, 5, 0]], Draw { num: 0, den: 1 });
    assert_eq!(*grid.get(0, 1), Seat::Collapsed(1));
}

#[test]
fn a_seat_with_one_candidate_keeps_it_and_the_open_seat_is_decided() {
    let mut grid = Grid::new(3, 1, 2);
    grid.set(0, 0, Seat::Uncertain(vec![1]));
    grid.set(0, 1, Seat::Collapsed(0));
    let rules = vec![Rule(0, 0, Direction::left()), Rule(0, 0, Direction::right())];
    let weights = Weights::new(vec![1, 1], 2);
    for num in [0, 3, 9] {
        let mut run = grid.clone();
        let table = ranks(&run, &weights);
        run.step_with(&rules, &weights, &table, Draw { num, den: 10 });
        assert_eq!(
            run.data,
            vec![vec![Seat::Collapsed(1), Seat::Collapsed(0), Seat::Collapsed(0)]]
        );
    }
}

#[test]
fn a_step_without_a_ranked_open_seat_writes_no_seat() {
    let mut grid = Grid {
        data: vec![vec![Seat::Collapsed(0), Seat::Uncertain(vec![0, 1])]],
        num_possibilities: 2,
        w: 2,
        h: 1,
    };
    let before = grid.clone();
    let rules = vec![Rule(1, 0, Direction::left()), Rule(1, 1, Direction::left())];
    let weights = Weights::new(vec![1, 1], 2);
    grid.step_with(&rules, &weights, &vec![vec![0, UNRANKED]], Draw { num: 0, den: 1 });
    assert_eq!(grid, before);
}

#[test]
fn a_step_without_a_ranked_open_seat_still_decides_single_candidates() {
    let mut grid = Grid {
        data: vec![vec![Seat::Uncertain(vec![1]), Seat::Uncertain(vec![0, 1])]],
        num_possibilities: 2,
        w: 2,
        h: 1,
    };
    let weights = Weights::new(vec![1, 1], 2);
    grid.step_with(&anything_goes(2), &weights, &vec![vec![0, UNRANKED]], Draw { num: 0, den: 1 });
    assert_eq!(grid.data, vec![vec![Seat::Collapsed(1), Seat::Uncertain(vec![0, 1])]]);
}

#[test]
fn a_decided_seat_is_never_decided_again() {
    // whatever the table says of decided seats, only the open one is written
    let rules = anything_goes(3);
    let weights = Weights::new(vec![1, 5, 1], 7);
    let mut grid = Grid {
        data: vec![vec![Seat::Collapsed(0), Seat::Uncertain(vec![2]), Seat::Uncertain(vec![0, 1, 2])]],
        num_possibilities: 3,
        w: 3,
        h: 1,
    };
    grid.step_with(&rules, &weights, &vec![vec![-5, -7, 100]], Draw { num: 1, den: 2 });
    assert_eq!(
        grid.data,
        vec![vec![Seat::Collapsed(0), Seat::Collapsed(2), Seat::Collapsed(1)]]
    );
}

#[test]
fn a_seed_survives_the_run() {
    let weights = Weights::new(vec![10, 7, 3], 20);
    let rules = anything_goes(3);
    for seed in 0..10 {
        let seeds = vec![Seed { y: 0, x: 0, id: 2 }, Seed { y: 3, x: 2, id: 1 }];
        let mut grid = Grid::new(4, 5, 3);
        grid.seed(&seeds);
        let mut rng = StdRng::seed_from_u64(seed);
        let ended =
            grid.collapse(&seeds, &rules, &weights, |g: &Grid| ranks(g, &weights), &mut rng, 1000);
        assert_eq!(ended, Ended::Solved);
        assert_eq!(*grid.get(0, 0), Seat::Collapsed(2));
        assert_eq!(*grid.get(3, 2), Seat::Collapsed(1));
    }
}

#[test]
fn a_seed_survives_restarts_and_steps_without_a_choice() {
    // the ranker ranks no seat, so no step decides anything; the first
    // seat is a seed and stays what it is
    let seeds = vec![Seed { y: 0, x: 0, id: 0 }];
    let rules = vec![Rule(1, 0, Direction::left()), Rule(1, 1, Direction::left())];
    let weights = Weights::new(vec![1, 1], 2);
    let mut grid = Grid::new(2, 1, 2);
    grid.seed(&seeds);
    let before = grid.clone();
    let mut rng = StdRng::seed_from_u64(1);
    let ended = grid.collapse(
        &seeds,
        &rules,
        &weights,
        |_: &Grid| vec![vec![0, UNRANKED]],
        &mut rng,
        25,
    );
    assert_eq!(ended, Ended::OutOfMoves);
    assert_eq!(grid, before);
    // a contradicting grid is put back to its seeds
    grid.set(0, 1, Seat::Uncertain(vec![]));
    let ended = grid.collapse(
        &seeds,
        &rules,
        &weights,
        |_: &Grid| vec![vec![0, UNRANKED]],
        &mut rng,
        3,
    );
    assert_eq!(ended, Ended::OutOfMoves);
    assert_eq!(grid, before);
}

#[test]
fn collapse_without_moves_leaves_an_unsolved_grid_as_it_is() {
    let seeds = vec![Seed { y: 0, x: 0, id: 0 }];
    let weights = Weights::new(vec![1, 1], 2);
    let mut grid = Grid::new(2, 2, 2);
    grid.seed(&seeds);
    let before = grid.clone();
    let mut rng = StdRng::seed_from_u64(1);
    // the ranker is not asked: a table that does not fit goes unnoticed
    let ended =
        grid.collapse(&seeds, &anything_goes(2), &weights, |_: &Grid| vec![], &mut rng, 0);
    assert_eq!(ended, Ended::OutOfMoves);
    assert_eq!(grid, before);
}

#[test]
fn a_step_on_a_grid_without_cells_does_nothing() {
    let mut grid = Grid::new(0, 3, 2);
    let weights = Weights::new(vec![1, 1], 2);
    grid.step_with(&vec![], &weights, &vec![vec![], vec![], vec![]], Draw { num: 0, den: 1 });
    assert_eq!(grid, Grid::new(0, 3, 2));
}

#[test]
fn seeds_are_put_in_order() {
    let mut grid = Grid::new(2, 2, 3);
    grid.seed(&vec![
        Seed { y: 0, x: 1, id: 2 },
        Seed { y: 1, x: 0, id: 0 },
        Seed { y: 0, x: 1, id: 1 },
    ]);
    assert_eq!(
        grid.data,
        vec![
            vec![Seat::Uncertain(vec![0, 1, 2]), Seat::Collapsed(1)],
            vec![Seat::Collapsed(0), Seat::Uncertain(vec![0, 1, 2])],
        ]
    );
}

#[test]
fn a_contradicting_grid_is_reset_to_its_seeds() {
    let seeds = vec![Seed { y: 0, x: 0, id: 1 }];
    let mut grid = Grid::new(2, 2, 2);
    grid.seed(&seeds);
    let seeded = grid.clone();
    grid.set(0, 1, Seat::Collapsed(0));
    grid.set(1, 1, Seat::Uncertain(vec![]));
    assert_eq!(grid.get_state(), GridState::Contradicting);
    let weights = Weights::new(vec![1, 1], 2);
    let table = vec![vec![0, 0], vec![0, 0]];
    let found = grid.advance_with(&seeds, &anything_goes(2), &weights, &table, Draw { num: 0, den: 1 });
    assert_eq!(found, GridState::Contradicting);
    assert_eq!(grid, seeded);
    assert_eq!(
        grid.data,
        vec![
            vec![Seat::Collapsed(1), Seat::Uncertain(vec![0, 1])],
            vec![Seat::Uncertain(vec![0, 1]), Seat::Uncertain(vec![0, 1])],
        ]
    );
    assert_eq!(grid.get_state(), GridState::Uncollapsed);
}

#[test]
fn a_collapsed_grid_is_left_alone() {
    let mut grid = Grid {
        data: vec![vec![Seat::Collapsed(1), Seat::Uncertain(vec![0])]],
        num_possibilities: 2,
        w: 2,
        h: 1,
    };
    let before = grid.clone();
    let weights = Weights::new(vec![1, 1], 2);
    let found =
        grid.advance_with(&vec![], &vec![], &weights, &vec![vec![0, 0]], Draw { num: 0, den: 1 });
    assert_eq!(found, GridState::Collapsed);
    assert_eq!(grid, before);
}

#[test]
fn an_uncollapsed_grid_takes_a_step() {
    let mut grid = Grid {
        data: vec![vec![Seat::Collapsed(0), Seat::Uncertain(vec![0, 1])]],
        num_possibilities: 2,
        w: 2,
        h: 1,
    };
    let weights = Weights::new(vec![1, 1], 2);
    let rules = vec![Rule(1, 0, Direction::right())];
    let found =
        grid.advance_with(&vec![], &rules, &weights, &vec![vec![0, 3]], Draw { num: 0, den: 1 });
    assert_eq!(found, GridState::Uncollapsed);
    assert_eq!(grid.data, vec![vec![Seat::Collapsed(0), Seat::Collapsed(1)]]);
}

#[test]
fn one_symbol_collapses_at_once() {
    let sample = Grid {
        data: vec![vec![Seat::Collapsed(0); 3]; 3],
        num_possibilities: 1,
        w: 3,
        h: 3,
    };
    let (rules, weights) = generate_rules(&sample);
    let seeds = vec![Seed { y: 1, x: 1, id: 0 }];
    let mut grid = Grid::new(3, 3, 1);
    grid.seed(&seeds);
    let mut rng = StdRng::seed_from_u64(1);
    let table = ranks(&grid, &weights);
    assert_eq!(grid.advance(&seeds, &rules, &weights, &table, &mut rng), GridState::Collapsed);
    for y in 0..3 {
        for x in 0..3 {
            assert_eq!(grid.get(y, x).get_id(), Ok(0));
        }
    }
}

#[test]
fn a_checkerboard_is_solved_as_a_checkerboard() {
    let (rules, weights) = generate_rules(&checkerboard());
    let seeds = vec![Seed { y: 0, x: 0, id: weights.heaviest() }];
    let mut grid = Grid::new(5, 4, 2);
    grid.seed(&seeds);
    let mut rng = StdRng::seed_from_u64(7);
    assert!(solve(&mut grid, &seeds, &rules, &weights, &mut rng, 1000));
    assert_eq!(grid.get_state(), GridState::Collapsed);
    for y in 0..4 {
        for x in 0..5 {
            assert_eq!(grid.get(y, x).get_id(), Ok((x + y) % 2));
        }
    }
}

#[test]
fn a_solved_grid_has_one_candidate_in_every_seat() {
    let weights = Weights::new(vec![3, 2, 1], 6);
    let seeds = vec![Seed { y: 2, x: 3, id: 1 }];
    let mut grid = Grid::new(6, 5, 3);
    grid.seed(&seeds);
    let mut rng = StdRng::seed_from_u64(11);
    assert!(solve(&mut grid, &seeds, &anything_goes(3), &weights, &mut rng, 1000));
    for row in grid.data.iter() {
        for seat in row.iter() {
            let count = match seat {
                Seat::Collapsed(_) => 1,
                Seat::Uncertain(ids) => ids.len(),
            };
            assert_eq!(count, 1);
        }
    }
    assert_eq!(*grid.get(2, 3), Seat::Collapsed(1));
}

#[test]
fn the_same_seed_gives_the_same_grid() {
    let weights = Weights::new(vec![10, 7, 3], 20);
    let seeds = vec![Seed { y: 0, x: 0, id: 0 }];
    let rules = anything_goes(3);
    let mut first = Grid::new(8, 8, 3);
    first.seed(&seeds);
    let mut second = first.clone();
    let mut rng = StdRng::seed_from_u64(2024);
    assert!(solve(&mut first, &seeds, &rules, &weights, &mut rng, 1000));
    let mut rng = StdRng::seed_from_u64(2024);
    assert!(solve(&mut second, &seeds, &rules, &weights, &mut rng, 1000));
    assert_eq!(first, second);
}

#[test]
fn the_draws_decide_the_grid() {
    let weights = Weights::new(vec![10, 7, 3], 20);
    let rules = anything_goes(3);
    let mut seen = vec![];
    for seed in 0..20 {
        let mut grid = Grid::new(4, 4, 3);
        grid.set(0, 0, Seat::Collapsed(0));
        let mut rng = StdRng::seed_from_u64(seed);
        assert!(solve(&mut grid, &vec![], &rules, &weights, &mut rng, 1000));
        if !seen.contains(&grid) {
            seen.push(grid);
        }
    }
    assert!(seen.len() > 1);
}

#[test]
fn step_takes_its_draw_from_the_generator() {
    let rules = anything_goes(2);
    let weights = Weights::new(vec![1, 3], 4);
    let start = Grid {
        data: vec![vec![Seat::Collapsed(0), Seat::Uncertain(vec![0, 1])]],
        num_possibilities: 2,
        w: 2,
        h: 1,
    };
    let table = vec![vec![0, 1]];
    let mut low = 0;
    let mut high = 0;
    let mut rng = StdRng::seed_from_u64(5);
    for _ in 0..200 {
        let mut grid = start.clone();
        grid.step(&rules, &weights, &table, &mut rng);
        match grid.get(0, 1).get_id() {
            Ok(0) => low += 1,
            Ok(1) => high += 1,
            _ => panic!("the seat was not decided"),
        }
    }
    // id 0 is drawn when the fraction is below 1/4, id 1 otherwise
    assert!(low > 20 && low < 90);
    assert_eq!(low + high, 200);
}

#[test]
fn collapse_runs_until_the_grid_is_solved() {
    let (rules, weights) = generate_rules(&checkerboard());
    let seeds = vec![Seed { y: 0, x: 0, id: 1 }];
    let mut grid = Grid::new(6, 3, 2);
    grid.seed(&seeds);
    let mut rng = StdRng::seed_from_u64(3);
    let ended = grid.collapse(&seeds, &rules, &weights, |g: &Grid| ranks(g, &weights), &mut rng, 100);
    assert_eq!(ended, Ended::Solved);
    for y in 0..3 {
        for x in 0..6 {
            assert_eq!(grid.get(y, x).get_id(), Ok((x + y + 1) % 2));
        }
    }
}

#[test]
fn collapse_stops_when_the_moves_are_used_up() {
    let (rules, weights) = generate_rules(&checkerboard());
    let seeds = vec![Seed { y: 0, x: 0, id: 1 }];
    let mut grid = Grid::new(6, 3, 2);
    grid.seed(&seeds);
    let mut rng = StdRng::seed_from_u64(3);
    let ended = grid.collapse(&seeds, &rules, &weights, |g: &Grid| ranks(g, &weights), &mut rng, 5);
    assert_eq!(ended, Ended::OutOfMoves);
    assert_eq!(grid.get_state(), GridState::Uncollapsed);
    let ended = grid.collapse(&seeds, &rules, &weights, |g: &Grid| ranks(g, &weights), &mut rng, 0);
    assert_eq!(ended, Ended::OutOfMoves);
}

#[test]
fn collapse_needs_no_move_for_a_solved_grid() {
    let mut grid = Grid::new(3, 3, 1);
    let before = grid.clone();
    let weights = Weights::new(vec![9], 9);
    let seeds = vec![Seed { y: 1, x: 1, id: 0 }];
    let mut rng = StdRng::seed_from_u64(3);
    let ended = grid.collapse(&seeds, &vec![], &weights, |_: &Grid| vec![], &mut rng, 0);
    assert_eq!(ended, Ended::Solved);
    assert_eq!(grid, before);
}

#[test]
fn collapse_refuses_ranks_that_do_not_fit() {
    let seeds = vec![Seed { y: 0, x: 0, id: 1 }];
    let mut grid = Grid::new(2, 2, 2);
    grid.seed(&seeds);
    let before = grid.clone();
    let weights = Weights::new(vec![1, 1], 2);
    let mut rng = StdRng::seed_from_u64(3);
    let ended =
        grid.collapse(&seeds, &anything_goes(2), &weights, |_: &Grid| vec![vec![0, 0]], &mut rng, 10);
    assert_eq!(ended, Ended::BadRanks);
    assert_eq!(grid, before);
}

#[test]
fn collapse_restarts_from_the_seeds_and_gives_up_where_nothing_fits() {
    // 1 may stand next to 0 on no side, so the first step next to the seed
    // leaves nothing possible, and every restart ends the same way
    let rules = vec![Rule(0, 1, Direction::right())];
    let weights = Weights::new(vec![1, 1], 2);
    let seeds = vec![Seed { y: 0, x: 0, id: 0 }];
    let mut grid = Grid::new(2, 1, 2);
    grid.seed(&seeds);
    let mut rng = StdRng::seed_from_u64(3);
    let ended = grid.collapse(&seeds, &rules, &weights, |g: &Grid| ranks(g, &weights), &mut rng, 7);
    assert_eq!(ended, Ended::OutOfMoves);
    // seven moves: step, restart, step, restart, step, restart, step
    assert_eq!(grid.data, vec![vec![Seat::Collapsed(0), Seat::Uncertain(vec![])]]);
    let ended = grid.collapse(&seeds, &rules, &weights, |g: &Grid| ranks(g, &weights), &mut rng, 1);
    assert_eq!(ended, Ended::OutOfMoves);
    assert_eq!(grid.data, vec![vec![Seat::Collapsed(0), Seat::Uncertain(vec![0, 1])]]);
}

#[test]
fn the_same_seed_gives_the_same_grid_through_collapse() {
    let weights = Weights::new(vec![10, 7, 3], 20);
    let seeds = vec![Seed { y: 3, x: 3, id: 2 }];
    let rules = anything_goes(3);
    let mut grids = vec![];
    for _ in 0..2 {
        let mut grid = Grid::new(7, 7, 3);
        grid.seed(&seeds);
        let mut rng = StdRng::seed_from_u64(99);
        let ended =
            grid.collapse(&seeds, &rules, &weights, |g: &Grid| ranks(g, &weights), &mut rng, 1000);
        assert_eq!(ended, Ended::Solved);
        grids.push(grid);
    }
    assert_eq!(grids[0], grids[1]);
}
