use rand::rngs::StdRng;
use rand::SeedableRng;
use wfc::{
    generate_rules, generate_tiles, Bitmap, Direction, Ended, Grid, GridState, Rule, Seat, Seed,
    Weights, UNRANKED,
};

fn entropy(seat: &Seat, weights: &Weights) -> f32 {
    match seat {
        Seat::Collapsed(_) => 0.0,
        Seat::Uncertain(ids) => {
            let weight = |id: usize| weights.counts[id] as f32 / weights.total as f32;
            let sum: f32 = ids.iter().map(|id| weight(*id)).sum();
            let log_sum: f32 = ids.iter().map(|id| weight(*id) * weight(*id).log2()).sum();
            sum.log2() - log_sum / sum
        }
    }
}

fn rank(e: f32) -> i64 {
    if e.is_nan() || e >= f32::MAX {
        UNRANKED
    } else if e == 0.0 {
        0
    } else if e > 0.0 {
        e.to_bits() as i64
    } else {
        -((e.to_bits() & 0x7fff_ffff) as i64)
    }
}

fn ranks(grid: &Grid, weights: &Weights) -> Vec<Vec<i64>> {
    grid.data
        .iter()
        .map(|row| row.iter().map(|seat| rank(entropy(seat, weights))).collect())
        .collect()
}

fn picture(rows: Vec<Vec<u32>>) -> Bitmap {
    let height = rows.len();
    let width = if height == 0 { 0 } else { rows[0].len() };
    Bitmap { width, height, rows }
}

#[test]
fn a_picture_of_one_colour_gives_a_picture_of_that_colour() {
    let img = picture(vec![vec![0xff00_00ff; 3]; 3]);
    let (sample, tiles) = generate_tiles(&img, 1, 1).unwrap();
    assert_eq!(sample.num_possibilities, 1);
    let (rules, weights) = generate_rules(&sample);
    assert_eq!(weights.counts, vec![9]);
    assert_eq!(weights.total, 9);
    assert_eq!(rules.len(), 4);
    for offset in [Direction::left(), Direction::right(), Direction::up(), Direction::down()] {
        assert!(rules.contains(&Rule(0, 0, offset)));
    }
    let seeds = vec![Seed { y: 1, x: 1, id: 0 }];
    let mut grid = Grid::new(3, 3, tiles.len());
    grid.seed(&seeds);
    let mut rng = StdRng::seed_from_u64(0);
    let ended = grid.collapse(&seeds, &rules, &weights, |g: &Grid| ranks(g, &weights), &mut rng, 1);
    assert_eq!(ended, Ended::Solved);
    assert_eq!(grid.data, vec![vec![Seat::Collapsed(0); 3]; 3]);
    assert_eq!(grid.render(&img, &tiles, 1, 1), img);
}

#[test]
fn a_striped_picture_gives_stripes() {
    let a = 0x1111_11ff;
    let b = 0x2222_22ff;
    let c = 0x3333_33ff;
    // columns repeat a, b, c; every row is the same
    let img = picture(vec![vec![a, b, c, a, b, c]; 4]);
    let (sample, tiles) = generate_tiles(&img, 1, 1).unwrap();
    assert_eq!(sample.num_possibilities, 3);
    let (rules, weights) = generate_rules(&sample);
    assert_eq!(weights.counts, vec![8, 8, 8]);
    assert_eq!(weights.total, 24);
    let seeds = vec![Seed { y: 0, x: 0, id: weights.heaviest() }];
    assert_eq!(seeds[0].id, 0);
    let mut grid = Grid::new(7, 3, tiles.len());
    grid.seed(&seeds);
    let mut rng = StdRng::seed_from_u64(5);
    let ended =
        grid.collapse(&seeds, &rules, &weights, |g: &Grid| ranks(g, &weights), &mut rng, 10_000);
    assert_eq!(ended, Ended::Solved);
    assert_eq!(grid.get_state(), GridState::Collapsed);
    let out = grid.render(&img, &tiles, 1, 1);
    assert_eq!(out.width, 7);
    assert_eq!(out.height, 3);
    for row in out.rows.iter() {
        assert_eq!(*row, vec![a, b, c, a, b, c, a]);
    }
}

#[test]
fn tiles_of_two_by_two_are_put_together_again() {
    // two kinds of tile that alternate along both axes
    let p = 0xaaaa_aaff;
    let q = 0xbbbb_bbff;
    let dark = [[p, p], [p, q]];
    let light = [[q, q], [q, p]];
    let mut rows = vec![vec![0u32; 8]; 8];
    for ty in 0..4 {
        for tx in 0..4 {
            let tile = if (tx + ty) % 2 == 0 { dark } else { light };
            for j in 0..2 {
                for i in 0..2 {
                    rows[ty * 2 + j][tx * 2 + i] = tile[j][i];
                }
            }
        }
    }
    let img = picture(rows);
    let (sample, tiles) = generate_tiles(&img, 2, 2).unwrap();
    assert_eq!(sample.w, 4);
    assert_eq!(sample.h, 4);
    assert_eq!(sample.num_possibilities, 2);
    let (rules, weights) = generate_rules(&sample);
    assert_eq!(rules.len(), 8);
    let seeds = vec![Seed { y: 0, x: 0, id: 1 }];
    let mut grid = Grid::new(3, 2, 2);
    grid.seed(&seeds);
    let mut rng = StdRng::seed_from_u64(8);
    let ended =
        grid.collapse(&seeds, &rules, &weights, |g: &Grid| ranks(g, &weights), &mut rng, 10_000);
    assert_eq!(ended, Ended::Solved);
    let out = grid.render(&img, &tiles, 2, 2);
    assert_eq!(
        out.rows,
        vec![
            vec![q, q, p, p, q, q],
            vec![q, p, p, q, q, p],
            vec![p, p, q, q, p, p],
            vec![p, q, q, p, p, q],
        ]
    );
}
