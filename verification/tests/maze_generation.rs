use maze_wars::maze::open_wall;
use maze_wars::maze::{MazeGrid, MazeSource, MazeSpec, GENERATOR_NAME, GENERATOR_VERSION};
use maze_wars::maze_braid::{braid_candidates, collect_dead_ends, dead_end_count, is_dead_end};
use maze_wars::maze_carve::carve_spanning_tree;
use maze_wars::maze_rng::MazeRng;
use maze_wars::maze_generate::{braid, generate, roll_rule};
use maze_wars::maze_checks::{
    borders_are_closed, has_no_isolated_cell, is_fully_connected, walls_are_symmetric,
};
use rand::seq::SliceRandom;
use rand::{Rng, SeedableRng};
use rand_chacha::ChaCha8Rng;

fn spec(seed: u64, width: u16, height: u16, braid_factor: f32) -> MazeSpec {
    MazeSpec {
        seed,
        width,
        height,
        braid_factor_bits: braid_factor.to_bits(),
        generator_version: GENERATOR_VERSION,
    }
}

fn dead_end_density(grid: &MazeGrid) -> f64 {
    dead_end_count(grid) as f64 / grid.cell_count() as f64
}

#[test]
fn small_maze_is_connected_and_closed() {
    let data = generate(spec(1, 5, 5, 0.3));
    assert!(is_fully_connected(&data.grid));
    assert!(has_no_isolated_cell(&data.grid));
    assert!(borders_are_closed(&data.grid));
    assert!(walls_are_symmetric(&data.grid));
}

#[test]
fn determinism_same_spec_same_output() {
    let a = generate(spec(42, 20, 15, 0.4));
    let b = generate(spec(42, 20, 15, 0.4));
    assert_eq!(a.grid, b.grid);
}

#[test]
fn different_seed_different_maze() {
    let a = generate(spec(1, 20, 15, 0.4));
    let b = generate(spec(2, 20, 15, 0.4));
    assert_ne!(a.grid, b.grid);
}

#[test]
fn braid_zero_is_a_perfect_maze() {
    let mut rng = MazeRng::seeded(7);
    let unbraided = carve_spanning_tree(12, 12, &mut rng);
    let unbraided_dead_ends = dead_end_density(&unbraided);

    let data = generate(spec(7, 12, 12, 0.0));
    assert_eq!(dead_end_density(&data.grid), unbraided_dead_ends);
}

#[test]
fn dead_end_density_monotonic_fixed_size() {
    let factors = [0.9_f32, 0.5, 0.1];
    let seeds = 0..40u64;
    let mut avg_density = Vec::new();
    for &factor in &factors {
        let total: f64 = seeds
            .clone()
            .map(|seed| dead_end_density(&generate(spec(seed, 20, 20, factor)).grid))
            .sum();
        avg_density.push(total / seeds.clone().count() as f64);
    }
    assert!(
        avg_density[0] < avg_density[1] && avg_density[1] < avg_density[2],
        "expected strictly increasing density as braid_factor drops, got {:?} for factors {:?}",
        avg_density,
        factors
    );
}

#[test]
fn dead_end_density_monotonic_across_placeholder_level_table() {
    let table = [(20u16, 20u16, 0.6_f32), (30, 30, 0.3), (40, 40, 0.05)];
    let seeds = 0..40u64;
    let mut avg_density = Vec::new();
    for &(w, h, factor) in &table {
        let total: f64 = seeds
            .clone()
            .map(|seed| dead_end_density(&generate(spec(seed, w, h, factor)).grid))
            .sum();
        avg_density.push(total / seeds.clone().count() as f64);
    }
    assert!(
        avg_density[0] < avg_density[1] && avg_density[1] < avg_density[2],
        "expected strictly increasing density across level table, got {:?}",
        avg_density
    );
}

#[test]
fn generated_mazes_keep_every_invariant_across_many_specs() {
    let mut params = ChaCha8Rng::seed_from_u64(2024);
    for _ in 0..60 {
        let seed: u64 = params.gen();
        let width: u16 = params.gen_range(2..40);
        let height: u16 = params.gen_range(2..40);
        let factor: f32 = params.gen_range(0.0..1.0);
        let data = generate(spec(seed, width, height, factor));
        assert!(is_fully_connected(&data.grid));
        assert!(has_no_isolated_cell(&data.grid));
        assert!(borders_are_closed(&data.grid));
        assert!(walls_are_symmetric(&data.grid));
    }
}

#[test]
fn carved_single_cell_is_walled_in_but_connected() {
    let mut rng = MazeRng::seeded(3);
    let grid = carve_spanning_tree(1, 1, &mut rng);
    assert_eq!(grid.walls, vec![15]);
    assert!(is_fully_connected(&grid));
    assert!(!has_no_isolated_cell(&grid));
}

#[test]
fn carved_perfect_maze_has_one_fewer_passage_than_cells() {
    let mut rng = MazeRng::seeded(11);
    let grid = carve_spanning_tree(9, 7, &mut rng);
    let open_sides: u32 = grid.walls.iter().map(|w| 4 - w.count_ones()).sum();
    // every passage is open on both of its cells
    assert_eq!(open_sides, 2 * (9 * 7 - 1));
}

#[test]
fn dead_end_count_counts_cells_with_three_walls() {
    let grid = MazeGrid {
        width: 3,
        height: 1,
        walls: vec![1 | 4 | 8, 1 | 4, 1 | 2 | 4],
    };
    assert_eq!(dead_end_count(&grid), 2);
    assert_eq!(collect_dead_ends(&grid), vec![(0, 0), (2, 0)]);
}

#[test]
fn braid_candidates_never_include_border_walls() {
    let grid = MazeGrid {
        width: 2,
        height: 2,
        walls: vec![1 | 2 | 8, 1 | 2 | 8, 2 | 4 | 8, 1 | 2 | 4],
    };
    // cell (0,0) has N, E, W walls: only E leads inside the grid
    assert_eq!(braid_candidates(&grid, 0, 0), vec![(2, 1, 0, 8)]);
    // cell (1,1) has N, E, S walls: only N leads inside the grid
    assert_eq!(braid_candidates(&grid, 1, 1), vec![(1, 1, 0, 4)]);
}

#[test]
fn opening_a_wall_clears_both_sides() {
    let mut grid = MazeGrid {
        width: 2,
        height: 1,
        walls: vec![15, 15],
    };
    open_wall(&mut grid, (0, 0), 2, (1, 0), 8);
    assert_eq!(grid.walls, vec![13, 7]);
    assert!(walls_are_symmetric(&grid));
    assert!(is_fully_connected(&grid));
}

#[test]
fn roll_rule_matches_the_float_comparison_exactly() {
    let mut params = ChaCha8Rng::seed_from_u64(99);
    let mut factors: Vec<f32> = vec![
        0.0,
        -0.0,
        0.05,
        0.3,
        0.5,
        0.6,
        0.999_999_94,
        1.0,
        2.5,
        -0.25,
        f32::MIN_POSITIVE,
        1.0e-30,
        1.0e-45,
        f32::INFINITY,
        f32::NEG_INFINITY,
        f32::NAN,
    ];
    for _ in 0..200 {
        factors.push(params.gen_range(0.0..1.0));
    }
    for factor in factors {
        let (scale, limit) = roll_rule(factor.to_bits());
        let mut ks: Vec<u64> = vec![0, 1, 2, (1 << 23) - 1, 1 << 23, (1 << 24) - 1];
        let edge = (factor.max(0.0).min(1.0) * 16_777_216.0) as u64;
        for d in 0..3 {
            ks.push(edge.saturating_sub(d).min((1 << 24) - 1));
            ks.push((edge + d).min((1 << 24) - 1));
        }
        for _ in 0..50 {
            ks.push(params.gen_range(0..(1u64 << 24)));
        }
        for k in ks {
            let sample = k as f32 * (1.0 / 16_777_216.0);
            let opens = !(sample >= factor);
            assert_eq!(k * scale < limit, opens, "factor {factor:e}, k {k}");
        }
    }
}

#[test]
fn roll_rule_exact_values() {
    assert_eq!(roll_rule(0.0f32.to_bits()), (1, 0));
    assert_eq!(roll_rule(0.5f32.to_bits()), (1, 1 << 23));
    assert_eq!(roll_rule(0.3f32.to_bits()), (2, 0x99_999a));
    assert_eq!(roll_rule(1.0f32.to_bits()), (0, 1));
    assert_eq!(roll_rule(f32::NAN.to_bits()), (0, 1));
    assert_eq!(roll_rule((-0.5f32).to_bits()), (0, 0));
}

#[test]
fn braiding_with_factor_zero_changes_nothing() {
    let mut rng = MazeRng::seeded(5);
    let carved = carve_spanning_tree(15, 9, &mut rng);
    let mut grid = carved.clone();
    braid(&mut grid, &mut rng, 0.0f32.to_bits());
    assert_eq!(grid, carved);
}

#[test]
fn braiding_only_removes_walls_and_keeps_the_maze_valid() {
    let mut rng = MazeRng::seeded(6);
    let carved = carve_spanning_tree(15, 9, &mut rng);
    let mut grid = carved.clone();
    braid(&mut grid, &mut rng, 1.0f32.to_bits());
    assert!(grid.walls.iter().zip(&carved.walls).all(|(new, old)| new & old == *new));
    assert!(dead_end_count(&grid) < dead_end_count(&carved));
    assert!(is_fully_connected(&grid));
    assert!(borders_are_closed(&grid));
    assert!(walls_are_symmetric(&grid));
    assert!(has_no_isolated_cell(&grid));
}

#[test]
fn generated_maze_carries_its_spec_and_name() {
    let s = spec(3, 0, 4, 0.3);
    let data = generate(s);
    assert_eq!(data.source, MazeSource::Generated(s));
    assert_eq!(data.generator_name, GENERATOR_NAME);
    assert_eq!((data.grid.width, data.grid.height), (1, 4));
}

#[test]
fn a_harder_level_opens_no_roll_an_easier_one_keeps_closed() {
    let factors = [0.6f32, 0.3, 0.05];
    let rules: Vec<(u64, u64)> = factors.iter().map(|f| roll_rule(f.to_bits())).collect();
    for k in (0..(1u64 << 24)).step_by(997) {
        for pair in rules.windows(2) {
            let (easier, harder) = (pair[0], pair[1]);
            if k * harder.0 < harder.1 {
                assert!(k * easier.0 < easier.1, "k = {k}");
            }
        }
    }
}

#[test]
fn a_factor_of_one_opens_every_dead_end_it_can() {
    for seed in 0..20u64 {
        let mut rng = MazeRng::seeded(seed);
        let carved = carve_spanning_tree(9, 6, &mut rng);
        let mut grid = carved.clone();
        braid(&mut grid, &mut rng, 1.0f32.to_bits());
        for (x, y) in collect_dead_ends(&carved) {
            if !braid_candidates(&carved, x, y).is_empty() {
                assert!(!is_dead_end(grid.walls_at(x, y)), "seed {seed}: ({x}, {y})");
            }
        }
    }
}

#[test]
fn a_zero_factor_maze_has_one_fewer_passage_than_cells() {
    let data = generate(spec(31, 13, 8, 0.0));
    let open_sides: u32 = data.grid.walls.iter().map(|w| 4 - w.count_ones()).sum();
    assert_eq!(open_sides, 2 * (13 * 8 - 1));
    let braided = generate(spec(31, 13, 8, 0.9));
    let braided_sides: u32 = braided.grid.walls.iter().map(|w| 4 - w.count_ones()).sum();
    assert!(braided_sides > open_sides);
}

/// The backtracker written directly against `rand`: carve from `(0, 0)`,
/// choosing among the unvisited neighbours in north, east, south, west
/// order.
fn reference_carve(w: u16, h: u16, rng: &mut ChaCha8Rng) -> MazeGrid {
    let n = w as usize * h as usize;
    let idx = |x: u16, y: u16| y as usize * w as usize + x as usize;
    let mut walls = vec![15u8; n];
    let mut visited = vec![false; n];
    let mut stack = vec![(0u16, 0u16)];
    visited[0] = true;
    while let Some(&(cx, cy)) = stack.last() {
        let mut options: Vec<(u16, u16, u8, u8)> = Vec::new();
        if cy > 0 && !visited[idx(cx, cy - 1)] {
            options.push((cx, cy - 1, 1, 4));
        }
        if cx + 1 < w && !visited[idx(cx + 1, cy)] {
            options.push((cx + 1, cy, 2, 8));
        }
        if cy + 1 < h && !visited[idx(cx, cy + 1)] {
            options.push((cx, cy + 1, 4, 1));
        }
        if cx > 0 && !visited[idx(cx - 1, cy)] {
            options.push((cx - 1, cy, 8, 2));
        }
        if let Some(&(nx, ny, bit, nb_bit)) = options.choose(rng) {
            walls[idx(cx, cy)] &= !bit;
            walls[idx(nx, ny)] &= !nb_bit;
            visited[idx(nx, ny)] = true;
            stack.push((nx, ny));
        } else {
            stack.pop();
        }
    }
    MazeGrid { width: w, height: h, walls }
}

/// The braiding pass written directly against `rand`: shuffle the dead
/// ends, roll an `f32` against the factor, pick a candidate wall.
fn reference_braid(grid: &mut MazeGrid, rng: &mut ChaCha8Rng, braid_factor: f32) {
    let mut dead_ends = collect_dead_ends(grid);
    dead_ends.shuffle(rng);
    for (x, y) in dead_ends {
        if !is_dead_end(grid.walls_at(x, y)) {
            continue;
        }
        if rng.gen::<f32>() >= braid_factor {
            continue;
        }
        let candidates = braid_candidates(grid, x, y);
        if let Some(&(bit, nx, ny, nb_bit)) = candidates.choose(rng) {
            open_wall(grid, (x, y), bit, (nx, ny), nb_bit);
        }
    }
}

#[test]
fn generate_draws_from_rand_exactly_like_a_direct_implementation() {
    for (seed, w, h, factor) in [(1u64, 10u16, 10u16, 0.6f32), (2, 20, 15, 0.3), (3, 7, 12, 0.05), (4, 9, 9, 1.0)] {
        let mut rng = ChaCha8Rng::seed_from_u64(seed);
        let mut expected = reference_carve(w, h, &mut rng);
        reference_braid(&mut expected, &mut rng, factor);
        assert_eq!(generate(spec(seed, w, h, factor)).grid, expected, "seed {seed}");
    }
}

#[test]
fn carving_draws_from_rand_exactly_like_a_direct_implementation() {
    for (seed, w, h) in [(8u64, 6u16, 5u16), (9, 1, 7), (10, 12, 3)] {
        let mut direct = ChaCha8Rng::seed_from_u64(seed);
        let expected = reference_carve(w, h, &mut direct);
        let mut rng = MazeRng::seeded(seed);
        assert_eq!(carve_spanning_tree(w, h, &mut rng), expected, "seed {seed}");
    }
}
