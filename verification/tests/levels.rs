use maze_wars::levels::{advance_level, level_maze_spec, level_time_is_up, levels};
use maze_wars::maze::GENERATOR_VERSION;

#[test]
fn at_least_three_levels() {
    assert!(levels().len() >= 3, "the game needs at least 3 difficulty levels");
}

#[test]
fn area_strictly_increases_and_braid_factor_strictly_decreases() {
    let levels = levels();
    for pair in levels.windows(2) {
        let (a, b) = (&pair[0], &pair[1]);
        assert!(
            (a.grid_w as u32 * a.grid_h as u32) < (b.grid_w as u32 * b.grid_h as u32),
            "{} -> {}: area did not strictly increase",
            a.name,
            b.name
        );
        assert!(
            f32::from_bits(a.braid_factor_bits) > f32::from_bits(b.braid_factor_bits),
            "{} -> {}: braid_factor did not strictly decrease",
            a.name,
            b.name
        );
    }
}

#[test]
fn level_table_holds_the_published_values() {
    let levels = levels();
    let expected = [
        (20u16, 20u16, 0.6f32, "Novice Maze"),
        (30, 30, 0.3, "Adept Maze"),
        (40, 40, 0.05, "Veteran Maze"),
    ];
    assert_eq!(levels.len(), expected.len());
    for (level, (w, h, factor, name)) in levels.iter().zip(expected) {
        assert_eq!((level.grid_w, level.grid_h, level.name), (w, h, name));
        assert_eq!(f32::from_bits(level.braid_factor_bits), factor);
    }
}

#[test]
fn server_progresses_through_levels_on_the_configured_timer() {
    let (mut level, mut epoch) = (0u8, 0u32);
    for expected_level in 1u8..=2 {
        let (next, next_epoch, spec) = advance_level(level, epoch, 77);
        assert_eq!(next, expected_level);
        assert_eq!(next_epoch, expected_level as u32);
        let expected = &levels()[expected_level as usize];
        assert_eq!(spec.width, expected.grid_w);
        assert_eq!(spec.height, expected.grid_h);
        assert_eq!(spec.braid_factor_bits, expected.braid_factor_bits);
        assert_eq!(spec.seed, 77);
        assert_eq!(spec.generator_version, GENERATOR_VERSION);
        level = next;
        epoch = next_epoch;
    }
    let (wrapped, _, spec) = advance_level(level, epoch, 5);
    assert_eq!(wrapped, 0);
    assert_eq!(spec.width, 20);
}

#[test]
fn the_epoch_wraps_instead_of_overflowing() {
    assert_eq!(advance_level(1, u32::MAX, 0).1, 0);
}

#[test]
fn level_maze_spec_exists_only_for_table_levels() {
    assert!(level_maze_spec(2, 1).is_some());
    assert!(level_maze_spec(3, 1).is_none());
}

#[test]
fn the_level_timer_fires_once_the_duration_has_passed() {
    assert!(!level_time_is_up(1_149, 1_000, 150));
    assert!(level_time_is_up(1_150, 1_000, 150));
    assert!(!level_time_is_up(10, 1_000, 150));
}
