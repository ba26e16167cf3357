use maze_wars::level_state::{center_cell, LevelState};
use maze_wars::maze::{MazeGrid, MazeSource, MazeSpec, GENERATOR_VERSION};
use maze_wars::maze_build::{build_and_validate, MazeBuildError};

fn generated(seed: u64, size: u16) -> MazeSource {
    MazeSource::Generated(MazeSpec {
        seed,
        width: size,
        height: size,
        braid_factor_bits: 0.3f32.to_bits(),
        generator_version: GENERATOR_VERSION,
    })
}

fn initial_state() -> LevelState {
    let maze = build_and_validate(generated(1, 10)).unwrap();
    LevelState::new(0, 5, maze)
}

#[test]
fn accepts_only_the_current_epoch() {
    let state = initial_state();
    assert!(state.accepts(5));
    assert!(!state.accepts(4), "a stale epoch must not be accepted");
    assert!(!state.accepts(6), "an epoch the client hasn't adopted yet must not be accepted");
}

#[test]
fn applying_a_level_change_adopts_the_new_maze_and_epoch() {
    let mut state = initial_state();

    state
        .apply_level_changed(1, 6, generated(2, 20))
        .expect("valid maze should apply");

    assert_eq!(state.level(), 1);
    assert_eq!(state.level_epoch(), 6);
    assert!(state.accepts(6));
    assert!(!state.accepts(5), "the old epoch must be rejected once a new one is adopted");
    assert_eq!(state.maze().grid.width, 20);
}

#[test]
fn a_failed_level_change_leaves_the_old_maze_and_epoch_in_place() {
    let mut state = initial_state();
    let bad_source = MazeSource::Generated(MazeSpec {
        seed: 99,
        width: 20,
        height: 20,
        braid_factor_bits: 0.3f32.to_bits(),
        generator_version: GENERATOR_VERSION + 1,
    });

    let result = state.apply_level_changed(1, 6, bad_source);

    assert!(result.is_err());
    assert_eq!(state.level(), 0);
    assert_eq!(state.level_epoch(), 5);
    assert!(state.accepts(5), "old epoch must still be accepted after a failed apply");
    assert_eq!(state.maze().grid.width, 10);
}

#[test]
fn spawn_point_is_the_current_mazes_center_cell() {
    let state = initial_state();
    // The player is placed at the middle of this cell: (5.5, 5.5).
    assert_eq!(state.spawn_cell(), (5, 5));
}

#[test]
fn an_invalid_custom_maze_is_refused_with_its_error() {
    let mut state = initial_state();
    let mut grid = state.maze().grid.clone();
    grid.walls.pop();

    let result = state.apply_level_changed(2, 9, MazeSource::Custom(grid));

    assert!(matches!(result, Err(MazeBuildError::InvalidDimensions)));
    assert_eq!(state.level_epoch(), 5);
}

#[test]
fn center_cell_halves_each_dimension() {
    let grid = MazeGrid {
        width: 7,
        height: 4,
        walls: vec![0; 28],
    };
    assert_eq!(center_cell(&grid), (3, 2));
}
