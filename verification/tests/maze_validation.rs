use maze_wars::maze::{MazeGrid, MazeSource, MazeSpec, GENERATOR_VERSION};
use maze_wars::maze::{WALL_E, WALL_N, WALL_S, WALL_W};
use maze_wars::maze_build::{build_and_validate, validate_grid, MazeBuildError};
use maze_wars::maze_generate::generate;
use maze_wars::maze_checks::{
    borders_are_closed, has_no_isolated_cell, is_fully_connected, reachable_cell_count,
    walls_are_symmetric,
};

fn generated_source() -> MazeSource {
    MazeSource::Generated(MazeSpec {
        seed: 42,
        width: 8,
        height: 6,
        braid_factor_bits: 0.3f32.to_bits(),
        generator_version: GENERATOR_VERSION,
    })
}

fn open_grid(width: u16, height: u16) -> MazeGrid {
    let mut walls = vec![0u8; width as usize * height as usize];
    for y in 0..height {
        for x in 0..width {
            let i = y as usize * width as usize + x as usize;
            if y == 0 {
                walls[i] |= WALL_N;
            }
            if x + 1 == width {
                walls[i] |= WALL_E;
            }
            if y + 1 == height {
                walls[i] |= WALL_S;
            }
            if x == 0 {
                walls[i] |= WALL_W;
            }
        }
    }
    MazeGrid {
        width,
        height,
        walls,
    }
}

#[test]
fn generated_source_rebuilds_the_same_maze() {
    let source = generated_source();
    let expected = match source {
        MazeSource::Generated(spec) => generate(spec),
        MazeSource::Custom(_) => unreachable!(),
    };

    assert_eq!(build_and_validate(source).unwrap(), expected);
}

#[test]
fn valid_custom_grid_is_accepted() {
    let generated = build_and_validate(generated_source()).unwrap();
    let grid = generated.grid;

    let maze = build_and_validate(MazeSource::Custom(grid.clone())).unwrap();

    assert_eq!(maze.grid, grid);
    assert!(matches!(maze.source, MazeSource::Custom(_)));
    assert_eq!(maze.generator_name, "custom");
}

#[test]
fn asymmetric_custom_wall_is_rejected() {
    let generated = build_and_validate(generated_source()).unwrap();
    let mut grid = generated.grid;
    let left = grid.index(0, 0);
    let right = grid.index(1, 0);
    grid.walls[left] |= WALL_E;
    grid.walls[right] &= !WALL_W;

    let error = build_and_validate(MazeSource::Custom(grid)).unwrap_err();
    assert!(matches!(error, MazeBuildError::AsymmetricWall { .. }));
}

#[test]
fn incorrect_wall_vector_length_is_rejected() {
    let grid = MazeGrid {
        width: 2,
        height: 2,
        walls: vec![0; 3],
    };
    let error = build_and_validate(MazeSource::Custom(grid)).unwrap_err();
    assert!(matches!(error, MazeBuildError::InvalidDimensions));
}

#[test]
fn wrong_generator_version_is_refused_before_generating() {
    let source = MazeSource::Generated(MazeSpec {
        seed: 1,
        width: 4,
        height: 4,
        braid_factor_bits: 0.3f32.to_bits(),
        generator_version: GENERATOR_VERSION + 1,
    });
    let error = build_and_validate(source).unwrap_err();
    assert_eq!(
        error,
        MazeBuildError::GeneratorVersion {
            received: GENERATOR_VERSION + 1,
            expected: GENERATOR_VERSION
        }
    );
}

#[test]
fn zero_sized_grid_has_invalid_dimensions() {
    let grid = MazeGrid {
        width: 0,
        height: 3,
        walls: vec![],
    };
    assert_eq!(validate_grid(&grid), Err(MazeBuildError::InvalidDimensions));
}

#[test]
fn unknown_wall_bits_are_reported_at_the_first_bad_cell() {
    let mut grid = open_grid(3, 2);
    grid.walls[4] |= 0x10;
    grid.walls[5] |= 0x20;
    assert_eq!(
        validate_grid(&grid),
        Err(MazeBuildError::InvalidWallBits { x: 1, y: 1 })
    );
}

#[test]
fn open_border_is_reported() {
    let mut grid = open_grid(3, 2);
    grid.walls[2] &= !WALL_E;
    assert_eq!(
        validate_grid(&grid),
        Err(MazeBuildError::OpenBorder { x: 2, y: 0 })
    );
}

#[test]
fn isolated_cell_is_reported() {
    let mut grid = open_grid(2, 1);
    grid.walls[0] |= WALL_E;
    grid.walls[1] |= WALL_W;
    assert_eq!(
        validate_grid(&grid),
        Err(MazeBuildError::IsolatedCell { x: 0, y: 0 })
    );
}

#[test]
fn disconnected_regions_are_reported() {
    // two open 2x1 rooms separated by a full wall, neither cell isolated
    let mut grid = open_grid(2, 2);
    grid.walls[0] |= WALL_S;
    grid.walls[1] |= WALL_S;
    grid.walls[2] |= WALL_N;
    grid.walls[3] |= WALL_N;
    assert_eq!(reachable_cell_count(&grid), 2);
    assert!(!is_fully_connected(&grid));
    assert_eq!(validate_grid(&grid), Err(MazeBuildError::Disconnected));
}

#[test]
fn open_room_passes_every_check() {
    let grid = open_grid(4, 3);
    assert_eq!(reachable_cell_count(&grid), 12);
    assert!(is_fully_connected(&grid));
    assert!(has_no_isolated_cell(&grid));
    assert!(borders_are_closed(&grid));
    assert!(walls_are_symmetric(&grid));
    assert_eq!(validate_grid(&grid), Ok(()));
}

#[test]
fn grid_indexing_is_row_major() {
    let grid = open_grid(4, 3);
    assert_eq!(grid.cell_count(), 12);
    assert_eq!(grid.index(1, 2), 9);
    assert_eq!(grid.walls_at(3, 2), WALL_E | WALL_S);
}
