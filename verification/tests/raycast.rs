use maze_wars::maze::MazeGrid;
use maze_wars::raycast::in_bounds;

#[test]
fn in_bounds_accepts_exactly_the_grid_cells() {
    let grid = MazeGrid {
        width: 3,
        height: 2,
        walls: vec![15; 6],
    };
    assert!(in_bounds(&grid, 0, 0));
    assert!(in_bounds(&grid, 2, 1));
    assert!(!in_bounds(&grid, 3, 1));
    assert!(!in_bounds(&grid, 2, 2));
    assert!(!in_bounds(&grid, -1, 0));
    assert!(!in_bounds(&grid, 0, -1));
}
