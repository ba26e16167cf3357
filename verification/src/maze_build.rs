//! Rebuilding a maze from what the server sent, and refusing any grid that
//! is not a playable maze.

use vstd::prelude::*;
use crate::maze::{
    lemma_coords, MazeData, MazeGrid, MazeSource, MazeSpec, ALL_WALLS, GENERATOR_VERSION, WALL_E,
    WALL_N, WALL_S, WALL_W,
};
use crate::maze_checks::{lemma_reach_count_full, reachable_cell_count};
use crate::maze_generate::{generate, generated_from};

verus! {

/// Why a received maze was refused.
#[derive(Debug, Clone, Copy, PartialEq, Eq, Structural)]
pub enum MazeBuildError {
    GeneratorVersion { received: u16, expected: u16 },
    InvalidDimensions,
    InvalidWallBits { x: u16, y: u16 },
    OpenBorder { x: u16, y: u16 },
    AsymmetricWall { x: u16, y: u16 },
    IsolatedCell { x: u16, y: u16 },
    Disconnected,
}

/// The first check that cell `(x, y)` fails, in the order the checks are
/// made: stray bits, open border, one-sided wall, walled-in cell.
pub open spec fn cell_error(g: &MazeGrid, x: int, y: int) -> Option<MazeBuildError> {
    let c = g.cell(g.spec_index(x, y));
    if c & !ALL_WALLS != 0 {
        Some(MazeBuildError::InvalidWallBits { x: x as u16, y: y as u16 })
    } else if !g.border_closed_at(x, y) {
        Some(MazeBuildError::OpenBorder { x: x as u16, y: y as u16 })
    } else if !g.symmetric_at(x, y) {
        Some(MazeBuildError::AsymmetricWall { x: x as u16, y: y as u16 })
    } else if c & ALL_WALLS == ALL_WALLS {
        Some(MazeBuildError::IsolatedCell { x: x as u16, y: y as u16 })
    } else {
        None
    }
}

/// `(a, b)` comes before `(x, y)` in row-major order.
pub open spec fn earlier(a: int, b: int, x: int, y: int) -> bool {
    b < y || (b == y && a < x)
}

/// `(x, y)` is the row-major first cell that fails a check.
pub open spec fn is_first_error(g: &MazeGrid, x: int, y: int) -> bool {
    &&& 0 <= x < g.width
    &&& 0 <= y < g.height
    &&& cell_error(g, x, y) is Some
    &&& forall|a: int, b: int|
        0 <= a < g.width && 0 <= b < g.height && earlier(a, b, x, y) ==> #[trigger] cell_error(g, a, b)
            is None
}

/// What validating `g` answers: wrong dimensions first, then the first
/// failing cell, then disconnection.
pub open spec fn validation(g: &MazeGrid) -> Result<(), MazeBuildError> {
    if g.width == 0 || g.height == 0 || !g.wf() {
        Err(MazeBuildError::InvalidDimensions)
    } else if exists|x: int, y: int| is_first_error(g, x, y) {
        let (x, y) = choose|x: int, y: int| is_first_error(g, x, y);
        Err(cell_error(g, x, y).unwrap())
    } else if g.reach_set().len() != g.n() {
        Err(MazeBuildError::Disconnected)
    } else {
        Ok(())
    }
}

proof fn lemma_first_error_unique(g: &MazeGrid, x: int, y: int)
    requires
        is_first_error(g, x, y),
    ensures
        validation(g) == Err::<(), MazeBuildError>(cell_error(g, x, y).unwrap()) || g.width == 0 || g.height
            == 0 || !g.wf(),
{
    let (x2, y2) = choose|x2: int, y2: int| is_first_error(g, x2, y2);
    assert(is_first_error(g, x2, y2));
    if earlier(x, y, x2, y2) {
        assert(cell_error(g, x, y) is None);
    } else if earlier(x2, y2, x, y) {
        assert(cell_error(g, x2, y2) is None);
    }
}

/// Checks that `grid` is a playable maze; the first problem found is the
/// error.
pub fn validate_grid(grid: &MazeGrid) -> (r: Result<(), MazeBuildError>)
    ensures
        r == validation(grid),
        r is Ok <==> grid.valid(),
{
    let expected_len = grid.cell_count();
    if grid.width == 0 || grid.height == 0 || grid.walls.len() != expected_len {
        return Err(MazeBuildError::InvalidDimensions);
    }
    let width = grid.width;
    let height = grid.height;
    let mut y: u16 = 0;
    while y < height
        invariant
            grid.wf(),
            width == grid.width,
            height == grid.height,
            width > 0,
            height > 0,
            y <= height,
            forall|a: int, b: int|
                0 <= a < width && 0 <= b < y ==> #[trigger] cell_error(grid, a, b) is None,
        decreases height - y,
    {
        let mut x: u16 = 0;
        while x < width
            invariant
                grid.wf(),
                width == grid.width,
                height == grid.height,
                width > 0,
                height > 0,
                y < height,
                x <= width,
                forall|a: int, b: int|
                    0 <= a < width && 0 <= b < y ==> #[trigger] cell_error(grid, a, b) is None,
                forall|a: int| 0 <= a < x ==> #[trigger] cell_error(grid, a, y as int) is None,
            decreases width - x,
        {
            proof {
                lemma_coords(grid, x as int, y as int);
                assert forall|a: int, b: int|
                    0 <= a < width && 0 <= b < height && earlier(a, b, x as int, y as int) implies #[trigger] cell_error(
                    grid,
                    a,
                    b,
                ) is None by {
                    if b == y {
                        assert(cell_error(grid, a, y as int) is None);
                    }
                }
            }
            let walls = grid.walls_at(x, y);
            if walls & !ALL_WALLS != 0 {
                proof {
                    lemma_first_error_unique(grid, x as int, y as int);
                }
                return Err(MazeBuildError::InvalidWallBits { x, y });
            }
            if (y == 0 && walls & WALL_N == 0) || (x + 1 == width && walls & WALL_E == 0) || (y + 1
                == height && walls & WALL_S == 0) || (x == 0 && walls & WALL_W == 0) {
                proof {
                    lemma_first_error_unique(grid, x as int, y as int);
                }
                return Err(MazeBuildError::OpenBorder { x, y });
            }
            if x + 1 < width {
                proof {
                    lemma_coords(grid, x as int + 1, y as int);
                }
                let east = walls & WALL_E != 0;
                let west = grid.walls_at(x + 1, y) & WALL_W != 0;
                if east != west {
                    proof {
                        lemma_first_error_unique(grid, x as int, y as int);
                    }
                    return Err(MazeBuildError::AsymmetricWall { x, y });
                }
            }
            if y + 1 < height {
                proof {
                    lemma_coords(grid, x as int, y as int + 1);
                }
                let south = walls & WALL_S != 0;
                let north = grid.walls_at(x, y + 1) & WALL_N != 0;
                if south != north {
                    proof {
                        lemma_first_error_unique(grid, x as int, y as int);
                    }
                    return Err(MazeBuildError::AsymmetricWall { x, y });
                }
            }
            if walls & ALL_WALLS == ALL_WALLS {
                proof {
                    lemma_first_error_unique(grid, x as int, y as int);
                    assert(walls & !ALL_WALLS == 0 && walls & ALL_WALLS == ALL_WALLS ==> walls == ALL_WALLS)
                        by (bit_vector);
                }
                return Err(MazeBuildError::IsolatedCell { x, y });
            }
            x = x + 1;
        }
        y = y + 1;
    }
    proof {
        assert(!exists|x: int, y: int| is_first_error(grid, x, y));
        lemma_no_cell_error_means_sound(grid);
        lemma_reach_count_full(grid);
        assert(grid.n() > 0) by (nonlinear_arith)
            requires
                grid.width > 0,
                grid.height > 0,
        ;
    }
    if reachable_cell_count(grid) != expected_len {
        return Err(MazeBuildError::Disconnected);
    }
    Ok(())
}

/// With no failing cell, the grid keeps to the four bits, its borders are
/// closed, its walls are symmetric and no cell is walled in.
proof fn lemma_no_cell_error_means_sound(g: &MazeGrid)
    requires
        g.wf(),
        g.width > 0,
        g.height > 0,
        forall|a: int, b: int|
            0 <= a < g.width && 0 <= b < g.height ==> #[trigger] cell_error(g, a, b) is None,
    ensures
        g.known_bits(),
        g.borders_closed(),
        g.symmetric(),
        g.no_isolated(),
{
    assert forall|a: int, b: int| 0 <= a < g.width && 0 <= b < g.height implies #[trigger] g.border_closed_at(
        a,
        b,
    ) by {
        assert(cell_error(g, a, b) is None);
    }
    assert forall|a: int, b: int| 0 <= a < g.width && 0 <= b < g.height implies #[trigger] g.symmetric_at(
        a,
        b,
    ) by {
        assert(cell_error(g, a, b) is None);
    }
    assert forall|i: int| 0 <= i < g.walls@.len() implies #[trigger] g.walls@[i] & !ALL_WALLS == 0
        && g.walls@[i] != ALL_WALLS by {
        let w = g.w();
        let x = i % w;
        let y = i / w;
        vstd::arithmetic::div_mod::lemma_fundamental_div_mod(i, w);
        assert(0 <= x < w);
        assert(0 <= y < g.height) by (nonlinear_arith)
            requires
                i == w * y + x,
                0 <= x < w,
                0 <= i < w * g.height,
        ;
        lemma_coords(g, x, y);
        assert(g.spec_index(x, y) == i) by (nonlinear_arith)
            requires
                i == w * y + x,
                g.spec_index(x, y) == y * w + x,
        ;
        assert(cell_error(g, x, y) is None);
        let c = g.walls@[i];
        assert(c & !ALL_WALLS == 0 ==> (c & ALL_WALLS == ALL_WALLS <==> c == ALL_WALLS)) by (bit_vector);
    }
}

/// What building from `source` gives, for a generator that turned a
/// generated source's spec into `generated`.
pub open spec fn build_result(source: MazeSource, generated: MazeData) -> Result<MazeData, MazeBuildError> {
    match source {
        MazeSource::Generated(spec) => {
            if spec.generator_version != GENERATOR_VERSION {
                Err(
                    MazeBuildError::GeneratorVersion {
                        received: spec.generator_version,
                        expected: GENERATOR_VERSION,
                    },
                )
            } else {
                match validation(&generated.grid) {
                    Ok(_) => Ok(generated),
                    Err(e) => Err(e),
                }
            }
        },
        MazeSource::Custom(grid) => match validation(&grid) {
            Ok(_) => Ok(generated),
            Err(e) => Err(e),
        },
    }
}

/// The maze a custom grid stands for: the grid itself, its source, and the
/// name "custom".
pub open spec fn is_custom_maze(m: MazeData, grid: MazeGrid) -> bool {
    &&& m.grid@ == grid@
    &&& m.source matches MazeSource::Custom(g) && g@ == grid@
    &&& m.generator_name@ == "custom"@
}

/// What building from `source` may answer: a wrong generator version is
/// refused; a generated maze is one `generate` makes of the spec, then
/// validated; a custom grid is validated and kept as it is.
pub open spec fn build_outcome(source: MazeSource, r: Result<MazeData, MazeBuildError>) -> bool {
    match source {
        MazeSource::Generated(spec) => {
            &&& spec.generator_version != GENERATOR_VERSION ==> r == Err::<MazeData, MazeBuildError>(
                MazeBuildError::GeneratorVersion {
                    received: spec.generator_version,
                    expected: GENERATOR_VERSION,
                },
            )
            &&& spec.generator_version == GENERATOR_VERSION ==> exists|m: MazeData|
                generated_from(spec, m) && r == build_result(source, m)
        },
        MazeSource::Custom(grid) => {
            &&& validation(&grid) is Err ==> r == Err::<MazeData, MazeBuildError>(
                validation(&grid)->Err_0,
            )
            &&& validation(&grid) is Ok ==> (r matches Ok(m) && is_custom_maze(m, grid))
        },
    }
}

/// A generated source of this build's generator version, for more than
/// one cell: rebuilding it always succeeds.
pub open spec fn builds_surely(source: MazeSource) -> bool {
    source matches MazeSource::Generated(spec) && spec.generator_version == GENERATOR_VERSION && (if spec.width
        == 0 {
        1
    } else {
        spec.width as int
    }) * (if spec.height == 0 {
        1
    } else {
        spec.height as int
    }) > 1
}

/// Rebuilding a generated source gives back the very maze `generate`
/// makes of its spec: the same walls, source and generator name.
pub proof fn lemma_rebuild_is_generate(spec: MazeSpec, built: MazeData, made: MazeData)
    requires
        build_outcome(MazeSource::Generated(spec), Ok(built)),
        generated_from(spec, made),
    ensures
        built.grid@ == made.grid@,
        built.source == made.source,
        built.generator_name@ == made.generator_name@,
{
}

/// Rebuilds the maze `source` describes and checks it is playable. A
/// generated source must name this build's generator version and is
/// regenerated with `generate`; a custom source carries its grid.
pub fn build_and_validate(source: MazeSource) -> (r: Result<MazeData, MazeBuildError>)
    ensures
        build_outcome(source, r),
        builds_surely(source) ==> r is Ok,
        r matches Ok(m) ==> m.grid.valid(),
{
    let ghost src = source;
    match source {
        MazeSource::Generated(spec) => {
            if spec.generator_version != GENERATOR_VERSION {
                return Err(
                    MazeBuildError::GeneratorVersion {
                        received: spec.generator_version,
                        expected: GENERATOR_VERSION,
                    },
                );
            }
            let maze = generate(spec);
            let ghost made = maze;
            let checked = validate_grid(&maze.grid);
            let r = match checked {
                Ok(()) => Ok(maze),
                Err(e) => Err(e),
            };
            proof {
                assert(generated_from(spec, made));
                assert(r == build_result(src, made));
            }
            r
        },
        MazeSource::Custom(grid) => {
            let copy = grid.clone();
            let maze = MazeData {
                source: MazeSource::Custom(copy),
                grid,
                generator_name: "custom".to_owned(),
            };
            proof {
                reveal_strlit("custom");
            }
            let checked = validate_grid(&maze.grid);
            match checked {
                Ok(()) => Ok(maze),
                Err(e) => Err(e),
            }
        },
    }
}

} // verus!
