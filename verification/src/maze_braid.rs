//! The pieces of the braiding pass that opens dead ends into loops: finding
//! dead ends and the walls a dead end may lose. Opening the wall itself is
//! `maze::open_wall`.

use vstd::prelude::*;
use crate::maze::{lemma_coords, MazeGrid, WALL_E, WALL_N, WALL_S, WALL_W};

verus! {

/// Number of set bits in `b`.
pub open spec fn ones(b: int) -> int
    decreases b,
{
    if b <= 0 {
        0
    } else {
        b % 2 + ones(b / 2)
    }
}

/// Counts the set bits of `b`, as `u8::count_ones` does.
pub fn count_ones(b: u8) -> (r: u32)
    ensures
        r == ones(b as int),
{
    let mut v: u8 = b;
    let mut r: u32 = 0;
    proof {
        lemma_ones_bounds(b as int);
    }
    while v > 0
        invariant
            r + ones(v as int) == ones(b as int),
            ones(b as int) <= 255,
        decreases v,
    {
        proof {
            lemma_ones_bounds(v as int);
            lemma_ones_bounds(v as int / 2);
        }
        r = r + (v % 2) as u32;
        v = v / 2;
    }
    r
}

proof fn lemma_ones_bounds(b: int)
    requires
        0 <= b,
    ensures
        0 <= ones(b) <= b,
        b > 0 ==> ones(b) == b % 2 + ones(b / 2),
    decreases b,
{
    if b > 0 {
        lemma_ones_bounds(b / 2);
    }
}

/// A cell whose walls are a subset of another's has at most as many, and
/// strictly fewer when the two differ.
pub(crate) proof fn lemma_fewer_walls(a: u8, b: u8)
    requires
        a & b == a,
    ensures
        ones(a as int) <= ones(b as int),
        a != b ==> ones(a as int) < ones(b as int),
    decreases b,
{
    lemma_ones_bounds(a as int);
    lemma_ones_bounds(b as int);
    if b == 0 {
        assert(a & b == a && b == 0 ==> a == 0) by (bit_vector);
    } else {
        let a2: u8 = a / 2;
        let b2: u8 = b / 2;
        assert(a & b == a ==> (a / 2) & (b / 2) == a / 2) by (bit_vector);
        assert(a & b == a ==> a % 2 <= b % 2) by (bit_vector);
        assert(a != b ==> (a / 2 != b / 2 || a % 2 != b % 2)) by (bit_vector);
        lemma_fewer_walls(a2, b2);
        assert(a as int / 2 == a2 as int);
        assert(b as int / 2 == b2 as int);
        if a == 0 {
            lemma_ones_bounds(b as int);
        }
    }
}

/// A dead end: a cell with exactly three walls.
pub open spec fn is_dead_end_cell(c: u8) -> bool {
    ones(c as int) == 3
}

/// True for a cell with exactly three walls.
pub fn is_dead_end(walls: u8) -> (r: bool)
    ensures
        r == is_dead_end_cell(walls),
{
    count_ones(walls) == 3
}

/// Number of dead ends among `cells`.
pub open spec fn dead_end_total(cells: Seq<u8>) -> int
    decreases cells.len(),
{
    if cells.len() == 0 {
        0
    } else {
        dead_end_total(cells.drop_last()) + if is_dead_end_cell(cells.last()) {
            1int
        } else {
            0
        }
    }
}

/// Number of dead-end cells in the grid: the numerator of the dead-end
/// density used to rank difficulty.
pub fn dead_end_count(grid: &MazeGrid) -> (r: usize)
    ensures
        r == dead_end_total(grid.walls@),
{
    let mut i: usize = 0;
    let mut r: usize = 0;
    while i < grid.walls.len()
        invariant
            i <= grid.walls@.len(),
            r <= i,
            r == dead_end_total(grid.walls@.take(i as int)),
        decreases grid.walls@.len() - i,
    {
        proof {
            assert(grid.walls@.take(i as int + 1).drop_last() =~= grid.walls@.take(i as int));
        }
        if is_dead_end(grid.walls[i]) {
            r = r + 1;
        }
        i = i + 1;
    }
    proof {
        assert(grid.walls@.take(i as int) =~= grid.walls@);
    }
    r
}

/// The dead ends among the first `m` cells, in row-major order, of a grid
/// `w` cells wide with walls `walls`.
pub open spec fn dead_ends_before(walls: Seq<u8>, w: u16, m: int) -> Seq<(u16, u16)>
    decreases m,
{
    if m <= 0 {
        seq![]
    } else {
        let earlier = dead_ends_before(walls, w, m - 1);
        if is_dead_end_cell(walls[m - 1]) {
            earlier.push((((m - 1) % (w as int)) as u16, ((m - 1) / (w as int)) as u16))
        } else {
            earlier
        }
    }
}

/// The dead ends of a `w` x `h` grid with walls `walls`, in row-major
/// order.
pub open spec fn dead_end_list(walls: Seq<u8>, w: u16, h: u16) -> Seq<(u16, u16)> {
    dead_ends_before(walls, w, h * w)
}

/// The dead-end cells, in row-major order.
pub fn collect_dead_ends(grid: &MazeGrid) -> (r: Vec<(u16, u16)>)
    requires
        grid.wf(),
    ensures
        r@ == dead_end_list(grid.walls@, grid.width, grid.height),
        forall|k: int|
            0 <= k < r@.len() ==> grid.in_grid(#[trigger] r@[k]) && is_dead_end_cell(
                grid.cell(grid.idx(r@[k])),
            ),
        forall|k: int, l: int| 0 <= k < l < r@.len() ==> grid.idx(#[trigger] r@[k]) < grid.idx(#[trigger] r@[l]),
        forall|x: u16, y: u16|
            grid.in_grid((x, y)) && is_dead_end_cell(grid.cell(grid.idx((x, y)))) ==> #[trigger] r@.contains(
                (x, y),
            ),
{
    let width = grid.width;
    let height = grid.height;
    let mut r: Vec<(u16, u16)> = Vec::new();
    let mut y: u16 = 0;
    while y < height
        invariant
            grid.wf(),
            width == grid.width,
            height == grid.height,
            y <= height,
            r@ == dead_ends_before(grid.walls@, width, y * width),
            forall|k: int|
                0 <= k < r@.len() ==> grid.in_grid(#[trigger] r@[k]) && is_dead_end_cell(
                    grid.cell(grid.idx(r@[k])),
                ) && r@[k].1 < y,
            forall|k: int, l: int|
                0 <= k < l < r@.len() ==> grid.idx(#[trigger] r@[k]) < grid.idx(#[trigger] r@[l]),
            forall|a: u16, b: u16|
                a < width && b < y && is_dead_end_cell(grid.cell(grid.idx((a, b)))) ==> #[trigger] r@.contains(
                    (a, b),
                ),
        decreases height - y,
    {
        let mut x: u16 = 0;
        while x < width
            invariant
                grid.wf(),
                width == grid.width,
                height == grid.height,
                y < height,
                x <= width,
                r@ == dead_ends_before(grid.walls@, width, y * width + x),
                forall|k: int|
                    0 <= k < r@.len() ==> grid.in_grid(#[trigger] r@[k]) && is_dead_end_cell(
                        grid.cell(grid.idx(r@[k])),
                    ) && (r@[k].1 < y || (r@[k].1 == y && r@[k].0 < x)),
                forall|k: int, l: int|
                    0 <= k < l < r@.len() ==> grid.idx(#[trigger] r@[k]) < grid.idx(#[trigger] r@[l]),
                forall|a: u16, b: u16|
                    a < width && (b < y || (b == y && a < x)) && is_dead_end_cell(
                        grid.cell(grid.idx((a, b))),
                    ) ==> #[trigger] r@.contains((a, b)),
            decreases width - x,
        {
            proof {
                lemma_coords(grid, x as int, y as int);
            }
            let ghost old_r = r@;
            proof {
                assert(grid.idx((x, y)) == y * width + x);
            }
            if is_dead_end(grid.walls_at(x, y)) {
                r.push((x, y));
                proof {
                    assert forall|k: int, l: int| 0 <= k < l < r@.len() implies grid.idx(#[trigger] r@[k])
                        < grid.idx(#[trigger] r@[l]) by {
                        if l == r@.len() - 1 {
                            let c = r@[k];
                            assert(grid.in_grid(c));
                            lemma_coords(grid, c.0 as int, c.1 as int);
                            lemma_row_major_order(grid, c.0 as int, c.1 as int, x as int, y as int);
                        }
                    }
                    assert forall|a: u16, b: u16|
                        a < width && (b < y || (b == y && a < x + 1)) && is_dead_end_cell(
                            grid.cell(grid.idx((a, b))),
                        ) implies #[trigger] r@.contains((a, b)) by {
                        if b == y && a == x {
                            assert(r@[r@.len() - 1] == (a, b));
                        } else {
                            assert(old_r.contains((a, b)));
                            let k = choose|k: int| 0 <= k < old_r.len() && old_r[k] == (a, b);
                            assert(r@[k] == (a, b));
                        }
                    }
                }
            }
            x = x + 1;
        }
        proof {
            assert(y * width + width == (y + 1) * width) by (nonlinear_arith);
        }
        y = y + 1;
    }
    r
}

/// Cells earlier in row-major order have smaller indices.
proof fn lemma_row_major_order(g: &MazeGrid, a: int, b: int, x: int, y: int)
    requires
        0 <= a < g.width,
        0 <= x < g.width,
        0 <= b,
        0 <= y,
        b < y || (b == y && a < x),
    ensures
        g.spec_index(a, b) < g.spec_index(x, y),
{
    assert(b * g.w() + a < y * g.w() + x) by (nonlinear_arith)
        requires
            0 <= a < g.w(),
            0 <= x < g.w(),
            0 <= b,
            b < y || (b == y && a < x),
    ;
}

/// The walls a dead end at `(x, y)` may lose, in north, east, south, west
/// order: those present on the cell and leading to a neighbour inside the
/// grid. Border walls never qualify.
pub open spec fn braid_candidates_spec(g: &MazeGrid, x: u16, y: u16) -> Seq<(u8, u16, u16, u8)> {
    wall_candidates(g.cell(g.idx((x, y))), x, y, g.width, g.height)
}

/// The walls of a cell with walls `c` at `(x, y)` in a `w` x `h` grid
/// that lead to a neighbour inside the grid, in north, east, south, west
/// order, each with the neighbour and the same wall seen from it.
pub open spec fn wall_candidates(c: u8, x: u16, y: u16, w: u16, h: u16) -> Seq<(u8, u16, u16, u8)> {
    let n = if c & WALL_N != 0 && y > 0 {
        seq![(WALL_N, x, (y - 1) as u16, WALL_S)]
    } else {
        seq![]
    };
    let e = if c & WALL_E != 0 && x + 1 < w {
        seq![(WALL_E, (x + 1) as u16, y, WALL_W)]
    } else {
        seq![]
    };
    let s = if c & WALL_S != 0 && y + 1 < h {
        seq![(WALL_S, x, (y + 1) as u16, WALL_N)]
    } else {
        seq![]
    };
    let west = if c & WALL_W != 0 && x > 0 {
        seq![(WALL_W, (x - 1) as u16, y, WALL_E)]
    } else {
        seq![]
    };
    n + e + s + west
}

/// The walls of cell `(x, y)` that braiding may remove.
pub fn braid_candidates(grid: &MazeGrid, x: u16, y: u16) -> (r: Vec<(u8, u16, u16, u8)>)
    requires
        grid.wf(),
        grid.in_grid((x, y)),
    ensures
        r@ == braid_candidates_spec(grid, x, y),
        forall|k: int|
            0 <= k < r@.len() ==> grid.is_step((x, y), (#[trigger] r@[k]).0, (r@[k].1, r@[k].2), r@[k].3),
{
    proof {
        lemma_coords(grid, x as int, y as int);
    }
    let c = grid.walls_at(x, y);
    let mut r: Vec<(u8, u16, u16, u8)> = Vec::new();
    if c & WALL_N != 0 && y > 0 {
        r.push((WALL_N, x, y - 1, WALL_S));
    }
    let ghost after_n = r@;
    if c & WALL_E != 0 && x + 1 < grid.width {
        r.push((WALL_E, x + 1, y, WALL_W));
    }
    let ghost after_e = r@;
    if c & WALL_S != 0 && y + 1 < grid.height {
        r.push((WALL_S, x, y + 1, WALL_N));
    }
    let ghost after_s = r@;
    if c & WALL_W != 0 && x > 0 {
        r.push((WALL_W, x - 1, y, WALL_E));
    }
    proof {
        assert(r@ =~= braid_candidates_spec(grid, x, y));
    }
    r
}

/// Every wall braiding may remove is present on the cell.
pub(crate) proof fn lemma_candidates_are_present_walls(g: &MazeGrid, x: u16, y: u16, k: int)
    requires
        0 <= k < braid_candidates_spec(g, x, y).len(),
    ensures
        g.cell(g.idx((x, y))) & braid_candidates_spec(g, x, y)[k].0 != 0,
{
    let c = g.cell(g.idx((x, y)));
    let n = if c & WALL_N != 0 && y > 0 {
        seq![(WALL_N, x, (y - 1) as u16, WALL_S)]
    } else {
        seq![]
    };
    let e = if c & WALL_E != 0 && x + 1 < g.width {
        seq![(WALL_E, (x + 1) as u16, y, WALL_W)]
    } else {
        seq![]
    };
    let s = if c & WALL_S != 0 && y + 1 < g.height {
        seq![(WALL_S, x, (y + 1) as u16, WALL_N)]
    } else {
        seq![]
    };
    let w = if c & WALL_W != 0 && x > 0 {
        seq![(WALL_W, (x - 1) as u16, y, WALL_E)]
    } else {
        seq![]
    };
    let all = n + e + s + w;
    assert(all == braid_candidates_spec(g, x, y));
    assert(forall|t: int| 0 <= t < n.len() ==> #[trigger] n[t].0 == WALL_N && c & WALL_N != 0);
    assert(forall|t: int| 0 <= t < e.len() ==> #[trigger] e[t].0 == WALL_E && c & WALL_E != 0);
    assert(forall|t: int| 0 <= t < s.len() ==> #[trigger] s[t].0 == WALL_S && c & WALL_S != 0);
    assert(forall|t: int| 0 <= t < w.len() ==> #[trigger] w[t].0 == WALL_W && c & WALL_W != 0);
    if k < n.len() {
        assert(all[k] == n[k]);
    } else if k < n.len() + e.len() {
        assert(all[k] == e[k - n.len()]);
    } else if k < n.len() + e.len() + s.len() {
        assert(all[k] == s[k - n.len() - e.len()]);
    } else {
        assert(all[k] == w[k - n.len() - e.len() - s.len()]);
    }
}

} // verus!
