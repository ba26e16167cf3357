//! Flood fill and the structural checks a maze grid must pass.

use vstd::prelude::*;
use crate::maze::{
    lemma_cell_count_fits, lemma_closed_set_holds_reachable, lemma_coords, lemma_reach_set_finite, lemma_reach_start, lemma_reach_step, MazeGrid, ALL_WALLS, WALL_E,
    WALL_N, WALL_S, WALL_W,
};

verus! {

/// The cells marked `true`.
pub open spec fn marked(seen: Seq<bool>) -> Set<int> {
    Set::new(|i: int| 0 <= i < seen.len() && seen[i])
}

/// Some entry of `stack` names cell `i`.
pub open spec fn on_stack(g: &MazeGrid, stack: Seq<(u16, u16)>, i: int) -> bool {
    exists|k: int| 0 <= k < stack.len() && #[trigger] g.idx(stack[k]) == i
}

proof fn lemma_marked_insert(seen: Seq<bool>, j: int)
    requires
        0 <= j < seen.len(),
        !seen[j],
        marked(seen).finite(),
    ensures
        marked(seen.update(j, true)) == marked(seen).insert(j),
        marked(seen.update(j, true)).len() == marked(seen).len() + 1,
        marked(seen).len() < seen.len(),
{
    assert(marked(seen.update(j, true)) =~= marked(seen).insert(j));
    let r = vstd::set_lib::set_int_range(0, seen.len() as int).remove(j);
    vstd::set_lib::lemma_int_range(0, seen.len() as int);
    assert(marked(seen).subset_of(r));
    vstd::set_lib::lemma_len_subset(marked(seen), r);
}

/// What a flood fill keeps true between steps: the seen cells are
/// reachable, counted, and — apart from the cells still waiting on the
/// stack and the one being expanded (`busy`) — closed under passages.
pub open spec fn fill_inv(
    g: &MazeGrid,
    seen: Seq<bool>,
    stack: Seq<(u16, u16)>,
    count: usize,
    busy: int,
) -> bool {
    &&& g.wf()
    &&& seen.len() == g.n()
    &&& marked(seen).finite()
    &&& count == marked(seen).len()
    &&& forall|k: int| 0 <= k < stack.len() ==> #[trigger] g.in_grid(stack[k])
    &&& forall|k: int| 0 <= k < stack.len() ==> seen[#[trigger] g.idx(stack[k])]
    &&& forall|i: int| 0 <= i < g.n() && #[trigger] seen[i] ==> g.reachable(i)
    &&& forall|i: int, j: int|
        0 <= i < g.n() && #[trigger] seen[i] && i != busy && !on_stack(g, stack, i)
            && #[trigger] g.passage(i, j) ==> seen[j]
}

/// Marks cell `(nx, ny)`, entered from cell `from`, as seen and pushes it
/// for a later visit, unless it was already seen.
fn visit_cell(
    grid: &MazeGrid,
    nx: u16,
    ny: u16,
    seen: &mut Vec<bool>,
    stack: &mut Vec<(u16, u16)>,
    count: &mut usize,
    Ghost(from): Ghost<int>,
)
    requires
        fill_inv(grid, old(seen)@, old(stack)@, *old(count), from),
        grid.in_grid((nx, ny)),
        grid.reachable(from),
        grid.passage(from, grid.idx((nx, ny))),
    ensures
        fill_inv(grid, final(seen)@, final(stack)@, *final(count), from),
        final(seen)@[grid.idx((nx, ny))],
        forall|a: int| 0 <= a < grid.n() && #[trigger] old(seen)@[a] ==> final(seen)@[a],
        forall|a: int| on_stack(grid, old(stack)@, a) ==> #[trigger] on_stack(grid, final(stack)@, a),
        *final(count) >= *old(count),
        *final(count) == *old(count) ==> final(stack)@ == old(stack)@,
{
    let j = grid.index(nx, ny);
    proof {
        lemma_coords(grid, nx as int, ny as int);
    }
    if !seen[j] {
        proof {
            lemma_marked_insert(seen@, j as int);
            lemma_cell_count_fits(grid);
            lemma_reach_step(grid, from, j as int);
        }
        let ghost old_stack = stack@;
        let ghost old_seen = seen@;
        seen.set(j, true);
        stack.push((nx, ny));
        *count = *count + 1;
        proof {
            assert(stack@[stack@.len() - 1] == (nx, ny));
            assert(on_stack(grid, stack@, j as int));
            assert forall|a: int| on_stack(grid, old_stack, a) implies #[trigger] on_stack(grid, stack@, a) by {
                let k = choose|k: int| 0 <= k < old_stack.len() && #[trigger] grid.idx(old_stack[k]) == a;
                assert(grid.idx(stack@[k]) == a);
            }
            assert forall|k: int| 0 <= k < stack@.len() implies #[trigger] grid.in_grid(stack@[k]) by {
                if k < old_stack.len() {
                    assert(grid.in_grid(old_stack[k]));
                }
            }
            assert forall|k: int| 0 <= k < stack@.len() implies seen@[#[trigger] grid.idx(stack@[k])] by {
                if k < old_stack.len() {
                    assert(grid.in_grid(old_stack[k]));
                    lemma_coords(grid, old_stack[k].0 as int, old_stack[k].1 as int);
                    assert(old_seen[grid.idx(old_stack[k])]);
                }
            }
            assert forall|a: int, b: int|
                0 <= a < grid.n() && #[trigger] seen@[a] && a != from && !on_stack(grid, stack@, a)
                    && #[trigger] grid.passage(a, b) implies seen@[b] by {
                assert(old_seen[a]);
                assert(!on_stack(grid, old_stack, a));
            }
        }
    } else {
        proof {
            assert(seen@.update(j as int, true) =~= seen@);
        }
    }
}

/// Popping the top of the stack makes its cell the one being expanded.
proof fn lemma_pop_to_busy(
    g: &MazeGrid,
    seen: Seq<bool>,
    stack: Seq<(u16, u16)>,
    count: usize,
)
    requires
        fill_inv(g, seen, stack, count, -1),
        stack.len() > 0,
    ensures
        fill_inv(g, seen, stack.drop_last(), count, g.idx(stack.last())),
{
    let i = g.idx(stack.last());
    let t = stack.drop_last();
    assert forall|a: int| #[trigger] on_stack(g, stack, a) && a != i implies on_stack(g, t, a) by {
        let k = choose|k: int| 0 <= k < stack.len() && #[trigger] g.idx(stack[k]) == a;
        assert(k < stack.len() - 1);
        assert(g.idx(t[k]) == a);
    }
    assert forall|k: int| 0 <= k < t.len() implies #[trigger] g.in_grid(t[k]) by {
        assert(g.in_grid(stack[k]));
    }
    assert forall|k: int| 0 <= k < t.len() implies seen[#[trigger] g.idx(t[k])] by {
        assert(seen[g.idx(stack[k])]);
    }
    assert forall|a: int, b: int|
        0 <= a < g.n() && #[trigger] seen[a] && a != i && !on_stack(g, t, a) && #[trigger] g.passage(a, b)
            implies seen[b] by {
        assert(!on_stack(g, stack, a));
    }
}

/// Number of cells reachable from `(0, 0)` through open walls, for a grid
/// whose borders are closed, so that no opening leads off the grid.
pub fn reachable_cell_count(grid: &MazeGrid) -> (count: usize)
    requires
        grid.wf(),
        grid.n() > 0,
        grid.borders_closed(),
    ensures
        count == grid.reach_set().len(),
{
    flood_count(grid)
}

/// Number of cells reachable from `(0, 0)` through open walls that lead
/// to a cell inside the grid.
fn flood_count(grid: &MazeGrid) -> (count: usize)
    requires
        grid.wf(),
        grid.n() > 0,
    ensures
        count == grid.reach_set().len(),
{
    let n = grid.cell_count();
    let width = grid.width;
    let height = grid.height;
    let mut seen: Vec<bool> = vec![false; n];
    proof {
        assert(marked(seen@) =~= Set::empty());
        lemma_marked_insert(seen@, 0);
        lemma_reach_start(grid);
    }
    seen.set(0, true);
    let mut stack: Vec<(u16, u16)> = Vec::new();
    stack.push((0, 0));
    let mut count: usize = 1;
    proof {
        assert(grid.idx((0u16, 0u16)) == 0);
        assert(grid.idx(stack@[0]) == 0);
        assert(on_stack(grid, stack@, 0));
        assert forall|i: int| 0 <= i < n && #[trigger] seen@[i] implies grid.reachable(i) by {
            assert(i == 0);
        }
        assert forall|i: int, j: int|
            0 <= i < n && #[trigger] seen@[i] && i != -1 && !on_stack(grid, stack@, i)
                && #[trigger] grid.passage(i, j) implies seen@[j] by {
            assert(i == 0);
        }
    }
    while stack.len() > 0
        invariant
            fill_inv(grid, seen@, stack@, count, -1),
            count <= n,
            seen@[0],
            n == grid.n(),
            width == grid.width,
            height == grid.height,
        decreases n - count, stack@.len(),
    {
        proof {
            lemma_pop_to_busy(grid, seen@, stack@, count);
            assert(grid.in_grid(stack@[stack@.len() - 1]));
        }
        let ghost i = grid.idx(stack@.last());
        let (cx, cy) = stack.pop().unwrap();
        proof {
            lemma_coords(grid, cx as int, cy as int);
            assert(seen@[i]);
        }
        let walls = grid.walls_at(cx, cy);
        if cy > 0 && walls & WALL_N == 0 {
            proof {
                lemma_coords(grid, cx as int, cy as int - 1);
            }
            visit_cell(grid, cx, cy - 1, &mut seen, &mut stack, &mut count, Ghost(i));
        }
        if cx + 1 < width && walls & WALL_E == 0 {
            proof {
                lemma_coords(grid, cx as int + 1, cy as int);
            }
            visit_cell(grid, cx + 1, cy, &mut seen, &mut stack, &mut count, Ghost(i));
        }
        if cy + 1 < height && walls & WALL_S == 0 {
            proof {
                lemma_coords(grid, cx as int, cy as int + 1);
            }
            visit_cell(grid, cx, cy + 1, &mut seen, &mut stack, &mut count, Ghost(i));
        }
        if cx > 0 && walls & WALL_W == 0 {
            proof {
                lemma_coords(grid, cx as int - 1, cy as int);
            }
            visit_cell(grid, cx - 1, cy, &mut seen, &mut stack, &mut count, Ghost(i));
        }
        proof {
            assert forall|j: int| #[trigger] grid.passage(i, j) implies seen@[j] by {
                if j == i - grid.w() && i >= grid.w() && grid.cell(i) & WALL_N == 0 {
                    lemma_coords(grid, cx as int, cy as int - 1);
                } else if j == i + grid.w() && grid.cell(i) & WALL_S == 0 {
                    lemma_coords(grid, cx as int, cy as int + 1);
                } else if j == i + 1 && i % grid.w() + 1 < grid.w() && grid.cell(i) & WALL_E == 0 {
                    lemma_coords(grid, cx as int + 1, cy as int);
                } else {
                    lemma_coords(grid, cx as int - 1, cy as int);
                }
            }
            assert forall|a: int, b: int|
                0 <= a < n && #[trigger] seen@[a] && a != -1 && !on_stack(grid, stack@, a)
                    && #[trigger] grid.passage(a, b) implies seen@[b] by {
                if a == i {
                    assert(grid.passage(i, b));
                }
            }
            lemma_marked_insert_bound(seen@);
        }
    }
    proof {
        assert forall|a: int, b: int| #[trigger] marked(seen@).contains(a) && #[trigger] grid.passage(a, b)
            implies marked(seen@).contains(b) by {
            assert(seen@[a]);
            assert(!on_stack(grid, stack@, a));
        }
        assert(marked(seen@).contains(0));
        assert forall|j: int| #[trigger] grid.reach_set().contains(j) implies marked(seen@).contains(j) by {
            lemma_closed_set_holds_reachable(grid, marked(seen@), j);
        }
        assert(marked(seen@) =~= grid.reach_set());
    }
    count
}

/// The seen cells never outnumber the cells.
proof fn lemma_marked_insert_bound(seen: Seq<bool>)
    ensures
        marked(seen).len() <= seen.len(),
        marked(seen).finite(),
{
    vstd::set_lib::lemma_int_range(0, seen.len() as int);
    vstd::set_lib::lemma_len_subset(marked(seen), vstd::set_lib::set_int_range(0, seen.len() as int));
}

/// True if every cell is reachable from the first one.
pub fn is_fully_connected(grid: &MazeGrid) -> (r: bool)
    requires
        grid.wf(),
    ensures
        r == grid.connected(),
{
    if grid.cell_count() == 0 {
        return true;
    }
    let count = flood_count(grid);
    proof {
        lemma_reach_count_full(grid);
    }
    count == grid.cell_count()
}

/// All cells are reachable exactly when the reachable set has `n` cells.
pub(crate) proof fn lemma_reach_count_full(g: &MazeGrid)
    ensures
        g.connected() <==> g.reach_set().len() == g.n(),
{
    lemma_reach_set_finite(g);
    let all = vstd::set_lib::set_int_range(0, g.n());
    vstd::set_lib::lemma_int_range(0, g.n());
    if g.reach_set().len() == g.n() {
        vstd::set_lib::lemma_subset_equality(g.reach_set(), all);
        assert forall|j: int| 0 <= j < g.n() implies #[trigger] g.reachable(j) by {
            assert(all.contains(j));
        }
    }
    if g.connected() {
        assert(g.reach_set() =~= all);
    }
}

/// True if no cell is walled on all four sides.
pub fn has_no_isolated_cell(grid: &MazeGrid) -> (r: bool)
    ensures
        r == grid.no_isolated(),
{
    let mut i: usize = 0;
    while i < grid.walls.len()
        invariant
            i <= grid.walls@.len(),
            forall|k: int| 0 <= k < i ==> #[trigger] grid.walls@[k] != ALL_WALLS,
        decreases grid.walls@.len() - i,
    {
        if grid.walls[i] == ALL_WALLS {
            return false;
        }
        i = i + 1;
    }
    true
}

/// True if every border cell has its outer-facing walls set.
pub fn borders_are_closed(grid: &MazeGrid) -> (r: bool)
    requires
        grid.wf(),
        grid.width == 0 <==> grid.height == 0,
    ensures
        r == grid.borders_closed(),
{
    let width = grid.width;
    let height = grid.height;
    let mut x: u16 = 0;
    while x < width
        invariant
            grid.wf(),
            width == grid.width,
            height == grid.height,
            width > 0 ==> height > 0,
            x <= width,
            forall|a: int| 0 <= a < x ==> grid.cell(#[trigger] grid.spec_index(a, 0)) & WALL_N != 0,
            forall|a: int|
                0 <= a < x ==> grid.cell(#[trigger] grid.spec_index(a, height - 1)) & WALL_S != 0,
        decreases width - x,
    {
        proof {
            lemma_coords(grid, x as int, 0);
            lemma_coords(grid, x as int, height - 1);
        }
        if grid.walls_at(x, 0) & WALL_N == 0 {
            proof {
                assert(!grid.border_closed_at(x as int, 0));
            }
            return false;
        }
        if grid.walls_at(x, height - 1) & WALL_S == 0 {
            proof {
                assert(!grid.border_closed_at(x as int, height - 1));
            }
            return false;
        }
        x = x + 1;
    }
    let mut y: u16 = 0;
    while y < height
        invariant
            grid.wf(),
            width == grid.width,
            height == grid.height,
            height > 0 ==> width > 0,
            y <= height,
            forall|a: int| 0 <= a < width ==> grid.cell(#[trigger] grid.spec_index(a, 0)) & WALL_N != 0,
            forall|a: int|
                0 <= a < width ==> grid.cell(#[trigger] grid.spec_index(a, height - 1)) & WALL_S != 0,
            forall|b: int| 0 <= b < y ==> grid.cell(#[trigger] grid.spec_index(0, b)) & WALL_W != 0,
            forall|b: int|
                0 <= b < y ==> grid.cell(#[trigger] grid.spec_index(width - 1, b)) & WALL_E != 0,
        decreases height - y,
    {
        proof {
            lemma_coords(grid, 0, y as int);
            lemma_coords(grid, width - 1, y as int);
        }
        if grid.walls_at(0, y) & WALL_W == 0 {
            proof {
                assert(!grid.border_closed_at(0, y as int));
            }
            return false;
        }
        if grid.walls_at(width - 1, y) & WALL_E == 0 {
            proof {
                assert(!grid.border_closed_at(width - 1, y as int));
            }
            return false;
        }
        y = y + 1;
    }
    proof {
        assert forall|a: int, b: int| 0 <= a < width && 0 <= b < height implies #[trigger] grid.border_closed_at(
            a,
            b,
        ) by {
            if b == 0 {
                assert(grid.cell(grid.spec_index(a, 0)) & WALL_N != 0);
            }
            if b == height - 1 {
                assert(grid.cell(grid.spec_index(a, height - 1)) & WALL_S != 0);
            }
            if a == 0 {
                assert(grid.cell(grid.spec_index(0, b)) & WALL_W != 0);
            }
            if a == width - 1 {
                assert(grid.cell(grid.spec_index(width - 1, b)) & WALL_E != 0);
            }
        }
    }
    true
}

/// True if every interior edge agrees between the two cells sharing it.
pub fn walls_are_symmetric(grid: &MazeGrid) -> (r: bool)
    requires
        grid.wf(),
    ensures
        r == grid.symmetric(),
{
    let width = grid.width;
    let height = grid.height;
    let mut y: u16 = 0;
    while y < height
        invariant
            grid.wf(),
            width == grid.width,
            height == grid.height,
            y <= height,
            forall|a: int, b: int| 0 <= a < width && 0 <= b < y ==> #[trigger] grid.symmetric_at(a, b),
        decreases height - y,
    {
        let mut x: u16 = 0;
        while x < width
            invariant
                grid.wf(),
                width == grid.width,
                height == grid.height,
                y < height,
                x <= width,
                forall|a: int, b: int| 0 <= a < width && 0 <= b < y ==> #[trigger] grid.symmetric_at(a, b),
                forall|a: int| 0 <= a < x ==> #[trigger] grid.symmetric_at(a, y as int),
            decreases width - x,
        {
            proof {
                lemma_coords(grid, x as int, y as int);
            }
            if x + 1 < width {
                proof {
                    lemma_coords(grid, x as int + 1, y as int);
                }
                let a_has_e = grid.walls_at(x, y) & WALL_E != 0;
                let b_has_w = grid.walls_at(x + 1, y) & WALL_W != 0;
                if a_has_e != b_has_w {
                    proof {
                        assert(!grid.symmetric_at(x as int, y as int));
                    }
                    return false;
                }
            }
            if y + 1 < height {
                proof {
                    lemma_coords(grid, x as int, y as int + 1);
                }
                let a_has_s = grid.walls_at(x, y) & WALL_S != 0;
                let b_has_n = grid.walls_at(x, y + 1) & WALL_N != 0;
                if a_has_s != b_has_n {
                    proof {
                        assert(!grid.symmetric_at(x as int, y as int));
                    }
                    return false;
                }
            }
            x = x + 1;
        }
        y = y + 1;
    }
    true
}

} // verus!
