//! Carving a perfect maze with a randomized recursive backtracker.

use vstd::prelude::*;
use crate::maze::{
    lemma_adjacency_closed_is_everything, lemma_cell_coords, lemma_connected_has_no_isolated,
    lemma_clearing_opens_one_side, lemma_coords, lemma_idx_injective, lemma_reach_start,
    lemma_reach_step, lemma_step_wall_shared, lemma_total_open_sides_update,
    lemma_total_open_sides_walled, open_wall, opened_walls, total_open_sides, MazeGrid, ALL_WALLS, WALL_E,
    WALL_N, WALL_S, WALL_W,
};
use crate::maze_checks::{marked, on_stack};
use crate::maze_rng::{choice_of, choose_step, MazeRng};

verus! {

/// The unvisited neighbours of `(cx, cy)` in a `w` x `h` grid, in north,
/// east, south, west order, each with the wall between the two as seen
/// from the cell and from the neighbour.
pub open spec fn neighbor_options(w: u16, h: u16, visited: Seq<bool>, cx: u16, cy: u16) -> Seq<
    (u16, u16, u8, u8),
> {
    let north = if cy > 0 && !visited[(cy - 1) * w + cx] {
        seq![(cx, (cy - 1) as u16, WALL_N, WALL_S)]
    } else {
        seq![]
    };
    let east = if cx + 1 < w && !visited[cy * w + (cx + 1)] {
        seq![((cx + 1) as u16, cy, WALL_E, WALL_W)]
    } else {
        seq![]
    };
    let south = if cy + 1 < h && !visited[(cy + 1) * w + cx] {
        seq![(cx, (cy + 1) as u16, WALL_S, WALL_N)]
    } else {
        seq![]
    };
    let west = if cx > 0 && !visited[cy * w + (cx - 1)] {
        seq![((cx - 1) as u16, cy, WALL_W, WALL_E)]
    } else {
        seq![]
    };
    north + east + south + west
}

/// The backtracker's state: the walls, which cells have been visited, the
/// stack of cells not yet left for good, and the stream position.
pub type CarveState = (Seq<u8>, Seq<bool>, Seq<(u16, u16)>, nat);

/// One step of the backtracker on a `w` x `h` grid: if the cell on top of
/// the stack has unvisited neighbours, the stream picks one, the wall
/// between them is opened on both sides, and the neighbour is visited and
/// pushed; if it has none, it is popped. An empty stack is left as it is.
pub open spec fn carve_step(seed: u64, w: u16, h: u16, st: CarveState) -> CarveState {
    if st.2.len() == 0 {
        st
    } else {
        let top = st.2.last();
        let options = neighbor_options(w, h, st.1, top.0, top.1);
        if options.len() == 0 {
            (st.0, st.1, st.2.drop_last(), st.3)
        } else {
            let pick = choice_of(seed, st.3, options.len());
            let o = options[pick.0 as int];
            (
                opened_walls(st.0, w, top, o.2, (o.0, o.1), o.3),
                st.1.update(o.1 * w + o.0, true),
                st.2.push((o.0, o.1)),
                pick.1,
            )
        }
    }
}

/// The state after `k` steps of the backtracker from `st`.
pub open spec fn carve_run(seed: u64, w: u16, h: u16, st: CarveState, k: nat) -> CarveState
    decreases k,
{
    if k == 0 {
        st
    } else {
        carve_step(seed, w, h, carve_run(seed, w, h, st, (k - 1) as nat))
    }
}

/// Where the backtracker starts: every wall up, only `(0, 0)` visited and
/// on the stack, the stream at `pos`.
pub open spec fn carve_start(w: u16, h: u16, pos: nat) -> CarveState {
    (
        Seq::new((w * h) as nat, |i: int| ALL_WALLS),
        Seq::new((w * h) as nat, |i: int| i == 0),
        seq![(0u16, 0u16)],
        pos,
    )
}

/// The backtracker run to the end on a `w` x `h` grid with the stream
/// seeded with `seed` at position `pos`. Every step visits a cell or pops
/// one, so `2 * w * h` steps are enough for the stack to run empty.
pub open spec fn carve_result(seed: u64, w: u16, h: u16, pos: nat) -> CarveState {
    carve_run(seed, w, h, carve_start(w, h, pos), (2 * w * h) as nat)
}

/// Once the stack is empty, further steps change nothing.
proof fn lemma_carve_settled(seed: u64, w: u16, h: u16, st: CarveState, k: nat, m: nat)
    requires
        k <= m,
        carve_run(seed, w, h, st, k).2.len() == 0,
    ensures
        carve_run(seed, w, h, st, m) == carve_run(seed, w, h, st, k),
    decreases m - k,
{
    if k < m {
        lemma_carve_settled(seed, w, h, st, k, (m - 1) as nat);
    }
}

/// What the backtracker keeps true: the grid stays closed, symmetric and
/// free of stray bits, the visited cells are reachable, and every visited
/// cell that has left the stack has no unvisited neighbour.
pub open spec fn carve_inv(g: &MazeGrid, visited: Seq<bool>, stack: Seq<(u16, u16)>) -> bool {
    &&& g.wf()
    &&& g.width > 0
    &&& g.height > 0
    &&& g.known_bits()
    &&& g.borders_closed()
    &&& g.symmetric()
    &&& visited.len() == g.n()
    &&& visited[0]
    &&& marked(visited).finite()
    &&& forall|k: int| 0 <= k < stack.len() ==> #[trigger] g.in_grid(stack[k])
    &&& forall|k: int| 0 <= k < stack.len() ==> visited[#[trigger] g.idx(stack[k])]
    &&& forall|i: int| 0 <= i < g.n() && #[trigger] visited[i] ==> g.reachable(i)
    &&& forall|i: int, j: int|
        0 <= i < g.n() && #[trigger] visited[i] && !on_stack(g, stack, i) && #[trigger] g.adjacent(i, j)
            ==> visited[j]
}

/// The neighbours of `(cx, cy)` not yet visited, in north, east, south,
/// west order, each with the wall bit on both sides.
fn unvisited_neighbors(grid: &MazeGrid, visited: &Vec<bool>, cx: u16, cy: u16) -> (r: Vec<
    (u16, u16, u8, u8),
>)
    requires
        grid.wf(),
        grid.in_grid((cx, cy)),
        visited@.len() == grid.n(),
    ensures
        r@ == neighbor_options(grid.width, grid.height, visited@, cx, cy),
        forall|k: int|
            0 <= k < r@.len() ==> grid.is_step((cx, cy), #[trigger] r@[k].2, (r@[k].0, r@[k].1), r@[k].3)
                && !visited@[grid.idx((r@[k].0, r@[k].1))],
        r@.len() == 0 ==> forall|j: int| #[trigger] grid.adjacent(grid.idx((cx, cy)), j) ==> visited@[j],
{
    let width = grid.width;
    let height = grid.height;
    let ghost i = grid.idx((cx, cy));
    proof {
        lemma_coords(grid, cx as int, cy as int);
    }
    let mut r: Vec<(u16, u16, u8, u8)> = Vec::new();
    if cy > 0 {
        proof {
            lemma_coords(grid, cx as int, cy as int - 1);
        }
        if !visited[grid.index(cx, cy - 1)] {
            r.push((cx, cy - 1, WALL_N, WALL_S));
        }
    }
    if cx + 1 < width {
        proof {
            lemma_coords(grid, cx as int + 1, cy as int);
        }
        if !visited[grid.index(cx + 1, cy)] {
            r.push((cx + 1, cy, WALL_E, WALL_W));
        }
    }
    if cy + 1 < height {
        proof {
            lemma_coords(grid, cx as int, cy as int + 1);
        }
        if !visited[grid.index(cx, cy + 1)] {
            r.push((cx, cy + 1, WALL_S, WALL_N));
        }
    }
    if cx > 0 {
        proof {
            lemma_coords(grid, cx as int - 1, cy as int);
        }
        if !visited[grid.index(cx - 1, cy)] {
            r.push((cx - 1, cy, WALL_W, WALL_E));
        }
    }
    proof {
        assert(r@ =~= neighbor_options(grid.width, grid.height, visited@, cx, cy));
        if r@.len() == 0 {
            assert forall|j: int| #[trigger] grid.adjacent(i, j) implies visited@[j] by {
                if j == i - grid.w() && i >= grid.w() {
                    lemma_coords(grid, cx as int, cy as int - 1);
                } else if j == i + grid.w() {
                    lemma_coords(grid, cx as int, cy as int + 1);
                } else if j == i + 1 && i % grid.w() + 1 < grid.w() {
                    lemma_coords(grid, cx as int + 1, cy as int);
                } else {
                    lemma_coords(grid, cx as int - 1, cy as int);
                }
            }
        }
    }
    r
}

/// Carves a perfect maze (one path between any two cells) of
/// `width` x `height` cells, starting from `(0, 0)` and choosing each next
/// cell with `rng`.
pub fn carve_spanning_tree(width: u16, height: u16, rng: &mut MazeRng) -> (grid: MazeGrid)
    requires
        width > 0,
        height > 0,
    ensures
        grid.walls@ == carve_result(old(rng).seed(), width, height, old(rng).pos()).0,
        final(rng).seed() == old(rng).seed(),
        final(rng).pos() == carve_result(old(rng).seed(), width, height, old(rng).pos()).3,
        grid.width == width,
        grid.height == height,
        grid.wf(),
        grid.known_bits(),
        grid.borders_closed(),
        grid.symmetric(),
        grid.connected(),
        grid.n() > 1 ==> grid.valid(),
        total_open_sides(grid.walls@) == 2 * (grid.n() - 1),
{
    proof {
        assert(width * height <= 65535 * 65535) by (nonlinear_arith)
            requires
                width <= 65535,
                height <= 65535,
        ;
    }
    let cell_count = width as usize * height as usize;
    let mut grid = MazeGrid { width, height, walls: vec![ALL_WALLS; cell_count] };
    let mut visited: Vec<bool> = vec![false; cell_count];
    proof {
        crate::maze::lemma_cell_count_fits(&grid);
        assert(grid.n() > 0) by (nonlinear_arith)
            requires
                width > 0,
                height > 0,
                grid.n() == width * height,
        ;
        lemma_reach_start(&grid);
        assert(ALL_WALLS & !ALL_WALLS == 0) by (bit_vector);
        assert(ALL_WALLS & WALL_N != 0 && ALL_WALLS & WALL_E != 0 && ALL_WALLS & WALL_S != 0
            && ALL_WALLS & WALL_W != 0) by (bit_vector);
        assert forall|x: int, y: int| 0 <= x < width && 0 <= y < height implies #[trigger] grid.border_closed_at(
            x,
            y,
        ) by {
            lemma_coords(&grid, x, y);
        }
        assert forall|x: int, y: int| 0 <= x < width && 0 <= y < height implies #[trigger] grid.symmetric_at(
            x,
            y,
        ) by {
            lemma_coords(&grid, x, y);
            if x + 1 < width {
                lemma_coords(&grid, x + 1, y);
            }
            if y + 1 < height {
                lemma_coords(&grid, x, y + 1);
            }
        }
        assert forall|i: int| 0 <= i < grid.walls@.len() implies #[trigger] grid.walls@[i] & !ALL_WALLS == 0 by {
            assert(grid.walls@[i] == ALL_WALLS);
        }
        assert(marked(visited@) =~= Set::empty());
        lemma_total_open_sides_walled(grid.walls@);
    }
    visited.set(0, true);
    let mut stack: Vec<(u16, u16)> = Vec::new();
    stack.push((0, 0));
    let ghost mut nvis: int = 1;
    let ghost seed = rng.seed();
    let ghost start = carve_start(width, height, rng.pos());
    let ghost mut steps: int = 0;
    proof {
        assert(marked(visited@) =~= Set::empty().insert(0));
        assert(stack@[0] == (0u16, 0u16));
        assert(grid.idx(stack@[0]) == 0);
        assert(on_stack(&grid, stack@, 0));
        assert forall|i: int| 0 <= i < grid.n() && #[trigger] visited@[i] implies grid.reachable(i) by {
            assert(i == 0);
        }
        assert forall|i: int, j: int|
            0 <= i < grid.n() && #[trigger] visited@[i] && !on_stack(&grid, stack@, i)
                && #[trigger] grid.adjacent(i, j) implies visited@[j] by {
            assert(i == 0);
        }
    }
    assert(carve_run(seed, width, height, start, 0) == (grid.walls@, visited@, stack@, rng.pos())) by {
        assert(grid.walls@ =~= start.0);
        assert(visited@ =~= start.1);
        assert(stack@ =~= start.2);
    }
    while stack.len() > 0
        invariant
            carve_inv(&grid, visited@, stack@),
            grid.width == width,
            grid.height == height,
            nvis == marked(visited@).len(),
            nvis <= grid.n(),
            forall|a: int| 0 <= a < grid.n() && !visited@[a] ==> #[trigger] grid.walls@[a] == ALL_WALLS,
            total_open_sides(grid.walls@) == 2 * (nvis - 1),
            rng.seed() == seed,
            carve_run(seed, width, height, start, steps as nat) == (grid.walls@, visited@, stack@, rng.pos()),
            0 <= steps,
            steps + stack@.len() + 1 == 2 * nvis,
        decreases grid.n() - nvis, stack@.len(),
    {
        let top = stack.len() - 1;
        let (cx, cy) = stack[top];
        proof {
            assert(grid.in_grid(stack@[top as int]));
            lemma_coords(&grid, cx as int, cy as int);
        }
        let ghost i = grid.idx((cx, cy));
        let options = unvisited_neighbors(&grid, &visited, cx, cy);
        let ghost before: CarveState = (grid.walls@, visited@, stack@, rng.pos());
        match choose_step(&options, rng) {
            Some((nx, ny, cur_bit, nb_bit)) => {
                let ghost g0 = grid;
                let ghost old_visited = visited@;
                let ghost old_stack = stack@;
                proof {
                    let k = choice_of(seed, before.3, options@.len()).0 as int;
                    assert(options@[k] == (nx, ny, cur_bit, nb_bit));
                    assert(grid.is_step((cx, cy), options@[k].2, (options@[k].0, options@[k].1), options@[k].3));
                    lemma_coords(&grid, nx as int, ny as int);
                    let jn = grid.idx((nx, ny));
                    assert(grid.walls@[jn] == ALL_WALLS);
                    lemma_step_wall_shared(&grid, (cx, cy), cur_bit, (nx, ny), nb_bit);
                    assert(ALL_WALLS & WALL_N != 0 && ALL_WALLS & WALL_E != 0 && ALL_WALLS & WALL_S != 0
                        && ALL_WALLS & WALL_W != 0) by (bit_vector);
                    if jn == i {
                        lemma_idx_injective(&grid, (cx, cy), (nx, ny));
                    }
                    assert(visited@[grid.idx(stack@[top as int])]);
                }
                open_wall(&mut grid, (cx, cy), cur_bit, (nx, ny), nb_bit);
                proof {
                    let jn = g0.idx((nx, ny));
                    let w0 = g0.walls@;
                    let w1 = w0.update(i, w0[i] & !cur_bit);
                    lemma_total_open_sides_update(w0, i, w0[i] & !cur_bit);
                    lemma_total_open_sides_update(w1, jn, w1[jn] & !nb_bit);
                    lemma_clearing_opens_one_side(w0[i], cur_bit);
                    lemma_clearing_opens_one_side(w0[jn], nb_bit);
                    assert(w1[jn] == w0[jn]);
                }
                let j = grid.index(nx, ny);
                proof {
                    assert(!visited@[j as int]);
                    lemma_marked_add(visited@, j as int);
                    lemma_reach_step(&grid, i, j as int);
                }
                visited.set(j, true);
                stack.push((nx, ny));
                proof {
                    nvis = nvis + 1;
                    assert forall|a: int| 0 <= a < grid.n() && !visited@[a] implies #[trigger] grid.walls@[a]
                        == ALL_WALLS by {
                        assert(a != j);
                        assert(!old_visited[a]);
                        assert(a != i);
                        assert(g0.walls@[a] == ALL_WALLS);
                    }
                    assert(on_stack(&grid, stack@, j as int)) by {
                        assert(grid.idx(stack@[stack@.len() - 1]) == j);
                    }
                    assert forall|a: int| #[trigger] on_stack(&g0, old_stack, a) implies on_stack(
                        &grid,
                        stack@,
                        a,
                    ) by {
                        let k = choose|k: int| 0 <= k < old_stack.len() && #[trigger] g0.idx(old_stack[k]) == a;
                        assert(grid.idx(stack@[k]) == a);
                    }
                    assert forall|k: int| 0 <= k < stack@.len() implies #[trigger] grid.in_grid(stack@[k]) by {
                        if k < old_stack.len() {
                            assert(g0.in_grid(old_stack[k]));
                        }
                    }
                    assert forall|k: int| 0 <= k < stack@.len() implies visited@[#[trigger] grid.idx(stack@[k])] by {
                        if k < old_stack.len() {
                            assert(g0.in_grid(old_stack[k]));
                            lemma_coords(&grid, old_stack[k].0 as int, old_stack[k].1 as int);
                            assert(old_visited[g0.idx(old_stack[k])]);
                        }
                    }
                    assert forall|a: int| 0 <= a < grid.n() && #[trigger] visited@[a] implies grid.reachable(a) by {
                        if a != j {
                            assert(old_visited[a]);
                            assert(g0.reachable(a));
                        }
                    }
                    assert forall|a: int, b: int|
                        0 <= a < grid.n() && #[trigger] visited@[a] && !on_stack(&grid, stack@, a)
                            && #[trigger] grid.adjacent(a, b) implies visited@[b] by {
                        assert(a != j);
                        assert(old_visited[a]);
                        if on_stack(&g0, old_stack, a) {
                            assert(on_stack(&grid, old_stack, a));
                        }
                        assert(g0.adjacent(a, b));
                        assert(old_visited[b]);
                    }
                    assert(before.2.last() == (cx, cy));
                    assert(carve_step(seed, width, height, before) == (grid.walls@, visited@, stack@, rng.pos()));
                    steps = steps + 1;
                }
            },
            None => {
                let ghost old_stack = stack@;
                stack.pop();
                proof {
                    assert(before.2.last() == (cx, cy));
                    assert(carve_step(seed, width, height, before) == (grid.walls@, visited@, stack@, rng.pos()));
                    steps = steps + 1;
                    assert forall|a: int| #[trigger] on_stack(&grid, old_stack, a) && a != i implies on_stack(
                        &grid,
                        stack@,
                        a,
                    ) by {
                        let k = choose|k: int| 0 <= k < old_stack.len() && #[trigger] grid.idx(old_stack[k]) == a;
                        assert(k < old_stack.len() - 1);
                        assert(grid.idx(stack@[k]) == a);
                    }
                    assert forall|k: int| 0 <= k < stack@.len() implies #[trigger] grid.in_grid(stack@[k]) by {
                        assert(grid.in_grid(old_stack[k]));
                    }
                    assert forall|k: int| 0 <= k < stack@.len() implies visited@[#[trigger] grid.idx(stack@[k])] by {
                        assert(grid.in_grid(old_stack[k]));
                        lemma_coords(&grid, old_stack[k].0 as int, old_stack[k].1 as int);
                        assert(visited@[grid.idx(old_stack[k])]);
                    }
                    assert forall|a: int, b: int|
                        0 <= a < grid.n() && #[trigger] visited@[a] && !on_stack(&grid, stack@, a)
                            && #[trigger] grid.adjacent(a, b) implies visited@[b] by {
                        if a != i {
                            assert(!on_stack(&grid, old_stack, a));
                        }
                    }
                }
            },
        }
        proof {
            lemma_marked_bound(visited@);
        }
    }
    proof {
        assert(steps <= 2 * width * height) by (nonlinear_arith)
            requires
                steps + 1 == 2 * nvis,
                nvis <= width * height,
        ;
        lemma_carve_settled(seed, width, height, start, steps as nat, (2 * width * height) as nat);
        assert forall|a: int, b: int| #[trigger] marked(visited@).contains(a) && #[trigger] grid.adjacent(a, b)
            implies marked(visited@).contains(b) by {
            assert(visited@[a]);
            assert(!on_stack(&grid, stack@, a));
        }
        assert(marked(visited@).contains(0));
        assert forall|j: int| 0 <= j < grid.n() implies #[trigger] grid.reachable(j) by {
            lemma_cell_coords(&grid, j);
            lemma_adjacency_closed_is_everything(&grid, marked(visited@), j % grid.w(), j / grid.w());
            assert(visited@[j]);
        }
        if grid.n() > 1 {
            lemma_connected_has_no_isolated(&grid);
        }
        assert(marked(visited@) =~= vstd::set_lib::set_int_range(0, grid.n())) by {
            assert forall|j: int| 0 <= j < grid.n() implies #[trigger] visited@[j] by {
                lemma_cell_coords(&grid, j);
                lemma_adjacency_closed_is_everything(&grid, marked(visited@), j % grid.w(), j / grid.w());
            }
        }
        vstd::set_lib::lemma_int_range(0, grid.n());
    }
    grid
}

proof fn lemma_marked_add(seen: Seq<bool>, j: int)
    requires
        0 <= j < seen.len(),
        !seen[j],
        marked(seen).finite(),
    ensures
        marked(seen.update(j, true)) == marked(seen).insert(j),
        marked(seen.update(j, true)).finite(),
        marked(seen.update(j, true)).len() == marked(seen).len() + 1,
{
    assert(marked(seen.update(j, true)) =~= marked(seen).insert(j));
}

proof fn lemma_marked_bound(seen: Seq<bool>)
    ensures
        marked(seen).len() <= seen.len(),
        marked(seen).finite(),
{
    vstd::set_lib::lemma_int_range(0, seen.len() as int);
    vstd::set_lib::lemma_len_subset(marked(seen), vstd::set_lib::set_int_range(0, seen.len() as int));
}

} // verus!
