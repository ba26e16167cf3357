//! The maze grid: one wall bitmask per cell, row major.

use vstd::prelude::*;

verus! {

pub const WALL_N: u8 = 1;

pub const WALL_E: u8 = 2;

pub const WALL_S: u8 = 4;

pub const WALL_W: u8 = 8;

/// All four wall bits.
pub const ALL_WALLS: u8 = 15;

/// Bump on any change to the maze generator's output for a given spec.
pub const GENERATOR_VERSION: u16 = 1;

pub const GENERATOR_NAME: &'static str = "recursive-backtracker+braid";

/// What travels on the wire for a generated maze: the receiver regenerates
/// the grid from it.
#[derive(Debug, Clone, Copy, PartialEq, Eq, Structural)]
pub struct MazeSpec {
    pub seed: u64,
    pub width: u16,
    pub height: u16,
    /// Probability, per dead-end cell, of opening it into a loop, kept as
    /// the bit pattern of its 32-bit IEEE float (what `f32::to_bits`
    /// gives). 0.0 is a perfect maze (hardest); near 1.0 opens most dead
    /// ends.
    pub braid_factor_bits: u32,
    pub generator_version: u16,
}

/// Where a maze's grid came from: regenerated from a seed, or carried whole
/// because nothing could reproduce it.
#[derive(Debug, Clone, PartialEq, Eq)]
pub enum MazeSource {
    Generated(MazeSpec),
    Custom(MazeGrid),
}

/// What client and server hold in memory for the current level.
#[derive(Debug, Clone, PartialEq, Eq)]
pub struct MazeData {
    pub grid: MazeGrid,
    pub source: MazeSource,
    pub generator_name: String,
}

/// The grid: one `u8` bitmask per cell (`WALL_N`/`E`/`S`/`W`), row major.
/// Every interior wall is stored on both cells that share it.
#[derive(Debug, PartialEq, Eq)]
pub struct MazeGrid {
    pub width: u16,
    pub height: u16,
    pub walls: Vec<u8>,
}

impl View for MazeGrid {
    type V = (u16, u16, Seq<u8>);

    open spec fn view(&self) -> (u16, u16, Seq<u8>) {
        (self.width, self.height, self.walls@)
    }
}

impl Clone for MazeGrid {
    fn clone(&self) -> (r: Self)
        ensures
            r@ == self@,
    {
        let walls = self.walls.clone();
        proof {
            assert(walls@ =~= self.walls@);
        }
        MazeGrid { width: self.width, height: self.height, walls }
    }
}

impl MazeGrid {
    /// Number of cells the dimensions call for.
    pub open spec fn n(&self) -> int {
        self.width * self.height
    }

    /// The wall vector has one entry per cell.
    pub open spec fn wf(&self) -> bool {
        self.walls@.len() == self.n()
    }

    pub open spec fn w(&self) -> int {
        self.width as int
    }

    pub open spec fn spec_index(&self, x: int, y: int) -> int {
        y * self.width + x
    }

    pub open spec fn cell(&self, i: int) -> u8 {
        self.walls@[i]
    }

    /// Index of the cell at coordinates `c`.
    pub open spec fn idx(&self, c: (u16, u16)) -> int {
        self.spec_index(c.0 as int, c.1 as int)
    }

    /// `c` names a cell inside the grid.
    pub open spec fn in_grid(&self, c: (u16, u16)) -> bool {
        c.0 < self.width && c.1 < self.height
    }

    /// A one-way opening from cell `i` into its neighbour `j`: `i` has no
    /// wall on the side facing `j`, and `j` lies inside the grid.
    pub open spec fn passage(&self, i: int, j: int) -> bool {
        let w = self.w();
        &&& 0 <= i < self.n()
        &&& 0 <= j < self.n()
        &&& {
            ||| (j == i - w && i >= w && self.cell(i) & WALL_N == 0)
            ||| (j == i + w && self.cell(i) & WALL_S == 0)
            ||| (j == i + 1 && i % w + 1 < w && self.cell(i) & WALL_E == 0)
            ||| (j == i - 1 && i % w > 0 && self.cell(i) & WALL_W == 0)
        }
    }

    /// `p` walks through the grid along passages.
    pub open spec fn is_path(&self, p: Seq<int>) -> bool {
        &&& p.len() >= 1
        &&& 0 <= p[0] < self.n()
        &&& forall|k: int| 0 <= k < p.len() - 1 ==> #[trigger] self.passage(p[k], p[k + 1])
    }

    /// Cell `j` can be reached from the first cell, `(0, 0)`.
    pub open spec fn reachable(&self, j: int) -> bool {
        exists|p: Seq<int>| #[trigger] self.is_path(p) && p[0] == 0 && p.last() == j
    }

    /// Cell `j` can be reached from cell `i` along passages.
    pub open spec fn leads(&self, i: int, j: int) -> bool {
        exists|p: Seq<int>| #[trigger] self.is_path(p) && p[0] == i && p.last() == j
    }

    /// The cells reachable from `(0, 0)`.
    pub open spec fn reach_set(&self) -> Set<int> {
        Set::new(|j: int| 0 <= j < self.n() && self.reachable(j))
    }

    /// Every cell is reachable from every other one (through `(0, 0)`).
    pub open spec fn connected(&self) -> bool {
        forall|j: int| 0 <= j < self.n() ==> #[trigger] self.reachable(j)
    }

    /// Border cells keep their outward-facing walls at `(x, y)`.
    pub open spec fn border_closed_at(&self, x: int, y: int) -> bool {
        let c = self.cell(self.spec_index(x, y));
        &&& y == 0 ==> c & WALL_N != 0
        &&& y == self.height - 1 ==> c & WALL_S != 0
        &&& x == 0 ==> c & WALL_W != 0
        &&& x == self.width - 1 ==> c & WALL_E != 0
    }

    /// Players cannot walk off the grid.
    pub open spec fn borders_closed(&self) -> bool {
        forall|x: int, y: int|
            0 <= x < self.width && 0 <= y < self.height ==> #[trigger] self.border_closed_at(x, y)
    }

    /// The two cells sharing the east and the south edge of `(x, y)` agree
    /// about it.
    pub open spec fn symmetric_at(&self, x: int, y: int) -> bool {
        let c = self.cell(self.spec_index(x, y));
        &&& x + 1 < self.width ==> ((c & WALL_E != 0) == (self.cell(self.spec_index(x + 1, y)) & WALL_W
            != 0))
        &&& y + 1 < self.height ==> ((c & WALL_S != 0) == (self.cell(self.spec_index(x, y + 1))
            & WALL_N != 0))
    }

    /// Every interior edge is stored the same way on both of its cells.
    pub open spec fn symmetric(&self) -> bool {
        forall|x: int, y: int|
            0 <= x < self.width && 0 <= y < self.height ==> #[trigger] self.symmetric_at(x, y)
    }

    /// No cell is walled in on all four sides.
    pub open spec fn no_isolated(&self) -> bool {
        forall|i: int| 0 <= i < self.walls@.len() ==> #[trigger] self.walls@[i] != ALL_WALLS
    }

    /// Every cell uses only the four wall bits.
    pub open spec fn known_bits(&self) -> bool {
        forall|i: int| 0 <= i < self.walls@.len() ==> #[trigger] self.walls@[i] & !ALL_WALLS == 0
    }

    /// Everything a playable maze must satisfy.
    pub open spec fn valid(&self) -> bool {
        &&& self.wf()
        &&& self.width > 0
        &&& self.height > 0
        &&& self.known_bits()
        &&& self.borders_closed()
        &&& self.symmetric()
        &&& self.no_isolated()
        &&& self.connected()
    }

    /// `n` is the neighbour of `c` across the wall `bit`, and `nb_bit` is the
    /// same wall seen from `n`.
    pub open spec fn is_step(&self, c: (u16, u16), bit: u8, n: (u16, u16), nb_bit: u8) -> bool {
        &&& self.in_grid(c)
        &&& self.in_grid(n)
        &&& {
            ||| (bit == WALL_N && nb_bit == WALL_S && n.0 == c.0 && n.1 + 1 == c.1)
            ||| (bit == WALL_E && nb_bit == WALL_W && n.0 == c.0 + 1 && n.1 == c.1)
            ||| (bit == WALL_S && nb_bit == WALL_N && n.0 == c.0 && n.1 == c.1 + 1)
            ||| (bit == WALL_W && nb_bit == WALL_E && n.0 + 1 == c.0 && n.1 == c.1)
        }
    }

    /// Cells `i` and `j` share an edge (walls or not).
    pub open spec fn adjacent(&self, i: int, j: int) -> bool {
        let w = self.w();
        &&& 0 <= i < self.n()
        &&& 0 <= j < self.n()
        &&& {
            ||| (j == i - w && i >= w)
            ||| j == i + w
            ||| (j == i + 1 && i % w + 1 < w)
            ||| (j == i - 1 && i % w > 0)
        }
    }

    pub fn index(&self, x: u16, y: u16) -> (r: usize)
        ensures
            r == self.spec_index(x as int, y as int),
    {
        proof {
            lemma_index_fits(x as int, y as int, self.width as int);
        }
        y as usize * self.width as usize + x as usize
    }

    pub fn walls_at(&self, x: u16, y: u16) -> (r: u8)
        requires
            self.spec_index(x as int, y as int) < self.walls@.len(),
        ensures
            r == self.walls@[self.spec_index(x as int, y as int)],
    {
        self.walls[self.index(x, y)]
    }

    pub fn cell_count(&self) -> (r: usize)
        ensures
            r == self.n(),
    {
        proof {
            lemma_index_fits(0, self.width as int, self.height as int);
        }
        self.width as usize * self.height as usize
    }
}

/// Coordinates and indices agree: moving one cell in a direction moves the
/// index by one row or one column.
pub(crate) proof fn lemma_coords(g: &MazeGrid, x: int, y: int)
    requires
        0 <= x < g.width,
        0 <= y < g.height,
    ensures
        0 <= g.spec_index(x, y) < g.n(),
        g.spec_index(x, y) % g.w() == x,
        g.spec_index(x, y) / g.w() == y,
        g.spec_index(x, y) >= g.w() <==> y >= 1,
        g.spec_index(x, y) + g.w() < g.n() <==> y + 1 < g.height,
        g.spec_index(x, y - 1) == g.spec_index(x, y) - g.w(),
        g.spec_index(x, y + 1) == g.spec_index(x, y) + g.w(),
        g.spec_index(x + 1, y) == g.spec_index(x, y) + 1,
        g.spec_index(x - 1, y) == g.spec_index(x, y) - 1,
{
    let w = g.w();
    let h = g.height as int;
    let i = y * w + x;
    vstd::arithmetic::div_mod::lemma_fundamental_div_mod_converse(i, w, y, x);
    assert(y * w + x < h * w) by (nonlinear_arith)
        requires
            0 <= x < w,
            0 <= y < h,
    ;
    assert(h * w == w * h) by (nonlinear_arith);
    assert(0 <= y * w) by (nonlinear_arith)
        requires
            0 <= y,
            0 <= w,
    ;
    assert((y - 1) * w == y * w - w) by (nonlinear_arith);
    assert((y + 1) * w == y * w + w) by (nonlinear_arith);
    assert(y >= 1 ==> y * w >= w) by (nonlinear_arith)
        requires
            0 <= w,
    ;
    assert(y < 1 ==> y * w + x < w) by (nonlinear_arith)
        requires
            0 <= y,
            0 <= x < w,
    ;
    assert(y + 1 < h ==> y * w + x + w < h * w) by (nonlinear_arith)
        requires
            0 <= x < w,
            0 <= y,
    ;
    assert(y + 1 >= h ==> y * w + x + w >= h * w) by (nonlinear_arith)
        requires
            0 <= x,
            0 <= w,
            0 <= y < h,
    ;
}

/// Every index names the cell at column `i % w`, row `i / w`.
pub(crate) proof fn lemma_cell_coords(g: &MazeGrid, i: int)
    requires
        0 <= i < g.n(),
    ensures
        0 <= i % g.w() < g.width,
        0 <= i / g.w() < g.height,
        g.spec_index(i % g.w(), i / g.w()) == i,
{
    let w = g.w();
    assert(w > 0) by (nonlinear_arith)
        requires
            0 <= i < w * g.height,
            g.height >= 0,
    ;
    let x = i % w;
    let y = i / w;
    vstd::arithmetic::div_mod::lemma_fundamental_div_mod(i, w);
    assert(0 <= y < g.height) by (nonlinear_arith)
        requires
            i == w * y + x,
            0 <= x < w,
            0 <= i < w * g.height,
    ;
    assert(g.spec_index(x, y) == i) by (nonlinear_arith)
        requires
            i == w * y + x,
            g.spec_index(x, y) == y * w + x,
    ;
}

/// In a connected grid with symmetric walls and more than one cell, every
/// cell has at least one opening.
pub proof fn lemma_connected_has_no_isolated(g: &MazeGrid)
    requires
        g.wf(),
        g.connected(),
        g.symmetric(),
        g.n() > 1,
    ensures
        g.no_isolated(),
{
    assert forall|i: int| 0 <= i < g.walls@.len() implies #[trigger] g.walls@[i] != ALL_WALLS by {
        if i == 0 {
            assert(g.reachable(1));
            let p = choose|p: Seq<int>| #[trigger] g.is_path(p) && p[0] == 0 && p.last() == 1;
            assert(p.len() > 1);
            assert(g.passage(p[0], p[0int + 1]));
            assert(g.cell(0) & WALL_N == 0 || g.cell(0) & WALL_E == 0 || g.cell(0) & WALL_S == 0
                || g.cell(0) & WALL_W == 0);
        } else {
            assert(g.reachable(i));
            let p = choose|p: Seq<int>| #[trigger] g.is_path(p) && p[0] == 0 && p.last() == i;
            assert(p.len() > 1);
            let a = p[p.len() - 2];
            assert(g.passage(a, p[p.len() - 2 + 1]));
            assert(g.passage(a, i));
            lemma_cell_coords(g, a);
            lemma_cell_coords(g, i);
            let ax = a % g.w();
            let ay = a / g.w();
            let ix = i % g.w();
            let iy = i / g.w();
            lemma_coords(g, ax, ay);
            lemma_coords(g, ix, iy);
            assert(g.symmetric_at(ax, ay));
            assert(g.symmetric_at(ix, iy));
            if i == a - g.w() && a >= g.w() && g.cell(a) & WALL_N == 0 {
                lemma_coords(g, ax, ay - 1);
                assert(ix == ax && iy + 1 == ay);
                assert(g.cell(i) & WALL_S == 0);
            } else if i == a + g.w() && g.cell(a) & WALL_S == 0 {
                lemma_coords(g, ax, ay + 1);
                assert(ix == ax && iy == ay + 1);
                assert(g.cell(i) & WALL_N == 0);
            } else if i == a + 1 && a % g.w() + 1 < g.w() && g.cell(a) & WALL_E == 0 {
                lemma_coords(g, ax + 1, ay);
                assert(ix == ax + 1 && iy == ay);
                assert(g.cell(i) & WALL_W == 0);
            } else {
                assert(i == a - 1 && a % g.w() > 0);
                lemma_coords(g, ax - 1, ay);
                assert(ix + 1 == ax && iy == ay);
                assert(g.cell(i) & WALL_E == 0);
            }
            let c = g.cell(i);
            assert(c & WALL_N == 0 || c & WALL_E == 0 || c & WALL_S == 0 || c & WALL_W == 0);
        }
        let c = g.walls@[i];
        assert(c == 15 ==> c & 1 != 0 && c & 2 != 0 && c & 4 != 0 && c & 8 != 0) by (bit_vector);
    }
}

/// Two cells inside the grid with the same index are the same cell.
pub(crate) proof fn lemma_idx_injective(g: &MazeGrid, a: (u16, u16), b: (u16, u16))
    requires
        g.in_grid(a),
        g.in_grid(b),
        g.idx(a) == g.idx(b),
    ensures
        a == b,
{
    lemma_coords(g, a.0 as int, a.1 as int);
    lemma_coords(g, b.0 as int, b.1 as int);
}

/// Clearing one wall bit leaves the other bits of a cell alone.
pub(crate) proof fn lemma_clear_bit(v: u8, b: u8)
    requires
        b == WALL_N || b == WALL_E || b == WALL_S || b == WALL_W,
    ensures
        (v & !b) & b == 0,
        b != WALL_N ==> (v & !b) & WALL_N == v & WALL_N,
        b != WALL_E ==> (v & !b) & WALL_E == v & WALL_E,
        b != WALL_S ==> (v & !b) & WALL_S == v & WALL_S,
        b != WALL_W ==> (v & !b) & WALL_W == v & WALL_W,
        v & WALL_N == 0 ==> (v & !b) & WALL_N == 0,
        v & WALL_E == 0 ==> (v & !b) & WALL_E == 0,
        v & WALL_S == 0 ==> (v & !b) & WALL_S == 0,
        v & WALL_W == 0 ==> (v & !b) & WALL_W == 0,
        v & !ALL_WALLS == 0 ==> (v & !b) & !ALL_WALLS == 0,
        v & !b != ALL_WALLS,
{
    assert((v & !b) & b == 0) by (bit_vector)
        requires
            b == 1 || b == 2 || b == 4 || b == 8,
    ;
    assert(b != 1 ==> (v & !b) & 1 == v & 1) by (bit_vector)
        requires
            b == 1 || b == 2 || b == 4 || b == 8,
    ;
    assert(b != 2 ==> (v & !b) & 2 == v & 2) by (bit_vector)
        requires
            b == 1 || b == 2 || b == 4 || b == 8,
    ;
    assert(b != 4 ==> (v & !b) & 4 == v & 4) by (bit_vector)
        requires
            b == 1 || b == 2 || b == 4 || b == 8,
    ;
    assert(b != 8 ==> (v & !b) & 8 == v & 8) by (bit_vector)
        requires
            b == 1 || b == 2 || b == 4 || b == 8,
    ;
    assert(v & !15u8 == 0 ==> (v & !b) & !15u8 == 0) by (bit_vector);
    assert((v & !b) != 15) by (bit_vector)
        requires
            b == 1 || b == 2 || b == 4 || b == 8,
    ;
}

/// How many of a cell's four sides are open.
pub open spec fn open_sides(c: u8) -> int {
    (if c & WALL_N == 0 { 1int } else { 0 }) + (if c & WALL_E == 0 { 1int } else { 0 }) + (if c & WALL_S
        == 0 {
        1int
    } else {
        0
    }) + (if c & WALL_W == 0 { 1int } else { 0 })
}

/// The open sides of all cells together. With closed borders and
/// symmetric walls, every passage is counted twice, once from each end.
pub open spec fn total_open_sides(walls: Seq<u8>) -> int
    decreases walls.len(),
{
    if walls.len() == 0 {
        0
    } else {
        total_open_sides(walls.drop_last()) + open_sides(walls.last())
    }
}

/// Changing one cell changes the total by that cell's difference.
pub(crate) proof fn lemma_total_open_sides_update(walls: Seq<u8>, i: int, v: u8)
    requires
        0 <= i < walls.len(),
    ensures
        total_open_sides(walls.update(i, v)) == total_open_sides(walls) - open_sides(walls[i]) + open_sides(v),
    decreases walls.len(),
{
    let u = walls.update(i, v);
    if i == walls.len() - 1 {
        assert(u.drop_last() =~= walls.drop_last());
    } else {
        lemma_total_open_sides_update(walls.drop_last(), i, v);
        assert(u.drop_last() =~= walls.drop_last().update(i, v));
    }
}

/// Closing every side of every cell leaves nothing open.
pub(crate) proof fn lemma_total_open_sides_walled(walls: Seq<u8>)
    requires
        forall|i: int| 0 <= i < walls.len() ==> #[trigger] walls[i] == ALL_WALLS,
    ensures
        total_open_sides(walls) == 0,
    decreases walls.len(),
{
    if walls.len() > 0 {
        lemma_total_open_sides_walled(walls.drop_last());
        assert(walls.last() == ALL_WALLS);
        assert(ALL_WALLS & WALL_N != 0 && ALL_WALLS & WALL_E != 0 && ALL_WALLS & WALL_S != 0 && ALL_WALLS
            & WALL_W != 0) by (bit_vector);
    }
}

/// Clearing a wall that is there opens exactly one more side.
pub(crate) proof fn lemma_clearing_opens_one_side(c: u8, bit: u8)
    requires
        bit == WALL_N || bit == WALL_E || bit == WALL_S || bit == WALL_W,
        c & bit != 0,
    ensures
        open_sides(c & !bit) == open_sides(c) + 1,
{
    let d = c & !bit;
    assert(bit == 1u8 ==> (d & 1u8 == 0 && d & 2u8 == c & 2u8 && d & 4u8 == c & 4u8 && d & 8u8 == c & 8u8)) by (bit_vector)
        requires
            d == c & !bit,
    ;
    assert(bit == 2u8 ==> (d & 2u8 == 0 && d & 1u8 == c & 1u8 && d & 4u8 == c & 4u8 && d & 8u8 == c & 8u8)) by (bit_vector)
        requires
            d == c & !bit,
    ;
    assert(bit == 4u8 ==> (d & 4u8 == 0 && d & 1u8 == c & 1u8 && d & 2u8 == c & 2u8 && d & 8u8 == c & 8u8)) by (bit_vector)
        requires
            d == c & !bit,
    ;
    assert(bit == 8u8 ==> (d & 8u8 == 0 && d & 1u8 == c & 1u8 && d & 2u8 == c & 2u8 && d & 4u8 == c & 4u8)) by (bit_vector)
        requires
            d == c & !bit,
    ;
}

/// The two cells of a step see the wall between them the same way.
pub(crate) proof fn lemma_step_wall_shared(g: &MazeGrid, c: (u16, u16), bit: u8, n: (u16, u16), nb_bit: u8)
    requires
        g.wf(),
        g.symmetric(),
        g.is_step(c, bit, n, nb_bit),
    ensures
        (g.cell(g.idx(c)) & bit != 0) == (g.cell(g.idx(n)) & nb_bit != 0),
{
    if bit == WALL_N {
        assert(g.symmetric_at(n.0 as int, n.1 as int));
    } else if bit == WALL_E {
        assert(g.symmetric_at(c.0 as int, c.1 as int));
    } else if bit == WALL_S {
        assert(g.symmetric_at(c.0 as int, c.1 as int));
    } else {
        assert(g.symmetric_at(n.0 as int, n.1 as int));
    }
}

/// After clearing `bit` on cell `ic` and `nb_bit` on cell `jn`, each cell's
/// wall bits are the old ones minus exactly the cleared ones.
pub open spec fn cleared(old: Seq<u8>, new: Seq<u8>, ic: int, bit: u8, jn: int, nb_bit: u8) -> bool {
    &&& new.len() == old.len()
    &&& forall|i: int, d: u8|
        0 <= i < old.len() && (d == WALL_N || d == WALL_E || d == WALL_S || d == WALL_W) ==> ((#[trigger] (
        new[i] & d)) != 0 <==> (old[i] & d != 0 && !(i == ic && d == bit) && !(i == jn && d
            == nb_bit)))
    &&& forall|i: int|
        0 <= i < old.len() && i != ic && i != jn ==> #[trigger] new[i] == old[i]
}

/// The walls of a `w`-wide grid once the wall `bit` of cell `c` and the
/// wall `nb_bit` of cell `n` are removed.
pub open spec fn opened_walls(walls: Seq<u8>, w: u16, c: (u16, u16), bit: u8, n: (u16, u16), nb_bit: u8) -> Seq<u8> {
    let i = c.1 * w + c.0;
    let j = n.1 * w + n.0;
    walls.update(i, walls[i] & !bit).update(j, walls[j] & !nb_bit)
}

/// Removes the wall between cell `c` and its neighbour `n` on both cells.
/// Opening a wall keeps every maze invariant and only ever adds passages.
pub fn open_wall(grid: &mut MazeGrid, c: (u16, u16), bit: u8, n: (u16, u16), nb_bit: u8)
    requires
        old(grid).wf(),
        old(grid).is_step(c, bit, n, nb_bit),
    ensures
        final(grid).width == old(grid).width,
        final(grid).height == old(grid).height,
        final(grid).walls@ == old(grid).walls@.update(old(grid).idx(c), old(grid).cell(old(grid).idx(c)) & !bit).update(
            old(grid).idx(n),
            old(grid).cell(old(grid).idx(n)) & !nb_bit,
        ),
        final(grid).walls@ == opened_walls(old(grid).walls@, old(grid).width, c, bit, n, nb_bit),
        final(grid).wf(),
        old(grid).known_bits() ==> final(grid).known_bits(),
        old(grid).borders_closed() ==> final(grid).borders_closed(),
        old(grid).symmetric() ==> final(grid).symmetric(),
        old(grid).no_isolated() ==> final(grid).no_isolated(),
        final(grid).cell(old(grid).idx(c)) != ALL_WALLS,
        final(grid).cell(old(grid).idx(n)) != ALL_WALLS,
        forall|a: int, b: int| #[trigger] old(grid).passage(a, b) ==> final(grid).passage(a, b),
        final(grid).passage(old(grid).idx(c), old(grid).idx(n)),
        final(grid).passage(old(grid).idx(n), old(grid).idx(c)),
        forall|j: int| #[trigger] old(grid).reachable(j) ==> final(grid).reachable(j),
        old(grid).connected() ==> final(grid).connected(),
{
    let ghost g0 = *grid;
    let i = grid.index(c.0, c.1);
    let j = grid.index(n.0, n.1);
    proof {
        lemma_coords(grid, c.0 as int, c.1 as int);
        lemma_coords(grid, n.0 as int, n.1 as int);
        if i == j {
            lemma_idx_injective(grid, c, n);
        }
    }
    let vi = grid.walls[i] & !bit;
    grid.walls.set(i, vi);
    let vj = grid.walls[j] & !nb_bit;
    grid.walls.set(j, vj);
    proof {
        let ic = i as int;
        let jn = j as int;
        lemma_clear_bit(g0.cell(ic), bit);
        lemma_clear_bit(g0.cell(jn), nb_bit);
        assert(cleared(g0.walls@, grid.walls@, ic, bit, jn, nb_bit));
        assert(grid.cell(ic) == g0.cell(ic) & !bit);
        assert(grid.cell(jn) == g0.cell(jn) & !nb_bit);
        lemma_open_wall_keeps_invariants(&g0, grid, c, bit, n, nb_bit);
    }
}

proof fn lemma_open_wall_keeps_invariants(
    g0: &MazeGrid,
    g1: &MazeGrid,
    c: (u16, u16),
    bit: u8,
    n: (u16, u16),
    nb_bit: u8,
)
    requires
        g0.wf(),
        g0.is_step(c, bit, n, nb_bit),
        g1.width == g0.width,
        g1.height == g0.height,
        cleared(g0.walls@, g1.walls@, g0.idx(c), bit, g0.idx(n), nb_bit),
        g1.cell(g0.idx(c)) != ALL_WALLS,
        g1.cell(g0.idx(n)) != ALL_WALLS,
        g0.known_bits() ==> forall|i: int| i == g0.idx(c) || i == g0.idx(n) ==> #[trigger] g1.cell(i)
            & !ALL_WALLS == 0,
    ensures
        g1.wf(),
        g0.known_bits() ==> g1.known_bits(),
        g0.borders_closed() ==> g1.borders_closed(),
        g0.symmetric() ==> g1.symmetric(),
        g0.no_isolated() ==> g1.no_isolated(),
        forall|a: int, b: int| #[trigger] g0.passage(a, b) ==> g1.passage(a, b),
        g1.passage(g0.idx(c), g0.idx(n)),
        g1.passage(g0.idx(n), g0.idx(c)),
        forall|j: int| #[trigger] g0.reachable(j) ==> g1.reachable(j),
        g0.connected() ==> g1.connected(),
{
    let ic = g0.idx(c);
    let jn = g0.idx(n);
    let w = g0.w();
    lemma_coords(g0, c.0 as int, c.1 as int);
    lemma_coords(g0, n.0 as int, n.1 as int);
    assert(g1.wf());
    assert forall|a: int, b: int| #[trigger] g0.passage(a, b) implies g1.passage(a, b) by {
        if g0.cell(a) & WALL_N == 0 {
            assert(g1.cell(a) & WALL_N == 0);
        }
        if g0.cell(a) & WALL_E == 0 {
            assert(g1.cell(a) & WALL_E == 0);
        }
        if g0.cell(a) & WALL_S == 0 {
            assert(g1.cell(a) & WALL_S == 0);
        }
        if g0.cell(a) & WALL_W == 0 {
            assert(g1.cell(a) & WALL_W == 0);
        }
    }
    assert(g1.cell(ic) & bit == 0);
    assert(g1.cell(jn) & nb_bit == 0);
    assert(g1.passage(ic, jn));
    assert(g1.passage(jn, ic));
    assert forall|j: int| #[trigger] g0.reachable(j) implies g1.reachable(j) by {
        lemma_reach_monotone(g0, g1, j);
    }
    if g0.connected() {
        assert forall|j: int| 0 <= j < g1.n() implies #[trigger] g1.reachable(j) by {
            assert(g0.reachable(j));
        }
    }
    if g0.known_bits() {
        assert forall|i: int| 0 <= i < g1.walls@.len() implies #[trigger] g1.walls@[i] & !ALL_WALLS == 0 by {
            if i != ic && i != jn {
                assert(g0.walls@[i] & !ALL_WALLS == 0);
            } else {
                assert(g1.cell(i) & !ALL_WALLS == 0);
            }
        }
    }
    if g0.no_isolated() {
        assert forall|i: int| 0 <= i < g1.walls@.len() implies #[trigger] g1.walls@[i] != ALL_WALLS by {
            if i != ic && i != jn {
                assert(g0.walls@[i] != ALL_WALLS);
            }
        }
    }
    if g0.borders_closed() {
        assert forall|x: int, y: int| 0 <= x < g1.width && 0 <= y < g1.height implies #[trigger] g1.border_closed_at(
            x,
            y,
        ) by {
            assert(g0.border_closed_at(x, y));
            lemma_coords(g0, x, y);
            let i = g0.spec_index(x, y);
            assert(g1.cell(i) & WALL_N != 0 <==> (g0.cell(i) & WALL_N != 0 && !(i == ic && WALL_N == bit)
                && !(i == jn && WALL_N == nb_bit)));
            assert(g1.cell(i) & WALL_E != 0 <==> (g0.cell(i) & WALL_E != 0 && !(i == ic && WALL_E == bit)
                && !(i == jn && WALL_E == nb_bit)));
            assert(g1.cell(i) & WALL_S != 0 <==> (g0.cell(i) & WALL_S != 0 && !(i == ic && WALL_S == bit)
                && !(i == jn && WALL_S == nb_bit)));
            assert(g1.cell(i) & WALL_W != 0 <==> (g0.cell(i) & WALL_W != 0 && !(i == ic && WALL_W == bit)
                && !(i == jn && WALL_W == nb_bit)));
        }
    }
    if g0.symmetric() {
        assert forall|x: int, y: int| 0 <= x < g1.width && 0 <= y < g1.height implies #[trigger] g1.symmetric_at(
            x,
            y,
        ) by {
            assert(g0.symmetric_at(x, y));
            lemma_coords(g0, x, y);
            let i = g0.spec_index(x, y);
            assert(g1.cell(i) & WALL_E != 0 <==> (g0.cell(i) & WALL_E != 0 && !(i == ic && WALL_E == bit)
                && !(i == jn && WALL_E == nb_bit)));
            assert(g1.cell(i) & WALL_S != 0 <==> (g0.cell(i) & WALL_S != 0 && !(i == ic && WALL_S == bit)
                && !(i == jn && WALL_S == nb_bit)));
            if x + 1 < g1.width {
                lemma_coords(g0, x + 1, y);
                let k = g0.spec_index(x + 1, y);
                assert(g1.cell(k) & WALL_W != 0 <==> (g0.cell(k) & WALL_W != 0 && !(k == ic && WALL_W
                    == bit) && !(k == jn && WALL_W == nb_bit)));
            }
            if y + 1 < g1.height {
                lemma_coords(g0, x, y + 1);
                let k = g0.spec_index(x, y + 1);
                assert(g1.cell(k) & WALL_N != 0 <==> (g0.cell(k) & WALL_N != 0 && !(k == ic && WALL_N
                    == bit) && !(k == jn && WALL_N == nb_bit)));
            }
        }
    }
}

/// A path stays a path when passages are only added.
pub(crate) proof fn lemma_reach_monotone(g: &MazeGrid, h: &MazeGrid, j: int)
    requires
        g.width == h.width,
        g.height == h.height,
        forall|a: int, b: int| #[trigger] g.passage(a, b) ==> h.passage(a, b),
        g.reachable(j),
    ensures
        h.reachable(j),
{
    let p = choose|p: Seq<int>| #[trigger] g.is_path(p) && p[0] == 0 && p.last() == j;
    assert forall|k: int| 0 <= k < p.len() - 1 implies #[trigger] h.passage(p[k], p[k + 1]) by {
        assert(g.passage(p[k], p[k + 1]));
    }
    assert(h.is_path(p));
}

/// A set of cells that holds the first cell and is closed under adjacency
/// holds every cell: the bare grid is connected.
pub(crate) proof fn lemma_adjacency_closed_is_everything(g: &MazeGrid, s: Set<int>, x: int, y: int)
    requires
        g.n() > 0,
        s.contains(0),
        forall|a: int, b: int| #[trigger] s.contains(a) && #[trigger] g.adjacent(a, b) ==> s.contains(b),
        0 <= x < g.width,
        0 <= y < g.height,
    ensures
        s.contains(g.spec_index(x, y)),
    decreases x + y,
{
    if y > 0 {
        lemma_adjacency_closed_is_everything(g, s, x, y - 1);
        lemma_coords(g, x, y - 1);
        lemma_coords(g, x, y);
        assert(g.adjacent(g.spec_index(x, y - 1), g.spec_index(x, y)));
    } else if x > 0 {
        lemma_adjacency_closed_is_everything(g, s, x - 1, y);
        lemma_coords(g, x - 1, y);
        lemma_coords(g, x, y);
        assert(g.adjacent(g.spec_index(x - 1, y), g.spec_index(x, y)));
    } else {
        assert(g.spec_index(0, 0) == 0);
    }
}

/// With walls stored alike on both sides, every passage can be taken
/// back.
proof fn lemma_passage_back(g: &MazeGrid, a: int, b: int)
    requires
        g.wf(),
        g.symmetric(),
        g.passage(a, b),
    ensures
        g.passage(b, a),
{
    let w = g.w();
    lemma_cell_coords(g, a);
    let x = a % w;
    let y = a / w;
    lemma_coords(g, x, y);
    if b == a - w && a >= w && g.cell(a) & WALL_N == 0 {
        lemma_coords(g, x, y - 1);
        assert(g.symmetric_at(x, y - 1));
    } else if b == a + w && g.cell(a) & WALL_S == 0 {
        lemma_coords(g, x, y + 1);
        assert(g.symmetric_at(x, y));
    } else if b == a + 1 && a % w + 1 < w && g.cell(a) & WALL_E == 0 {
        lemma_coords(g, x + 1, y);
        assert(g.symmetric_at(x, y));
    } else {
        lemma_coords(g, x - 1, y);
        assert(g.symmetric_at(x - 1, y));
    }
}

/// With walls stored alike on both sides, a path walked backwards is a
/// path.
proof fn lemma_path_back(g: &MazeGrid, p: Seq<int>) -> (q: Seq<int>)
    requires
        g.wf(),
        g.symmetric(),
        g.is_path(p),
    ensures
        g.is_path(q),
        q[0] == p.last(),
        q.last() == p[0],
{
    let n = p.len();
    let q = Seq::new(n, |k: int| p[n - 1 - k]);
    if n > 1 {
        assert(g.passage(p[n - 2], p[n - 2 + 1]));
    }
    assert forall|k: int| 0 <= k < q.len() - 1 implies #[trigger] g.passage(q[k], q[k + 1]) by {
        let m = n - 2 - k;
        assert(g.passage(p[m], p[m + 1]));
        lemma_passage_back(g, p[m], p[m + 1]);
    }
    q
}

/// Every cell can be reached from every other one in a connected grid
/// whose walls are stored alike on both sides: back from the first cell to
/// `(0, 0)`, then on to the second.
pub proof fn lemma_connected_links_every_pair(g: &MazeGrid, i: int, j: int)
    requires
        g.wf(),
        g.symmetric(),
        g.connected(),
        0 <= i < g.n(),
        0 <= j < g.n(),
    ensures
        g.leads(i, j),
{
    assert(g.reachable(i));
    assert(g.reachable(j));
    let p = choose|p: Seq<int>| #[trigger] g.is_path(p) && p[0] == 0 && p.last() == i;
    let r = choose|r: Seq<int>| #[trigger] g.is_path(r) && r[0] == 0 && r.last() == j;
    let back = lemma_path_back(g, p);
    let c = back + r.subrange(1, r.len() as int);
    let b = back.len();
    assert forall|k: int| 0 <= k < c.len() - 1 implies #[trigger] g.passage(c[k], c[k + 1]) by {
        if k < b - 1 {
            assert(g.passage(back[k], back[k + 1]));
        } else {
            let m = k - (b - 1);
            assert(c[k] == r[m]);
            assert(c[k + 1] == r[m + 1]);
            assert(g.passage(r[m], r[m + 1]));
        }
    }
    assert(g.is_path(c));
}

/// The first cell is reachable from itself.
pub(crate) proof fn lemma_reach_start(g: &MazeGrid)
    requires
        g.n() > 0,
    ensures
        g.reachable(0),
{
    let p = seq![0int];
    assert(g.is_path(p));
}

/// A passage out of a reachable cell leads to a reachable cell.
pub(crate) proof fn lemma_reach_step(g: &MazeGrid, i: int, j: int)
    requires
        g.reachable(i),
        g.passage(i, j),
    ensures
        g.reachable(j),
{
    let p = choose|p: Seq<int>| #[trigger] g.is_path(p) && p[0] == 0 && p.last() == i;
    let q = p.push(j);
    assert forall|k: int| 0 <= k < q.len() - 1 implies #[trigger] g.passage(q[k], q[k + 1]) by {
        if k < p.len() - 1 {
            assert(g.passage(p[k], p[k + 1]));
        }
    }
    assert(g.is_path(q));
}

/// A set of cells that holds the first cell and is closed under passages
/// holds every reachable cell.
pub(crate) proof fn lemma_closed_set_holds_reachable(g: &MazeGrid, s: Set<int>, j: int)
    requires
        s.contains(0),
        forall|a: int, b: int| #[trigger] s.contains(a) && #[trigger] g.passage(a, b) ==> s.contains(b),
        g.reachable(j),
    ensures
        s.contains(j),
{
    let p = choose|p: Seq<int>| #[trigger] g.is_path(p) && p[0] == 0 && p.last() == j;
    lemma_path_stays_in_closed_set(g, s, p, p.len() - 1);
}

proof fn lemma_path_stays_in_closed_set(g: &MazeGrid, s: Set<int>, p: Seq<int>, k: int)
    requires
        s.contains(0),
        forall|a: int, b: int| #[trigger] s.contains(a) && #[trigger] g.passage(a, b) ==> s.contains(b),
        g.is_path(p),
        p[0] == 0,
        0 <= k < p.len(),
    ensures
        s.contains(p[k]),
    decreases k,
{
    if k > 0 {
        lemma_path_stays_in_closed_set(g, s, p, k - 1);
        assert(g.passage(p[k - 1], p[k - 1 + 1]));
    }
}

/// The reachable cells form a finite set of at most `n` cells.
pub(crate) proof fn lemma_reach_set_finite(g: &MazeGrid)
    ensures
        g.reach_set().finite(),
        g.reach_set().subset_of(vstd::set_lib::set_int_range(0, g.n())),
        g.reach_set().len() <= g.n(),
{
    assert(g.n() >= 0) by (nonlinear_arith)
        requires
            g.width >= 0,
            g.height >= 0,
    ;
    vstd::set_lib::lemma_int_range(0, g.n());
    vstd::set_lib::lemma_len_subset(g.reach_set(), vstd::set_lib::set_int_range(0, g.n()));
}

/// The cell count fits in a `usize` on every platform.
pub(crate) proof fn lemma_cell_count_fits(g: &MazeGrid)
    ensures
        0 <= g.n() <= 4294836225,
        g.n() <= usize::MAX,
{
    lemma_index_fits(0, g.width as int, g.height as int);
}

proof fn lemma_index_fits(x: int, y: int, w: int)
    requires
        0 <= x <= 65535,
        0 <= y <= 65535,
        0 <= w <= 65535,
    ensures
        0 <= y * w <= 65535 * 65535,
        0 <= y * w + x <= 4294901760,
{
    assert(0 <= y * w <= 65535 * 65535) by (nonlinear_arith)
        requires
            0 <= y <= 65535,
            0 <= w <= 65535,
    ;
}

} // verus!
