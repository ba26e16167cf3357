//! Maze generation: a perfect maze carved from the seed, then a braiding
//! pass that opens some dead ends into loops.
//!
//! The braid factor travels as the bit pattern of a 32-bit IEEE float, and
//! each braid roll is `rand`'s uniform sample in `[0, 1)`, which is
//! `k / 2^24` for `k` the top 24 bits of one `next_u32`. Whether a roll
//! opens a dead end (the sample is not at least the braid factor) is
//! decided here exactly, on integers.

use vstd::arithmetic::power2::{
    lemma2_to64, lemma_pow2_adds, lemma_pow2_pos, lemma_pow2_strictly_increases, lemma_pow2_unfold, pow2,
};
use vstd::prelude::*;
use crate::maze::{
    lemma_connected_links_every_pair, lemma_coords, lemma_idx_injective, open_wall, opened_walls, total_open_sides, MazeData, MazeGrid, MazeSource,
    MazeSpec, GENERATOR_NAME,
};
use crate::maze_braid::{
    braid_candidates, braid_candidates_spec, collect_dead_ends, dead_end_list, is_dead_end, is_dead_end_cell,
    lemma_candidates_are_present_walls, lemma_fewer_walls, wall_candidates,
};
use crate::maze_carve::{carve_result, carve_spanning_tree};
use crate::maze_rng::{choice_of, choose_step, next_bits, shuffle_cells, shuffle_of, word_at, MazeRng};
use crate::levels::is_nonneg_finite;

verus! {

/// Sign bit of a 32-bit IEEE float's bit pattern.
pub open spec fn ieee_sign(bits: u32) -> u32 {
    bits >> 31u32
}

/// Biased exponent field of a 32-bit IEEE float's bit pattern.
pub open spec fn ieee_exponent(bits: u32) -> u32 {
    (bits >> 23u32) & 0xffu32
}

/// Fraction field of a 32-bit IEEE float's bit pattern.
pub open spec fn ieee_fraction(bits: u32) -> u32 {
    bits & 0x7f_ffffu32
}

/// Whether a braid roll with random bits `k` (the sample `k / 2^24`) opens
/// a dead end under the braid factor `bits`: the sample is *not* at least
/// the factor. So a NaN factor opens every time, `+inf` too, and a factor
/// of zero or below never; otherwise, with the factor's value
/// `m * 2^(e - 150)` (`m` the significand, `e` the biased exponent, or
/// `e = 1` for subnormals), the roll opens when `k * 2^126 < m * 2^e`.
pub open spec fn roll_opens(k: int, bits: u32) -> bool {
    let e = ieee_exponent(bits);
    let f = ieee_fraction(bits);
    if e == 255 {
        f != 0 || ieee_sign(bits) == 0
    } else if ieee_sign(bits) == 1 {
        false
    } else if e == 0 {
        k * pow2(125) < f
    } else {
        k * pow2(126) < (f + pow2(23)) * pow2(e as nat)
    }
}

/// The braid factor never opens a dead end, whatever the roll.
pub open spec fn never_opens(bits: u32) -> bool {
    forall|k: int| 0 <= k < pow2(24) ==> !#[trigger] roll_opens(k, bits)
}

/// `2^s` as a machine integer.
fn pow2_u64(s: u32) -> (r: u64)
    requires
        s < 64,
    ensures
        r == pow2(s as nat),
{
    let mut r: u64 = 1;
    let mut i: u32 = 0;
    proof {
        lemma2_to64();
    }
    while i < s
        invariant
            i <= s < 64,
            r == pow2(i as nat),
        decreases s - i,
    {
        proof {
            lemma2_to64();
            lemma_pow2_unfold((i + 1) as nat);
            lemma_pow2_strictly_increases((i + 1) as nat, 64);
        }
        r = r * 2;
        i = i + 1;
    }
    r
}

/// Dividing out a common power of two: `k * 2^126 < m * 2^e` exactly when
/// `k * 2^s < m`, for `s + e == 126`.
proof fn lemma_scale_down(k: int, m: int, s: nat, e: nat)
    requires
        s + e == 126,
    ensures
        (k * pow2(126) < m * pow2(e)) == (k * pow2(s) < m),
{
    lemma_pow2_adds(s, e);
    lemma_pow2_pos(e);
    let a = pow2(s);
    let b = pow2(e);
    assert((k * (a * b) < m * b) == (k * a < m)) by (nonlinear_arith)
        requires
            b > 0,
    ;
}

/// With `0 <= m < 2^t <= 2^s`, only `k == 0` gives `k * 2^s < m`.
proof fn lemma_only_zero_below(k: int, m: int, s: nat, t: nat)
    requires
        0 <= k,
        0 <= m < pow2(t),
        t <= s,
    ensures
        (k * pow2(s) < m) == (k == 0 && m > 0),
{
    if t < s {
        lemma_pow2_strictly_increases(t, s);
    }
    let a = pow2(s);
    assert((k * a < m) == (k == 0 && m > 0)) by (nonlinear_arith)
        requires
            0 <= k,
            0 <= m < a,
    ;
}

/// A braid factor of at least one opens every roll.
proof fn lemma_large_factor_opens(k: int, m: int, e: nat)
    requires
        0 <= k < pow2(24),
        m >= pow2(23),
        e >= 127,
    ensures
        k * pow2(126) < m * pow2(e),
{
    lemma_pow2_adds(24, 126);
    lemma_pow2_adds(23, 127);
    if e > 127 {
        lemma_pow2_strictly_increases(127, e);
    }
    lemma_pow2_pos(126);
    lemma_pow2_pos(127);
    lemma_pow2_pos(23);
    let p126 = pow2(126);
    let p24 = pow2(24);
    let p23 = pow2(23);
    let p127 = pow2(127);
    let pe = pow2(e);
    assert(k * p126 < p24 * p126) by (nonlinear_arith)
        requires
            0 <= k < p24,
            p126 > 0,
    ;
    assert(p23 * p127 <= m * pe) by (nonlinear_arith)
        requires
            0 < p23 <= m,
            0 < p127 <= pe,
    ;
}

/// For a finite, non-negative braid factor, its value times `2^150`.
pub open spec fn scaled_value(bits: u32) -> int {
    let e = ieee_exponent(bits);
    let f = ieee_fraction(bits);
    if e == 0 {
        f * 2
    } else {
        (f + pow2(23)) * pow2(e as nat)
    }
}

/// For a finite, non-negative braid factor, a roll opens exactly when its
/// sample is below the factor's value.
proof fn lemma_roll_opens_scaled(k: int, bits: u32)
    requires
        is_nonneg_finite(bits),
    ensures
        roll_opens(k, bits) == (k * pow2(126) < scaled_value(bits)),
{
    assert(bits < 0x7f80_0000u32 ==> bits >> 31u32 == 0 && (bits >> 23u32) & 0xffu32 < 255) by (bit_vector);
    lemma_pow2_unfold(126);
    assert(k * pow2(126) == 2 * (k * pow2(125))) by (nonlinear_arith)
        requires
            pow2(126) == 2 * pow2(125),
    ;
}

/// Among finite, non-negative braid factors the bit pattern orders like
/// the value.
proof fn lemma_scaled_value_monotone(a: u32, b: u32)
    requires
        is_nonneg_finite(a),
        is_nonneg_finite(b),
        a <= b,
    ensures
        scaled_value(a) <= scaled_value(b),
{
    lemma2_to64();
    assert(a >> 23u32 == a / 0x80_0000u32 && a & 0x7f_ffffu32 == a % 0x80_0000u32) by (bit_vector);
    assert(b >> 23u32 == b / 0x80_0000u32 && b & 0x7f_ffffu32 == b % 0x80_0000u32) by (bit_vector);
    assert(a < 0x7f80_0000u32 ==> (a >> 23u32) & 0xffu32 == a >> 23u32) by (bit_vector);
    assert(b < 0x7f80_0000u32 ==> (b >> 23u32) & 0xffu32 == b >> 23u32) by (bit_vector);
    let ea = ieee_exponent(a);
    let eb = ieee_exponent(b);
    let fa = ieee_fraction(a);
    let fb = ieee_fraction(b);
    assert(a == ea * 0x80_0000 + fa);
    assert(b == eb * 0x80_0000 + fb);
    assert(ea < eb || (ea == eb && fa <= fb)) by (nonlinear_arith)
        requires
            a == ea * 0x80_0000 + fa,
            b == eb * 0x80_0000 + fb,
            0 <= fa < 0x80_0000,
            0 <= fb < 0x80_0000,
            a <= b,
    ;
    if ea == eb {
        if ea != 0 {
            lemma_pow2_pos(ea as nat);
            let p = pow2(ea as nat);
            assert((fa + pow2(23)) * p <= (fb + pow2(23)) * p) by (nonlinear_arith)
                requires
                    fa <= fb,
                    p > 0,
            ;
        }
    } else {
        let pb = pow2(eb as nat);
        let t: nat = if ea == 0 { 1nat } else { (ea + 1) as nat };
        let pt = pow2(t);
        lemma_pow2_pos(t);
        if t < eb {
            lemma_pow2_strictly_increases(t, eb as nat);
        }
        assert(pt <= pb);
        assert(scaled_value(a) < pow2(23) * pt) by {
            if ea == 0 {
                assert(fa * 2 < pow2(23) * pt) by (nonlinear_arith)
                    requires
                        fa < 0x80_0000,
                        pt == 2,
                        pow2(23) == 0x80_0000,
                ;
            } else {
                lemma_pow2_unfold(t);
                let pa = pow2(ea as nat);
                assert((fa + pow2(23)) * pa < pow2(23) * pt) by (nonlinear_arith)
                    requires
                        fa < 0x80_0000,
                        pa > 0,
                        pt == 2 * pa,
                        pow2(23) == 0x80_0000,
                ;
            }
        }
        assert(pow2(23) * pt <= (fb + pow2(23)) * pb) by (nonlinear_arith)
            requires
                pt <= pb,
                fb >= 0,
                pow2(23) > 0,
        ;
    }
}

/// A larger braid factor opens every roll a smaller one opens: among
/// finite, non-negative factors, raising the factor can only open more
/// dead ends, never fewer. So each level of the table, with its smaller
/// factor, opens at most the dead ends the level before it would.
pub proof fn lemma_larger_factor_opens_more(k: int, a: u32, b: u32)
    requires
        is_nonneg_finite(a),
        is_nonneg_finite(b),
        a <= b,
        roll_opens(k, a),
    ensures
        roll_opens(k, b),
{
    lemma_roll_opens_scaled(k, a);
    lemma_roll_opens_scaled(k, b);
    lemma_scaled_value_monotone(a, b);
}

/// How a braid roll is decided for the braid factor `bits`: a roll with
/// random bits `k` opens a dead end exactly when `k * scale < limit`.
pub fn roll_rule(bits: u32) -> (r: (u64, u64))
    ensures
        r.0 <= pow2(23),
        r.1 <= pow2(24),
        forall|k: int| 0 <= k < pow2(24) ==> ((k * r.0 < r.1) == #[trigger] roll_opens(k, bits)),
{
    proof {
        lemma2_to64();
    }
    let sign = bits >> 31u32;
    let e = (bits >> 23u32) & 0xffu32;
    let f = bits & 0x7f_ffffu32;
    proof {
        assert(bits >> 31u32 <= 1) by (bit_vector);
        assert((bits >> 23u32) & 0xffu32 <= 255) by (bit_vector);
        assert(bits & 0x7f_ffffu32 < 0x80_0000) by (bit_vector);
    }
    if e == 255 {
        if f != 0 || sign == 0 {
            (0, 1)
        } else {
            (0, 0)
        }
    } else if sign == 1 {
        (0, 0)
    } else if e == 0 {
        proof {
            assert forall|k: int| 0 <= k < pow2(24) implies ((k * 1 < (if f > 0 { 1int } else { 0 }))
                == #[trigger] roll_opens(k, bits)) by {
                lemma_only_zero_below(k, f as int, 125, 23);
            }
        }
        (1, if f > 0 { 1 } else { 0 })
    } else if e >= 127 {
        proof {
            assert forall|k: int| 0 <= k < pow2(24) implies ((k * 0 < 1) == #[trigger] roll_opens(k, bits)) by {
                lemma_large_factor_opens(k, f + pow2(23), e as nat);
            }
        }
        (0, 1)
    } else {
        let s = 126 - e;
        let m = (f as u64) + 0x80_0000;
        if s >= 24 {
            proof {
                assert forall|k: int| 0 <= k < pow2(24) implies ((k * 1 < 1) == #[trigger] roll_opens(k, bits)) by {
                    lemma_scale_down(k, m as int, s as nat, e as nat);
                    lemma_only_zero_below(k, m as int, s as nat, 24);
                }
            }
            (1, 1)
        } else {
            let scale = pow2_u64(s);
            proof {
                if s < 23 {
                    lemma_pow2_strictly_increases(s as nat, 23);
                }
                assert forall|k: int| 0 <= k < pow2(24) implies ((k * scale < m) == #[trigger] roll_opens(k, bits)) by {
                    lemma_scale_down(k, m as int, s as nat, e as nat);
                }
            }
            (scale, m)
        }
    }
}

/// Every cell of `new` has at most the walls it had in `old`.
pub open spec fn walls_only_removed(old: Seq<u8>, new: Seq<u8>) -> bool {
    &&& new.len() == old.len()
    &&& forall|i: int| 0 <= i < old.len() ==> #[trigger] new[i] & old[i] == new[i]
}

proof fn lemma_only_removed_trans(a: Seq<u8>, b: Seq<u8>, c: Seq<u8>)
    requires
        walls_only_removed(a, b),
        walls_only_removed(b, c),
    ensures
        walls_only_removed(a, c),
{
    assert forall|i: int| 0 <= i < a.len() implies #[trigger] c[i] & a[i] == c[i] by {
        let x = a[i];
        let y = b[i];
        let z = c[i];
        assert(y & x == y && z & y == z ==> z & x == z) by (bit_vector);
    }
}

/// Clearing one wall on two cells only removes walls.
proof fn lemma_clearing_only_removes(g: Seq<u8>, i: int, bit: u8, j: int, nb_bit: u8)
    requires
        0 <= i < g.len(),
        0 <= j < g.len(),
    ensures
        walls_only_removed(g, g.update(i, g[i] & !bit).update(j, g.update(i, g[i] & !bit)[j] & !nb_bit)),
{
    let g1 = g.update(i, g[i] & !bit);
    let g2 = g1.update(j, g1[j] & !nb_bit);
    assert forall|k: int| 0 <= k < g.len() implies #[trigger] g1[k] & g[k] == g1[k] by {
        let v = g[k];
        assert((v & !bit) & v == v & !bit) by (bit_vector);
        assert(v & v == v) by (bit_vector);
    }
    assert forall|k: int| 0 <= k < g.len() implies #[trigger] g2[k] & g1[k] == g2[k] by {
        let v = g1[k];
        assert((v & !nb_bit) & v == v & !nb_bit) by (bit_vector);
        assert(v & v == v) by (bit_vector);
    }
    lemma_only_removed_trans(g, g1, g2);
}

/// The braid factor opens a dead end whatever the roll.
pub open spec fn always_opens(bits: u32) -> bool {
    forall|k: int| 0 <= k < pow2(24) ==> #[trigger] roll_opens(k, bits)
}

/// A dead end of `g` that braiding could open: it has a wall leading to a
/// neighbour inside the grid.
pub open spec fn due_to_open(g: MazeGrid, c: (u16, u16)) -> bool {
    &&& g.in_grid(c)
    &&& is_dead_end_cell(g.cell(g.idx(c)))
    &&& braid_candidates_spec(&g, c.0, c.1).len() > 0
}

/// A cell that lost walls keeps having lost them as more are removed.
proof fn lemma_still_opened(orig: u8, mid: u8, now: u8)
    requires
        mid & orig == mid,
        now & mid == now,
        mid != orig,
    ensures
        now != orig,
{
    assert(mid & orig == mid && now & mid == now && mid != orig ==> now != orig) by (bit_vector);
}

/// One braiding step on the cell `c` of a `w` x `h` grid, from the walls
/// and stream position `st`: a cell that no longer has exactly three walls
/// is skipped and draws nothing. Otherwise one word is drawn; unless its
/// top 24 bits open a dead end under the braid factor `bits`, the cell is
/// left alone. If they do and the cell has walls leading inside the grid,
/// the stream picks one of them and it is removed on both sides.
pub open spec fn braid_step(seed: u64, bits: u32, w: u16, h: u16, st: (Seq<u8>, nat), c: (u16, u16)) -> (
    Seq<u8>,
    nat,
) {
    let cell = st.0[c.1 * w + c.0];
    if !is_dead_end_cell(cell) {
        st
    } else if !roll_opens((word_at(seed, st.1) >> 8u32) as int, bits) {
        (st.0, st.1 + 1)
    } else {
        let candidates = wall_candidates(cell, c.0, c.1, w, h);
        if candidates.len() == 0 {
            (st.0, st.1 + 1)
        } else {
            let pick = choice_of(seed, st.1 + 1, candidates.len());
            let s = candidates[pick.0 as int];
            (opened_walls(st.0, w, c, s.0, (s.1, s.2), s.3), pick.1)
        }
    }
}

/// The braiding steps on the cells of `order`, one after the other.
pub open spec fn braid_run(seed: u64, bits: u32, w: u16, h: u16, st: (Seq<u8>, nat), order: Seq<(u16, u16)>) -> (
    Seq<u8>,
    nat,
)
    decreases order.len(),
{
    if order.len() == 0 {
        st
    } else {
        braid_step(seed, bits, w, h, braid_run(seed, bits, w, h, st, order.drop_last()), order.last())
    }
}

/// One braiding step on the cell `c` took the walls from `before` to
/// `after`: either nothing changed, or `c` had exactly three walls and lost
/// one of those leading to a neighbour inside the grid, on both sides.
pub open spec fn opens_dead_end_or_nothing(before: Seq<u8>, after: Seq<u8>, w: u16, h: u16, c: (u16, u16)) -> bool {
    let cell = before[c.1 * w + c.0];
    let candidates = wall_candidates(cell, c.0, c.1, w, h);
    ||| after == before
    ||| is_dead_end_cell(cell) && exists|t: int|
        0 <= t < candidates.len() && after == opened_walls(
            before,
            w,
            c,
            candidates[t].0,
            (candidates[t].1, candidates[t].2),
            candidates[t].3,
        )
}

/// Every step of the braiding pass over `order`, from `st`, leaves the
/// walls as they were or opens a wall of a cell that had exactly three
/// walls just before it.
pub open spec fn braid_opens_only_dead_ends(
    seed: u64,
    bits: u32,
    w: u16,
    h: u16,
    st: (Seq<u8>, nat),
    order: Seq<(u16, u16)>,
) -> bool {
    forall|k: int|
        0 <= k < order.len() ==> #[trigger] opens_dead_end_or_nothing(
            braid_run(seed, bits, w, h, st, order.take(k)).0,
            braid_run(seed, bits, w, h, st, order.take(k + 1)).0,
            w,
            h,
            order[k],
        )
}

/// The braiding pass on a `w` x `h` grid with walls `walls`, drawing from
/// the stream seeded with `seed` from position `pos`: the dead ends, in
/// row-major order, are shuffled by the stream and then braided in the
/// shuffled order. The walls afterwards, and the stream position.
pub open spec fn braided(seed: u64, pos: nat, bits: u32, w: u16, h: u16, walls: Seq<u8>) -> (Seq<u8>, nat) {
    let order = shuffle_of(seed, pos, dead_end_list(walls, w, h));
    braid_run(seed, bits, w, h, (walls, order.1), order.0)
}

/// The braiding pass. Each dead end (a cell with exactly three walls), in
/// an order shuffled by `rng`, is skipped if an earlier step already
/// opened it; otherwise a roll decides, with the braid factor
/// `braid_factor_bits` as the probability, whether it loses one of its
/// walls that lead inside the grid, picked by `rng`. Border walls are
/// never removed, and removing a wall only ever adds passages, so every
/// maze invariant the grid had, it keeps.
pub fn braid(grid: &mut MazeGrid, rng: &mut MazeRng, braid_factor_bits: u32)
    requires
        old(grid).wf(),
    ensures
        (final(grid).walls@, final(rng).pos()) == braided(
            old(rng).seed(),
            old(rng).pos(),
            braid_factor_bits,
            old(grid).width,
            old(grid).height,
            old(grid).walls@,
        ),
        final(rng).seed() == old(rng).seed(),
        braid_opens_only_dead_ends(
            old(rng).seed(),
            braid_factor_bits,
            old(grid).width,
            old(grid).height,
            (
                old(grid).walls@,
                shuffle_of(
                    old(rng).seed(),
                    old(rng).pos(),
                    dead_end_list(old(grid).walls@, old(grid).width, old(grid).height),
                ).1,
            ),
            shuffle_of(
                old(rng).seed(),
                old(rng).pos(),
                dead_end_list(old(grid).walls@, old(grid).width, old(grid).height),
            ).0,
        ),
        shuffle_of(
            old(rng).seed(),
            old(rng).pos(),
            dead_end_list(old(grid).walls@, old(grid).width, old(grid).height),
        ).0.to_multiset() == dead_end_list(old(grid).walls@, old(grid).width, old(grid).height).to_multiset(),
        final(grid).width == old(grid).width,
        final(grid).height == old(grid).height,
        final(grid).wf(),
        walls_only_removed(old(grid).walls@, final(grid).walls@),
        old(grid).known_bits() ==> final(grid).known_bits(),
        old(grid).borders_closed() ==> final(grid).borders_closed(),
        old(grid).symmetric() ==> final(grid).symmetric(),
        old(grid).no_isolated() ==> final(grid).no_isolated(),
        forall|a: int, b: int| #[trigger] old(grid).passage(a, b) ==> final(grid).passage(a, b),
        forall|j: int| #[trigger] old(grid).reachable(j) ==> final(grid).reachable(j),
        old(grid).connected() ==> final(grid).connected(),
        never_opens(braid_factor_bits) ==> final(grid)@ == old(grid)@,
        always_opens(braid_factor_bits) ==> forall|c: (u16, u16)|
            #[trigger] due_to_open(*old(grid), c) ==> !is_dead_end_cell(final(grid).cell(old(grid).idx(c))),
{
    broadcast use vstd::seq_lib::group_to_multiset_ensures;

    let ghost g0 = *grid;
    let rule = roll_rule(braid_factor_bits);
    let scale = rule.0;
    let limit = rule.1;
    let mut dead_ends = collect_dead_ends(grid);
    let ghost listed = dead_ends@;
    let ghost seed = rng.seed();
    shuffle_cells(&mut dead_ends, rng);
    let ghost start = (g0.walls@, rng.pos());
    proof {
        lemma2_to64();
        assert forall|k: int| 0 <= k < dead_ends@.len() implies grid.in_grid(#[trigger] dead_ends@[k]) by {
            assert(dead_ends@.contains(dead_ends@[k]));
            assert(listed.to_multiset().count(dead_ends@[k]) > 0);
            assert(listed.contains(dead_ends@[k]));
        }
        assert forall|i: int| 0 <= i < g0.walls@.len() implies #[trigger] g0.walls@[i] & g0.walls@[i]
            == g0.walls@[i] by {
            let v = g0.walls@[i];
            assert(v & v == v) by (bit_vector);
        }
    }
    let mut i: usize = 0;
    while i < dead_ends.len()
        invariant
            i <= dead_ends@.len(),
            rng.seed() == seed,
            braid_run(seed, braid_factor_bits, g0.width, g0.height, start, dead_ends@.take(i as int)) == (
                grid.walls@,
                rng.pos(),
            ),
            forall|k: int|
                0 <= k < i ==> #[trigger] opens_dead_end_or_nothing(
                    braid_run(seed, braid_factor_bits, g0.width, g0.height, start, dead_ends@.take(k)).0,
                    braid_run(seed, braid_factor_bits, g0.width, g0.height, start, dead_ends@.take(k + 1)).0,
                    g0.width,
                    g0.height,
                    dead_ends@[k],
                ),
            forall|k: int| 0 <= k < dead_ends@.len() ==> g0.in_grid(#[trigger] dead_ends@[k]),
            scale <= pow2(23),
            limit <= pow2(24),
            pow2(24) == 0x100_0000,
            pow2(23) == 0x80_0000,
            forall|k: int| 0 <= k < pow2(24) ==> ((k * scale < limit) == #[trigger] roll_opens(k, braid_factor_bits)),
            grid.width == g0.width,
            grid.height == g0.height,
            grid.wf(),
            g0.wf(),
            walls_only_removed(g0.walls@, grid.walls@),
            g0.known_bits() ==> grid.known_bits(),
            g0.borders_closed() ==> grid.borders_closed(),
            g0.symmetric() ==> grid.symmetric(),
            g0.no_isolated() ==> grid.no_isolated(),
            forall|a: int, b: int| #[trigger] g0.passage(a, b) ==> grid.passage(a, b),
            forall|j: int| #[trigger] g0.reachable(j) ==> grid.reachable(j),
            g0.connected() ==> grid.connected(),
            never_opens(braid_factor_bits) ==> grid@ == g0@,
            always_opens(braid_factor_bits) ==> forall|k: int|
                0 <= k < i ==> (#[trigger] due_to_open(g0, dead_ends@[k]) ==> grid.cell(g0.idx(dead_ends@[k]))
                    != g0.cell(g0.idx(dead_ends@[k]))),
        decreases dead_ends@.len() - i,
    {
        let cell = dead_ends[i];
        let x = cell.0;
        let y = cell.1;
        proof {
            assert(g0.in_grid(dead_ends@[i as int]));
            lemma_coords(grid, x as int, y as int);
        }
        let ghost ic = g0.idx((x, y));
        proof {
            assert(grid.walls@[ic] & g0.walls@[ic] == grid.walls@[ic]);
            lemma_fewer_walls(grid.walls@[ic], g0.walls@[ic]);
        }
        let ghost st = (grid.walls@, rng.pos());
        proof {
            assert(dead_ends@.take(i as int + 1).drop_last() =~= dead_ends@.take(i as int));
            assert(dead_ends@.take(i as int + 1).last() == cell);
            assert(st.0[cell.1 * g0.width + cell.0] == grid.walls@[ic]);
        }
        i = i + 1;
        if !is_dead_end(grid.walls_at(x, y)) {
            proof {
                assert(braid_step(seed, braid_factor_bits, g0.width, g0.height, st, cell) == (grid.walls@, rng.pos()));
                assert(opens_dead_end_or_nothing(st.0, grid.walls@, g0.width, g0.height, cell));
            }
            continue;
        }
        proof {
            if due_to_open(g0, cell) {
                assert(grid.cell(ic) == g0.cell(ic));
            }
        }
        let bits = next_bits(rng);
        let k = (bits >> 8u32) as u64;
        proof {
            assert(bits >> 8u32 < 0x100_0000) by (bit_vector);
            assert(k * scale <= 0xff_ffff * 0x80_0000) by (nonlinear_arith)
                requires
                    k < 0x100_0000,
                    scale <= 0x80_0000,
            ;
        }
        proof {
            assert(k == (word_at(seed, st.1) >> 8u32) as int);
        }
        if k * scale >= limit {
            proof {
                if always_opens(braid_factor_bits) {
                    assert(roll_opens(k as int, braid_factor_bits));
                }
                assert(!roll_opens(k as int, braid_factor_bits));
                assert(braid_step(seed, braid_factor_bits, g0.width, g0.height, st, cell) == (grid.walls@, rng.pos()));
                assert(opens_dead_end_or_nothing(st.0, grid.walls@, g0.width, g0.height, cell));
            }
            continue;
        }
        proof {
            assert(roll_opens(k as int, braid_factor_bits));
        }
        let candidates = braid_candidates(grid, x, y);
        match choose_step(&candidates, rng) {
            Some(step) => {
                let ghost before = *grid;
                proof {
                    let t = choice_of(seed, st.1 + 1, candidates@.len()).0 as int;
                    assert(candidates@[t] == step);
                    assert(candidates@ == wall_candidates(st.0[cell.1 * g0.width + cell.0], x, y, g0.width, g0.height));
                    assert(grid.is_step((x, y), candidates@[t].0, (candidates@[t].1, candidates@[t].2), candidates@[t].3));
                    lemma_candidates_are_present_walls(grid, x, y, t);
                    if grid.idx((step.1, step.2)) == ic {
                        lemma_idx_injective(grid, (x, y), (step.1, step.2));
                    }
                }
                open_wall(grid, (x, y), step.0, (step.1, step.2), step.3);
                proof {
                    lemma_clearing_only_removes(
                        before.walls@,
                        before.idx((x, y)),
                        step.0,
                        before.idx((step.1, step.2)),
                        step.3,
                    );
                    lemma_only_removed_trans(g0.walls@, before.walls@, grid.walls@);
                    let v = before.walls@[ic];
                    let b = step.0;
                    assert(v & b != 0 ==> v & !b != v) by (bit_vector);
                    assert(grid.walls@[ic] == v & !b);
                    if always_opens(braid_factor_bits) {
                        assert forall|q: int| 0 <= q < i implies (#[trigger] due_to_open(g0, dead_ends@[q])
                            ==> grid.cell(g0.idx(dead_ends@[q])) != g0.cell(g0.idx(dead_ends@[q]))) by {
                            let cq = dead_ends@[q];
                            let iq = g0.idx(cq);
                            if due_to_open(g0, cq) {
                                if q < i - 1 {
                                    lemma_coords(&g0, cq.0 as int, cq.1 as int);
                                    lemma_still_opened(g0.walls@[iq], before.walls@[iq], grid.walls@[iq]);
                                } else {
                                    assert(cq == cell);
                                }
                            }
                        }
                    }
                    assert(braid_step(seed, braid_factor_bits, g0.width, g0.height, st, cell) == (grid.walls@, rng.pos()));
                assert(opens_dead_end_or_nothing(st.0, grid.walls@, g0.width, g0.height, cell));
                }
            },
            None => {
                proof {
                    if due_to_open(g0, cell) {
                        assert(braid_candidates_spec(grid, x, y) == braid_candidates_spec(&g0, x, y));
                    }
                    assert(braid_step(seed, braid_factor_bits, g0.width, g0.height, st, cell) == (grid.walls@, rng.pos()));
                assert(opens_dead_end_or_nothing(st.0, grid.walls@, g0.width, g0.height, cell));
                }
            },
        }
    }
    proof {
        assert(dead_ends@.take(i as int) =~= dead_ends@);
        if always_opens(braid_factor_bits) {
            assert forall|c: (u16, u16)| #[trigger] due_to_open(g0, c) implies !is_dead_end_cell(
                grid.cell(g0.idx(c)),
            ) by {
                assert(listed.contains((c.0, c.1)));
                assert(listed.to_multiset().count(c) > 0);
                assert(dead_ends@.contains(c));
                let k = choose|k: int| 0 <= k < dead_ends@.len() && dead_ends@[k] == c;
                lemma_coords(&g0, c.0 as int, c.1 as int);
                let ic = g0.idx(c);
                lemma_fewer_walls(grid.walls@[ic], g0.walls@[ic]);
            }
        }
    }
}

/// The grid width `generate` uses for `spec`: a zero width counts as one.
pub open spec fn maze_width(spec: MazeSpec) -> u16 {
    if spec.width == 0 {
        1
    } else {
        spec.width
    }
}

/// The grid height `generate` uses for `spec`: a zero height counts as one.
pub open spec fn maze_height(spec: MazeSpec) -> u16 {
    if spec.height == 0 {
        1
    } else {
        spec.height
    }
}

/// The walls of the maze made from `spec`: a stream seeded with the spec's
/// seed carves the spec's grid with the backtracker, then braids it with
/// the spec's braid factor, drawing on from where carving stopped.
pub open spec fn maze_walls(spec: MazeSpec) -> Seq<u8> {
    let carved = carve_result(spec.seed, maze_width(spec), maze_height(spec), 0);
    braided(spec.seed, carved.3, spec.braid_factor_bits, maze_width(spec), maze_height(spec), carved.0).0
}

/// What `generate` promises of the maze it makes from `spec`: its walls,
/// which depend on nothing but the spec; the spec as
/// its source, the generator's name, the spec's dimensions (at least one
/// cell each way), and every maze invariant (a lone cell is walled in,
/// so a one-cell maze has every invariant but that one). With a braid
/// factor that never opens a dead end, the maze stays perfect: one fewer
/// passage than cells (each passage has two open sides).
pub open spec fn generated_from(spec: MazeSpec, m: MazeData) -> bool {
    &&& m.grid.walls@ == maze_walls(spec)
    &&& m.source == MazeSource::Generated(spec)
    &&& m.generator_name@ == GENERATOR_NAME@
    &&& m.grid.width == maze_width(spec)
    &&& m.grid.height == maze_height(spec)
    &&& m.grid.wf()
    &&& m.grid.known_bits()
    &&& m.grid.borders_closed()
    &&& m.grid.symmetric()
    &&& m.grid.connected()
    &&& m.grid.n() > 1 ==> m.grid.valid()
    &&& never_opens(spec.braid_factor_bits) ==> total_open_sides(m.grid.walls@) == 2 * (m.grid.n() - 1)
}

/// Generation is pure: two mazes generated from the same spec are the same
/// maze, wall for wall, with the same source and generator name.
pub proof fn lemma_generation_is_pure(spec: MazeSpec, a: MazeData, b: MazeData)
    requires
        generated_from(spec, a),
        generated_from(spec, b),
    ensures
        a.grid@ == b.grid@,
        a.source == b.source,
        a.generator_name@ == b.generator_name@,
{
}

/// In a generated maze every cell can be reached from every other one.
pub proof fn lemma_generated_links_every_pair(spec: MazeSpec, m: MazeData, i: int, j: int)
    requires
        generated_from(spec, m),
        0 <= i < m.grid.n(),
        0 <= j < m.grid.n(),
    ensures
        m.grid.leads(i, j),
{
    lemma_connected_links_every_pair(&m.grid, i, j);
}

/// Generates the maze `spec` describes: a generator seeded with the spec's
/// seed carves a perfect maze of the spec's size (a zero dimension counts
/// as one), then braids it with the spec's braid factor.
pub fn generate(spec: MazeSpec) -> (r: MazeData)
    ensures
        generated_from(spec, r),
{
    let mut rng = MazeRng::seeded(spec.seed);
    let width = if spec.width == 0 { 1 } else { spec.width };
    let height = if spec.height == 0 { 1 } else { spec.height };
    let mut grid = carve_spanning_tree(width, height, &mut rng);
    let ghost carved = grid;
    braid(&mut grid, &mut rng, spec.braid_factor_bits);
    proof {
        if grid.n() > 1 {
            assert(carved.valid());
        }
    }
    let name = GENERATOR_NAME.to_owned();
    proof {
        assert(name@ == GENERATOR_NAME@);
    }
    MazeData { grid, source: MazeSource::Generated(spec), generator_name: name }
}

} // verus!
