//! The level table: each level is a bigger grid with fewer loops than the
//! one before, so harder to navigate.

use vstd::prelude::*;
use crate::maze::{MazeSpec, GENERATOR_VERSION};
use crate::maze_generate::{lemma_larger_factor_opens_more, roll_opens};

verus! {

/// One difficulty level.
#[derive(Debug, Clone, Copy, PartialEq, Eq)]
pub struct Level {
    pub grid_w: u16,
    pub grid_h: u16,
    /// The level's braid factor, as the bit pattern of its 32-bit IEEE
    /// float (what `f32::to_bits` gives).
    pub braid_factor_bits: u32,
    pub name: &'static str,
}

/// Bit patterns of finite, non-negative 32-bit floats; among these the
/// bit pattern orders exactly like the value.
pub open spec fn is_nonneg_finite(bits: u32) -> bool {
    bits < 0x7f80_0000
}

/// Each level after the first has a strictly larger grid area and a
/// strictly smaller braid factor: fewer loops, more dead ends, harder.
pub open spec fn strictly_harder(levels: Seq<Level>) -> bool {
    &&& forall|i: int| 0 <= i < levels.len() ==> is_nonneg_finite(#[trigger] levels[i].braid_factor_bits)
    &&& forall|i: int|
        0 <= i < levels.len() - 1 ==> #[trigger] levels[i].grid_w * levels[i].grid_h < levels[i
            + 1].grid_w * levels[i + 1].grid_h && levels[i].braid_factor_bits > levels[i
            + 1].braid_factor_bits
}

/// The level table, easiest first: braid factors 0.6, 0.3 and 0.05.
pub open spec fn level_table() -> Seq<Level> {
    seq![
        Level { grid_w: 20, grid_h: 20, braid_factor_bits: 0x3f19_999a, name: "Novice Maze" },
        Level { grid_w: 30, grid_h: 30, braid_factor_bits: 0x3e99_999a, name: "Adept Maze" },
        Level { grid_w: 40, grid_h: 40, braid_factor_bits: 0x3d4c_cccd, name: "Veteran Maze" },
    ]
}

/// The level table, easiest first.
pub fn levels() -> (r: Vec<Level>)
    ensures
        r@ == level_table(),
        r@.len() == 3,
        strictly_harder(r@),
{
    let mut r: Vec<Level> = Vec::new();
    // braid factor 0.6
    r.push(Level { grid_w: 20, grid_h: 20, braid_factor_bits: 0x3f19_999a, name: "Novice Maze" });
    // braid factor 0.3
    r.push(Level { grid_w: 30, grid_h: 30, braid_factor_bits: 0x3e99_999a, name: "Adept Maze" });
    // braid factor 0.05
    r.push(Level { grid_w: 40, grid_h: 40, braid_factor_bits: 0x3d4c_cccd, name: "Veteran Maze" });
    proof {
        assert(r@ =~= level_table());
        assert(strictly_harder(r@)) by {
            assert forall|i: int| 0 <= i < r@.len() - 1 implies #[trigger] r@[i].grid_w * r@[i].grid_h
                < r@[i + 1].grid_w * r@[i + 1].grid_h && r@[i].braid_factor_bits > r@[i
                + 1].braid_factor_bits by {
                if i == 0 {
                    assert(20 * 20 < 30 * 30) by (nonlinear_arith);
                } else {
                    assert(30 * 30 < 40 * 40) by (nonlinear_arith);
                }
            }
        }
    }
    r
}

/// The level after `level` in a table of `count` levels: the next one,
/// wrapping from the last back to the first.
pub open spec fn following_level(level: u8, count: nat) -> u8 {
    if level + 1 < count {
        (level + 1) as u8
    } else {
        0
    }
}

/// The spec of level `l`'s maze from `table`, with the given seed.
pub open spec fn level_spec(table: Seq<Level>, l: int, seed: u64) -> MazeSpec {
    MazeSpec {
        seed,
        width: table[l].grid_w,
        height: table[l].grid_h,
        braid_factor_bits: table[l].braid_factor_bits,
        generator_version: GENERATOR_VERSION,
    }
}

/// The maze spec for level `level` of the table, with a fresh `seed`.
pub fn level_maze_spec(level: u8, seed: u64) -> (r: Option<MazeSpec>)
    ensures
        r is Some <==> level < 3,
        r matches Some(spec) ==> spec == level_spec(level_table(), level as int, seed),
{
    let table = levels();
    if (level as usize) < table.len() {
        let l = &table[level as usize];
        Some(MazeSpec {
            seed,
            width: l.grid_w,
            height: l.grid_h,
            braid_factor_bits: l.braid_factor_bits,
            generator_version: GENERATOR_VERSION,
        })
    } else {
        None
    }
}

/// Advancing the level when its time is up: the next level of the table,
/// wrapping after the last, under the next epoch (which wraps at
/// `u32::MAX`), with a maze spec for it from the fresh `seed`.
pub fn advance_level(level: u8, level_epoch: u32, seed: u64) -> (r: (u8, u32, MazeSpec))
    ensures
        r.0 == following_level(level, 3),
        r.1 == (level_epoch as int + 1) % 0x1_0000_0000,
        r.2 == level_spec(level_table(), r.0 as int, seed),
{
    let next: u8 = if (level as usize) + 1 < 3 { level + 1 } else { 0 };
    let epoch = level_epoch.wrapping_add(1);
    match level_maze_spec(next, seed) {
        Some(spec) => (next, epoch, spec),
        None => {
            proof {
                assert(false);
            }
            (next, epoch, MazeSpec { seed, width: 1, height: 1, braid_factor_bits: 0, generator_version: GENERATOR_VERSION })
        },
    }
}

/// Whether the current level has run its course: at least `duration_ms`
/// since it started (a clock reading before the start counts as none).
pub fn level_time_is_up(now_ms: u64, started_ms: u64, duration_ms: u64) -> (r: bool)
    ensures
        r == (crate::reliability::elapsed(started_ms, now_ms) >= duration_ms),
{
    now_ms.saturating_sub(started_ms) >= duration_ms
}

/// Each level of the table is harder than every level before it: a
/// larger grid, and a braid factor that opens no braid roll an earlier
/// level would have kept closed.
pub proof fn lemma_later_levels_are_harder(i: int, j: int, k: int)
    requires
        0 <= i < j < 3,
    ensures
        level_table()[i].grid_w * level_table()[i].grid_h < level_table()[j].grid_w * level_table()[j].grid_h,
        roll_opens(k, level_table()[j].braid_factor_bits) ==> roll_opens(k, level_table()[i].braid_factor_bits),
{
    assert(20 * 20 < 30 * 30 && 30 * 30 < 40 * 40) by (nonlinear_arith);
    if roll_opens(k, level_table()[j].braid_factor_bits) {
        lemma_larger_factor_opens_more(k, level_table()[j].braid_factor_bits, level_table()[i].braid_factor_bits);
    }
}

} // verus!
