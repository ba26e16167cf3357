//! The integer rules of the server's tick: how many queued inputs a player
//! gets per tick, which input tick is echoed back, what a hit does to
//! health, and where a respawn lands.

use std::collections::VecDeque;
use rand::Rng;
use vstd::prelude::*;
use crate::config::{HIT_DAMAGE, MAX_INPUT_QUEUE};
use crate::maze::MazeGrid;

verus! {

/// The inputs a tick consumes from a player's queue: the oldest
/// `MAX_INPUT_QUEUE` of them, or all if fewer are queued.
pub open spec fn batch_len(queued: nat) -> nat {
    if queued < MAX_INPUT_QUEUE {
        queued
    } else {
        MAX_INPUT_QUEUE as nat
    }
}

/// A tick never consumes more than `MAX_INPUT_QUEUE` inputs: it takes the
/// whole queue when at most that many are waiting and exactly that many
/// otherwise, always the oldest ones, and the consumed inputs followed by
/// the ones left queued are the queue as it was.
pub proof fn lemma_tick_batch_is_capped<T>(queue: Seq<T>)
    ensures
        queue.take(batch_len(queue.len()) as int).len() <= MAX_INPUT_QUEUE,
        queue.len() <= MAX_INPUT_QUEUE ==> queue.take(batch_len(queue.len()) as int) == queue,
        queue.len() >= MAX_INPUT_QUEUE ==> queue.take(batch_len(queue.len()) as int).len() == MAX_INPUT_QUEUE,
        queue.take(batch_len(queue.len()) as int) + queue.skip(batch_len(queue.len()) as int) == queue,
{
    assert(queue.take(batch_len(queue.len()) as int) + queue.skip(batch_len(queue.len()) as int) =~= queue);
    if queue.len() <= MAX_INPUT_QUEUE {
        assert(queue.take(batch_len(queue.len()) as int) =~= queue);
    }
}

/// Takes this tick's inputs off the front of a player's queue: at most
/// `MAX_INPUT_QUEUE`, oldest first. The rest stay queued, in order, for
/// the next tick; nothing is dropped.
pub fn take_tick_batch<T>(queue: &mut VecDeque<T>) -> (batch: Vec<T>)
    ensures
        batch@ == old(queue)@.take(batch_len(old(queue)@.len()) as int),
        final(queue)@ == old(queue)@.skip(batch_len(old(queue)@.len()) as int),
        batch@.len() <= MAX_INPUT_QUEUE,
        old(queue)@.len() <= MAX_INPUT_QUEUE ==> batch@.len() == old(queue)@.len(),
        old(queue)@.len() >= MAX_INPUT_QUEUE ==> batch@.len() == MAX_INPUT_QUEUE,
        batch@ + final(queue)@ == old(queue)@,
{
    proof {
        lemma_tick_batch_is_capped(old(queue)@);
    }
    let ghost q0 = queue@;
    let mut batch: Vec<T> = Vec::new();
    while batch.len() < MAX_INPUT_QUEUE
        invariant
            batch@.len() <= MAX_INPUT_QUEUE,
            batch@.len() <= q0.len(),
            batch@ == q0.take(batch@.len() as int),
            queue@ == q0.skip(batch@.len() as int),
        ensures
            batch@.len() == batch_len(q0.len()),
            batch@ == q0.take(batch@.len() as int),
            queue@ == q0.skip(batch@.len() as int),
        decreases MAX_INPUT_QUEUE - batch@.len(),
    {
        match queue.pop_front() {
            Some(input) => {
                proof {
                    assert(q0.skip(batch@.len() as int)[0] == q0[batch@.len() as int]);
                }
                let ghost n: int = batch@.len() as int;
                batch.push(input);
                proof {
                    assert(batch@ =~= q0.take(n + 1 as int));
                    assert(queue@ =~= q0.skip(n + 1 as int));
                }
            },
            None => {
                break;
            },
        }
    }
    batch
}

/// The largest of `last` and the ticks in `ticks`.
pub open spec fn max_tick(last: u32, ticks: Seq<u32>) -> u32
    decreases ticks.len(),
{
    if ticks.len() == 0 {
        last
    } else {
        let m = max_tick(last, ticks.drop_last());
        if ticks.last() > m {
            ticks.last()
        } else {
            m
        }
    }
}

/// The input tick echoed back to a player: the highest tick it has had
/// consumed, never just the newest received, and never going back.
pub fn highest_consumed_tick(last: u32, consumed: &Vec<u32>) -> (r: u32)
    ensures
        r == max_tick(last, consumed@),
        r >= last,
        forall|i: int| 0 <= i < consumed@.len() ==> r >= consumed@[i],
{
    let mut r = last;
    let mut i: usize = 0;
    while i < consumed.len()
        invariant
            i <= consumed@.len(),
            r == max_tick(last, consumed@.take(i as int)),
            r >= last,
            forall|j: int| 0 <= j < i ==> r >= consumed@[j],
        decreases consumed@.len() - i,
    {
        proof {
            assert(consumed@.take(i as int + 1).drop_last() =~= consumed@.take(i as int));
        }
        if consumed[i] > r {
            r = consumed[i];
        }
        i = i + 1;
    }
    proof {
        assert(consumed@.take(i as int) =~= consumed@);
    }
    r
}

/// Health after one hit: `HIT_DAMAGE` less, never below zero.
pub open spec fn hp_after_hit(hp: u8) -> u8 {
    if hp > HIT_DAMAGE {
        (hp - HIT_DAMAGE) as u8
    } else {
        0
    }
}

/// Applies one hit: the target's new health, and whether it died. Death
/// comes exactly when health reaches zero.
pub fn apply_hit(hp: u8) -> (r: (u8, bool))
    ensures
        r.0 == hp_after_hit(hp),
        r.1 == (r.0 == 0),
{
    let left = hp.saturating_sub(HIT_DAMAGE);
    (left, left == 0)
}

/// Health after `n` hits.
pub open spec fn hp_after_hits(hp: u8, n: nat) -> u8
    decreases n,
{
    if n == 0 {
        hp
    } else {
        hp_after_hit(hp_after_hits(hp, (n - 1) as nat))
    }
}

/// Hits accumulate without wrapping: after `n` hits the damage taken is
/// `n * HIT_DAMAGE`, down to zero and no further, so a target dies at
/// exactly the hit that brings the total damage to its health.
pub proof fn lemma_hits_accumulate(hp: u8, n: nat)
    ensures
        hp_after_hits(hp, n) == (if n * HIT_DAMAGE >= hp { 0 } else { hp - n * HIT_DAMAGE }),
    decreases n,
{
    if n > 0 {
        lemma_hits_accumulate(hp, (n - 1) as nat);
        assert(n * HIT_DAMAGE == (n - 1) * HIT_DAMAGE + HIT_DAMAGE) by (nonlinear_arith);
    }
}

/// `rand::thread_rng().gen_range(0..n)`: a uniformly random number below
/// `n` from the thread's generator. Claimed: it is below `n`; which one is
/// left open.
#[verifier::external_body]
fn random_below(n: u16) -> (r: u16)
    requires
        n > 0,
    ensures
        r < n,
{
    rand::thread_rng().gen_range(0..n)
}

/// A random cell of the grid to respawn onto. Walls lie on cell edges,
/// never inside a cell, so every cell of the grid is floor.
pub fn random_cell(grid: &MazeGrid) -> (c: (u16, u16))
    requires
        grid.width > 0,
        grid.height > 0,
    ensures
        grid.in_grid(c),
{
    let x = random_below(grid.width);
    let y = random_below(grid.height);
    (x, y)
}

} // verus!
