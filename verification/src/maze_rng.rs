//! The random stream behind maze generation: a ChaCha8 generator seeded
//! from the maze's seed.
//!
//! A seeded ChaCha8 generator is a pure function of its seed: everything it
//! hands out depends on the seed and on how many 32-bit words have been
//! drawn before, nothing else. `MazeRng` keeps those two numbers beside
//! the generator, and every draw goes through one of the functions below,
//! each of which names what it returns and how far it moves the stream.
//! That is what makes the maze a function of its spec.

use rand::seq::SliceRandom;
use rand::{RngCore, SeedableRng};
use rand_chacha::ChaCha8Rng;
use vstd::prelude::*;

verus! {

#[verifier::external_type_specification]
#[verifier::external_body]
pub struct ExChaCha8Rng(ChaCha8Rng);

/// The 32-bit word at position `pos` of the ChaCha8 stream seeded with
/// `seed`, as `RngCore::next_u32` hands it out.
pub uninterp spec fn word_at(seed: u64, pos: nat) -> u32;

/// What `SliceRandom::shuffle` makes of `cells` when it draws from the
/// stream seeded with `seed`, starting at position `pos`: the shuffled
/// cells, and the stream position after the last word it drew.
pub uninterp spec fn shuffle_of(seed: u64, pos: nat, cells: Seq<(u16, u16)>) -> (Seq<(u16, u16)>, nat);

/// What `SliceRandom::choose` picks from a slice of `len` entries when it
/// draws from the stream seeded with `seed`, starting at position `pos`:
/// the index of the entry, and the stream position afterwards.
pub uninterp spec fn choice_of(seed: u64, pos: nat, len: nat) -> (nat, nat);

/// A ChaCha8 generator together with the seed it was made from and the
/// number of 32-bit words drawn from it so far.
pub struct MazeRng {
    rng: ChaCha8Rng,
    seed: Ghost<u64>,
    pos: Ghost<nat>,
}

impl MazeRng {
    /// The seed the stream was made from.
    pub closed spec fn seed(&self) -> u64 {
        self.seed@
    }

    /// How many 32-bit words have been drawn from the stream.
    pub closed spec fn pos(&self) -> nat {
        self.pos@
    }

    /// A fresh stream seeded with `seed`, nothing drawn yet.
    pub fn seeded(seed: u64) -> (r: MazeRng)
        ensures
            r.seed() == seed,
            r.pos() == 0,
    {
        MazeRng { rng: seeded_rng(seed), seed: Ghost(seed), pos: Ghost(0) }
    }
}

/// `ChaCha8Rng::seed_from_u64`. Nothing is claimed of the generator here:
/// what it later hands out is stated by the functions that draw from it.
#[verifier::external_body]
fn seeded_rng(seed: u64) -> ChaCha8Rng {
    ChaCha8Rng::seed_from_u64(seed)
}

/// `RngCore::next_u32` on the stream. Claimed: it returns the word at the
/// current position, and the position moves on by one word.
#[verifier::external_body]
pub(crate) fn next_bits(rng: &mut MazeRng) -> (r: u32)
    ensures
        r == word_at(old(rng).seed(), old(rng).pos()),
        final(rng).seed() == old(rng).seed(),
        final(rng).pos() == old(rng).pos() + 1,
{
    rng.rng.next_u32()
}

/// `SliceRandom::shuffle` (a Fisher-Yates shuffle) of `cells`, drawing
/// from the stream. Claimed: the result is a permutation of the input, it
/// is the one `shuffle_of` names for the seed, position and input, and the
/// position moves to where `shuffle_of` says.
#[verifier::external_body]
pub(crate) fn shuffle_cells(cells: &mut Vec<(u16, u16)>, rng: &mut MazeRng)
    ensures
        final(cells)@ == shuffle_of(old(rng).seed(), old(rng).pos(), old(cells)@).0,
        final(cells)@.to_multiset() == old(cells)@.to_multiset(),
        final(rng).seed() == old(rng).seed(),
        final(rng).pos() == shuffle_of(old(rng).seed(), old(rng).pos(), old(cells)@).1,
{
    cells.shuffle(&mut rng.rng);
}

/// `SliceRandom::choose` on `options`, drawing from the stream. Claimed:
/// an empty slice gives `None` and draws nothing; otherwise the entry at
/// the index `choice_of` names, an index inside the slice, with the
/// position moved to where `choice_of` says.
#[verifier::external_body]
pub(crate) fn choose_step<T: Copy>(options: &Vec<T>, rng: &mut MazeRng) -> (r: Option<T>)
    ensures
        final(rng).seed() == old(rng).seed(),
        options@.len() == 0 ==> r is None && final(rng).pos() == old(rng).pos(),
        options@.len() > 0 ==> choice_of(old(rng).seed(), old(rng).pos(), options@.len()).0 < options@.len()
            && r == Some(options@[choice_of(old(rng).seed(), old(rng).pos(), options@.len()).0 as int])
            && final(rng).pos() == choice_of(old(rng).seed(), old(rng).pos(), options@.len()).1,
{
    options.choose(&mut rng.rng).copied()
}

} // verus!
