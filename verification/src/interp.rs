//! Remote-player interpolation: how a rendered state was obtained.

use vstd::prelude::*;

verus! {

/// How a sampled remote-player state was obtained from the snapshot
/// buffer.
#[derive(Debug, Clone, Copy, PartialEq, Eq, Structural)]
pub enum SampleMode {
    /// Between two buffered snapshots.
    Interpolated,
    /// Briefly past the newest snapshot, along its velocity.
    Extrapolated,
    /// Held at a buffered snapshot.
    Held,
}

} // verus!
