//! Tunable integer constants shared by server and client.

use vstd::prelude::*;

verus! {

pub const PROTOCOL_VERSION: u16 = 1;

/// Bumped on any change to maze generation output.
pub const GENERATOR_VERSION: u16 = 1;

pub const SERVER_TICK_HZ: u16 = 30;

pub const CLIENT_INPUT_HZ: u16 = 30;

/// Input steps consumed per player per server tick.
pub const MAX_INPUT_QUEUE: usize = 6;

/// Humans plus bots plus headroom: bots hold real player slots.
pub const MAX_PLAYERS: usize = 20;

pub const CLIENT_TIMEOUT_MS: u64 = 5000;

pub const GHOST_TIMEOUT_MS: u64 = 2000;

pub const RETRY_INTERVAL_MS: u64 = 100;

pub const MAX_RETRY_ATTEMPTS: u32 = 10;

pub const JOIN_RETRY_BASE_MS: u64 = 250;

pub const JOIN_MAX_ATTEMPTS: u32 = 6;

/// A player's full health.
pub const MAX_HP: u8 = 100;

/// Health one hit takes away: four hits kill.
pub const HIT_DAMAGE: u8 = 25;

pub const SNAPSHOT_BUFFER_LEN: usize = 5;

pub const FPS_AVG_WINDOW_FRAMES: usize = 60;

/// Receive buffer size and the decoder's read limit.
pub const MAX_PAYLOAD_BYTES: usize = 1200;

} // verus!
