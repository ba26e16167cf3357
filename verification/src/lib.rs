//! Verified core of a multiplayer maze shooter: maze grids and their
//! invariants, maze generation (carving and braiding) and validation, the
//! event reliability layer, the level table and level bookkeeping, join
//! decisions and the server's per-player records, the remote-player
//! registry, the server tick's integer rules, the kill feed and the client
//! handshake schedule.

pub mod config;
pub mod maze;
pub mod maze_checks;
pub mod maze_build;
pub mod maze_rng;
pub mod maze_carve;
pub mod maze_braid;
pub mod maze_generate;
pub mod level_state;
pub mod reliability;
pub mod handshake;
pub mod names;
pub mod levels;
pub mod roster;
pub mod keyed;
pub mod remote;
pub mod world_rules;
pub mod server_state;
pub mod killfeed;
pub mod raycast;
pub mod interp;
