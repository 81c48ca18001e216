//! Constrained random champion assignment.
//!
//! Each of the players on two teams receives one distinct champion drawn at
//! random from a per-player candidate pool; a repair pass then makes a
//! best-effort attempt to leave each team with at least one jungle-capable
//! champion.  Everything here is pure logic over plain values: network
//! fetching, command handling and table rendering live with the callers.

pub mod choose_champions;
pub mod errors;
pub mod rng;
pub mod pool;
pub mod string_map;
pub mod util;
