//! Leaderboard for a drawing game: a bounded, ranked record store with
//! banded ranking queries and a crash-safe binary snapshot format.
//!
//! The store owns an ordered collection of finished game runs, keeps it
//! sorted by the retention key (score descending, then time descending),
//! evicts the worst record when the capacity bound is exceeded, and answers
//! the ranking and "next target to beat" queries that a display layer needs.
//! The snapshot module encodes the whole collection to bytes and decodes it
//! back, falling back to an empty store on any malformed input.

pub mod achievement;
pub mod canvas;
pub mod leaderboard;
pub mod persist;
pub mod slider;
pub mod ranking;
pub mod record;

use vstd::prelude::*;

verus! {

/// Display cap: at most this many records appear in any ranked view.
pub const MAX_RECORDS_PER_LIST: usize = 9;

/// Longest player name the display layer accepts, in characters.
pub const MAX_PLAYER_NAME_LENGTH: usize = 12;

/// Retention bound: the store keeps at most this many records in memory
/// (a generous buffer of five display pages).
pub const MAX_STORED_RECORDS: usize = MAX_RECORDS_PER_LIST * 5;

} // verus!
