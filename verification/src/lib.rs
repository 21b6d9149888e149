//! A verified player-account store for two games.
//!
//! Accounts carry a name, a password, and per-game win/played counters.
//! The store supports registration, bulk deletion by name, authentication,
//! and atomic outcome recording; the ranker produces deterministic
//! leaderboards with a safe win-rate computation.

pub mod record;
pub mod store;
pub mod ranker;
pub mod command;
