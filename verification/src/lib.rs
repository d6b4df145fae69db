//! A 5v5 matchmaking engine.
//!
//! Players join a queue with a skill rating. Workers pick the longest-waiting
//! player, look for others within a window of ratings that widens with the wait,
//! claim ten of them and split them into two teams that are as even as possible.
//! A Reaper returns the players of claims that were never completed.
//!
//! The parts:
//!
//! - [`models`]: players, matches, and the bodies of requests and responses;
//! - [`config`] and [`metrics`]: parameters and counters;
//! - [`engine`]: the player pool, the window, the claims, the balancer, match
//!   records, the matcher, [`engine::MatchmakerCore`] on top, and what holds of
//!   all runs of it;
//! - [`workers`]: the Reaper;
//! - [`api`]: what each endpoint answers;
//! - [`clock`], [`text`] and [`utils`]: helpers.

pub mod api;
pub mod clock;
pub mod config;
pub mod engine;
pub mod metrics;
pub mod models;
pub mod text;
pub mod utils;
pub mod workers;
