//! How fast ZCode generates, what goes over the network meanwhile, and a guard over its checkpoints.
//!
//! Everything here computes on plain values. Reading the database, the files and the tables of the
//! system, and drawing the window, is left to the program that uses the library.

pub mod aggregate;
pub mod autostart;
pub mod chart;
pub mod ckpt;
pub mod commands;
pub mod engine;
pub mod history;
pub mod inflight;
pub mod json;
pub mod live;
pub mod lock;
pub mod metrics;
pub mod monitor;
pub mod netio;
pub mod order;
pub mod paths;
pub mod platform;
pub mod shell;
pub mod snapshot_guard;
pub mod sums;
pub mod text;
pub mod trend;
pub mod update;
