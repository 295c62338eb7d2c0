//! Multi-target ICMP reachability and latency monitor: the verified core.
//!
//! This crate holds the statistics and decision logic of the monitor:
//! the rolling latency window, the short packet history with its
//! loss / lag / flap queries, the per-target state machine, the ping
//! scheduling decisions, the snapshot builders, the IP-spec expansion,
//! and the ANSI / table text helpers. Terminal rendering, raw sockets
//! and the async runtime live outside, in the accompanying binary.

pub mod ansi;
pub mod chars;
pub mod engine;
pub mod history;
pub mod ipspec;
pub mod pinger;
pub mod rolling;
pub mod snapshot;
pub mod tabulate;
pub mod target;
