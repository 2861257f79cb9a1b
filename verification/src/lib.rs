//! Combinatorial scheduling for a small swim league: which teams play which
//! week, who has the bye, and who hosts each meet.

pub mod host_bits;
pub mod text;
pub mod config;
pub mod sorting;
pub mod plan;
pub mod candidates;
pub mod ranking;
pub mod scheduler;
pub mod state;
pub mod message;
pub mod update;
pub mod export;
pub mod laws;
pub mod roundtrip;
pub mod round_robin;
pub mod schedule_laws;
