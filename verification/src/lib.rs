//! Detection of performance anti-patterns in distributed traces.

pub mod arith;
pub mod config;
pub mod detect;
pub mod diff;
pub mod event;
pub mod order;
pub mod permutation;
pub mod rendering;
pub mod report;
pub mod text;
pub mod time;
pub mod wide;
