//! A real-time musical performance engine.
//!
//! Every track owns an instrument and a graph of musical states. The engine
//! walks each graph, expands the pattern of the current state into
//! sample-accurate note events, hands them to the audio side through a
//! bounded queue, and keeps one polyphonic voice table per track.
//!
//! All arithmetic in this crate is integer arithmetic: time is counted in
//! samples, ticks and microseconds, levels in fixed-point units.

pub mod audio;
pub mod engine;
pub mod events;
pub mod project;
pub mod queue;
pub mod sorting;
pub mod timing;
