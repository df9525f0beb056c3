//! Patterns, state graphs and the expansion of patterns into events.

pub mod scheduler;
pub mod sequence;
pub mod state_machine;

pub use crate::queue::EventProducer;
pub use scheduler::{schedule_sequence_events, SchedulerError};
pub use sequence::{GeneratedPattern, Note, Sequence, StaticPattern};
pub use state_machine::{Edge, Hook, Node, StateGraph, TransitionTiming};
