//! The engine: what the audio callback, the timing worker and the control
//! loop decide.
//!
//! The host owns the threads, the audio device, the shared sample counter and
//! the shared list of track configurations. It reads them at the edge of each
//! call and hands plain values in.

pub mod callback;
pub mod control;
pub mod worker;

pub use callback::{
    audio_callback, collect_due, play_buffer, process_event, render_frame, take_in, AudioState,
};
pub use control::{EngineAction, EngineCommand, EngineState, EngineUpdate};
pub use worker::{Entry, TimingState, Transition};
