//! Instruments, envelopes and the voices of a track.
//!
//! Levels and gains are fixed-point numbers in units of `1 / UNITY`. Phases
//! are fractions of a cycle in units of `2^-32`.

pub mod instrument;
pub mod track;
pub mod voice;

pub use instrument::{Instrument, OscConfig, Wave};
pub use track::{NotePlaybackState, OscSample, PlaybackState, TrackConfig, Tuning};
pub use voice::{ADSRConfig, EnvelopeState, NoteState};
