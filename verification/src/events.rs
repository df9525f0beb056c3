//! Timestamped events that travel from the scheduler to the audio side.

use vstd::prelude::*;

verus! {

/// A note message addressed to one track.
#[derive(Debug, PartialEq, Eq)]
pub enum MidiMessage {
    NoteOn { pitch: u8, velocity: u8 },
    NoteOff { pitch: u8 },
}

/// What the audio side is asked to do.
#[derive(Debug, PartialEq, Eq)]
pub enum Event {
    MidiEvent { track_id: usize, message: MidiMessage },
    StopAllNotes { track_id: usize },
    NodeTransition { track_id: usize, new_node_id: String },
}

/// An event together with the sample at which it takes effect.
#[derive(Debug, PartialEq, Eq)]
pub struct ScheduledEvent {
    pub sample_timestamp: u64,
    pub event: Event,
}

impl Clone for MidiMessage {
    fn clone(&self) -> (r: Self)
        ensures
            r == *self,
    {
        match self {
            MidiMessage::NoteOn { pitch, velocity } => MidiMessage::NoteOn {
                pitch: *pitch,
                velocity: *velocity,
            },
            MidiMessage::NoteOff { pitch } => MidiMessage::NoteOff { pitch: *pitch },
        }
    }
}

impl Clone for Event {
    fn clone(&self) -> (r: Self)
        ensures
            r == *self,
    {
        match self {
            Event::MidiEvent { track_id, message } => Event::MidiEvent {
                track_id: *track_id,
                message: message.clone(),
            },
            Event::StopAllNotes { track_id } => Event::StopAllNotes { track_id: *track_id },
            Event::NodeTransition { track_id, new_node_id } => Event::NodeTransition {
                track_id: *track_id,
                new_node_id: new_node_id.clone(),
            },
        }
    }
}

impl Clone for ScheduledEvent {
    fn clone(&self) -> (r: Self)
        ensures
            r == *self,
    {
        ScheduledEvent { sample_timestamp: self.sample_timestamp, event: self.event.clone() }
    }
}

impl Event {
    /// The track that the event is addressed to.
    pub open spec fn track(self) -> usize {
        match self {
            Event::MidiEvent { track_id, .. } => track_id,
            Event::StopAllNotes { track_id } => track_id,
            Event::NodeTransition { track_id, .. } => track_id,
        }
    }

    /// The track that the event is addressed to.
    pub fn track_id(&self) -> (r: usize)
        ensures
            r == self.track(),
    {
        match self {
            Event::MidiEvent { track_id, .. } => *track_id,
            Event::StopAllNotes { track_id } => *track_id,
            Event::NodeTransition { track_id, .. } => *track_id,
        }
    }
}

} // verus!
