//! What a track sounds like.

use vstd::prelude::*;

verus! {

/// The shape of one cycle of an oscillator.
#[derive(Debug, Clone, Copy, PartialEq, Eq)]
pub enum Wave {
    Sine,
    Square,
    Saw,
}

/// One oscillator of an instrument.
#[derive(Debug, Clone, Copy, PartialEq, Eq)]
pub struct OscConfig {
    pub wave: Wave,
    /// The gain of the oscillator, in units of `1 / UNITY`.
    pub gain: i32,
    /// By how many semitones the oscillator is tuned away from the note.
    pub semitone: i8,
}

/// The instrument of a track.
#[derive(Debug, PartialEq, Eq)]
pub enum Instrument {
    MultiOsc { oscillators: Vec<OscConfig> },
    Sampler { sample_id: String, root_pitch: u8 },
}

/// An instrument as a mathematical value.
pub enum InstrumentView {
    MultiOsc { oscillators: Seq<OscConfig> },
    Sampler { sample_id: Seq<char>, root_pitch: u8 },
}

impl View for Instrument {
    type V = InstrumentView;

    open spec fn view(&self) -> InstrumentView {
        match self {
            Instrument::MultiOsc { oscillators } => InstrumentView::MultiOsc {
                oscillators: oscillators@,
            },
            Instrument::Sampler { sample_id, root_pitch } => InstrumentView::Sampler {
                sample_id: sample_id@,
                root_pitch: *root_pitch,
            },
        }
    }
}

impl InstrumentView {
    /// The oscillators of the instrument. A sampler has none.
    pub open spec fn oscillators(self) -> Seq<OscConfig> {
        match self {
            InstrumentView::MultiOsc { oscillators } => oscillators,
            InstrumentView::Sampler { .. } => Seq::empty(),
        }
    }
}

impl Clone for Instrument {
    fn clone(&self) -> (r: Self)
        ensures
            r@ == self@,
    {
        match self {
            Instrument::MultiOsc { oscillators } => {
                let copy = oscillators.clone();
                assert(copy@ =~= oscillators@);
                Instrument::MultiOsc { oscillators: copy }
            },
            Instrument::Sampler { sample_id, root_pitch } => Instrument::Sampler {
                sample_id: sample_id.clone(),
                root_pitch: *root_pitch,
            },
        }
    }
}

impl Instrument {
    /// Returns the number of oscillators of the instrument.
    pub fn num_oscillators(&self) -> (n: usize)
        ensures
            n == self@.oscillators().len(),
    {
        match self {
            Instrument::MultiOsc { oscillators } => oscillators.len(),
            Instrument::Sampler { .. } => 0,
        }
    }
}

} // verus!
