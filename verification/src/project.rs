//! A project: tempo, sample rate and tracks.

use crate::audio::instrument::Instrument;
use crate::audio::track::TrackConfig;
use crate::audio::voice::ADSRConfig;
use crate::timing::state_machine::StateGraph;
use vstd::prelude::*;

verus! {

/// A sample file of the project's library.
#[derive(Debug, PartialEq, Eq)]
pub struct SampleRef {
    pub id: String,
    pub path: String,
}

/// One track as the project describes it.
#[derive(Debug, PartialEq, Eq)]
pub struct TrackData {
    pub id: usize,
    pub name: String,
    pub instrument: Instrument,
    pub adsr: ADSRConfig,
    /// The volume of the track, in units of `1 / UNITY`.
    pub volume: u32,
    /// Where the track sits between left, at `-UNITY`, and right, at `UNITY`.
    pub pan: i32,
    /// The node in which the track starts.
    pub initial_node: String,
    pub graph: StateGraph,
}

/// A project.
#[derive(Debug, PartialEq, Eq)]
pub struct Project {
    pub name: String,
    pub version: String,
    /// The tempo, in thousandths of a beat per minute.
    pub bpm_milli: u32,
    pub sample_rate: u32,
    pub sample_library: Vec<SampleRef>,
    pub tracks: Vec<TrackData>,
}

impl TrackData {
    /// Whether `config` is the configuration that this track is rendered
    /// with: it has the track's id, instrument, envelope, volume and pan.
    pub open spec fn configured_as(self, config: TrackConfig) -> bool {
        &&& config.id == self.id
        &&& config.instrument@ == self.instrument@
        &&& config.adsr == self.adsr
        &&& config.volume == self.volume
        &&& config.pan == self.pan
    }

    /// Returns the configuration that this track is rendered with.
    pub fn config(&self) -> (config: TrackConfig)
        ensures
            self.configured_as(config),
    {
        let mut config = TrackConfig::new(self.id, self.instrument.clone(), self.adsr);
        config.volume = self.volume;
        config.pan = self.pan;
        config
    }
}

impl Project {
    /// Whether `configs` holds the configuration of each track of the
    /// project, in the order of the tracks.
    pub open spec fn configured_as(self, configs: Seq<TrackConfig>) -> bool {
        &&& configs.len() == self.tracks@.len()
        &&& forall|i: int| 0 <= i < configs.len() ==> (#[trigger] self.tracks@[i]).configured_as(configs[i])
    }

    /// Returns the configurations that the tracks of the project are
    /// rendered with, in the order of the tracks.
    pub fn track_configs(&self) -> (configs: Vec<TrackConfig>)
        ensures
            self.configured_as(configs@),
    {
        let mut configs: Vec<TrackConfig> = Vec::new();
        let mut i: usize = 0;
        while i < self.tracks.len()
            invariant
                0 <= i <= self.tracks.len(),
                configs@.len() == i,
                forall|k: int| 0 <= k < i ==> (#[trigger] self.tracks@[k]).configured_as(configs@[k]),
            decreases self.tracks.len() - i,
        {
            configs.push(self.tracks[i].config());
            i += 1;
        }
        configs
    }
}

} // verus!
