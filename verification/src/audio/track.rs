//! The voices of one track and their rendering.
//!
//! Rendering is done in two parts. This module keeps the voices: it moves
//! envelopes and oscillator phases on by one sample at a time and frees the
//! voices that have died away. For each sample it lists what every
//! oscillator of every sounding note contributes. The host turns that list
//! into an amplitude.

use crate::audio::instrument::{Instrument, OscConfig, Wave};
use crate::audio::voice::{
    envelope_output, envelope_step, expired, has_expired, ADSRConfig, EnvelopeState, UNITY,
};
use vstd::prelude::*;

verus! {

/// The number of pitches, and of voice slots of a track.
pub const NUM_PITCHES: usize = 128;

/// The instrument, envelope and mix settings that a track is rendered with.
#[derive(Debug, PartialEq, Eq)]
pub struct TrackConfig {
    pub id: usize,
    pub instrument: Instrument,
    pub adsr: ADSRConfig,
    /// The volume of the track, in units of `1 / UNITY`.
    pub volume: u32,
    /// Where the track sits between left, at `-UNITY`, and right, at `UNITY`.
    pub pan: i32,
}

impl TrackConfig {
    /// Whether two configurations differ in nothing but volume and pan.
    pub open spec fn same_sound(self, other: TrackConfig) -> bool {
        &&& self.id == other.id
        &&& self.instrument@ == other.instrument@
        &&& self.adsr == other.adsr
    }

    /// Creates a configuration at full volume and in the centre.
    pub fn new(id: usize, instrument: Instrument, adsr: ADSRConfig) -> (config: Self)
        ensures
            config.id == id,
            config.instrument == instrument,
            config.adsr == adsr,
            config.volume == UNITY,
            config.pan == 0,
    {
        Self { id, instrument, adsr, volume: UNITY, pan: 0 }
    }

    /// Returns the number of oscillators of the instrument; a sampler has
    /// none.
    pub fn num_oscillators(&self) -> (n: usize)
        ensures
            n == self.instrument@.oscillators().len(),
    {
        self.instrument.num_oscillators()
    }
}

impl Clone for TrackConfig {
    fn clone(&self) -> (r: Self)
        ensures
            r.same_sound(*self),
            r.volume == self.volume,
            r.pan == self.pan,
    {
        Self {
            id: self.id,
            instrument: self.instrument.clone(),
            adsr: self.adsr,
            volume: self.volume,
            pan: self.pan,
        }
    }
}

/// By how much of a cycle an oscillator moves on per sample, for each of the
/// 128 pitches, in units of `2^-32` cycles. For a pitch of frequency `f` at a
/// sample rate `r` that is `f / r * 2^32`.
#[derive(Debug, PartialEq, Eq)]
pub struct Tuning {
    increments: Vec<u32>,
}

impl View for Tuning {
    type V = Seq<u32>;

    open spec fn view(&self) -> Seq<u32> {
        Seq::new(NUM_PITCHES as nat, |pitch: int| self.entry(pitch))
    }
}

impl Tuning {
    #[verifier::type_invariant]
    spec fn complete(self) -> bool {
        self.increments@.len() == NUM_PITCHES
    }

    /// The entry for `pitch`.
    pub closed spec fn entry(&self, pitch: int) -> u32 {
        self.increments@[pitch]
    }

    /// Makes a tuning of a list with one entry for each pitch. A list of
    /// another length is refused.
    pub fn new(increments: Vec<u32>) -> (tuning: Option<Self>)
        ensures
            tuning is Some <==> increments@.len() == NUM_PITCHES,
            match tuning {
                Some(t) => t@ == increments@,
                None => true,
            },
    {
        if increments.len() == NUM_PITCHES {
            let tuning = Self { increments };
            assert(tuning@ =~= increments@);
            Some(tuning)
        } else {
            None
        }
    }

    /// Returns a copy of the tuning.
    pub fn duplicate(&self) -> (copy: Self)
        ensures
            copy@ == self@,
    {
        proof {
            use_type_invariant(self);
        }
        let increments = self.increments.clone();
        assert(increments@ =~= self.increments@);
        let copy = Self { increments };
        assert(copy@ =~= self@);
        copy
    }

    /// Returns the entry for `pitch`.
    pub fn increment(&self, pitch: u8) -> (step: u32)
        requires
            pitch < NUM_PITCHES,
        ensures
            step == self@[pitch as int],
    {
        proof {
            use_type_invariant(self);
        }
        self.increments[pitch as usize]
    }
}

/// What one oscillator of one sounding note adds to one sample. The host
/// takes the value of `wave` at `phase`, scales it by the gain, the envelope
/// and `velocity / 127`, and mixes the result at `volume` and `pan`.
#[derive(Debug, Clone, Copy, PartialEq, Eq)]
pub struct OscSample {
    pub wave: Wave,
    /// Where the oscillator is in its cycle, in units of `2^-32` cycles.
    pub phase: u32,
    /// The gain of the oscillator, in units of `1 / UNITY`.
    pub gain: i32,
    /// The output of the envelope, in units of `1 / UNITY`.
    pub envelope: u32,
    pub velocity: u8,
    /// The volume of the track, in units of `1 / UNITY`.
    pub volume: u32,
    /// The pan of the track, from `-UNITY` to `UNITY`.
    pub pan: i32,
}

/// The state of one sounding note of a track.
#[derive(Debug, PartialEq, Eq)]
pub struct NotePlaybackState {
    pub velocity: u8,
    pub envelope_state: EnvelopeState,
    /// The level that the envelope has reached. After the release of the
    /// note this is the level at which it was released.
    pub envelope_level: u32,
    /// Where each oscillator is in its cycle, in units of `2^-32` cycles.
    pub oscillator_phases: Vec<u32>,
    pub sample_position: u64,
}

/// A sounding note as a mathematical value.
pub struct Voice {
    pub velocity: u8,
    pub envelope_state: EnvelopeState,
    pub envelope_level: u32,
    pub oscillator_phases: Seq<u32>,
    pub sample_position: u64,
}

impl View for NotePlaybackState {
    type V = Voice;

    open spec fn view(&self) -> Voice {
        Voice {
            velocity: self.velocity,
            envelope_state: self.envelope_state,
            envelope_level: self.envelope_level,
            oscillator_phases: self.oscillator_phases@,
            sample_position: self.sample_position,
        }
    }
}

/// The pitch that an oscillator tuned `semitone` semitones away plays for a
/// note of pitch `pitch`, held to the range of pitches.
pub open spec fn transposed(pitch: u8, semitone: i8) -> u8 {
    if pitch + semitone < 0 {
        0
    } else if pitch + semitone > 127 {
        127
    } else {
        (pitch + semitone) as u8
    }
}

/// `phase` moved on by `increment`, starting over at the end of the cycle.
pub open spec fn wrapped(phase: u32, increment: u32) -> u32 {
    ((phase + increment) % 0x1_0000_0000) as u32
}

impl Voice {
    /// A note that has just been struck: at the start of its attack, at
    /// level zero, with all oscillators at the start of their cycle.
    pub open spec fn fresh(velocity: u8, num_oscillators: nat) -> Voice {
        Voice {
            velocity,
            envelope_state: EnvelopeState::Attack { time: 0 },
            envelope_level: 0,
            oscillator_phases: Seq::new(num_oscillators, |i: int| 0u32),
            sample_position: 0,
        }
    }

    /// The note at the start of its release.
    pub open spec fn released(self) -> Voice {
        Voice { envelope_state: EnvelopeState::Release { time: 0 }, ..self }
    }

    /// The number of oscillators that sound for the note: an oscillator of
    /// the instrument sounds if the note has a phase for it.
    pub open spec fn sounding(self, config: TrackConfig) -> nat {
        if config.instrument@.oscillators().len() <= self.oscillator_phases.len() {
            config.instrument@.oscillators().len()
        } else {
            self.oscillator_phases.len()
        }
    }

    /// What the oscillators of the note add to the current sample.
    pub open spec fn samples(self, config: TrackConfig, sample_rate: u32) -> Seq<OscSample> {
        Seq::new(
            self.sounding(config),
            |i: int|
                OscSample {
                    wave: config.instrument@.oscillators()[i].wave,
                    phase: self.oscillator_phases[i],
                    gain: config.instrument@.oscillators()[i].gain,
                    envelope: config.adsr.output(
                        self.envelope_state,
                        self.envelope_level,
                        sample_rate,
                    ) as u32,
                    velocity: self.velocity,
                    volume: config.volume,
                    pan: config.pan,
                },
        )
    }

    /// The phases of the oscillators one sample later: each oscillator that
    /// sounds has moved on by the increment of the pitch it plays.
    pub open spec fn phases_after(self, pitch: u8, config: TrackConfig, tuning: Seq<u32>) -> Seq<u32> {
        Seq::new(
            self.oscillator_phases.len(),
            |i: int|
                if i < config.instrument@.oscillators().len() {
                    wrapped(
                        self.oscillator_phases[i],
                        tuning[transposed(pitch, config.instrument@.oscillators()[i].semitone) as int],
                    )
                } else {
                    self.oscillator_phases[i]
                },
        )
    }

    /// The note one sample later, or `None` if it has died away by then: a
    /// released note dies once it has been released for longer than the
    /// release time.
    pub open spec fn step(self, pitch: u8, config: TrackConfig, sample_rate: u32, tuning: Seq<u32>) -> Option<Voice> {
        let phase = config.adsr.phase_after(self.envelope_state, 1, sample_rate);
        if phase is Release && expired(phase->Release_time, config.adsr.release, sample_rate) {
            None
        } else {
            Some(
                Voice {
                    envelope_state: phase,
                    envelope_level: config.adsr.level_after(
                        self.envelope_state,
                        self.envelope_level,
                        1,
                        sample_rate,
                    ) as u32,
                    oscillator_phases: self.phases_after(pitch, config, tuning),
                    ..self
                },
            )
        }
    }
}

/// A slot of the voice table as a mathematical value.
pub open spec fn slot_view(slot: Option<NotePlaybackState>) -> Option<Voice> {
    match slot {
        Some(note) => Some(note@),
        None => None,
    }
}

/// The voice table one sample later.
pub open spec fn rendered(
    slots: Seq<Option<Voice>>,
    config: TrackConfig,
    sample_rate: u32,
    tuning: Seq<u32>,
) -> Seq<Option<Voice>> {
    Seq::new(
        slots.len(),
        |pitch: int|
            match slots[pitch] {
                Some(voice) => voice.step(pitch as u8, config, sample_rate, tuning),
                None => None,
            },
    )
}

/// What the voice in one slot adds to the current sample.
pub open spec fn slot_samples(slot: Option<Voice>, config: TrackConfig, sample_rate: u32) -> Seq<OscSample> {
    match slot {
        Some(voice) => voice.samples(config, sample_rate),
        None => Seq::empty(),
    }
}

/// What the voices of the pitches below `bound` add to the current sample,
/// by pitch and then by oscillator.
pub open spec fn samples_below(
    slots: Seq<Option<Voice>>,
    bound: int,
    config: TrackConfig,
    sample_rate: u32,
) -> Seq<OscSample>
    decreases bound,
{
    if bound <= 0 {
        Seq::empty()
    } else {
        samples_below(slots, bound - 1, config, sample_rate) + slot_samples(
            slots[bound - 1],
            config,
            sample_rate,
        )
    }
}

/// What all voices of a track add to the current sample.
pub open spec fn track_samples(slots: Seq<Option<Voice>>, config: TrackConfig, sample_rate: u32) -> Seq<OscSample> {
    samples_below(slots, slots.len() as int, config, sample_rate)
}

/// A voice table of `slots` slots without a sounding note.
pub open spec fn silent(slots: nat) -> Seq<Option<Voice>> {
    Seq::new(slots, |pitch: int| None::<Voice>)
}

/// A voice table with one slot for each pitch and without a sounding note.
pub open spec fn silence() -> Seq<Option<Voice>> {
    silent(NUM_PITCHES as nat)
}

/// The voice table after the note at `pitch` has been struck: whatever
/// sounded there is replaced by a fresh note. A pitch without a slot is
/// ignored.
pub open spec fn struck(
    slots: Seq<Option<Voice>>,
    pitch: u8,
    velocity: u8,
    num_oscillators: nat,
) -> Seq<Option<Voice>> {
    if pitch < slots.len() {
        slots.update(pitch as int, Some(Voice::fresh(velocity, num_oscillators)))
    } else {
        slots
    }
}

/// The voice table after the note at `pitch` has been released. A slot that
/// is empty stays empty, and a pitch without a slot is ignored.
pub open spec fn let_go(slots: Seq<Option<Voice>>, pitch: u8) -> Seq<Option<Voice>> {
    if pitch < slots.len() {
        slots.update(
            pitch as int,
            match slots[pitch as int] {
                Some(voice) => Some(voice.released()),
                None => None,
            },
        )
    } else {
        slots
    }
}

/// The voice table `count` samples later, rendered with the same settings
/// throughout.
pub open spec fn rendered_times(
    slots: Seq<Option<Voice>>,
    config: TrackConfig,
    sample_rate: u32,
    tuning: Seq<u32>,
    count: nat,
) -> Seq<Option<Voice>>
    decreases count,
{
    if count == 0 {
        slots
    } else {
        rendered(
            rendered_times(slots, config, sample_rate, tuning, (count - 1) as nat),
            config,
            sample_rate,
            tuning,
        )
    }
}

/// The number of samples that the release of an envelope takes, rounded up.
pub open spec fn release_samples(adsr: ADSRConfig, sample_rate: u32) -> int {
    (adsr.release * sample_rate + 999_999) / 1_000_000
}

proof fn lemma_release_progress(
    slots: Seq<Option<Voice>>,
    pitch: int,
    config: TrackConfig,
    sample_rate: u32,
    tuning: Seq<u32>,
    count: nat,
)
    requires
        0 <= pitch < slots.len(),
        slots[pitch] is Some ==> slots[pitch]->0.envelope_state is Release,
    ensures
        rendered_times(slots, config, sample_rate, tuning, count).len() == slots.len(),
        rendered_times(slots, config, sample_rate, tuning, count)[pitch] is Some ==> {
            let state = rendered_times(
                slots,
                config,
                sample_rate,
                tuning,
                count,
            )[pitch]->0.envelope_state;
            &&& state is Release
            &&& state->Release_time >= count
            &&& count > 0 ==> !expired(state->Release_time, config.adsr.release, sample_rate)
        },
    decreases count,
{
    if count > 0 {
        lemma_release_progress(slots, pitch, config, sample_rate, tuning, (count - 1) as nat);
        let before = rendered_times(slots, config, sample_rate, tuning, (count - 1) as nat);
        if before[pitch] is Some {
            let time = before[pitch]->0.envelope_state->Release_time;
            if time == u64::MAX {
                assert(expired(u64::MAX, config.adsr.release, sample_rate)) by (nonlinear_arith)
                    requires
                        0 <= config.adsr.release <= 0xffff_ffff,
                        0 <= sample_rate <= 0xffff_ffff,
                ;
            }
        }
    }
}

/// A released note is gone after more samples than its release takes: if
/// the slot of `pitch` is empty or holds a released note, it is empty after
/// `release_samples + 1` samples, and after any greater number of them.
pub proof fn lemma_released_note_ends(
    slots: Seq<Option<Voice>>,
    pitch: int,
    config: TrackConfig,
    sample_rate: u32,
    tuning: Seq<u32>,
    count: nat,
)
    requires
        0 <= pitch < slots.len(),
        slots[pitch] is Some ==> slots[pitch]->0.envelope_state is Release,
        count > release_samples(config.adsr, sample_rate),
    ensures
        rendered_times(slots, config, sample_rate, tuning, count)[pitch] is None,
{
    lemma_release_progress(slots, pitch, config, sample_rate, tuning, count);
    let after = rendered_times(slots, config, sample_rate, tuning, count);
    if after[pitch] is Some {
        let time = after[pitch]->0.envelope_state->Release_time;
        let whole = config.adsr.release * sample_rate;
        assert(release_samples(config.adsr, sample_rate) * 1_000_000 >= whole);
        assert(time * 1_000_000 > whole);
    }
}

/// After a note-off for `pitch` the slot of that pitch is empty within
/// `release_samples + 1` samples.
pub proof fn lemma_note_off_frees_slot(
    slots: Seq<Option<Voice>>,
    pitch: u8,
    config: TrackConfig,
    sample_rate: u32,
    tuning: Seq<u32>,
    count: nat,
)
    requires
        pitch < slots.len(),
        count > release_samples(config.adsr, sample_rate),
    ensures
        rendered_times(let_go(slots, pitch), config, sample_rate, tuning, count)[pitch as int] is None,
{
    lemma_released_note_ends(let_go(slots, pitch), pitch as int, config, sample_rate, tuning, count);
}

proof fn lemma_same_sound_samples(
    slots: Seq<Option<Voice>>,
    bound: int,
    a: TrackConfig,
    b: TrackConfig,
    sample_rate: u32,
)
    requires
        a.same_sound(b),
        bound <= slots.len(),
    ensures
        samples_below(slots, bound, a, sample_rate).len() == samples_below(
            slots,
            bound,
            b,
            sample_rate,
        ).len(),
        forall|i: int|
            0 <= i < samples_below(slots, bound, a, sample_rate).len() ==> #[trigger] samples_below(
                slots,
                bound,
                a,
                sample_rate,
            )[i] == (OscSample {
                volume: a.volume,
                pan: a.pan,
                ..samples_below(slots, bound, b, sample_rate)[i]
            }),
    decreases bound,
{
    if bound > 0 {
        lemma_same_sound_samples(slots, bound - 1, a, b, sample_rate);
        let head_a = samples_below(slots, bound - 1, a, sample_rate);
        let head_b = samples_below(slots, bound - 1, b, sample_rate);
        let here_a = slot_samples(slots[bound - 1], a, sample_rate);
        let here_b = slot_samples(slots[bound - 1], b, sample_rate);
        let all_a = samples_below(slots, bound, a, sample_rate);
        let all_b = samples_below(slots, bound, b, sample_rate);
        assert(here_a.len() == here_b.len());
        assert forall|i: int| 0 <= i < all_a.len() implies #[trigger] all_a[i] == (OscSample {
            volume: a.volume,
            pan: a.pan,
            ..all_b[i]
        }) by {
            if i < head_a.len() {
                assert(all_a[i] == head_a[i] && all_b[i] == head_b[i]);
            } else {
                assert(all_a[i] == here_a[i - head_a.len()]);
                assert(all_b[i] == here_b[i - head_b.len()]);
            }
        }
    }
}

/// Volume and pan leave the voices alone: two configurations that differ in
/// nothing but volume and pan move every envelope and every oscillator phase
/// on in the same way, and what the oscillators add to the sample differs in
/// nothing but the volume and pan it is mixed at.
pub proof fn lemma_volume_and_pan_keep_voices(
    slots: Seq<Option<Voice>>,
    a: TrackConfig,
    b: TrackConfig,
    sample_rate: u32,
    tuning: Seq<u32>,
)
    requires
        a.same_sound(b),
    ensures
        rendered(slots, a, sample_rate, tuning) == rendered(slots, b, sample_rate, tuning),
        track_samples(slots, a, sample_rate).len() == track_samples(slots, b, sample_rate).len(),
        forall|i: int|
            0 <= i < track_samples(slots, a, sample_rate).len() ==> #[trigger] track_samples(
                slots,
                a,
                sample_rate,
            )[i] == (OscSample {
                volume: a.volume,
                pan: a.pan,
                ..track_samples(slots, b, sample_rate)[i]
            }),
{
    lemma_same_sound_samples(slots, slots.len() as int, a, b, sample_rate);
    let next_a = rendered(slots, a, sample_rate, tuning);
    let next_b = rendered(slots, b, sample_rate, tuning);
    assert forall|pitch: int| 0 <= pitch < slots.len() implies next_a[pitch] == next_b[pitch] by {
        if slots[pitch] is Some {
            let voice = slots[pitch]->0;
            assert(voice.phases_after(pitch as u8, a, tuning) =~= voice.phases_after(
                pitch as u8,
                b,
                tuning,
            ));
        }
    }
    assert(next_a =~= next_b);
}

impl NotePlaybackState {
    /// Creates the state of a note that has just been struck.
    pub fn new(velocity: u8, num_oscillators: usize) -> (state: Self)
        ensures
            state@ == Voice::fresh(velocity, num_oscillators as nat),
    {
        let oscillator_phases = vec![0u32; num_oscillators];
        assert(oscillator_phases@ =~= Seq::new(num_oscillators as nat, |i: int| 0u32));
        Self {
            velocity,
            envelope_state: EnvelopeState::Attack { time: 0 },
            envelope_level: 0,
            oscillator_phases,
            sample_position: 0,
        }
    }
}

/// Returns the pitch that an oscillator tuned `semitone` semitones away
/// plays for a note of pitch `pitch`.
fn transpose(pitch: u8, semitone: i8) -> (note: u8)
    ensures
        note == transposed(pitch, semitone),
        note < NUM_PITCHES,
{
    let moved: i16 = pitch as i16 + semitone as i16;
    if moved < 0 {
        0
    } else if moved > 127 {
        127
    } else {
        moved as u8
    }
}

/// Lists what the note adds to the current sample and moves it on by one
/// sample. Returns whether the note has died away.
fn render_voice(
    state: &mut NotePlaybackState,
    pitch: u8,
    config: &TrackConfig,
    sample_rate: u32,
    tuning: &Tuning,
    out: &mut Vec<OscSample>,
) -> (dead: bool)
    ensures
        final(out)@ == old(out)@ + old(state)@.samples(*config, sample_rate),
        dead == (old(state)@.step(pitch, *config, sample_rate, tuning@) is None),
        !dead ==> Some(final(state)@) == old(state)@.step(pitch, *config, sample_rate, tuning@),
{
    let ghost before = state@;
    let ghost listed = out@;
    let ghost all = before.samples(*config, sample_rate);
    let envelope = envelope_output(
        &config.adsr,
        state.envelope_state,
        state.envelope_level,
        sample_rate,
    );
    match &config.instrument {
        Instrument::MultiOsc { oscillators } => {
            let mut i: usize = 0;
            while i < oscillators.len() && i < state.oscillator_phases.len()
                invariant
                    0 <= i <= oscillators.len(),
                    i <= before.oscillator_phases.len(),
                    config.instrument@.oscillators() == oscillators@,
                    all == before.samples(*config, sample_rate),
                    envelope == config.adsr.output(
                        before.envelope_state,
                        before.envelope_level,
                        sample_rate,
                    ),
                    state.velocity == before.velocity,
                    state.envelope_state == before.envelope_state,
                    state.envelope_level == before.envelope_level,
                    state.sample_position == before.sample_position,
                    state.oscillator_phases@.len() == before.oscillator_phases.len(),
                    forall|k: int|
                        0 <= k < i ==> state.oscillator_phases@[k] == before.phases_after(
                            pitch,
                            *config,
                            tuning@,
                        )[k],
                    forall|k: int|
                        i <= k < before.oscillator_phases.len() ==> state.oscillator_phases@[k]
                            == before.oscillator_phases[k],
                    out@ == listed + all.take(i as int),
                decreases oscillators.len() - i,
            {
                let osc = &oscillators[i];
                let phase = state.oscillator_phases[i];
                out.push(
                    OscSample {
                        wave: osc.wave,
                        phase,
                        gain: osc.gain,
                        envelope,
                        velocity: state.velocity,
                        volume: config.volume,
                        pan: config.pan,
                    },
                );
                proof {
                    assert(all.take(i + 1) =~= all.take(i as int).push(all[i as int]));
                    assert(listed + all.take(i + 1) =~= (listed + all.take(i as int)).push(
                        all[i as int],
                    ));
                }
                let step = tuning.increment(transpose(pitch, osc.semitone));
                state.oscillator_phases.set(i, phase.wrapping_add(step));
                i += 1;
            }
            proof {
                assert(all.take(i as int) =~= all);
                assert(state.oscillator_phases@ =~= before.phases_after(pitch, *config, tuning@));
            }
        },
        Instrument::Sampler { .. } => {
            proof {
                assert(all =~= Seq::empty());
                assert(out@ =~= listed + all);
                assert(state.oscillator_phases@ =~= before.phases_after(pitch, *config, tuning@));
            }
        },
    }
    let next = envelope_step(
        &config.adsr,
        state.envelope_state,
        state.envelope_level,
        1,
        sample_rate,
    );
    state.envelope_state = next.0;
    state.envelope_level = next.1;
    match state.envelope_state {
        EnvelopeState::Release { time } => has_expired(time, config.adsr.release, sample_rate),
        _ => false,
    }
}

/// The voices of one track: one slot for each pitch, empty or holding the
/// note that sounds at that pitch.
#[derive(Debug, PartialEq, Eq)]
pub struct PlaybackState {
    notes: [Option<NotePlaybackState>; NUM_PITCHES],
}

impl View for PlaybackState {
    type V = Seq<Option<Voice>>;

    open spec fn view(&self) -> Seq<Option<Voice>> {
        Seq::new(NUM_PITCHES as nat, |pitch: int| self.slot(pitch))
    }
}

impl PlaybackState {
    /// What the slot of `pitch` holds.
    pub closed spec fn slot(&self, pitch: int) -> Option<Voice> {
        slot_view(self.notes@[pitch])
    }

    /// Creates a voice table without a sounding note.
    pub fn new() -> (state: Self)
        ensures
            state@ == silence(),
    {
        let state = Self {
            notes: [
                None, None, None, None, None, None, None, None,
                None, None, None, None, None, None, None, None,
                None, None, None, None, None, None, None, None,
                None, None, None, None, None, None, None, None,
                None, None, None, None, None, None, None, None,
                None, None, None, None, None, None, None, None,
                None, None, None, None, None, None, None, None,
                None, None, None, None, None, None, None, None,
                None, None, None, None, None, None, None, None,
                None, None, None, None, None, None, None, None,
                None, None, None, None, None, None, None, None,
                None, None, None, None, None, None, None, None,
                None, None, None, None, None, None, None, None,
                None, None, None, None, None, None, None, None,
                None, None, None, None, None, None, None, None,
                None, None, None, None, None, None, None, None,
            ],
        };
        assert(state@ =~= silence());
        state
    }

    /// Returns the note that sounds at `pitch`, if there is one.
    pub fn voice(&self, pitch: u8) -> (found: Option<&NotePlaybackState>)
        ensures
            match found {
                Some(note) => pitch < NUM_PITCHES && self@[pitch as int] == Some(note@),
                None => pitch >= NUM_PITCHES || self@[pitch as int] is None,
            },
    {
        if pitch as usize >= NUM_PITCHES {
            None
        } else {
            match &self.notes[pitch as usize] {
                Some(note) => Some(note),
                None => None,
            }
        }
    }

    /// Strikes the note at `pitch`: whatever sounded there is replaced by a
    /// fresh note. A pitch without a slot is ignored.
    pub fn note_on(&mut self, pitch: u8, velocity: u8, num_oscillators: usize)
        ensures
            final(self)@ == struck(old(self)@, pitch, velocity, num_oscillators as nat),
    {
        let ghost before = self@;
        if (pitch as usize) < NUM_PITCHES {
            self.notes[pitch as usize] = Some(NotePlaybackState::new(velocity, num_oscillators));
        }
        proof {
            assert(self@ =~= struck(before, pitch, velocity, num_oscillators as nat));
        }
    }

    /// Releases the note at `pitch`, if one sounds there. A pitch without a
    /// slot is ignored.
    pub fn note_off(&mut self, pitch: u8)
        ensures
            final(self)@ == let_go(old(self)@, pitch),
    {
        let ghost before = self@;
        if (pitch as usize) < NUM_PITCHES {
            match &mut self.notes[pitch as usize] {
                Some(state) => {
                    state.envelope_state = EnvelopeState::Release { time: 0 };
                },
                None => {},
            }
        }
        proof {
            assert(self@ =~= let_go(before, pitch));
        }
    }

    /// Frees all slots at once.
    pub fn stop_all(&mut self)
        ensures
            final(self)@ == silence(),
    {
        let mut pitch: usize = 0;
        while pitch < NUM_PITCHES
            invariant
                0 <= pitch <= NUM_PITCHES,
                forall|k: int| 0 <= k < pitch ==> self.notes@[k] is None,
            decreases NUM_PITCHES - pitch,
        {
            self.notes[pitch] = None;
            pitch += 1;
        }
        proof {
            assert(self@ =~= silence());
        }
    }

    /// Renders one sample of the track: appends to `out` what each
    /// oscillator of each sounding note adds to the sample, by pitch and
    /// then by oscillator, moves every note on by one sample, and frees the
    /// slots of the notes that have died away.
    pub fn render_sample(
        &mut self,
        config: &TrackConfig,
        sample_rate: u32,
        tuning: &Tuning,
        out: &mut Vec<OscSample>,
    )
        ensures
            final(self)@ == rendered(old(self)@, *config, sample_rate, tuning@),
            final(out)@ == old(out)@ + track_samples(old(self)@, *config, sample_rate),
    {
        let ghost before = self@;
        let ghost listed = out@;
        let mut pitch: usize = 0;
        while pitch < NUM_PITCHES
            invariant
                0 <= pitch <= NUM_PITCHES,
                before.len() == NUM_PITCHES,
                forall|k: int|
                    0 <= k < pitch ==> slot_view(self.notes@[k]) == rendered(
                        before,
                        *config,
                        sample_rate,
                        tuning@,
                    )[k],
                forall|k: int| pitch <= k < NUM_PITCHES ==> slot_view(self.notes@[k]) == before[k],
                out@ == listed + samples_below(before, pitch as int, *config, sample_rate),
            decreases NUM_PITCHES - pitch,
        {
            let ghost so_far = samples_below(before, pitch as int, *config, sample_rate);
            let ghost here = slot_samples(before[pitch as int], *config, sample_rate);
            let dead = match &mut self.notes[pitch] {
                Some(state) => render_voice(state, pitch as u8, config, sample_rate, tuning, out),
                None => false,
            };
            proof {
                assert(out@ =~= listed + (so_far + here));
            }
            if dead {
                self.notes[pitch] = None;
            }
            pitch += 1;
        }
        proof {
            assert(self@ =~= rendered(before, *config, sample_rate, tuning@));
        }
    }
}

impl Default for PlaybackState {
    fn default() -> (state: Self)
        ensures
            state@ == silence(),
    {
        Self::new()
    }
}

} // verus!
