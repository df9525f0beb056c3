//! The envelope of a note.
//!
//! The four durations of an envelope are given in microseconds. The time a
//! note has spent in a segment is counted in samples, so that a segment of
//! `d` microseconds is over after `t` samples when
//! `t * 1_000_000 >= d * sample_rate`.

use vstd::arithmetic::div_mod::{lemma_div_by_multiple, lemma_div_is_ordered, lemma_div_pos_is_pos};
use vstd::prelude::*;

verus! {

/// The fixed-point value that stands for a level or gain of one.
pub const UNITY: u32 = 65_536;

/// The parameters of an envelope.
#[derive(Debug, Clone, Copy, PartialEq, Eq)]
pub struct ADSRConfig {
    /// Microseconds.
    pub attack: u32,
    /// Microseconds.
    pub decay: u32,
    /// A level, from 0 to `UNITY`. A higher value counts as `UNITY`.
    pub sustain: u32,
    /// Microseconds.
    pub release: u32,
}

/// The segment of the envelope that a note is in, and for how many samples
/// it has been there.
#[derive(Debug, Clone, Copy, PartialEq, Eq)]
pub enum EnvelopeState {
    Attack { time: u64 },
    Decay { time: u64 },
    Sustain,
    Release { time: u64 },
}

/// Whether a segment of `duration` microseconds is over after `time` samples.
pub open spec fn reached(time: u64, duration: u32, sample_rate: u32) -> bool {
    time * 1_000_000 >= duration * sample_rate
}

/// Whether `time` samples are more than `duration` microseconds.
pub open spec fn expired(time: u64, duration: u32, sample_rate: u32) -> bool {
    time * 1_000_000 > duration * sample_rate
}

/// How far a segment of `duration` microseconds has come after `time`
/// samples: from 0 at its start to `UNITY` at its end and after it, rounded
/// down.
pub open spec fn ramp(time: u64, duration: u32, sample_rate: u32) -> int {
    if reached(time, duration, sample_rate) {
        UNITY as int
    } else {
        (time * 1_000_000 * UNITY) / (duration * sample_rate)
    }
}

/// `time + samples`, held to the range of the counter.
pub open spec fn later(time: u64, samples: u64) -> u64 {
    if time + samples > u64::MAX {
        u64::MAX
    } else {
        (time + samples) as u64
    }
}

impl ADSRConfig {
    /// The level at which a note is sustained.
    pub open spec fn sustain_level(self) -> int {
        if self.sustain > UNITY {
            UNITY as int
        } else {
            self.sustain as int
        }
    }

    /// The level of the decay segment after `time` samples: down from
    /// `UNITY` to the sustain level.
    pub open spec fn decay_level(self, time: u64, sample_rate: u32) -> int {
        UNITY - ((UNITY - self.sustain_level()) * ramp(time, self.decay, sample_rate)) / (
        UNITY as int)
    }

    /// The output of the envelope for a note in segment `phase`. `level` is
    /// the level that the note had when it was released.
    pub open spec fn output(self, phase: EnvelopeState, level: u32, sample_rate: u32) -> int {
        match phase {
            EnvelopeState::Attack { time } => ramp(time, self.attack, sample_rate),
            EnvelopeState::Decay { time } => self.decay_level(time, sample_rate),
            EnvelopeState::Sustain => self.sustain_level(),
            EnvelopeState::Release { time } => (level * (UNITY - ramp(
                time,
                self.release,
                sample_rate,
            ))) / (UNITY as int),
        }
    }

    /// The segment that a note in segment `phase` is in `samples` samples
    /// later. Attack is followed by decay and decay by sustain; a released
    /// note stays released.
    pub open spec fn phase_after(self, phase: EnvelopeState, samples: u64, sample_rate: u32) -> EnvelopeState {
        match phase {
            EnvelopeState::Attack { time } => if reached(
                later(time, samples),
                self.attack,
                sample_rate,
            ) {
                EnvelopeState::Decay { time: 0 }
            } else {
                EnvelopeState::Attack { time: later(time, samples) }
            },
            EnvelopeState::Decay { time } => if reached(
                later(time, samples),
                self.decay,
                sample_rate,
            ) {
                EnvelopeState::Sustain
            } else {
                EnvelopeState::Decay { time: later(time, samples) }
            },
            EnvelopeState::Sustain => EnvelopeState::Sustain,
            EnvelopeState::Release { time } => EnvelopeState::Release { time: later(time, samples) },
        }
    }

    /// The level that a note in segment `phase` has `samples` samples later.
    /// Attack ends at `UNITY` and decay at the sustain level; a released note
    /// keeps the level at which it was released.
    pub open spec fn level_after(
        self,
        phase: EnvelopeState,
        level: u32,
        samples: u64,
        sample_rate: u32,
    ) -> int {
        match phase {
            EnvelopeState::Attack { time } => ramp(later(time, samples), self.attack, sample_rate),
            EnvelopeState::Decay { time } => if reached(
                later(time, samples),
                self.decay,
                sample_rate,
            ) {
                self.sustain_level()
            } else {
                self.decay_level(later(time, samples), sample_rate)
            },
            EnvelopeState::Sustain => self.sustain_level(),
            EnvelopeState::Release { .. } => level as int,
        }
    }
}

/// `x * u / d` lies between 0 and `u` when `x` lies between 0 and `d`.
pub proof fn lemma_scaled_quotient(x: int, d: int, u: int)
    requires
        0 <= x <= d,
        0 < d,
        0 <= u,
    ensures
        0 <= (x * u) / d <= u,
        x < d && 0 < u ==> (x * u) / d < u,
{
    assert(0 <= x * u <= d * u) by (nonlinear_arith)
        requires
            0 <= x <= d,
            0 <= u,
    ;
    lemma_div_pos_is_pos(x * u, d);
    lemma_div_is_ordered(x * u, d * u, d);
    assert(d * u == u * d) by (nonlinear_arith);
    lemma_div_by_multiple(u, d);
    if x < d && 0 < u {
        assert((x * u) / d < u) by (nonlinear_arith)
            requires
                0 <= x < d,
                0 < u,
        ;
    }
}

/// A ramp lies between 0 and `UNITY`.
pub proof fn lemma_ramp_bounds(time: u64, duration: u32, sample_rate: u32)
    ensures
        0 <= ramp(time, duration, sample_rate) <= UNITY,
{
    if !reached(time, duration, sample_rate) {
        let x = time * 1_000_000;
        let d = duration * sample_rate;
        assert(0 <= x) by (nonlinear_arith)
            requires
                x == time * 1_000_000,
                time >= 0,
        ;
        lemma_scaled_quotient(x, d, UNITY as int);
    }
}

/// Every level of an envelope lies between 0 and `UNITY`, or between 0 and
/// the level at which the note was released.
pub proof fn lemma_envelope_bounds(
    adsr: ADSRConfig,
    phase: EnvelopeState,
    level: u32,
    samples: u64,
    sample_rate: u32,
)
    ensures
        0 <= adsr.sustain_level() <= UNITY,
        0 <= adsr.output(phase, level, sample_rate) <= u32::MAX,
        !(phase is Release) ==> adsr.output(phase, level, sample_rate) <= UNITY,
        phase is Release ==> adsr.output(phase, level, sample_rate) <= level,
        0 <= adsr.level_after(phase, level, samples, sample_rate) <= u32::MAX,
        !(phase is Release) ==> adsr.level_after(phase, level, samples, sample_rate) <= UNITY,
{
    let unity = UNITY as int;
    match phase {
        EnvelopeState::Attack { time } => {
            lemma_ramp_bounds(time, adsr.attack, sample_rate);
            lemma_ramp_bounds(later(time, samples), adsr.attack, sample_rate);
        },
        EnvelopeState::Decay { time } => {
            lemma_decay_bounds(adsr, time, sample_rate);
            lemma_decay_bounds(adsr, later(time, samples), sample_rate);
        },
        EnvelopeState::Sustain => {},
        EnvelopeState::Release { time } => {
            lemma_ramp_bounds(time, adsr.release, sample_rate);
            let r = ramp(time, adsr.release, sample_rate);
            lemma_scaled_quotient(unity - r, unity, level as int);
            assert(level * (unity - r) == (unity - r) * level) by (nonlinear_arith);
        },
    }
}

/// The level of the decay segment lies between the sustain level and
/// `UNITY`.
pub proof fn lemma_decay_bounds(adsr: ADSRConfig, time: u64, sample_rate: u32)
    ensures
        adsr.sustain_level() <= adsr.decay_level(time, sample_rate) <= UNITY,
{
    let unity = UNITY as int;
    let r = ramp(time, adsr.decay, sample_rate);
    let drop = unity - adsr.sustain_level();
    lemma_ramp_bounds(time, adsr.decay, sample_rate);
    lemma_scaled_quotient(r, unity, drop);
    assert(drop * r == r * drop) by (nonlinear_arith);
}

/// Returns how far a segment has come, from 0 to `UNITY`.
fn ramp_of(time: u64, duration: u32, sample_rate: u32) -> (r: u32)
    ensures
        r == ramp(time, duration, sample_rate),
        r <= UNITY,
        (r == UNITY) == reached(time, duration, sample_rate),
{
    proof {
        assert(0 <= time * 1_000_000 <= 0xffff_ffff_ffff_ffff * 1_000_000) by (nonlinear_arith)
            requires
                0 <= time <= 0xffff_ffff_ffff_ffff,
        ;
        assert(0 <= duration * sample_rate <= 0xffff_ffff * 0xffff_ffff) by (nonlinear_arith)
            requires
                0 <= duration <= 0xffff_ffff,
                0 <= sample_rate <= 0xffff_ffff,
        ;
    }
    let elapsed: u128 = (time as u128) * 1_000_000u128;
    let whole: u128 = (duration as u128) * (sample_rate as u128);
    if elapsed >= whole {
        UNITY
    } else {
        proof {
            lemma_scaled_quotient(elapsed as int, whole as int, UNITY as int);
            assert(elapsed * 65_536 <= 0xffff_ffff * 0xffff_ffff * 65_536) by (nonlinear_arith)
                requires
                    elapsed < whole,
                    whole <= 0xffff_ffff * 0xffff_ffff,
            ;
        }
        let scaled: u128 = elapsed * 65_536u128;
        (scaled / whole) as u32
    }
}

/// Returns whether `time` samples are more than `duration` microseconds.
pub fn has_expired(time: u64, duration: u32, sample_rate: u32) -> (over: bool)
    ensures
        over == expired(time, duration, sample_rate),
{
    proof {
        assert(0 <= time * 1_000_000 <= 0xffff_ffff_ffff_ffff * 1_000_000) by (nonlinear_arith)
            requires
                0 <= time <= 0xffff_ffff_ffff_ffff,
        ;
        assert(0 <= duration * sample_rate <= 0xffff_ffff * 0xffff_ffff) by (nonlinear_arith)
            requires
                0 <= duration <= 0xffff_ffff,
                0 <= sample_rate <= 0xffff_ffff,
        ;
    }
    (time as u128) * 1_000_000u128 > (duration as u128) * (sample_rate as u128)
}

/// Returns the level at which a note is sustained.
fn sustain_of(adsr: &ADSRConfig) -> (s: u32)
    ensures
        s == adsr.sustain_level(),
        s <= UNITY,
{
    if adsr.sustain > UNITY {
        UNITY
    } else {
        adsr.sustain
    }
}

/// Returns the level of the decay segment for a ramp value `r`.
fn decay_of(adsr: &ADSRConfig, r: u32) -> (level: u32)
    requires
        r <= UNITY,
    ensures
        level == UNITY - ((UNITY - adsr.sustain_level()) * r) / (UNITY as int),
        level <= UNITY,
{
    let drop: u64 = (UNITY - sustain_of(adsr)) as u64;
    proof {
        lemma_scaled_quotient(r as int, UNITY as int, drop as int);
        assert(drop * r == r * drop) by (nonlinear_arith);
        assert(drop * r <= 65_536 * 65_536) by (nonlinear_arith)
            requires
                0 <= drop <= 65_536,
                0 <= r <= 65_536,
        ;
    }
    let fall: u64 = (drop * (r as u64)) / (UNITY as u64);
    UNITY - fall as u32
}

/// Returns the output of the envelope for a note in segment `phase`.
pub fn envelope_output(adsr: &ADSRConfig, phase: EnvelopeState, level: u32, sample_rate: u32) -> (out: u32)
    ensures
        out == adsr.output(phase, level, sample_rate),
{
    match phase {
        EnvelopeState::Attack { time } => ramp_of(time, adsr.attack, sample_rate),
        EnvelopeState::Decay { time } => decay_of(adsr, ramp_of(time, adsr.decay, sample_rate)),
        EnvelopeState::Sustain => sustain_of(adsr),
        EnvelopeState::Release { time } => {
            let rest: u64 = (UNITY - ramp_of(time, adsr.release, sample_rate)) as u64;
            proof {
                lemma_scaled_quotient(rest as int, UNITY as int, level as int);
                assert(level * rest == rest * level) by (nonlinear_arith);
                assert(level * rest <= 0xffff_ffff * 65_536) by (nonlinear_arith)
                    requires
                        0 <= level <= 0xffff_ffff,
                        0 <= rest <= 65_536,
                ;
            }
            (((level as u64) * rest) / (UNITY as u64)) as u32
        },
    }
}

/// Returns the segment and the level of a note `samples` samples after it
/// was in segment `phase` with level `level`.
pub fn envelope_step(
    adsr: &ADSRConfig,
    phase: EnvelopeState,
    level: u32,
    samples: u64,
    sample_rate: u32,
) -> (next: (EnvelopeState, u32))
    ensures
        next.0 == adsr.phase_after(phase, samples, sample_rate),
        next.1 == adsr.level_after(phase, level, samples, sample_rate),
{
    match phase {
        EnvelopeState::Attack { time } => {
            let now = time.saturating_add(samples);
            let r = ramp_of(now, adsr.attack, sample_rate);
            if r == UNITY {
                (EnvelopeState::Decay { time: 0 }, UNITY)
            } else {
                (EnvelopeState::Attack { time: now }, r)
            }
        },
        EnvelopeState::Decay { time } => {
            let now = time.saturating_add(samples);
            let r = ramp_of(now, adsr.decay, sample_rate);
            if r == UNITY {
                (EnvelopeState::Sustain, sustain_of(adsr))
            } else {
                (EnvelopeState::Decay { time: now }, decay_of(adsr, r))
            }
        },
        EnvelopeState::Sustain => (EnvelopeState::Sustain, sustain_of(adsr)),
        EnvelopeState::Release { time } => (
            EnvelopeState::Release { time: time.saturating_add(samples) },
            level,
        ),
    }
}

/// The state of one sounding note.
#[derive(Debug, PartialEq, Eq)]
pub struct NoteState {
    pub velocity: u8,
    pub envelope_state: EnvelopeState,
    /// The level that the envelope has reached. After the release of the
    /// note this is the level at which it was released.
    pub envelope_level: u32,
    /// Where each oscillator is in its cycle, in units of `2^-32` cycles.
    pub oscillator_phases: Vec<u32>,
    pub sample_position: u64,
}

impl NoteState {
    /// Creates the state of a note that has just been struck: at the start of
    /// its attack, at level zero, with all oscillators at the start of their
    /// cycle.
    pub fn new(velocity: u8, num_oscillators: usize) -> (state: Self)
        ensures
            state.velocity == velocity,
            state.envelope_state == (EnvelopeState::Attack { time: 0 }),
            state.envelope_level == 0,
            state.oscillator_phases@ == Seq::new(num_oscillators as nat, |i: int| 0u32),
            state.sample_position == 0,
    {
        let oscillator_phases = vec![0u32; num_oscillators];
        assert(oscillator_phases@ =~= Seq::new(num_oscillators as nat, |i: int| 0u32));
        Self {
            velocity,
            envelope_state: EnvelopeState::Attack { time: 0 },
            envelope_level: 0,
            oscillator_phases,
            sample_position: 0,
        }
    }
}

/// Returns the output of the envelope `adsr` for the note `state`.
pub fn calculate_envelope(state: &NoteState, adsr: &ADSRConfig, sample_rate: u32) -> (out: u32)
    ensures
        out == adsr.output(state.envelope_state, state.envelope_level, sample_rate),
{
    envelope_output(adsr, state.envelope_state, state.envelope_level, sample_rate)
}

/// Moves the envelope of the note `state` on by `buffer_size` samples.
/// Nothing but the segment and the level of the note changes.
pub fn advance_envelope(
    state: &mut NoteState,
    adsr: &ADSRConfig,
    sample_rate: u32,
    buffer_size: usize,
)
    ensures
        final(state).envelope_state == adsr.phase_after(
            old(state).envelope_state,
            buffer_size as u64,
            sample_rate,
        ),
        final(state).envelope_level == adsr.level_after(
            old(state).envelope_state,
            old(state).envelope_level,
            buffer_size as u64,
            sample_rate,
        ),
        final(state).velocity == old(state).velocity,
        final(state).oscillator_phases == old(state).oscillator_phases,
        final(state).sample_position == old(state).sample_position,
{
    let next = envelope_step(
        adsr,
        state.envelope_state,
        state.envelope_level,
        buffer_size as u64,
        sample_rate,
    );
    state.envelope_state = next.0;
    state.envelope_level = next.1;
}

} // verus!
