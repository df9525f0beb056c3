use aurio::audio::voice::UNITY;
use aurio::audio::{
    ADSRConfig, EnvelopeState, Instrument, NotePlaybackState, OscConfig, OscSample, PlaybackState,
    TrackConfig, Tuning, Wave,
};

const RATE: u32 = 48_000;

fn plain_adsr() -> ADSRConfig {
    ADSRConfig { attack: 0, decay: 0, sustain: UNITY, release: 0 }
}

fn osc(wave: Wave, gain: i32, semitone: i8) -> OscConfig {
    OscConfig { wave, gain, semitone }
}

fn multi(oscillators: Vec<OscConfig>, adsr: ADSRConfig) -> TrackConfig {
    TrackConfig::new(0, Instrument::MultiOsc { oscillators }, adsr)
}

// An oscillator at pitch `p` moves on by `p * 1000` per sample.
fn simple_tuning() -> Tuning {
    Tuning::new((0..128u32).map(|p| p * 1000).collect()).unwrap()
}

fn equal_tempered(rate: f64) -> Tuning {
    Tuning::new(
        (0..128)
            .map(|p| {
                let freq = 440.0 * 2.0_f64.powf((p as f64 - 69.0) / 12.0);
                (freq / rate * 4_294_967_296.0).round() as u32
            })
            .collect(),
    )
    .unwrap()
}

fn voice(velocity: u8, envelope_state: EnvelopeState, envelope_level: u32, phases: Vec<u32>) -> NotePlaybackState {
    NotePlaybackState {
        velocity,
        envelope_state,
        envelope_level,
        oscillator_phases: phases,
        sample_position: 0,
    }
}

fn sample(wave: Wave, phase: u32, gain: i32, envelope: u32, velocity: u8) -> OscSample {
    OscSample { wave, phase, gain, envelope, velocity, volume: UNITY, pan: 0 }
}

#[test]
fn a_new_track_config_is_at_full_volume_in_the_centre() {
    let config = multi(vec![osc(Wave::Sine, 100, 0), osc(Wave::Saw, 200, 7)], plain_adsr());
    assert_eq!(config.id, 0);
    assert_eq!(config.volume, UNITY);
    assert_eq!(config.pan, 0);
    assert_eq!(config.adsr, plain_adsr());
    assert_eq!(config.num_oscillators(), 2);
    assert_eq!(config.clone(), config);
}

#[test]
fn a_sampler_has_no_oscillators() {
    let sampler = Instrument::Sampler { sample_id: "kick".to_string(), root_pitch: 60 };
    assert_eq!(sampler.num_oscillators(), 0);
    assert_eq!(sampler.clone(), sampler);
    let config = TrackConfig::new(4, sampler, plain_adsr());
    assert_eq!(config.id, 4);
    assert_eq!(config.num_oscillators(), 0);
}

#[test]
fn a_tuning_has_one_entry_for_each_pitch() {
    assert!(Tuning::new(vec![0; 127]).is_none());
    assert!(Tuning::new(vec![0; 129]).is_none());
    assert!(Tuning::new(Vec::new()).is_none());
    let tuning = simple_tuning();
    assert_eq!(tuning.increment(0), 0);
    assert_eq!(tuning.increment(69), 69_000);
    assert_eq!(tuning.increment(127), 127_000);
    assert_eq!(tuning.duplicate(), tuning);
}

#[test]
fn a_new_voice_table_is_silent() {
    let state = PlaybackState::new();
    for pitch in 0..=255u8 {
        assert_eq!(state.voice(pitch), None);
    }
    assert_eq!(PlaybackState::default(), state);
}

#[test]
fn a_new_note_starts_its_attack_with_all_phases_at_zero() {
    assert_eq!(
        NotePlaybackState::new(77, 3),
        voice(77, EnvelopeState::Attack { time: 0 }, 0, vec![0, 0, 0])
    );
}

#[test]
fn note_on_fills_the_slot_of_its_pitch() {
    let mut state = PlaybackState::new();
    state.note_on(60, 100, 2);
    assert_eq!(state.voice(60), Some(&voice(100, EnvelopeState::Attack { time: 0 }, 0, vec![0, 0])));
    assert_eq!(state.voice(59), None);
    assert_eq!(state.voice(61), None);
    state.note_on(127, 1, 0);
    assert_eq!(state.voice(127), Some(&voice(1, EnvelopeState::Attack { time: 0 }, 0, vec![])));
    state.note_on(0, 2, 1);
    assert_eq!(state.voice(0), Some(&voice(2, EnvelopeState::Attack { time: 0 }, 0, vec![0])));
}

#[test]
fn note_on_replaces_what_sounded_there() {
    let mut state = PlaybackState::new();
    let config = multi(vec![osc(Wave::Sine, UNITY as i32, 0)], plain_adsr());
    let mut out = Vec::new();
    state.note_on(60, 100, 1);
    state.render_sample(&config, RATE, &simple_tuning(), &mut out);
    state.note_on(60, 50, 1);
    assert_eq!(state.voice(60), Some(&voice(50, EnvelopeState::Attack { time: 0 }, 0, vec![0])));
}

#[test]
fn a_pitch_without_a_slot_is_ignored() {
    let mut state = PlaybackState::new();
    state.note_on(128, 100, 2);
    state.note_on(255, 100, 2);
    state.note_off(128);
    state.note_off(255);
    assert_eq!(state, PlaybackState::new());
}

#[test]
fn note_off_releases_the_note() {
    let mut state = PlaybackState::new();
    state.note_on(60, 100, 2);
    state.note_on(61, 90, 1);
    state.note_off(60);
    assert_eq!(state.voice(60), Some(&voice(100, EnvelopeState::Release { time: 0 }, 0, vec![0, 0])));
    assert_eq!(state.voice(61), Some(&voice(90, EnvelopeState::Attack { time: 0 }, 0, vec![0])));
    state.note_off(62);
    assert_eq!(state.voice(62), None);
}

#[test]
fn stop_all_frees_every_slot() {
    let mut state = PlaybackState::new();
    state.note_on(0, 100, 2);
    state.note_on(60, 100, 2);
    state.note_on(127, 100, 2);
    state.stop_all();
    assert_eq!(state, PlaybackState::new());
}

#[test]
fn a_silent_track_renders_nothing() {
    let mut state = PlaybackState::new();
    let config = multi(vec![osc(Wave::Sine, UNITY as i32, 0)], plain_adsr());
    let mut out = vec![sample(Wave::Saw, 1, 2, 3, 4)];
    state.render_sample(&config, RATE, &simple_tuning(), &mut out);
    assert_eq!(out, vec![sample(Wave::Saw, 1, 2, 3, 4)]);
    assert_eq!(state, PlaybackState::new());
}

#[test]
fn render_lists_each_oscillator_and_moves_the_note_on() {
    let mut state = PlaybackState::new();
    let config = multi(vec![osc(Wave::Sine, 32_768, 0), osc(Wave::Saw, 16_384, 12)], plain_adsr());
    let tuning = simple_tuning();
    let mut out = Vec::new();
    state.note_on(69, 127, 2);

    state.render_sample(&config, RATE, &tuning, &mut out);
    assert_eq!(
        out,
        vec![sample(Wave::Sine, 0, 32_768, UNITY, 127), sample(Wave::Saw, 0, 16_384, UNITY, 127)]
    );
    assert_eq!(
        state.voice(69),
        Some(&voice(127, EnvelopeState::Decay { time: 0 }, UNITY, vec![69_000, 81_000]))
    );

    out.clear();
    state.render_sample(&config, RATE, &tuning, &mut out);
    assert_eq!(
        out,
        vec![
            sample(Wave::Sine, 69_000, 32_768, UNITY, 127),
            sample(Wave::Saw, 81_000, 16_384, UNITY, 127)
        ]
    );
    assert_eq!(
        state.voice(69),
        Some(&voice(127, EnvelopeState::Sustain, UNITY, vec![138_000, 162_000]))
    );
}

#[test]
fn render_goes_by_pitch_and_then_by_oscillator() {
    let mut state = PlaybackState::new();
    let config = multi(vec![osc(Wave::Sine, 1, 0), osc(Wave::Square, 2, 0)], plain_adsr());
    let mut out = Vec::new();
    state.note_on(72, 30, 2);
    state.note_on(48, 20, 2);
    state.render_sample(&config, RATE, &simple_tuning(), &mut out);
    assert_eq!(
        out,
        vec![
            sample(Wave::Sine, 0, 1, UNITY, 20),
            sample(Wave::Square, 0, 2, UNITY, 20),
            sample(Wave::Sine, 0, 1, UNITY, 30),
            sample(Wave::Square, 0, 2, UNITY, 30),
        ]
    );
    assert_eq!(state.voice(48).unwrap().oscillator_phases, vec![48_000, 48_000]);
    assert_eq!(state.voice(72).unwrap().oscillator_phases, vec![72_000, 72_000]);
}

#[test]
fn render_carries_volume_and_pan() {
    let mut state = PlaybackState::new();
    let mut config = multi(vec![osc(Wave::Sine, 5, 0)], plain_adsr());
    config.volume = 1_234;
    config.pan = -4_321;
    let mut out = Vec::new();
    state.note_on(10, 64, 1);
    state.render_sample(&config, RATE, &simple_tuning(), &mut out);
    assert_eq!(
        out,
        vec![OscSample {
            wave: Wave::Sine,
            phase: 0,
            gain: 5,
            envelope: UNITY,
            velocity: 64,
            volume: 1_234,
            pan: -4_321
        }]
    );
}

#[test]
fn transposition_stays_within_the_pitches() {
    let mut state = PlaybackState::new();
    let config = multi(
        vec![
            osc(Wave::Sine, 1, 127),
            osc(Wave::Sine, 1, -128),
            osc(Wave::Sine, 1, 27),
            osc(Wave::Sine, 1, 28),
            osc(Wave::Sine, 1, -100),
            osc(Wave::Sine, 1, -101),
        ],
        plain_adsr(),
    );
    let mut out = Vec::new();
    state.note_on(100, 64, 6);
    state.render_sample(&config, RATE, &simple_tuning(), &mut out);
    assert_eq!(
        state.voice(100).unwrap().oscillator_phases,
        vec![127_000, 0, 127_000, 127_000, 0, 0]
    );
}

#[test]
fn a_phase_starts_over_at_the_end_of_the_cycle() {
    let mut increments = vec![0u32; 128];
    increments[60] = 0x8000_0000;
    increments[61] = 0xffff_ffff;
    let tuning = Tuning::new(increments).unwrap();
    let config = multi(vec![osc(Wave::Square, 1, 0)], plain_adsr());
    let mut state = PlaybackState::new();
    let mut out = Vec::new();
    state.note_on(60, 64, 1);
    state.note_on(61, 64, 1);
    state.render_sample(&config, RATE, &tuning, &mut out);
    assert_eq!(state.voice(60).unwrap().oscillator_phases, vec![0x8000_0000]);
    assert_eq!(state.voice(61).unwrap().oscillator_phases, vec![0xffff_ffff]);
    state.render_sample(&config, RATE, &tuning, &mut out);
    assert_eq!(state.voice(60).unwrap().oscillator_phases, vec![0]);
    assert_eq!(state.voice(61).unwrap().oscillator_phases, vec![0xffff_fffe]);
}

#[test]
fn an_oscillator_without_a_phase_is_silent() {
    let mut state = PlaybackState::new();
    let config = multi(vec![osc(Wave::Sine, 1, 0), osc(Wave::Saw, 2, 0)], plain_adsr());
    let mut out = Vec::new();
    state.note_on(50, 64, 1);
    state.render_sample(&config, RATE, &simple_tuning(), &mut out);
    assert_eq!(out, vec![sample(Wave::Sine, 0, 1, UNITY, 64)]);
    assert_eq!(state.voice(50).unwrap().oscillator_phases, vec![50_000]);
}

#[test]
fn a_phase_without_an_oscillator_stands_still() {
    let mut state = PlaybackState::new();
    let config = multi(vec![osc(Wave::Sine, 1, 0)], plain_adsr());
    let mut out = Vec::new();
    state.note_on(50, 64, 3);
    state.render_sample(&config, RATE, &simple_tuning(), &mut out);
    assert_eq!(out, vec![sample(Wave::Sine, 0, 1, UNITY, 64)]);
    assert_eq!(state.voice(50).unwrap().oscillator_phases, vec![50_000, 0, 0]);
}

#[test]
fn a_sampler_renders_nothing_and_keeps_the_envelope_going() {
    let mut state = PlaybackState::new();
    let config = TrackConfig::new(
        0,
        Instrument::Sampler { sample_id: "snare".to_string(), root_pitch: 60 },
        plain_adsr(),
    );
    let mut out = Vec::new();
    state.note_on(50, 64, 2);
    state.render_sample(&config, RATE, &simple_tuning(), &mut out);
    assert!(out.is_empty());
    assert_eq!(state.voice(50), Some(&voice(64, EnvelopeState::Decay { time: 0 }, UNITY, vec![0, 0])));
    state.note_off(50);
    state.render_sample(&config, RATE, &simple_tuning(), &mut out);
    assert!(out.is_empty());
    assert_eq!(state.voice(50), None);
}

#[test]
fn the_envelope_shapes_what_is_rendered() {
    let adsr = ADSRConfig { attack: 10_000, decay: 20_000, sustain: 32_768, release: 10_000 };
    let config = multi(vec![osc(Wave::Sine, 1, 0)], adsr);
    let tuning = simple_tuning();
    let mut state = PlaybackState::new();
    state.note_on(1, 64, 1);
    let mut envelopes = Vec::new();
    for _ in 0..1_500 {
        let mut out = Vec::new();
        state.render_sample(&config, RATE, &tuning, &mut out);
        assert_eq!(out.len(), 1);
        envelopes.push(out[0].envelope);
    }
    assert_eq!(envelopes[0], 0);
    assert_eq!(envelopes[1], 136);
    assert_eq!(envelopes[240], 32_768);
    assert_eq!(envelopes[479], 65_399);
    // The attack is over after 480 samples, and the decay starts at unity.
    assert_eq!(envelopes[480], UNITY);
    assert_eq!(envelopes[480 + 480], 49_152);
    // The decay is over after 960 more samples.
    assert_eq!(envelopes[480 + 960], 32_768);
    assert_eq!(envelopes[1_499], 32_768);
    assert_eq!(
        state.voice(1),
        Some(&voice(64, EnvelopeState::Sustain, 32_768, vec![1_500_000]))
    );
    state.note_off(1);
    let mut out = Vec::new();
    for _ in 0..241 {
        out.clear();
        state.render_sample(&config, RATE, &tuning, &mut out);
    }
    assert_eq!(out[0].envelope, 16_384);
}

#[test]
fn a_released_note_is_gone_after_its_release() {
    // A release of 10 ms takes 480 samples.
    let adsr = ADSRConfig { attack: 0, decay: 0, sustain: UNITY, release: 10_000 };
    let config = multi(vec![osc(Wave::Sine, 1, 0)], adsr);
    let tuning = simple_tuning();
    let mut state = PlaybackState::new();
    let mut out = Vec::new();
    state.note_on(60, 100, 1);
    for _ in 0..100 {
        state.render_sample(&config, RATE, &tuning, &mut out);
    }
    state.note_off(60);
    for _ in 0..480 {
        state.render_sample(&config, RATE, &tuning, &mut out);
    }
    assert_eq!(
        state.voice(60).map(|v| v.envelope_state),
        Some(EnvelopeState::Release { time: 480 })
    );
    state.render_sample(&config, RATE, &tuning, &mut out);
    assert_eq!(state.voice(60), None);
    assert_eq!(out.len(), 100 + 481);
}

#[test]
fn a_release_of_no_length_ends_with_the_next_sample() {
    let config = multi(vec![osc(Wave::Sine, 1, 0)], plain_adsr());
    let mut state = PlaybackState::new();
    let mut out = Vec::new();
    state.note_on(60, 100, 1);
    state.note_off(60);
    state.render_sample(&config, RATE, &simple_tuning(), &mut out);
    assert_eq!(state, PlaybackState::new());
    assert_eq!(out, vec![sample(Wave::Sine, 0, 1, 0, 100)]);
}

#[test]
fn volume_and_pan_leave_the_voices_alone() {
    let adsr = ADSRConfig { attack: 5_000, decay: 5_000, sustain: 40_000, release: 5_000 };
    let centre = multi(vec![osc(Wave::Sine, 7, 0), osc(Wave::Saw, 9, -12)], adsr);
    let mut aside = centre.clone();
    aside.volume = UNITY / 2;
    aside.pan = -(UNITY as i32);
    let tuning = equal_tempered(RATE as f64);
    let mut a = PlaybackState::new();
    let mut b = PlaybackState::new();
    for state in [&mut a, &mut b] {
        state.note_on(60, 100, 2);
        state.note_on(64, 80, 2);
    }
    for step in 0..1_000 {
        if step == 600 {
            a.note_off(60);
            b.note_off(60);
        }
        let mut out_a = Vec::new();
        let mut out_b = Vec::new();
        a.render_sample(&centre, RATE, &tuning, &mut out_a);
        // The second track is switched to the other settings half way.
        let config = if step < 500 { &centre } else { &aside };
        b.render_sample(config, RATE, &tuning, &mut out_b);
        assert_eq!(a, b);
        let expected: Vec<OscSample> = out_a
            .iter()
            .map(|s| OscSample { volume: config.volume, pan: config.pan, ..*s })
            .collect();
        assert_eq!(out_b, expected);
    }
}

#[test]
fn two_sines_an_octave_apart() {
    let config = multi(vec![osc(Wave::Sine, 32_768, 0), osc(Wave::Sine, 32_768, 12)], plain_adsr());
    let tuning = equal_tempered(48_000.0);
    assert_eq!(tuning.increment(69), 39_370_534);
    assert_eq!(tuning.increment(81), 78_741_067);
    let mut state = PlaybackState::new();
    let mut out = Vec::new();
    state.note_on(69, 127, 2);
    state.render_sample(&config, RATE, &tuning, &mut out);
    // Both sines start at the start of their cycle.
    assert_eq!(
        out,
        vec![sample(Wave::Sine, 0, 32_768, UNITY, 127), sample(Wave::Sine, 0, 32_768, UNITY, 127)]
    );
    for _ in 1..109 {
        state.render_sample(&config, RATE, &tuning, &mut out);
    }
    // After 109 samples the oscillator at 440 Hz is at the very end of its
    // first cycle, and the next sample takes it into the second.
    assert_eq!(state.voice(69).unwrap().oscillator_phases[0], 4_291_388_206);
    state.render_sample(&config, RATE, &tuning, &mut out);
    assert_eq!(state.voice(69).unwrap().oscillator_phases[0], 35_791_444);
}
