use aurio::audio::voice::UNITY;
use aurio::audio::{
    ADSRConfig, EnvelopeState, Instrument, NotePlaybackState, OscConfig, OscSample, PlaybackState,
    TrackConfig, Tuning, Wave,
};
use aurio::engine::{
    audio_callback, collect_due, play_buffer, process_event, render_frame, take_in, AudioState,
};
use aurio::events::{Event, MidiMessage, ScheduledEvent};
use aurio::queue::event_queue;
use aurio::timing::scheduler::push_events;

const RATE: u32 = 48_000;

fn plain_adsr() -> ADSRConfig {
    ADSRConfig { attack: 0, decay: 0, sustain: UNITY, release: 0 }
}

fn config(oscillators: usize) -> TrackConfig {
    TrackConfig::new(
        0,
        Instrument::MultiOsc {
            oscillators: (0..oscillators)
                .map(|i| OscConfig { wave: Wave::Sine, gain: i as i32 + 1, semitone: 0 })
                .collect(),
        },
        plain_adsr(),
    )
}

fn tuning() -> Tuning {
    Tuning::new((0..128u32).map(|p| p * 1000).collect()).unwrap()
}

fn fresh(velocity: u8, oscillators: usize) -> NotePlaybackState {
    NotePlaybackState::new(velocity, oscillators)
}

fn on(track_id: usize, pitch: u8, velocity: u8, at: u64) -> ScheduledEvent {
    ScheduledEvent {
        sample_timestamp: at,
        event: Event::MidiEvent { track_id, message: MidiMessage::NoteOn { pitch, velocity } },
    }
}

fn off(track_id: usize, pitch: u8, at: u64) -> ScheduledEvent {
    ScheduledEvent {
        sample_timestamp: at,
        event: Event::MidiEvent { track_id, message: MidiMessage::NoteOff { pitch } },
    }
}

fn stop(track_id: usize, at: u64) -> ScheduledEvent {
    ScheduledEvent { sample_timestamp: at, event: Event::StopAllNotes { track_id } }
}

fn sample(gain: i32, phase: u32, velocity: u8) -> OscSample {
    OscSample { wave: Wave::Sine, phase, gain, envelope: UNITY, velocity, volume: UNITY, pan: 0 }
}

#[test]
fn a_note_on_strikes_a_note_on_its_track() {
    let mut states = vec![PlaybackState::new(), PlaybackState::new()];
    let configs = vec![config(1), config(3)];
    process_event(&mut states, &configs, &on(1, 60, 100, 0));
    assert_eq!(states[0], PlaybackState::new());
    assert_eq!(states[1].voice(60), Some(&fresh(100, 3)));
    process_event(&mut states, &configs, &on(0, 61, 90, 0));
    assert_eq!(states[0].voice(61), Some(&fresh(90, 1)));
}

#[test]
fn a_note_on_a_track_without_configuration_has_no_oscillators() {
    let mut states = vec![PlaybackState::new(), PlaybackState::new()];
    let configs = vec![config(2)];
    process_event(&mut states, &configs, &on(1, 60, 100, 0));
    assert_eq!(states[1].voice(60), Some(&fresh(100, 0)));
}

#[test]
fn an_event_for_a_track_without_voices_is_ignored() {
    let mut states = vec![PlaybackState::new()];
    let configs = vec![config(1), config(1), config(1)];
    process_event(&mut states, &configs, &on(1, 60, 100, 0));
    process_event(&mut states, &configs, &off(2, 60, 0));
    process_event(&mut states, &configs, &stop(7, 0));
    process_event(&mut states, &configs, &on(usize::MAX, 60, 100, 0));
    assert_eq!(states, vec![PlaybackState::new()]);
}

#[test]
fn an_event_for_a_pitch_without_a_slot_is_ignored() {
    let mut states = vec![PlaybackState::new()];
    let configs = vec![config(1)];
    process_event(&mut states, &configs, &on(0, 128, 100, 0));
    process_event(&mut states, &configs, &off(0, 200, 0));
    assert_eq!(states, vec![PlaybackState::new()]);
}

#[test]
fn a_note_off_releases_the_note() {
    let mut states = vec![PlaybackState::new()];
    let configs = vec![config(1)];
    process_event(&mut states, &configs, &on(0, 60, 100, 0));
    process_event(&mut states, &configs, &off(0, 60, 0));
    assert_eq!(
        states[0].voice(60).map(|v| v.envelope_state),
        Some(EnvelopeState::Release { time: 0 })
    );
    process_event(&mut states, &configs, &off(0, 61, 0));
    assert_eq!(states[0].voice(61), None);
}

#[test]
fn a_stop_frees_the_slots_of_its_track_only() {
    let mut states = vec![PlaybackState::new(), PlaybackState::new()];
    let configs = vec![config(1), config(1)];
    process_event(&mut states, &configs, &on(0, 60, 100, 0));
    process_event(&mut states, &configs, &on(0, 64, 100, 0));
    process_event(&mut states, &configs, &on(1, 60, 100, 0));
    process_event(&mut states, &configs, &stop(0, 0));
    assert_eq!(states[0], PlaybackState::new());
    assert_eq!(states[1].voice(60), Some(&fresh(100, 1)));
}

#[test]
fn a_node_transition_changes_no_voice() {
    let mut states = vec![PlaybackState::new()];
    let configs = vec![config(1)];
    process_event(&mut states, &configs, &on(0, 60, 100, 0));
    let transition = ScheduledEvent {
        sample_timestamp: 0,
        event: Event::NodeTransition { track_id: 0, new_node_id: "B".to_string() },
    };
    process_event(&mut states, &configs, &transition);
    assert_eq!(states[0].voice(60), Some(&fresh(100, 1)));
}

#[test]
fn render_frame_renders_the_tracks_in_order() {
    let mut states = vec![PlaybackState::new(), PlaybackState::new()];
    let configs = vec![config(1), config(2)];
    states[0].note_on(10, 1, 1);
    states[1].note_on(20, 2, 2);
    let mut out = vec![sample(9, 9, 9)];
    render_frame(&mut out, &mut states, &configs, RATE, &tuning());
    assert_eq!(out, vec![sample(9, 9, 9), sample(1, 0, 1), sample(1, 0, 2), sample(2, 0, 2)]);
    assert_eq!(states[0].voice(10).unwrap().oscillator_phases, vec![10_000]);
    assert_eq!(states[1].voice(20).unwrap().oscillator_phases, vec![20_000, 20_000]);
}

#[test]
fn render_frame_leaves_out_tracks_without_configuration_or_voices() {
    let mut states = vec![PlaybackState::new(), PlaybackState::new()];
    let configs = vec![config(1)];
    states[0].note_on(10, 1, 1);
    states[1].note_on(20, 2, 1);
    let mut out = Vec::new();
    render_frame(&mut out, &mut states, &configs, RATE, &tuning());
    assert_eq!(out, vec![sample(1, 0, 1)]);
    assert_eq!(states[1].voice(20), Some(&fresh(2, 1)));

    let mut states = vec![PlaybackState::new()];
    let configs = vec![config(1), config(1)];
    states[0].note_on(10, 1, 1);
    let mut out = Vec::new();
    render_frame(&mut out, &mut states, &configs, RATE, &tuning());
    assert_eq!(out, vec![sample(1, 0, 1)]);
}

#[test]
fn collect_due_takes_what_is_due_and_holds_back_the_next() {
    let (mut producer, mut consumer) = event_queue(16).unwrap();
    let events = vec![on(0, 1, 1, 5), on(0, 2, 1, 3), on(0, 3, 1, 10), on(0, 4, 1, 2)];
    assert_eq!(push_events(&events, &mut producer), Ok(()));
    let mut pending = None;
    let mut due = vec![stop(9, 9)];
    collect_due(&mut pending, &mut consumer, 10, &mut due);
    assert_eq!(due, vec![on(0, 1, 1, 5), on(0, 2, 1, 3)]);
    assert_eq!(pending, Some(on(0, 3, 1, 10)));

    // What is held back is not due before sample 10 either, and nothing
    // more is taken from the queue.
    collect_due(&mut pending, &mut consumer, 10, &mut due);
    assert!(due.is_empty());
    assert_eq!(pending, Some(on(0, 3, 1, 10)));

    collect_due(&mut pending, &mut consumer, 11, &mut due);
    assert_eq!(due, vec![on(0, 3, 1, 10), on(0, 4, 1, 2)]);
    assert_eq!(pending, None);

    collect_due(&mut pending, &mut consumer, 11, &mut due);
    assert!(due.is_empty());
    assert_eq!(pending, None);
}

#[test]
fn collect_due_reads_the_queue_until_it_is_empty() {
    let (mut producer, mut consumer) = event_queue(64).unwrap();
    let events: Vec<ScheduledEvent> = (0..50).map(|i| on(0, 60, 100, i)).collect();
    assert_eq!(push_events(&events, &mut producer), Ok(()));
    let mut pending = None;
    let mut due = Vec::new();
    collect_due(&mut pending, &mut consumer, 1_000, &mut due);
    assert_eq!(due, events);
    assert_eq!(pending, None);
}

#[test]
fn take_in_sorts_an_arrival_into_due_or_held_back() {
    let mut due = vec![on(0, 1, 1, 1)];
    let mut pending = None;
    assert!(take_in(Some(on(0, 2, 2, 9)), 10, &mut due, &mut pending));
    assert_eq!(due, vec![on(0, 1, 1, 1), on(0, 2, 2, 9)]);
    assert_eq!(pending, None);
    assert!(!take_in(None, 10, &mut due, &mut pending));
    assert_eq!(due, vec![on(0, 1, 1, 1), on(0, 2, 2, 9)]);
    assert_eq!(pending, None);
    assert!(!take_in(Some(on(0, 3, 3, 10)), 10, &mut due, &mut pending));
    assert_eq!(due, vec![on(0, 1, 1, 1), on(0, 2, 2, 9)]);
    assert_eq!(pending, Some(on(0, 3, 3, 10)));
}

#[test]
fn play_buffer_applies_each_event_in_its_frame() {
    let mut states = vec![PlaybackState::new()];
    let configs = vec![config(1)];
    let events = vec![on(0, 60, 100, 102), on(0, 62, 90, 102), off(0, 60, 105), stop(0, 107)];
    let mut out = Vec::new();
    let mut ends = Vec::new();
    play_buffer(&mut states, &configs, &events, 100, 8, RATE, &tuning(), &mut out, &mut ends);
    // Frames 0 and 1 are silent. Pitch 60 sounds in frames 2 to 5: it is
    // released in frame 5 and its release has no length. Pitch 62 sounds
    // until the stop in frame 7.
    assert_eq!(ends, vec![0, 0, 2, 4, 6, 8, 9, 9]);
    assert_eq!(
        out,
        vec![
            sample(1, 0, 100),
            sample(1, 0, 90),
            sample(1, 60_000, 100),
            sample(1, 62_000, 90),
            sample(1, 120_000, 100),
            sample(1, 124_000, 90),
            OscSample { envelope: 0, ..sample(1, 180_000, 100) },
            sample(1, 186_000, 90),
            sample(1, 248_000, 90),
        ]
    );
    assert_eq!(states, vec![PlaybackState::new()]);
}

#[test]
fn play_buffer_applies_late_events_in_the_first_frame() {
    let mut states = vec![PlaybackState::new()];
    let configs = vec![config(1)];
    let events = vec![on(0, 60, 100, 3), on(0, 61, 100, 99)];
    let mut out = Vec::new();
    let mut ends = Vec::new();
    play_buffer(&mut states, &configs, &events, 100, 2, RATE, &tuning(), &mut out, &mut ends);
    assert_eq!(ends, vec![2, 4]);
}

#[test]
fn play_buffer_leaves_events_of_later_frames_alone() {
    let mut states = vec![PlaybackState::new()];
    let configs = vec![config(1)];
    let events = vec![on(0, 60, 100, 4)];
    let mut out = vec![sample(5, 5, 5)];
    let mut ends = vec![77];
    play_buffer(&mut states, &configs, &events, 0, 4, RATE, &tuning(), &mut out, &mut ends);
    assert_eq!(ends, vec![77, 1, 1, 1, 1]);
    assert_eq!(out, vec![sample(5, 5, 5)]);
    assert_eq!(states, vec![PlaybackState::new()]);
}

#[test]
fn the_callback_renders_a_buffer_and_moves_the_clock_on() {
    let (mut producer, consumer) = event_queue(16).unwrap();
    let mut state = AudioState::new(1, consumer, RATE, tuning());
    assert_eq!(state.playback_states, vec![PlaybackState::new()]);
    assert_eq!(state.pending_event, None);
    let configs = vec![config(1)];
    let events = vec![off(0, 60, 5), on(0, 60, 100, 2), on(0, 61, 100, 100)];
    assert_eq!(push_events(&events, &mut producer), Ok(()));

    let mut out = vec![sample(5, 5, 5)];
    let mut ends = vec![77];
    let next = audio_callback(&mut state, &configs, 0, 8, true, &mut out, &mut ends);
    assert_eq!(next, 8);
    // The events are put in order of their timestamps first.
    assert_eq!(ends, vec![0, 0, 1, 2, 3, 4, 4, 4]);
    assert_eq!(
        out,
        vec![
            sample(1, 0, 100),
            sample(1, 60_000, 100),
            sample(1, 120_000, 100),
            OscSample { envelope: 0, ..sample(1, 180_000, 100) },
        ]
    );
    assert_eq!(state.pending_event, Some(on(0, 61, 100, 100)));

    let next = audio_callback(&mut state, &configs, next, 92, true, &mut out, &mut ends);
    assert_eq!(next, 100);
    assert!(out.is_empty());
    assert_eq!(ends, vec![0; 92]);
    assert_eq!(state.pending_event, Some(on(0, 61, 100, 100)));

    let next = audio_callback(&mut state, &configs, next, 2, true, &mut out, &mut ends);
    assert_eq!(next, 102);
    assert_eq!(ends, vec![1, 2]);
    assert_eq!(state.pending_event, None);
}

#[test]
fn the_clock_never_goes_back() {
    let (_producer, consumer) = event_queue(4).unwrap();
    let mut state = AudioState::new(0, consumer, RATE, tuning());
    let configs = Vec::new();
    let mut out = Vec::new();
    let mut ends = Vec::new();
    let mut clock = 0;
    for frames in [0usize, 1, 64, 0, 512, 3] {
        let next = audio_callback(&mut state, &configs, clock, frames, frames % 2 == 0, &mut out, &mut ends);
        assert!(next >= clock);
        assert_eq!(next, clock + frames as u64);
        assert_eq!(ends.len(), frames);
        clock = next;
    }
    assert_eq!(clock, 580);
    assert_eq!(audio_callback(&mut state, &configs, u64::MAX - 1, 2, true, &mut out, &mut ends), u64::MAX);
    assert_eq!(audio_callback(&mut state, &configs, u64::MAX, 1, false, &mut out, &mut ends), u64::MAX);
}

#[test]
fn the_callback_gets_along_with_more_configurations_than_voices() {
    let (mut producer, consumer) = event_queue(4).unwrap();
    let mut state = AudioState::new(1, consumer, RATE, tuning());
    let configs = vec![config(1), config(2)];
    assert_eq!(push_events(&vec![on(1, 60, 100, 0), on(0, 60, 100, 0)], &mut producer), Ok(()));
    let mut out = Vec::new();
    let mut ends = Vec::new();
    audio_callback(&mut state, &configs, 0, 1, true, &mut out, &mut ends);
    assert_eq!(out, vec![sample(1, 0, 100)]);
}

#[test]
fn a_paused_engine_is_silent_and_keeps_its_voices_going() {
    let (mut producer, consumer) = event_queue(16).unwrap();
    let (_other, twin) = event_queue(16).unwrap();
    let mut paused = AudioState::new(1, consumer, RATE, tuning());
    let mut playing = AudioState::new(1, twin, RATE, tuning());
    let configs = vec![config(1)];
    assert_eq!(push_events(&vec![on(0, 60, 100, 2)], &mut producer), Ok(()));
    playing.playback_states[0].note_on(60, 100, 1);

    let mut out = vec![sample(5, 5, 5)];
    let mut ends = vec![77];
    let next = audio_callback(&mut paused, &configs, 0, 4, false, &mut out, &mut ends);
    // The clock goes on and the note is struck, but nothing is heard.
    assert_eq!(next, 4);
    assert!(out.is_empty());
    assert_eq!(ends, vec![0, 0, 0, 0]);
    assert_eq!(paused.playback_states[0].voice(60).unwrap().oscillator_phases, vec![120_000]);

    let next = audio_callback(&mut playing, &configs, 2, 2, true, &mut out, &mut ends);
    assert_eq!(next, 4);
    assert_eq!(ends, vec![1, 2]);
    assert_eq!(playing.playback_states, paused.playback_states);

    // Once the engine plays again the note is heard where it has got to.
    audio_callback(&mut paused, &configs, 4, 1, true, &mut out, &mut ends);
    assert_eq!(out, vec![sample(1, 120_000, 100)]);
    assert_eq!(ends, vec![1]);
}

#[test]
fn the_callback_keeps_the_events_of_the_buffer() {
    let (mut producer, consumer) = event_queue(16).unwrap();
    let mut state = AudioState::new(1, consumer, RATE, tuning());
    assert!(state.due.is_empty());
    let configs = vec![config(1)];
    let events = vec![off(0, 60, 5), on(0, 60, 100, 2), on(0, 61, 100, 100)];
    assert_eq!(push_events(&events, &mut producer), Ok(()));
    let mut out = Vec::new();
    let mut ends = Vec::new();
    audio_callback(&mut state, &configs, 0, 8, true, &mut out, &mut ends);
    assert_eq!(state.due, vec![on(0, 60, 100, 2), off(0, 60, 5)]);
    audio_callback(&mut state, &configs, 8, 8, true, &mut out, &mut ends);
    assert!(state.due.is_empty());
}
