use aurio::engine::{collect_due, Entry, TimingState, Transition};
use aurio::events::{Event, MidiMessage, ScheduledEvent};
use aurio::queue::{event_queue, EventConsumer};
use aurio::timing::{
    Edge, GeneratedPattern, Node, Note, Sequence, StateGraph, StaticPattern, TransitionTiming,
};

const BPM: u32 = 60_000;
const RATE: u32 = 48_000;

fn note(pitch: u8, velocity: u8, start_tick: u64, duration_ticks: u64) -> Note {
    Note { pitch, velocity, start_tick, duration_ticks }
}

// A node whose pattern is `beats` beats long.
fn node(id: &str, beats: u32, notes: Vec<Note>) -> Node {
    Node {
        id: id.to_string(),
        sequence: Sequence::Static(StaticPattern {
            duration_bars: 1,
            time_signature: (beats, 4),
            notes,
        }),
        hooks: Vec::new(),
    }
}

fn scripted(id: &str, beats: u32) -> Node {
    Node {
        id: id.to_string(),
        sequence: Sequence::Generated(GeneratedPattern {
            duration_bars: 1,
            time_signature: (beats, 4),
            function: "pattern()".to_string(),
        }),
        hooks: Vec::new(),
    }
}

fn edge(from: &str, to: &str) -> Edge {
    Edge {
        from: from.to_string(),
        to: to.to_string(),
        condition: String::new(),
        timing: TransitionTiming::Immediate,
        inlet_hook: None,
    }
}

fn on(track_id: usize, pitch: u8, velocity: u8, at: u64) -> ScheduledEvent {
    ScheduledEvent {
        sample_timestamp: at,
        event: Event::MidiEvent { track_id, message: MidiMessage::NoteOn { pitch, velocity } },
    }
}

fn off(track_id: usize, pitch: u8, at: u64) -> ScheduledEvent {
    ScheduledEvent {
        sample_timestamp: at,
        event: Event::MidiEvent { track_id, message: MidiMessage::NoteOff { pitch } },
    }
}

fn stop(track_id: usize, at: u64) -> ScheduledEvent {
    ScheduledEvent { sample_timestamp: at, event: Event::StopAllNotes { track_id } }
}

fn everything(consumer: &mut EventConsumer) -> Vec<ScheduledEvent> {
    let mut pending = None;
    let mut all = Vec::new();
    collect_due(&mut pending, consumer, u64::MAX, &mut all);
    all.extend(pending);
    all
}

fn entry(delivered: usize, complete: bool) -> Entry {
    Entry { delivered, complete, script_failed: false }
}

// The track has moved on, and this much of its new pattern was sent.
fn moved(delivered: usize, complete: bool) -> Option<Transition> {
    Some(Transition { stop_delivered: true, entry: entry(delivered, complete) })
}

// The queue refused the stop event, and the track has stayed.
fn held_up() -> Option<Transition> {
    Some(Transition { stop_delivered: false, entry: entry(0, false) })
}

fn looping() -> StateGraph {
    StateGraph {
        nodes: vec![node("A", 1, vec![note(60, 100, 0, 960)])],
        edges: vec![edge("A", "A")],
    }
}

fn back_and_forth() -> StateGraph {
    StateGraph {
        nodes: vec![node("A", 1, vec![note(60, 100, 0, 480)]), node("B", 1, vec![note(72, 90, 0, 480)])],
        edges: vec![edge("A", "B"), edge("B", "A")],
    }
}

#[test]
fn a_single_looping_pattern() {
    let (mut producer, mut consumer) = event_queue(64).unwrap();
    let (mut state, reports) =
        TimingState::start(vec![looping()], vec!["A".to_string()], BPM, RATE, &mut producer, &vec![]);
    assert_eq!(reports, vec![entry(2, true)]);
    assert_eq!(state.current_nodes, vec!["A"]);
    assert_eq!(state.sequence_end_samples, vec![48_000]);

    assert_eq!(state.advance(47_999, BPM, RATE, &mut producer, &vec![]), vec![None]);
    assert_eq!(state.advance(48_000, BPM, RATE, &mut producer, &vec![]), vec![moved(2, true)]);
    assert_eq!(state.sequence_end_samples, vec![96_000]);
    assert_eq!(state.advance(48_001, BPM, RATE, &mut producer, &vec![]), vec![None]);
    assert_eq!(state.advance(96_000, BPM, RATE, &mut producer, &vec![]), vec![moved(2, true)]);
    assert_eq!(state.current_nodes, vec!["A"]);
    assert_eq!(state.sequence_end_samples, vec![144_000]);

    assert_eq!(
        everything(&mut consumer),
        vec![
            on(0, 60, 100, 0),
            off(0, 60, 48_000),
            stop(0, 48_000),
            on(0, 60, 100, 48_000),
            off(0, 60, 96_000),
            stop(0, 96_000),
            on(0, 60, 100, 96_000),
            off(0, 60, 144_000),
        ]
    );
}

#[test]
fn one_bar_in_four_four_lasts_four_beats() {
    let graph = StateGraph {
        nodes: vec![node("A", 4, vec![note(60, 100, 0, 960)])],
        edges: vec![edge("A", "A")],
    };
    let (mut producer, mut consumer) = event_queue(64).unwrap();
    let (mut state, _) =
        TimingState::start(vec![graph], vec!["A".to_string()], BPM, RATE, &mut producer, &vec![]);
    assert_eq!(state.sequence_end_samples, vec![192_000]);
    assert_eq!(state.advance(48_000, BPM, RATE, &mut producer, &vec![]), vec![None]);
    assert_eq!(state.advance(192_000, BPM, RATE, &mut producer, &vec![]), vec![moved(2, true)]);
    assert_eq!(
        everything(&mut consumer),
        vec![
            on(0, 60, 100, 0),
            off(0, 60, 48_000),
            stop(0, 192_000),
            on(0, 60, 100, 192_000),
            off(0, 60, 240_000),
        ]
    );
}

#[test]
fn a_graph_of_two_nodes_is_walked_back_and_forth() {
    let (mut producer, mut consumer) = event_queue(64).unwrap();
    let (mut state, _) = TimingState::start(
        vec![back_and_forth()],
        vec!["A".to_string()],
        BPM,
        RATE,
        &mut producer,
        &vec![],
    );
    assert_eq!(state.current_nodes, vec!["A"]);
    state.advance(48_000, BPM, RATE, &mut producer, &vec![]);
    assert_eq!(state.current_nodes, vec!["B"]);
    state.advance(96_000, BPM, RATE, &mut producer, &vec![]);
    assert_eq!(state.current_nodes, vec!["A"]);
    let events = everything(&mut consumer);
    assert_eq!(
        events,
        vec![
            on(0, 60, 100, 0),
            off(0, 60, 24_000),
            stop(0, 48_000),
            on(0, 72, 90, 48_000),
            off(0, 72, 72_000),
            stop(0, 96_000),
            on(0, 60, 100, 96_000),
            off(0, 60, 120_000),
        ]
    );
    let stops = events.iter().filter(|e| matches!(e.event, Event::StopAllNotes { .. })).count();
    assert_eq!(stops, 2);
}

#[test]
fn a_late_poll_starts_the_next_pattern_at_the_clock() {
    let (mut producer, mut consumer) = event_queue(64).unwrap();
    let (mut state, _) =
        TimingState::start(vec![looping()], vec!["A".to_string()], BPM, RATE, &mut producer, &vec![]);
    assert_eq!(
        state.advance_track(0, 48_123, BPM, RATE, &mut producer, None),
        moved(2, true)
    );
    assert_eq!(state.sequence_end_samples, vec![96_123]);
    assert_eq!(
        everything(&mut consumer),
        vec![
            on(0, 60, 100, 0),
            off(0, 60, 48_000),
            stop(0, 48_123),
            on(0, 60, 100, 48_123),
            off(0, 60, 96_123),
        ]
    );
}

#[test]
fn tracks_move_on_their_own() {
    let slow = StateGraph {
        nodes: vec![node("X", 2, vec![note(40, 50, 0, 960)])],
        edges: Vec::new(),
    };
    let (mut producer, mut consumer) = event_queue(64).unwrap();
    let (mut state, reports) = TimingState::start(
        vec![looping(), slow],
        vec!["A".to_string(), "X".to_string()],
        BPM,
        RATE,
        &mut producer,
        &vec![],
    );
    assert_eq!(reports.len(), 2);
    assert_eq!(state.sequence_end_samples, vec![48_000, 96_000]);
    assert_eq!(
        state.advance(50_000, BPM, RATE, &mut producer, &vec![]),
        vec![moved(2, true), None]
    );
    assert_eq!(state.sequence_end_samples, vec![98_000, 96_000]);
    // A node without an edge is followed by itself.
    assert_eq!(
        state.advance(97_000, BPM, RATE, &mut producer, &vec![]),
        vec![None, moved(2, true)]
    );
    assert_eq!(state.current_nodes, vec!["A", "X"]);
    assert_eq!(state.sequence_end_samples, vec![98_000, 193_000]);
    let events = everything(&mut consumer);
    assert_eq!(
        events,
        vec![
            on(0, 60, 100, 0),
            off(0, 60, 48_000),
            on(1, 40, 50, 0),
            off(1, 40, 48_000),
            stop(0, 50_000),
            on(0, 60, 100, 50_000),
            off(0, 60, 98_000),
            stop(1, 97_000),
            on(1, 40, 50, 97_000),
            off(1, 40, 145_000),
        ]
    );
    for track in 0..2 {
        let times: Vec<u64> = events
            .iter()
            .filter(|e| e.event.track_id() == track)
            .map(|e| e.sample_timestamp)
            .collect();
        assert!(times.windows(2).all(|pair| pair[0] <= pair[1]));
    }
}

#[test]
fn a_script_that_failed_leaves_its_node_silent() {
    let graph = StateGraph {
        nodes: vec![node("A", 1, vec![note(60, 100, 0, 960)]), scripted("G", 1)],
        edges: vec![edge("A", "G"), edge("G", "A")],
    };
    let (mut producer, mut consumer) = event_queue(64).unwrap();
    let (mut state, _) =
        TimingState::start(vec![graph], vec!["A".to_string()], BPM, RATE, &mut producer, &vec![]);
    assert_eq!(
        state.upcoming(0, 48_000).map(|n| n.id.as_str()),
        Some("G")
    );
    assert_eq!(state.upcoming(0, 47_999), None);
    // The node is entered, nothing is sent for it, and the failure is told.
    assert_eq!(
        state.advance(48_000, BPM, RATE, &mut producer, &vec![None]),
        vec![Some(Transition {
            stop_delivered: true,
            entry: Entry { delivered: 0, complete: true, script_failed: true }
        })]
    );
    assert_eq!(state.current_nodes, vec!["G"]);
    assert_eq!(state.sequence_end_samples, vec![96_000]);
    assert_eq!(state.advance(96_000, BPM, RATE, &mut producer, &vec![None]), vec![moved(2, true)]);
    assert_eq!(state.current_nodes, vec!["A"]);
    assert_eq!(
        everything(&mut consumer),
        vec![
            on(0, 60, 100, 0),
            off(0, 60, 48_000),
            stop(0, 48_000),
            stop(0, 96_000),
            on(0, 60, 100, 96_000),
            off(0, 60, 144_000),
        ]
    );
}

#[test]
fn a_script_that_ran_is_played() {
    let graph = StateGraph { nodes: vec![scripted("G", 1)], edges: Vec::new() };
    let produced = vec![Some(vec![note(50, 60, 0, 480), note(50, 70, 240, 480)])];
    let (mut producer, mut consumer) = event_queue(64).unwrap();
    let (mut state, reports) =
        TimingState::start(vec![graph], vec!["G".to_string()], BPM, RATE, &mut producer, &produced);
    assert_eq!(reports, vec![entry(2, true)]);
    let next = vec![Some(vec![note(51, 60, 0, 960)])];
    assert_eq!(state.advance(48_000, BPM, RATE, &mut producer, &next), vec![moved(2, true)]);
    assert_eq!(
        everything(&mut consumer),
        vec![
            on(0, 50, 70, 0),
            off(0, 50, 36_000),
            stop(0, 48_000),
            on(0, 51, 60, 48_000),
            off(0, 51, 96_000),
        ]
    );
}

#[test]
fn a_track_whose_first_node_is_missing_stays_silent() {
    let (mut producer, mut consumer) = event_queue(64).unwrap();
    let (mut state, reports) = TimingState::start(
        vec![looping()],
        vec!["nowhere".to_string()],
        BPM,
        RATE,
        &mut producer,
        &vec![],
    );
    assert_eq!(reports, vec![entry(0, true)]);
    assert_eq!(state.sequence_end_samples, vec![u64::MAX]);
    assert_eq!(state.advance(1_000_000, BPM, RATE, &mut producer, &vec![]), vec![None]);
    assert!(everything(&mut consumer).is_empty());
}

#[test]
fn a_track_that_runs_into_a_missing_node_stays_silent() {
    let graph = StateGraph {
        nodes: vec![node("A", 1, vec![note(60, 100, 0, 960)])],
        edges: vec![edge("A", "lost")],
    };
    let (mut producer, mut consumer) = event_queue(64).unwrap();
    let (mut state, _) = TimingState::start(
        vec![graph, looping()],
        vec!["A".to_string(), "A".to_string()],
        BPM,
        RATE,
        &mut producer,
        &vec![],
    );
    assert_eq!(state.upcoming(0, 48_000), None);
    assert_eq!(
        state.advance(48_000, BPM, RATE, &mut producer, &vec![]),
        vec![moved(0, true), moved(2, true)]
    );
    assert_eq!(state.current_nodes, vec!["lost", "A"]);
    assert_eq!(state.sequence_end_samples, vec![u64::MAX, 96_000]);
    // The track never comes to a boundary again; the other track goes on.
    assert_eq!(state.advance(48_010, BPM, RATE, &mut producer, &vec![]), vec![None, None]);
    assert_eq!(
        state.advance(96_000, BPM, RATE, &mut producer, &vec![]),
        vec![None, moved(2, true)]
    );
    assert_eq!(state.advance(u64::MAX - 1, BPM, RATE, &mut producer, &vec![])[0], None);
    let events = everything(&mut consumer);
    let for_lost: Vec<ScheduledEvent> =
        events.into_iter().filter(|e| e.event.track_id() == 0).collect();
    assert_eq!(for_lost, vec![on(0, 60, 100, 0), off(0, 60, 48_000), stop(0, 48_000)]);
}

#[test]
fn a_full_queue_is_reported() {
    let (mut producer, mut consumer) = event_queue(3).unwrap();
    let (mut state, reports) =
        TimingState::start(vec![looping()], vec!["A".to_string()], BPM, RATE, &mut producer, &vec![]);
    assert_eq!(reports, vec![entry(2, true)]);
    // The stop event takes the last place in the queue, and nothing of the
    // new pattern goes in.
    assert_eq!(
        state.advance_track(0, 48_000, BPM, RATE, &mut producer, None),
        moved(0, false)
    );
    assert_eq!(state.sequence_end_samples, vec![96_000]);
    assert_eq!(
        everything(&mut consumer),
        vec![on(0, 60, 100, 0), off(0, 60, 48_000), stop(0, 48_000)]
    );
}

#[test]
fn a_track_stays_while_its_stop_event_is_refused() {
    let (mut producer, mut consumer) = event_queue(2).unwrap();
    let (mut state, _) = TimingState::start(
        vec![back_and_forth()],
        vec!["A".to_string()],
        BPM,
        RATE,
        &mut producer,
        &vec![],
    );
    for clock in [48_000, 48_001, 50_000] {
        assert_eq!(state.advance_track(0, clock, BPM, RATE, &mut producer, None), held_up());
        assert_eq!(state.advance(clock, BPM, RATE, &mut producer, &vec![]), vec![held_up()]);
        assert_eq!(state.current_nodes, vec!["A"]);
        assert_eq!(state.sequence_end_samples, vec![48_000]);
    }
    assert_eq!(everything(&mut consumer), vec![on(0, 60, 100, 0), off(0, 60, 24_000)]);
    // With room in the queue the boundary is closed at the next poll, and
    // the new pattern starts there.
    assert_eq!(state.advance_track(0, 50_500, BPM, RATE, &mut producer, None), moved(1, false));
    assert_eq!(state.current_nodes, vec!["B"]);
    assert_eq!(state.sequence_end_samples, vec![98_500]);
    assert_eq!(everything(&mut consumer), vec![stop(0, 50_500), on(0, 72, 90, 50_500)]);
}

#[test]
fn a_script_that_failed_at_the_start_is_told() {
    let graph = StateGraph { nodes: vec![scripted("G", 1)], edges: Vec::new() };
    let (mut producer, mut consumer) = event_queue(8).unwrap();
    let (state, reports) =
        TimingState::start(vec![graph], vec!["G".to_string()], BPM, RATE, &mut producer, &vec![None]);
    assert_eq!(reports, vec![Entry { delivered: 0, complete: true, script_failed: true }]);
    assert_eq!(state.sequence_end_samples, vec![48_000]);
    assert!(everything(&mut consumer).is_empty());
}

#[test]
fn a_track_that_the_state_does_not_have_is_left_alone() {
    let (mut producer, mut consumer) = event_queue(8).unwrap();
    let mut state = TimingState {
        graphs: vec![looping(), looping()],
        current_nodes: vec!["A".to_string()],
        sequence_end_samples: vec![0],
    };
    assert_eq!(state.advance_track(1, 10, BPM, RATE, &mut producer, None), None);
    assert_eq!(state.advance_track(2, 10, BPM, RATE, &mut producer, None), None);
    assert_eq!(state.upcoming(1, 10), None);
    assert_eq!(
        state.advance(10, BPM, RATE, &mut producer, &vec![]),
        vec![moved(2, true), None]
    );
    assert_eq!(
        everything(&mut consumer),
        vec![stop(0, 10), on(0, 60, 100, 10), off(0, 60, 48_010)]
    );
}

#[test]
fn start_takes_as_many_tracks_as_have_a_graph_and_a_first_node() {
    let (mut producer, _consumer) = event_queue(8).unwrap();
    let (state, reports) = TimingState::start(
        vec![looping()],
        vec!["A".to_string(), "B".to_string()],
        BPM,
        RATE,
        &mut producer,
        &vec![],
    );
    assert_eq!(reports.len(), 1);
    assert_eq!(state.sequence_end_samples, vec![48_000]);
    assert_eq!(state.current_nodes, vec!["A", "B"]);
}
