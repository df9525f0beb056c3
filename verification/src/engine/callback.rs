//! The audio callback: events are applied and tracks rendered, frame by
//! frame.

use crate::audio::track::{
    let_go, rendered, silence, struck, track_samples, OscSample, PlaybackState, TrackConfig, Tuning,
    Voice,
};
use crate::events::{Event, MidiMessage, ScheduledEvent};
use crate::queue::{found_empty, received, try_receive, EventConsumer};
use crate::sorting::{sort_in_place, stable_sorted};
use vstd::prelude::*;

verus! {

/// The voice tables of all tracks as mathematical values.
pub open spec fn tables(states: Seq<PlaybackState>) -> Seq<Seq<Option<Voice>>> {
    Seq::new(states.len(), |track: int| states[track]@)
}

/// The number of oscillators that a note struck on `track_id` gets: that of
/// the track's instrument, or none when the track has no configuration.
pub open spec fn oscillators_of(configs: Seq<TrackConfig>, track_id: usize) -> nat {
    if track_id < configs.len() {
        configs[track_id as int].instrument@.oscillators().len()
    } else {
        0
    }
}

/// The voice tables after `event` has been applied. A note-on strikes a
/// note, a note-off releases one, and a stop frees all slots of the track. An
/// event for a track that has no voice table changes nothing, nor does a node
/// transition.
pub open spec fn applied(
    states: Seq<Seq<Option<Voice>>>,
    configs: Seq<TrackConfig>,
    event: ScheduledEvent,
) -> Seq<Seq<Option<Voice>>> {
    match event.event {
        Event::MidiEvent { track_id, message } => if track_id < states.len() {
            states.update(
                track_id as int,
                match message {
                    MidiMessage::NoteOn { pitch, velocity } => struck(
                        states[track_id as int],
                        pitch,
                        velocity,
                        oscillators_of(configs, track_id),
                    ),
                    MidiMessage::NoteOff { pitch } => let_go(states[track_id as int], pitch),
                },
            )
        } else {
            states
        },
        Event::StopAllNotes { track_id } => if track_id < states.len() {
            states.update(track_id as int, silence())
        } else {
            states
        },
        Event::NodeTransition { .. } => states,
    }
}

/// Applies `event` to the voice tables of the tracks.
pub fn process_event(
    playback_states: &mut Vec<PlaybackState>,
    configs: &Vec<TrackConfig>,
    event: &ScheduledEvent,
)
    ensures
        tables(final(playback_states)@) == applied(tables(old(playback_states)@), configs@, *event),
{
    let ghost before = tables(playback_states@);
    match &event.event {
        Event::MidiEvent { track_id, message } => {
            if *track_id < playback_states.len() {
                match message {
                    MidiMessage::NoteOn { pitch, velocity } => {
                        let oscillators = if *track_id < configs.len() {
                            configs[*track_id].num_oscillators()
                        } else {
                            0
                        };
                        playback_states[*track_id].note_on(*pitch, *velocity, oscillators);
                    },
                    MidiMessage::NoteOff { pitch } => {
                        playback_states[*track_id].note_off(*pitch);
                    },
                }
            }
        },
        Event::StopAllNotes { track_id } => {
            if *track_id < playback_states.len() {
                playback_states[*track_id].stop_all();
            }
        },
        Event::NodeTransition { .. } => {},
    }
    proof {
        assert(tables(playback_states@) =~= applied(before, configs@, *event));
    }
}

/// The number of tracks that are rendered: a track is rendered if it has
/// both a voice table and a configuration.
pub open spec fn rendered_tracks(states: Seq<Seq<Option<Voice>>>, configs: Seq<TrackConfig>) -> nat {
    if states.len() <= configs.len() {
        states.len()
    } else {
        configs.len()
    }
}

/// The voice tables one sample later.
pub open spec fn frame_tables(
    states: Seq<Seq<Option<Voice>>>,
    configs: Seq<TrackConfig>,
    sample_rate: u32,
    tuning: Seq<u32>,
) -> Seq<Seq<Option<Voice>>> {
    Seq::new(
        states.len(),
        |track: int|
            if track < configs.len() {
                rendered(states[track], configs[track], sample_rate, tuning)
            } else {
                states[track]
            },
    )
}

/// What the first `bound` tracks add to the current sample, by track, then
/// by pitch and then by oscillator.
pub open spec fn samples_of_tracks(
    states: Seq<Seq<Option<Voice>>>,
    configs: Seq<TrackConfig>,
    sample_rate: u32,
    bound: int,
) -> Seq<OscSample>
    decreases bound,
{
    if bound <= 0 {
        Seq::empty()
    } else {
        samples_of_tracks(states, configs, sample_rate, bound - 1) + track_samples(
            states[bound - 1],
            configs[bound - 1],
            sample_rate,
        )
    }
}

/// What all rendered tracks add to the current sample.
pub open spec fn frame_samples(
    states: Seq<Seq<Option<Voice>>>,
    configs: Seq<TrackConfig>,
    sample_rate: u32,
) -> Seq<OscSample> {
    samples_of_tracks(states, configs, sample_rate, rendered_tracks(states, configs) as int)
}

/// Renders one sample of every track that has a voice table and a
/// configuration: appends to `output` what the tracks add to the sample and
/// moves their voices on by one sample.
pub fn render_frame(
    output: &mut Vec<OscSample>,
    states: &mut Vec<PlaybackState>,
    configs: &Vec<TrackConfig>,
    sample_rate: u32,
    tuning: &Tuning,
)
    ensures
        tables(final(states)@) == frame_tables(tables(old(states)@), configs@, sample_rate, tuning@),
        final(output)@ == old(output)@ + frame_samples(tables(old(states)@), configs@, sample_rate),
{
    let ghost before = tables(states@);
    let ghost listed = output@;
    let count = if states.len() <= configs.len() {
        states.len()
    } else {
        configs.len()
    };
    let mut track: usize = 0;
    while track < count
        invariant
            0 <= track <= count,
            count == rendered_tracks(before, configs@),
            states@.len() == before.len(),
            forall|k: int|
                0 <= k < track ==> states@[k]@ == rendered(
                    before[k],
                    configs@[k],
                    sample_rate,
                    tuning@,
                ),
            forall|k: int| track <= k < before.len() ==> states@[k]@ == before[k],
            output@ == listed + samples_of_tracks(before, configs@, sample_rate, track as int),
        decreases count - track,
    {
        let ghost so_far = samples_of_tracks(before, configs@, sample_rate, track as int);
        let ghost here = track_samples(before[track as int], configs@[track as int], sample_rate);
        states[track].render_sample(&configs[track], sample_rate, tuning, output);
        proof {
            assert(output@ =~= listed + (so_far + here));
        }
        track += 1;
    }
    proof {
        assert(tables(states@) =~= frame_tables(before, configs@, sample_rate, tuning@));
    }
}

/// The most events that one audio callback takes from the queue.
pub const MAX_EVENTS_PER_BUFFER: usize = 4096;

/// What the audio callback keeps between calls.
pub struct AudioState {
    /// The voice table of each track.
    pub playback_states: Vec<PlaybackState>,
    /// An event that has been taken from the queue and is not due yet.
    pub pending_event: Option<ScheduledEvent>,
    /// The receiving end of the event queue.
    pub consumer: EventConsumer,
    /// The events of the buffer that was rendered last. The list is kept and
    /// filled anew for each buffer.
    pub due: Vec<ScheduledEvent>,
    pub sample_rate: u32,
    pub tuning: Tuning,
}

/// The event that is held back, as a sequence of at most one event.
pub open spec fn held(pending: Option<ScheduledEvent>) -> Seq<ScheduledEvent> {
    match pending {
        Some(event) => seq![event],
        None => Seq::empty(),
    }
}

/// What has come out of the queue between `before` and `after`.
pub open spec fn arrivals(before: EventConsumer, after: EventConsumer) -> Seq<ScheduledEvent> {
    received(after).skip(received(before).len() as int)
}

/// Whether `after` has received what `before` had received, and perhaps more.
pub open spec fn continues(before: EventConsumer, after: EventConsumer) -> bool {
    &&& received(before).len() <= received(after).len()
    &&& received(after).take(received(before).len() as int) == received(before)
}

/// The events that are due in a buffer: all of `candidates` but the one that
/// is held back.
pub open spec fn due_events(candidates: Seq<ScheduledEvent>, left: Option<ScheduledEvent>) -> Seq<ScheduledEvent> {
    candidates.take(candidates.len() - held(left).len())
}

/// Whether `left` is rightly held back from `candidates` for a buffer that
/// ends before the sample `buffer_end`: every event that is due falls before
/// `buffer_end`, and the event that is held back is the last candidate and
/// does not.
pub open spec fn drained(candidates: Seq<ScheduledEvent>, buffer_end: u64, left: Option<ScheduledEvent>) -> bool {
    &&& candidates == due_events(candidates, left) + held(left)
    &&& forall|i: int|
        0 <= i < due_events(candidates, left).len() ==> (#[trigger] due_events(
            candidates,
            left,
        )[i]).sample_timestamp < buffer_end
    &&& match left {
        Some(event) => event.sample_timestamp >= buffer_end,
        None => true,
    }
}

/// Whether reading the queue went as far as it may: it stopped at an event
/// that is held back, or after `MAX_EVENTS_PER_BUFFER` events, or when the
/// queue was found empty.
pub open spec fn read_out(before: EventConsumer, after: EventConsumer, left: Option<ScheduledEvent>) -> bool {
    ||| left is Some
    ||| arrivals(before, after).len() >= MAX_EVENTS_PER_BUFFER
    ||| found_empty(after) == found_empty(before) + 1
}

/// Puts what has come out of the queue where it belongs, and says whether
/// more is to be read. An event that falls before the sample `buffer_end` is
/// appended to `due`, and more is to be read. An event that does not is held
/// back in `pending`, and with it, as with an empty queue, reading ends.
pub fn take_in(
    arrived: Option<ScheduledEvent>,
    buffer_end: u64,
    due: &mut Vec<ScheduledEvent>,
    pending: &mut Option<ScheduledEvent>,
) -> (more: bool)
    ensures
        match arrived {
            Some(event) => if event.sample_timestamp < buffer_end {
                &&& final(due)@ == old(due)@.push(event)
                &&& *final(pending) == *old(pending)
                &&& more
            } else {
                &&& final(due)@ == old(due)@
                &&& *final(pending) == Some(event)
                &&& !more
            },
            None => {
                &&& final(due)@ == old(due)@
                &&& *final(pending) == *old(pending)
                &&& !more
            },
        },
{
    match arrived {
        Some(event) => {
            if event.sample_timestamp < buffer_end {
                due.push(event);
                true
            } else {
                *pending = Some(event);
                false
            }
        },
        None => false,
    }
}

/// Fills `due` with the events that are due before the sample `buffer_end`:
/// first the one that was held back and then those that come out of the
/// queue, in that order. The first event that is not due is held back, and
/// nothing is taken from the queue after it. The queue is read until such an
/// event comes out, until it is found empty, or until
/// `MAX_EVENTS_PER_BUFFER` events have been taken from it.
pub fn collect_due(
    pending: &mut Option<ScheduledEvent>,
    consumer: &mut EventConsumer,
    buffer_end: u64,
    due: &mut Vec<ScheduledEvent>,
)
    ensures
        continues(*old(consumer), *final(consumer)),
        drained(
            held(*old(pending)) + arrivals(*old(consumer), *final(consumer)),
            buffer_end,
            *final(pending),
        ),
        final(due)@ == due_events(
            held(*old(pending)) + arrivals(*old(consumer), *final(consumer)),
            *final(pending),
        ),
        final(due)@.len() <= MAX_EVENTS_PER_BUFFER + 1,
        read_out(*old(consumer), *final(consumer), *final(pending)),
        found_empty(*final(consumer)) == found_empty(*old(consumer)) || found_empty(
            *final(consumer),
        ) == found_empty(*old(consumer)) + 1,
{
    let ghost before = received(*consumer);
    let ghost empty_before = found_empty(*consumer);
    let ghost first = held(*pending);
    let ghost mut news: Seq<ScheduledEvent> = Seq::empty();
    let mut taken: usize = 0;
    due.clear();
    let was_held = pending.take();
    let mut open = match was_held {
        Some(_) => take_in(was_held, buffer_end, due, pending),
        None => true,
    };
    proof {
        assert(before + news =~= before);
        assert(first + news =~= due@ + held(*pending));
    }
    while open && taken < MAX_EVENTS_PER_BUFFER
        invariant
            received(*consumer) == before + news,
            first + news == due@ + held(*pending),
            forall|i: int| 0 <= i < due@.len() ==> (#[trigger] due@[i]).sample_timestamp < buffer_end,
            match *pending {
                Some(event) => event.sample_timestamp >= buffer_end,
                None => true,
            },
            open ==> *pending is None && found_empty(*consumer) == empty_before && news.len()
                == taken,
            !open ==> *pending is Some || found_empty(*consumer) == empty_before + 1,
            found_empty(*consumer) == empty_before || found_empty(*consumer) == empty_before + 1,
            taken <= MAX_EVENTS_PER_BUFFER,
            due@.len() <= taken + 1,
        decreases
                MAX_EVENTS_PER_BUFFER - taken + if open {
                    1int
                } else {
                    0int
                },
    {
        let ghost so_far = due@;
        let arrived = try_receive(consumer);
        let ghost came = arrived;
        proof {
            match came {
                Some(event) => {
                    assert((before + news).push(event) =~= before + news.push(event));
                    assert(first + news.push(event) =~= (first + news).push(event));
                    assert(so_far.push(event) + held(None) =~= (so_far + held(None)).push(event));
                    assert(so_far + held(Some(event)) =~= (so_far + held(None)).push(event));
                    news = news.push(event);
                },
                None => {},
            }
        }
        open = take_in(arrived, buffer_end, due, pending);
        if open {
            taken += 1;
        }
    }
    proof {
        let candidates = first + news;
        assert(received(*consumer).take(before.len() as int) =~= before);
        assert(received(*consumer).skip(before.len() as int) =~= news);
        assert(candidates.take(candidates.len() - held(*pending).len()) =~= due@);
    }
}

/// The frame of a buffer that starts at the sample `clock` in which `event`
/// takes effect; an event that is late takes effect in the first frame.
pub open spec fn frame_of(event: ScheduledEvent, clock: u64) -> int {
    if event.sample_timestamp > clock {
        event.sample_timestamp - clock
    } else {
        0
    }
}

/// The index of the first event from `from` on that does not take effect in
/// the frame `frame` or before it.
pub open spec fn due_until(events: Seq<ScheduledEvent>, from: int, clock: u64, frame: int) -> int
    decreases events.len() - from,
{
    if 0 <= from < events.len() && frame_of(events[from], clock) <= frame {
        due_until(events, from + 1, clock, frame)
    } else {
        from
    }
}

/// The voice tables after the events from index `from` up to, but without,
/// index `to` have been applied in order.
pub open spec fn applied_range(
    states: Seq<Seq<Option<Voice>>>,
    configs: Seq<TrackConfig>,
    events: Seq<ScheduledEvent>,
    from: int,
    to: int,
) -> Seq<Seq<Option<Voice>>>
    decreases to - from,
{
    if to <= from {
        states
    } else {
        applied(applied_range(states, configs, events, from, to - 1), configs, events[to - 1])
    }
}

/// How far the rendering of a buffer has come.
pub struct BufferRun {
    /// The voice tables of the tracks.
    pub states: Seq<Seq<Option<Voice>>>,
    /// The index of the first event that has not been applied.
    pub next_event: int,
    /// What has been rendered.
    pub samples: Seq<OscSample>,
    /// For each frame that has been rendered, the length of `samples` at the
    /// end of that frame.
    pub frame_ends: Seq<usize>,
}

/// The rendering of one frame: the events that take effect in the frame or
/// before it are applied, in order, and then every track is rendered.
pub open spec fn frame_step(
    run: BufferRun,
    configs: Seq<TrackConfig>,
    events: Seq<ScheduledEvent>,
    clock: u64,
    frame: int,
    sample_rate: u32,
    tuning: Seq<u32>,
) -> BufferRun {
    let to = due_until(events, run.next_event, clock, frame);
    let ready = applied_range(run.states, configs, events, run.next_event, to);
    let samples = run.samples + frame_samples(ready, configs, sample_rate);
    BufferRun {
        states: frame_tables(ready, configs, sample_rate, tuning),
        next_event: to,
        samples,
        frame_ends: run.frame_ends.push(samples.len() as usize),
    }
}

/// The rendering of the frames from `frame` up to, but without, `frames`.
pub open spec fn run_frames(
    run: BufferRun,
    configs: Seq<TrackConfig>,
    events: Seq<ScheduledEvent>,
    clock: u64,
    frame: int,
    frames: int,
    sample_rate: u32,
    tuning: Seq<u32>,
) -> BufferRun
    decreases frames - frame,
{
    if frame >= frames {
        run
    } else {
        run_frames(
            frame_step(run, configs, events, clock, frame, sample_rate, tuning),
            configs,
            events,
            clock,
            frame + 1,
            frames,
            sample_rate,
            tuning,
        )
    }
}

/// Whether every event of `events` falls before the sample `end`.
pub open spec fn all_before(events: Seq<ScheduledEvent>, end: int) -> bool {
    forall|i: int| 0 <= i < events.len() ==> (#[trigger] events[i]).sample_timestamp < end
}

proof fn lemma_due_until(events: Seq<ScheduledEvent>, from: int, clock: u64, frame: int)
    requires
        0 <= from <= events.len(),
        0 <= frame,
    ensures
        from <= due_until(events, from, clock, frame) <= events.len(),
        all_before(events, clock + frame + 1) ==> due_until(events, from, clock, frame)
            == events.len(),
    decreases events.len() - from,
{
    if from < events.len() {
        if frame_of(events[from], clock) <= frame {
            lemma_due_until(events, from + 1, clock, frame);
        } else if all_before(events, clock + frame + 1) {
            assert(events[from].sample_timestamp < clock + frame + 1);
        }
    }
}

/// Rendering a buffer keeps the number of voice tables, and adds one entry
/// to `frame_ends` for each frame. In a buffer of at least one frame every
/// event that falls before the end of the buffer is applied.
pub proof fn lemma_run_frames(
    run: BufferRun,
    configs: Seq<TrackConfig>,
    events: Seq<ScheduledEvent>,
    clock: u64,
    frame: int,
    frames: int,
    sample_rate: u32,
    tuning: Seq<u32>,
)
    requires
        0 <= run.next_event <= events.len(),
        0 <= frame <= frames,
    ensures
        run_frames(run, configs, events, clock, frame, frames, sample_rate, tuning).states.len()
            == run.states.len(),
        run_frames(run, configs, events, clock, frame, frames, sample_rate, tuning).frame_ends.len()
            == run.frame_ends.len() + frames - frame,
        run.next_event <= run_frames(
            run,
            configs,
            events,
            clock,
            frame,
            frames,
            sample_rate,
            tuning,
        ).next_event <= events.len(),
        frame < frames && all_before(events, clock + frames) ==> run_frames(
            run,
            configs,
            events,
            clock,
            frame,
            frames,
            sample_rate,
            tuning,
        ).next_event == events.len(),
    decreases frames - frame,
{
    if frame < frames {
        let step = frame_step(run, configs, events, clock, frame, sample_rate, tuning);
        lemma_due_until(events, run.next_event, clock, frame);
        lemma_applied_range(configs, events, run.states, run.next_event, step.next_event);
        lemma_run_frames(step, configs, events, clock, frame + 1, frames, sample_rate, tuning);
    }
}

proof fn lemma_applied_range(
    configs: Seq<TrackConfig>,
    events: Seq<ScheduledEvent>,
    states: Seq<Seq<Option<Voice>>>,
    from: int,
    to: int,
)
    ensures
        applied_range(states, configs, events, from, to).len() == states.len(),
    decreases to - from,
{
    if from < to {
        lemma_applied_range(configs, events, states, from, to - 1);
    }
}

/// Renders a buffer of `num_frames` frames that starts at the sample `clock`.
/// `events` are the events that are due in the buffer, ordered by timestamp.
/// Frame by frame, the events that take effect are applied and every track
/// is rendered. What the tracks add to each frame is appended to `output`,
/// and the length of `output` at the end of each frame to `frame_ends`.
pub fn play_buffer(
    states: &mut Vec<PlaybackState>,
    configs: &Vec<TrackConfig>,
    events: &Vec<ScheduledEvent>,
    clock: u64,
    num_frames: usize,
    sample_rate: u32,
    tuning: &Tuning,
    output: &mut Vec<OscSample>,
    frame_ends: &mut Vec<usize>,
)
    ensures
        ({
            let run = run_frames(
                BufferRun {
                    states: tables(old(states)@),
                    next_event: 0,
                    samples: old(output)@,
                    frame_ends: old(frame_ends)@,
                },
                configs@,
                events@,
                clock,
                0,
                num_frames as int,
                sample_rate,
                tuning@,
            );
            &&& tables(final(states)@) == run.states
            &&& final(output)@ == run.samples
            &&& final(frame_ends)@ == run.frame_ends
        }),
{
    let ghost start = BufferRun {
        states: tables(states@),
        next_event: 0,
        samples: output@,
        frame_ends: frame_ends@,
    };
    let mut frame: usize = 0;
    let mut next: usize = 0;
    while frame < num_frames
        invariant
            0 <= frame <= num_frames,
            0 <= next <= events@.len(),
            run_frames(
                BufferRun {
                    states: tables(states@),
                    next_event: next as int,
                    samples: output@,
                    frame_ends: frame_ends@,
                },
                configs@,
                events@,
                clock,
                frame as int,
                num_frames as int,
                sample_rate,
                tuning@,
            ) == run_frames(
                start,
                configs@,
                events@,
                clock,
                0,
                num_frames as int,
                sample_rate,
                tuning@,
            ),
        decreases num_frames - frame,
    {
        let ghost from = next as int;
        let ghost before = tables(states@);
        let ghost run = BufferRun {
            states: before,
            next_event: from,
            samples: output@,
            frame_ends: frame_ends@,
        };
        while next < events.len() && events[next].sample_timestamp.saturating_sub(clock)
            <= frame as u64
            invariant
                from <= next <= events@.len(),
                due_until(events@, next as int, clock, frame as int) == due_until(
                    events@,
                    from,
                    clock,
                    frame as int,
                ),
                tables(states@) == applied_range(before, configs@, events@, from, next as int),
            decreases events@.len() - next,
        {
            process_event(states, configs, &events[next]);
            next += 1;
        }
        render_frame(output, states, configs, sample_rate, tuning);
        frame_ends.push(output.len());
        proof {
            let step = frame_step(run, configs@, events@, clock, frame as int, sample_rate, tuning@);
            assert(step.next_event == next);
            assert(step.states == tables(states@));
            assert(step.samples == output@);
            assert(step.frame_ends == frame_ends@);
        }
        frame += 1;
    }
}

/// The sample at which a buffer of `num_frames` frames that starts at the
/// sample `clock` ends, held to the range of the sample counter.
pub open spec fn buffer_end(clock: u64, num_frames: usize) -> u64 {
    if clock + num_frames > u64::MAX {
        u64::MAX
    } else {
        (clock + num_frames) as u64
    }
}

/// Empties `output` and marks every frame in `frame_ends` as holding
/// nothing.
fn mute(output: &mut Vec<OscSample>, frame_ends: &mut Vec<usize>)
    ensures
        final(output)@ == Seq::<OscSample>::empty(),
        final(frame_ends)@ == Seq::new(old(frame_ends)@.len(), |frame: int| 0usize),
{
    output.clear();
    let mut frame: usize = 0;
    while frame < frame_ends.len()
        invariant
            0 <= frame <= frame_ends@.len(),
            frame_ends@.len() == old(frame_ends)@.len(),
            forall|k: int| 0 <= k < frame ==> frame_ends@[k] == 0,
        decreases frame_ends@.len() - frame,
    {
        frame_ends[frame] = 0;
        frame += 1;
    }
    proof {
        assert(frame_ends@ =~= Seq::new(old(frame_ends)@.len(), |frame: int| 0usize));
    }
}

impl AudioState {
    /// Creates the state of the audio callback for `num_tracks` tracks
    /// without a sounding note.
    pub fn new(num_tracks: usize, consumer: EventConsumer, sample_rate: u32, tuning: Tuning) -> (state:
        Self)
        ensures
            tables(state.playback_states@) == Seq::new(num_tracks as nat, |track: int| silence()),
            state.pending_event is None,
            state.consumer == consumer,
            state.due@.len() == 0,
            state.sample_rate == sample_rate,
            state.tuning == tuning,
    {
        let mut playback_states: Vec<PlaybackState> = Vec::new();
        let mut track: usize = 0;
        while track < num_tracks
            invariant
                0 <= track <= num_tracks,
                playback_states@.len() == track,
                forall|k: int| 0 <= k < track ==> playback_states@[k]@ == silence(),
            decreases num_tracks - track,
        {
            playback_states.push(PlaybackState::new());
            track += 1;
        }
        proof {
            assert(tables(playback_states@) =~= Seq::new(
                num_tracks as nat,
                |track: int| silence(),
            ));
        }
        Self {
            playback_states,
            pending_event: None,
            consumer,
            due: Vec::with_capacity(MAX_EVENTS_PER_BUFFER + 1),
            sample_rate,
            tuning,
        }
    }
}

/// Renders one buffer of `num_frames` frames that starts at the sample
/// `clock`, and returns the sample at which the next buffer starts.
///
/// The events that are due before the end of the buffer are taken from the
/// queue as by `collect_due`, ordered by timestamp and applied in the frame
/// in which they take effect; an event that is late is applied in the first
/// frame. `configs` is used for the whole buffer. `output` and `frame_ends`
/// are emptied and then filled as by `play_buffer`.
///
/// While the engine does not play, events are applied and voices move on all
/// the same, but the buffer is silent: `output` stays empty.
pub fn audio_callback(
    state: &mut AudioState,
    configs: &Vec<TrackConfig>,
    clock: u64,
    num_frames: usize,
    playing: bool,
    output: &mut Vec<OscSample>,
    frame_ends: &mut Vec<usize>,
) -> (next_clock: u64)
    ensures
        next_clock == buffer_end(clock, num_frames),
        next_clock >= clock,
        final(state).playback_states@.len() == old(state).playback_states@.len(),
        final(frame_ends)@.len() == num_frames,
        final(state).sample_rate == old(state).sample_rate,
        final(state).tuning == old(state).tuning,
        continues(old(state).consumer, final(state).consumer),
        drained(
            held(old(state).pending_event) + arrivals(old(state).consumer, final(state).consumer),
            next_clock,
            final(state).pending_event,
        ),
        read_out(old(state).consumer, final(state).consumer, final(state).pending_event),
        final(state).due@ == stable_sorted(
            due_events(
                held(old(state).pending_event) + arrivals(
                    old(state).consumer,
                    final(state).consumer,
                ),
                final(state).pending_event,
            ),
        ),
        ({
            let run = run_frames(
                BufferRun {
                    states: tables(old(state).playback_states@),
                    next_event: 0,
                    samples: Seq::empty(),
                    frame_ends: Seq::empty(),
                },
                configs@,
                final(state).due@,
                clock,
                0,
                num_frames as int,
                old(state).sample_rate,
                old(state).tuning@,
            );
            &&& tables(final(state).playback_states@) == run.states
            &&& playing ==> final(output)@ == run.samples && final(frame_ends)@ == run.frame_ends
            &&& !playing ==> final(output)@ == Seq::<OscSample>::empty() && final(frame_ends)@
                == Seq::new(num_frames as nat, |frame: int| 0usize)
        }),
{
    let end = clock.saturating_add(num_frames as u64);
    collect_due(&mut state.pending_event, &mut state.consumer, end, &mut state.due);
    sort_in_place(&mut state.due);
    output.clear();
    frame_ends.clear();
    proof {
        lemma_run_frames(
            BufferRun {
                states: tables(state.playback_states@),
                next_event: 0,
                samples: output@,
                frame_ends: frame_ends@,
            },
            configs@,
            state.due@,
            clock,
            0,
            num_frames as int,
            state.sample_rate,
            state.tuning@,
        );
    }
    play_buffer(
        &mut state.playback_states,
        configs,
        &state.due,
        clock,
        num_frames,
        state.sample_rate,
        &state.tuning,
        output,
        frame_ends,
    );
    if !playing {
        mute(output, frame_ends);
    }
    end
}

} // verus!
