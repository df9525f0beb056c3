//! Expansion of a pattern into timestamped events, and their delivery.

use crate::events::{Event, MidiMessage, ScheduledEvent};
use crate::queue::{refused, sent, try_send, EventProducer};
use crate::sorting::{
    lemma_filter_none, lemma_filter_one, lemma_sort_keeps_line, lemma_stable_sorted, ordered,
    sort_by_key, stable_sorted, Keyed,
};
use crate::timing::sequence::{
    in_order, lemma_normalized_separated, lemma_product_bound, produced, Note, Sequence,
    TICKS_PER_BEAT,
};
use vstd::arithmetic::div_mod::lemma_div_is_ordered;
use vstd::prelude::*;

verus! {

/// Why an expansion was given up.
#[derive(Debug, Clone, Copy, PartialEq, Eq)]
pub enum SchedulerError {
    /// The event queue did not take an event.
    BufferFull,
}

impl SchedulerError {
    /// Returns the error in words.
    pub fn message(&self) -> (text: String)
        ensures
            text@ == "Event buffer is full"@,
    {
        match self {
            SchedulerError::BufferFull => "Event buffer is full".to_string(),
        }
    }
}

impl Keyed for ScheduledEvent {
    open spec fn key(&self) -> u64 {
        self.sample_timestamp
    }

    fn sort_key(&self) -> (k: u64) {
        self.sample_timestamp
    }
}

/// The number of samples from the start of a pattern to `tick`, at a tempo of
/// `bpm_milli` thousandths of a beat per minute: a beat has `TICKS_PER_BEAT`
/// ticks and lasts `60_000 * sample_rate / bpm_milli` samples. The quotient is
/// rounded down. Tick zero is at sample zero; at tempo zero every later tick
/// is `u64::MAX` samples away.
pub open spec fn tick_offset(tick: int, bpm_milli: u32, sample_rate: u32) -> int {
    let scaled = tick * 60_000 * sample_rate;
    let divisor = TICKS_PER_BEAT * bpm_milli;
    if scaled == 0 {
        0
    } else if divisor == 0 {
        u64::MAX as int
    } else {
        scaled / divisor
    }
}

/// The sample at which a pattern of `duration` samples that starts at
/// `start_sample` ends, held to the range of the sample counter.
pub open spec fn sequence_end(start_sample: u64, duration: int) -> int {
    if start_sample + duration > u64::MAX {
        u64::MAX as int
    } else {
        start_sample + duration
    }
}

/// The events of one note: a note-on where the note starts, if that is before
/// the end of the pattern, and a note-off where it ends, if that is not after
/// the end of the pattern.
pub open spec fn note_events(
    note: Note,
    track_id: usize,
    start_sample: u64,
    end: int,
    bpm_milli: u32,
    sample_rate: u32,
) -> Seq<ScheduledEvent> {
    let on = start_sample + tick_offset(note.start_tick as int, bpm_milli, sample_rate);
    let off = start_sample + tick_offset(note.end(), bpm_milli, sample_rate);
    let note_on = if on < end {
        seq![
            ScheduledEvent {
                sample_timestamp: on as u64,
                event: Event::MidiEvent {
                    track_id,
                    message: MidiMessage::NoteOn { pitch: note.pitch, velocity: note.velocity },
                },
            },
        ]
    } else {
        Seq::empty()
    };
    let note_off = if off <= end {
        seq![
            ScheduledEvent {
                sample_timestamp: off as u64,
                event: Event::MidiEvent {
                    track_id,
                    message: MidiMessage::NoteOff { pitch: note.pitch },
                },
            },
        ]
    } else {
        Seq::empty()
    };
    note_on + note_off
}

/// The events of all of `notes`, note by note.
pub open spec fn emitted(
    notes: Seq<Note>,
    track_id: usize,
    start_sample: u64,
    end: int,
    bpm_milli: u32,
    sample_rate: u32,
) -> Seq<ScheduledEvent>
    decreases notes.len(),
{
    if notes.len() == 0 {
        Seq::empty()
    } else {
        emitted(notes.drop_last(), track_id, start_sample, end, bpm_milli, sample_rate)
            + note_events(notes.last(), track_id, start_sample, end, bpm_milli, sample_rate)
    }
}

/// The events of a pattern that starts at `start_sample`, in the order of
/// their timestamps; events with the same timestamp are in the order of the
/// notes they come from.
pub open spec fn expansion(
    sequence: Sequence,
    generated: Option<Seq<Note>>,
    track_id: usize,
    start_sample: u64,
    bpm_milli: u32,
    sample_rate: u32,
) -> Seq<ScheduledEvent> {
    stable_sorted(
        emitted(
            sequence.notes(generated),
            track_id,
            start_sample,
            sequence_end(start_sample, sequence.samples(bpm_milli, sample_rate)),
            bpm_milli,
            sample_rate,
        ),
    )
}

/// Whether every event of `events` is addressed to `track_id` and falls
/// between the samples `first` and `last`.
pub open spec fn confined(events: Seq<ScheduledEvent>, track_id: usize, first: int, last: int) -> bool {
    forall|i: int|
        0 <= i < events.len() ==> (#[trigger] events[i]).event.track() == track_id && first
            <= events[i].sample_timestamp <= last
}

/// A pattern does not end before it starts.
pub proof fn lemma_sequence_end(start_sample: u64, sequence: Sequence, bpm_milli: u32, sample_rate: u32)
    ensures
        start_sample <= sequence_end(start_sample, sequence.samples(bpm_milli, sample_rate))
            <= u64::MAX,
{
    let bars = sequence.bars();
    let signature = sequence.signature();
    let scaled = bars * signature.0 * 4 * 60_000 * sample_rate;
    let divisor = signature.1 * bpm_milli;
    assert(scaled >= 0) by (nonlinear_arith)
        requires
            scaled == bars * signature.0 * 4 * 60_000 * sample_rate,
            bars >= 0,
            signature.0 >= 0,
            sample_rate >= 0,
    ;
    assert(divisor >= 0) by (nonlinear_arith)
        requires
            divisor == signature.1 * bpm_milli,
            signature.1 >= 0,
            bpm_milli >= 0,
    ;
    if scaled != 0 && divisor != 0 {
        assert(scaled / divisor >= 0) by (nonlinear_arith)
            requires
                scaled >= 0,
                divisor > 0,
        ;
    }
}

proof fn lemma_tick_offset_nonnegative(tick: int, bpm_milli: u32, sample_rate: u32)
    requires
        0 <= tick,
    ensures
        0 <= tick_offset(tick, bpm_milli, sample_rate),
{
    let scaled = tick * 60_000 * sample_rate;
    let divisor = TICKS_PER_BEAT * bpm_milli;
    assert(scaled >= 0) by (nonlinear_arith)
        requires
            scaled == tick * 60_000 * sample_rate,
            tick >= 0,
            sample_rate >= 0,
    ;
    if scaled != 0 && divisor != 0 {
        assert(scaled / divisor >= 0) by (nonlinear_arith)
            requires
                scaled >= 0,
                divisor > 0,
        ;
    }
}

proof fn lemma_emitted_confined(
    notes: Seq<Note>,
    track_id: usize,
    start_sample: u64,
    end: int,
    bpm_milli: u32,
    sample_rate: u32,
)
    requires
        start_sample <= end <= u64::MAX,
    ensures
        confined(
            emitted(notes, track_id, start_sample, end, bpm_milli, sample_rate),
            track_id,
            start_sample as int,
            end,
        ),
        emitted(notes, track_id, start_sample, end, bpm_milli, sample_rate).len() <= 2 * notes.len(),
    decreases notes.len(),
{
    if notes.len() > 0 {
        let note = notes.last();
        lemma_emitted_confined(notes.drop_last(), track_id, start_sample, end, bpm_milli, sample_rate);
        lemma_tick_offset_nonnegative(note.start_tick as int, bpm_milli, sample_rate);
        lemma_tick_offset_nonnegative(note.end(), bpm_milli, sample_rate);
        let before = emitted(notes.drop_last(), track_id, start_sample, end, bpm_milli, sample_rate);
        let these = note_events(note, track_id, start_sample, end, bpm_milli, sample_rate);
        let all = emitted(notes, track_id, start_sample, end, bpm_milli, sample_rate);
        assert(all =~= before + these);
        assert forall|i: int| 0 <= i < all.len() implies (#[trigger] all[i]).event.track() == track_id
            && start_sample <= all[i].sample_timestamp <= end by {
            if i < before.len() {
                assert(all[i] == before[i]);
            } else {
                assert(all[i] == these[i - before.len()]);
            }
        }
    }
}

/// Every event of an expansion is addressed to the track of the pattern and
/// falls between the start and the end of the pattern, and the timestamps
/// never decrease along the expansion.
pub proof fn lemma_expansion_ordered(
    sequence: Sequence,
    generated: Option<Seq<Note>>,
    track_id: usize,
    start_sample: u64,
    bpm_milli: u32,
    sample_rate: u32,
)
    ensures
        ordered(expansion(sequence, generated, track_id, start_sample, bpm_milli, sample_rate)),
        confined(
            expansion(sequence, generated, track_id, start_sample, bpm_milli, sample_rate),
            track_id,
            start_sample as int,
            sequence_end(start_sample, sequence.samples(bpm_milli, sample_rate)),
        ),
{
    broadcast use vstd::seq_lib::group_to_multiset_ensures;

    let end = sequence_end(start_sample, sequence.samples(bpm_milli, sample_rate));
    let raw = emitted(sequence.notes(generated), track_id, start_sample, end, bpm_milli, sample_rate);
    let sorted = stable_sorted(raw);
    lemma_emitted_confined(sequence.notes(generated), track_id, start_sample, end, bpm_milli, sample_rate);
    lemma_stable_sorted(raw);
    assert forall|i: int| 0 <= i < sorted.len() implies (#[trigger] sorted[i]).event.track() == track_id
        && start_sample <= sorted[i].sample_timestamp <= end by {
        assert(sorted.contains(sorted[i]));
        assert(sorted.to_multiset().count(sorted[i]) > 0);
        assert(raw.to_multiset().count(sorted[i]) > 0);
        assert(raw.contains(sorted[i]));
        let m = choose|m: int| 0 <= m < raw.len() && raw[m] == sorted[i];
        assert(raw[m].event.track() == track_id);
    }
}

/// Whether `event` is a note-on or a note-off for `pitch`.
pub open spec fn sounds(event: ScheduledEvent, pitch: u8) -> bool {
    match event.event {
        Event::MidiEvent { message, .. } => match message {
            MidiMessage::NoteOn { pitch: p, .. } => p == pitch,
            MidiMessage::NoteOff { pitch: p } => p == pitch,
        },
        _ => false,
    }
}

/// Whether `event` is a note-on.
pub open spec fn strikes(event: ScheduledEvent) -> bool {
    match event.event {
        Event::MidiEvent { message, .. } => message is NoteOn,
        _ => false,
    }
}

/// The events that are note-ons or note-offs for `pitch`.
pub open spec fn for_pitch(pitch: u8) -> spec_fn(ScheduledEvent) -> bool {
    |event: ScheduledEvent| sounds(event, pitch)
}

/// The note-ons and note-offs for `pitch` among `events`, in the order they
/// have there.
pub open spec fn line(events: Seq<ScheduledEvent>, pitch: u8) -> Seq<ScheduledEvent> {
    events.filter(for_pitch(pitch))
}

/// Whether no note-on of `line` is followed at once by another note-on.
pub open spec fn alternating(line: Seq<ScheduledEvent>) -> bool {
    forall|i: int| 0 <= i && i + 1 < line.len() && strikes(#[trigger] line[i]) ==> !strikes(line[i + 1])
}

/// The latest sample at which a note of `notes` with pitch `pitch` ends, and
/// `start_sample` if there is no such note.
pub open spec fn latest(
    notes: Seq<Note>,
    pitch: u8,
    start_sample: u64,
    bpm_milli: u32,
    sample_rate: u32,
) -> int
    decreases notes.len(),
{
    if notes.len() == 0 {
        start_sample as int
    } else {
        let before = latest(notes.drop_last(), pitch, start_sample, bpm_milli, sample_rate);
        let here = start_sample + tick_offset(notes.last().end(), bpm_milli, sample_rate);
        if notes.last().pitch == pitch && here > before {
            here
        } else {
            before
        }
    }
}

proof fn lemma_tick_offset_monotone(a: int, b: int, bpm_milli: u32, sample_rate: u32)
    requires
        0 <= a <= b,
    ensures
        0 <= tick_offset(a, bpm_milli, sample_rate) <= tick_offset(b, bpm_milli, sample_rate),
{
    lemma_tick_offset_nonnegative(a, bpm_milli, sample_rate);
    lemma_tick_offset_nonnegative(b, bpm_milli, sample_rate);
    let scaled_a = a * 60_000 * sample_rate;
    let scaled_b = b * 60_000 * sample_rate;
    let divisor = TICKS_PER_BEAT * bpm_milli;
    assert(0 <= scaled_a <= scaled_b) by (nonlinear_arith)
        requires
            scaled_a == a * 60_000 * sample_rate,
            scaled_b == b * 60_000 * sample_rate,
            0 <= a <= b,
            sample_rate >= 0,
    ;
    if scaled_a != 0 && divisor != 0 {
        assert(divisor > 0) by (nonlinear_arith)
            requires
                divisor == TICKS_PER_BEAT * bpm_milli,
                divisor != 0,
                bpm_milli >= 0,
        ;
        lemma_div_is_ordered(scaled_a, scaled_b, divisor);
    }
}

proof fn lemma_latest_bound(
    notes: Seq<Note>,
    pitch: u8,
    start_sample: u64,
    bpm_milli: u32,
    sample_rate: u32,
    tick: int,
)
    requires
        0 <= tick,
        forall|m: int| 0 <= m < notes.len() && (#[trigger] notes[m]).pitch == pitch ==> notes[m].end() < tick,
    ensures
        start_sample <= latest(notes, pitch, start_sample, bpm_milli, sample_rate) <= start_sample
            + tick_offset(tick, bpm_milli, sample_rate),
    decreases notes.len(),
{
    lemma_tick_offset_nonnegative(tick, bpm_milli, sample_rate);
    if notes.len() > 0 {
        let front = notes.drop_last();
        assert forall|m: int| 0 <= m < front.len() && (#[trigger] front[m]).pitch
            == pitch implies front[m].end() < tick by {
            assert(front[m] == notes[m]);
        }
        lemma_latest_bound(front, pitch, start_sample, bpm_milli, sample_rate, tick);
        if notes.last().pitch == pitch {
            assert(notes[notes.len() - 1].end() < tick);
            lemma_tick_offset_monotone(notes.last().end(), tick, bpm_milli, sample_rate);
        }
    }
}

proof fn lemma_note_line(
    note: Note,
    track_id: usize,
    start_sample: u64,
    end: int,
    bpm_milli: u32,
    sample_rate: u32,
    pitch: u8,
)
    ensures
        line(note_events(note, track_id, start_sample, end, bpm_milli, sample_rate), pitch) == if note.pitch
            == pitch {
            note_events(note, track_id, start_sample, end, bpm_milli, sample_rate)
        } else {
            Seq::empty()
        },
{
    let on = start_sample + tick_offset(note.start_tick as int, bpm_milli, sample_rate);
    let off = start_sample + tick_offset(note.end(), bpm_milli, sample_rate);
    let on_event = ScheduledEvent {
        sample_timestamp: on as u64,
        event: Event::MidiEvent {
            track_id,
            message: MidiMessage::NoteOn { pitch: note.pitch, velocity: note.velocity },
        },
    };
    let off_event = ScheduledEvent {
        sample_timestamp: off as u64,
        event: Event::MidiEvent { track_id, message: MidiMessage::NoteOff { pitch: note.pitch } },
    };
    let note_on: Seq<ScheduledEvent> = if on < end {
        seq![on_event]
    } else {
        Seq::empty()
    };
    let note_off: Seq<ScheduledEvent> = if off <= end {
        seq![off_event]
    } else {
        Seq::empty()
    };
    let pred = for_pitch(pitch);
    assert(note_events(note, track_id, start_sample, end, bpm_milli, sample_rate) == note_on
        + note_off);
    Seq::filter_distributes_over_add(note_on, note_off, pred);
    lemma_filter_none::<ScheduledEvent>(pred);
    lemma_filter_one(on_event, pred);
    lemma_filter_one(off_event, pred);
    assert(pred(on_event) == (note.pitch == pitch));
    assert(pred(off_event) == (note.pitch == pitch));
    if note.pitch != pitch {
        assert(note_on.filter(pred) + note_off.filter(pred) =~= Seq::<ScheduledEvent>::empty());
    }
}

/// The note-on `note_on`, if `on` falls before `end`, and then the note-off
/// `note_off`, if `off` does not fall after `end`.
pub open spec fn on_and_off(
    note_on: ScheduledEvent,
    note_off: ScheduledEvent,
    on: int,
    off: int,
    end: int,
) -> Seq<ScheduledEvent> {
    let first = if on < end {
        seq![note_on]
    } else {
        Seq::empty()
    };
    let second = if off <= end {
        seq![note_off]
    } else {
        Seq::empty()
    };
    first + second
}

/// Whether `line` is in order of time, has no note-on followed at once by
/// another, holds nothing later than `reach`, and, where it ends with a
/// note-on, belongs to notes that reach past `end`.
pub open spec fn well_lined(line: Seq<ScheduledEvent>, reach: int, end: int) -> bool {
    &&& ordered(line)
    &&& alternating(line)
    &&& forall|i: int| 0 <= i < line.len() ==> (#[trigger] line[i]).sample_timestamp <= reach
    &&& line.len() > 0 && strikes(line.last()) ==> reach > end
}

proof fn lemma_line_extend(
    old_line: Seq<ScheduledEvent>,
    note_on: ScheduledEvent,
    note_off: ScheduledEvent,
    on: int,
    off: int,
    reach: int,
    end: int,
)
    requires
        well_lined(old_line, reach, end),
        reach <= on <= off,
        on < end ==> note_on.sample_timestamp == on,
        off <= end ==> note_off.sample_timestamp == off,
        strikes(note_on),
        !strikes(note_off),
    ensures
        well_lined(old_line + on_and_off(note_on, note_off, on, off, end), off, end),
{
    let these = on_and_off(note_on, note_off, on, off, end);
    let all = old_line + these;
    if old_line.len() > 0 && strikes(old_line.last()) {
        assert(these =~= Seq::<ScheduledEvent>::empty());
        assert(all =~= old_line);
    } else {
        assert forall|i: int| 0 <= i < all.len() implies (#[trigger] all[i]).sample_timestamp
            <= off by {
            if i < old_line.len() {
                assert(all[i] == old_line[i]);
            } else {
                assert(all[i] == these[i - old_line.len()]);
            }
        }
        assert forall|i: int, j: int| 0 <= i <= j < all.len() implies all[i].key() <= all[j].key() by {
            if j < old_line.len() {
                assert(all[i] == old_line[i] && all[j] == old_line[j]);
            } else if i < old_line.len() {
                assert(all[i] == old_line[i]);
                assert(all[j] == these[j - old_line.len()]);
            } else {
                assert(all[i] == these[i - old_line.len()]);
                assert(all[j] == these[j - old_line.len()]);
            }
        }
        assert forall|i: int| 0 <= i && i + 1 < all.len() && strikes(#[trigger] all[i]) implies !strikes(
            all[i + 1],
        ) by {
            if i + 1 < old_line.len() {
                assert(all[i] == old_line[i] && all[i + 1] == old_line[i + 1]);
            } else if i < old_line.len() {
                assert(all[i] == old_line[i]);
                assert(old_line[i] == old_line.last());
            } else {
                assert(all[i] == these[i - old_line.len()]);
                assert(all[i + 1] == these[i + 1 - old_line.len()]);
            }
        }
        if all.len() > 0 && strikes(all.last()) {
            if these.len() == 0 {
                assert(all =~= old_line);
            } else {
                assert(all.last() == these.last());
            }
        }
    }
}

/// The last note of `notes` starts no earlier than the notes of its pitch
/// before it end, and ends no earlier than it starts.
proof fn lemma_note_reach(notes: Seq<Note>, start_sample: u64, bpm_milli: u32, sample_rate: u32)
    requires
        notes.len() > 0,
        in_order(notes),
    ensures
        start_sample <= latest(
            notes.drop_last(),
            notes.last().pitch,
            start_sample,
            bpm_milli,
            sample_rate,
        ) <= start_sample + tick_offset(notes.last().start_tick as int, bpm_milli, sample_rate)
            <= start_sample + tick_offset(notes.last().end(), bpm_milli, sample_rate),
        latest(notes, notes.last().pitch, start_sample, bpm_milli, sample_rate) == start_sample
            + tick_offset(notes.last().end(), bpm_milli, sample_rate),
{
    let note = notes.last();
    let front = notes.drop_last();
    assert forall|m: int| 0 <= m < front.len() && (#[trigger] front[m]).pitch
        == note.pitch implies front[m].end() < note.start_tick by {
        assert(front[m] == notes[m]);
        assert(notes[notes.len() - 1] == note);
    }
    lemma_latest_bound(
        front,
        note.pitch,
        start_sample,
        bpm_milli,
        sample_rate,
        note.start_tick as int,
    );
    lemma_tick_offset_monotone(note.start_tick as int, note.end(), bpm_milli, sample_rate);
}

proof fn lemma_note_step(
    old_line: Seq<ScheduledEvent>,
    notes: Seq<Note>,
    track_id: usize,
    start_sample: u64,
    end: int,
    bpm_milli: u32,
    sample_rate: u32,
)
    requires
        notes.len() > 0,
        in_order(notes),
        start_sample <= end <= u64::MAX,
        well_lined(
            old_line,
            latest(notes.drop_last(), notes.last().pitch, start_sample, bpm_milli, sample_rate),
            end,
        ),
    ensures
        well_lined(
            old_line + note_events(
                notes.last(),
                track_id,
                start_sample,
                end,
                bpm_milli,
                sample_rate,
            ),
            latest(notes, notes.last().pitch, start_sample, bpm_milli, sample_rate),
            end,
        ),
{
    let note = notes.last();
    lemma_note_reach(notes, start_sample, bpm_milli, sample_rate);
    let on = start_sample + tick_offset(note.start_tick as int, bpm_milli, sample_rate);
    let off = start_sample + tick_offset(note.end(), bpm_milli, sample_rate);
    let reach = latest(notes.drop_last(), note.pitch, start_sample, bpm_milli, sample_rate);
    let on_event = ScheduledEvent {
        sample_timestamp: on as u64,
        event: Event::MidiEvent {
            track_id,
            message: MidiMessage::NoteOn { pitch: note.pitch, velocity: note.velocity },
        },
    };
    let off_event = ScheduledEvent {
        sample_timestamp: off as u64,
        event: Event::MidiEvent { track_id, message: MidiMessage::NoteOff { pitch: note.pitch } },
    };
    lemma_line_extend(old_line, on_event, off_event, on, off, reach, end);
    assert(note_events(note, track_id, start_sample, end, bpm_milli, sample_rate) == on_and_off(
        on_event,
        off_event,
        on,
        off,
        end,
    ));
}

proof fn lemma_emitted_line(
    notes: Seq<Note>,
    track_id: usize,
    start_sample: u64,
    end: int,
    bpm_milli: u32,
    sample_rate: u32,
    pitch: u8,
)
    requires
        in_order(notes),
        start_sample <= end <= u64::MAX,
    ensures
        well_lined(
            line(emitted(notes, track_id, start_sample, end, bpm_milli, sample_rate), pitch),
            latest(notes, pitch, start_sample, bpm_milli, sample_rate),
            end,
        ),
    decreases notes.len(),
{
    let pred = for_pitch(pitch);
    if notes.len() == 0 {
        lemma_filter_none::<ScheduledEvent>(pred);
    } else {
        let note = notes.last();
        let front = notes.drop_last();
        assert(in_order(front)) by {
            assert forall|i: int, j: int| 0 <= i < j < front.len() && front[i].pitch
                == front[j].pitch implies front[i].end() < front[j].start_tick by {
                assert(front[i] == notes[i] && front[j] == notes[j]);
            }
        }
        lemma_emitted_line(front, track_id, start_sample, end, bpm_milli, sample_rate, pitch);
        let before = emitted(front, track_id, start_sample, end, bpm_milli, sample_rate);
        let these = note_events(note, track_id, start_sample, end, bpm_milli, sample_rate);
        let old_line = line(before, pitch);
        let all_line = line(
            emitted(notes, track_id, start_sample, end, bpm_milli, sample_rate),
            pitch,
        );
        Seq::filter_distributes_over_add(before, these, pred);
        lemma_note_line(note, track_id, start_sample, end, bpm_milli, sample_rate, pitch);
        if note.pitch != pitch {
            assert(all_line =~= old_line);
        } else {
            lemma_note_step(old_line, notes, track_id, start_sample, end, bpm_milli, sample_rate);
            assert(all_line == old_line + these);
        }
    }
}

/// In the events of a pattern the note-ons and note-offs of a pitch stand in
/// the order of their notes, and no two note-ons of a pitch follow each
/// other without a note-off of that pitch between them.
pub proof fn lemma_expansion_alternates(
    sequence: Sequence,
    generated: Option<Seq<Note>>,
    track_id: usize,
    start_sample: u64,
    bpm_milli: u32,
    sample_rate: u32,
    pitch: u8,
)
    ensures
        alternating(
            line(
                expansion(sequence, generated, track_id, start_sample, bpm_milli, sample_rate),
                pitch,
            ),
        ),
        line(expansion(sequence, generated, track_id, start_sample, bpm_milli, sample_rate), pitch)
            == line(
            emitted(
                sequence.notes(generated),
                track_id,
                start_sample,
                sequence_end(start_sample, sequence.samples(bpm_milli, sample_rate)),
                bpm_milli,
                sample_rate,
            ),
            pitch,
        ),
{
    let notes = sequence.notes(generated);
    let end = sequence_end(start_sample, sequence.samples(bpm_milli, sample_rate));
    match sequence {
        Sequence::Static(p) => {
            lemma_normalized_separated(p.notes@);
        },
        Sequence::Generated(_) => {
            match generated {
                Some(produced) => {
                    lemma_normalized_separated(produced);
                },
                None => {},
            }
        },
    }
    lemma_sequence_end(start_sample, sequence, bpm_milli, sample_rate);
    lemma_emitted_line(notes, track_id, start_sample, end, bpm_milli, sample_rate, pitch);
    lemma_sort_keeps_line(
        emitted(notes, track_id, start_sample, end, bpm_milli, sample_rate),
        for_pitch(pitch),
    );
}

/// Returns the number of samples from the start of a pattern to `tick`.
fn offset_of_tick(tick: u64, bpm_milli: u32, sample_rate: u32) -> (offset: u128)
    ensures
        offset == tick_offset(tick as int, bpm_milli, sample_rate),
        offset <= 0xffff_ffff_ffff_ffff * (60_000 * 0xffff_ffff),
{
    proof {
        lemma_product_bound(60_000, sample_rate as int, 60_000, 0xffff_ffff);
        lemma_product_bound(
            tick as int,
            60_000 * sample_rate,
            0xffff_ffff_ffff_ffffint,
            60_000int * 0xffff_ffffint,
        );
        assert(tick * (60_000 * sample_rate) == tick * 60_000 * sample_rate) by (nonlinear_arith);
        lemma_product_bound(TICKS_PER_BEAT as int, bpm_milli as int, 960, 0xffff_ffff);
    }
    let scaled: u128 = (tick as u128) * (60_000u128 * (sample_rate as u128));
    let divisor: u128 = (TICKS_PER_BEAT as u128) * (bpm_milli as u128);
    if scaled == 0 {
        0
    } else if divisor == 0 {
        u64::MAX as u128
    } else {
        assert(scaled / divisor <= scaled) by (nonlinear_arith)
            requires
                scaled >= 0,
                divisor > 0,
        ;
        scaled / divisor
    }
}

/// Appends the events of one note to `events`.
fn push_note_events(
    events: &mut Vec<ScheduledEvent>,
    note: &Note,
    track_id: usize,
    start_sample: u64,
    end: u64,
    bpm_milli: u32,
    sample_rate: u32,
)
    ensures
        final(events)@ == old(events)@ + note_events(
            *note,
            track_id,
            start_sample,
            end as int,
            bpm_milli,
            sample_rate,
        ),
{
    let ghost before = events@;
    let on: u128 = start_sample as u128 + offset_of_tick(note.start_tick, bpm_milli, sample_rate);
    let off: u128 = start_sample as u128 + offset_of_tick(note.end_tick(), bpm_milli, sample_rate);
    if on < end as u128 {
        events.push(
            ScheduledEvent {
                sample_timestamp: on as u64,
                event: Event::MidiEvent {
                    track_id,
                    message: MidiMessage::NoteOn { pitch: note.pitch, velocity: note.velocity },
                },
            },
        );
    }
    if off <= end as u128 {
        events.push(
            ScheduledEvent {
                sample_timestamp: off as u64,
                event: Event::MidiEvent {
                    track_id,
                    message: MidiMessage::NoteOff { pitch: note.pitch },
                },
            },
        );
    }
    proof {
        assert(events@ =~= before + note_events(
            *note,
            track_id,
            start_sample,
            end as int,
            bpm_milli,
            sample_rate,
        ));
    }
}

/// Expands a pattern that starts at `start_sample` into its events, ordered
/// by timestamp. `generated` is what the script of a generated pattern
/// produced, or `None` when it was not run or failed.
pub fn expand_sequence(
    sequence: &Sequence,
    generated: Option<&Vec<Note>>,
    track_id: usize,
    start_sample: u64,
    bpm_milli: u32,
    sample_rate: u32,
) -> (events: Vec<ScheduledEvent>)
    ensures
        events@ == expansion(
            *sequence,
            produced(generated),
            track_id,
            start_sample,
            bpm_milli,
            sample_rate,
        ),
        ordered(events@),
        confined(
            events@,
            track_id,
            start_sample as int,
            sequence_end(start_sample, sequence.samples(bpm_milli, sample_rate)),
        ),
        forall|pitch: u8| alternating(#[trigger] line(events@, pitch)),
{
    let notes = sequence.get_notes(generated);
    let end = start_sample.saturating_add(sequence.duration_samples(bpm_milli, sample_rate));
    let mut events: Vec<ScheduledEvent> = Vec::new();
    let mut i: usize = 0;
    while i < notes.len()
        invariant
            0 <= i <= notes.len(),
            events@ == emitted(
                notes@.take(i as int),
                track_id,
                start_sample,
                end as int,
                bpm_milli,
                sample_rate,
            ),
        decreases notes.len() - i,
    {
        proof {
            assert(notes@.take(i + 1).drop_last() =~= notes@.take(i as int));
        }
        push_note_events(&mut events, &notes[i], track_id, start_sample, end, bpm_milli, sample_rate);
        i += 1;
    }
    proof {
        assert(notes@.take(i as int) =~= notes@);
        lemma_expansion_ordered(
            *sequence,
            produced(generated),
            track_id,
            start_sample,
            bpm_milli,
            sample_rate,
        );
        assert forall|pitch: u8|
            alternating(
                #[trigger] line(
                    expansion(
                        *sequence,
                        produced(generated),
                        track_id,
                        start_sample,
                        bpm_milli,
                        sample_rate,
                    ),
                    pitch,
                ),
            ) by {
            lemma_expansion_alternates(
                *sequence,
                produced(generated),
                track_id,
                start_sample,
                bpm_milli,
                sample_rate,
                pitch,
            );
        }
    }
    sort_by_key(events)
}

/// Whether `after` is `before` followed by the first `count` of `events`.
pub open spec fn delivered(
    before: Seq<ScheduledEvent>,
    after: Seq<ScheduledEvent>,
    events: Seq<ScheduledEvent>,
    count: int,
) -> bool {
    0 <= count <= events.len() && after == before + events.take(count)
}

/// The event at which sending `events` stopped when the queue took the first
/// `count` of them: the one after those, if there is one.
pub open spec fn turned_away(events: Seq<ScheduledEvent>, count: int) -> Seq<ScheduledEvent> {
    if 0 <= count < events.len() {
        seq![events[count]]
    } else {
        Seq::empty()
    }
}

/// Sends `events` into the queue, in order, and stops at the first one that
/// the queue does not take. Returns the number of events that were sent.
///
/// Each event is offered to the queue once, until one is refused: the queue
/// has taken the events before the one at which sending stopped, it has
/// refused that one, and it has not been offered the ones after it.
pub fn push_counted(events: &Vec<ScheduledEvent>, producer: &mut EventProducer) -> (count: usize)
    ensures
        delivered(sent(*old(producer)), sent(*final(producer)), events@, count as int),
        refused(*final(producer)) == refused(*old(producer)) + turned_away(events@, count as int),
{
    let ghost before = sent(*producer);
    let ghost declined = refused(*producer);
    let mut i: usize = 0;
    while i < events.len()
        invariant
            0 <= i <= events.len(),
            before == sent(*old(producer)),
            declined == refused(*old(producer)),
            sent(*producer) == before + events@.take(i as int),
            refused(*producer) == declined,
        decreases events.len() - i,
    {
        match try_send(producer, events[i].clone()) {
            Ok(_) => {
                proof {
                    assert(events@.take(i + 1) =~= events@.take(i as int).push(events@[i as int]));
                    assert((before + events@.take(i as int)).push(events@[i as int]) =~= before
                        + events@.take(i + 1));
                }
            },
            Err(_) => {
                proof {
                    assert(declined.push(events@[i as int]) =~= declined + turned_away(
                        events@,
                        i as int,
                    ));
                }
                return i;
            },
        }
        i += 1;
    }
    proof {
        assert(declined =~= declined + turned_away(events@, i as int));
    }
    i
}

/// Whether sending `events` stopped after the first `count` of them: the
/// queue has taken those and has refused the one after them, if there is
/// one.
pub open spec fn stopped_at(
    sent_before: Seq<ScheduledEvent>,
    sent_after: Seq<ScheduledEvent>,
    refused_before: Seq<ScheduledEvent>,
    refused_after: Seq<ScheduledEvent>,
    events: Seq<ScheduledEvent>,
    count: int,
) -> bool {
    &&& delivered(sent_before, sent_after, events, count)
    &&& refused_after == refused_before + turned_away(events, count)
}

/// Sends `events` into the queue, in order, and stops with an error at the
/// first one that the queue does not take. Each event is offered to the
/// queue once, until one is refused.
pub fn push_events(events: &Vec<ScheduledEvent>, producer: &mut EventProducer) -> (r: Result<
    (),
    SchedulerError,
>)
    ensures
        match r {
            Ok(_) => sent(*final(producer)) == sent(*old(producer)) + events@ && refused(
                *final(producer),
            ) == refused(*old(producer)),
            Err(e) => e == SchedulerError::BufferFull && exists|count: int|
                count < events@.len() && #[trigger] stopped_at(
                    sent(*old(producer)),
                    sent(*final(producer)),
                    refused(*old(producer)),
                    refused(*final(producer)),
                    events@,
                    count,
                ),
        },
{
    let count = push_counted(events, producer);
    if count == events.len() {
        proof {
            assert(events@.take(count as int) =~= events@);
            assert(refused(*producer) =~= refused(*old(producer)));
        }
        Ok(())
    } else {
        proof {
            assert(stopped_at(
                sent(*old(producer)),
                sent(*producer),
                refused(*old(producer)),
                refused(*producer),
                events@,
                count as int,
            ));
        }
        Err(SchedulerError::BufferFull)
    }
}

/// Expands a pattern that starts at `start_sample` and sends its events into
/// the queue in the order of their timestamps. When the queue does not take
/// an event the expansion is given up at that event.
pub fn schedule_sequence_events(
    sequence: &Sequence,
    track_id: usize,
    start_sample: u64,
    bpm_milli: u32,
    sample_rate: u32,
    producer: &mut EventProducer,
    generated: Option<&Vec<Note>>,
) -> (r: Result<(), SchedulerError>)
    ensures
        match r {
            Ok(_) => sent(*final(producer)) == sent(*old(producer)) + expansion(
                *sequence,
                produced(generated),
                track_id,
                start_sample,
                bpm_milli,
                sample_rate,
            ) && refused(*final(producer)) == refused(*old(producer)),
            Err(e) => e == SchedulerError::BufferFull && exists|count: int|
                count < expansion(
                    *sequence,
                    produced(generated),
                    track_id,
                    start_sample,
                    bpm_milli,
                    sample_rate,
                ).len() && #[trigger] stopped_at(
                    sent(*old(producer)),
                    sent(*final(producer)),
                    refused(*old(producer)),
                    refused(*final(producer)),
                    expansion(
                        *sequence,
                        produced(generated),
                        track_id,
                        start_sample,
                        bpm_milli,
                        sample_rate,
                    ),
                    count,
                ),
        },
{
    let events = expand_sequence(sequence, generated, track_id, start_sample, bpm_milli, sample_rate);
    push_events(&events, producer)
}

} // verus!
