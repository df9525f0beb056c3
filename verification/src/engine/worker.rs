//! The timing worker: each track walks its state graph, and the pattern of
//! the node it enters is expanded into events.

use crate::events::{Event, ScheduledEvent};
use crate::queue::{refused, sent, try_send, EventProducer};
use crate::sorting::{ordered, Keyed};
use crate::timing::scheduler::{
    confined, expand_sequence, expansion, lemma_expansion_ordered, push_counted, sequence_end,
    turned_away,
};
use crate::timing::sequence::{produced, Note, Sequence};
use crate::timing::state_machine::{Node, StateGraph};
use vstd::prelude::*;

verus! {

/// Where each track is in its state graph, and until when.
pub struct TimingState {
    /// The state graph of each track.
    pub graphs: Vec<StateGraph>,
    /// The name of the node that each track is in.
    pub current_nodes: Vec<String>,
    /// The sample at which the pattern of that node ends.
    pub sequence_end_samples: Vec<u64>,
}

/// How the pattern of a node went into the queue when a track entered the
/// node.
#[derive(Debug, Clone, Copy, PartialEq, Eq)]
pub struct Entry {
    /// How many events of the pattern the queue took.
    pub delivered: usize,
    /// Whether the queue took all events of the pattern.
    pub complete: bool,
    /// Whether the pattern is a generated one whose script produced nothing
    /// to play, so that the node is silent.
    pub script_failed: bool,
}

/// What the worker did for a track whose pattern had ended.
#[derive(Debug, Clone, Copy, PartialEq, Eq)]
pub struct Transition {
    /// Whether the queue took the event that stops the notes of the track.
    /// If it did not, the track has stayed where it was.
    pub stop_delivered: bool,
    /// How the track entered its next node, if it did.
    pub entry: Entry,
}

/// The event that stops all notes of `track_id` at the sample `clock`.
pub open spec fn stop_event(track_id: usize, clock: u64) -> ScheduledEvent {
    ScheduledEvent { sample_timestamp: clock, event: Event::StopAllNotes { track_id } }
}

/// What the script of the pattern that `track_id` enters has produced.
pub open spec fn produced_for(generated: Seq<Option<Vec<Note>>>, track_id: usize) -> Option<Seq<Note>> {
    if track_id < generated.len() {
        match generated[track_id as int] {
            Some(notes) => Some(notes@),
            None => None,
        }
    } else {
        None
    }
}

/// The events of the pattern of `node` when the pattern starts at
/// `start_sample`; none when there is no node.
pub open spec fn planned(
    node: Option<Node>,
    generated: Option<Seq<Note>>,
    track_id: usize,
    start_sample: u64,
    bpm_milli: u32,
    sample_rate: u32,
) -> Seq<ScheduledEvent> {
    match node {
        Some(node) => expansion(
            node.sequence,
            generated,
            track_id,
            start_sample,
            bpm_milli,
            sample_rate,
        ),
        None => Seq::empty(),
    }
}

/// Whether `node` has a generated pattern for which no script has produced
/// anything.
pub open spec fn missing_script(node: Option<Node>, generated: Option<Seq<Note>>) -> bool {
    match node {
        Some(node) => node.sequence is Generated && generated is None,
        None => false,
    }
}

/// The sample at which the pattern of `node` ends when it starts at
/// `start_sample`. A track that enters a node which its graph does not have
/// stays silent and never comes to an end of a pattern again.
pub open spec fn end_of(node: Option<Node>, start_sample: u64, bpm_milli: u32, sample_rate: u32) -> u64 {
    match node {
        Some(node) => sequence_end(start_sample, node.sequence.samples(bpm_milli, sample_rate)) as u64,
        None => u64::MAX,
    }
}

/// The entry of a track that has not entered a node.
pub open spec fn no_entry() -> Entry {
    Entry { delivered: 0, complete: false, script_failed: false }
}

/// Whether `entry` says how the pattern of `node`, starting at
/// `start_sample`, went into the queue.
pub open spec fn entered(
    entry: Entry,
    node: Option<Node>,
    generated: Option<Seq<Note>>,
    track_id: usize,
    start_sample: u64,
    bpm_milli: u32,
    sample_rate: u32,
) -> bool {
    let plan = planned(node, generated, track_id, start_sample, bpm_milli, sample_rate);
    &&& entry.delivered <= plan.len()
    &&& entry.complete == (entry.delivered == plan.len())
    &&& entry.script_failed == missing_script(node, generated)
}

/// What a transition sends into the queue: the event that stops the notes of
/// the track and then the events of the new pattern that the queue took. A
/// transition whose stop event the queue refused sends nothing.
pub open spec fn emission(
    transition: Transition,
    track_id: usize,
    clock: u64,
    planned: Seq<ScheduledEvent>,
) -> Seq<ScheduledEvent> {
    if transition.stop_delivered {
        seq![stop_event(track_id, clock)] + planned.take(transition.entry.delivered as int)
    } else {
        Seq::empty()
    }
}

/// What the queue refused in a transition: the stop event, or else the
/// event of the new pattern at which sending stopped, if there is one.
pub open spec fn refusal(
    transition: Transition,
    track_id: usize,
    clock: u64,
    planned: Seq<ScheduledEvent>,
) -> Seq<ScheduledEvent> {
    if transition.stop_delivered {
        turned_away(planned, transition.entry.delivered as int)
    } else {
        seq![stop_event(track_id, clock)]
    }
}

/// The parts of `parts`, one after the other.
pub open spec fn joined(parts: Seq<Seq<ScheduledEvent>>) -> Seq<ScheduledEvent>
    decreases parts.len(),
{
    if parts.len() == 0 {
        Seq::empty()
    } else {
        joined(parts.drop_last()) + parts.last()
    }
}

proof fn lemma_joined_push(parts: Seq<Seq<ScheduledEvent>>, part: Seq<ScheduledEvent>)
    ensures
        joined(parts.push(part)) == joined(parts) + part,
{
    assert(parts.push(part).drop_last() =~= parts);
}

/// Sends the events of the pattern of the node `node_id`, which starts at
/// `start_sample`, into the queue, and stops at the first one that the queue
/// does not take. Returns the sample at which the pattern ends and how the
/// pattern went into the queue. When the graph does not have the node,
/// nothing is sent.
fn enter_node(
    graph: &StateGraph,
    node_id: &str,
    track_id: usize,
    start_sample: u64,
    bpm_milli: u32,
    sample_rate: u32,
    producer: &mut EventProducer,
    generated: Option<&Vec<Note>>,
) -> (done: (u64, Entry))
    ensures
        ({
            let node = graph.node(node_id@);
            let plan = planned(
                node,
                produced(generated),
                track_id,
                start_sample,
                bpm_milli,
                sample_rate,
            );
            &&& done.0 == end_of(node, start_sample, bpm_milli, sample_rate)
            &&& entered(
                done.1,
                node,
                produced(generated),
                track_id,
                start_sample,
                bpm_milli,
                sample_rate,
            )
            &&& sent(*final(producer)) == sent(*old(producer)) + plan.take(done.1.delivered as int)
            &&& refused(*final(producer)) == refused(*old(producer)) + turned_away(
                plan,
                done.1.delivered as int,
            )
        }),
{
    match graph.get_node(node_id) {
        Some(node) => {
            let events = expand_sequence(
                &node.sequence,
                generated,
                track_id,
                start_sample,
                bpm_milli,
                sample_rate,
            );
            let delivered = push_counted(&events, producer);
            let end = start_sample.saturating_add(
                node.sequence.duration_samples(bpm_milli, sample_rate),
            );
            let script_failed = match &node.sequence {
                Sequence::Generated(_) => generated.is_none(),
                Sequence::Static(_) => false,
            };
            (end, Entry { delivered, complete: delivered == events.len(), script_failed })
        },
        None => {
            proof {
                let nothing = Seq::<ScheduledEvent>::empty();
                assert(sent(*producer) =~= sent(*producer) + nothing.take(0));
                assert(refused(*producer) =~= refused(*producer) + turned_away(nothing, 0));
            }
            (u64::MAX, Entry { delivered: 0, complete: true, script_failed: false })
        },
    }
}

/// Whether the timestamps of the events for `track_id` never decrease along
/// `events`.
pub open spec fn ordered_in_track(events: Seq<ScheduledEvent>, track_id: usize) -> bool {
    forall|i: int, j: int|
        0 <= i < j < events.len() && events[i].event.track() == track_id && events[j].event.track()
            == track_id ==> events[i].sample_timestamp <= events[j].sample_timestamp
}

/// Whether no event for `track_id` in `events` is later than the sample
/// `limit`.
pub open spec fn bounded_in_track(events: Seq<ScheduledEvent>, track_id: usize, limit: int) -> bool {
    forall|i: int|
        0 <= i < events.len() && (#[trigger] events[i]).event.track() == track_id
            ==> events[i].sample_timestamp <= limit
}

/// The latest sample at which an event of the pattern of `node` can fall
/// when the pattern starts at `start_sample`.
pub open spec fn horizon(node: Option<Node>, start_sample: u64, bpm_milli: u32, sample_rate: u32) -> int {
    match node {
        Some(node) => sequence_end(start_sample, node.sequence.samples(bpm_milli, sample_rate)),
        None => start_sample as int,
    }
}

proof fn lemma_sends_keep_order(
    history: Seq<ScheduledEvent>,
    sends: Seq<ScheduledEvent>,
    track_id: usize,
    clock: u64,
    limit: int,
    other: usize,
)
    requires
        ordered(sends),
        confined(sends, track_id, clock as int, limit),
        clock <= limit,
        ordered_in_track(history, other),
        other == track_id ==> bounded_in_track(history, track_id, clock as int),
    ensures
        ordered_in_track(history + sends, other),
        other == track_id ==> bounded_in_track(history + sends, track_id, limit),
{
    let all = history + sends;
    assert forall|i: int, j: int|
        0 <= i < j < all.len() && all[i].event.track() == other && all[j].event.track()
            == other implies all[i].sample_timestamp <= all[j].sample_timestamp by {
        if j < history.len() {
            assert(all[i] == history[i] && all[j] == history[j]);
        } else if i < history.len() {
            assert(all[i] == history[i]);
            assert(all[j] == sends[j - history.len()]);
        } else {
            assert(all[i] == sends[i - history.len()]);
            assert(all[j] == sends[j - history.len()]);
        }
    }
    if other == track_id {
        assert forall|i: int|
            0 <= i < all.len() && (#[trigger] all[i]).event.track() == track_id implies all[i].sample_timestamp
            <= limit by {
            if i < history.len() {
                assert(all[i] == history[i]);
            } else {
                assert(all[i] == sends[i - history.len()]);
            }
        }
    }
}

proof fn lemma_plan_confined(
    node: Option<Node>,
    generated: Option<Seq<Note>>,
    track_id: usize,
    start_sample: u64,
    bpm_milli: u32,
    sample_rate: u32,
    count: int,
)
    requires
        0 <= count <= planned(node, generated, track_id, start_sample, bpm_milli, sample_rate).len(),
    ensures
        start_sample <= horizon(node, start_sample, bpm_milli, sample_rate),
        ordered(
            planned(node, generated, track_id, start_sample, bpm_milli, sample_rate).take(count),
        ),
        confined(
            planned(node, generated, track_id, start_sample, bpm_milli, sample_rate).take(count),
            track_id,
            start_sample as int,
            horizon(node, start_sample, bpm_milli, sample_rate),
        ),
{
    let plan = planned(node, generated, track_id, start_sample, bpm_milli, sample_rate);
    let taken = plan.take(count);
    match node {
        Some(node) => {
            lemma_expansion_ordered(
                node.sequence,
                generated,
                track_id,
                start_sample,
                bpm_milli,
                sample_rate,
            );
            crate::timing::scheduler::lemma_sequence_end(
                start_sample,
                node.sequence,
                bpm_milli,
                sample_rate,
            );
        },
        None => {},
    }
    assert forall|i: int, j: int| 0 <= i <= j < taken.len() implies taken[i].key() <= taken[j].key() by {
        assert(taken[i] == plan[i] && taken[j] == plan[j]);
    }
    assert forall|i: int| 0 <= i < taken.len() implies (#[trigger] taken[i]).event.track()
        == track_id && start_sample <= taken[i].sample_timestamp <= horizon(
        node,
        start_sample,
        bpm_milli,
        sample_rate,
    ) by {
        assert(taken[i] == plan[i]);
    }
}

/// What a transition sends is ordered by timestamp, is addressed to the
/// track that moves, and falls between the sample of the transition and the
/// end of the new pattern.
pub proof fn lemma_emission_confined(
    transition: Transition,
    node: Option<Node>,
    generated: Option<Seq<Note>>,
    track_id: usize,
    clock: u64,
    bpm_milli: u32,
    sample_rate: u32,
)
    requires
        transition.entry.delivered <= planned(
            node,
            generated,
            track_id,
            clock,
            bpm_milli,
            sample_rate,
        ).len(),
    ensures
        clock <= horizon(node, clock, bpm_milli, sample_rate),
        ordered(
            emission(
                transition,
                track_id,
                clock,
                planned(node, generated, track_id, clock, bpm_milli, sample_rate),
            ),
        ),
        confined(
            emission(
                transition,
                track_id,
                clock,
                planned(node, generated, track_id, clock, bpm_milli, sample_rate),
            ),
            track_id,
            clock as int,
            horizon(node, clock, bpm_milli, sample_rate),
        ),
{
    let plan = planned(node, generated, track_id, clock, bpm_milli, sample_rate);
    let all = emission(transition, track_id, clock, plan);
    let taken = plan.take(transition.entry.delivered as int);
    lemma_plan_confined(
        node,
        generated,
        track_id,
        clock,
        bpm_milli,
        sample_rate,
        transition.entry.delivered as int,
    );
    if transition.stop_delivered {
        let stop = seq![stop_event(track_id, clock)];
        assert(all =~= stop + taken);
        assert forall|i: int| 0 <= i < all.len() implies (#[trigger] all[i]).event.track()
            == track_id && clock <= all[i].sample_timestamp <= horizon(
            node,
            clock,
            bpm_milli,
            sample_rate,
        ) by {
            if i >= 1 {
                assert(all[i] == taken[i - 1]);
            }
        }
        assert forall|i: int, j: int| 0 <= i <= j < all.len() implies all[i].key() <= all[j].key() by {
            if i >= 1 {
                assert(all[i] == taken[i - 1]);
                assert(all[j] == taken[j - 1]);
            } else if j >= 1 {
                assert(all[j] == taken[j - 1]);
            }
        }
    }
}

/// A transition keeps the events of every track in the order of their
/// timestamps.
///
/// `history` is what has been sent so far. If the events for the track
/// `other` never decrease in time along `history`, and, where `other` is the
/// track that moves, none of them is later than the sample of the
/// transition, then they never decrease along `history` followed by what the
/// transition sends. After it no event for the track that moves is later
/// than the end of the new pattern, or than the transition if that is later.
pub proof fn lemma_transition_keeps_order(
    history: Seq<ScheduledEvent>,
    transition: Transition,
    node: Option<Node>,
    generated: Option<Seq<Note>>,
    track_id: usize,
    clock: u64,
    bpm_milli: u32,
    sample_rate: u32,
    other: usize,
)
    requires
        transition.entry.delivered <= planned(
            node,
            generated,
            track_id,
            clock,
            bpm_milli,
            sample_rate,
        ).len(),
        ordered_in_track(history, other),
        other == track_id ==> bounded_in_track(history, track_id, clock as int),
    ensures
        ordered_in_track(
            history + emission(
                transition,
                track_id,
                clock,
                planned(node, generated, track_id, clock, bpm_milli, sample_rate),
            ),
            other,
        ),
        other == track_id ==> bounded_in_track(
            history + emission(
                transition,
                track_id,
                clock,
                planned(node, generated, track_id, clock, bpm_milli, sample_rate),
            ),
            track_id,
            horizon(node, clock, bpm_milli, sample_rate),
        ),
{
    lemma_emission_confined(transition, node, generated, track_id, clock, bpm_milli, sample_rate);
    lemma_sends_keep_order(
        history,
        emission(
            transition,
            track_id,
            clock,
            planned(node, generated, track_id, clock, bpm_milli, sample_rate),
        ),
        track_id,
        clock,
        horizon(node, clock, bpm_milli, sample_rate),
        other,
    );
}

/// The start of a track keeps the events of every track in the order of
/// their timestamps: what holds of a transition holds of the events of the
/// first pattern of a track, which starts at sample 0.
pub proof fn lemma_start_keeps_order(
    history: Seq<ScheduledEvent>,
    entry: Entry,
    node: Option<Node>,
    generated: Option<Seq<Note>>,
    track_id: usize,
    bpm_milli: u32,
    sample_rate: u32,
    other: usize,
)
    requires
        entry.delivered <= planned(node, generated, track_id, 0, bpm_milli, sample_rate).len(),
        ordered_in_track(history, other),
        other == track_id ==> bounded_in_track(history, track_id, 0),
    ensures
        ordered_in_track(
            history + planned(node, generated, track_id, 0, bpm_milli, sample_rate).take(
                entry.delivered as int,
            ),
            other,
        ),
        other == track_id ==> bounded_in_track(
            history + planned(node, generated, track_id, 0, bpm_milli, sample_rate).take(
                entry.delivered as int,
            ),
            track_id,
            horizon(node, 0, bpm_milli, sample_rate),
        ),
{
    lemma_plan_confined(node, generated, track_id, 0, bpm_milli, sample_rate, entry.delivered as int);
    lemma_sends_keep_order(
        history,
        planned(node, generated, track_id, 0, bpm_milli, sample_rate).take(entry.delivered as int),
        track_id,
        0,
        horizon(node, 0, bpm_milli, sample_rate),
        other,
    );
}

/// Where a pattern ends, the notes of its track are stopped: whatever a
/// transition at the sample `clock` sends begins with the event that stops
/// all notes of the track at `clock`.
pub proof fn lemma_transition_stops_notes(
    transition: Transition,
    track_id: usize,
    clock: u64,
    planned: Seq<ScheduledEvent>,
)
    requires
        emission(transition, track_id, clock, planned).len() > 0,
    ensures
        transition.stop_delivered,
        emission(transition, track_id, clock, planned)[0] == stop_event(track_id, clock),
        emission(transition, track_id, clock, planned)[0].sample_timestamp == clock,
{
}

/// The events of the pattern in which the track `track_id` starts.
pub open spec fn first_plan(
    graphs: Seq<StateGraph>,
    nodes: Seq<String>,
    generated: Seq<Option<Vec<Note>>>,
    track_id: usize,
    bpm_milli: u32,
    sample_rate: u32,
) -> Seq<ScheduledEvent> {
    planned(
        graphs[track_id as int].node(nodes[track_id as int]@),
        produced_for(generated, track_id),
        track_id,
        0,
        bpm_milli,
        sample_rate,
    )
}

/// What the start of each track sends into the queue.
pub open spec fn start_sends(
    graphs: Seq<StateGraph>,
    nodes: Seq<String>,
    reports: Seq<Entry>,
    generated: Seq<Option<Vec<Note>>>,
    bpm_milli: u32,
    sample_rate: u32,
) -> Seq<Seq<ScheduledEvent>> {
    Seq::new(
        reports.len(),
        |t: int|
            first_plan(graphs, nodes, generated, t as usize, bpm_milli, sample_rate).take(
                reports[t].delivered as int,
            ),
    )
}

/// What the queue refused at the start of each track.
pub open spec fn start_refusals(
    graphs: Seq<StateGraph>,
    nodes: Seq<String>,
    reports: Seq<Entry>,
    generated: Seq<Option<Vec<Note>>>,
    bpm_milli: u32,
    sample_rate: u32,
) -> Seq<Seq<ScheduledEvent>> {
    Seq::new(
        reports.len(),
        |t: int|
            turned_away(
                first_plan(graphs, nodes, generated, t as usize, bpm_milli, sample_rate),
                reports[t].delivered as int,
            ),
    )
}

/// Whether `end` and `report` say how the track `track` started: the end
/// of its first pattern, and how that pattern went into the queue.
pub open spec fn track_started(
    graphs: Seq<StateGraph>,
    nodes: Seq<String>,
    generated: Seq<Option<Vec<Note>>>,
    track: int,
    end: u64,
    report: Entry,
    bpm_milli: u32,
    sample_rate: u32,
) -> bool {
    &&& end == end_of(graphs[track].node(nodes[track]@), 0, bpm_milli, sample_rate)
    &&& entered(
        report,
        graphs[track].node(nodes[track]@),
        produced_for(generated, track as usize),
        track as usize,
        0,
        bpm_milli,
        sample_rate,
    )
}

/// The number of tracks that start: a track starts if it has both a graph
/// and a first node.
pub open spec fn started_tracks(graphs: Seq<StateGraph>, nodes: Seq<String>) -> nat {
    if graphs.len() <= nodes.len() {
        graphs.len()
    } else {
        nodes.len()
    }
}

impl TimingState {
    /// Whether the state has a graph, a current node and an end sample for
    /// `track_id`.
    pub open spec fn has_track(self, track_id: usize) -> bool {
        &&& track_id < self.graphs@.len()
        &&& track_id < self.current_nodes@.len()
        &&& track_id < self.sequence_end_samples@.len()
    }

    /// Whether the pattern of the node that `track_id` is in has ended by the
    /// sample `clock`.
    pub open spec fn due(self, track_id: usize, clock: u64) -> bool {
        self.has_track(track_id) && clock >= self.sequence_end_samples@[track_id as int]
    }

    /// The name of the node that `track_id` enters next.
    pub open spec fn upcoming_id(self, track_id: usize) -> Seq<char> {
        self.graphs@[track_id as int].successor(self.current_nodes@[track_id as int]@)
    }

    /// The node that `track_id` enters next, if the graph has it.
    pub open spec fn upcoming_node(self, track_id: usize) -> Option<Node> {
        self.graphs@[track_id as int].node(self.upcoming_id(track_id))
    }

    /// The sample at which the pattern ends that `track_id` enters at the
    /// sample `clock`.
    pub open spec fn end_after(self, track_id: usize, clock: u64, bpm_milli: u32, sample_rate: u32) -> u64 {
        end_of(self.upcoming_node(track_id), clock, bpm_milli, sample_rate)
    }

    /// The events of the pattern that `track_id` enters at the sample
    /// `clock`.
    pub open spec fn plan(
        self,
        track_id: usize,
        clock: u64,
        generated: Option<Seq<Note>>,
        bpm_milli: u32,
        sample_rate: u32,
    ) -> Seq<ScheduledEvent> {
        planned(self.upcoming_node(track_id), generated, track_id, clock, bpm_milli, sample_rate)
    }

    /// Whether `after` is this state with `track_id` moved on to its next
    /// node at the sample `clock`, and nothing else changed.
    pub open spec fn moved_to(
        self,
        after: TimingState,
        track_id: usize,
        clock: u64,
        bpm_milli: u32,
        sample_rate: u32,
    ) -> bool {
        &&& after.graphs == self.graphs
        &&& after.current_nodes@.len() == self.current_nodes@.len()
        &&& forall|k: int|
            0 <= k < self.current_nodes@.len() && k != track_id ==> after.current_nodes@[k]
                == self.current_nodes@[k]
        &&& after.current_nodes@[track_id as int]@ == self.upcoming_id(track_id)
        &&& after.sequence_end_samples@ == self.sequence_end_samples@.update(
            track_id as int,
            self.end_after(track_id, clock, bpm_milli, sample_rate),
        )
    }

    /// Whether `transition` says what was done for `track_id` at the sample
    /// `clock`, and `after` is the state that it left. If the queue took the
    /// stop event, the track has moved on to its next node. If it did not,
    /// nothing has changed, so that the track is due again at the next poll.
    pub open spec fn transitioned(
        self,
        after: TimingState,
        transition: Transition,
        track_id: usize,
        clock: u64,
        generated: Option<Seq<Note>>,
        bpm_milli: u32,
        sample_rate: u32,
    ) -> bool {
        if transition.stop_delivered {
            &&& self.moved_to(after, track_id, clock, bpm_milli, sample_rate)
            &&& entered(
                transition.entry,
                self.upcoming_node(track_id),
                generated,
                track_id,
                clock,
                bpm_milli,
                sample_rate,
            )
        } else {
            &&& after == self
            &&& transition.entry == no_entry()
        }
    }

    /// A track moves on only with its stop event: if a transition has
    /// changed where the track is or when its pattern ends, the queue has
    /// taken the event that stops the notes of the track at the sample of
    /// the transition, before any event of the new pattern.
    pub proof fn lemma_boundary_closed(
        self,
        after: TimingState,
        transition: Transition,
        track_id: usize,
        clock: u64,
        generated: Option<Seq<Note>>,
        bpm_milli: u32,
        sample_rate: u32,
    )
        requires
            self.transitioned(
                after,
                transition,
                track_id,
                clock,
                generated,
                bpm_milli,
                sample_rate,
            ),
            after.current_nodes@ != self.current_nodes@ || after.sequence_end_samples@
                != self.sequence_end_samples@,
        ensures
            transition.stop_delivered,
            emission(
                transition,
                track_id,
                clock,
                self.plan(track_id, clock, generated, bpm_milli, sample_rate),
            )[0] == stop_event(track_id, clock),
    {
    }

    /// Returns the node that `track_id` enters at the sample `clock`, if the
    /// pattern of its current node has ended by then and the graph has the
    /// next node.
    pub fn upcoming(&self, track_id: usize, clock: u64) -> (found: Option<&Node>)
        ensures
            match found {
                Some(node) => self.due(track_id, clock) && self.upcoming_node(track_id) == Some(
                    *node,
                ),
                None => !self.due(track_id, clock) || self.upcoming_node(track_id) is None,
            },
    {
        if track_id >= self.graphs.len() || track_id >= self.current_nodes.len() || track_id
            >= self.sequence_end_samples.len() {
            return None;
        }
        if clock < self.sequence_end_samples[track_id] {
            return None;
        }
        let next = self.graphs[track_id].next_node(self.current_nodes[track_id].as_str());
        self.graphs[track_id].get_node(next.as_str())
    }

    /// Moves `track_id` on if the pattern of its current node has ended by
    /// the sample `clock`, and says what was done; returns `None` otherwise.
    ///
    /// First an event that stops all notes of the track at `clock` is sent
    /// into the queue. If the queue does not take it, nothing else is done:
    /// the track stays where it is and is due again at the next poll.
    /// Otherwise the track enters the node that follows its current node,
    /// and the events of the pattern of that node, which starts at `clock`,
    /// are sent after the stop. Sending the pattern stops at the first event
    /// that the queue does not take. `generated` is what the script of the
    /// new pattern produced, if it is a generated pattern. When the graph
    /// does not have the new node, nothing follows the stop, and the track
    /// stays silent from then on.
    pub fn advance_track(
        &mut self,
        track_id: usize,
        clock: u64,
        bpm_milli: u32,
        sample_rate: u32,
        producer: &mut EventProducer,
        generated: Option<&Vec<Note>>,
    ) -> (done: Option<Transition>)
        ensures
            match done {
                Some(transition) => {
                    let plan = old(self).plan(
                        track_id,
                        clock,
                        produced(generated),
                        bpm_milli,
                        sample_rate,
                    );
                    &&& old(self).due(track_id, clock)
                    &&& old(self).transitioned(
                        *final(self),
                        transition,
                        track_id,
                        clock,
                        produced(generated),
                        bpm_milli,
                        sample_rate,
                    )
                    &&& sent(*final(producer)) == sent(*old(producer)) + emission(
                        transition,
                        track_id,
                        clock,
                        plan,
                    )
                    &&& refused(*final(producer)) == refused(*old(producer)) + refusal(
                        transition,
                        track_id,
                        clock,
                        plan,
                    )
                },
                None => {
                    &&& !old(self).due(track_id, clock)
                    &&& *final(self) == *old(self)
                    &&& sent(*final(producer)) == sent(*old(producer))
                    &&& refused(*final(producer)) == refused(*old(producer))
                },
            },
    {
        if track_id >= self.graphs.len() || track_id >= self.current_nodes.len() || track_id
            >= self.sequence_end_samples.len() {
            return None;
        }
        if clock < self.sequence_end_samples[track_id] {
            return None;
        }
        let ghost before = *self;
        let ghost queue = sent(*producer);
        let ghost declined = refused(*producer);
        let ghost plan = before.plan(track_id, clock, produced(generated), bpm_milli, sample_rate);
        let next = self.graphs[track_id].next_node(self.current_nodes[track_id].as_str());
        match try_send(
            producer,
            ScheduledEvent { sample_timestamp: clock, event: Event::StopAllNotes { track_id } },
        ) {
            Ok(_) => {},
            Err(_) => {
                let transition = Transition {
                    stop_delivered: false,
                    entry: Entry { delivered: 0, complete: false, script_failed: false },
                };
                proof {
                    assert(sent(*producer) =~= queue + emission(transition, track_id, clock, plan));
                    assert(refused(*producer) =~= declined + refusal(
                        transition,
                        track_id,
                        clock,
                        plan,
                    ));
                }
                return Some(transition);
            },
        }
        let entered = enter_node(
            &self.graphs[track_id],
            next.as_str(),
            track_id,
            clock,
            bpm_milli,
            sample_rate,
            producer,
            generated,
        );
        self.sequence_end_samples[track_id] = entered.0;
        self.current_nodes[track_id] = next;
        let transition = Transition { stop_delivered: true, entry: entered.1 };
        proof {
            assert(sent(*producer) =~= queue + emission(transition, track_id, clock, plan));
            assert(self.sequence_end_samples@ =~= before.sequence_end_samples@.update(
                track_id as int,
                before.end_after(track_id, clock, bpm_milli, sample_rate),
            ));
        }
        Some(transition)
    }

    /// Whether `report` says what one poll at the sample `clock` did to
    /// `track_id`, and `after` is where the track is after the poll.
    pub open spec fn polled(
        self,
        after: TimingState,
        track_id: usize,
        report: Option<Transition>,
        clock: u64,
        generated: Seq<Option<Vec<Note>>>,
        bpm_milli: u32,
        sample_rate: u32,
    ) -> bool {
        match report {
            Some(transition) => {
                &&& self.due(track_id, clock)
                &&& if transition.stop_delivered {
                    &&& after.current_nodes@[track_id as int]@ == self.upcoming_id(track_id)
                    &&& after.sequence_end_samples@[track_id as int] == self.end_after(
                        track_id,
                        clock,
                        bpm_milli,
                        sample_rate,
                    )
                    &&& entered(
                        transition.entry,
                        self.upcoming_node(track_id),
                        produced_for(generated, track_id),
                        track_id,
                        clock,
                        bpm_milli,
                        sample_rate,
                    )
                } else {
                    &&& after.current_nodes@[track_id as int] == self.current_nodes@[track_id as int]
                    &&& after.sequence_end_samples@[track_id as int]
                        == self.sequence_end_samples@[track_id as int]
                    &&& transition.entry == no_entry()
                }
            },
            None => {
                &&& !self.due(track_id, clock)
                &&& track_id < self.current_nodes@.len() ==> after.current_nodes@[track_id as int]
                    == self.current_nodes@[track_id as int]
                &&& track_id < self.sequence_end_samples@.len()
                    ==> after.sequence_end_samples@[track_id as int]
                    == self.sequence_end_samples@[track_id as int]
            },
        }
    }

    /// What one poll at the sample `clock` sends into the queue for each
    /// track.
    pub open spec fn poll_sends(
        self,
        reports: Seq<Option<Transition>>,
        clock: u64,
        generated: Seq<Option<Vec<Note>>>,
        bpm_milli: u32,
        sample_rate: u32,
    ) -> Seq<Seq<ScheduledEvent>> {
        Seq::new(
            reports.len(),
            |t: int|
                match reports[t] {
                    Some(transition) => emission(
                        transition,
                        t as usize,
                        clock,
                        self.plan(
                            t as usize,
                            clock,
                            produced_for(generated, t as usize),
                            bpm_milli,
                            sample_rate,
                        ),
                    ),
                    None => Seq::empty(),
                },
        )
    }

    /// What the queue refused in one poll at the sample `clock`, for each
    /// track.
    pub open spec fn poll_refusals(
        self,
        reports: Seq<Option<Transition>>,
        clock: u64,
        generated: Seq<Option<Vec<Note>>>,
        bpm_milli: u32,
        sample_rate: u32,
    ) -> Seq<Seq<ScheduledEvent>> {
        Seq::new(
            reports.len(),
            |t: int|
                match reports[t] {
                    Some(transition) => refusal(
                        transition,
                        t as usize,
                        clock,
                        self.plan(
                            t as usize,
                            clock,
                            produced_for(generated, t as usize),
                            bpm_milli,
                            sample_rate,
                        ),
                    ),
                    None => Seq::empty(),
                },
        )
    }

    /// Starts every track that has both a graph and a first node: the events
    /// of the pattern of its first node, which starts at sample 0, are sent
    /// into the queue, track by track. Sending a pattern stops at the first
    /// event that the queue does not take. `generated` holds, for each
    /// track, what the script of its first pattern produced, if that is a
    /// generated pattern. Returns the state of the worker and, for each
    /// track, how its first pattern went into the queue. A track whose graph
    /// does not have its first node stays silent.
    pub fn start(
        graphs: Vec<StateGraph>,
        initial_nodes: Vec<String>,
        bpm_milli: u32,
        sample_rate: u32,
        producer: &mut EventProducer,
        generated: &Vec<Option<Vec<Note>>>,
    ) -> (started: (TimingState, Vec<Entry>))
        ensures
            started.0.graphs == graphs,
            started.0.current_nodes == initial_nodes,
            started.0.sequence_end_samples@.len() == started_tracks(graphs@, initial_nodes@),
            started.1@.len() == started_tracks(graphs@, initial_nodes@),
            forall|t: int|
                0 <= t < started_tracks(graphs@, initial_nodes@) ==> #[trigger] track_started(
                    graphs@,
                    initial_nodes@,
                    generated@,
                    t,
                    started.0.sequence_end_samples@[t],
                    started.1@[t],
                    bpm_milli,
                    sample_rate,
                ),
            sent(*final(producer)) == sent(*old(producer)) + joined(
                start_sends(
                    graphs@,
                    initial_nodes@,
                    started.1@,
                    generated@,
                    bpm_milli,
                    sample_rate,
                ),
            ),
            refused(*final(producer)) == refused(*old(producer)) + joined(
                start_refusals(
                    graphs@,
                    initial_nodes@,
                    started.1@,
                    generated@,
                    bpm_milli,
                    sample_rate,
                ),
            ),
    {
        let ghost queue = sent(*producer);
        let ghost declined = refused(*producer);
        let count = if graphs.len() <= initial_nodes.len() {
            graphs.len()
        } else {
            initial_nodes.len()
        };
        let mut ends: Vec<u64> = Vec::new();
        let mut reports: Vec<Entry> = Vec::new();
        let mut track: usize = 0;
        proof {
            assert(queue + Seq::<ScheduledEvent>::empty() =~= queue);
            assert(declined + Seq::<ScheduledEvent>::empty() =~= declined);
        }
        while track < count
            invariant
                0 <= track <= count,
                count == started_tracks(graphs@, initial_nodes@),
                ends@.len() == track,
                reports@.len() == track,
                forall|t: int|
                    0 <= t < track ==> #[trigger] track_started(
                        graphs@,
                        initial_nodes@,
                        generated@,
                        t,
                        ends@[t],
                        reports@[t],
                        bpm_milli,
                        sample_rate,
                    ),
                sent(*producer) == queue + joined(
                    start_sends(
                        graphs@,
                        initial_nodes@,
                        reports@,
                        generated@,
                        bpm_milli,
                        sample_rate,
                    ),
                ),
                refused(*producer) == declined + joined(
                    start_refusals(
                        graphs@,
                        initial_nodes@,
                        reports@,
                        generated@,
                        bpm_milli,
                        sample_rate,
                    ),
                ),
            decreases count - track,
        {
            let ghost earlier = reports@;
            let ghost sends = start_sends(
                graphs@,
                initial_nodes@,
                earlier,
                generated@,
                bpm_milli,
                sample_rate,
            );
            let ghost refusals = start_refusals(
                graphs@,
                initial_nodes@,
                earlier,
                generated@,
                bpm_milli,
                sample_rate,
            );
            let notes = if track < generated.len() {
                generated[track].as_ref()
            } else {
                None
            };
            let entered = enter_node(
                &graphs[track],
                initial_nodes[track].as_str(),
                track,
                0,
                bpm_milli,
                sample_rate,
                producer,
                notes,
            );
            ends.push(entered.0);
            reports.push(entered.1);
            proof {
                let plan = first_plan(
                    graphs@,
                    initial_nodes@,
                    generated@,
                    track,
                    bpm_milli,
                    sample_rate,
                );
                let here = plan.take(entered.1.delivered as int);
                let away = turned_away(plan, entered.1.delivered as int);
                assert(start_sends(
                    graphs@,
                    initial_nodes@,
                    reports@,
                    generated@,
                    bpm_milli,
                    sample_rate,
                ) =~= sends.push(here));
                assert(start_refusals(
                    graphs@,
                    initial_nodes@,
                    reports@,
                    generated@,
                    bpm_milli,
                    sample_rate,
                ) =~= refusals.push(away));
                lemma_joined_push(sends, here);
                lemma_joined_push(refusals, away);
                assert(sent(*producer) =~= queue + (joined(sends) + here));
                assert(refused(*producer) =~= declined + (joined(refusals) + away));
            }
            track += 1;
        }
        (TimingState { graphs, current_nodes: initial_nodes, sequence_end_samples: ends }, reports)
    }

    /// Polls every track once at the sample `clock`: each track whose
    /// pattern has ended by then is moved on as by `advance_track`, track by
    /// track. `generated` holds, for each track, what the script of the
    /// pattern it enters produced, if that is a generated pattern. Returns,
    /// for each graph, what was done for its track.
    pub fn advance(
        &mut self,
        clock: u64,
        bpm_milli: u32,
        sample_rate: u32,
        producer: &mut EventProducer,
        generated: &Vec<Option<Vec<Note>>>,
    ) -> (reports: Vec<Option<Transition>>)
        ensures
            reports@.len() == old(self).graphs@.len(),
            final(self).graphs == old(self).graphs,
            final(self).current_nodes@.len() == old(self).current_nodes@.len(),
            final(self).sequence_end_samples@.len() == old(self).sequence_end_samples@.len(),
            forall|t: int|
                0 <= t < reports@.len() ==> old(self).polled(
                    *final(self),
                    t as usize,
                    #[trigger] reports@[t],
                    clock,
                    generated@,
                    bpm_milli,
                    sample_rate,
                ),
            forall|k: int|
                old(self).graphs@.len() <= k < old(self).current_nodes@.len() ==> final(
                    self
                ).current_nodes@[k] == old(self).current_nodes@[k],
            forall|k: int|
                old(self).graphs@.len() <= k < old(self).sequence_end_samples@.len() ==> final(
                    self
                ).sequence_end_samples@[k] == old(self).sequence_end_samples@[k],
            sent(*final(producer)) == sent(*old(producer)) + joined(
                old(self).poll_sends(reports@, clock, generated@, bpm_milli, sample_rate),
            ),
            refused(*final(producer)) == refused(*old(producer)) + joined(
                old(self).poll_refusals(reports@, clock, generated@, bpm_milli, sample_rate),
            ),
    {
        let ghost before = *self;
        let ghost queue = sent(*producer);
        let ghost declined = refused(*producer);
        let count = self.graphs.len();
        let mut reports: Vec<Option<Transition>> = Vec::new();
        let mut track: usize = 0;
        proof {
            assert(queue + Seq::<ScheduledEvent>::empty() =~= queue);
            assert(declined + Seq::<ScheduledEvent>::empty() =~= declined);
        }
        while track < count
            invariant
                0 <= track <= count,
                count == before.graphs@.len(),
                reports@.len() == track,
                self.graphs == before.graphs,
                self.current_nodes@.len() == before.current_nodes@.len(),
                self.sequence_end_samples@.len() == before.sequence_end_samples@.len(),
                forall|t: int|
                    0 <= t < track ==> before.polled(
                        *self,
                        t as usize,
                        #[trigger] reports@[t],
                        clock,
                        generated@,
                        bpm_milli,
                        sample_rate,
                    ),
                forall|k: int|
                    track <= k < before.current_nodes@.len() ==> self.current_nodes@[k]
                        == before.current_nodes@[k],
                forall|k: int|
                    track <= k < before.sequence_end_samples@.len()
                        ==> self.sequence_end_samples@[k] == before.sequence_end_samples@[k],
                sent(*producer) == queue + joined(
                    before.poll_sends(reports@, clock, generated@, bpm_milli, sample_rate),
                ),
                refused(*producer) == declined + joined(
                    before.poll_refusals(reports@, clock, generated@, bpm_milli, sample_rate),
                ),
            decreases count - track,
        {
            let ghost earlier = reports@;
            let ghost here = *self;
            let ghost sends = before.poll_sends(earlier, clock, generated@, bpm_milli, sample_rate);
            let ghost refusals = before.poll_refusals(
                earlier,
                clock,
                generated@,
                bpm_milli,
                sample_rate,
            );
            let notes = if track < generated.len() {
                generated[track].as_ref()
            } else {
                None
            };
            let report = self.advance_track(track, clock, bpm_milli, sample_rate, producer, notes);
            reports.push(report);
            proof {
                let plan = before.plan(
                    track,
                    clock,
                    produced_for(generated@, track),
                    bpm_milli,
                    sample_rate,
                );
                let sends_here: Seq<ScheduledEvent> = match report {
                    Some(transition) => emission(transition, track, clock, plan),
                    None => Seq::empty(),
                };
                let away: Seq<ScheduledEvent> = match report {
                    Some(transition) => refusal(transition, track, clock, plan),
                    None => Seq::empty(),
                };
                assert(here.has_track(track) ==> here.upcoming_id(track) == before.upcoming_id(
                    track,
                ));
                assert(before.poll_sends(reports@, clock, generated@, bpm_milli, sample_rate)
                    =~= sends.push(sends_here));
                assert(before.poll_refusals(reports@, clock, generated@, bpm_milli, sample_rate)
                    =~= refusals.push(away));
                lemma_joined_push(sends, sends_here);
                lemma_joined_push(refusals, away);
                assert(sent(*producer) =~= queue + (joined(sends) + sends_here));
                assert(refused(*producer) =~= declined + (joined(refusals) + away));
                assert forall|t: int| 0 <= t < track + 1 implies before.polled(
                    *self,
                    t as usize,
                    #[trigger] reports@[t],
                    clock,
                    generated@,
                    bpm_milli,
                    sample_rate,
                ) by {
                    if t < track {
                        assert(reports@[t] == earlier[t]);
                        assert(before.polled(
                            here,
                            t as usize,
                            earlier[t],
                            clock,
                            generated@,
                            bpm_milli,
                            sample_rate,
                        ));
                    }
                }
            }
            track += 1;
        }
        reports
    }
}

} // verus!
