//! Note patterns and their lengths.
//!
//! Musical time is counted in ticks, `TICKS_PER_BEAT` to the beat, and tempo
//! in thousandths of a beat per minute.

use crate::sorting::{lemma_stable_sorted, ordered, sort_by_key, stable_sorted, Keyed};
use vstd::prelude::*;

verus! {

/// The number of ticks in one beat (one quarter note).
pub const TICKS_PER_BEAT: u64 = 960;

/// One note of a pattern.
#[derive(Debug, Clone, Copy, PartialEq, Eq)]
pub struct Note {
    pub pitch: u8,
    pub velocity: u8,
    /// Where the note starts, in ticks from the start of the pattern.
    pub start_tick: u64,
    /// How long the note lasts, in ticks.
    pub duration_ticks: u64,
}

impl Note {
    /// The tick at which the note ends. A note that would end past the last
    /// tick there is ends at the last tick.
    pub open spec fn end(self) -> int {
        if self.start_tick + self.duration_ticks > u64::MAX {
            u64::MAX as int
        } else {
            self.start_tick + self.duration_ticks
        }
    }

    /// Whether the note sounds at `tick`, its first and last tick included.
    pub open spec fn sounds_at(self, tick: int) -> bool {
        self.start_tick <= tick <= self.end()
    }

    /// This note stretched to cover `other` as well, with the louder of the
    /// two velocities.
    pub open spec fn absorbed(self, other: Note) -> Note {
        let end = if self.end() >= other.end() {
            self.end()
        } else {
            other.end()
        };
        Note {
            pitch: self.pitch,
            velocity: if self.velocity >= other.velocity {
                self.velocity
            } else {
                other.velocity
            },
            start_tick: self.start_tick,
            duration_ticks: (end - self.start_tick) as u64,
        }
    }

    /// Whether this note has the pitch of `other`, sounds wherever `other`
    /// sounds and is at least as loud.
    pub open spec fn covers(self, other: Note) -> bool {
        &&& self.pitch == other.pitch
        &&& self.start_tick <= other.start_tick
        &&& other.end() <= self.end()
        &&& self.velocity >= other.velocity
    }

    /// Returns the tick at which the note ends.
    pub fn end_tick(&self) -> (e: u64)
        ensures
            e == self.end(),
    {
        self.start_tick.saturating_add(self.duration_ticks)
    }

    /// Stretches this note to cover `other` as well.
    pub fn absorb(&self, other: &Note) -> (merged: Note)
        ensures
            merged == self.absorbed(*other),
    {
        let own_end = self.end_tick();
        let other_end = other.end_tick();
        let end = if own_end >= other_end {
            own_end
        } else {
            other_end
        };
        Note {
            pitch: self.pitch,
            velocity: if self.velocity >= other.velocity {
                self.velocity
            } else {
                other.velocity
            },
            start_tick: self.start_tick,
            duration_ticks: end - self.start_tick,
        }
    }
}

impl Keyed for Note {
    open spec fn key(&self) -> u64 {
        self.start_tick
    }

    fn sort_key(&self) -> (k: u64) {
        self.start_tick
    }
}

/// The notes of `s` that have pitch `pitch`, in the order they have in `s`.
pub open spec fn of_pitch(s: Seq<Note>, pitch: u8) -> Seq<Note>
    decreases s.len(),
{
    if s.len() == 0 {
        s
    } else if s.last().pitch == pitch {
        of_pitch(s.drop_last(), pitch).push(s.last())
    } else {
        of_pitch(s.drop_last(), pitch)
    }
}

/// The notes `cur, rest[0], rest[1], ..` with every note that starts no later
/// than the end of the one before it absorbed into that one.
pub open spec fn merge_run(cur: Note, rest: Seq<Note>) -> Seq<Note>
    decreases rest.len(),
{
    if rest.len() == 0 {
        seq![cur]
    } else if rest[0].start_tick <= cur.end() {
        merge_run(cur.absorbed(rest[0]), rest.drop_first())
    } else {
        seq![cur] + merge_run(rest[0], rest.drop_first())
    }
}

/// A run of notes that is ordered by start, with overlapping and touching
/// notes merged.
pub open spec fn merged(s: Seq<Note>) -> Seq<Note> {
    if s.len() == 0 {
        s
    } else {
        merge_run(s[0], s.drop_first())
    }
}

/// The merged notes of all pitches below `bound`, by pitch and then by start.
pub open spec fn normalized_upto(notes: Seq<Note>, bound: nat) -> Seq<Note>
    decreases bound,
{
    if bound == 0 {
        Seq::empty()
    } else {
        normalized_upto(notes, (bound - 1) as nat) + merged(
            stable_sorted(of_pitch(notes, (bound - 1) as u8)),
        )
    }
}

/// `notes` with the notes of each pitch that overlap or touch merged into
/// one: it starts where the first starts, ends where the last ends and has
/// the highest of their velocities. The result is ordered by pitch, and for
/// one pitch by start.
pub open spec fn normalized(notes: Seq<Note>) -> Seq<Note> {
    normalized_upto(notes, 256)
}

/// Whether no two notes of `s` with the same pitch overlap or touch.
pub open spec fn separated(s: Seq<Note>) -> bool {
    forall|i: int, j: int|
        0 <= i < s.len() && 0 <= j < s.len() && i != j && s[i].pitch == s[j].pitch ==> s[i].end()
            < s[j].start_tick || s[j].end() < s[i].start_tick
}

/// Whether a note of `s` covers `note`.
pub open spec fn covered_by(s: Seq<Note>, note: Note) -> bool {
    exists|k: int| 0 <= k < s.len() && (#[trigger] s[k]).covers(note)
}

proof fn lemma_of_pitch_keeps(s: Seq<Note>, i: int)
    requires
        0 <= i < s.len(),
    ensures
        of_pitch(s, s[i].pitch).contains(s[i]),
    decreases s.len(),
{
    let pitch = s[i].pitch;
    let front = s.drop_last();
    if i == s.len() - 1 {
        let group = of_pitch(front, pitch).push(s.last());
        assert(group[group.len() - 1] == s[i]);
    } else {
        lemma_of_pitch_keeps(front, i);
        let inner = of_pitch(front, pitch);
        let m = choose|m: int| 0 <= m < inner.len() && inner[m] == front[i];
        if s.last().pitch == pitch {
            assert(inner.push(s.last())[m] == s[i]);
        }
    }
}

proof fn lemma_merge_run_covers(cur: Note, rest: Seq<Note>, pitch: u8)
    requires
        ordered(rest),
        cur.pitch == pitch,
        forall|i: int| 0 <= i < rest.len() ==> (#[trigger] rest[i]).pitch == pitch,
        rest.len() > 0 ==> cur.start_tick <= rest[0].start_tick,
    ensures
        covered_by(merge_run(cur, rest), cur),
        forall|i: int| 0 <= i < rest.len() ==> covered_by(merge_run(cur, rest), #[trigger] rest[i]),
    decreases rest.len(),
{
    let r = merge_run(cur, rest);
    if rest.len() == 0 {
        assert(r[0].covers(cur));
    } else {
        let tail = rest.drop_first();
        assert(ordered(tail)) by {
            assert forall|i: int, j: int| 0 <= i <= j < tail.len() implies tail[i].key() <= tail[j].key() by {
                assert(tail[i] == rest[i + 1] && tail[j] == rest[j + 1]);
            }
        }
        assert forall|i: int| 0 <= i < tail.len() implies (#[trigger] tail[i]).pitch == pitch by {
            assert(tail[i] == rest[i + 1]);
        }
        if tail.len() > 0 {
            assert(tail[0] == rest[1]);
            assert(rest[0].key() <= rest[1].key());
        }
        if rest[0].start_tick <= cur.end() {
            let wider = cur.absorbed(rest[0]);
            lemma_merge_run(wider, tail, pitch);
            lemma_merge_run_covers(wider, tail, pitch);
            assert(wider.covers(cur));
            assert(wider.covers(rest[0]));
            let k = choose|k: int| 0 <= k < r.len() && (#[trigger] r[k]).covers(wider);
            assert(r[k].covers(cur));
            assert(r[k].covers(rest[0]));
            assert forall|i: int| 0 <= i < rest.len() implies covered_by(r, #[trigger] rest[i]) by {
                if i > 0 {
                    assert(rest[i] == tail[i - 1]);
                }
            }
        } else {
            let inner = merge_run(rest[0], tail);
            lemma_merge_run_covers(rest[0], tail, pitch);
            assert(r =~= seq![cur] + inner);
            assert(r[0].covers(cur));
            assert forall|i: int| 0 <= i < rest.len() implies covered_by(r, #[trigger] rest[i]) by {
                let note = rest[i];
                if i > 0 {
                    assert(note == tail[i - 1]);
                }
                assert(covered_by(inner, note));
                let k = choose|k: int| 0 <= k < inner.len() && (#[trigger] inner[k]).covers(note);
                assert(r[k + 1] == inner[k]);
            }
        }
    }
}

proof fn lemma_upto_keeps(notes: Seq<Note>, bound: nat, pitch: u8, k: int)
    requires
        pitch < bound,
        0 <= k < merged(stable_sorted(of_pitch(notes, pitch))).len(),
    ensures
        normalized_upto(notes, bound).contains(merged(stable_sorted(of_pitch(notes, pitch)))[k]),
    decreases bound,
{
    let before = normalized_upto(notes, (bound - 1) as nat);
    let group = merged(stable_sorted(of_pitch(notes, (bound - 1) as u8)));
    let all = normalized_upto(notes, bound);
    assert(all =~= before + group);
    if pitch == bound - 1 {
        assert(all[before.len() + k] == group[k]);
    } else {
        lemma_upto_keeps(notes, (bound - 1) as nat, pitch, k);
        let wanted = merged(stable_sorted(of_pitch(notes, pitch)))[k];
        let m = choose|m: int| 0 <= m < before.len() && before[m] == wanted;
        assert(all[m] == wanted);
    }
}

/// Normalization loses no note: each note lies within a note of the result
/// that has its pitch and is at least as loud.
pub proof fn lemma_normalized_covers(notes: Seq<Note>, i: int)
    requires
        0 <= i < notes.len(),
    ensures
        covered_by(normalized(notes), notes[i]),
{
    broadcast use vstd::seq_lib::group_to_multiset_ensures;

    let note = notes[i];
    let pitch = note.pitch;
    let group = of_pitch(notes, pitch);
    let run = stable_sorted(group);
    let out = merged(run);
    lemma_of_pitch_keeps(notes, i);
    lemma_sorted_group(notes, pitch);
    lemma_stable_sorted(group);
    assert(group.to_multiset().count(note) > 0);
    assert(run.to_multiset().count(note) > 0);
    assert(run.contains(note));
    let m = choose|m: int| 0 <= m < run.len() && run[m] == note;
    let tail = run.drop_first();
    assert(ordered(tail)) by {
        assert forall|a: int, b: int| 0 <= a <= b < tail.len() implies tail[a].key() <= tail[b].key() by {
            assert(tail[a] == run[a + 1] && tail[b] == run[b + 1]);
        }
    }
    assert forall|a: int| 0 <= a < tail.len() implies (#[trigger] tail[a]).pitch == pitch by {
        assert(tail[a] == run[a + 1]);
    }
    if tail.len() > 0 {
        assert(tail[0] == run[1]);
        assert(run[0].key() <= run[1].key());
    }
    lemma_merge_run_covers(run[0], tail, pitch);
    if m > 0 {
        assert(note == tail[m - 1]);
    }
    assert(covered_by(out, note));
    let k = choose|k: int| 0 <= k < out.len() && (#[trigger] out[k]).covers(note);
    lemma_upto_keeps(notes, 256, pitch, k);
    let all = normalized(notes);
    let j = choose|j: int| 0 <= j < all.len() && all[j] == out[k];
    assert(all[j].covers(note));
}

/// Whether a note of `s` with pitch `pitch` covers the stretch from `tick`
/// to the tick after it.
pub open spec fn bridged(s: Seq<Note>, pitch: u8, tick: int) -> bool {
    exists|k: int|
        0 <= k < s.len() && (#[trigger] s[k]).pitch == pitch && s[k].start_tick <= tick && tick + 1
            <= s[k].end()
}

/// Whether `note` is made of notes of `s` and of nothing else: notes of `s`
/// with its pitch start where it starts, end where it ends and are as loud
/// as it is, and between its start and its end such notes follow one
/// another without a gap.
pub open spec fn made_of(note: Note, s: Seq<Note>) -> bool {
    &&& exists|a: int|
        0 <= a < s.len() && (#[trigger] s[a]).pitch == note.pitch && s[a].start_tick
            == note.start_tick
    &&& exists|b: int|
        0 <= b < s.len() && (#[trigger] s[b]).pitch == note.pitch && s[b].end() == note.end()
    &&& exists|c: int|
        0 <= c < s.len() && (#[trigger] s[c]).pitch == note.pitch && s[c].velocity
            == note.velocity
    &&& forall|tick: int|
        note.start_tick <= tick < note.end() ==> #[trigger] bridged(s, note.pitch, tick)
}

proof fn lemma_made_of_itself(s: Seq<Note>, i: int)
    requires
        0 <= i < s.len(),
    ensures
        made_of(s[i], s),
{
    let note = s[i];
    assert(s[i].pitch == note.pitch && s[i].start_tick == note.start_tick);
    assert(s[i].pitch == note.pitch && s[i].end() == note.end());
    assert(s[i].pitch == note.pitch && s[i].velocity == note.velocity);
    assert forall|tick: int| note.start_tick <= tick < note.end() implies #[trigger] bridged(
        s,
        note.pitch,
        tick,
    ) by {
        assert(s[i].pitch == note.pitch && s[i].start_tick <= tick && tick + 1 <= s[i].end());
    }
}

proof fn lemma_absorbed_made_of(a: Note, b: Note, s: Seq<Note>)
    requires
        made_of(a, s),
        made_of(b, s),
        a.pitch == b.pitch,
        a.start_tick <= b.start_tick <= a.end(),
    ensures
        made_of(a.absorbed(b), s),
{
    let wide = a.absorbed(b);
    assert(wide.end() == if a.end() >= b.end() {
        a.end()
    } else {
        b.end()
    });
    let start = choose|k: int|
        0 <= k < s.len() && (#[trigger] s[k]).pitch == a.pitch && s[k].start_tick == a.start_tick;
    assert(s[start].pitch == wide.pitch && s[start].start_tick == wide.start_tick);
    if a.end() >= b.end() {
        let end = choose|k: int|
            0 <= k < s.len() && (#[trigger] s[k]).pitch == a.pitch && s[k].end() == a.end();
        assert(s[end].pitch == wide.pitch && s[end].end() == wide.end());
    } else {
        let end = choose|k: int|
            0 <= k < s.len() && (#[trigger] s[k]).pitch == b.pitch && s[k].end() == b.end();
        assert(s[end].pitch == wide.pitch && s[end].end() == wide.end());
    }
    if a.velocity >= b.velocity {
        let loud = choose|k: int|
            0 <= k < s.len() && (#[trigger] s[k]).pitch == a.pitch && s[k].velocity == a.velocity;
        assert(s[loud].pitch == wide.pitch && s[loud].velocity == wide.velocity);
    } else {
        let loud = choose|k: int|
            0 <= k < s.len() && (#[trigger] s[k]).pitch == b.pitch && s[k].velocity == b.velocity;
        assert(s[loud].pitch == wide.pitch && s[loud].velocity == wide.velocity);
    }
    assert forall|tick: int| wide.start_tick <= tick < wide.end() implies #[trigger] bridged(
        s,
        wide.pitch,
        tick,
    ) by {
        if tick < a.end() {
            assert(bridged(s, a.pitch, tick));
        } else {
            assert(bridged(s, b.pitch, tick));
        }
    }
}

proof fn lemma_merge_run_made_of(cur: Note, rest: Seq<Note>, pitch: u8, s: Seq<Note>)
    requires
        ordered(rest),
        cur.pitch == pitch,
        forall|i: int| 0 <= i < rest.len() ==> (#[trigger] rest[i]).pitch == pitch,
        rest.len() > 0 ==> cur.start_tick <= rest[0].start_tick,
        made_of(cur, s),
        forall|i: int| 0 <= i < rest.len() ==> made_of(#[trigger] rest[i], s),
    ensures
        forall|k: int|
            0 <= k < merge_run(cur, rest).len() ==> made_of(#[trigger] merge_run(cur, rest)[k], s),
    decreases rest.len(),
{
    let r = merge_run(cur, rest);
    if rest.len() == 0 {
        assert(r[0] == cur);
    } else {
        let tail = rest.drop_first();
        assert(ordered(tail)) by {
            assert forall|i: int, j: int| 0 <= i <= j < tail.len() implies tail[i].key() <= tail[j].key() by {
                assert(tail[i] == rest[i + 1] && tail[j] == rest[j + 1]);
            }
        }
        assert forall|i: int| 0 <= i < tail.len() implies (#[trigger] tail[i]).pitch == pitch
            && made_of(tail[i], s) by {
            assert(tail[i] == rest[i + 1]);
        }
        if tail.len() > 0 {
            assert(tail[0] == rest[1]);
            assert(rest[0].key() <= rest[1].key());
        }
        assert(made_of(rest[0], s));
        if rest[0].start_tick <= cur.end() {
            lemma_absorbed_made_of(cur, rest[0], s);
            lemma_merge_run_made_of(cur.absorbed(rest[0]), tail, pitch, s);
            assert(r == merge_run(cur.absorbed(rest[0]), tail));
        } else {
            let inner = merge_run(rest[0], tail);
            lemma_merge_run_made_of(rest[0], tail, pitch, s);
            assert(r =~= seq![cur] + inner);
            assert forall|k: int| 0 <= k < r.len() implies made_of(#[trigger] r[k], s) by {
                if k > 0 {
                    assert(r[k] == inner[k - 1]);
                }
            }
        }
    }
}

proof fn lemma_of_pitch_from(s: Seq<Note>, pitch: u8)
    ensures
        forall|m: int|
            0 <= m < of_pitch(s, pitch).len() ==> s.contains(#[trigger] of_pitch(s, pitch)[m]),
    decreases s.len(),
{
    if s.len() > 0 {
        let front = s.drop_last();
        lemma_of_pitch_from(front, pitch);
        let inner = of_pitch(front, pitch);
        let group = of_pitch(s, pitch);
        assert forall|m: int| 0 <= m < group.len() implies s.contains(#[trigger] group[m]) by {
            if m < inner.len() {
                assert(group[m] == inner[m]);
                let at = choose|at: int| 0 <= at < front.len() && front[at] == inner[m];
                assert(s[at] == group[m]);
            } else {
                assert(s[s.len() - 1] == group[m]);
            }
        }
    }
}

proof fn lemma_group_made_of(notes: Seq<Note>, pitch: u8)
    ensures
        forall|k: int|
            0 <= k < merged(stable_sorted(of_pitch(notes, pitch))).len() ==> made_of(
                #[trigger] merged(stable_sorted(of_pitch(notes, pitch)))[k],
                notes,
            ),
{
    broadcast use vstd::seq_lib::group_to_multiset_ensures;

    let group = of_pitch(notes, pitch);
    let run = stable_sorted(group);
    lemma_of_pitch_from(notes, pitch);
    lemma_sorted_group(notes, pitch);
    lemma_stable_sorted(group);
    assert forall|i: int| 0 <= i < run.len() implies made_of(#[trigger] run[i], notes) by {
        assert(run.contains(run[i]));
        assert(run.to_multiset().count(run[i]) > 0);
        assert(group.to_multiset().count(run[i]) > 0);
        assert(group.contains(run[i]));
        let m = choose|m: int| 0 <= m < group.len() && group[m] == run[i];
        assert(notes.contains(group[m]));
        let at = choose|at: int| 0 <= at < notes.len() && notes[at] == group[m];
        lemma_made_of_itself(notes, at);
    }
    if run.len() > 0 {
        let tail = run.drop_first();
        assert(ordered(tail)) by {
            assert forall|a: int, b: int| 0 <= a <= b < tail.len() implies tail[a].key() <= tail[b].key() by {
                assert(tail[a] == run[a + 1] && tail[b] == run[b + 1]);
            }
        }
        assert forall|a: int| 0 <= a < tail.len() implies (#[trigger] tail[a]).pitch == pitch
            && made_of(tail[a], notes) by {
            assert(tail[a] == run[a + 1]);
        }
        if tail.len() > 0 {
            assert(tail[0] == run[1]);
            assert(run[0].key() <= run[1].key());
        }
        lemma_merge_run_made_of(run[0], tail, pitch, notes);
    }
}

proof fn lemma_upto_made_of(notes: Seq<Note>, bound: nat)
    ensures
        forall|j: int|
            0 <= j < normalized_upto(notes, bound).len() ==> made_of(
                #[trigger] normalized_upto(notes, bound)[j],
                notes,
            ),
    decreases bound,
{
    if bound > 0 {
        let before = normalized_upto(notes, (bound - 1) as nat);
        let group = merged(stable_sorted(of_pitch(notes, (bound - 1) as u8)));
        let all = normalized_upto(notes, bound);
        lemma_upto_made_of(notes, (bound - 1) as nat);
        lemma_group_made_of(notes, (bound - 1) as u8);
        assert(all =~= before + group);
        assert forall|j: int| 0 <= j < all.len() implies made_of(#[trigger] all[j], notes) by {
            if j < before.len() {
                assert(all[j] == before[j]);
            } else {
                assert(all[j] == group[j - before.len()]);
            }
        }
    }
}

/// Normalization invents nothing: each note of the result is made of notes
/// that were given.
pub proof fn lemma_normalized_made_of(notes: Seq<Note>, j: int)
    requires
        0 <= j < normalized(notes).len(),
    ensures
        made_of(normalized(notes)[j], notes),
{
    lemma_upto_made_of(notes, 256);
}

proof fn lemma_of_pitch(s: Seq<Note>, pitch: u8)
    ensures
        forall|i: int| 0 <= i < of_pitch(s, pitch).len() ==> (#[trigger] of_pitch(s, pitch)[i]).pitch == pitch,
        of_pitch(s, pitch).len() <= s.len(),
    decreases s.len(),
{
    if s.len() > 0 {
        lemma_of_pitch(s.drop_last(), pitch);
    }
}

proof fn lemma_merge_run(cur: Note, rest: Seq<Note>, pitch: u8)
    requires
        ordered(rest),
        cur.pitch == pitch,
        forall|i: int| 0 <= i < rest.len() ==> (#[trigger] rest[i]).pitch == pitch,
        rest.len() > 0 ==> cur.start_tick <= rest[0].start_tick,
    ensures
        merge_run(cur, rest).len() >= 1,
        merge_run(cur, rest).len() <= rest.len() + 1,
        forall|k: int|
            0 <= k < merge_run(cur, rest).len() ==> (#[trigger] merge_run(cur, rest)[k]).pitch == pitch
                && merge_run(cur, rest)[k].start_tick >= cur.start_tick,
        forall|i: int, j: int|
            0 <= i < j < merge_run(cur, rest).len() ==> (#[trigger] merge_run(cur, rest)[i]).end() < (
            #[trigger] merge_run(cur, rest)[j]).start_tick,
    decreases rest.len(),
{
    if rest.len() == 0 {
    } else {
        let tail = rest.drop_first();
        assert(ordered(tail)) by {
            assert forall|i: int, j: int| 0 <= i <= j < tail.len() implies tail[i].key() <= tail[j].key() by {
                assert(tail[i] == rest[i + 1] && tail[j] == rest[j + 1]);
            }
        }
        assert forall|i: int| 0 <= i < tail.len() implies (#[trigger] tail[i]).pitch == pitch by {
            assert(tail[i] == rest[i + 1]);
        }
        if tail.len() > 0 {
            assert(tail[0] == rest[1]);
            assert(rest[0].key() <= rest[1].key());
        }
        if rest[0].start_tick <= cur.end() {
            lemma_merge_run(cur.absorbed(rest[0]), tail, pitch);
        } else {
            lemma_merge_run(rest[0], tail, pitch);
            let inner = merge_run(rest[0], tail);
            let r = merge_run(cur, rest);
            assert(r =~= seq![cur] + inner);
            assert forall|k: int| 0 <= k < r.len() implies (#[trigger] r[k]).pitch == pitch
                && r[k].start_tick >= cur.start_tick by {
                if k > 0 {
                    assert(r[k] == inner[k - 1]);
                }
            }
            assert forall|i: int, j: int| 0 <= i < j < r.len() implies (#[trigger] r[i]).end() < (
            #[trigger] r[j]).start_tick by {
                assert(r[j] == inner[j - 1]);
                if i > 0 {
                    assert(r[i] == inner[i - 1]);
                }
            }
        }
    }
}

proof fn lemma_merged(s: Seq<Note>, pitch: u8)
    requires
        ordered(s),
        forall|i: int| 0 <= i < s.len() ==> (#[trigger] s[i]).pitch == pitch,
    ensures
        merged(s).len() <= s.len(),
        forall|k: int| 0 <= k < merged(s).len() ==> (#[trigger] merged(s)[k]).pitch == pitch,
        forall|i: int, j: int|
            0 <= i < j < merged(s).len() ==> (#[trigger] merged(s)[i]).end() < (#[trigger] merged(
                s,
            )[j]).start_tick,
{
    if s.len() > 0 {
        let tail = s.drop_first();
        assert(ordered(tail)) by {
            assert forall|i: int, j: int| 0 <= i <= j < tail.len() implies tail[i].key() <= tail[j].key() by {
                assert(tail[i] == s[i + 1] && tail[j] == s[j + 1]);
            }
        }
        assert forall|i: int| 0 <= i < tail.len() implies (#[trigger] tail[i]).pitch == pitch by {
            assert(tail[i] == s[i + 1]);
        }
        if tail.len() > 0 {
            assert(tail[0] == s[1]);
            assert(s[0].key() <= s[1].key());
        }
        lemma_merge_run(s[0], tail, pitch);
    }
}

/// The sorted notes of one pitch all have that pitch.
proof fn lemma_sorted_group(notes: Seq<Note>, pitch: u8)
    ensures
        ordered(stable_sorted(of_pitch(notes, pitch))),
        stable_sorted(of_pitch(notes, pitch)).len() <= notes.len(),
        forall|i: int|
            0 <= i < stable_sorted(of_pitch(notes, pitch)).len() ==> (#[trigger] stable_sorted(
                of_pitch(notes, pitch),
            )[i]).pitch == pitch,
{
    broadcast use vstd::seq_lib::group_to_multiset_ensures;

    let group = of_pitch(notes, pitch);
    let sorted = stable_sorted(group);
    lemma_of_pitch(notes, pitch);
    lemma_stable_sorted(group);
    assert forall|i: int| 0 <= i < sorted.len() implies (#[trigger] sorted[i]).pitch == pitch by {
        assert(sorted.contains(sorted[i]));
        assert(sorted.to_multiset().count(sorted[i]) > 0);
        assert(group.to_multiset().count(sorted[i]) > 0);
        assert(group.contains(sorted[i]));
        let m = choose|m: int| 0 <= m < group.len() && group[m] == sorted[i];
        assert(group[m].pitch == pitch);
    }
}

/// Whether the notes of each pitch stand in `s` one after the other in time:
/// each ends before the next of its pitch starts.
pub open spec fn in_order(s: Seq<Note>) -> bool {
    forall|i: int, j: int|
        0 <= i < j < s.len() && s[i].pitch == s[j].pitch ==> s[i].end() < s[j].start_tick
}

proof fn lemma_normalized_upto(notes: Seq<Note>, bound: nat)
    requires
        bound <= 256,
    ensures
        separated(normalized_upto(notes, bound)),
        in_order(normalized_upto(notes, bound)),
        normalized_upto(notes, bound).len() <= bound * notes.len(),
        forall|k: int|
            0 <= k < normalized_upto(notes, bound).len() ==> (#[trigger] normalized_upto(
                notes,
                bound,
            )[k]).pitch < bound,
    decreases bound,
{
    if bound > 0 {
        let pitch = (bound - 1) as u8;
        let before = normalized_upto(notes, (bound - 1) as nat);
        let sorted = stable_sorted(of_pitch(notes, pitch));
        let group = merged(sorted);
        let all = normalized_upto(notes, bound);
        lemma_normalized_upto(notes, (bound - 1) as nat);
        lemma_sorted_group(notes, pitch);
        lemma_merged(sorted, pitch);
        assert(all =~= before + group);
        assert((bound - 1) * notes.len() + notes.len() == bound * notes.len()) by (nonlinear_arith);
        assert forall|k: int| 0 <= k < all.len() implies (#[trigger] all[k]).pitch < bound by {
            if k < before.len() {
                assert(all[k] == before[k]);
            } else {
                assert(all[k] == group[k - before.len()]);
            }
        }
        assert forall|i: int, j: int| 0 <= i < j < all.len() && all[i].pitch
            == all[j].pitch implies all[i].end() < all[j].start_tick by {
            if i < before.len() {
                assert(all[i] == before[i]);
            } else {
                assert(all[i] == group[i - before.len()]);
            }
            if j < before.len() {
                assert(all[j] == before[j]);
            } else {
                assert(all[j] == group[j - before.len()]);
            }
        }
        assert forall|i: int, j: int|
            0 <= i < all.len() && 0 <= j < all.len() && i != j && all[i].pitch
                == all[j].pitch implies all[i].end() < all[j].start_tick || all[j].end()
            < all[i].start_tick by {
            if i < before.len() {
                assert(all[i] == before[i]);
            } else {
                assert(all[i] == group[i - before.len()]);
            }
            if j < before.len() {
                assert(all[j] == before[j]);
            } else {
                assert(all[j] == group[j - before.len()]);
            }
        }
    }
}

/// After normalization no two notes of one pitch overlap or touch, and the
/// notes of each pitch stand one after the other in time.
pub proof fn lemma_normalized_separated(notes: Seq<Note>)
    ensures
        separated(normalized(notes)),
        in_order(normalized(notes)),
        normalized(notes).len() <= 256 * notes.len(),
{
    lemma_normalized_upto(notes, 256);
}

/// After normalization at most one note of a pitch sounds at any tick.
pub proof fn lemma_one_note_per_pitch(notes: Seq<Note>, i: int, j: int, tick: int)
    requires
        0 <= i < normalized(notes).len(),
        0 <= j < normalized(notes).len(),
        normalized(notes)[i].pitch == normalized(notes)[j].pitch,
        normalized(notes)[i].sounds_at(tick),
        normalized(notes)[j].sounds_at(tick),
    ensures
        i == j,
{
    lemma_normalized_separated(notes);
}

/// Copies the notes of one pitch out of `notes`.
fn notes_of_pitch(notes: &Vec<Note>, pitch: u8) -> (group: Vec<Note>)
    ensures
        group@ == of_pitch(notes@, pitch),
{
    let mut group: Vec<Note> = Vec::new();
    let mut i: usize = 0;
    while i < notes.len()
        invariant
            0 <= i <= notes.len(),
            group@ == of_pitch(notes@.take(i as int), pitch),
        decreases notes.len() - i,
    {
        proof {
            assert(notes@.take(i + 1).drop_last() =~= notes@.take(i as int));
        }
        if notes[i].pitch == pitch {
            group.push(notes[i]);
        }
        i += 1;
    }
    proof {
        assert(notes@.take(i as int) =~= notes@);
    }
    group
}

/// Appends the merged form of `run`, which is ordered by start, to `out`.
fn merge_into(run: &Vec<Note>, out: &mut Vec<Note>)
    ensures
        final(out)@ == old(out)@ + merged(run@),
{
    if run.len() == 0 {
        proof {
            assert(out@ + merged(run@) =~= out@);
        }
        return ;
    }
    let ghost start = out@;
    let mut cur = run[0];
    let mut i: usize = 1;
    proof {
        assert(run@.skip(1) =~= run@.drop_first());
    }
    while i < run.len()
        invariant
            1 <= i <= run.len(),
            out@ + merge_run(cur, run@.skip(i as int)) == start + merged(run@),
        decreases run.len() - i,
    {
        let next = run[i];
        proof {
            let rest = run@.skip(i as int);
            assert(rest[0] == next);
            assert(rest.drop_first() =~= run@.skip(i + 1));
        }
        if next.start_tick <= cur.end_tick() {
            cur = cur.absorb(&next);
        } else {
            proof {
                let tail = merge_run(next, run@.skip(i + 1));
                assert(out@.push(cur) + tail =~= out@ + (seq![cur] + tail));
            }
            out.push(cur);
            cur = next;
        }
        i += 1;
    }
    proof {
        assert(out@.push(cur) =~= out@ + seq![cur]);
    }
    out.push(cur);
}

/// Merges the notes of each pitch that overlap or touch.
pub fn normalize_notes(notes: &Vec<Note>) -> (out: Vec<Note>)
    ensures
        out@ == normalized(notes@),
        separated(out@),
        forall|i: int| 0 <= i < notes@.len() ==> covered_by(out@, #[trigger] notes@[i]),
        forall|j: int| 0 <= j < out@.len() ==> made_of(#[trigger] out@[j], notes@),
{
    let mut out: Vec<Note> = Vec::new();
    let mut pitch: u16 = 0;
    while pitch < 256
        invariant
            pitch <= 256,
            out@ == normalized_upto(notes@, pitch as nat),
        decreases 256 - pitch,
    {
        let group = notes_of_pitch(notes, pitch as u8);
        let run = sort_by_key(group);
        merge_into(&run, &mut out);
        pitch += 1;
    }
    proof {
        lemma_normalized_separated(notes@);
        assert forall|i: int| 0 <= i < notes@.len() implies covered_by(
            out@,
            #[trigger] notes@[i],
        ) by {
            lemma_normalized_covers(notes@, i);
        }
        lemma_upto_made_of(notes@, 256);
    }
    out
}

/// A pattern given as a literal list of notes.
#[derive(Debug, PartialEq, Eq)]
pub struct StaticPattern {
    pub duration_bars: u32,
    /// Beats per bar, and the note value that counts as one beat.
    pub time_signature: (u32, u32),
    pub notes: Vec<Note>,
}

/// A pattern whose notes a script produces each time the pattern starts.
#[derive(Debug, PartialEq, Eq)]
pub struct GeneratedPattern {
    pub duration_bars: u32,
    /// Beats per bar, and the note value that counts as one beat.
    pub time_signature: (u32, u32),
    /// The source text of the script.
    pub function: String,
}

/// The note pattern of one node.
#[derive(Debug, PartialEq, Eq)]
pub enum Sequence {
    Static(StaticPattern),
    Generated(GeneratedPattern),
}

impl Clone for StaticPattern {
    fn clone(&self) -> (r: Self)
        ensures
            r.duration_bars == self.duration_bars,
            r.time_signature == self.time_signature,
            r.notes@ == self.notes@,
    {
        let notes = self.notes.clone();
        assert(notes@ =~= self.notes@);
        StaticPattern {
            duration_bars: self.duration_bars,
            time_signature: (self.time_signature.0, self.time_signature.1),
            notes,
        }
    }
}

impl Clone for GeneratedPattern {
    fn clone(&self) -> (r: Self)
        ensures
            r == *self,
    {
        GeneratedPattern {
            duration_bars: self.duration_bars,
            time_signature: (self.time_signature.0, self.time_signature.1),
            function: self.function.clone(),
        }
    }
}

impl Clone for Sequence {
    fn clone(&self) -> (r: Self)
        ensures
            r.like(*self),
    {
        match self {
            Sequence::Static(p) => Sequence::Static(p.clone()),
            Sequence::Generated(p) => Sequence::Generated(p.clone()),
        }
    }
}

/// The product of two bounded naturals is bounded by the product of the
/// bounds.
pub proof fn lemma_product_bound(a: int, b: int, a_max: int, b_max: int)
    requires
        0 <= a <= a_max,
        0 <= b <= b_max,
    ensures
        0 <= a * b <= a_max * b_max,
{
    assert(0 <= a * b <= a_max * b_max) by (nonlinear_arith)
        requires
            0 <= a <= a_max,
            0 <= b <= b_max,
    ;
}

/// The length in samples of `bars` bars in the given time signature, at a
/// tempo of `bpm_milli` thousandths of a beat per minute: the bars hold
/// `bars * time_signature.0` beats of `4 / time_signature.1` quarter notes
/// each, and a quarter note lasts `60_000 * sample_rate / bpm_milli` samples.
/// The quotient is rounded down. A pattern without beats has length zero;
/// otherwise a length that has no bound, or none that fits, is `u64::MAX`.
pub open spec fn pattern_samples(
    bars: u32,
    time_signature: (u32, u32),
    bpm_milli: u32,
    sample_rate: u32,
) -> int {
    let scaled = bars * time_signature.0 * 4 * 60_000 * sample_rate;
    let divisor = time_signature.1 * bpm_milli;
    if scaled == 0 {
        0
    } else if divisor == 0 || scaled / divisor > u64::MAX {
        u64::MAX as int
    } else {
        scaled / divisor
    }
}

/// What a script produced, as a sequence of notes.
pub open spec fn produced(generated: Option<&Vec<Note>>) -> Option<Seq<Note>> {
    match generated {
        Some(notes) => Some(notes@),
        None => None,
    }
}

impl Sequence {
    /// Whether two patterns are of the same kind and hold the same values.
    pub open spec fn like(self, other: Sequence) -> bool {
        match (self, other) {
            (Sequence::Static(a), Sequence::Static(b)) => a.duration_bars == b.duration_bars
                && a.time_signature == b.time_signature && a.notes@ == b.notes@,
            (Sequence::Generated(a), Sequence::Generated(b)) => a == b,
            _ => false,
        }
    }

    /// The number of bars of the pattern.
    pub open spec fn bars(self) -> u32 {
        match self {
            Sequence::Static(p) => p.duration_bars,
            Sequence::Generated(p) => p.duration_bars,
        }
    }

    /// The time signature of the pattern.
    pub open spec fn signature(self) -> (u32, u32) {
        match self {
            Sequence::Static(p) => p.time_signature,
            Sequence::Generated(p) => p.time_signature,
        }
    }

    /// The length of the pattern in samples.
    pub open spec fn samples(self, bpm_milli: u32, sample_rate: u32) -> int {
        pattern_samples(self.bars(), self.signature(), bpm_milli, sample_rate)
    }

    /// The notes that the pattern plays. A static pattern plays its own
    /// notes. A generated pattern plays what its script produced, and nothing
    /// when there is no such result. Either way the notes are normalized.
    pub open spec fn notes(self, generated: Option<Seq<Note>>) -> Seq<Note> {
        match self {
            Sequence::Static(p) => normalized(p.notes@),
            Sequence::Generated(_) => match generated {
                Some(notes) => normalized(notes),
                None => Seq::empty(),
            },
        }
    }

    /// Returns the length of the pattern in samples.
    pub fn duration_samples(&self, bpm_milli: u32, sample_rate: u32) -> (samples: u64)
        ensures
            samples == self.samples(bpm_milli, sample_rate),
    {
        let (bars, time_signature) = match self {
            Sequence::Static(p) => (p.duration_bars, p.time_signature),
            Sequence::Generated(p) => (p.duration_bars, p.time_signature),
        };
        proof {
            lemma_product_bound(bars as int, time_signature.0 as int, 0xffff_ffff, 0xffff_ffff);
            lemma_product_bound(240_000, sample_rate as int, 240_000, 0xffff_ffff);
            lemma_product_bound(
                bars * time_signature.0,
                240_000 * sample_rate,
                0xffff_ffffint * 0xffff_ffffint,
                240_000int * 0xffff_ffffint,
            );
            lemma_product_bound(time_signature.1 as int, bpm_milli as int, 0xffff_ffff, 0xffff_ffff);
            assert((bars * time_signature.0) * (240_000 * sample_rate) == bars * time_signature.0
                * 4 * 60_000 * sample_rate) by (nonlinear_arith);
        }
        let beats: u128 = (bars as u128) * (time_signature.0 as u128);
        let per_quarter: u128 = 240_000u128 * (sample_rate as u128);
        let scaled: u128 = beats * per_quarter;
        let divisor: u128 = (time_signature.1 as u128) * (bpm_milli as u128);
        if scaled == 0 {
            0
        } else if divisor == 0 {
            u64::MAX
        } else {
            let quotient: u128 = scaled / divisor;
            if quotient > u64::MAX as u128 {
                u64::MAX
            } else {
                quotient as u64
            }
        }
    }

    /// Returns the notes that the pattern plays. `generated` is what the
    /// script of a generated pattern produced, or `None` when it was not run
    /// or failed.
    pub fn get_notes(&self, generated: Option<&Vec<Note>>) -> (notes: Vec<Note>)
        ensures
            notes@ == self.notes(
                produced(generated),
            ),
            separated(notes@),
    {
        match self {
            Sequence::Static(pattern) => normalize_notes(&pattern.notes),
            Sequence::Generated(_) => match generated {
                Some(produced) => normalize_notes(produced),
                None => Vec::new(),
            },
        }
    }
}

} // verus!
