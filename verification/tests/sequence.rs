use aurio::sorting::{sort_by_key, sort_in_place};
use aurio::timing::sequence::normalize_notes;
use aurio::timing::{GeneratedPattern, Note, Sequence, StaticPattern};

fn note(pitch: u8, velocity: u8, start_tick: u64, duration_ticks: u64) -> Note {
    Note { pitch, velocity, start_tick, duration_ticks }
}

fn pattern(bars: u32, signature: (u32, u32)) -> Sequence {
    Sequence::Static(StaticPattern { duration_bars: bars, time_signature: signature, notes: vec![] })
}

#[test]
fn overlapping_notes_are_merged() {
    let merged = normalize_notes(&vec![note(60, 80, 0, 1920), note(60, 120, 960, 1920)]);
    assert_eq!(merged, vec![note(60, 120, 0, 2880)]);
}

#[test]
fn touching_notes_are_merged() {
    let merged = normalize_notes(&vec![note(60, 90, 0, 960), note(60, 70, 960, 960)]);
    assert_eq!(merged, vec![note(60, 90, 0, 1920)]);
}

#[test]
fn notes_apart_stay_apart() {
    let merged = normalize_notes(&vec![note(60, 90, 0, 959), note(60, 70, 960, 960)]);
    assert_eq!(merged, vec![note(60, 90, 0, 959), note(60, 70, 960, 960)]);
}

#[test]
fn notes_of_other_pitches_are_not_merged() {
    let merged = normalize_notes(&vec![note(62, 90, 0, 1920), note(60, 70, 960, 1920)]);
    assert_eq!(merged, vec![note(60, 70, 960, 1920), note(62, 90, 0, 1920)]);
}

#[test]
fn a_note_inside_another_does_not_shorten_it() {
    let merged = normalize_notes(&vec![note(60, 50, 100, 10), note(60, 40, 0, 1000)]);
    assert_eq!(merged, vec![note(60, 50, 0, 1000)]);
}

#[test]
fn a_chain_of_notes_becomes_one() {
    let merged = normalize_notes(&vec![
        note(60, 10, 200, 100),
        note(60, 30, 0, 100),
        note(60, 20, 100, 100),
        note(60, 5, 400, 50),
    ]);
    assert_eq!(merged, vec![note(60, 30, 0, 300), note(60, 5, 400, 50)]);
}

#[test]
fn normalized_notes_never_share_a_tick() {
    let input = vec![
        note(60, 1, 0, 10),
        note(60, 2, 5, 10),
        note(60, 3, 30, 5),
        note(61, 4, 0, 100),
        note(60, 5, 35, 1),
        note(61, 6, 101, 2),
        note(255, 7, 3, 3),
        note(0, 8, 3, 3),
    ];
    let out = normalize_notes(&input);
    for (i, a) in out.iter().enumerate() {
        for (j, b) in out.iter().enumerate() {
            if i != j && a.pitch == b.pitch {
                let a_end = a.start_tick + a.duration_ticks;
                let b_end = b.start_tick + b.duration_ticks;
                assert!(a_end < b.start_tick || b_end < a.start_tick);
            }
        }
    }
    assert_eq!(
        out,
        vec![
            note(0, 8, 3, 3),
            note(60, 2, 0, 15),
            note(60, 5, 30, 6),
            note(61, 4, 0, 100),
            note(61, 6, 101, 2),
            note(255, 7, 3, 3),
        ]
    );
}

#[test]
fn a_note_that_runs_past_the_last_tick_ends_there() {
    let long = note(60, 1, u64::MAX - 5, 100);
    assert_eq!(long.end_tick(), u64::MAX);
    let merged = normalize_notes(&vec![long, note(60, 9, u64::MAX, 0)]);
    assert_eq!(merged, vec![note(60, 9, u64::MAX - 5, 5)]);
}

#[test]
fn absorb_takes_the_louder_velocity_and_the_later_end() {
    let a = note(60, 80, 10, 20);
    let b = note(60, 120, 25, 100);
    assert_eq!(a.absorb(&b), note(60, 120, 10, 115));
    assert_eq!(b.absorb(&a), note(60, 120, 25, 100));
}

#[test]
fn sorting_is_stable() {
    let sorted = sort_by_key(vec![
        note(1, 0, 5, 0),
        note(2, 0, 3, 0),
        note(3, 0, 5, 0),
        note(4, 0, 3, 0),
        note(5, 0, 0, 0),
    ]);
    let pitches: Vec<u8> = sorted.iter().map(|n| n.pitch).collect();
    assert_eq!(pitches, vec![5, 2, 4, 1, 3]);
}

#[test]
fn sorting_in_place_is_stable() {
    let mut notes = vec![
        note(1, 0, 5, 0),
        note(2, 0, 3, 0),
        note(3, 0, 5, 0),
        note(4, 0, 3, 0),
        note(5, 0, 0, 0),
        note(6, 0, 9, 0),
        note(7, 0, 3, 0),
    ];
    sort_in_place(&mut notes);
    let pitches: Vec<u8> = notes.iter().map(|n| n.pitch).collect();
    assert_eq!(pitches, vec![5, 2, 4, 7, 1, 3, 6]);
    let mut one = vec![note(1, 0, 5, 0)];
    sort_in_place(&mut one);
    assert_eq!(one, vec![note(1, 0, 5, 0)]);
}

#[test]
fn sorting_nothing_gives_nothing() {
    let sorted: Vec<Note> = sort_by_key(Vec::new());
    assert!(sorted.is_empty());
}

#[test]
fn duration_of_one_bar_in_four_four() {
    assert_eq!(pattern(1, (4, 4)).duration_samples(60_000, 48_000), 192_000);
}

#[test]
fn duration_follows_the_time_signature() {
    assert_eq!(pattern(1, (1, 4)).duration_samples(60_000, 48_000), 48_000);
    assert_eq!(pattern(2, (6, 8)).duration_samples(120_000, 44_100), 132_300);
    assert_eq!(pattern(1, (3, 4)).duration_samples(90_000, 48_000), 96_000);
}

#[test]
fn duration_is_rounded_down() {
    // 4 * 60000 * 7 / 7001 = 239.96...
    assert_eq!(pattern(1, (1, 1)).duration_samples(7_001, 7), 239);
}

#[test]
fn duration_of_a_generated_pattern() {
    let generated = Sequence::Generated(GeneratedPattern {
        duration_bars: 3,
        time_signature: (4, 4),
        function: "return {}".to_string(),
    });
    assert_eq!(generated.duration_samples(120_000, 48_000), 288_000);
}

#[test]
fn duration_at_the_edges() {
    assert_eq!(pattern(0, (4, 4)).duration_samples(60_000, 48_000), 0);
    assert_eq!(pattern(1, (0, 4)).duration_samples(60_000, 48_000), 0);
    assert_eq!(pattern(1, (4, 4)).duration_samples(60_000, 0), 0);
    assert_eq!(pattern(0, (4, 0)).duration_samples(0, 48_000), 0);
    assert_eq!(pattern(1, (4, 0)).duration_samples(60_000, 48_000), u64::MAX);
    assert_eq!(pattern(1, (4, 4)).duration_samples(0, 48_000), u64::MAX);
    assert_eq!(
        pattern(u32::MAX, (u32::MAX, 1)).duration_samples(1, u32::MAX),
        u64::MAX
    );
}

#[test]
fn a_static_pattern_plays_its_own_notes_normalized() {
    let sequence = Sequence::Static(StaticPattern {
        duration_bars: 1,
        time_signature: (4, 4),
        notes: vec![note(60, 80, 0, 1920), note(60, 120, 960, 1920)],
    });
    let other = vec![note(1, 1, 1, 1)];
    assert_eq!(sequence.get_notes(None), vec![note(60, 120, 0, 2880)]);
    assert_eq!(sequence.get_notes(Some(&other)), vec![note(60, 120, 0, 2880)]);
}

#[test]
fn a_generated_pattern_plays_what_its_script_produced() {
    let sequence = Sequence::Generated(GeneratedPattern {
        duration_bars: 1,
        time_signature: (4, 4),
        function: "notes()".to_string(),
    });
    let produced = vec![note(70, 10, 0, 10), note(70, 20, 10, 10)];
    assert_eq!(sequence.get_notes(Some(&produced)), vec![note(70, 20, 0, 20)]);
    assert_eq!(sequence.get_notes(None), Vec::<Note>::new());
}

#[test]
fn cloned_patterns_are_equal() {
    let sequence = Sequence::Static(StaticPattern {
        duration_bars: 2,
        time_signature: (3, 4),
        notes: vec![note(60, 80, 0, 1920)],
    });
    assert_eq!(sequence.clone(), sequence);
    let generated = Sequence::Generated(GeneratedPattern {
        duration_bars: 1,
        time_signature: (4, 4),
        function: "f".to_string(),
    });
    assert_eq!(generated.clone(), generated);
}
