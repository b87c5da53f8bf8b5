use piano_phase::builder::BuildError;
use piano_phase::music::{Dynamic, Part, Pattern};
use piano_phase::rational::Rational;
use piano_phase::score::{build_parts, piece_instructions, Instruction, PianoPhase};

fn r(n: i64, d: i64) -> Rational {
    Rational { numer: n, denom: d }
}

fn pattern(notes: &[u8]) -> Pattern {
    Pattern(notes.to_vec())
}

fn build(instrs: Vec<Instruction>) -> (Part, Part) {
    build_parts(&instrs, false).unwrap()
}

#[test]
fn phase_speed_is_exact() {
    let p = pattern(&[64, 66, 71, 73, 74, 66, 64, 73, 71, 66, 74, 73]);
    let (_, part2) = build(vec![Instruction::Part2Phase { part1: p.clone(), part2: p, repetitions: 8 }]);
    let seg = &part2.segments[0];
    assert_eq!(seg.speed.numer, 96);
    assert_eq!(seg.speed.denom, 95);
    assert_eq!(seg.speed, r(96, 95));
    assert_ne!(seg.speed, r(95, 94));
    // 96 slots at 95/96 apart end at 95.
    assert_eq!(seg.end_time, r(95, 1));
}

#[test]
fn phase_over_one_note_is_rejected() {
    let p = pattern(&[64]);
    let err = build_parts(&vec![Instruction::Part2Phase { part1: p.clone(), part2: p, repetitions: 1 }], false);
    assert_eq!(err.unwrap_err(), BuildError::ZeroPhaseDenominator);
}

#[test]
fn phase_over_mismatched_patterns_is_rejected() {
    let err = build_parts(
        &vec![Instruction::Part2Phase { part1: pattern(&[64, 66]), part2: pattern(&[64, 66, 71]), repetitions: 2 }],
        false,
    );
    assert_eq!(err.unwrap_err(), BuildError::MismatchedPatternLengths);
}

#[test]
fn silent_segment_has_no_notes_but_takes_time() {
    let p = pattern(&[69, 71, 74, 76]);
    let (part1, part2) = build(vec![
        Instruction::Part2Alone { pattern: p.clone(), repetitions: 2 },
        Instruction::Repeat { part1: p.clone(), part2: p, repetitions: 1 },
    ]);
    assert_eq!(part1.segments[0].dynamic, Dynamic::Silent);
    assert_eq!(part1.flattened.len(), 4);
    assert!(part1.flattened.iter().all(|n| n.segment_index == 1));
    assert_eq!(part1.segments[1].start_time, r(8, 1));
    assert_eq!(part1.flattened[0].time, r(8, 1));
    assert_eq!(part2.flattened.len(), 12);
}

#[test]
fn notes_are_sorted_by_time() {
    let music = PianoPhase::new(432).unwrap();
    for part in [&music.part1, &music.part2] {
        for w in part.flattened.windows(2) {
            assert!(w[0].time.at_most(&w[1].time));
        }
    }
}

#[test]
fn shortened_piece_has_fewer_notes_in_same_order() {
    let full = PianoPhase::new(432).unwrap();
    let short = PianoPhase::new_shortened(432).unwrap();
    for (f, s) in [(&full.part1, &short.part1), (&full.part2, &short.part2)] {
        assert!(s.flattened.len() < f.flattened.len());
        assert_eq!(s.segments.len(), f.segments.len());
        for (a, b) in s.segments.iter().zip(f.segments.iter()) {
            assert_eq!(a.pattern.0, b.pattern.0);
            assert_eq!(a.dynamic, b.dynamic);
        }
    }
    assert_eq!(piece_instructions().len(), 60);
}

#[test]
fn find_note_range_sliding_window() {
    let p = pattern(&[64, 66, 71, 73]);
    let (part1, _) = build(vec![Instruction::Repeat { part1: p.clone(), part2: p, repetitions: 1 }]);
    let times: Vec<Rational> = part1.flattened.iter().map(|n| n.time).collect();
    assert_eq!(times, vec![r(0, 1), r(1, 1), r(2, 1), r(3, 1)]);
    let notes = part1.find_note_range(|n| n.time.less_than(&r(3, 2)), |n| n.time.less_than(&r(5, 2)));
    assert_eq!(notes.len(), 1);
    assert_eq!(notes[0].time, r(2, 1));
    assert_eq!(notes[0].pitch, 71);
}

#[test]
fn every_segment_spans_slots_over_speed_exactly() {
    let music = PianoPhase::new(432).unwrap();
    for part in [&music.part1, &music.part2] {
        for seg in &part.segments {
            let slots = (seg.pattern.0.len() as i64) * (seg.repetitions as i64);
            let span = seg.end_time.checked_sub(&seg.start_time).unwrap();
            let expected = Rational::from_integer(slots).checked_div(&seg.speed).unwrap();
            assert_eq!(span, expected);
        }
        for w in part.segments.windows(2) {
            assert_eq!(w[0].end_time.numer, w[1].start_time.numer);
            assert_eq!(w[0].end_time.denom, w[1].start_time.denom);
        }
        assert_eq!(part.segments[0].start_time, r(0, 1));
    }
}

#[test]
fn segment_lookup_covers_the_whole_part() {
    let music = PianoPhase::new_shortened(432).unwrap();
    for part in [&music.part1, &music.part2] {
        let total = part.segments.last().unwrap().end_time;
        let steps: i64 = 500;
        for k in 0..=steps {
            let t = Rational::new(total.numer * k, total.denom * steps).unwrap();
            let i = part.find_segment_for_time(t).unwrap();
            let seg = &part.segments[i];
            assert!(seg.start_time.at_most(&t));
            assert!(t.less_than(&seg.end_time) || (i == part.segments.len() - 1 && t == seg.end_time));
        }
        let after = total.checked_add(&r(1, 1000)).unwrap();
        assert_eq!(part.find_segment_for_time(after), None);
    }
}

#[test]
fn rebuilding_yields_identical_parts() {
    let first = PianoPhase::new(432).unwrap();
    let second = PianoPhase::new(432).unwrap();
    for (a, b) in [(&first.part1, &second.part1), (&first.part2, &second.part2)] {
        assert_eq!(a.segments.len(), b.segments.len());
        for (x, y) in a.segments.iter().zip(b.segments.iter()) {
            assert_eq!(x.pattern.0, y.pattern.0);
            assert_eq!(x.speed, y.speed);
            assert_eq!(x.repetitions, y.repetitions);
            assert_eq!(x.dynamic, y.dynamic);
            assert_eq!(x.start_time, y.start_time);
            assert_eq!(x.end_time, y.end_time);
        }
        assert_eq!(a.flattened.len(), b.flattened.len());
        for (x, y) in a.flattened.iter().zip(b.flattened.iter()) {
            assert_eq!(x.pitch, y.pitch);
            assert_eq!(x.time, y.time);
            assert_eq!(x.length, y.length);
            assert_eq!(x.volume, y.volume);
            assert_eq!(x.segment_index, y.segment_index);
            assert_eq!(x.measure_number, y.measure_number);
        }
    }
}

#[test]
fn piece_parts_by_number() {
    let music = PianoPhase::new_shortened(432).unwrap();
    assert_eq!(music.tempo, 432);
    assert_eq!(music.part(1).unwrap().segments.len(), music.part1.segments.len());
    assert_eq!(music.part(2).unwrap().flattened.len(), music.part2.flattened.len());
    assert!(music.part(0).is_none());
    assert!(music.part(3).is_none());
    // The second part has one catch-up segment per phasing section.
    assert_eq!(music.part2.segments.len(), music.part1.segments.len() + 3);
}

#[test]
fn shortened_piece_note_counts() {
    let short = PianoPhase::new_shortened(432).unwrap();
    // Every step plays its pattern once: the sounding segments of each part.
    let count = |part: &Part| -> usize {
        part.segments.iter().filter(|s| s.dynamic != Dynamic::Silent).map(|s| s.pattern.0.len()).sum()
    };
    assert_eq!(short.part1.flattened.len(), count(&short.part1));
    assert_eq!(short.part2.flattened.len(), count(&short.part2));
}

#[test]
fn consecutive_windows_see_each_note_once() {
    let music = PianoPhase::new_shortened(432).unwrap();
    let part = &music.part1;
    let mut seen = 0usize;
    let mut from = r(0, 1);
    let last_end = part.segments.last().unwrap().end_time;
    let mut k: i64 = 0;
    while from.at_most(&last_end) {
        k += 1;
        let to = r(k, 3);
        let window = part.find_note_range(|n| n.time.less_than(&from), |n| n.time.less_than(&to));
        for n in window {
            assert!(from.at_most(&n.time) && n.time.less_than(&to));
        }
        seen += window.len();
        from = to;
    }
    assert!(last_end.less_than(&from));
    assert_eq!(seen, part.flattened.len());
}
