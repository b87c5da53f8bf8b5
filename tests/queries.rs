use piano_phase::export::{
    gcd, lcm, merge_by_tick, microseconds_per_note, note_events, ticks_per_quarter_note, time_to_ticks, velocity,
    NoteEvent,
};
use piano_phase::music::{Dynamic, Part, Pattern, Segment};
use piano_phase::rational::Rational;
use piano_phase::score::{build_parts, Instruction, PianoPhase};
use piano_phase::timing::{Timing, MAX_NANOS};

fn r(n: i64, d: i64) -> Rational {
    Rational { numer: n, denom: d }
}

fn segment(len: usize, speed: Rational, repetitions: u32, start: Rational, end: Rational) -> Segment {
    Segment {
        pattern: Pattern(vec![69; len]),
        speed,
        repetitions,
        dynamic: Dynamic::Flat,
        start_time: start,
        end_time: end,
    }
}

fn two_segment_part() -> Part {
    let p = Pattern(vec![69, 71, 74, 76]);
    let (part1, _) = build_parts(
        &vec![
            Instruction::Repeat { part1: p.clone(), part2: p.clone(), repetitions: 2 },
            Instruction::Repeat { part1: p.clone(), part2: p, repetitions: 1 },
        ],
        false,
    )
    .unwrap();
    part1
}

#[test]
fn find_measure_in_second_repetition() {
    let seg = segment(4, r(1, 1), 3, r(0, 1), r(12, 1));
    let m = seg.find_measure(r(6, 1)).unwrap();
    assert_eq!(m.number, 1);
    assert_eq!(m.start_time, r(4, 1));
    assert_eq!(m.end_time, r(8, 1));
}

#[test]
fn find_measure_at_segment_end_is_last_measure() {
    let seg = segment(4, r(1, 1), 3, r(0, 1), r(12, 1));
    let m = seg.find_measure(r(12, 1)).unwrap();
    assert_eq!(m.number, 2);
    assert_eq!(m.start_time, r(8, 1));
    assert_eq!(m.end_time, r(12, 1));
}

#[test]
fn find_measure_with_phase_speed() {
    // Four notes at speed 4/3 span 3 time units per measure.
    let seg = segment(4, r(4, 3), 2, r(10, 1), r(16, 1));
    assert_eq!(seg.single_measure_duration().unwrap(), r(3, 1));
    let m = seg.find_measure(r(27, 2)).unwrap();
    assert_eq!(m.number, 1);
    assert_eq!(m.start_time, r(13, 1));
    assert_eq!(m.end_time, r(16, 1));
}

#[test]
fn find_segment_for_time_inside_and_at_edges() {
    let part = two_segment_part();
    assert_eq!(part.segments[0].end_time, r(8, 1));
    assert_eq!(part.segments[1].end_time, r(12, 1));
    assert_eq!(part.find_segment_for_time(r(0, 1)), Some(0));
    assert_eq!(part.find_segment_for_time(r(15, 2)), Some(0));
    assert_eq!(part.find_segment_for_time(r(8, 1)), Some(1));
    assert_eq!(part.find_segment_for_time(r(12, 1)), Some(1));
    assert_eq!(part.find_segment_for_time(r(25, 2)), None);
    assert_eq!(part.find_segment_for_time(r(-1, 2)), None);
}

#[test]
fn find_segment_for_time_on_empty_part() {
    let part = Part { segments: Vec::new(), flattened: Vec::new() };
    assert_eq!(part.find_segment_for_time(r(0, 1)), None);
}

#[test]
fn find_note_range_empty_when_end_stops_first() {
    let part = two_segment_part();
    let notes = part.find_note_range(|n| n.time.less_than(&r(5, 1)), |n| n.time.less_than(&r(2, 1)));
    assert!(notes.is_empty());
    let all = part.find_note_range(|_| false, |_| true);
    assert_eq!(all.len(), 12);
}

#[test]
fn interpolate_shapes() {
    let p = r(1, 4);
    assert_eq!(Dynamic::Crescendo.interpolate(p), r(1, 4));
    assert_eq!(Dynamic::Decrescendo.interpolate(p), r(3, 4));
    assert_eq!(Dynamic::Flat.interpolate(p), r(1, 1));
    assert_eq!(Dynamic::Silent.interpolate(p), r(0, 1));
}

#[test]
fn crescendo_volumes_rise_across_a_segment() {
    let p = Pattern(vec![64, 66]);
    let (part1, _) =
        build_parts(&vec![Instruction::Part1FadeIn { part1: p.clone(), part2: p, repetitions: 2 }], false).unwrap();
    let vols: Vec<Rational> = part1.flattened.iter().map(|n| n.volume).collect();
    assert_eq!(vols, vec![r(0, 1), r(1, 4), r(1, 2), r(3, 4)]);
    let measures: Vec<usize> = part1.flattened.iter().map(|n| n.measure_number).collect();
    assert_eq!(measures, vec![0, 0, 1, 1]);
}

#[test]
fn rational_arithmetic_is_exact() {
    assert_eq!(r(1, 3).checked_add(&r(1, 6)).unwrap(), r(1, 2));
    assert_eq!(r(1, 3).checked_add(&r(1, 6)).unwrap().denom, 2);
    assert_eq!(r(1, 2).checked_sub(&r(1, 3)).unwrap(), r(1, 6));
    assert_eq!(r(2, 3).checked_mul(&r(9, 4)).unwrap(), r(3, 2));
    assert_eq!(r(2, 3).checked_div(&r(4, 9)).unwrap(), r(3, 2));
    assert_eq!(r(2, 3).checked_div(&r(0, 1)), None);
    assert_eq!(r(i64::MAX, 1).checked_add(&r(1, 1)), None);
    let x = Rational::new(6, -4).unwrap();
    assert_eq!((x.numer, x.denom), (-3, 2));
    assert!(r(1, 3).less_than(&r(1, 2)));
    assert!(!r(1, 2).less_than(&r(2, 4)));
    assert!(r(1, 2).at_most(&r(2, 4)));
    assert!(r(1, 2).same_value(&r(2, 4)));
}

#[test]
fn timing_fixed_rate_and_seeking() {
    let mut t = Timing::new(Some(60));
    t.update();
    assert_eq!(t.last_time(), 0);
    assert_eq!(t.current_time(), 16_666_666);
    t.update();
    assert_eq!(t.last_time(), 16_666_666);
    assert_eq!(t.current_time(), 33_333_332);
    t.seek_forward(5_000_000_000);
    assert_eq!(t.current_time(), 5_033_333_332);
    assert_eq!(t.last_time(), 5_033_333_332);
    t.seek_backwards(10_000_000_000);
    assert_eq!(t.current_time(), 0);
    t.seek_forward(u128::MAX);
    assert_eq!(t.current_time(), MAX_NANOS);
}

#[test]
fn timing_stopped_wall_clock_stays() {
    let mut t = Timing::new(None);
    t.update();
    t.update();
    assert_eq!(t.current_time(), 0);
    t.toggle_stopped();
    t.tick(250);
    assert_eq!(t.current_time(), 250);
    t.toggle_stopped();
    t.tick(250);
    assert_eq!(t.current_time(), 250);
    assert_eq!(t.last_time(), 250);
}

#[test]
fn musical_time_and_end_of_piece() {
    let music = PianoPhase::new_shortened(432).unwrap();
    let mut t = Timing::new(Some(1));
    // One second at 432 notes per minute is 36/5 notes.
    t.update();
    assert_eq!(t.current_musical_time(&music).unwrap(), r(36, 5));
    assert_eq!(t.last_musical_time(&music).unwrap(), r(0, 1));
    assert_eq!(t.should_end(&music), Some(false));
    t.seek_forward(3_600_000_000_000);
    assert_eq!(t.should_end(&music), Some(true));
}

#[test]
fn gcd_and_lcm() {
    assert_eq!(gcd(12, 18), 6);
    assert_eq!(gcd(18, 12), 6);
    assert_eq!(gcd(0, 7), 7);
    assert_eq!(lcm(4, 6), Some(12));
    assert_eq!(lcm(96, 72), Some(288));
    assert_eq!(lcm(i64::MAX, 2), None);
}

#[test]
fn midi_ticks_place_notes_on_whole_ticks() {
    let music = PianoPhase::new_shortened(432).unwrap();
    let ticks = ticks_per_quarter_note(&music).unwrap();
    for part in [&music.part1, &music.part2] {
        for n in &part.flattened {
            let on = time_to_ticks(n.time, ticks).unwrap();
            let end = n.time.checked_add(&n.length).unwrap();
            let off = time_to_ticks(end, ticks).unwrap();
            assert!(off > on);
        }
    }
    assert_eq!(time_to_ticks(r(3, 4), 8), Some(6));
    assert_eq!(time_to_ticks(r(1, 3), 8), None);
    assert_eq!(velocity(r(1, 2)), 63);
    assert_eq!(velocity(r(1, 1)), 127);
    assert_eq!(microseconds_per_note(432), 138_888);
}

#[test]
fn notes_started_in_window() {
    let part = two_segment_part();
    let notes = part.notes_started_in(r(3, 2), r(4, 1));
    let times: Vec<Rational> = notes.iter().map(|n| n.time).collect();
    assert_eq!(times, vec![r(2, 1), r(3, 1)]);
    assert_eq!(part.first_note_from(r(8, 1)), 8);
    assert_eq!(part.first_note_from(r(100, 1)), 12);
    assert!(part.notes_started_in(r(4, 1), r(2, 1)).is_empty());
    assert_eq!(part.notes_started_in(r(0, 1), r(1, 1000)).len(), 1);
}

#[test]
fn get_measure_by_number() {
    let seg = segment(4, r(4, 3), 2, r(10, 1), r(16, 1));
    let m = seg.get_measure(0).unwrap();
    assert_eq!((m.number, m.start_time, m.end_time), (0, r(10, 1), r(13, 1)));
    let m = seg.get_measure(1).unwrap();
    assert_eq!((m.number, m.start_time, m.end_time), (1, r(13, 1), r(16, 1)));
}

#[test]
fn notes_released_in_window() {
    let p = Pattern(vec![64, 66]);
    // Two notes of length 1, then four at the phase speed 4/3, each 3/4 long.
    let (_, part2) = build_parts(
        &vec![
            Instruction::Repeat { part1: p.clone(), part2: p.clone(), repetitions: 1 },
            Instruction::Part2Phase { part1: p.clone(), part2: p, repetitions: 2 },
        ],
        false,
    )
    .unwrap();
    let ends: Vec<Rational> = part2.flattened.iter().map(|n| n.time.checked_add(&n.length).unwrap()).collect();
    assert_eq!(ends, vec![r(1, 1), r(2, 1), r(11, 4), r(7, 2), r(17, 4), r(5, 1)]);
    let released = part2.notes_released_in(r(2, 1), r(4, 1)).unwrap();
    let times: Vec<Rational> = released.iter().map(|n| n.time).collect();
    assert_eq!(times, vec![r(1, 1), r(2, 1), r(11, 4)]);
    assert_eq!(part2.first_note_ending_from(r(5, 1)), Some(5));
    assert!(part2.notes_released_in(r(3, 1), r(1, 1)).unwrap().is_empty());
}

#[test]
fn note_ends_never_decrease() {
    let music = PianoPhase::new(432).unwrap();
    for part in [&music.part1, &music.part2] {
        let ends: Vec<Rational> = part.flattened.iter().map(|n| n.time.checked_add(&n.length).unwrap()).collect();
        for w in ends.windows(2) {
            assert!(w[0].at_most(&w[1]));
        }
    }
}

#[test]
fn note_events_merge_offs_before_ons_on_ties() {
    let p = Pattern(vec![64, 66]);
    let (part1, _) =
        build_parts(&vec![Instruction::Part1FadeIn { part1: p.clone(), part2: p, repetitions: 1 }], false).unwrap();
    let events = note_events(&part1, 2).unwrap();
    assert_eq!(
        events,
        vec![
            (0, NoteEvent::On { pitch: 64, velocity: 0 }),
            (2, NoteEvent::Off { pitch: 64 }),
            (2, NoteEvent::On { pitch: 66, velocity: 63 }),
            (4, NoteEvent::Off { pitch: 66 }),
        ]
    );
    let a = vec![(1, NoteEvent::Off { pitch: 1 }), (5, NoteEvent::Off { pitch: 2 })];
    let b = vec![(1, NoteEvent::Off { pitch: 3 }), (3, NoteEvent::Off { pitch: 4 })];
    let merged: Vec<i64> = merge_by_tick(&a, &b).iter().map(|e| e.0).collect();
    assert_eq!(merged, vec![1, 1, 3, 5]);
    assert_eq!(merge_by_tick(&a, &b)[0].1, NoteEvent::Off { pitch: 3 });
}

#[test]
fn midi_tick_resolution_of_the_piece() {
    let full = PianoPhase::new(432).unwrap();
    let short = PianoPhase::new_shortened(432).unwrap();
    assert_eq!(ticks_per_quarter_note(&full), Some(288));
    assert_eq!(ticks_per_quarter_note(&short), Some(24));
}

#[test]
fn arithmetic_results_are_in_lowest_terms() {
    let x = r(3, 6).checked_add(&r(1, 6)).unwrap();
    assert_eq!((x.numer, x.denom), (2, 3));
    let y = r(4, 6).checked_mul(&r(3, 2)).unwrap();
    assert_eq!((y.numer, y.denom), (1, 1));
    let z = r(1, 2).checked_div(&r(-3, 4)).unwrap();
    assert_eq!((z.numer, z.denom), (-2, 3));
}

#[test]
fn first_wall_clock_update_keeps_time() {
    let mut t = Timing::new(None);
    t.toggle_stopped();
    t.update();
    assert_eq!(t.current_time(), 0);
    assert_eq!(t.last_time(), 0);
}
