use crate::builder::{
    built_from, lemma_notes_of_prefix, lemma_start_of_positive, note_matches, notes_of, plan_notes,
    plan_wf, plans_wf, segment_matches, slots, start_of, NoteModel, SegmentPlan,
};
use crate::music::{
    ends_sorted, holds_on_prefix, is_split, notes_sorted, Dynamic, FlattenedNote, Part, Segment,
};
use crate::rational::{le, lemma_le_lt_trans, lemma_lt_le_trans, lt, Rational};
use crate::rational::{eqv, lemma_same_ratio};
use crate::score::{
    instruction_wf, instructions_wf, lemma_piece_second_step, lemma_views_same_plans, part1_plans, part1_step,
    part2_plans, part2_step, piece_built, piece_views, view_of, views, Instruction,
};
use vstd::prelude::*;

verus! {

/// Two segments with the same fields, times and speeds compared as numbers.
pub open spec fn same_segment(a: Segment, b: Segment) -> bool {
    &&& a.pattern.0@ == b.pattern.0@
    &&& eqv(a.speed, b.speed)
    &&& a.repetitions == b.repetitions
    &&& a.dynamic == b.dynamic
    &&& eqv(a.start_time, b.start_time)
    &&& eqv(a.end_time, b.end_time)
}

/// Two notes with the same fields, fractions compared as numbers.
pub open spec fn same_note(a: FlattenedNote, b: FlattenedNote) -> bool {
    &&& a.pitch == b.pitch
    &&& eqv(a.time, b.time)
    &&& eqv(a.length, b.length)
    &&& eqv(a.volume, b.volume)
    &&& a.segment_index == b.segment_index
    &&& a.measure_number == b.measure_number
}

/// Two parts whose segment lists and note lists agree element by element.
pub open spec fn same_part(a: Part, b: Part) -> bool {
    &&& a.segments@.len() == b.segments@.len()
    &&& forall|i: int| 0 <= i < a.segments@.len() ==> #[trigger] same_segment(a.segments@[i], b.segments@[i])
    &&& a.flattened@.len() == b.flattened@.len()
    &&& forall|j: int| 0 <= j < a.flattened@.len() ==> #[trigger] same_note(a.flattened@[j], b.flattened@[j])
}

pub open spec fn note_model_wf(m: NoteModel) -> bool {
    m.time.1 > 0 && m.length.1 > 0 && m.volume.1 > 0
}

/// Every note of the first `n` segments has positive denominators and
/// belongs to a segment that sounds.
pub proof fn lemma_notes_of_facts(plans: Seq<SegmentPlan>, n: int)
    requires
        plans_wf(plans),
        0 <= n <= plans.len(),
    ensures
        forall|j: int|
            0 <= j < notes_of(plans, n).len() ==> {
                let m = #[trigger] notes_of(plans, n)[j];
                &&& note_model_wf(m)
                &&& 0 <= m.segment_index < n
                &&& plans[m.segment_index].dynamic != Dynamic::Silent
            },
    decreases n,
{
    if n > 0 {
        lemma_notes_of_facts(plans, n - 1);
        lemma_start_of_positive(plans, n - 1);
        let p = plans[n - 1];
        assert(plan_wf(p));
        let start = start_of(plans, n - 1);
        let prev = notes_of(plans, n - 1);
        let added = plan_notes(p, start, n - 1);
        assert(notes_of(plans, n) == prev + added);
        assert(start.1 * p.speed.0 > 0) by (nonlinear_arith)
            requires
                start.1 > 0,
                p.speed.0 > 0,
        ;
        assert(slots(p) > 0) by (nonlinear_arith)
            requires
                slots(p) == p.pattern.len() * p.repetitions,
                p.pattern.len() > 0,
                p.repetitions >= 1,
        ;
        assert forall|j: int| 0 <= j < notes_of(plans, n).len() implies {
            let m = #[trigger] notes_of(plans, n)[j];
            &&& note_model_wf(m)
            &&& 0 <= m.segment_index < n
            &&& plans[m.segment_index].dynamic != Dynamic::Silent
        } by {
            if j < prev.len() {
                assert(notes_of(plans, n)[j] == prev[j]);
            } else {
                assert(notes_of(plans, n)[j] == added[j - prev.len()]);
            }
        }
    }
}

/// Building from one sequence of segments twice gives identical parts.
pub proof fn lemma_same_plans_same_part(plans: Seq<SegmentPlan>, a: Part, b: Part)
    requires
        plans_wf(plans),
        built_from(a.segments@, a.flattened@, plans),
        built_from(b.segments@, b.flattened@, plans),
    ensures
        same_part(a, b),
{
    let n = plans.len() as int;
    assert forall|i: int| 0 <= i < a.segments@.len() implies #[trigger] same_segment(
        a.segments@[i],
        b.segments@[i],
    ) by {
        assert(segment_matches(a.segments@[i], plans[i], start_of(plans, i), start_of(plans, i + 1)));
        assert(segment_matches(b.segments@[i], plans[i], start_of(plans, i), start_of(plans, i + 1)));
        assert(plan_wf(plans[i]));
        lemma_start_of_positive(plans, i);
        lemma_start_of_positive(plans, i + 1);
        lemma_same_ratio(a.segments@[i].speed, b.segments@[i].speed, plans[i].speed.0, plans[i].speed.1);
        lemma_same_ratio(
            a.segments@[i].start_time,
            b.segments@[i].start_time,
            start_of(plans, i).0,
            start_of(plans, i).1,
        );
        lemma_same_ratio(
            a.segments@[i].end_time,
            b.segments@[i].end_time,
            start_of(plans, i + 1).0,
            start_of(plans, i + 1).1,
        );
    }
    lemma_notes_of_facts(plans, n);
    assert forall|j: int| 0 <= j < a.flattened@.len() implies #[trigger] same_note(
        a.flattened@[j],
        b.flattened@[j],
    ) by {
        let m = notes_of(plans, n)[j];
        assert(note_matches(a.flattened@[j], m));
        assert(note_matches(b.flattened@[j], m));
        assert(note_model_wf(m));
        lemma_same_ratio(a.flattened@[j].time, b.flattened@[j].time, m.time.0, m.time.1);
        lemma_same_ratio(a.flattened@[j].length, b.flattened@[j].length, m.length.0, m.length.1);
        lemma_same_ratio(a.flattened@[j].volume, b.flattened@[j].volume, m.volume.0, m.volume.1);
    }
}

/// Rebuilding both parts from the same steps, shortened or not alike,
/// yields identical segment and note lists.
pub proof fn lemma_rebuild_is_identical(
    instrs: Seq<Instruction>,
    shorten: bool,
    first: (Part, Part),
    second: (Part, Part),
)
    requires
        plans_wf(part1_plans(instrs, shorten, instrs.len() as int)),
        plans_wf(part2_plans(instrs, shorten, instrs.len() as int)),
        built_from(first.0.segments@, first.0.flattened@, part1_plans(instrs, shorten, instrs.len() as int)),
        built_from(first.1.segments@, first.1.flattened@, part2_plans(instrs, shorten, instrs.len() as int)),
        built_from(second.0.segments@, second.0.flattened@, part1_plans(instrs, shorten, instrs.len() as int)),
        built_from(second.1.segments@, second.1.flattened@, part2_plans(instrs, shorten, instrs.len() as int)),
    ensures
        same_part(first.0, second.0),
        same_part(first.1, second.1),
{
    lemma_same_plans_same_part(part1_plans(instrs, shorten, instrs.len() as int), first.0, second.0);
    lemma_same_plans_same_part(part2_plans(instrs, shorten, instrs.len() as int), first.1, second.1);
}

/// A silent segment sounds no note, yet spans its full duration
/// `slots / speed`, and the next segment starts where it ends.
pub proof fn lemma_silent_segment(part: Part, plans: Seq<SegmentPlan>, i: int)
    requires
        part.wf(),
        plans_wf(plans),
        built_from(part.segments@, part.flattened@, plans),
        0 <= i < part.segments@.len(),
        part.segments@[i].dynamic == Dynamic::Silent,
    ensures
        forall|j: int| 0 <= j < part.flattened@.len() ==> (#[trigger] part.flattened@[j]).segment_index != i,
        part.segments@[i].span_exact(),
        i + 1 < part.segments@.len() ==> part.segments@[i + 1].start_time == part.segments@[i].end_time,
{
    let n = plans.len() as int;
    assert(part.segments@[i].wf());
    lemma_notes_of_facts(plans, n);
    assert(segment_matches(part.segments@[i], plans[i], start_of(plans, i), start_of(plans, i + 1)));
    assert forall|j: int| 0 <= j < part.flattened@.len() implies (#[trigger] part.flattened@[j]).segment_index
        != i by {
        let m = notes_of(plans, n)[j];
        assert(note_matches(part.flattened@[j], m));
    }
}

/// The notes a segment sounds.
pub open spec fn sounded(p: SegmentPlan) -> int {
    if p.dynamic == Dynamic::Silent {
        0
    } else {
        slots(p)
    }
}

/// How many notes a sequence of segments sounds.
pub open spec fn sounding_count(plans: Seq<SegmentPlan>) -> int
    decreases plans.len(),
{
    if plans.len() == 0 {
        0
    } else {
        sounding_count(plans.drop_last()) + sounded(plans.last())
    }
}

pub proof fn lemma_note_count(plans: Seq<SegmentPlan>)
    ensures
        notes_of(plans, plans.len() as int).len() == sounding_count(plans),
    decreases plans.len(),
{
    if plans.len() > 0 {
        let init = plans.drop_last();
        lemma_note_count(init);
        assert(init.push(plans.last()) =~= plans);
        lemma_notes_of_prefix(init, plans.last(), init.len() as int);
        crate::builder::lemma_start_of_prefix(init, plans.last(), init.len() as int);
    }
}

/// A step on which both parts sound for more than one repetition.
pub open spec fn both_repeat(i: Instruction) -> bool {
    match i {
        Instruction::Part1FadeIn { repetitions, .. }
        | Instruction::Part1FadeOut { repetitions, .. }
        | Instruction::Part2FadeIn { repetitions, .. }
        | Instruction::Part2FadeOut { repetitions, .. }
        | Instruction::Repeat { repetitions, .. }
        | Instruction::Part2Phase { repetitions, .. } => repetitions > 1,
        _ => false,
    }
}

/// The shortened segments stand in the same order, with the same patterns
/// and dynamics, as the full ones.
pub open spec fn same_sections(short: Seq<SegmentPlan>, full: Seq<SegmentPlan>) -> bool {
    &&& short.len() == full.len()
    &&& forall|i: int|
        #![trigger short[i]]
        0 <= i < short.len() ==> short[i].pattern == full[i].pattern && short[i].dynamic == full[i].dynamic
}

proof fn lemma_push_count(p: Seq<SegmentPlan>, step: Seq<SegmentPlan>)
    requires
        step.len() <= 1,
    ensures
        sounding_count(p + step) == sounding_count(p) + if step.len() == 0 {
            0
        } else {
            sounded(step[0])
        },
{
    if step.len() == 0 {
        assert(p + step =~= p);
    } else {
        assert((p + step).drop_last() =~= p);
        assert((p + step).last() == step[0]);
    }
}

proof fn lemma_step_compare(i: Instruction, first: bool)
    requires
        instruction_wf(i),
    ensures
        ({
            let s = if first {
                part1_step(i, true)
            } else {
                part2_step(i, true)
            };
            let f = if first {
                part1_step(i, false)
            } else {
                part2_step(i, false)
            };
            &&& s.len() == f.len()
            &&& s.len() <= 1
            &&& s.len() == 1 ==> s[0].pattern == f[0].pattern && s[0].dynamic == f[0].dynamic && 0 <= sounded(s[0])
                <= sounded(f[0]) && (both_repeat(i) ==> sounded(s[0]) < sounded(f[0]))
            &&& both_repeat(i) ==> s.len() == 1
        }),
{
    let s = if first {
        part1_step(i, true)
    } else {
        part2_step(i, true)
    };
    let f = if first {
        part1_step(i, false)
    } else {
        part2_step(i, false)
    };
    if s.len() == 1 {
        let l = s[0].pattern.len() as int;
        let r = f[0].repetitions as int;
        assert(s[0].repetitions == 1);
        assert(l > 0 && r >= 1);
        assert(l * 1 <= l * r) by (nonlinear_arith)
            requires
                l > 0,
                r >= 1,
        ;
        if both_repeat(i) {
            assert(l * 1 < l * r) by (nonlinear_arith)
                requires
                    l > 0,
                    r > 1,
            ;
        }
    }
}

pub proof fn lemma_shortened_plans(instrs: Seq<Instruction>, n: int, first: bool)
    requires
        instructions_wf(instrs),
        0 <= n <= instrs.len(),
    ensures
        ({
            let s = if first {
                part1_plans(instrs, true, n)
            } else {
                part2_plans(instrs, true, n)
            };
            let f = if first {
                part1_plans(instrs, false, n)
            } else {
                part2_plans(instrs, false, n)
            };
            &&& same_sections(s, f)
            &&& sounding_count(s) <= sounding_count(f)
            &&& (exists|k: int| 0 <= k < n && #[trigger] both_repeat(instrs[k])) ==> sounding_count(s)
                < sounding_count(f)
        }),
    decreases n,
{
    if n > 0 {
        lemma_shortened_plans(instrs, n - 1, first);
        assert(instruction_wf(instrs[n - 1]));
        lemma_step_compare(instrs[n - 1], first);
        let s0 = if first {
            part1_plans(instrs, true, n - 1)
        } else {
            part2_plans(instrs, true, n - 1)
        };
        let f0 = if first {
            part1_plans(instrs, false, n - 1)
        } else {
            part2_plans(instrs, false, n - 1)
        };
        let ss = if first {
            part1_step(instrs[n - 1], true)
        } else {
            part2_step(instrs[n - 1], true)
        };
        let fs = if first {
            part1_step(instrs[n - 1], false)
        } else {
            part2_step(instrs[n - 1], false)
        };
        lemma_push_count(s0, ss);
        lemma_push_count(f0, fs);
        let s = s0 + ss;
        let f = f0 + fs;
        assert forall|i: int|
            #![trigger s[i]]
            0 <= i < s.len() implies s[i].pattern == f[i].pattern && s[i].dynamic == f[i].dynamic by {
            if i < s0.len() {
                assert(s[i] == s0[i]);
                assert(f[i] == f0[i]);
            } else {
                assert(s[i] == ss[0]);
                assert(f[i] == fs[0]);
            }
        }
        if exists|k: int| 0 <= k < n && #[trigger] both_repeat(instrs[k]) {
            let k = choose|k: int| 0 <= k < n && #[trigger] both_repeat(instrs[k]);
            if k < n - 1 {
                assert(exists|k2: int| 0 <= k2 < n - 1 && #[trigger] both_repeat(instrs[k2]));
            }
        }
    }
}

/// Shortening a sequence that has a step on which both parts sound more
/// than once leaves each part strictly fewer notes, and keeps every section
/// in the same order with the same pattern and dynamic.
pub proof fn lemma_shortened_has_fewer_notes(
    instrs: Seq<Instruction>,
    k: int,
    full: (Part, Part),
    short: (Part, Part),
)
    requires
        instructions_wf(instrs),
        0 <= k < instrs.len(),
        both_repeat(instrs[k]),
        built_from(full.0.segments@, full.0.flattened@, part1_plans(instrs, false, instrs.len() as int)),
        built_from(full.1.segments@, full.1.flattened@, part2_plans(instrs, false, instrs.len() as int)),
        built_from(short.0.segments@, short.0.flattened@, part1_plans(instrs, true, instrs.len() as int)),
        built_from(short.1.segments@, short.1.flattened@, part2_plans(instrs, true, instrs.len() as int)),
    ensures
        short.0.flattened@.len() < full.0.flattened@.len(),
        short.1.flattened@.len() < full.1.flattened@.len(),
        short.0.segments@.len() == full.0.segments@.len(),
        short.1.segments@.len() == full.1.segments@.len(),
        forall|i: int|
            #![trigger short.0.segments@[i]]
            0 <= i < short.0.segments@.len() ==> short.0.segments@[i].pattern.0@ == full.0.segments@[i].pattern.0@
                && short.0.segments@[i].dynamic == full.0.segments@[i].dynamic,
        forall|i: int|
            #![trigger short.1.segments@[i]]
            0 <= i < short.1.segments@.len() ==> short.1.segments@[i].pattern.0@ == full.1.segments@[i].pattern.0@
                && short.1.segments@[i].dynamic == full.1.segments@[i].dynamic,
{
    let n = instrs.len() as int;
    assert(both_repeat(instrs[k]));
    lemma_shortened_plans(instrs, n, true);
    lemma_shortened_plans(instrs, n, false);
    let (s1, f1) = (part1_plans(instrs, true, n), part1_plans(instrs, false, n));
    let (s2, f2) = (part2_plans(instrs, true, n), part2_plans(instrs, false, n));
    lemma_note_count(s1);
    lemma_note_count(f1);
    lemma_note_count(s2);
    lemma_note_count(f2);
    assert forall|i: int|
        #![trigger short.0.segments@[i]]
        0 <= i < short.0.segments@.len() implies short.0.segments@[i].pattern.0@ == full.0.segments@[i].pattern.0@
            && short.0.segments@[i].dynamic == full.0.segments@[i].dynamic by {
        assert(segment_matches(short.0.segments@[i], s1[i], start_of(s1, i), start_of(s1, i + 1)));
        assert(segment_matches(full.0.segments@[i], f1[i], start_of(f1, i), start_of(f1, i + 1)));
        assert(s1[i].pattern == f1[i].pattern);
    }
    assert forall|i: int|
        #![trigger short.1.segments@[i]]
        0 <= i < short.1.segments@.len() implies short.1.segments@[i].pattern.0@ == full.1.segments@[i].pattern.0@
            && short.1.segments@[i].dynamic == full.1.segments@[i].dynamic by {
        assert(segment_matches(short.1.segments@[i], s2[i], start_of(s2, i), start_of(s2, i + 1)));
        assert(segment_matches(full.1.segments@[i], f2[i], start_of(f2, i), start_of(f2, i + 1)));
        assert(s2[i].pattern == f2[i].pattern);
    }
}

/// In a well-formed part, every segment ends exactly `slots / speed` after
/// it starts.
pub proof fn lemma_segment_spans_exact(part: Part)
    requires
        part.wf(),
    ensures
        forall|i: int| 0 <= i < part.segments@.len() ==> (#[trigger] part.segments@[i]).span_exact(),
{
    assert forall|i: int| 0 <= i < part.segments@.len() implies (#[trigger] part.segments@[i]).span_exact() by {
        assert(part.segments@[i].wf());
    }
}

/// In a well-formed part, the notes come in order of time, and of the time
/// at which they stop sounding.
pub proof fn lemma_notes_in_time_order(part: Part)
    requires
        part.wf(),
    ensures
        notes_sorted(part.flattened@),
        ends_sorted(part.flattened@),
{
}

/// Building the piece twice, shortened or not alike, yields identical parts.
pub proof fn lemma_piece_rebuild_is_identical(shorten: bool, first: (Part, Part), second: (Part, Part))
    requires
        piece_built(shorten, first.0, first.1),
        piece_built(shorten, second.0, second.1),
    ensures
        same_part(first.0, second.0),
        same_part(first.1, second.1),
{
    let w1 = choose|w: Seq<Instruction>|
        #![trigger views(w)]
        {
            &&& views(w) == piece_views()
            &&& instructions_wf(w)
            &&& plans_wf(part1_plans(w, shorten, w.len() as int))
            &&& plans_wf(part2_plans(w, shorten, w.len() as int))
            &&& built_from(first.0.segments@, first.0.flattened@, part1_plans(w, shorten, w.len() as int))
            &&& built_from(first.1.segments@, first.1.flattened@, part2_plans(w, shorten, w.len() as int))
        };
    let w2 = choose|w: Seq<Instruction>|
        #![trigger views(w)]
        {
            &&& views(w) == piece_views()
            &&& instructions_wf(w)
            &&& plans_wf(part1_plans(w, shorten, w.len() as int))
            &&& plans_wf(part2_plans(w, shorten, w.len() as int))
            &&& built_from(second.0.segments@, second.0.flattened@, part1_plans(w, shorten, w.len() as int))
            &&& built_from(second.1.segments@, second.1.flattened@, part2_plans(w, shorten, w.len() as int))
        };
    assert(w1.len() == views(w1).len() && w2.len() == views(w2).len());
    lemma_views_same_plans(w1, w2, shorten, w1.len() as int);
    lemma_rebuild_is_identical(w1, shorten, first, second);
}

/// The shortened piece has strictly fewer notes than the full one in each
/// part, and every section in the same order with the same pattern and
/// dynamic.
pub proof fn lemma_piece_shortened_has_fewer_notes(full: (Part, Part), short: (Part, Part))
    requires
        piece_built(false, full.0, full.1),
        piece_built(true, short.0, short.1),
    ensures
        short.0.flattened@.len() < full.0.flattened@.len(),
        short.1.flattened@.len() < full.1.flattened@.len(),
        short.0.segments@.len() == full.0.segments@.len(),
        short.1.segments@.len() == full.1.segments@.len(),
        forall|i: int|
            #![trigger short.0.segments@[i]]
            0 <= i < short.0.segments@.len() ==> short.0.segments@[i].pattern.0@ == full.0.segments@[i].pattern.0@
                && short.0.segments@[i].dynamic == full.0.segments@[i].dynamic,
        forall|i: int|
            #![trigger short.1.segments@[i]]
            0 <= i < short.1.segments@.len() ==> short.1.segments@[i].pattern.0@ == full.1.segments@[i].pattern.0@
                && short.1.segments@[i].dynamic == full.1.segments@[i].dynamic,
{
    let wf = choose|w: Seq<Instruction>|
        #![trigger views(w)]
        {
            &&& views(w) == piece_views()
            &&& instructions_wf(w)
            &&& plans_wf(part1_plans(w, false, w.len() as int))
            &&& plans_wf(part2_plans(w, false, w.len() as int))
            &&& built_from(full.0.segments@, full.0.flattened@, part1_plans(w, false, w.len() as int))
            &&& built_from(full.1.segments@, full.1.flattened@, part2_plans(w, false, w.len() as int))
        };
    let ws = choose|w: Seq<Instruction>|
        #![trigger views(w)]
        {
            &&& views(w) == piece_views()
            &&& instructions_wf(w)
            &&& plans_wf(part1_plans(w, true, w.len() as int))
            &&& plans_wf(part2_plans(w, true, w.len() as int))
            &&& built_from(short.0.segments@, short.0.flattened@, part1_plans(w, true, w.len() as int))
            &&& built_from(short.1.segments@, short.1.flattened@, part2_plans(w, true, w.len() as int))
        };
    assert(wf.len() == views(wf).len() && ws.len() == views(ws).len());
    lemma_views_same_plans(ws, wf, true, ws.len() as int);
    lemma_piece_second_step();
    assert(views(wf)[1] == view_of(wf[1]));
    assert(both_repeat(wf[1]));
    lemma_shortened_has_fewer_notes(wf, 1, full, short);
}
/// In a well-formed part, "starts before `t`" holds of a prefix of the notes.
pub proof fn lemma_starts_before_on_prefix(part: Part, t: Rational)
    requires
        part.wf(),
        t.wf(),
    ensures
        holds_on_prefix(|n: FlattenedNote| lt(n.time, t), part.flattened@),
{
    let notes = part.flattened@;
    assert forall|i: int, j: int|
        #![trigger notes[i], notes[j]]
        0 <= i <= j < notes.len() && lt(notes[j].time, t) implies lt(notes[i].time, t) by {
        assert(notes[i].wf() && notes[j].wf());
        lemma_le_lt_trans(notes[i].time, notes[j].time, t);
    }
}

/// Windows that start at `a` and at `b`, with `a` no later than `b`, split
/// the notes no later and later respectively.
pub proof fn lemma_later_split(part: Part, a: Rational, b: Rational, s: int, t: int)
    requires
        part.wf(),
        a.wf(),
        b.wf(),
        le(a, b),
        is_split(|n: FlattenedNote| lt(n.time, a), part.flattened@, s),
        is_split(|n: FlattenedNote| lt(n.time, b), part.flattened@, t),
    ensures
        s <= t,
{
    let notes = part.flattened@;
    if t < s {
        assert(lt(notes[t].time, a));
        assert(notes[t].wf());
        lemma_lt_le_trans(notes[t].time, a, b);
        assert(!lt(notes[t].time, b));
    }
}

/// Consecutive windows see every note exactly once: the notes between the
/// splits `s <= t <= u` are those between `s` and `t` followed by those
/// between `t` and `u`.
pub proof fn lemma_windows_tile(notes: Seq<FlattenedNote>, s: int, t: int, u: int)
    requires
        0 <= s <= t <= u <= notes.len(),
    ensures
        notes.subrange(s, t) + notes.subrange(t, u) == notes.subrange(s, u),
{
    assert(notes.subrange(s, t) + notes.subrange(t, u) =~= notes.subrange(s, u));
}
} // verus!
