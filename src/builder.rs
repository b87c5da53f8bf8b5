use crate::music::{
    frac_le, lemma_frac_trans, lemma_note_end_positive, note_end, notes_wf, segments_wf, volume_of, Dynamic, FlattenedNote, Part, Pattern, Segment, MAX_PATTERN_LEN,
};
use crate::rational::{
    abs, fits_div, gcd_spec, lemma_lowest_small, lemma_small_fits, lowest_small, reduced, small,
    is_ratio, le, lemma_le_lt_trans, lemma_lt_same_denominator, lemma_ratio_transfer, lemma_sum_value,
    lt, Rational,
};
use vstd::arithmetic::div_mod::lemma_fundamental_div_mod_converse;
use vstd::prelude::*;

verus! {

/// Why a score could not be built.
#[derive(Clone, Copy, Debug, PartialEq, Eq, Structural)]
pub enum BuildError {
    /// A phase instruction pairs patterns of different lengths.
    MismatchedPatternLengths,
    /// A phase instruction spans a single note, so its speed formula divides
    /// by zero.
    ZeroPhaseDenominator,
    /// A time of the score does not fit the fraction type.
    Overflow,
}

/// What one segment is made of, with its speed as a fraction
/// `speed.0 / speed.1`.
pub struct SegmentPlan {
    pub pattern: Seq<u8>,
    pub speed: (int, int),
    pub repetitions: nat,
    pub dynamic: Dynamic,
}

/// What one note of a part is, with each fraction as a pair.
pub struct NoteModel {
    pub pitch: u8,
    pub time: (int, int),
    pub length: (int, int),
    pub volume: (int, int),
    pub segment_index: int,
    pub measure_number: int,
}

pub open spec fn plan_wf(p: SegmentPlan) -> bool {
    &&& 0 < p.pattern.len() <= MAX_PATTERN_LEN
    &&& 1 <= p.repetitions <= u32::MAX
    &&& p.speed.0 > 0
    &&& p.speed.1 > 0
}

pub open spec fn plans_wf(plans: Seq<SegmentPlan>) -> bool {
    forall|i: int| 0 <= i < plans.len() ==> #[trigger] plan_wf(plans[i])
}

/// How many note slots a segment spans.
pub open spec fn slots(p: SegmentPlan) -> int {
    (p.pattern.len() * p.repetitions) as int
}

/// Where segment `i` of a part starts: the sum of the spans
/// `slots / speed` of the segments before it.
pub open spec fn start_of(plans: Seq<SegmentPlan>, i: int) -> (int, int)
    decreases i,
{
    if i <= 0 {
        (0, 1)
    } else {
        let prev = start_of(plans, i - 1);
        let p = plans[i - 1];
        (prev.0 * p.speed.0 + slots(p) * p.speed.1 * prev.1, prev.1 * p.speed.0)
    }
}

/// Slot `k` of a segment that starts at `start`.
pub open spec fn note_model(p: SegmentPlan, start: (int, int), index: int, k: int) -> NoteModel {
    NoteModel {
        pitch: p.pattern[k % p.pattern.len() as int],
        time: (start.0 * p.speed.0 + k * p.speed.1 * start.1, start.1 * p.speed.0),
        length: (p.speed.1, p.speed.0),
        volume: volume_of(p.dynamic, k, slots(p)),
        segment_index: index,
        measure_number: k / p.pattern.len() as int,
    }
}

/// The notes a segment sounds: one per slot, none when it is silent.
pub open spec fn plan_notes(p: SegmentPlan, start: (int, int), index: int) -> Seq<NoteModel> {
    if p.dynamic == Dynamic::Silent {
        Seq::empty()
    } else {
        Seq::new(slots(p) as nat, |k: int| note_model(p, start, index, k))
    }
}

/// The notes of the first `i` segments, in order.
pub open spec fn notes_of(plans: Seq<SegmentPlan>, i: int) -> Seq<NoteModel>
    decreases i,
{
    if i <= 0 {
        Seq::empty()
    } else {
        notes_of(plans, i - 1) + plan_notes(plans[i - 1], start_of(plans, i - 1), i - 1)
    }
}

/// The cursor after `k` slots of a segment that starts at `start`.
pub open spec fn cursor_at(p: SegmentPlan, start: (int, int), k: int) -> (int, int) {
    (start.0 * p.speed.0 + k * p.speed.1 * start.1, start.1 * p.speed.0)
}

/// The step `1 / speed` and every cursor of a segment that starts at
/// `start`, in lowest terms, have parts below `SMALL`.
pub open spec fn segment_fits(p: SegmentPlan, start: (int, int)) -> bool {
    &&& lowest_small(p.speed.1, p.speed.0)
    &&& forall|k: int|
        0 <= k <= slots(p) ==> lowest_small(#[trigger] cursor_at(p, start, k).0, cursor_at(p, start, k).1)
}

/// Every segment of `plans`, placed where the ones before it end, fits.
pub open spec fn plans_fit(plans: Seq<SegmentPlan>) -> bool {
    forall|i: int| 0 <= i < plans.len() ==> #[trigger] segment_fits(plans[i], start_of(plans, i))
}

pub open spec fn note_matches(n: FlattenedNote, m: NoteModel) -> bool {
    &&& n.pitch == m.pitch
    &&& is_ratio(n.time, m.time.0, m.time.1)
    &&& is_ratio(n.length, m.length.0, m.length.1)
    &&& is_ratio(n.volume, m.volume.0, m.volume.1)
    &&& n.segment_index == m.segment_index
    &&& n.measure_number == m.measure_number
}

pub open spec fn segment_matches(s: Segment, p: SegmentPlan, start: (int, int), end: (int, int)) -> bool {
    &&& s.pattern.0@ == p.pattern
    &&& is_ratio(s.speed, p.speed.0, p.speed.1)
    &&& s.repetitions == p.repetitions
    &&& s.dynamic == p.dynamic
    &&& is_ratio(s.start_time, start.0, start.1)
    &&& is_ratio(s.end_time, end.0, end.1)
}

/// `segs` and `notes` are exactly what `plans` describe, one segment per plan.
pub open spec fn built_from(segs: Seq<Segment>, notes: Seq<FlattenedNote>, plans: Seq<SegmentPlan>) -> bool {
    &&& segs.len() == plans.len()
    &&& forall|i: int|
        0 <= i < segs.len() ==> #[trigger] segment_matches(
            segs[i],
            plans[i],
            start_of(plans, i),
            start_of(plans, i + 1),
        )
    &&& notes.len() == notes_of(plans, plans.len() as int).len()
    &&& forall|j: int|
        0 <= j < notes.len() ==> #[trigger] note_matches(notes[j], notes_of(plans, plans.len() as int)[j])
}

pub proof fn lemma_start_of_positive(plans: Seq<SegmentPlan>, i: int)
    requires
        plans_wf(plans),
        i <= plans.len(),
    ensures
        start_of(plans, i).1 > 0,
    decreases i,
{
    if i > 0 {
        lemma_start_of_positive(plans, i - 1);
        assert(plan_wf(plans[i - 1]));
        let q = start_of(plans, i - 1).1;
        let s = plans[i - 1].speed.0;
        assert(q * s > 0) by (nonlinear_arith)
            requires
                q > 0,
                s > 0,
        ;
    }
}

pub proof fn lemma_start_of_prefix(plans: Seq<SegmentPlan>, p: SegmentPlan, i: int)
    requires
        i <= plans.len(),
    ensures
        start_of(plans.push(p), i) == start_of(plans, i),
    decreases i,
{
    if i > 0 {
        lemma_start_of_prefix(plans, p, i - 1);
        assert(plans.push(p)[i - 1] == plans[i - 1]);
    }
}

pub proof fn lemma_notes_of_prefix(plans: Seq<SegmentPlan>, p: SegmentPlan, i: int)
    requires
        i <= plans.len(),
    ensures
        notes_of(plans.push(p), i) == notes_of(plans, i),
    decreases i,
{
    if i > 0 {
        lemma_notes_of_prefix(plans, p, i - 1);
        lemma_start_of_prefix(plans, p, i - 1);
        assert(plans.push(p)[i - 1] == plans[i - 1]);
    }
}

proof fn lemma_step_identity(x: int, sn: int, sd: int, q: int)
    ensures
        (x * sn + sd * (q * sn)) * (q * sn) == (x + sd * q) * ((q * sn) * sn),
{
    assert((x * sn + sd * (q * sn)) == (x + sd * q) * sn) by (nonlinear_arith);
    assert((x + sd * q) * sn * (q * sn) == (x + sd * q) * ((q * sn) * sn)) by (nonlinear_arith);
}

proof fn lemma_next_slot(p: int, sn: int, sd: int, q: int, k: int)
    ensures
        p * sn + k * sd * q + sd * q == p * sn + (k + 1) * sd * q,
{
    assert((k + 1) * sd * q == k * sd * q + sd * q) by (nonlinear_arith);
}

proof fn lemma_span_identity(p: int, q: int, sn: int, sd: int, n: int, an: int, ad: int, vn: int, vd: int)
    requires
        an * q == p * ad,
        vn * sd == sn * vd,
    ensures
        (p * sn + n * sd * q) * (ad * vn) == (an * vn + n * vd * ad) * (q * sn),
{
    assert((p * sn + n * sd * q) * (ad * vn) == (p * sn) * (ad * vn) + (n * sd * q) * (ad * vn))
        by (nonlinear_arith);
    assert((p * sn) * (ad * vn) == (p * ad) * (sn * vn)) by (nonlinear_arith);
    assert((n * sd * q) * (ad * vn) == (n * q * ad) * (vn * sd)) by (nonlinear_arith);
    assert((an * vn + n * vd * ad) * (q * sn) == (an * vn) * (q * sn) + (n * vd * ad) * (q * sn))
        by (nonlinear_arith);
    assert((an * vn) * (q * sn) == (an * q) * (sn * vn)) by (nonlinear_arith);
    assert((n * vd * ad) * (q * sn) == (n * q * ad) * (sn * vd)) by (nonlinear_arith);
}

/// A cursor lies at or before the end of a note that starts at it.
proof fn lemma_cursor_below_end(c: Rational, s: Rational)
    requires
        c.denom > 0,
        s.denom > 0,
        s.numer > 0,
    ensures
        frac_le(
            (c.numer as int, c.denom as int),
            (c.numer * s.denom + s.numer * c.denom, c.denom * s.denom),
        ),
{
    let (cn, cd, sn, sd) = (c.numer as int, c.denom as int, s.numer as int, s.denom as int);
    assert(cn * (cd * sd) <= (cn * sd + sn * cd) * cd) by (nonlinear_arith)
        requires
            cd > 0,
            sn > 0,
    ;
}

/// A value and a fraction it stands for are at most one another.
proof fn lemma_ratio_equals_frac(x: Rational, f: (int, int))
    requires
        is_ratio(x, f.0, f.1),
    ensures
        frac_le(f, (x.numer as int, x.denom as int)),
        frac_le((x.numer as int, x.denom as int), f),
{
    assert(f.0 * x.denom == x.numer * f.1) by (nonlinear_arith)
        requires
            x.numer * f.1 == f.0 * x.denom,
    ;
}

/// A part under construction: its segments and notes so far, and the time
/// where the next segment starts.
pub struct PartBuilder {
    pub segments: Vec<Segment>,
    pub flattened: Vec<FlattenedNote>,
    pub current_time: Rational,
}

impl PartBuilder {
    pub open spec fn wf(self) -> bool {
        &&& segments_wf(self.segments@)
        &&& notes_wf(self.flattened@, self.segments@.len() as int)
        &&& self.current_time.wf()
        &&& reduced(self.current_time)
        &&& self.segments@.len() == 0 ==> self.current_time.numer == 0
        &&& self.segments@.len() > 0 ==> self.segments@.last().end_time == self.current_time
        &&& forall|i: int|
            0 <= i < self.flattened@.len() ==> le(#[trigger] self.flattened@[i].time, self.current_time)
        &&& forall|i: int|
            0 <= i < self.flattened@.len() ==> frac_le(
                #[trigger] note_end(self.flattened@[i]),
                (self.current_time.numer as int, self.current_time.denom as int),
            )
    }

    /// The builder holds exactly what `plans` describe.
    pub open spec fn holds(self, plans: Seq<SegmentPlan>) -> bool {
        &&& plans_wf(plans)
        &&& built_from(self.segments@, self.flattened@, plans)
        &&& is_ratio(self.current_time, start_of(plans, plans.len() as int).0, start_of(plans, plans.len() as int).1)
    }

    pub fn new() -> (r: PartBuilder)
        ensures
            r.wf(),
            r.holds(Seq::empty()),
    {
        proof {
            assert(gcd_spec(0, 1) == gcd_spec(1, 0));
            assert(gcd_spec(1, 0) == 1);
        }
        PartBuilder { segments: Vec::new(), flattened: Vec::new(), current_time: Rational::zero() }
    }

    /// Appends a segment that starts where the previous one ended, and its
    /// notes: one per slot at `1 / speed` apart, unless the segment is silent.
    /// `speed_plan` is the fraction that `speed` stands for. On `Err` the
    /// builder keeps its segments and earlier notes but may hold some notes
    /// of the unfinished segment, and is no longer well formed.
    pub fn add_segment(
        &mut self,
        pattern: Pattern,
        speed: Rational,
        repetitions: u32,
        dynamic: Dynamic,
        Ghost(plans): Ghost<Seq<SegmentPlan>>,
        Ghost(speed_plan): Ghost<(int, int)>,
    ) -> (r: Result<(), BuildError>)
        requires
            old(self).wf(),
            old(self).holds(plans),
            0 < pattern.0@.len() <= MAX_PATTERN_LEN,
            repetitions >= 1,
            speed.wf(),
            is_ratio(speed, speed_plan.0, speed_plan.1),
            speed_plan.0 > 0,
            speed_plan.1 > 0,
        ensures
            r is Ok ==> final(self).wf() && final(self).holds(
                plans.push(
                    SegmentPlan {
                        pattern: pattern.0@,
                        speed: speed_plan,
                        repetitions: repetitions as nat,
                        dynamic,
                    },
                ),
            ),
            r matches Err(e) ==> e == BuildError::Overflow,
            r is Ok ==> final(self).segments@.len() == old(self).segments@.len() + 1 && final(self).flattened@.len()
                >= old(self).flattened@.len() && (forall|i: int|
                0 <= i < old(self).segments@.len() ==> #[trigger] final(self).segments@[i] == old(self).segments@[i])
                && forall|i: int|
                0 <= i < old(self).flattened@.len() ==> #[trigger] final(self).flattened@[i]
                    == old(self).flattened@[i],
            r is Err ==> final(self).segments@ == old(self).segments@ && final(self).flattened@.len()
                >= old(self).flattened@.len() && forall|i: int|
                0 <= i < old(self).flattened@.len() ==> #[trigger] final(self).flattened@[i]
                    == old(self).flattened@[i],
            segment_fits(
                SegmentPlan { pattern: pattern.0@, speed: speed_plan, repetitions: repetitions as nat, dynamic },
                start_of(plans, plans.len() as int),
            ) ==> r is Ok,
    {
        let ghost plan = SegmentPlan {
            pattern: pattern.0@,
            speed: speed_plan,
            repetitions: repetitions as nat,
            dynamic,
        };
        let ghost plans2 = plans.push(plan);
        let ghost n_plans = plans.len() as int;
        let ghost start = start_of(plans, n_plans);
        let ghost sp_p = start.0;
        let ghost sp_q = start.1;
        let ghost sn = speed_plan.0;
        let ghost sd = speed_plan.1;
        let ghost old_notes = self.flattened@;
        let ghost old_segments = self.segments@;
        proof {
            lemma_start_of_positive(plans, n_plans);
        }
        let segment_start = self.current_time;
        let segment_index = self.segments.len();
        let len = pattern.0.len();
        assert((len as int) * (repetitions as int) < i64::MAX) by (nonlinear_arith)
            requires
                len <= 0x7fff_ffff,
                repetitions <= 0xffff_ffff,
        ;
        let total: i64 = (len as i64) * (repetitions as i64);
        assert(speed.numer > 0) by (nonlinear_arith)
            requires
                speed.numer * speed_plan.1 == speed_plan.0 * speed.denom,
                speed.denom > 0,
                speed_plan.0 > 0,
                speed_plan.1 > 0,
        ;
        let ghost fits = segment_fits(plan, start);
        let one = Rational::one();
        proof {
            assert(abs(one.numer * speed.denom) <= i64::MAX);
            assert(abs(one.denom * speed.numer) <= i64::MAX);
            assert(fits_div(one, speed));
        }
        let step = match one.checked_div(&speed) {
            Some(s) => s,
            None => return Err(BuildError::Overflow),
        };
        proof {
            assert(speed.denom * sn == sd * speed.numer) by (nonlinear_arith)
                requires
                    speed.numer * sd == sn * speed.denom,
            ;
            lemma_ratio_transfer(step, speed.denom as int, speed.numer as int, sd, sn);
            if fits {
                lemma_lowest_small(step, sd, sn);
            }
            assert(sp_p * (sp_q * sn) == (sp_p * sn + 0 * sd * sp_q) * sp_q) by (nonlinear_arith);
            lemma_ratio_transfer(segment_start, sp_p, sp_q, sp_p * sn + 0 * sd * sp_q, sp_q * sn);
            assert(sp_q * sn > 0) by (nonlinear_arith)
                requires
                    sp_q > 0,
                    sn > 0,
            ;
            assert(sd * sp_q > 0) by (nonlinear_arith)
                requires
                    sp_q > 0,
                    sd > 0,
            ;
            assert(step.numer > 0) by (nonlinear_arith)
                requires
                    step.numer * sn == sd * step.denom,
                    step.denom > 0,
                    sn > 0,
                    sd > 0,
            ;
        }
        let mut k: i64 = 0;
        let mut j: usize = 0;
        let mut rep: u32 = 0;
        while k < total
            invariant
                self.segments@ == old_segments,
                segments_wf(old_segments),
                notes_wf(old_notes, old_segments.len() as int),
                segment_index == old_segments.len(),
                pattern.0@ == plan.pattern,
                plan.speed == speed_plan,
                plan.dynamic == dynamic,
                plan.repetitions == repetitions,
                sn == speed_plan.0,
                sd == speed_plan.1,
                sp_p == start.0,
                sp_q == start.1,
                len == pattern.0@.len(),
                0 < len <= MAX_PATTERN_LEN,
                total == len * repetitions,
                0 <= k <= total,
                k == rep * len + j,
                j < len,
                step.wf(),
                fits == segment_fits(plan, start),
                plan == (SegmentPlan {
                    pattern: pattern.0@,
                    speed: speed_plan,
                    repetitions: repetitions as nat,
                    dynamic,
                }),
                start == start_of(plans, plans.len() as int),
                old_notes == old(self).flattened@,
                old_segments == old(self).segments@,
                fits ==> small(step),
                reduced(self.current_time),
                step.numer > 0,
                is_ratio(step, sd, sn),
                sn > 0,
                sd > 0,
                sp_q > 0,
                sp_q * sn > 0,
                sd * sp_q > 0,
                self.current_time.wf(),
                is_ratio(self.current_time, sp_p * sn + k * sd * sp_q, sp_q * sn),
                self.flattened@.len() == old_notes.len() + (if dynamic == Dynamic::Silent {
                    0
                } else {
                    k as int
                }),
                forall|i: int| 0 <= i < old_notes.len() ==> #[trigger] self.flattened@[i] == old_notes[i],
                forall|m: int|
                    0 <= m < self.flattened@.len() - old_notes.len() ==> #[trigger] note_matches(
                        self.flattened@[old_notes.len() + m],
                        note_model(plan, start, segment_index as int, m),
                    ),
                forall|i: int|
                    0 <= i < self.flattened@.len() ==> #[trigger] self.flattened@[i].wf()
                        && self.flattened@[i].segment_index <= segment_index,
                crate::music::notes_sorted(self.flattened@),
                forall|i: int|
                    0 <= i < self.flattened@.len() ==> le(#[trigger] self.flattened@[i].time, self.current_time),
                crate::music::ends_sorted(self.flattened@),
                forall|i: int|
                    0 <= i < self.flattened@.len() ==> frac_le(
                        #[trigger] note_end(self.flattened@[i]),
                        (self.current_time.numer as int, self.current_time.denom as int),
                    ),
            decreases total - k,
        {
            proof {
                lemma_fundamental_div_mod_converse(k as int, len as int, rep as int, j as int);
            }
            let ghost prev = self.current_time;
            proof {
                if fits {
                    assert(slots(plan) == total);
                    let c = cursor_at(plan, start, k as int);
                    assert(lowest_small(c.0, c.1));
                    lemma_lowest_small(prev, c.0, c.1);
                    lemma_small_fits(prev, step);
                }
            }
            let next = match self.current_time.checked_add(&step) {
                Some(t) => t,
                None => return Err(BuildError::Overflow),
            };
            proof {
                let x = sp_p * sn + k * sd * sp_q;
                lemma_sum_value(prev, step, next, x, sp_q * sn, sd, sn);
                lemma_step_identity(x, sn, sd, sp_q);
                assert((sp_q * sn) * sn > 0) by (nonlinear_arith)
                    requires
                        sp_q * sn > 0,
                        sn > 0,
                ;
                lemma_ratio_transfer(
                    next,
                    x * sn + sd * (sp_q * sn),
                    (sp_q * sn) * sn,
                    x + sd * sp_q,
                    sp_q * sn,
                );
                lemma_next_slot(sp_p, sn, sd, sp_q, k as int);
                lemma_lt_same_denominator(prev, next, x, x + sd * sp_q, sp_q * sn);
                lemma_cursor_below_end(prev, step);
            }
            if dynamic != Dynamic::Silent {
                let volume = dynamic.interpolate(Rational { numer: k, denom: total });
                let note = FlattenedNote {
                    pitch: pattern.0[j],
                    time: self.current_time,
                    length: step,
                    volume,
                    segment_index,
                    measure_number: rep as usize,
                };
                let ghost before = self.flattened@;
                self.flattened.push(note);
                proof {
                    assert forall|i: int| 0 <= i < self.flattened@.len() implies #[trigger] self.flattened@[i].wf()
                        && self.flattened@[i].segment_index <= segment_index by {
                        if i < before.len() {
                            assert(self.flattened@[i] == before[i]);
                        }
                    }
                    let nm = note_model(plan, start, segment_index as int, k as int);
                    assert(note.pitch == nm.pitch);
                    assert(is_ratio(note.time, nm.time.0, nm.time.1));
                    assert(is_ratio(note.length, nm.length.0, nm.length.1));
                    assert(slots(plan) == total);
                    assert(volume.numer == nm.volume.0 && volume.denom == nm.volume.1);
                    assert(is_ratio(note.volume, nm.volume.0, nm.volume.1));
                    assert(note.measure_number == nm.measure_number);
                    assert(note_matches(note, nm));
                    let cur = (prev.numer as int, prev.denom as int);
                    assert forall|i: int, i2: int|
                        #![trigger self.flattened@[i], self.flattened@[i2]]
                        0 <= i <= i2 < self.flattened@.len() implies le(
                            self.flattened@[i].time,
                            self.flattened@[i2].time,
                        ) && frac_le(note_end(self.flattened@[i]), note_end(self.flattened@[i2])) by {
                        if i2 < before.len() {
                            assert(self.flattened@[i] == before[i]);
                            assert(self.flattened@[i2] == before[i2]);
                        } else if i < before.len() {
                            assert(self.flattened@[i] == before[i]);
                            assert(before[i].wf());
                            assert(le(before[i].time, self.current_time));
                            assert(frac_le(note_end(before[i]), cur));
                            lemma_note_end_positive(before[i]);
                            lemma_note_end_positive(note);
                            lemma_frac_trans(note_end(before[i]), cur, note_end(note));
                        } else {
                            assert(frac_le(note_end(note), note_end(note)));
                        }
                    }
                    assert forall|m: int|
                        0 <= m < self.flattened@.len() - old_notes.len() implies #[trigger] note_matches(
                            self.flattened@[old_notes.len() + m],
                            note_model(plan, start, segment_index as int, m),
                        ) by {
                        if m < before.len() - old_notes.len() {
                            assert(self.flattened@[old_notes.len() + m] == before[old_notes.len() + m]);
                        }
                    }
                    assert forall|i: int| 0 <= i < self.flattened@.len() implies frac_le(
                        #[trigger] note_end(self.flattened@[i]),
                        cur,
                    ) || i == self.flattened@.len() - 1 by {
                        if i < before.len() {
                            assert(self.flattened@[i] == before[i]);
                        }
                    }
                }
            }
            proof {
                let cur = (prev.numer as int, prev.denom as int);
                let nxt = (next.numer as int, next.denom as int);
                assert forall|i: int| 0 <= i < self.flattened@.len() implies le(
                    #[trigger] self.flattened@[i].time,
                    next,
                ) && frac_le(note_end(self.flattened@[i]), nxt) by {
                    assert(self.flattened@[i].wf());
                    lemma_le_lt_trans(self.flattened@[i].time, prev, next);
                    if dynamic != Dynamic::Silent && i == self.flattened@.len() - 1 {
                        lemma_ratio_equals_frac(next, note_end(self.flattened@[i]));
                    } else {
                        assert(frac_le(note_end(self.flattened@[i]), cur));
                        assert(frac_le(cur, nxt));
                        lemma_note_end_positive(self.flattened@[i]);
                        lemma_frac_trans(note_end(self.flattened@[i]), cur, nxt);
                    }
                }
            }
            self.current_time = next;
            k = k + 1;
            if j + 1 == len {
                assert(rep + 1 <= repetitions) by (nonlinear_arith)
                    requires
                        k <= total,
                        k == rep * len + j + 1,
                        j + 1 == len,
                        total == len * repetitions,
                        len > 0,
                ;
                j = 0;
                rep = rep + 1;
            } else {
                j = j + 1;
            }
            proof {
                if j == 0 {
                    assert(k == rep * len + j) by (nonlinear_arith)
                        requires
                            k == (rep - 1) * len + (len - 1) + 1,
                            j == 0,
                    ;
                }
            }
        }
        let segment = Segment {
            pattern,
            speed,
            repetitions,
            dynamic,
            start_time: segment_start,
            end_time: self.current_time,
        };
        proof {
            lemma_start_of_prefix(plans, plan, n_plans);
            lemma_notes_of_prefix(plans, plan, n_plans);
            assert(plans2[n_plans] == plan);
            assert(start_of(plans2, n_plans + 1) == (sp_p * sn + slots(plan) * sd * sp_q, sp_q * sn));
            assert(slots(plan) == total);
            lemma_span_identity(
                sp_p,
                sp_q,
                sn,
                sd,
                total as int,
                segment_start.numer as int,
                segment_start.denom as int,
                speed.numer as int,
                speed.denom as int,
            );
            lemma_ratio_transfer(
                segment.end_time,
                sp_p * sn + total * sd * sp_q,
                sp_q * sn,
                segment_start.numer * speed.numer + total * speed.denom * segment_start.denom,
                segment_start.denom * speed.numer,
            );
            assert(total > 0) by (nonlinear_arith)
                requires
                    total == len * repetitions,
                    len > 0,
                    repetitions >= 1,
            ;
            assert(total * sd * sp_q > 0) by (nonlinear_arith)
                requires
                    total > 0,
                    sd * sp_q > 0,
            ;
            assert(0 * sd * sp_q == 0) by (nonlinear_arith);
            assert(sp_p * sn + 0 * sd * sp_q < sp_p * sn + total * sd * sp_q);
            lemma_lt_same_denominator(
                segment_start,
                segment.end_time,
                sp_p * sn + 0 * sd * sp_q,
                sp_p * sn + total * sd * sp_q,
                sp_q * sn,
            );
            assert(segment.slot_count() == total);
            assert(segment.wf());
        }
        self.segments.push(segment);
        proof {
            let segs = self.segments@;
            let notes = self.flattened@;
            assert(segs.len() == n_plans + 1);
            assert forall|i: int| 0 <= i < segs.len() implies #[trigger] segs[i].wf() by {
                if i < n_plans {
                    assert(segs[i] == old_segments[i]);
                }
            }
            assert forall|i: int| 0 <= i < segs.len() - 1 implies #[trigger] segs[i].end_time
                == segs[i + 1].start_time by {
                assert(segs[i] == old_segments[i]);
                if i + 1 < n_plans {
                    assert(segs[i + 1] == old_segments[i + 1]);
                }
            }
            assert forall|i: int|
                0 <= i < segs.len() implies #[trigger] segment_matches(
                segs[i],
                plans2[i],
                start_of(plans2, i),
                start_of(plans2, i + 1),
            ) by {
                if i < n_plans {
                    assert(segs[i] == old_segments[i]);
                    assert(plans2[i] == plans[i]);
                    lemma_start_of_prefix(plans, plan, i);
                    lemma_start_of_prefix(plans, plan, i + 1);
                }
            }
            let all = notes_of(plans2, n_plans + 1);
            let added = plan_notes(plan, start, n_plans);
            assert(all == notes_of(plans, n_plans) + added);
            assert forall|j2: int| 0 <= j2 < notes.len() implies #[trigger] note_matches(
                notes[j2],
                all[j2],
            ) by {
                if j2 < old_notes.len() {
                    assert(notes[j2] == old_notes[j2]);
                } else {
                    let m = j2 - old_notes.len();
                    assert(notes[old_notes.len() + m] == notes[j2]);
                    assert(added[m] == note_model(plan, start, n_plans, m));
                }
            }
            assert forall|i: int| 0 <= i < plans2.len() implies #[trigger] plan_wf(plans2[i]) by {
                if i < n_plans {
                    assert(plans2[i] == plans[i]);
                }
            }
        }
        Ok(())
    }

    pub fn into_part(self) -> (r: Part)
        requires
            self.wf(),
        ensures
            r.wf(),
            r.segments@ == self.segments@,
            r.flattened@ == self.flattened@,
    {
        Part { segments: self.segments, flattened: self.flattened }
    }
}

} // verus!
