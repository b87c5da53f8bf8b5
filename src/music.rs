use crate::rational::{
    abs, fits_add, fits_div, lemma_lowest_small, lemma_small_fits, lowest_small, reduced, small, SMALL,
    is_ratio, le, lemma_le_by_ratio, lemma_le_lt_trans, lemma_le_trans, lemma_lt_le_trans, lemma_ratio_transfer,
    lemma_lt_iff_ratio, lemma_same_ratio, lemma_sum_value, lt, Rational,
};
use vstd::arithmetic::div_mod::{lemma_fundamental_div_mod, lemma_fundamental_div_mod_converse};
use vstd::prelude::*;
use vstd::slice::slice_subrange;

verus! {

/// The longest pattern the score accepts, so that note counts fit in `i64`.
pub const MAX_PATTERN_LEN: usize = 0x7fff_ffff;

/// One melodic cell: the pitches it plays, in order.
#[derive(Clone, Debug)]
pub struct Pattern(pub Vec<u8>);

/// The volume shape of a segment.
#[derive(Clone, Copy, Debug, PartialEq, Eq, Structural)]
pub enum Dynamic {
    Crescendo,
    Decrescendo,
    Flat,
    Silent,
}

/// A pattern played `repetitions` times at `speed` notes per time unit,
/// placed on its part's timeline from `start_time` to `end_time`.
#[derive(Clone, Debug)]
pub struct Segment {
    pub pattern: Pattern,
    pub speed: Rational,
    pub repetitions: u32,
    pub dynamic: Dynamic,
    pub start_time: Rational,
    pub end_time: Rational,
}

/// One sounding note of a part.
#[derive(Clone, Copy, Debug)]
pub struct FlattenedNote {
    pub pitch: u8,
    pub time: Rational,
    pub length: Rational,
    pub volume: Rational,
    pub segment_index: usize,
    pub measure_number: usize,
}

/// One repetition of a segment's pattern.
#[derive(Clone, Copy, Debug)]
pub struct Measure {
    pub start_time: Rational,
    pub end_time: Rational,
    pub number: usize,
}

/// The finished score of one performer.
#[derive(Clone, Debug)]
pub struct Part {
    pub segments: Vec<Segment>,
    pub flattened: Vec<FlattenedNote>,
}

/// Volume at `progress` through a shape, `progress` being a fraction in
/// `[0, 1]`.
pub open spec fn volume_of(d: Dynamic, k: int, n: int) -> (int, int) {
    match d {
        Dynamic::Crescendo => (k, n),
        Dynamic::Decrescendo => (n - k, n),
        Dynamic::Flat => (1, 1),
        Dynamic::Silent => (0, 1),
    }
}

impl Dynamic {
    /// The volume at `progress` through the segment: rising from 0 to 1,
    /// falling from 1 to 0, always 1, or always 0.
    pub fn interpolate(&self, progress: Rational) -> (r: Rational)
        requires
            progress.wf(),
            0 <= progress.numer <= progress.denom,
        ensures
            r.wf(),
            0 <= r.numer <= r.denom,
            r.numer == volume_of(*self, progress.numer as int, progress.denom as int).0,
            r.denom == volume_of(*self, progress.numer as int, progress.denom as int).1,
    {
        match self {
            Dynamic::Crescendo => progress,
            Dynamic::Decrescendo => Rational { numer: progress.denom - progress.numer, denom: progress.denom },
            Dynamic::Flat => Rational::one(),
            Dynamic::Silent => Rational::zero(),
        }
    }
}

impl Segment {
    /// How many note slots the segment spans.
    pub open spec fn slot_count(self) -> int {
        self.pattern.0@.len() * self.repetitions
    }

    /// `end_time - start_time == slot_count / speed`, exactly.
    pub open spec fn span_exact(self) -> bool {
        is_ratio(
            self.end_time,
            self.start_time.numer * self.speed.numer + self.slot_count() * self.speed.denom
                * self.start_time.denom,
            self.start_time.denom * self.speed.numer,
        )
    }

    pub open spec fn wf(self) -> bool {
        &&& 0 < self.pattern.0@.len() <= MAX_PATTERN_LEN
        &&& self.repetitions >= 1
        &&& self.speed.wf()
        &&& self.speed.numer > 0
        &&& self.start_time.wf()
        &&& self.end_time.wf()
        &&& lt(self.start_time, self.end_time)
        &&& self.span_exact()
    }
}

impl FlattenedNote {
    pub open spec fn wf(self) -> bool {
        self.time.wf() && self.length.wf() && self.volume.wf()
    }
}

/// Segments that each hold, start at zero and follow one another without
/// gap or overlap.
pub open spec fn segments_wf(segs: Seq<Segment>) -> bool {
    &&& forall|i: int| 0 <= i < segs.len() ==> #[trigger] segs[i].wf()
    &&& segs.len() > 0 ==> segs[0].start_time.numer == 0
    &&& forall|i: int| 0 <= i < segs.len() - 1 ==> #[trigger] segs[i].end_time == segs[i + 1].start_time
}

/// Notes in order of time and of end, each pointing at an existing segment.
pub open spec fn notes_wf(notes: Seq<FlattenedNote>, n_segments: int) -> bool {
    &&& forall|i: int|
        0 <= i < notes.len() ==> #[trigger] notes[i].wf() && notes[i].segment_index < n_segments
    &&& notes_sorted(notes)
    &&& ends_sorted(notes)
}

/// Where note `n` stops sounding, as a fraction.
pub open spec fn note_end(n: FlattenedNote) -> (int, int) {
    (n.time.numer * n.length.denom + n.length.numer * n.time.denom, n.time.denom * n.length.denom)
}

/// The fraction `a` is at most the fraction `b` (for positive denominators).
pub open spec fn frac_le(a: (int, int), b: (int, int)) -> bool {
    a.0 * b.1 <= b.0 * a.1
}

/// The fraction `a` is smaller than the fraction `b` (for positive
/// denominators).
pub open spec fn frac_lt(a: (int, int), b: (int, int)) -> bool {
    a.0 * b.1 < b.0 * a.1
}

/// Every note's end, `time + length`, can be computed within `i64`.
pub open spec fn ends_fit(notes: Seq<FlattenedNote>) -> bool {
    forall|i: int| 0 <= i < notes.len() ==> fits_add(#[trigger] notes[i].time, notes[i].length)
}

/// The ends of `notes` never decrease.
pub open spec fn ends_sorted(notes: Seq<FlattenedNote>) -> bool {
    forall|i: int, j: int|
        #![trigger notes[i], notes[j]]
        0 <= i <= j < notes.len() ==> frac_le(note_end(notes[i]), note_end(notes[j]))
}

pub proof fn lemma_note_end_positive(n: FlattenedNote)
    requires
        n.wf(),
    ensures
        note_end(n).1 > 0,
{
    assert(n.time.denom * n.length.denom > 0) by (nonlinear_arith)
        requires
            n.time.denom > 0,
            n.length.denom > 0,
    ;
}

pub proof fn lemma_frac_trans(a: (int, int), b: (int, int), c: (int, int))
    requires
        a.1 > 0,
        b.1 > 0,
        c.1 > 0,
        frac_le(a, b),
        frac_le(b, c) || frac_lt(b, c),
    ensures
        frac_le(a, c),
        frac_lt(b, c) ==> frac_lt(a, c),
{
    let (an, ad, bn, bd, cn, cd) = (a.0, a.1, b.0, b.1, c.0, c.1);
    if frac_lt(b, c) {
        assert(an * cd * bd < cn * ad * bd) by (nonlinear_arith)
            requires
                an * bd <= bn * ad,
                bn * cd < cn * bd,
                ad > 0,
                cd > 0,
        ;
        assert(an * cd < cn * ad) by (nonlinear_arith)
            requires
                an * cd * bd < cn * ad * bd,
                bd > 0,
        ;
    } else {
        assert(an * cd * bd <= cn * ad * bd) by (nonlinear_arith)
            requires
                an * bd <= bn * ad,
                bn * cd <= cn * bd,
                ad > 0,
                cd > 0,
        ;
        assert(an * cd <= cn * ad) by (nonlinear_arith)
            requires
                an * cd * bd <= cn * ad * bd,
                bd > 0,
        ;
    }
}

pub proof fn lemma_frac_trans_lt(a: (int, int), b: (int, int), c: (int, int))
    requires
        a.1 > 0,
        b.1 > 0,
        c.1 > 0,
        frac_lt(a, b),
        frac_le(b, c),
    ensures
        frac_lt(a, c),
{
    let (an, ad, bn, bd, cn, cd) = (a.0, a.1, b.0, b.1, c.0, c.1);
    assert(an * cd * bd < cn * ad * bd) by (nonlinear_arith)
        requires
            an * bd < bn * ad,
            bn * cd <= cn * bd,
            ad > 0,
            cd > 0,
    ;
    assert(an * cd < cn * ad) by (nonlinear_arith)
        requires
            an * cd * bd < cn * ad * bd,
            bd > 0,
    ;
}

/// The times of `notes` never decrease.
pub open spec fn notes_sorted(notes: Seq<FlattenedNote>) -> bool {
    forall|i: int, j: int|
        #![trigger notes[i], notes[j]]
        0 <= i <= j < notes.len() ==> le(notes[i].time, notes[j].time)
}


/// Along well-formed segments, starts and ends only grow, and each segment
/// ends no later than any later one starts.
pub proof fn lemma_segment_order(segs: Seq<Segment>, i: int, j: int)
    requires
        segments_wf(segs),
        0 <= i <= j < segs.len(),
    ensures
        le(segs[i].start_time, segs[j].start_time),
        le(segs[i].end_time, segs[j].end_time),
        i < j ==> le(segs[i].end_time, segs[j].start_time),
    decreases j - i,
{
    assert(segs[i].wf());
    assert(segs[j].wf());
    if i < j {
        lemma_segment_order(segs, i, j - 1);
        assert(segs[j - 1].wf());
        assert(segs[j - 1].end_time == segs[j].start_time);
        if i < j - 1 {
            lemma_le_trans(segs[i].end_time, segs[j - 1].start_time, segs[j - 1].end_time);
            lemma_le_trans(segs[i].end_time, segs[j - 1].end_time, segs[j].start_time);
        }
        lemma_le_trans(segs[i].start_time, segs[j - 1].start_time, segs[j - 1].end_time);
        lemma_le_trans(segs[i].start_time, segs[j - 1].end_time, segs[j].start_time);
        lemma_le_trans(segs[i].end_time, segs[j].start_time, segs[j].end_time);
    }
}

impl Part {
    pub open spec fn wf(self) -> bool {
        segments_wf(self.segments@) && notes_wf(self.flattened@, self.segments@.len() as int)
    }

    /// The segment sounding at `time`: the one whose `[start_time, end_time)`
    /// holds it, or the last one when `time` is exactly where the part ends.
    /// `None` when the part is empty or `time` lies before its start or after
    /// its end.
    pub fn find_segment_for_time(&self, time: Rational) -> (r: Option<usize>)
        requires
            self.wf(),
            time.wf(),
        ensures
            r matches Some(i) ==> {
                &&& i < self.segments@.len()
                &&& le(self.segments@[i as int].start_time, time)
                &&& lt(time, self.segments@[i as int].end_time) || (i == self.segments@.len() - 1 && le(
                    time,
                    self.segments@[i as int].end_time,
                ))
            },
            r is None <==> (self.segments@.len() == 0 || lt(time, self.segments@[0].start_time) || lt(
                self.segments@.last().end_time,
                time,
            )),
    {
        let segs = &self.segments;
        let len = segs.len();
        let mut lo: usize = 0;
        let mut hi: usize = len;
        while lo < hi
            invariant
                segs@ == self.segments@,
                segments_wf(segs@),
                time.wf(),
                len == segs@.len(),
                0 <= lo <= hi <= len,
                forall|m: int| 0 <= m < lo ==> le(#[trigger] segs@[m].end_time, time),
                forall|m: int| hi <= m < len ==> lt(time, #[trigger] segs@[m].end_time),
            decreases hi - lo,
        {
            let mid = lo + (hi - lo) / 2;
            assert(segs@[mid as int].wf());
            if segs[mid].end_time.at_most(&time) {
                assert forall|m: int| 0 <= m < mid + 1 implies le(#[trigger] segs@[m].end_time, time) by {
                    lemma_segment_order(segs@, m, mid as int);
                    assert(segs@[m].wf());
                    lemma_le_trans(segs@[m].end_time, segs@[mid as int].end_time, time);
                }
                lo = mid + 1;
            } else {
                assert forall|m: int| mid <= m < len implies lt(time, #[trigger] segs@[m].end_time) by {
                    lemma_segment_order(segs@, mid as int, m);
                    assert(segs@[m].wf());
                    lemma_lt_le_trans(time, segs@[mid as int].end_time, segs@[m].end_time);
                }
                hi = mid;
            }
        }
        if lo == len {
            proof {
                if len > 0 {
                    assert(segs@[len - 1].wf());
                }
            }
            if len > 0 && segs[len - 1].end_time.same_value(&time) {
                proof {
                    let last = segs@[len - 1];
                    assert(le(last.end_time, time));
                    lemma_le_trans(last.start_time, last.end_time, time);
                    lemma_segment_order(segs@, 0, len - 1);
                    assert(segs@[0].wf());
                    lemma_le_trans(segs@[0].start_time, last.start_time, time);
                }
                Some(len - 1)
            } else {
                None
            }
        } else {
            proof {
                assert(segs@[lo as int].wf());
                assert(segs@[0].wf());
                assert(segs@.last().wf());
                lemma_segment_order(segs@, lo as int, len - 1);
                lemma_lt_le_trans(time, segs@[lo as int].end_time, segs@.last().end_time);
                if lo > 0 {
                    assert(segs@[lo - 1].end_time == segs@[lo as int].start_time);
                    lemma_segment_order(segs@, 0, lo as int);
                    lemma_le_trans(segs@[0].start_time, segs@[lo as int].start_time, time);
                }
            }
            if lo > 0 || segs[0].start_time.at_most(&time) {
                Some(lo)
            } else {
                None
            }
        }
    }
}

/// `pred` can be called on every note of `notes`.
pub open spec fn callable<F: Fn(&FlattenedNote) -> bool>(pred: F, notes: Seq<FlattenedNote>) -> bool {
    forall|i: int| 0 <= i < notes.len() ==> #[trigger] pred.requires((&notes[i],))
}

/// Whatever `pred` returns for a note is `p` of that note.
pub open spec fn decides<F: Fn(&FlattenedNote) -> bool>(pred: F, p: spec_fn(FlattenedNote) -> bool) -> bool {
    forall|n: FlattenedNote, b: bool| #[trigger] pred.ensures((&n,), b) ==> b == p(n)
}

/// `p` holds of a prefix of `notes` and of nothing after it.
pub open spec fn holds_on_prefix(p: spec_fn(FlattenedNote) -> bool, notes: Seq<FlattenedNote>) -> bool {
    forall|i: int, j: int|
        #![trigger notes[i], notes[j]]
        0 <= i <= j < notes.len() && p(notes[j]) ==> p(notes[i])
}

/// `p` holds of the notes before `s` and of none from `s` on.
pub open spec fn is_split(p: spec_fn(FlattenedNote) -> bool, notes: Seq<FlattenedNote>, s: int) -> bool {
    &&& 0 <= s <= notes.len()
    &&& forall|i: int| 0 <= i < s ==> p(#[trigger] notes[i])
    &&& forall|i: int| s <= i < notes.len() ==> !p(#[trigger] notes[i])
}

/// `pred` returned true for the note before `s`, and false for the note at
/// `s`, where those notes exist.
pub open spec fn seen_split<F: Fn(&FlattenedNote) -> bool>(pred: F, notes: Seq<FlattenedNote>, s: int) -> bool {
    &&& 0 <= s <= notes.len()
    &&& s > 0 ==> pred.ensures((&notes[s - 1],), true)
    &&& s < notes.len() ==> pred.ensures((&notes[s],), false)
}

/// Where `pred` was seen to stop holding, every predicate that decides it
/// and holds of a prefix stops holding.
pub proof fn lemma_seen_split<F: Fn(&FlattenedNote) -> bool>(
    pred: F,
    notes: Seq<FlattenedNote>,
    s: int,
    p: spec_fn(FlattenedNote) -> bool,
)
    requires
        seen_split(pred, notes, s),
        decides(pred, p),
        holds_on_prefix(p, notes),
    ensures
        is_split(p, notes, s),
{
    if s > 0 {
        assert(p(notes[s - 1]));
    }
    if s < notes.len() {
        assert(!p(notes[s]));
    }
    assert forall|i: int| 0 <= i < s implies p(#[trigger] notes[i]) by {
        assert(p(notes[s - 1]));
    }
    assert forall|i: int| s <= i < notes.len() implies !p(#[trigger] notes[i]) by {
        if p(notes[i]) {
            assert(p(notes[s]));
        }
    }
}

/// A predicate splits a sequence at one place at most.
pub proof fn lemma_split_unique(p: spec_fn(FlattenedNote) -> bool, notes: Seq<FlattenedNote>, s: int, t: int)
    requires
        is_split(p, notes, s),
        is_split(p, notes, t),
    ensures
        s == t,
{
    if s < t {
        assert(p(notes[s]));
    }
    if t < s {
        assert(p(notes[t]));
    }
}

/// The first index at which `pred` fails, by bisection: any predicate that
/// decides `pred` and holds of a prefix of the notes splits them there.
pub fn partition_point<F: Fn(&FlattenedNote) -> bool>(notes: &Vec<FlattenedNote>, pred: &F) -> (r: usize)
    requires
        callable(*pred, notes@),
    ensures
        seen_split(*pred, notes@, r as int),
        forall|p: spec_fn(FlattenedNote) -> bool|
            decides(*pred, p) && holds_on_prefix(p, notes@) ==> is_split(p, notes@, r as int),
{
    let mut lo: usize = 0;
    let mut hi: usize = notes.len();
    while lo < hi
        invariant
            callable(*pred, notes@),
            0 <= lo <= hi <= notes@.len(),
            lo > 0 ==> pred.ensures((&notes@[lo - 1],), true),
            hi < notes@.len() ==> pred.ensures((&notes@[hi as int],), false),
        decreases hi - lo,
    {
        let mid = lo + (hi - lo) / 2;
        let b = pred(&notes[mid]);
        if b {
            lo = mid + 1;
        } else {
            hi = mid;
        }
    }
    proof {
        assert forall|p: spec_fn(FlattenedNote) -> bool|
            decides(*pred, p) && holds_on_prefix(p, notes@) implies is_split(p, notes@, lo as int) by {
            lemma_seen_split(*pred, notes@, lo as int, p);
        }
    }
    lo
}

impl Part {
    /// The notes from where `start` stops holding up to where `end` stops
    /// holding (none where `end` stops first). Where spec predicates `p` and
    /// `q` decide `start` and `end` and each holds of a prefix of the notes
    /// in time order, as `note.time < t` does, the result is exactly the
    /// notes from the split of `p` to that of `q`.
    pub fn find_note_range<F: Fn(&FlattenedNote) -> bool, G: Fn(&FlattenedNote) -> bool>(
        &self,
        start: F,
        end: G,
    ) -> (r: &[FlattenedNote])
        requires
            callable(start, self.flattened@),
            callable(end, self.flattened@),
        ensures
            forall|p: spec_fn(FlattenedNote) -> bool, q: spec_fn(FlattenedNote) -> bool, s: int, e: int|
                decides(start, p) && holds_on_prefix(p, self.flattened@) && decides(end, q) && holds_on_prefix(
                    q,
                    self.flattened@,
                ) && #[trigger] is_split(p, self.flattened@, s) && #[trigger] is_split(q, self.flattened@, e)
                    ==> r@ == self.flattened@.subrange(s, if e < s { s } else { e }),
    {
        let s = partition_point(&self.flattened, &start);
        let e = partition_point(&self.flattened, &end);
        let e2 = if e < s {
            s
        } else {
            e
        };
        let r = slice_subrange(self.flattened.as_slice(), s, e2);
        proof {
            assert forall|p: spec_fn(FlattenedNote) -> bool, q: spec_fn(FlattenedNote) -> bool, s2: int, e3: int|
                decides(start, p) && holds_on_prefix(p, self.flattened@) && decides(end, q) && holds_on_prefix(
                    q,
                    self.flattened@,
                ) && #[trigger] is_split(p, self.flattened@, s2) && #[trigger] is_split(q, self.flattened@, e3)
                    implies r@ == self.flattened@.subrange(s2, if e3 < s2 { s2 } else { e3 }) by {
                lemma_split_unique(p, self.flattened@, s as int, s2);
                lemma_split_unique(q, self.flattened@, e as int, e3);
            }
        }
        r
    }
}

/// Over positive denominators, two fractions of one number have one floor.
pub proof fn lemma_floor_of_ratio(q: Rational, f: int, g: int)
    requires
        q.denom > 0,
        g > 0,
        is_ratio(q, f, g),
    ensures
        q.numer as int / q.denom as int == f / g,
{
    let n = q.numer as int;
    let d = q.denom as int;
    let fl = f / g;
    let rem = f % g;
    lemma_fundamental_div_mod(f, g);
    assert(f == g * fl + rem);
    assert(n * g == (g * fl + rem) * d);
    assert(n * g == g * (fl * d) + rem * d) by (nonlinear_arith)
        requires
            n * g == (g * fl + rem) * d,
    ;
    assert(0 <= rem * d < g * d) by (nonlinear_arith)
        requires
            0 <= rem < g,
            d > 0,
    ;
    let r2 = n - fl * d;
    assert(r2 * g == rem * d) by (nonlinear_arith)
        requires
            n * g == g * (fl * d) + rem * d,
            r2 == n - fl * d,
    ;
    assert(0 <= r2 < d) by (nonlinear_arith)
        requires
            r2 * g == rem * d,
            0 <= rem * d < g * d,
            g > 0,
    ;
    lemma_fundamental_div_mod_converse(n, d, fl, r2);
}

proof fn lemma_quotient_identity(
    on: int,
    od: int,
    dn: int,
    dd: int,
    t: int,
    d1: int,
    l: int,
    vn: int,
    vd: int,
)
    requires
        on * d1 == t * od,
        dn * vn == (l * vd) * dd,
    ensures
        (on * dd) * (d1 * l * vd) == (t * vn) * (od * dn),
{
    assert((on * dd) * (d1 * l * vd) == (on * d1) * (dd * (l * vd))) by (nonlinear_arith);
    assert((t * od) * (dd * (l * vd)) == (t * od) * (dn * vn)) by (nonlinear_arith)
        requires
            dn * vn == (l * vd) * dd,
    ;
    assert((t * od) * (dn * vn) == (t * vn) * (od * dn)) by (nonlinear_arith);
}

proof fn lemma_next_measure_identity(x: int, vn: int, l: int, vd: int, sd: int)
    ensures
        (x * vn + (l * vd) * (vn * sd)) * (vn * sd) == (x + l * vd * sd) * ((vn * sd) * vn),
{
    assert(x * vn + (l * vd) * (vn * sd) == (x + l * vd * sd) * vn) by (nonlinear_arith);
    assert((x + l * vd * sd) * vn * (vn * sd) == (x + l * vd * sd) * ((vn * sd) * vn)) by (nonlinear_arith);
}

/// `k` measures after the start, compared with time `tn / td`, is the
/// comparison of `k * g` with `f` in the terms of `find_measure`.
proof fn lemma_start_compare(k: int, l: int, vd: int, sd: int, sn: int, vn: int, tn: int, td: int)
    ensures
        (k * l * vd * sd + sn * vn) * td - tn * (vn * sd) == k * (td * sd * l * vd) - (tn * sd - sn * td)
            * vn,
{
    let a = k * l * vd * sd;
    assert((a + sn * vn) * td == a * td + sn * vn * td) by (nonlinear_arith);
    assert(a * td == k * (td * sd * l * vd)) by (nonlinear_arith)
        requires
            a == k * l * vd * sd,
    ;
    assert(tn * (vn * sd) == (tn * sd - sn * td) * vn + sn * vn * td) by (nonlinear_arith);
}

impl Segment {
    /// How long one repetition of the pattern takes: `len(pattern) / speed`.
    /// `None` where that does not fit the fraction type.
    pub fn single_measure_duration(&self) -> (r: Option<Rational>)
        requires
            self.wf(),
        ensures
            r matches Some(d) ==> d.wf() && is_ratio(
                d,
                self.pattern.0@.len() * self.speed.denom,
                self.speed.numer as int,
            ) && reduced(d),
            self.pattern.0@.len() * self.speed.denom <= i64::MAX ==> r is Some,
    {
        let len = Rational::from_integer(self.pattern.0.len() as i64);
        proof {
            assert(abs(len.denom * self.speed.numer) <= i64::MAX);
        }
        len.checked_div(&self.speed)
    }

    /// Every fraction that `get_measure(number)` computes, in lowest terms,
    /// has parts below `SMALL`.
    pub open spec fn measure_fits(self, number: int) -> bool {
        &&& 0 <= number < SMALL
        &&& small(self.start_time)
        &&& self.pattern.0@.len() * self.speed.denom <= i64::MAX
        &&& lowest_small(self.pattern.0@.len() * self.speed.denom, self.speed.numer as int)
        &&& lowest_small(number * self.pattern.0@.len() * self.speed.denom, self.speed.numer as int)
        &&& lowest_small(self.measure_start(number).0, self.measure_start(number).1)
    }

    /// The repetition that `time` falls in, counted from zero, where
    /// `time` lies within the segment.
    pub open spec fn measure_floor(self, time: Rational) -> int {
        ((time.numer * self.start_time.denom - self.start_time.numer * time.denom) * self.speed.numer) / (
        time.denom * self.start_time.denom * self.pattern.0@.len() * self.speed.denom)
    }

    /// The repetition that `find_measure` gives for `time`.
    pub open spec fn measure_number_at(self, time: Rational) -> int {
        if self.measure_floor(time) < self.repetitions {
            self.measure_floor(time)
        } else {
            self.repetitions - 1
        }
    }

    /// Every fraction that `find_measure(time)` computes, in lowest terms,
    /// has parts below `SMALL`.
    pub open spec fn measure_fits_at(self, time: Rational) -> bool {
        &&& small(time)
        &&& lowest_small(
            time.numer * self.start_time.denom - self.start_time.numer * time.denom,
            time.denom * self.start_time.denom,
        )
        &&& self.measure_fits(self.measure_number_at(time))
    }

    /// Where repetition `number` starts: `start_time + number * len / speed`,
    /// as a fraction.
    pub open spec fn measure_start(self, number: int) -> (int, int) {
        (
            number * self.pattern.0@.len() * self.speed.denom * self.start_time.denom
                + self.start_time.numer * self.speed.numer,
            self.speed.numer * self.start_time.denom,
        )
    }

    /// The repetition of the pattern that `time` falls in: its number counts
    /// from zero and is the whole number of measure durations from the
    /// segment's start to `time`, except at the segment's very end, which
    /// belongs to the last repetition. `None` where a time does not fit the
    /// fraction type.
    pub fn find_measure(&self, time: Rational) -> (r: Option<Measure>)
        requires
            self.wf(),
            time.wf(),
            le(self.start_time, time),
            le(time, self.end_time),
        ensures
            r matches Some(m) ==> {
                &&& m.start_time.wf()
                &&& m.end_time.wf()
                &&& m.number < self.repetitions
                &&& m.number == if self.measure_floor(time) < self.repetitions {
                    self.measure_floor(time)
                } else {
                    self.repetitions - 1
                }
                &&& is_ratio(
                    m.start_time,
                    self.measure_start(m.number as int).0,
                    self.measure_start(m.number as int).1,
                )
                &&& is_ratio(
                    m.end_time,
                    self.measure_start(m.number + 1).0,
                    self.measure_start(m.number + 1).1,
                )
                &&& le(m.start_time, time)
                &&& le(time, m.end_time)
                &&& lt(time, m.end_time) || m.number == self.repetitions - 1
            },
            self.measure_fits_at(time) ==> r is Some,
    {
        let dur = match self.single_measure_duration() {
            Some(d) => d,
            None => return None,
        };
        proof {
            if self.measure_fits_at(time) {
                lemma_small_fits(time, self.start_time);
            }
        }
        let offset = match time.checked_sub(&self.start_time) {
            Some(o) => o,
            None => return None,
        };
        proof {
            if self.measure_fits_at(time) {
                lemma_lowest_small(
                    offset,
                    time.numer * self.start_time.denom - self.start_time.numer * time.denom,
                    time.denom * self.start_time.denom,
                );
                lemma_lowest_small(dur, self.pattern.0@.len() * self.speed.denom, self.speed.numer as int);
                lemma_small_fits(offset, dur);
                assert(dur.numer != 0) by (nonlinear_arith)
                    requires
                        dur.numer * self.speed.numer == (self.pattern.0@.len() * self.speed.denom) * dur.denom,
                        self.speed.numer > 0,
                        self.speed.denom > 0,
                        self.pattern.0@.len() > 0,
                        dur.denom > 0,
                ;
            }
        }
        let q = match offset.checked_div(&dur) {
            Some(q) => q,
            None => return None,
        };
        let ghost (tn, td, sn, sd, vn, vd) = (
            time.numer as int,
            time.denom as int,
            self.start_time.numer as int,
            self.start_time.denom as int,
            self.speed.numer as int,
            self.speed.denom as int,
        );
        let ghost l = self.pattern.0@.len() as int;
        let ghost t = tn * sd - sn * td;
        let ghost f = t * vn;
        let ghost g = td * sd * l * vd;
        proof {
            assert(t >= 0);
            lemma_quotient_identity(
                offset.numer as int,
                offset.denom as int,
                dur.numer as int,
                dur.denom as int,
                t,
                td * sd,
                l,
                vn,
                vd,
            );
            assert(g > 0) by (nonlinear_arith)
                requires
                    g == td * sd * l * vd,
                    td > 0,
                    sd > 0,
                    l > 0,
                    vd > 0,
            ;
            assert(offset.denom * dur.numer != 0) by (nonlinear_arith)
                requires
                    offset.denom > 0,
                    dur.numer != 0,
            ;
            lemma_ratio_transfer(
                q,
                offset.numer * dur.denom,
                offset.denom * dur.numer,
                f,
                g,
            );
            lemma_floor_of_ratio(q, f, g);
            assert(f >= 0) by (nonlinear_arith)
                requires
                    f == t * vn,
                    t >= 0,
                    vn > 0,
            ;
            assert(q.numer >= 0) by (nonlinear_arith)
                requires
                    q.numer * g == f * q.denom,
                    f >= 0,
                    g > 0,
                    q.denom > 0,
            ;
        }
        let whole = q.numer / q.denom;
        let number: u32 = if whole >= self.repetitions as i64 {
            self.repetitions - 1
        } else {
            whole as u32
        };
        let m = match self.get_measure(number) {
            Some(m) => m,
            None => return None,
        };
        let start_time = m.start_time;
        let end_time = m.end_time;
        proof {
            let k = number as int;
            let x = (k * l * vd) * sd + sn * vn;
            assert(self.measure_start(k) == (x, vn * sd));
            assert(self.measure_start(k + 1) == ((k + 1) * l * vd * sd + sn * vn, vn * sd));
            let fl = f / g;
            lemma_fundamental_div_mod(f, g);
            assert(fl * g <= f < (fl + 1) * g) by (nonlinear_arith)
                requires
                    f == g * fl + f % g,
                    0 <= f % g < g,
            ;
            assert(k <= fl);
            assert(k * g <= f) by (nonlinear_arith)
                requires
                    k <= fl,
                    fl * g <= f,
                    g > 0,
            ;
            assert(vn * sd > 0) by (nonlinear_arith)
                requires
                    vn > 0,
                    sd > 0,
            ;
            lemma_start_compare(k, l, vd, sd, sn, vn, tn, td);
            lemma_le_by_ratio(start_time, x, vn * sd, time, tn, td);
            if k == fl {
                lemma_start_compare(k + 1, l, vd, sd, sn, vn, tn, td);
                lemma_le_by_ratio(time, tn, td, end_time, (k + 1) * l * vd * sd + sn * vn, vn * sd);
            } else {
                assert(k == self.repetitions - 1);
                let nslots = l * self.repetitions;
                assert(self.slot_count() == nslots);
                assert((k + 1) * l * vd * sd + sn * vn == sn * vn + nslots * vd * sd) by (nonlinear_arith)
                    requires
                        k + 1 == self.repetitions,
                        nslots == l * self.repetitions,
                ;
                assert(sd * vn == vn * sd) by (nonlinear_arith);
                lemma_same_ratio(end_time, self.end_time, sn * vn + nslots * vd * sd, vn * sd);
                lemma_le_trans(time, self.end_time, end_time);
            }
        }
        Some(m)
    }

    /// Repetition `number` of the pattern, counted from zero: from
    /// `start_time + number * len / speed` for one measure duration. `None`
    /// where a time does not fit the fraction type.
    pub fn get_measure(&self, number: u32) -> (r: Option<Measure>)
        requires
            self.wf(),
        ensures
            r matches Some(m) ==> {
                &&& m.start_time.wf()
                &&& m.end_time.wf()
                &&& m.number == number
                &&& is_ratio(
                    m.start_time,
                    self.measure_start(number as int).0,
                    self.measure_start(number as int).1,
                )
                &&& is_ratio(
                    m.end_time,
                    self.measure_start(number + 1).0,
                    self.measure_start(number + 1).1,
                )
            },
            self.measure_fits(number as int) ==> r is Some,
    {
        let dur = match self.single_measure_duration() {
            Some(d) => d,
            None => return None,
        };
        let ghost (sn, sd, vn, vd) = (
            self.start_time.numer as int,
            self.start_time.denom as int,
            self.speed.numer as int,
            self.speed.denom as int,
        );
        let ghost l = self.pattern.0@.len() as int;
        let count = Rational::from_integer(number as i64);
        proof {
            if self.measure_fits(number as int) {
                lemma_lowest_small(dur, l * vd, vn);
                assert(small(count));
                lemma_small_fits(count, dur);
            }
        }
        let span = match count.checked_mul(&dur) {
            Some(x) => x,
            None => return None,
        };
        let ghost k = number as int;
        proof {
            assert(is_ratio(span, k * dur.numer, dur.denom as int));
            assert(k * dur.numer * vn == (k * l * vd) * dur.denom) by (nonlinear_arith)
                requires
                    dur.numer * vn == (l * vd) * dur.denom,
            ;
            assert(vn != 0);
            lemma_ratio_transfer(span, k * dur.numer, dur.denom as int, k * l * vd, vn);
            if self.measure_fits(number as int) {
                assert(k * l * vd == number * self.pattern.0@.len() * self.speed.denom);
                lemma_lowest_small(span, k * l * vd, vn);
                lemma_small_fits(span, self.start_time);
            }
        }
        let start_time = match span.checked_add(&self.start_time) {
            Some(x) => x,
            None => return None,
        };
        proof {
            lemma_sum_value(span, self.start_time, start_time, k * l * vd, vn, sn, sd);
            assert(self.measure_start(k) == ((k * l * vd) * sd + sn * vn, vn * sd));
            if self.measure_fits(number as int) {
                lemma_lowest_small(start_time, self.measure_start(k).0, self.measure_start(k).1);
                lemma_lowest_small(dur, l * vd, vn);
                lemma_small_fits(start_time, dur);
            }
        }
        let end_time = match start_time.checked_add(&dur) {
            Some(x) => x,
            None => return None,
        };
        proof {
            let x = (k * l * vd) * sd + sn * vn;
            lemma_sum_value(start_time, dur, end_time, x, vn * sd, l * vd, vn);
            lemma_next_measure_identity(x, vn, l, vd, sd);
            assert((vn * sd) * vn != 0) by (nonlinear_arith)
                requires
                    vn > 0,
                    sd > 0,
            ;
            lemma_ratio_transfer(
                end_time,
                x * vn + (l * vd) * (vn * sd),
                (vn * sd) * vn,
                x + l * vd * sd,
                vn * sd,
            );
            assert(x + l * vd * sd == (k + 1) * l * vd * sd + sn * vn) by (nonlinear_arith)
                requires
                    x == (k * l * vd) * sd + sn * vn,
            ;
        }
        Some(Measure { start_time, end_time, number: number as usize })
    }
}

impl Part {
    /// The first note that starts at or after `time`.
    pub fn first_note_from(&self, time: Rational) -> (r: usize)
        requires
            self.wf(),
            time.wf(),
        ensures
            r <= self.flattened@.len(),
            forall|i: int| 0 <= i < r ==> lt(#[trigger] self.flattened@[i].time, time),
            forall|i: int| r <= i < self.flattened@.len() ==> le(time, #[trigger] self.flattened@[i].time),
    {
        let notes = &self.flattened;
        let mut lo: usize = 0;
        let mut hi: usize = notes.len();
        while lo < hi
            invariant
                notes@ == self.flattened@,
                notes_wf(notes@, self.segments@.len() as int),
                time.wf(),
                0 <= lo <= hi <= notes@.len(),
                forall|i: int| 0 <= i < lo ==> lt(#[trigger] notes@[i].time, time),
                forall|i: int| hi <= i < notes@.len() ==> le(time, #[trigger] notes@[i].time),
            decreases hi - lo,
        {
            let mid = lo + (hi - lo) / 2;
            assert(notes@[mid as int].wf());
            if notes[mid].time.less_than(&time) {
                assert forall|i: int| 0 <= i < mid + 1 implies lt(#[trigger] notes@[i].time, time) by {
                    assert(notes@[i].wf());
                    assert(le(notes@[i].time, notes@[mid as int].time));
                    lemma_le_lt_trans(notes@[i].time, notes@[mid as int].time, time);
                }
                lo = mid + 1;
            } else {
                assert forall|i: int| mid <= i < notes@.len() implies le(time, #[trigger] notes@[i].time) by {
                    assert(notes@[i].wf());
                    assert(le(notes@[mid as int].time, notes@[i].time));
                    lemma_le_trans(time, notes@[mid as int].time, notes@[i].time);
                }
                hi = mid;
            }
        }
        lo
    }

    /// The notes that start at or after `from` and before `to`, in order.
    pub fn notes_started_in(&self, from: Rational, to: Rational) -> (r: &[FlattenedNote])
        requires
            self.wf(),
            from.wf(),
            to.wf(),
        ensures
            exists|s: int, e: int|
                {
                    &&& 0 <= s <= e <= self.flattened@.len()
                    &&& r@ == self.flattened@.subrange(s, e)
                    &&& forall|i: int| 0 <= i < s ==> lt(#[trigger] self.flattened@[i].time, from)
                    &&& forall|i: int| s <= i < e ==> le(from, #[trigger] self.flattened@[i].time) && lt(self.flattened@[i].time, to)
                    &&& forall|i: int|
                        e <= i < self.flattened@.len() ==> le(to, #[trigger] self.flattened@[i].time) || le(to, from)
                },
    {
        let s = self.first_note_from(from);
        let e = self.first_note_from(to);
        let e2 = if e < s {
            s
        } else {
            e
        };
        proof {
            assert forall|i: int| s <= i < e2 implies le(from, #[trigger] self.flattened@[i].time) && lt(
                self.flattened@[i].time,
                to,
            ) by {}
            assert forall|i: int| e2 <= i < self.flattened@.len() implies le(to, #[trigger] self.flattened@[i].time)
                || le(to, from) by {
                if e < s {
                    assert(self.flattened@[e as int].wf());
                    assert(le(to, self.flattened@[e as int].time));
                    assert(lt(self.flattened@[e as int].time, from));
                    lemma_le_lt_trans(to, self.flattened@[e as int].time, from);
                }
            }
        }
        slice_subrange(self.flattened.as_slice(), s, e2)
    }
}

impl Part {
    /// The first note that stops sounding at or after `time`; `None` where an
    /// end does not fit the fraction type.
    pub fn first_note_ending_from(&self, time: Rational) -> (r: Option<usize>)
        requires
            self.wf(),
            time.wf(),
        ensures
            r matches Some(k) ==> {
                &&& k <= self.flattened@.len()
                &&& forall|i: int|
                    0 <= i < k ==> frac_lt(
                        note_end(#[trigger] self.flattened@[i]),
                        (time.numer as int, time.denom as int),
                    )
                &&& forall|i: int|
                    k <= i < self.flattened@.len() ==> frac_le(
                        (time.numer as int, time.denom as int),
                        note_end(#[trigger] self.flattened@[i]),
                    )
            },
            ends_fit(self.flattened@) ==> r is Some,
    {
        let notes = &self.flattened;
        let ghost tp = (time.numer as int, time.denom as int);
        let mut lo: usize = 0;
        let mut hi: usize = notes.len();
        while lo < hi
            invariant
                notes@ == self.flattened@,
                notes_wf(notes@, self.segments@.len() as int),
                time.wf(),
                tp == (time.numer as int, time.denom as int),
                0 <= lo <= hi <= notes@.len(),
                forall|i: int| 0 <= i < lo ==> frac_lt(note_end(#[trigger] notes@[i]), tp),
                forall|i: int| hi <= i < notes@.len() ==> frac_le(tp, note_end(#[trigger] notes@[i])),
            decreases hi - lo,
        {
            let mid = lo + (hi - lo) / 2;
            let n = notes[mid];
            assert(notes@[mid as int].wf());
            assert(ends_fit(self.flattened@) ==> fits_add(notes@[mid as int].time, notes@[mid as int].length));
            let end = match n.time.checked_add(&n.length) {
                Some(e) => e,
                None => return None,
            };
            proof {
                lemma_note_end_positive(n);
                lemma_lt_iff_ratio(end, note_end(n).0, note_end(n).1, time);
            }
            if end.less_than(&time) {
                assert forall|i: int| 0 <= i < mid + 1 implies frac_lt(note_end(#[trigger] notes@[i]), tp) by {
                    assert(notes@[i].wf());
                    lemma_note_end_positive(notes@[i]);
                    assert(frac_le(note_end(notes@[i]), note_end(n)));
                    lemma_frac_trans(note_end(notes@[i]), note_end(n), tp);
                }
                lo = mid + 1;
            } else {
                assert forall|i: int| mid <= i < notes@.len() implies frac_le(tp, note_end(#[trigger] notes@[i])) by {
                    assert(notes@[i].wf());
                    lemma_note_end_positive(notes@[i]);
                    assert(frac_le(note_end(n), note_end(notes@[i])));
                    lemma_frac_trans(tp, note_end(n), note_end(notes@[i]));
                }
                hi = mid;
            }
        }
        Some(lo)
    }

    /// The notes that stop sounding at or after `from` and before `to`, in
    /// order of their ends; `None` where an end does not fit the fraction
    /// type.
    pub fn notes_released_in(&self, from: Rational, to: Rational) -> (r: Option<&[FlattenedNote]>)
        requires
            self.wf(),
            from.wf(),
            to.wf(),
        ensures
            r matches Some(notes) ==> exists|s: int, e: int|
                #![trigger self.flattened@.subrange(s, e)]
                {
                    let fp = (from.numer as int, from.denom as int);
                    let tp = (to.numer as int, to.denom as int);
                    &&& 0 <= s <= e <= self.flattened@.len()
                    &&& notes@ == self.flattened@.subrange(s, e)
                    &&& forall|i: int| 0 <= i < s ==> frac_lt(note_end(#[trigger] self.flattened@[i]), fp)
                    &&& forall|i: int|
                        s <= i < e ==> frac_le(fp, note_end(#[trigger] self.flattened@[i])) && frac_lt(
                            note_end(self.flattened@[i]),
                            tp,
                        )
                    &&& forall|i: int|
                        e <= i < self.flattened@.len() ==> frac_le(tp, note_end(#[trigger] self.flattened@[i]))
                            || le(to, from)
                },
            ends_fit(self.flattened@) ==> r is Some,
    {
        let s = match self.first_note_ending_from(from) {
            Some(k) => k,
            None => return None,
        };
        let e = match self.first_note_ending_from(to) {
            Some(k) => k,
            None => return None,
        };
        let e2 = if e < s {
            s
        } else {
            e
        };
        proof {
            let fp = (from.numer as int, from.denom as int);
            let tp = (to.numer as int, to.denom as int);
            assert forall|i: int| e2 <= i < self.flattened@.len() implies frac_le(
                tp,
                note_end(#[trigger] self.flattened@[i]),
            ) || le(to, from) by {
                if e < s {
                    let ne = note_end(self.flattened@[e as int]);
                    assert(self.flattened@[e as int].wf());
                    lemma_note_end_positive(self.flattened@[e as int]);
                    assert(frac_le(tp, ne));
                    assert(frac_lt(ne, fp));
                    lemma_frac_trans(tp, ne, fp);
                }
            }
        }
        Some(slice_subrange(self.flattened.as_slice(), s, e2))
    }
}

} // verus!
