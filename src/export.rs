use crate::music::{frac_le, lemma_note_end_positive, note_end, FlattenedNote, Part};
use crate::rational::le;
use crate::rational::{
    divides, fits_add, gcd_spec, is_ratio, lemma_cross_fits, lemma_gcd_divides, lemma_reduced_denom,
    lowest_denom, Rational,
};
use crate::score::PianoPhase;
use vstd::arithmetic::div_mod::lemma_fundamental_div_mod;
use vstd::prelude::*;

verus! {

/// `gcd(x, y)` by Euclid's algorithm, for non-negative `x` and `y`.
pub fn gcd(x: i64, y: i64) -> (r: i64)
    requires
        x >= 0,
        y >= 0,
    ensures
        r == gcd_spec(if x >= y { x as int } else { y as int }, if x >= y { y as int } else { x as int }),
{
    let mut max = if x >= y {
        x
    } else {
        y
    };
    let mut min = if x >= y {
        y
    } else {
        x
    };
    while min > 0
        invariant
            max >= 0,
            min >= 0,
            gcd_spec(max as int, min as int) == gcd_spec(
                if x >= y { x as int } else { y as int },
                if x >= y { y as int } else { x as int },
            ),
        decreases min,
    {
        let next_max = min;
        let next_min = max % min;
        max = next_max;
        min = next_min;
    }
    max
}

/// `x * y / gcd(x, y)`, the least common multiple of positive numbers, or
/// `None` where `x * y` does not fit `i64`.
pub fn lcm(x: i64, y: i64) -> (r: Option<i64>)
    requires
        x > 0,
        y > 0,
    ensures
        r matches Some(m) ==> {
            &&& m == (x * y) / gcd_spec(
                if x >= y { x as int } else { y as int },
                if x >= y { y as int } else { x as int },
            )
            &&& m > 0
            &&& divides(x as int, m as int)
            &&& divides(y as int, m as int)
        },
        r is None <==> x * y > i64::MAX,
{
    let g = gcd(x, y);
    proof {
        let (a, b) = if x >= y {
            (x as int, y as int)
        } else {
            (y as int, x as int)
        };
        lemma_gcd_divides(a, b);
    }
    match x.checked_mul(y) {
        None => None,
        Some(p) => {
            proof {
                let gi = g as int;
                let u = choose|c: int| #[trigger] (gi * c) == x;
                let v = choose|c: int| #[trigger] (gi * c) == y;
                assert(p == gi * (u * v * gi)) by (nonlinear_arith)
                    requires
                        p == x * y,
                        gi * u == x,
                        gi * v == y,
                ;
                vstd::arithmetic::div_mod::lemma_div_multiples_vanish(u * v * gi, gi);
                assert((p as int) / gi == u * v * gi);
                assert(x * (v) == u * v * gi) by (nonlinear_arith)
                    requires
                        gi * u == x,
                ;
                assert(y * (u) == u * v * gi) by (nonlinear_arith)
                    requires
                        gi * v == y,
                ;
                assert(u * v * gi > 0) by (nonlinear_arith)
                    requires
                        gi * u == x,
                        gi * v == y,
                        gi > 0,
                        x > 0,
                        y > 0,
                ;
            }
            Some(p / g)
        },
    }
}

proof fn lemma_divides_trans(a: int, b: int, c: int)
    requires
        divides(a, b),
        divides(b, c),
    ensures
        divides(a, c),
{
    let u = choose|k: int| #[trigger] (a * k) == b;
    let v = choose|k: int| #[trigger] (b * k) == c;
    assert(a * (u * v) == c) by (nonlinear_arith)
        requires
            a * u == b,
            b * v == c,
    ;
}

/// `ticks` places the fraction `p / q` on a whole tick.
pub open spec fn on_tick(p: int, q: int, ticks: int) -> bool {
    divides(q, p * ticks)
}

/// Every start and end of `notes` lands on a whole tick.
pub open spec fn notes_on_ticks(notes: Seq<FlattenedNote>, ticks: int) -> bool {
    forall|i: int|
        0 <= i < notes.len() ==> on_tick(#[trigger] notes[i].time.numer as int, notes[i].time.denom as int, ticks)
            && on_tick(note_end(notes[i]).0, note_end(notes[i]).1, ticks)
}

proof fn lemma_on_tick_multiple(p: int, q: int, t: int, t2: int)
    requires
        on_tick(p, q, t),
        divides(t, t2),
    ensures
        on_tick(p, q, t2),
{
    let u = choose|k: int| #[trigger] (q * k) == p * t;
    let v = choose|k: int| #[trigger] (t * k) == t2;
    assert(q * (u * v) == p * t2) by (nonlinear_arith)
        requires
            q * u == p * t,
            t * v == t2,
    ;
}

proof fn lemma_on_tick_of_ratio(x: Rational, p: int, q: int, t: int)
    requires
        is_ratio(x, p, q),
        divides(x.denom as int, t),
    ensures
        on_tick(p, q, t),
{
    let c = choose|k: int| #[trigger] (x.denom * k) == t;
    assert(q * (x.numer * c) == p * t) by (nonlinear_arith)
        requires
            x.numer * q == p * x.denom,
            x.denom * c == t,
    ;
}

/// `x * y / gcd(x, y)`, as `lcm` computes it.
pub open spec fn lcm_spec(x: int, y: int) -> int {
    (x * y) / gcd_spec(if x >= y { x } else { y }, if x >= y { y } else { x })
}

/// `t` raised by `lcm`, note after note, to each note's start denominator
/// and to the lowest-terms denominator of its end.
pub open spec fn ticks_fold(notes: Seq<FlattenedNote>, t: int) -> int
    decreases notes.len(),
{
    if notes.len() == 0 {
        t
    } else {
        let n = notes[0];
        ticks_fold(
            notes.drop_first(),
            lcm_spec(lcm_spec(t, n.time.denom as int), lowest_denom(note_end(n).0, note_end(n).1)),
        )
    }
}

/// Every step of `ticks_fold(notes, t)` stays within `i64`.
pub open spec fn ticks_fit(notes: Seq<FlattenedNote>, t: int) -> bool
    decreases notes.len(),
{
    if notes.len() == 0 {
        true
    } else {
        let n = notes[0];
        let t1 = lcm_spec(t, n.time.denom as int);
        let d = lowest_denom(note_end(n).0, note_end(n).1);
        &&& t * n.time.denom <= i64::MAX
        &&& fits_add(n.time, n.length)
        &&& t1 * d <= i64::MAX
        &&& ticks_fit(notes.drop_first(), lcm_spec(t1, d))
    }
}

/// Raises `ticks` to a multiple that also places every start and end of
/// `notes` on a whole tick; `None` where a number does not fit.
fn ticks_for_notes(notes: &Vec<FlattenedNote>, ticks: i64) -> (r: Option<i64>)
    requires
        ticks > 0,
        forall|i: int| 0 <= i < notes@.len() ==> (#[trigger] notes@[i]).wf(),
    ensures
        r matches Some(t) ==> t > 0 && divides(ticks as int, t as int) && notes_on_ticks(notes@, t as int),
        r matches Some(t) ==> t == ticks_fold(notes@, ticks as int),
        ticks_fit(notes@, ticks as int) ==> r is Some,
{
    let mut t = ticks;
    let mut k: usize = 0;
    proof {
        assert(ticks * 1 == ticks);
        assert(notes@.subrange(0, notes@.len() as int) =~= notes@);
    }
    while k < notes.len()
        invariant
            t > 0,
            k <= notes@.len(),
            divides(ticks as int, t as int),
            forall|i: int| 0 <= i < notes@.len() ==> (#[trigger] notes@[i]).wf(),
            notes_on_ticks(notes@.subrange(0, k as int), t as int),
            ticks_fold(notes@.subrange(k as int, notes@.len() as int), t as int) == ticks_fold(notes@, ticks as int),
            ticks_fit(notes@, ticks as int) ==> ticks_fit(notes@.subrange(k as int, notes@.len() as int), t as int),
        decreases notes@.len() - k,
    {
        let n = notes[k];
        assert(notes@[k as int].wf());
        let ghost rest = notes@.subrange(k as int, notes@.len() as int);
        proof {
            assert(rest[0] == n);
            assert(rest.drop_first() =~= notes@.subrange(k + 1, notes@.len() as int));
            lemma_note_end_positive(n);
        }
        let t1 = match lcm(t, n.time.denom) {
            Some(m) => m,
            None => return None,
        };
        let end = match n.time.checked_add(&n.length) {
            Some(e) => e,
            None => return None,
        };
        proof {
            lemma_reduced_denom(end, note_end(n).0, note_end(n).1);
        }
        let t2 = match lcm(t1, end.denom) {
            Some(m) => m,
            None => return None,
        };
        proof {
            lemma_reduced_denom(end, note_end(n).0, note_end(n).1);
            lemma_divides_trans(t as int, t1 as int, t2 as int);
            lemma_divides_trans(ticks as int, t as int, t2 as int);
            lemma_divides_trans(n.time.denom as int, t1 as int, t2 as int);
            let prev = notes@.subrange(0, k as int);
            let next = notes@.subrange(0, k + 1);
            assert forall|i: int| 0 <= i < next.len() implies on_tick(
                #[trigger] next[i].time.numer as int,
                next[i].time.denom as int,
                t2 as int,
            ) && on_tick(note_end(next[i]).0, note_end(next[i]).1, t2 as int) by {
                if i < k {
                    assert(next[i] == prev[i]);
                    lemma_on_tick_multiple(
                        next[i].time.numer as int,
                        next[i].time.denom as int,
                        t as int,
                        t2 as int,
                    );
                    lemma_on_tick_multiple(note_end(next[i]).0, note_end(next[i]).1, t as int, t2 as int);
                } else {
                    assert(next[i] == n);
                    assert(is_ratio(n.time, n.time.numer as int, n.time.denom as int));
                    lemma_on_tick_of_ratio(n.time, n.time.numer as int, n.time.denom as int, t2 as int);
                    lemma_on_tick_of_ratio(end, note_end(n).0, note_end(n).1, t2 as int);
                }
            }
        }
        t = t2;
        k = k + 1;
    }
    assert(notes@.subrange(0, k as int) =~= notes@);
    assert(notes@.subrange(k as int, notes@.len() as int) =~= Seq::<FlattenedNote>::empty());
    Some(t)
}

/// The ticks per note of a MIDI file of `music`: built up by `lcm` over the
/// notes of both parts in order, it places every note's start and end on a
/// whole tick. `None` where it does not fit.
pub fn ticks_per_quarter_note(music: &PianoPhase) -> (r: Option<i64>)
    requires
        music.wf(),
    ensures
        r matches Some(t) ==> t > 0 && notes_on_ticks(music.part1.flattened@, t as int) && notes_on_ticks(
            music.part2.flattened@,
            t as int,
        ),
        r matches Some(t) ==> t == ticks_fold(music.part2.flattened@, ticks_fold(music.part1.flattened@, 1)),
        ticks_fit(music.part1.flattened@, 1) && ticks_fit(
            music.part2.flattened@,
            ticks_fold(music.part1.flattened@, 1),
        ) ==> r is Some,
{
    proof {
        assert(forall|i: int|
            0 <= i < music.part1.flattened@.len() ==> (#[trigger] music.part1.flattened@[i]).wf());
        assert(forall|i: int|
            0 <= i < music.part2.flattened@.len() ==> (#[trigger] music.part2.flattened@[i]).wf());
    }
    let t1 = match ticks_for_notes(&music.part1.flattened, 1) {
        Some(t) => t,
        None => return None,
    };
    let t2 = match ticks_for_notes(&music.part2.flattened, t1) {
        Some(t) => t,
        None => return None,
    };
    proof {
        assert forall|i: int| 0 <= i < music.part1.flattened@.len() implies on_tick(
            #[trigger] music.part1.flattened@[i].time.numer as int,
            music.part1.flattened@[i].time.denom as int,
            t2 as int,
        ) && on_tick(
            note_end(music.part1.flattened@[i]).0,
            note_end(music.part1.flattened@[i]).1,
            t2 as int,
        ) by {
            let n = music.part1.flattened@[i];
            lemma_on_tick_multiple(n.time.numer as int, n.time.denom as int, t1 as int, t2 as int);
            lemma_on_tick_multiple(note_end(n).0, note_end(n).1, t1 as int, t2 as int);
        }
    }
    Some(t2)
}

/// `time` counted in ticks of `ticks` per note: `None` where that is not a
/// whole number or does not fit `i64`.
pub fn time_to_ticks(time: Rational, ticks: i64) -> (r: Option<i64>)
    requires
        time.wf(),
        time.numer >= 0,
        ticks > 0,
    ensures
        r matches Some(k) ==> k * time.denom == time.numer * ticks,
        r is Some <==> (time.numer * ticks) % (time.denom as int) == 0 && (time.numer * ticks) / (time.denom as int)
            <= i64::MAX,
{
    proof {
        lemma_cross_fits(time.numer as int, ticks as int);
    }
    let n = (time.numer as i128) * (ticks as i128);
    let d = time.denom as i128;
    if n % d != 0 {
        return None;
    }
    proof {
        assert(n >= 0) by (nonlinear_arith)
            requires
                n == time.numer * ticks,
                time.numer >= 0,
                ticks > 0,
        ;
    }
    let q = n / d;
    proof {
        lemma_fundamental_div_mod(n as int, d as int);
    }
    if q > i64::MAX as i128 {
        return None;
    }
    proof {
        assert(n >= 0) by (nonlinear_arith)
            requires
                n == time.numer * ticks,
                time.numer >= 0,
                ticks > 0,
        ;
        assert(q >= 0);
        assert(n == d * q);
        assert(q * time.denom == time.numer * ticks) by (nonlinear_arith)
            requires
                n == d * q,
                n == time.numer * ticks,
                d == time.denom,
        ;
    }
    Some(q as i64)
}

/// The MIDI velocity of a volume in `[0, 1]`: `floor(volume * 127)`.
pub fn velocity(volume: Rational) -> (r: u8)
    requires
        volume.wf(),
        0 <= volume.numer <= volume.denom,
    ensures
        r == (volume.numer * 127) / (volume.denom as int),
        r <= 127,
{
    let n = volume.numer as i128 * 127;
    let v = n / (volume.denom as i128);
    proof {
        assert(v <= 127) by (nonlinear_arith)
            requires
                v == (n as int) / (volume.denom as int),
                n == volume.numer * 127,
                0 <= volume.numer <= volume.denom,
                volume.denom > 0,
        ;
        assert(v >= 0) by (nonlinear_arith)
            requires
                v == (n as int) / (volume.denom as int),
                n >= 0,
                volume.denom > 0,
        ;
    }
    v as u8
}

/// Microseconds per note at `tempo` notes per minute.
pub fn microseconds_per_note(tempo: u16) -> (r: u32)
    requires
        tempo > 0,
    ensures
        r == 60_000_000int / (tempo as int),
{
    60_000_000u32 / (tempo as u32)
}

/// A note event of a MIDI track.
#[derive(Clone, Copy, Debug, PartialEq, Eq, Structural)]
pub enum NoteEvent {
    On { pitch: u8, velocity: u8 },
    Off { pitch: u8 },
}

/// The tick at which note `n` starts, `ticks` per note.
pub open spec fn on_tick_of(n: FlattenedNote, ticks: int) -> int {
    (n.time.numer * ticks) / (n.time.denom as int)
}

/// The tick at which note `n` stops, `ticks` per note.
pub open spec fn off_tick_of(n: FlattenedNote, ticks: int) -> int {
    (note_end(n).0 * ticks) / note_end(n).1
}

/// The note-on events of `notes`, in order.
pub open spec fn note_ons(notes: Seq<FlattenedNote>, ticks: int) -> Seq<(i64, NoteEvent)> {
    Seq::new(
        notes.len(),
        |i: int|
            (
                on_tick_of(notes[i], ticks) as i64,
                NoteEvent::On {
                    pitch: notes[i].pitch,
                    velocity: ((notes[i].volume.numer * 127) / (notes[i].volume.denom as int)) as u8,
                },
            ),
    )
}

/// The note-off events of `notes`, in order.
pub open spec fn note_offs(notes: Seq<FlattenedNote>, ticks: int) -> Seq<(i64, NoteEvent)> {
    Seq::new(
        notes.len(),
        |i: int| (off_tick_of(notes[i], ticks) as i64, NoteEvent::Off { pitch: notes[i].pitch }),
    )
}

/// Two event lists merged by tick; on equal ticks, those of `b` first.
pub open spec fn merge_events(a: Seq<(i64, NoteEvent)>, b: Seq<(i64, NoteEvent)>) -> Seq<(i64, NoteEvent)>
    decreases a.len() + b.len(),
{
    if a.len() == 0 {
        b
    } else if b.len() == 0 {
        a
    } else if b[0].0 <= a[0].0 {
        seq![b[0]] + merge_events(a, b.drop_first())
    } else {
        seq![a[0]] + merge_events(a.drop_first(), b)
    }
}

/// Merges two event lists by tick, those of `b` first on equal ticks.
pub fn merge_by_tick(a: &Vec<(i64, NoteEvent)>, b: &Vec<(i64, NoteEvent)>) -> (r: Vec<(i64, NoteEvent)>)
    ensures
        r@ == merge_events(a@, b@),
{
    let mut out: Vec<(i64, NoteEvent)> = Vec::new();
    let mut i: usize = 0;
    let mut j: usize = 0;
    proof {
        assert(a@.subrange(0, a@.len() as int) =~= a@);
        assert(b@.subrange(0, b@.len() as int) =~= b@);
        assert(out@ + merge_events(a@, b@) =~= merge_events(a@, b@));
    }
    while i < a.len() || j < b.len()
        invariant
            i <= a@.len(),
            j <= b@.len(),
            out@ + merge_events(a@.subrange(i as int, a@.len() as int), b@.subrange(j as int, b@.len() as int))
                == merge_events(a@, b@),
        decreases a@.len() - i + b@.len() - j,
    {
        let ghost ra = a@.subrange(i as int, a@.len() as int);
        let ghost rb = b@.subrange(j as int, b@.len() as int);
        if i < a.len() && (j == b.len() || a[i].0 < b[j].0) {
            proof {
                assert(ra.drop_first() =~= a@.subrange(i + 1, a@.len() as int));
                assert(ra[0] == a@[i as int]);
                if rb.len() == 0 {
                    assert(merge_events(ra, rb) == ra);
                    assert(ra =~= seq![ra[0]] + ra.drop_first());
                    assert(merge_events(ra.drop_first(), rb) == ra.drop_first());
                }
            }
            out.push(a[i]);
            proof {
                assert(out@ =~= out@.drop_last().push(a@[i as int]));
            }
            i = i + 1;
            proof {
                assert(out@ + merge_events(a@.subrange(i as int, a@.len() as int), rb) =~= out@.drop_last() + (
                seq![a@[i - 1]] + merge_events(a@.subrange(i as int, a@.len() as int), rb)));
            }
        } else {
            proof {
                assert(rb.drop_first() =~= b@.subrange(j + 1, b@.len() as int));
                assert(rb[0] == b@[j as int]);
                if ra.len() == 0 {
                    assert(merge_events(ra, rb) == rb);
                    assert(rb =~= seq![rb[0]] + rb.drop_first());
                    assert(merge_events(ra, rb.drop_first()) == rb.drop_first());
                }
            }
            out.push(b[j]);
            j = j + 1;
            proof {
                assert(out@ + merge_events(ra, b@.subrange(j as int, b@.len() as int)) =~= out@.drop_last() + (
                seq![b@[j - 1]] + merge_events(ra, b@.subrange(j as int, b@.len() as int))));
            }
        }
    }
    proof {
        assert(a@.subrange(i as int, a@.len() as int) =~= Seq::<(i64, NoteEvent)>::empty());
        assert(b@.subrange(j as int, b@.len() as int) =~= Seq::<(i64, NoteEvent)>::empty());
        assert(out@ + Seq::<(i64, NoteEvent)>::empty() =~= out@);
    }
    out
}

proof fn lemma_exact_quotient(k: int, d: int, m: int)
    requires
        d > 0,
        k * d == m,
    ensures
        m / d == k,
{
    assert(m == d * k) by (nonlinear_arith)
        requires
            k * d == m,
    ;
    vstd::arithmetic::div_mod::lemma_fundamental_div_mod_converse(m, d, k, 0);
}

/// The ticks of `s` never decrease.
pub open spec fn ticks_sorted(s: Seq<(i64, NoteEvent)>) -> bool {
    forall|i: int, j: int| #![trigger s[i], s[j]] 0 <= i <= j < s.len() ==> s[i].0 <= s[j].0
}

/// Every tick of `s` is at least `x`.
pub open spec fn ticks_from(s: Seq<(i64, NoteEvent)>, x: int) -> bool {
    forall|i: int| 0 <= i < s.len() ==> (#[trigger] s[i]).0 >= x
}

/// Merging two lists in tick order gives a list in tick order, no earlier
/// than both.
pub proof fn lemma_merge_sorted(a: Seq<(i64, NoteEvent)>, b: Seq<(i64, NoteEvent)>)
    requires
        ticks_sorted(a),
        ticks_sorted(b),
    ensures
        ticks_sorted(merge_events(a, b)),
        forall|x: int| ticks_from(a, x) && ticks_from(b, x) ==> #[trigger] ticks_from(merge_events(a, b), x),
    decreases a.len() + b.len(),
{
    if a.len() == 0 || b.len() == 0 {
    } else if b[0].0 <= a[0].0 {
        let b2 = b.drop_first();
        assert(ticks_sorted(b2)) by {
            assert forall|i: int, j: int| #![trigger b2[i], b2[j]] 0 <= i <= j < b2.len() implies b2[i].0 <= b2[j].0 by {
                assert(b2[i] == b[i + 1] && b2[j] == b[j + 1]);
            }
        }
        lemma_merge_sorted(a, b2);
        let h = b[0];
        let m = seq![h] + merge_events(a, b2);
        assert(ticks_from(a, h.0 as int)) by {
            assert forall|i: int| 0 <= i < a.len() implies (#[trigger] a[i]).0 >= h.0 by {
                assert(a[0].0 <= a[i].0);
            }
        }
        assert(ticks_from(b2, h.0 as int)) by {
            assert forall|i: int| 0 <= i < b2.len() implies (#[trigger] b2[i]).0 >= h.0 by {
                assert(b2[i] == b[i + 1]);
                assert(b[0].0 <= b[i + 1].0);
            }
        }
        assert(ticks_from(merge_events(a, b2), h.0 as int));
        assert forall|i: int, j: int| #![trigger m[i], m[j]] 0 <= i <= j < m.len() implies m[i].0 <= m[j].0 by {
            if i == 0 {
                if j > 0 {
                    assert(m[j] == merge_events(a, b2)[j - 1]);
                }
            } else {
                assert(m[i] == merge_events(a, b2)[i - 1]);
                assert(m[j] == merge_events(a, b2)[j - 1]);
            }
        }
        assert forall|x: int| ticks_from(a, x) && ticks_from(b, x) implies #[trigger] ticks_from(merge_events(a, b), x) by {
            assert(ticks_from(b2, x)) by {
                assert forall|i: int| 0 <= i < b2.len() implies (#[trigger] b2[i]).0 >= x by {
                    assert(b2[i] == b[i + 1]);
                }
            }
            assert forall|i: int| 0 <= i < m.len() implies (#[trigger] m[i]).0 >= x by {
                if i > 0 {
                    assert(m[i] == merge_events(a, b2)[i - 1]);
                }
            }
        }
    } else {
        let a2 = a.drop_first();
        assert(ticks_sorted(a2)) by {
            assert forall|i: int, j: int| #![trigger a2[i], a2[j]] 0 <= i <= j < a2.len() implies a2[i].0 <= a2[j].0 by {
                assert(a2[i] == a[i + 1] && a2[j] == a[j + 1]);
            }
        }
        lemma_merge_sorted(a2, b);
        let h = a[0];
        let m = seq![h] + merge_events(a2, b);
        assert(ticks_from(b, h.0 as int)) by {
            assert forall|i: int| 0 <= i < b.len() implies (#[trigger] b[i]).0 >= h.0 by {
                assert(b[0].0 <= b[i].0);
            }
        }
        assert(ticks_from(a2, h.0 as int)) by {
            assert forall|i: int| 0 <= i < a2.len() implies (#[trigger] a2[i]).0 >= h.0 by {
                assert(a2[i] == a[i + 1]);
                assert(a[0].0 <= a[i + 1].0);
            }
        }
        assert(ticks_from(merge_events(a2, b), h.0 as int));
        assert forall|i: int, j: int| #![trigger m[i], m[j]] 0 <= i <= j < m.len() implies m[i].0 <= m[j].0 by {
            if i == 0 {
                if j > 0 {
                    assert(m[j] == merge_events(a2, b)[j - 1]);
                }
            } else {
                assert(m[i] == merge_events(a2, b)[i - 1]);
                assert(m[j] == merge_events(a2, b)[j - 1]);
            }
        }
        assert forall|x: int| ticks_from(a, x) && ticks_from(b, x) implies #[trigger] ticks_from(merge_events(a, b), x) by {
            assert(ticks_from(a2, x)) by {
                assert forall|i: int| 0 <= i < a2.len() implies (#[trigger] a2[i]).0 >= x by {
                    assert(a2[i] == a[i + 1]);
                }
            }
            assert forall|i: int| 0 <= i < m.len() implies (#[trigger] m[i]).0 >= x by {
                if i > 0 {
                    assert(m[i] == merge_events(a2, b)[i - 1]);
                }
            }
        }
    }
}

/// Exact tick counts keep the order of the fractions they count.
proof fn lemma_tick_order(p1: int, q1: int, p2: int, q2: int, t: int, k1: int, k2: int)
    requires
        q1 > 0,
        q2 > 0,
        t > 0,
        k1 * q1 == p1 * t,
        k2 * q2 == p2 * t,
        p1 * q2 <= p2 * q1,
    ensures
        k1 <= k2,
{
    assert(k1 * q1 * q2 <= k2 * q2 * q1) by (nonlinear_arith)
        requires
            k1 * q1 == p1 * t,
            k2 * q2 == p2 * t,
            p1 * q2 <= p2 * q1,
            t > 0,
    ;
    assert(k1 <= k2) by (nonlinear_arith)
        requires
            k1 * q1 * q2 <= k2 * q2 * q1,
            q1 > 0,
            q2 > 0,
    ;
}

/// Where the ticks are exact, the note-on and note-off lists each come in
/// tick order.
pub proof fn lemma_note_lists_sorted(part: Part, ticks: int)
    requires
        part.wf(),
        ticks > 0,
        events_fit(part.flattened@, ticks),
    ensures
        ticks_sorted(note_ons(part.flattened@, ticks)),
        ticks_sorted(note_offs(part.flattened@, ticks)),
{
    let notes = part.flattened@;
    let ons = note_ons(notes, ticks);
    let offs = note_offs(notes, ticks);
    assert forall|i: int| 0 <= i < notes.len() implies {
        let n = #[trigger] notes[i];
        &&& on_tick_of(n, ticks) * n.time.denom == n.time.numer * ticks
        &&& off_tick_of(n, ticks) * note_end(n).1 == note_end(n).0 * ticks
        &&& 0 <= on_tick_of(n, ticks) <= i64::MAX
        &&& 0 <= off_tick_of(n, ticks) <= i64::MAX
    } by {
        let n = notes[i];
        assert(n.wf());
        lemma_note_end_positive(n);
        let c1 = choose|c: int| #[trigger] (n.time.denom * c) == n.time.numer * ticks;
        lemma_exact_quotient(c1, n.time.denom as int, n.time.numer * ticks);
        let (e0, q) = note_end(n);
        let c2 = choose|c: int| #[trigger] (q * c) == e0 * ticks;
        lemma_exact_quotient(c2, q, e0 * ticks);
        assert(c1 >= 0) by (nonlinear_arith)
            requires
                n.time.denom * c1 == n.time.numer * ticks,
                n.time.numer >= 0,
                ticks > 0,
                n.time.denom > 0,
        ;
        assert(e0 >= 0) by (nonlinear_arith)
            requires
                e0 == n.time.numer * n.length.denom + n.length.numer * n.time.denom,
                n.time.numer >= 0,
                n.length.numer >= 0,
                n.time.denom > 0,
                n.length.denom > 0,
        ;
        assert(c2 >= 0) by (nonlinear_arith)
            requires
                q * c2 == e0 * ticks,
                e0 >= 0,
                ticks > 0,
                q > 0,
        ;
    }
    assert forall|i: int, j: int| #![trigger ons[i], ons[j]] 0 <= i <= j < ons.len() implies ons[i].0 <= ons[j].0 by {
        let (a, b) = (notes[i], notes[j]);
        assert(a.wf() && b.wf());
        assert(le(a.time, b.time));
        lemma_tick_order(
            a.time.numer as int,
            a.time.denom as int,
            b.time.numer as int,
            b.time.denom as int,
            ticks,
            on_tick_of(a, ticks),
            on_tick_of(b, ticks),
        );
    }
    assert forall|i: int, j: int| #![trigger offs[i], offs[j]] 0 <= i <= j < offs.len() implies offs[i].0 <= offs[j].0 by {
        let (a, b) = (notes[i], notes[j]);
        assert(a.wf() && b.wf());
        assert(frac_le(note_end(a), note_end(b)));
        lemma_note_end_positive(a);
        lemma_note_end_positive(b);
        lemma_tick_order(
            note_end(a).0,
            note_end(a).1,
            note_end(b).0,
            note_end(b).1,
            ticks,
            off_tick_of(a, ticks),
            off_tick_of(b, ticks),
        );
    }
}

/// Every note of `notes` starts at or after zero, lasts a non-negative time
/// at a volume in `[0, 1]`, and starts and stops on a whole tick that fits
/// `i64`, at `ticks` per note.
pub open spec fn events_fit(notes: Seq<FlattenedNote>, ticks: int) -> bool {
    forall|i: int|
        0 <= i < notes.len() ==> {
            let n = #[trigger] notes[i];
            &&& n.time.numer >= 0
            &&& n.length.numer >= 0
            &&& 0 <= n.volume.numer <= n.volume.denom
            &&& fits_add(n.time, n.length)
            &&& on_tick(n.time.numer as int, n.time.denom as int, ticks)
            &&& on_tick(note_end(n).0, note_end(n).1, ticks)
            &&& on_tick_of(n, ticks) <= i64::MAX
            &&& off_tick_of(n, ticks) <= i64::MAX
        }
}

proof fn lemma_divides_mod(d: int, m: int)
    requires
        d > 0,
        divides(d, m),
    ensures
        m % d == 0,
        m / d * d == m,
{
    let c = choose|c: int| #[trigger] (d * c) == m;
    assert(m == c * d) by (nonlinear_arith)
        requires
            d * c == m,
    ;
    vstd::arithmetic::div_mod::lemma_mod_multiples_basic(c, d);
    vstd::arithmetic::div_mod::lemma_div_multiples_vanish(c, d);
}

/// The note-on and note-off events of `part` at `ticks` per note, merged by
/// tick with note-offs first on equal ticks. `None` where a note does not
/// start or stop on a whole tick that fits, starts before zero, or has a
/// volume outside `[0, 1]`.
pub fn note_events(part: &Part, ticks: i64) -> (r: Option<Vec<(i64, NoteEvent)>>)
    requires
        part.wf(),
        ticks > 0,
    ensures
        r matches Some(v) ==> v@ == merge_events(
            note_ons(part.flattened@, ticks as int),
            note_offs(part.flattened@, ticks as int),
        ),
        events_fit(part.flattened@, ticks as int) ==> r is Some,
        events_fit(part.flattened@, ticks as int) ==> (r matches Some(v) && ticks_sorted(v@)),
{
    proof {
        if events_fit(part.flattened@, ticks as int) {
            lemma_note_lists_sorted(*part, ticks as int);
            lemma_merge_sorted(note_ons(part.flattened@, ticks as int), note_offs(part.flattened@, ticks as int));
        }
    }
    let notes = &part.flattened;
    let ghost ons_spec = note_ons(notes@, ticks as int);
    let ghost offs_spec = note_offs(notes@, ticks as int);
    let mut ons: Vec<(i64, NoteEvent)> = Vec::new();
    let mut offs: Vec<(i64, NoteEvent)> = Vec::new();
    let mut k: usize = 0;
    while k < notes.len()
        invariant
            notes@ == part.flattened@,
            part.wf(),
            ticks > 0,
            ons_spec == note_ons(notes@, ticks as int),
            offs_spec == note_offs(notes@, ticks as int),
            k <= notes@.len(),
            ons@.len() == k,
            offs@.len() == k,
            forall|i: int| 0 <= i < k ==> #[trigger] ons@[i] == ons_spec[i],
            forall|i: int| 0 <= i < k ==> #[trigger] offs@[i] == offs_spec[i],
        decreases notes@.len() - k,
    {
        let n = notes[k];
        assert(notes@[k as int].wf());
        let ghost fit = events_fit(notes@, ticks as int);
        proof {
            if fit {
                assert(n == notes@[k as int]);
                lemma_divides_mod(n.time.denom as int, n.time.numer * ticks);
            }
        }
        if n.time.numer < 0 || n.volume.numer < 0 || n.volume.numer > n.volume.denom {
            return None;
        }
        let on = match time_to_ticks(n.time, ticks) {
            Some(t) => t,
            None => return None,
        };
        let end = match n.time.checked_add(&n.length) {
            Some(e) => e,
            None => return None,
        };
        proof {
            if fit {
                let (e0, q) = note_end(n);
                lemma_note_end_positive(n);
                assert(e0 >= 0) by (nonlinear_arith)
                    requires
                        e0 == n.time.numer * n.length.denom + n.length.numer * n.time.denom,
                        n.time.numer >= 0,
                        n.length.numer >= 0,
                        n.time.denom > 0,
                        n.length.denom > 0,
                ;
                assert(end.numer >= 0) by (nonlinear_arith)
                    requires
                        end.numer * q == e0 * end.denom,
                        e0 >= 0,
                        q > 0,
                        end.denom > 0,
                ;
                let c = choose|c: int| #[trigger] (q * c) == e0 * ticks;
                assert(end.numer * ticks == c * end.denom) by (nonlinear_arith)
                    requires
                        end.numer * q == e0 * end.denom,
                        q * c == e0 * ticks,
                        q > 0,
                ;
                assert(end.denom * c == end.numer * ticks) by (nonlinear_arith)
                    requires
                        end.numer * ticks == c * end.denom,
                ;
                lemma_divides_mod(end.denom as int, end.numer * ticks);
                lemma_exact_quotient(c, end.denom as int, end.numer * ticks);
                lemma_exact_quotient(c, q, e0 * ticks);
            }
        }
        if end.numer < 0 {
            return None;
        }
        let off = match time_to_ticks(end, ticks) {
            Some(t) => t,
            None => return None,
        };
        let vel = velocity(n.volume);
        proof {
            lemma_exact_quotient(on as int, n.time.denom as int, n.time.numer * ticks);
            lemma_note_end_positive(n);
            let (e0, q) = note_end(n);
            assert(off * q == e0 * ticks) by (nonlinear_arith)
                requires
                    off * end.denom == end.numer * ticks,
                    end.numer * q == e0 * end.denom,
                    end.denom > 0,
            ;
            lemma_exact_quotient(off as int, q, e0 * ticks);
            assert(ons_spec[k as int] == (on, NoteEvent::On { pitch: n.pitch, velocity: vel }));
            assert(offs_spec[k as int] == (off, NoteEvent::Off { pitch: n.pitch }));
        }
        ons.push((on, NoteEvent::On { pitch: n.pitch, velocity: vel }));
        offs.push((off, NoteEvent::Off { pitch: n.pitch }));
        k = k + 1;
    }
    proof {
        assert(ons@ =~= ons_spec);
        assert(offs@ =~= offs_spec);
    }
    Some(merge_by_tick(&ons, &offs))
}

} // verus!
