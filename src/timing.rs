use crate::music::{note_end, FlattenedNote};
use crate::rational::{
    fits_add, is_ratio, lemma_lowest_small, lemma_lt_iff_ratio, lemma_small_fits, lemma_sum_value, lowest_small,
    small, Rational,
};
use crate::score::PianoPhase;
use std::time::Instant;
use vstd::prelude::*;

verus! {

/// The longest span a clock value can hold, in nanoseconds: that of
/// `std::time::Duration::MAX`.
pub const MAX_NANOS: u128 = 18_446_744_073_709_551_615_999_999_999;

/// Nanoseconds in a minute.
pub const NANOS_PER_MINUTE: i64 = 60_000_000_000;

#[verifier::external_type_specification]
#[verifier::external_body]
pub struct ExInstant(Instant);

/// Relies on `std::time::Instant::now`: the current instant of a monotonic
/// clock, of which nothing more is known.
#[verifier::external_body]
fn instant_now() -> (r: Instant) {
    Instant::now()
}

/// Relies on `Instant::duration_since` and `Duration::as_nanos`: the time
/// from `earlier` to `later` in nanoseconds, zero where `later` is not
/// later.
#[verifier::external_body]
fn nanos_between(earlier: Instant, later: Instant) -> (r: u128) {
    later.duration_since(earlier).as_nanos()
}

/// `a + b`, held at `MAX_NANOS`.
pub open spec fn saturating_sum(a: int, b: int) -> int {
    if a + b > MAX_NANOS {
        MAX_NANOS as int
    } else {
        a + b
    }
}

/// The playback clock: the time shown at the previous and at this tick, in
/// nanoseconds, advanced either by the wall clock or by a fixed frame rate.
pub struct Timing {
    last_time: u128,
    time: u128,
    last_instant: Option<Instant>,
    stopped: bool,
    constant_fps: Option<u32>,
}

impl Timing {
    pub closed spec fn last_time_spec(&self) -> int {
        self.last_time as int
    }

    pub closed spec fn time_spec(&self) -> int {
        self.time as int
    }

    pub closed spec fn stopped_spec(&self) -> bool {
        self.stopped
    }

    /// The wall-clock reading of the previous tick, if any.
    pub closed spec fn instant_spec(&self) -> Option<Instant> {
        self.last_instant
    }

    /// The clock has read the wall clock at an earlier tick.
    pub closed spec fn has_instant_spec(&self) -> bool {
        self.last_instant is Some
    }

    pub closed spec fn fps_spec(&self) -> Option<u32> {
        self.constant_fps
    }

    pub closed spec fn wf(&self) -> bool {
        &&& self.last_time <= MAX_NANOS
        &&& self.time <= MAX_NANOS
        &&& self.constant_fps != Some(0u32)
    }

    /// A stopped clock at zero; with `constant_fps`, each tick advances by
    /// one frame of that rate, whether stopped or not.
    pub fn new(constant_fps: Option<u32>) -> (r: Timing)
        requires
            constant_fps != Some(0u32),
        ensures
            r.wf(),
            r.last_time_spec() == 0,
            r.time_spec() == 0,
            r.stopped_spec(),
            r.fps_spec() == constant_fps,
            !r.has_instant_spec(),
    {
        Timing { last_time: 0, time: 0, last_instant: None, stopped: true, constant_fps }
    }

    /// One tick, `elapsed` being the wall-clock nanoseconds since the previous
    /// one: the current time becomes the last, and the clock moves on by one
    /// frame at a fixed rate, else by `elapsed` unless stopped.
    pub fn tick(&mut self, elapsed: u128)
        requires
            old(self).wf(),
        ensures
            final(self).wf(),
            final(self).last_time_spec() == old(self).time_spec(),
            final(self).time_spec() == match old(self).fps_spec() {
                Some(fps) => saturating_sum(old(self).time_spec(), 1_000_000_000int / fps as int),
                None => if old(self).stopped_spec() {
                    old(self).time_spec()
                } else {
                    saturating_sum(old(self).time_spec(), elapsed as int)
                },
            },
            final(self).stopped_spec() == old(self).stopped_spec(),
            final(self).fps_spec() == old(self).fps_spec(),
            final(self).has_instant_spec() == old(self).has_instant_spec(),
    {
        self.last_time = self.time;
        match self.constant_fps {
            Some(fps) => {
                self.time = add_nanos(self.time, (1_000_000_000u32 / fps) as u128);
            },
            None => {
                if !self.stopped {
                    self.time = add_nanos(self.time, elapsed);
                }
            },
        }
    }

    /// One tick of the clock, reading the wall clock unless the frame rate is
    /// fixed.
    pub fn update(&mut self)
        requires
            old(self).wf(),
        ensures
            final(self).wf(),
            final(self).last_time_spec() == old(self).time_spec(),
            old(self).fps_spec() matches Some(fps) ==> final(self).time_spec() == saturating_sum(
                old(self).time_spec(),
                1_000_000_000int / fps as int,
            ),
            old(self).stopped_spec() && old(self).fps_spec() is None ==> final(self).time_spec()
                == old(self).time_spec(),
            final(self).time_spec() >= old(self).time_spec(),
            old(self).fps_spec() is None && !old(self).has_instant_spec() ==> final(self).time_spec()
                == old(self).time_spec(),
            old(self).fps_spec() is None ==> final(self).has_instant_spec(),
            old(self).fps_spec() is Some ==> final(self).has_instant_spec() == old(self).has_instant_spec(),
            final(self).stopped_spec() == old(self).stopped_spec(),
            final(self).fps_spec() == old(self).fps_spec(),
    {
        let elapsed = if self.constant_fps.is_some() {
            0
        } else {
            let now = instant_now();
            let e = match self.last_instant {
                Some(last) => nanos_between(last, now),
                None => 0,
            };
            self.last_instant = Some(now);
            e
        };
        self.tick(elapsed);
    }

    /// The time at the previous tick, in nanoseconds.
    pub fn last_time(&self) -> (r: u128)
        ensures
            r == self.last_time_spec(),
    {
        self.last_time
    }

    /// The time at this tick, in nanoseconds.
    pub fn current_time(&self) -> (r: u128)
        ensures
            r == self.time_spec(),
    {
        self.time
    }

    pub fn toggle_stopped(&mut self)
        ensures
            final(self).stopped_spec() == !old(self).stopped_spec(),
            final(self).last_time_spec() == old(self).last_time_spec(),
            final(self).time_spec() == old(self).time_spec(),
            final(self).fps_spec() == old(self).fps_spec(),
            final(self).has_instant_spec() == old(self).has_instant_spec(),
            final(self).instant_spec() == old(self).instant_spec(),
            old(self).wf() ==> final(self).wf(),
    {
        self.stopped = !self.stopped;
    }

    /// Jumps ahead by `amount` nanoseconds (held at `MAX_NANOS`); the
    /// previous tick is taken to be here too.
    pub fn seek_forward(&mut self, amount: u128)
        requires
            old(self).wf(),
        ensures
            final(self).wf(),
            final(self).time_spec() == saturating_sum(old(self).time_spec(), amount as int),
            final(self).last_time_spec() == final(self).time_spec(),
            final(self).stopped_spec() == old(self).stopped_spec(),
            final(self).fps_spec() == old(self).fps_spec(),
    {
        self.time = add_nanos(self.time, amount);
        self.last_time = self.time;
    }

    /// Jumps back by `amount` nanoseconds (held at zero); the previous tick
    /// is taken to be here too.
    pub fn seek_backwards(&mut self, amount: u128)
        requires
            old(self).wf(),
        ensures
            final(self).wf(),
            final(self).time_spec() == if amount > old(self).time_spec() {
                0
            } else {
                old(self).time_spec() - amount
            },
            final(self).last_time_spec() == final(self).time_spec(),
            final(self).stopped_spec() == old(self).stopped_spec(),
            final(self).fps_spec() == old(self).fps_spec(),
    {
        self.time = if amount > self.time {
            0
        } else {
            self.time - amount
        };
        self.last_time = self.time;
    }

    /// The time at the previous tick in notes of `music`: `tempo` per
    /// minute. `None` where that does not fit the fraction type.
    pub fn last_musical_time(&self, music: &PianoPhase) -> (r: Option<Rational>)
        requires
            self.wf(),
        ensures
            r matches Some(t) ==> t.wf() && is_ratio(
                t,
                music.tempo * self.last_time_spec(),
                NANOS_PER_MINUTE as int,
            ),
            r is None <==> music.tempo * self.last_time_spec() > i64::MAX,
    {
        musical_time(music.tempo, self.last_time)
    }

    /// The time at this tick in notes of `music`: `tempo` per minute. `None`
    /// where that does not fit the fraction type.
    pub fn current_musical_time(&self, music: &PianoPhase) -> (r: Option<Rational>)
        requires
            self.wf(),
        ensures
            r matches Some(t) ==> t.wf() && is_ratio(t, music.tempo * self.time_spec(), NANOS_PER_MINUTE as int),
            r is None <==> music.tempo * self.time_spec() > i64::MAX,
    {
        musical_time(music.tempo, self.time)
    }
}

/// `a + b` nanoseconds, held at `MAX_NANOS`.
fn add_nanos(a: u128, b: u128) -> (r: u128)
    requires
        a <= MAX_NANOS,
    ensures
        r == saturating_sum(a as int, b as int),
{
    if b > MAX_NANOS - a {
        MAX_NANOS
    } else {
        a + b
    }
}

/// `tempo * nanos / NANOS_PER_MINUTE` as a fraction, where it fits.
fn musical_time(tempo: u16, nanos: u128) -> (r: Option<Rational>)
    ensures
        r matches Some(t) ==> t.wf() && is_ratio(t, tempo * nanos, NANOS_PER_MINUTE as int),
        r is None <==> tempo * nanos > i64::MAX,
{
    if tempo == 0 {
        return Rational::new(0, NANOS_PER_MINUTE);
    }
    if nanos > (i64::MAX as u128) / (tempo as u128) {
        proof {
            assert(tempo * nanos > i64::MAX) by (nonlinear_arith)
                requires
                    nanos > (i64::MAX as int) / (tempo as int),
                    tempo >= 1,
            ;
        }
        return None;
    }
    proof {
        assert(tempo * nanos <= i64::MAX) by (nonlinear_arith)
            requires
                nanos <= (i64::MAX as int) / (tempo as int),
                tempo >= 1,
        ;
    }
    let numer = (tempo as i64) * (nanos as i64);
    Rational::new(numer, NANOS_PER_MINUTE)
}

/// One note after note `n` stops sounding, as a fraction.
pub open spec fn note_release_after(n: FlattenedNote) -> (int, int) {
    (
        n.time.numer * n.length.denom + n.length.numer * n.time.denom + n.time.denom * n.length.denom,
        n.time.denom * n.length.denom,
    )
}

/// `now` lies more than one note past the end of `n`.
pub open spec fn note_long_over(n: FlattenedNote, now: Rational) -> bool {
    note_release_after(n).0 * now.denom < now.numer * note_release_after(n).1
}

/// Every note's end, and one note after it, can be computed within `i64`.
pub open spec fn release_fits(notes: Seq<FlattenedNote>) -> bool {
    forall|i: int|
        0 <= i < notes.len() ==> fits_add(#[trigger] notes[i].time, notes[i].length) && lowest_small(
            note_end(notes[i]).0,
            note_end(notes[i]).1,
        )
}

/// Whether every note of `notes` is over by more than one note at `now`;
/// `None` where a time does not fit the fraction type.
fn all_notes_over(notes: &Vec<FlattenedNote>, now: Rational) -> (r: Option<bool>)
    requires
        now.wf(),
        forall|i: int| 0 <= i < notes@.len() ==> (#[trigger] notes@[i]).wf(),
    ensures
        r matches Some(b) ==> (b <==> forall|i: int|
            0 <= i < notes@.len() ==> note_long_over(#[trigger] notes@[i], now)),
        release_fits(notes@) ==> r is Some,
{
    let one = Rational::one();
    let mut k: usize = 0;
    while k < notes.len()
        invariant
            now.wf(),
            one.wf() && one.numer == 1 && one.denom == 1,
            release_fits(notes@) ==> forall|i: int| 0 <= i < notes@.len() ==> fits_add(
                #[trigger] notes@[i].time,
                notes@[i].length,
            ) && lowest_small(note_end(notes@[i]).0, note_end(notes@[i]).1),
            k <= notes@.len(),
            forall|i: int| 0 <= i < notes@.len() ==> (#[trigger] notes@[i]).wf(),
            forall|i: int| 0 <= i < k ==> note_long_over(#[trigger] notes@[i], now),
        decreases notes@.len() - k,
    {
        let n = notes[k];
        assert(notes@[k as int].wf());
        assert(release_fits(notes@) ==> fits_add(notes@[k as int].time, notes@[k as int].length)
            && lowest_small(note_end(n).0, note_end(n).1));
        let end = match n.time.checked_add(&n.length) {
            Some(e) => e,
            None => return None,
        };
        proof {
            if release_fits(notes@) {
                lemma_lowest_small(end, note_end(n).0, note_end(n).1);
                assert(small(one));
                lemma_small_fits(end, one);
            }
        }
        let limit = match end.checked_add(&one) {
            Some(l) => l,
            None => return None,
        };
        proof {
            let (tn, td, ln, ld) = (n.time.numer as int, n.time.denom as int, n.length.numer as int, n.length.denom as int);
            let e = tn * ld + ln * td;
            let q = td * ld;
            lemma_sum_value(end, one, limit, e, q, 1, 1);
            assert(q > 0) by (nonlinear_arith)
                requires
                    q == td * ld,
                    td > 0,
                    ld > 0,
            ;
            assert(e * 1 + 1 * q == e + q && q * 1 == q);
            lemma_lt_iff_ratio(limit, e + q, q, now);
        }
        if !limit.less_than(&now) {
            return Some(false);
        }
        k = k + 1;
    }
    Some(true)
}

impl Timing {
    /// Whether playback is over: every note of both parts ended more than one
    /// note before the current time. `None` where a time does not fit the
    /// fraction type.
    pub fn should_end(&self, music: &PianoPhase) -> (r: Option<bool>)
        requires
            self.wf(),
            music.wf(),
        ensures
            r matches Some(b) ==> exists|now: Rational|
                {
                    &&& now.wf()
                    &&& is_ratio(now, music.tempo * self.time_spec(), NANOS_PER_MINUTE as int)
                    &&& (b <==> (forall|i: int|
                        0 <= i < music.part1.flattened@.len() ==> note_long_over(
                            #[trigger] music.part1.flattened@[i],
                            now,
                        )) && (forall|i: int|
                        0 <= i < music.part2.flattened@.len() ==> note_long_over(
                            #[trigger] music.part2.flattened@[i],
                            now,
                        )))
                },
            music.tempo * self.time_spec() <= i64::MAX && release_fits(music.part1.flattened@) && release_fits(
                music.part2.flattened@,
            ) ==> r is Some,
    {
        let now = match self.current_musical_time(music) {
            Some(t) => t,
            None => return None,
        };
        proof {
            assert(forall|i: int|
                0 <= i < music.part1.flattened@.len() ==> (#[trigger] music.part1.flattened@[i]).wf());
            assert(forall|i: int|
                0 <= i < music.part2.flattened@.len() ==> (#[trigger] music.part2.flattened@[i]).wf());
        }
        let first = match all_notes_over(&music.part1.flattened, now) {
            Some(b) => b,
            None => return None,
        };
        let second = match all_notes_over(&music.part2.flattened, now) {
            Some(b) => b,
            None => return None,
        };
        Some(first && second)
    }
}

} // verus!
