use num_rational::Ratio;
use num_traits::{CheckedAdd, CheckedDiv, CheckedMul, CheckedSub};
use vstd::arithmetic::div_mod::lemma_fundamental_div_mod;
use vstd::prelude::*;

verus! {

/// An exact fraction `numer / denom`, used for every time, duration, speed
/// and volume of the score.
///
/// Two values are equal (`==`) when they stand for the same number, whatever
/// their representation.
#[derive(Clone, Copy, Debug)]
pub struct Rational {
    pub numer: i64,
    pub denom: i64,
}

/// The greatest common divisor by Euclid's steps, for non-negative numbers.
pub open spec fn gcd_spec(a: int, b: int) -> int
    decreases b,
{
    if b <= 0 {
        a
    } else {
        gcd_spec(b, a % b)
    }
}

/// `m` is a multiple of `d`.
pub open spec fn divides(d: int, m: int) -> bool {
    exists|c: int| #[trigger] (d * c) == m
}

pub proof fn lemma_gcd_divides(a: int, b: int)
    requires
        a >= 0,
        b >= 0,
        a > 0 || b > 0,
    ensures
        gcd_spec(a, b) > 0,
        divides(gcd_spec(a, b), a),
        divides(gcd_spec(a, b), b),
    decreases b,
{
    if b == 0 {
        assert(a * 1 == a);
        assert(a * 0 == 0);
    } else {
        lemma_fundamental_div_mod(a, b);
        lemma_gcd_divides(b, a % b);
        let g = gcd_spec(b, a % b);
        let u = choose|c: int| #[trigger] (g * c) == b;
        let w = choose|c: int| #[trigger] (g * c) == a % b;
        assert(g * (u * (a / b) + w) == a) by (nonlinear_arith)
            requires
                g * u == b,
                g * w == a % b,
                a == b * (a / b) + a % b,
        ;
    }
}

/// The absolute value of `x`.
pub open spec fn abs(x: int) -> int {
    if x < 0 {
        -x
    } else {
        x
    }
}

/// `x` is in lowest terms.
pub open spec fn reduced(x: Rational) -> bool {
    gcd_spec(abs(x.numer as int), x.denom as int) == 1
}

/// Parts below this bound multiply and add without leaving `i64`.
pub const SMALL: i64 = 0x8000_0000;

/// Both parts of `x` lie below `SMALL` in magnitude.
pub open spec fn small(x: Rational) -> bool {
    abs(x.numer as int) < SMALL && x.denom < SMALL
}

/// The number `p / q`, written in lowest terms, has parts below `SMALL`.
pub open spec fn lowest_small(p: int, q: int) -> bool {
    &&& q > 0
    &&& abs(p) / gcd_spec(abs(p), q) < SMALL
    &&& q / gcd_spec(abs(p), q) < SMALL
}

/// The steps of `a + b` stay within `i64`.
pub open spec fn fits_add(a: Rational, b: Rational) -> bool {
    &&& abs(a.numer * b.denom) <= i64::MAX
    &&& abs(b.numer * a.denom) <= i64::MAX
    &&& abs(a.numer * b.denom + b.numer * a.denom) <= i64::MAX
    &&& a.denom * b.denom <= i64::MAX
}

/// The steps of `a - b` stay within `i64`.
pub open spec fn fits_sub(a: Rational, b: Rational) -> bool {
    &&& abs(a.numer * b.denom) <= i64::MAX
    &&& abs(b.numer * a.denom) <= i64::MAX
    &&& abs(a.numer * b.denom - b.numer * a.denom) <= i64::MAX
    &&& a.denom * b.denom <= i64::MAX
}

/// The steps of `a * b` stay within `i64`.
pub open spec fn fits_mul(a: Rational, b: Rational) -> bool {
    abs(a.numer * b.numer) <= i64::MAX && abs(a.denom * b.denom) <= i64::MAX
}

/// The steps of `a / b` stay within `i64`.
pub open spec fn fits_div(a: Rational, b: Rational) -> bool {
    abs(a.numer * b.denom) <= i64::MAX && abs(a.denom * b.numer) <= i64::MAX
}

pub proof fn lemma_bezout(a: int, b: int)
    requires
        a >= 0,
        b >= 0,
    ensures
        exists|x: int, y: int| #[trigger] (a * x) + #[trigger] (b * y) == gcd_spec(a, b),
    decreases b,
{
    if b == 0 {
        assert(a * 1 + b * 0 == gcd_spec(a, b));
    } else {
        lemma_fundamental_div_mod(a, b);
        lemma_bezout(b, a % b);
        let (x, y) = choose|x: int, y: int| #[trigger] (b * x) + #[trigger] ((a % b) * y) == gcd_spec(b, a % b);
        let q = a / b;
        assert(a * y + b * (x - q * y) == gcd_spec(a, b)) by (nonlinear_arith)
            requires
                b * x + (a % b) * y == gcd_spec(b, a % b),
                gcd_spec(a, b) == gcd_spec(b, a % b),
                a == b * q + a % b,
        ;
    }
}

/// Euclid's lemma: a divisor of `n * q` with no factor in common with `n`
/// divides `q`.
pub proof fn lemma_euclid(n: int, d: int, q: int)
    requires
        d > 0,
        gcd_spec(abs(n), d) == 1,
        divides(d, n * q),
    ensures
        divides(d, q),
{
    lemma_bezout(abs(n), d);
    let (x, y) = choose|x: int, y: int| #[trigger] (abs(n) * x) + #[trigger] (d * y) == gcd_spec(abs(n), d);
    let c = choose|c: int| #[trigger] (d * c) == n * q;
    let s: int = if n < 0 { -1 } else { 1 };
    assert(abs(n) == s * n) by (nonlinear_arith)
        requires
            s == (if n < 0 { -1int } else { 1int }),
            abs(n) == (if n < 0 { -n } else { n }),
    ;
    assert(d * (s * c * x + q * y) == q) by (nonlinear_arith)
        requires
            abs(n) * x + d * y == 1,
            d * c == n * q,
            abs(n) == s * n,
    ;
}

/// A value in lowest terms has parts no larger than any other fraction of
/// its number.
pub proof fn lemma_reduced_bound(x: Rational, p: int, q: int)
    requires
        x.denom > 0,
        reduced(x),
        q != 0,
        is_ratio(x, p, q),
    ensures
        x.denom <= abs(q),
        abs(x.numer as int) <= abs(p),
{
    let (n, d) = (x.numer as int, x.denom as int);
    let (p2, q2) = if q < 0 { (-p, -q) } else { (p, q) };
    assert(n * q2 == p2 * d) by (nonlinear_arith)
        requires
            n * q == p * d,
            (p2 == p && q2 == q) || (p2 == -p && q2 == -q),
    ;
    assert(d * p2 == n * q2) by (nonlinear_arith)
        requires
            n * q2 == p2 * d,
    ;
    lemma_euclid(n, d, q2);
    let c = choose|c: int| #[trigger] (d * c) == q2;
    assert(c >= 1) by (nonlinear_arith)
        requires
            d * c == q2,
            d > 0,
            q2 > 0,
    ;
    assert(d <= q2) by (nonlinear_arith)
        requires
            d * c == q2,
            d > 0,
            c >= 1,
    ;
    assert(abs(n) * q2 == abs(p2) * d) by (nonlinear_arith)
        requires
            n * q2 == p2 * d,
            q2 > 0,
            d > 0,
    ;
    assert(abs(n) <= abs(p2)) by (nonlinear_arith)
        requires
            abs(n) * q2 == abs(p2) * d,
            d <= q2,
            d > 0,
            abs(n) >= 0,
            abs(p2) >= 0,
    ;
}

/// A value in lowest terms of a number whose lowest terms are small is
/// small.
pub proof fn lemma_lowest_small(x: Rational, p: int, q: int)
    requires
        x.denom > 0,
        reduced(x),
        is_ratio(x, p, q),
        lowest_small(p, q),
    ensures
        small(x),
{
    lemma_gcd_divides(abs(p), q);
    let g = gcd_spec(abs(p), q);
    let u = choose|c: int| #[trigger] (g * c) == abs(p);
    let v = choose|c: int| #[trigger] (g * c) == q;
    vstd::arithmetic::div_mod::lemma_div_multiples_vanish(u, g);
    vstd::arithmetic::div_mod::lemma_div_multiples_vanish(v, g);
    let s: int = if p < 0 { -1 } else { 1 };
    assert(p == g * (s * u)) by (nonlinear_arith)
        requires
            g * u == abs(p),
            s == (if p < 0 { -1int } else { 1int }),
            abs(p) == (if p < 0 { -p } else { p }),
    ;
    assert(p * v == (s * u) * q) by (nonlinear_arith)
        requires
            p == g * (s * u),
            g * v == q,
    ;
    assert(v > 0) by (nonlinear_arith)
        requires
            g * v == q,
            q > 0,
            g > 0,
    ;
    lemma_ratio_transfer(x, p, q, s * u, v);
    lemma_reduced_bound(x, s * u, v);
    assert(abs(s * u) == u) by (nonlinear_arith)
        requires
            s == 1 || s == -1,
            u >= 0,
    ;
}

/// The denominator of `p / q` in lowest terms.
pub open spec fn lowest_denom(p: int, q: int) -> int {
    q / gcd_spec(abs(p), q)
}

/// A value in lowest terms has the lowest-terms denominator of its number.
pub proof fn lemma_reduced_denom(x: Rational, p: int, q: int)
    requires
        x.denom > 0,
        reduced(x),
        q > 0,
        is_ratio(x, p, q),
    ensures
        x.denom == lowest_denom(p, q),
{
    lemma_gcd_divides(abs(p), q);
    let g = gcd_spec(abs(p), q);
    let u = choose|c: int| #[trigger] (g * c) == abs(p);
    let v = choose|c: int| #[trigger] (g * c) == q;
    vstd::arithmetic::div_mod::lemma_div_multiples_vanish(v, g);
    assert(q / g == v);
    lemma_bezout(abs(p), q);
    let (bx, by) = choose|bx: int, by: int| #[trigger] (abs(p) * bx) + #[trigger] (q * by) == gcd_spec(abs(p), q);
    assert(g * (u * bx + v * by) == g * 1) by (nonlinear_arith)
        requires
            abs(p) * bx + q * by == g,
            g * u == abs(p),
            g * v == q,
    ;
    assert(u * bx + v * by == 1) by (nonlinear_arith)
        requires
            g * (u * bx + v * by) == g * 1,
            g > 0,
    ;
    let s: int = if p < 0 { -1 } else { 1 };
    assert(p == g * (s * u)) by (nonlinear_arith)
        requires
            g * u == abs(p),
            s == (if p < 0 { -1int } else { 1int }),
            abs(p) == (if p < 0 { -p } else { p }),
    ;
    assert(p * v == (s * u) * q) by (nonlinear_arith)
        requires
            p == g * (s * u),
            g * v == q,
    ;
    assert(v > 0) by (nonlinear_arith)
        requires
            g * v == q,
            q > 0,
            g > 0,
    ;
    lemma_ratio_transfer(x, p, q, s * u, v);
    let (n, d) = (x.numer as int, x.denom as int);
    assert(d * (s * u) == n * v) by (nonlinear_arith)
        requires
            n * v == (s * u) * d,
    ;
    lemma_euclid(n, d, v);
    let a = choose|c: int| #[trigger] (d * c) == v;
    assert(d == d * (u * bx + v * by)) by (nonlinear_arith)
        requires
            u * bx + v * by == 1,
    ;
    assert(d * (u * bx + v * by) == (u * d) * bx + v * (d * by)) by (nonlinear_arith);
    assert(s * s == 1);
    assert(s * (n * v) == s * ((s * u) * d));
    assert(s * ((s * u) * d) == (s * s) * (u * d)) by (nonlinear_arith);
    assert(u * d == s * n * v) by (nonlinear_arith)
        requires
            s * (n * v) == (s * s) * (u * d),
            s * s == 1,
    ;
    assert((s * n * v) * bx + v * (d * by) == v * (s * n * bx + d * by)) by (nonlinear_arith);
    let b = s * n * bx + d * by;
    assert(d == v) by (nonlinear_arith)
        requires
            d * a == v,
            d == v * b,
            d > 0,
            v > 0,
    ;
}

/// A fraction that equals `m / grid` has, in lowest terms, a denominator of
/// at most `grid` and a numerator of at most `m`.
pub proof fn lemma_lowest_of_grid(p: int, q: int, m: int, grid: int)
    requires
        q > 0,
        grid > 0,
        m >= 0,
        p * grid == m * q,
    ensures
        q / gcd_spec(abs(p), q) <= grid,
        abs(p) / gcd_spec(abs(p), q) <= m,
{
    assert(p >= 0) by (nonlinear_arith)
        requires
            p * grid == m * q,
            m >= 0,
            q > 0,
            grid > 0,
    ;
    lemma_gcd_divides(abs(p), q);
    let g = gcd_spec(abs(p), q);
    let u = choose|c: int| #[trigger] (g * c) == abs(p);
    let v = choose|c: int| #[trigger] (g * c) == q;
    vstd::arithmetic::div_mod::lemma_div_multiples_vanish(u, g);
    vstd::arithmetic::div_mod::lemma_div_multiples_vanish(v, g);
    lemma_bezout(abs(p), q);
    let (bx, by) = choose|bx: int, by: int| #[trigger] (abs(p) * bx) + #[trigger] (q * by) == gcd_spec(abs(p), q);
    assert(g * (u * bx + v * by) == g * 1) by (nonlinear_arith)
        requires
            abs(p) * bx + q * by == g,
            g * u == abs(p),
            g * v == q,
    ;
    assert(u * bx + v * by == 1) by (nonlinear_arith)
        requires
            g * (u * bx + v * by) == g * 1,
            g > 0,
    ;
    assert(v > 0 && u >= 0) by (nonlinear_arith)
        requires
            g * v == q,
            g * u == abs(p),
            q > 0,
            g > 0,
            abs(p) >= 0,
    ;
    assert(g * (u * grid) == g * (m * v)) by (nonlinear_arith)
        requires
            p * grid == m * q,
            g * u == p,
            g * v == q,
    ;
    assert(u * grid == m * v) by (nonlinear_arith)
        requires
            g * (u * grid) == g * (m * v),
            g > 0,
    ;
    assert(grid == grid * (u * bx + v * by)) by (nonlinear_arith)
        requires
            u * bx + v * by == 1,
    ;
    assert(grid * (u * bx + v * by) == (u * grid) * bx + v * (grid * by)) by (nonlinear_arith);
    assert((m * v) * bx + v * (grid * by) == v * (m * bx + grid * by)) by (nonlinear_arith);
    let c = m * bx + grid * by;
    assert(v * c == grid);
    assert(v <= grid) by (nonlinear_arith)
        requires
            v * c == grid,
            v > 0,
            grid > 0,
    ;
    assert(u <= m) by (nonlinear_arith)
        requires
            u * grid == m * v,
            v <= grid,
            v > 0,
            u >= 0,
            m >= 0,
            grid > 0,
    ;
}

/// Small values keep every step of their arithmetic within `i64`.
pub proof fn lemma_small_fits(a: Rational, b: Rational)
    requires
        a.denom > 0,
        b.denom > 0,
        small(a),
        small(b),
    ensures
        fits_add(a, b),
        fits_sub(a, b),
        fits_mul(a, b),
        fits_div(a, b),
{
    let (an, ad, bn, bd) = (a.numer as int, a.denom as int, b.numer as int, b.denom as int);
    assert(-0x8000_0000 < an < 0x8000_0000 && -0x8000_0000 < bn < 0x8000_0000);
    assert(0 < ad < 0x8000_0000 && 0 < bd < 0x8000_0000);
    assert(-0x4000_0000_0000_0000 < an * bd < 0x4000_0000_0000_0000) by (nonlinear_arith)
        requires
            -0x8000_0000 < an < 0x8000_0000,
            0 < bd < 0x8000_0000,
    ;
    assert(-0x4000_0000_0000_0000 < bn * ad < 0x4000_0000_0000_0000) by (nonlinear_arith)
        requires
            -0x8000_0000 < bn < 0x8000_0000,
            0 < ad < 0x8000_0000,
    ;
    assert(-0x4000_0000_0000_0000 < an * bn < 0x4000_0000_0000_0000) by (nonlinear_arith)
        requires
            -0x8000_0000 < an < 0x8000_0000,
            -0x8000_0000 < bn < 0x8000_0000,
    ;
    assert(0 < ad * bd < 0x4000_0000_0000_0000) by (nonlinear_arith)
        requires
            0 < ad < 0x8000_0000,
            0 < bd < 0x8000_0000,
    ;
    assert(ad * bn == bn * ad) by (nonlinear_arith);
}

/// `x` stands for the number `p / q`.
pub open spec fn is_ratio(x: Rational, p: int, q: int) -> bool {
    x.numer * q == p * x.denom
}

/// `a` and `b` stand for the same number.
pub open spec fn eqv(a: Rational, b: Rational) -> bool {
    is_ratio(a, b.numer as int, b.denom as int)
}

/// The number of `a` is smaller than that of `b` (for positive denominators).
pub open spec fn lt(a: Rational, b: Rational) -> bool {
    a.numer * b.denom < b.numer * a.denom
}

/// The number of `a` is at most that of `b` (for positive denominators).
pub open spec fn le(a: Rational, b: Rational) -> bool {
    a.numer * b.denom <= b.numer * a.denom
}

impl Rational {
    /// A positive denominator, and a numerator that can be negated.
    pub open spec fn wf(self) -> bool {
        self.denom > 0 && self.numer > i64::MIN
    }

    pub fn from_integer(n: i64) -> (r: Rational)
        requires
            n > i64::MIN,
        ensures
            r.wf(),
            r.numer == n,
            r.denom == 1,
    {
        Rational { numer: n, denom: 1 }
    }

    pub fn zero() -> (r: Rational)
        ensures
            r.wf(),
            r.numer == 0,
            r.denom == 1,
    {
        Rational { numer: 0, denom: 1 }
    }

    pub fn one() -> (r: Rational)
        ensures
            r.wf(),
            r.numer == 1,
            r.denom == 1,
    {
        Rational { numer: 1, denom: 1 }
    }

    /// The number `numer / denom` with a positive denominator; `None` only
    /// where its numerator comes out as `i64::MIN`.
    pub fn new(numer: i64, denom: i64) -> (r: Option<Rational>)
        requires
            denom != 0,
            numer > i64::MIN,
            denom > i64::MIN,
        ensures
            r matches Some(x) ==> x.wf() && is_ratio(x, numer as int, denom as int) && reduced(x),
            numer >= 0 && denom > 0 ==> r is Some,
    {
        let x = ratio_new(numer, denom);
        proof {
            if numer >= 0 && denom > 0 {
                assert(x.numer >= 0) by (nonlinear_arith)
                    requires
                        x.numer * denom == numer * x.denom,
                        numer >= 0,
                        denom > 0,
                        x.denom > 0,
                ;
            }
        }
        if x.numer > i64::MIN {
            Some(x)
        } else {
            None
        }
    }

    /// `self + o`, or `None` where a step of the computation leaves `i64`.
    pub fn checked_add(&self, o: &Rational) -> (r: Option<Rational>)
        requires
            self.wf(),
            o.wf(),
        ensures
            r matches Some(x) ==> x.wf() && is_ratio(
                x,
                self.numer * o.denom + o.numer * self.denom,
                self.denom * o.denom,
            ),
            r matches Some(x) ==> reduced(x),
            fits_add(*self, *o) ==> r is Some,
    {
        match ratio_checked_add(*self, *o) {
            Some(x) => if x.numer > i64::MIN {
                Some(x)
            } else {
                proof {
                    if fits_add(*self, *o) {
                        assert(self.denom * o.denom != 0) by (nonlinear_arith)
                            requires
                            self.denom > 0,
                            o.denom > 0,
                        ;
                        lemma_reduced_bound(x, self.numer * o.denom + o.numer * self.denom, self.denom * o.denom);
                    }
                }
                None
            },
            None => None,
        }
    }

    /// `self - o`, or `None` where a step of the computation leaves `i64`.
    pub fn checked_sub(&self, o: &Rational) -> (r: Option<Rational>)
        requires
            self.wf(),
            o.wf(),
        ensures
            r matches Some(x) ==> x.wf() && is_ratio(
                x,
                self.numer * o.denom - o.numer * self.denom,
                self.denom * o.denom,
            ),
            r matches Some(x) ==> reduced(x),
            fits_sub(*self, *o) ==> r is Some,
    {
        match ratio_checked_sub(*self, *o) {
            Some(x) => if x.numer > i64::MIN {
                Some(x)
            } else {
                proof {
                    if fits_sub(*self, *o) {
                        assert(self.denom * o.denom != 0) by (nonlinear_arith)
                            requires
                            self.denom > 0,
                            o.denom > 0,
                        ;
                        lemma_reduced_bound(x, self.numer * o.denom - o.numer * self.denom, self.denom * o.denom);
                    }
                }
                None
            },
            None => None,
        }
    }

    /// `self * o`, or `None` where a step of the computation leaves `i64`.
    pub fn checked_mul(&self, o: &Rational) -> (r: Option<Rational>)
        requires
            self.wf(),
            o.wf(),
        ensures
            r matches Some(x) ==> x.wf() && is_ratio(x, self.numer * o.numer, self.denom * o.denom),
            r matches Some(x) ==> reduced(x),
            fits_mul(*self, *o) ==> r is Some,
    {
        match ratio_checked_mul(*self, *o) {
            Some(x) => if x.numer > i64::MIN {
                Some(x)
            } else {
                proof {
                    if fits_mul(*self, *o) {
                        assert(self.denom * o.denom != 0) by (nonlinear_arith)
                            requires
                            self.denom > 0,
                            o.denom > 0,
                        ;
                        lemma_reduced_bound(x, self.numer * o.numer, self.denom * o.denom);
                    }
                }
                None
            },
            None => None,
        }
    }

    /// `self / o`, or `None` where `o` is zero or a step of the computation
    /// leaves `i64`.
    pub fn checked_div(&self, o: &Rational) -> (r: Option<Rational>)
        requires
            self.wf(),
            o.wf(),
        ensures
            o.numer == 0 ==> r is None,
            r matches Some(x) ==> x.wf() && is_ratio(x, self.numer * o.denom, self.denom * o.numer),
            r matches Some(x) ==> reduced(x),
            o.numer != 0 && fits_div(*self, *o) ==> r is Some,
    {
        match ratio_checked_div(*self, *o) {
            Some(x) => if x.numer > i64::MIN {
                Some(x)
            } else {
                proof {
                    if o.numer != 0 && fits_div(*self, *o) {
                        assert(self.denom * o.numer != 0) by (nonlinear_arith)
                            requires
                            self.denom > 0,
                            o.numer != 0,
                        ;
                        lemma_reduced_bound(x, self.numer * o.denom, self.denom * o.numer);
                    }
                }
                None
            },
            None => None,
        }
    }

    /// The number of `self` is smaller than that of `o`.
    pub fn less_than(&self, o: &Rational) -> (r: bool)
        requires
            self.wf(),
            o.wf(),
        ensures
            r == lt(*self, *o),
    {
        proof {
            lemma_cross_fits(self.numer as int, o.denom as int);
            lemma_cross_fits(o.numer as int, self.denom as int);
        }
        (self.numer as i128) * (o.denom as i128) < (o.numer as i128) * (self.denom as i128)
    }

    /// The number of `self` is at most that of `o`.
    pub fn at_most(&self, o: &Rational) -> (r: bool)
        requires
            self.wf(),
            o.wf(),
        ensures
            r == le(*self, *o),
    {
        proof {
            lemma_cross_fits(self.numer as int, o.denom as int);
            lemma_cross_fits(o.numer as int, self.denom as int);
        }
        (self.numer as i128) * (o.denom as i128) <= (o.numer as i128) * (self.denom as i128)
    }

    /// The number of `self` equals that of `o`.
    pub fn same_value(&self, o: &Rational) -> (r: bool)
        requires
            self.wf(),
            o.wf(),
        ensures
            r == eqv(*self, *o),
    {
        proof {
            lemma_cross_fits(self.numer as int, o.denom as int);
            lemma_cross_fits(o.numer as int, self.denom as int);
        }
        (self.numer as i128) * (o.denom as i128) == (o.numer as i128) * (self.denom as i128)
    }
}

pub proof fn lemma_cross_fits(x: int, y: int)
    requires
        i64::MIN <= x <= i64::MAX,
        i64::MIN <= y <= i64::MAX,
    ensures
        i128::MIN <= x * y <= i128::MAX,
{
    assert(-0x8000_0000_0000_0000 <= x <= 0x8000_0000_0000_0000);
    assert(-0x8000_0000_0000_0000 <= y <= 0x8000_0000_0000_0000);
    assert(-0x4000_0000_0000_0000_0000_0000_0000_0000 <= x * y <= 0x4000_0000_0000_0000_0000_0000_0000_0000)
        by (nonlinear_arith)
        requires
            -0x8000_0000_0000_0000 <= x <= 0x8000_0000_0000_0000,
            -0x8000_0000_0000_0000 <= y <= 0x8000_0000_0000_0000,
    ;
}

/// Moving from one fraction to another of the same number keeps what `x`
/// stands for.
pub proof fn lemma_ratio_transfer(x: Rational, p: int, q: int, p2: int, q2: int)
    requires
        is_ratio(x, p, q),
        p * q2 == p2 * q,
        q != 0,
    ensures
        is_ratio(x, p2, q2),
{
    let n = x.numer as int;
    let d = x.denom as int;
    assert(n * q2 * q == p2 * d * q) by (nonlinear_arith)
        requires
            n * q == p * d,
            p * q2 == p2 * q,
    ;
    assert(n * q2 == p2 * d) by (nonlinear_arith)
        requires
            n * q2 * q == p2 * d * q,
            q != 0,
    ;
}

/// Two values that stand for the same fraction are equal as numbers.
pub proof fn lemma_same_ratio(a: Rational, b: Rational, p: int, q: int)
    requires
        is_ratio(a, p, q),
        is_ratio(b, p, q),
        q != 0,
    ensures
        eqv(a, b),
{
    let (an, ad, bn, bd) = (a.numer as int, a.denom as int, b.numer as int, b.denom as int);
    assert(an * bd * q == bn * ad * q) by (nonlinear_arith)
        requires
            an * q == p * ad,
            bn * q == p * bd,
    ;
    assert(an * bd == bn * ad) by (nonlinear_arith)
        requires
            an * bd * q == bn * ad * q,
            q != 0,
    ;
}

/// Over one positive denominator, the larger numerator gives the larger
/// number.
pub proof fn lemma_lt_same_denominator(a: Rational, b: Rational, p: int, p2: int, q: int)
    requires
        a.denom > 0,
        b.denom > 0,
        is_ratio(a, p, q),
        is_ratio(b, p2, q),
        q > 0,
        p < p2,
    ensures
        lt(a, b),
{
    let (an, ad, bn, bd) = (a.numer as int, a.denom as int, b.numer as int, b.denom as int);
    assert(an * bd * q < bn * ad * q) by (nonlinear_arith)
        requires
            an * q == p * ad,
            bn * q == p2 * bd,
            ad > 0,
            bd > 0,
            p < p2,
    ;
    assert(an * bd < bn * ad) by (nonlinear_arith)
        requires
            an * bd * q < bn * ad * q,
            q > 0,
    ;
}

pub proof fn lemma_le_lt_trans(a: Rational, b: Rational, c: Rational)
    requires
        a.denom > 0,
        b.denom > 0,
        c.denom > 0,
        le(a, b),
        lt(b, c),
    ensures
        lt(a, c),
{
    let (an, ad, bn, bd, cn, cd) = (
        a.numer as int,
        a.denom as int,
        b.numer as int,
        b.denom as int,
        c.numer as int,
        c.denom as int,
    );
    assert(an * cd * bd < cn * ad * bd) by (nonlinear_arith)
        requires
            an * bd <= bn * ad,
            bn * cd < cn * bd,
            ad > 0,
            cd > 0,
    ;
    assert(an * cd < cn * ad) by (nonlinear_arith)
        requires
            an * cd * bd < cn * ad * bd,
            bd > 0,
    ;
}

pub proof fn lemma_le_trans(a: Rational, b: Rational, c: Rational)
    requires
        a.denom > 0,
        b.denom > 0,
        c.denom > 0,
        le(a, b),
        le(b, c),
    ensures
        le(a, c),
{
    let (an, ad, bn, bd, cn, cd) = (
        a.numer as int,
        a.denom as int,
        b.numer as int,
        b.denom as int,
        c.numer as int,
        c.denom as int,
    );
    assert(an * cd * bd <= cn * ad * bd) by (nonlinear_arith)
        requires
            an * bd <= bn * ad,
            bn * cd <= cn * bd,
            ad > 0,
            cd > 0,
    ;
    assert(an * cd <= cn * ad) by (nonlinear_arith)
        requires
            an * cd * bd <= cn * ad * bd,
            bd > 0,
    ;
}

proof fn lemma_regroup(an: int, bd: int, bn: int, ad: int, rd: int, y: int, v: int)
    ensures
        (an * bd + bn * ad) * rd * (y * v) == (an * y) * (bd * v * rd) + (bn * v) * (ad * y * rd),
{
    assert((an * bd + bn * ad) * rd * (y * v) == (an * bd) * rd * (y * v) + (bn * ad) * rd * (y * v))
        by (nonlinear_arith);
    assert((an * bd) * rd * (y * v) == (an * y) * (bd * v * rd)) by (nonlinear_arith);
    assert((bn * ad) * rd * (y * v) == (bn * v) * (ad * y * rd)) by (nonlinear_arith);
}

proof fn lemma_regroup_back(x: int, ad: int, bd: int, v: int, rd: int, u: int, y: int)
    ensures
        (x * ad) * (bd * v * rd) + (u * bd) * (ad * y * rd) == (x * v + u * y) * rd * (ad * bd),
{
    assert((x * ad) * (bd * v * rd) == (x * v) * rd * (ad * bd)) by (nonlinear_arith);
    assert((u * bd) * (ad * y * rd) == (u * y) * rd * (ad * bd)) by (nonlinear_arith);
    assert((x * v + u * y) * rd * (ad * bd) == (x * v) * rd * (ad * bd) + (u * y) * rd * (ad * bd))
        by (nonlinear_arith);
}

/// The value of a sum, over the fractions its terms stand for.
pub proof fn lemma_sum_value(a: Rational, b: Rational, r: Rational, x: int, y: int, u: int, v: int)
    requires
        a.denom > 0,
        b.denom > 0,
        is_ratio(a, x, y),
        is_ratio(b, u, v),
        is_ratio(r, a.numer * b.denom + b.numer * a.denom, a.denom * b.denom),
    ensures
        is_ratio(r, x * v + u * y, y * v),
{
    let (an, ad, bn, bd, rn, rd) = (
        a.numer as int,
        a.denom as int,
        b.numer as int,
        b.denom as int,
        r.numer as int,
        r.denom as int,
    );
    assert(rn * (y * v) * (ad * bd) == (rn * (ad * bd)) * (y * v)) by (nonlinear_arith);
    lemma_regroup(an, bd, bn, ad, rd, y, v);
    lemma_regroup_back(x, ad, bd, v, rd, u, y);
    assert(ad * bd > 0) by (nonlinear_arith)
        requires
            ad > 0,
            bd > 0,
    ;
    assert(rn * (y * v) == (x * v + u * y) * rd) by (nonlinear_arith)
        requires
            rn * (y * v) * (ad * bd) == (x * v + u * y) * rd * (ad * bd),
            ad * bd > 0,
    ;
}

pub proof fn lemma_lt_le_trans(a: Rational, b: Rational, c: Rational)
    requires
        a.denom > 0,
        b.denom > 0,
        c.denom > 0,
        lt(a, b),
        le(b, c),
    ensures
        lt(a, c),
{
    let (an, ad, bn, bd, cn, cd) = (
        a.numer as int,
        a.denom as int,
        b.numer as int,
        b.denom as int,
        c.numer as int,
        c.denom as int,
    );
    assert(an * cd * bd < cn * ad * bd) by (nonlinear_arith)
        requires
            an * bd < bn * ad,
            bn * cd <= cn * bd,
            ad > 0,
            cd > 0,
    ;
    assert(an * cd < cn * ad) by (nonlinear_arith)
        requires
            an * cd * bd < cn * ad * bd,
            bd > 0,
    ;
}

/// Comparing two values through fractions that they stand for.
pub proof fn lemma_le_by_ratio(x: Rational, p: int, q: int, y: Rational, p2: int, q2: int)
    requires
        x.denom > 0,
        y.denom > 0,
        q > 0,
        q2 > 0,
        is_ratio(x, p, q),
        is_ratio(y, p2, q2),
        p * q2 <= p2 * q,
    ensures
        le(x, y),
        p * q2 < p2 * q ==> lt(x, y),
{
    let (xn, xd, yn, yd) = (x.numer as int, x.denom as int, y.numer as int, y.denom as int);
    assert(xn * yd * (q * q2) == (p * q2) * (xd * yd)) by (nonlinear_arith)
        requires
            xn * q == p * xd,
    ;
    assert(yn * xd * (q * q2) == (p2 * q) * (xd * yd)) by (nonlinear_arith)
        requires
            yn * q2 == p2 * yd,
    ;
    assert(xd * yd > 0 && q * q2 > 0) by (nonlinear_arith)
        requires
            xd > 0,
            yd > 0,
            q > 0,
            q2 > 0,
    ;
    assert((p * q2) * (xd * yd) <= (p2 * q) * (xd * yd)) by (nonlinear_arith)
        requires
            p * q2 <= p2 * q,
            xd * yd > 0,
    ;
    assert(xn * yd <= yn * xd) by (nonlinear_arith)
        requires
            xn * yd * (q * q2) <= yn * xd * (q * q2),
            q * q2 > 0,
    ;
    if p * q2 < p2 * q {
        assert((p * q2) * (xd * yd) < (p2 * q) * (xd * yd)) by (nonlinear_arith)
            requires
                p * q2 < p2 * q,
                xd * yd > 0,
        ;
        assert(xn * yd < yn * xd) by (nonlinear_arith)
            requires
                xn * yd * (q * q2) < yn * xd * (q * q2),
                q * q2 > 0,
        ;
    }
}

/// Over positive denominators, `x < y` exactly when the fractions they stand
/// for compare so.
pub proof fn lemma_lt_iff_ratio(x: Rational, p: int, q: int, y: Rational)
    requires
        x.denom > 0,
        y.denom > 0,
        q > 0,
        is_ratio(x, p, q),
    ensures
        lt(x, y) <==> p * y.denom < y.numer * q,
{
    let (xn, xd, yn, yd) = (x.numer as int, x.denom as int, y.numer as int, y.denom as int);
    assert(xn * yd * q == (p * yd) * xd) by (nonlinear_arith)
        requires
            xn * q == p * xd,
    ;
    assert(yn * xd * q == (yn * q) * xd) by (nonlinear_arith);
    if xn * yd < yn * xd {
        assert(xn * yd * q < yn * xd * q) by (nonlinear_arith)
            requires
                xn * yd < yn * xd,
                q > 0,
        ;
        assert(p * yd < yn * q) by (nonlinear_arith)
            requires
                (p * yd) * xd < (yn * q) * xd,
                xd > 0,
        ;
    }
    if p * yd < yn * q {
        assert((p * yd) * xd < (yn * q) * xd) by (nonlinear_arith)
            requires
                p * yd < yn * q,
                xd > 0,
        ;
        assert(xn * yd < yn * xd) by (nonlinear_arith)
            requires
                xn * yd * q < yn * xd * q,
                q > 0,
        ;
    }
}

/// Relies on num_rational's `Ratio::new`: it keeps the number
/// `numer / denom`, puts it in lowest terms and gives it a positive
/// denominator. It panics on a zero
/// denominator, and negates the parts where the denominator is negative.
#[verifier::external_body]
fn ratio_new(numer: i64, denom: i64) -> (r: Rational)
    requires
        denom != 0,
        numer > i64::MIN,
        denom > i64::MIN,
    ensures
        r.denom > 0,
        is_ratio(r, numer as int, denom as int),
        reduced(r),
{
    let x = Ratio::new(numer, denom);
    Rational { numer: *x.numer(), denom: *x.denom() }
}

/// Relies on num_rational's `CheckedAdd` for `Ratio<i64>`: the exact sum in
/// lowest terms with a positive denominator, or `None` where an intermediate
/// product or the sum leaves `i64`; each of those is at most the
/// corresponding term of `fits_add` in magnitude.
#[verifier::external_body]
fn ratio_checked_add(a: Rational, b: Rational) -> (r: Option<Rational>)
    requires
        a.wf(),
        b.wf(),
    ensures
        r matches Some(x) ==> x.denom > 0 && is_ratio(
            x,
            a.numer * b.denom + b.numer * a.denom,
            a.denom * b.denom,
        ),
        r matches Some(x) ==> reduced(x),
        fits_add(a, b) ==> r is Some,
{
    match Ratio::new_raw(a.numer, a.denom).checked_add(&Ratio::new_raw(b.numer, b.denom)) {
        Some(x) => Some(Rational { numer: *x.numer(), denom: *x.denom() }),
        None => None,
    }
}

/// Relies on num_rational's `CheckedSub` for `Ratio<i64>`: the exact
/// difference in lowest terms with a positive denominator, or `None` where an
/// intermediate product or the difference leaves `i64`; each of those is at
/// most the corresponding term of `fits_sub` in magnitude.
#[verifier::external_body]
fn ratio_checked_sub(a: Rational, b: Rational) -> (r: Option<Rational>)
    requires
        a.wf(),
        b.wf(),
    ensures
        r matches Some(x) ==> x.denom > 0 && is_ratio(
            x,
            a.numer * b.denom - b.numer * a.denom,
            a.denom * b.denom,
        ),
        r matches Some(x) ==> reduced(x),
        fits_sub(a, b) ==> r is Some,
{
    match Ratio::new_raw(a.numer, a.denom).checked_sub(&Ratio::new_raw(b.numer, b.denom)) {
        Some(x) => Some(Rational { numer: *x.numer(), denom: *x.denom() }),
        None => None,
    }
}

/// Relies on num_rational's `CheckedMul` for `Ratio<i64>`: the exact product
/// in lowest terms with a positive denominator, or `None` where a product of
/// parts, each at most the corresponding term of `fits_mul`, leaves `i64`.
#[verifier::external_body]
fn ratio_checked_mul(a: Rational, b: Rational) -> (r: Option<Rational>)
    requires
        a.wf(),
        b.wf(),
    ensures
        r matches Some(x) ==> x.denom > 0 && is_ratio(x, a.numer * b.numer, a.denom * b.denom),
        r matches Some(x) ==> reduced(x),
        fits_mul(a, b) ==> r is Some,
{
    match Ratio::new_raw(a.numer, a.denom).checked_mul(&Ratio::new_raw(b.numer, b.denom)) {
        Some(x) => Some(Rational { numer: *x.numer(), denom: *x.denom() }),
        None => None,
    }
}

/// Relies on num_rational's `CheckedDiv` for `Ratio<i64>`: `None` for a zero
/// divisor or where a product of parts, each at most the corresponding term
/// of `fits_div` in magnitude, leaves `i64`; else the exact quotient in
/// lowest terms with a positive denominator.
#[verifier::external_body]
fn ratio_checked_div(a: Rational, b: Rational) -> (r: Option<Rational>)
    requires
        a.wf(),
        b.wf(),
    ensures
        b.numer == 0 ==> r is None,
        r matches Some(x) ==> x.denom > 0 && is_ratio(x, a.numer * b.denom, a.denom * b.numer),
        r matches Some(x) ==> reduced(x),
        b.numer != 0 && fits_div(a, b) ==> r is Some,
{
    match Ratio::new_raw(a.numer, a.denom).checked_div(&Ratio::new_raw(b.numer, b.denom)) {
        Some(x) => Some(Rational { numer: *x.numer(), denom: *x.denom() }),
        None => None,
    }
}

impl PartialEq for Rational {
    fn eq(&self, o: &Rational) -> (r: bool) {
        proof {
            lemma_cross_fits(self.numer as int, o.denom as int);
            lemma_cross_fits(o.numer as int, self.denom as int);
        }
        (self.numer as i128) * (o.denom as i128) == (o.numer as i128) * (self.denom as i128)
    }
}

impl vstd::std_specs::cmp::PartialEqSpecImpl for Rational {
    open spec fn obeys_eq_spec() -> bool {
        true
    }

    open spec fn eq_spec(&self, o: &Rational) -> bool {
        eqv(*self, *o)
    }
}

} // verus!
