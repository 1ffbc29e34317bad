//! Spans of time and points on the clock, in nanoseconds.

use crate::binary64;
use crate::binary64::{Binary64, MANTISSA_BOUND};
use crate::float_bounds;
use vstd::prelude::*;

verus! {

/// Nanoseconds in a second.
pub const SECOND: u64 = 1_000_000_000;

/// The first span that is too long: `2^64` seconds.
pub const DURATION_LIMIT: u128 = 0x1_0000_0000_0000_0000 * 1_000_000_000;

/// The first point that the clock cannot count to: `2^63` seconds.
pub const CLOCK_LIMIT: u128 = 0x8000_0000_0000_0000 * 1_000_000_000;

/// Up to this span, `2^46` nanoseconds or some nineteen hours, the errors of double precision
/// are too small to show.
pub const EXACT_LIMIT: u128 = 0x4000_0000_0000;

/// The same for the slots of a frame, whose arithmetic rounds less often: `2^49` nanoseconds or some
/// six and a half days.
pub const SLOT_LIMIT: u128 = 0x2_0000_0000_0000;

/// A span of time.
#[derive(Clone, Copy, Debug, PartialEq, Eq, Structural)]
pub struct Duration {
    pub nanos: u128,
}

/// A point on a clock that never goes back, counted from when the clock started.
#[derive(Clone, Copy, Debug, PartialEq, Eq, Structural)]
pub struct Instant {
    pub nanos: u128,
}

/// A span of `nanos` in seconds, as a double.
pub open spec fn seconds(nanos: nat) -> nat {
    binary64::float_add(
        binary64::float_of(nanos / SECOND as nat),
        binary64::float_div(
            binary64::float_of(nanos % SECOND as nat),
            binary64::float_of(SECOND as nat),
        ),
    )
}

/// The span nearest to so many seconds, a tie going to the even nanosecond.
pub open spec fn from_seconds(secs: nat) -> nat {
    binary64::round_half_even(secs * SECOND as nat, binary64::one())
}

/// A span times a double.
pub open spec fn mul_float(nanos: nat, factor: nat) -> nat {
    from_seconds(binary64::float_mul(factor, seconds(nanos)))
}

/// A span divided by a double.
pub open spec fn div_float(nanos: nat, divisor: nat) -> nat {
    from_seconds(binary64::float_div(seconds(nanos), divisor))
}

/// So many seconds make a span that is not too long.
pub open spec fn is_span(secs: nat) -> bool {
    secs < 0x1_0000_0000_0000_0000 * binary64::one()
}

impl Duration {
    /// The span is not too long.
    pub open spec fn wf(self) -> bool {
        self.nanos < DURATION_LIMIT
    }

    /// No time at all.
    pub fn zero() -> (r: Duration)
        ensures
            r.nanos == 0,
    {
        Duration { nanos: 0 }
    }

    /// A span of whole seconds.
    pub fn from_secs(secs: u64) -> (r: Duration)
        ensures
            r.nanos == secs * 1_000_000_000,
            r.wf(),
    {
        Duration { nanos: secs as u128 * 1_000_000_000 }
    }

    /// A span of whole milliseconds.
    pub fn from_millis(millis: u64) -> (r: Duration)
        ensures
            r.nanos == millis * 1_000_000,
            r.wf(),
    {
        Duration { nanos: millis as u128 * 1_000_000 }
    }

    /// A span of whole microseconds.
    pub fn from_micros(micros: u64) -> (r: Duration)
        ensures
            r.nanos == micros * 1_000,
            r.wf(),
    {
        Duration { nanos: micros as u128 * 1_000 }
    }

    /// Whether the span is no time at all.
    pub fn is_zero(self) -> (r: bool)
        ensures
            r == (self.nanos == 0),
    {
        self.nanos == 0
    }

    /// The longer of two spans.
    pub fn max(self, other: Duration) -> (r: Duration)
        ensures
            r == (if self.nanos < other.nanos {
                other
            } else {
                self
            }),
    {
        if self.nanos < other.nanos {
            other
        } else {
            self
        }
    }

    /// The span in seconds.
    pub fn as_seconds(self) -> (r: Binary64)
        requires
            self.wf(),
        ensures
            r.wf(),
            r.units() == seconds(self.nanos as nat),
            r.exponent <= 1400,
            self.nanos > 0 ==> 800 <= r.exponent,
            self.nanos == 0 ==> r.mantissa == 0,
            r.mantissa == 0 || 2 * r.mantissa >= MANTISSA_BOUND,
    {
        let secs: u64 = (self.nanos / SECOND as u128) as u64;
        let rest: u64 = (self.nanos % SECOND as u128) as u64;
        let whole = Binary64::from_integer(secs);
        let part = Binary64::from_integer(rest);
        let scale = Binary64::from_integer(SECOND);
        let fraction = part.over(scale);
        whole.plus(fraction)
    }

    /// The span nearest to so many seconds.
    pub fn from_seconds(secs: Binary64) -> (r: Duration)
        requires
            secs.wf(),
            secs.exponent <= 2500,
            is_span(secs.units()),
        ensures
            r.nanos == from_seconds(secs.units()),
            r.wf(),
    {
        Duration { nanos: secs.scaled(SECOND) }
    }

    /// The span times a number.
    pub fn times(self, factor: Binary64) -> (r: Duration)
        requires
            self.wf(),
            factor.wf(),
            300 <= factor.exponent <= 1300 || factor.mantissa == 0,
            is_span(binary64::float_mul(factor.units(), seconds(self.nanos as nat))),
        ensures
            r.nanos == mul_float(self.nanos as nat, factor.units()),
            r.wf(),
    {
        Self::from_seconds(factor.times(self.as_seconds()))
    }

    /// The span divided by a number.
    pub fn over(self, divisor: Binary64) -> (r: Duration)
        requires
            self.wf(),
            divisor.wf(),
            divisor.mantissa > 0,
            divisor.exponent <= 1400,
            is_span(binary64::float_div(seconds(self.nanos as nat), divisor.units())),
        ensures
            r.nanos == div_float(self.nanos as nat, divisor.units()),
            r.wf(),
    {
        Self::from_seconds(self.as_seconds().over(divisor))
    }
}

impl Instant {
    /// The clock can count to the point.
    pub open spec fn wf(self) -> bool {
        self.nanos < CLOCK_LIMIT
    }

    /// The span from an earlier point; none if that point is later.
    pub fn saturating_duration_since(self, earlier: Instant) -> (r: Duration)
        ensures
            r == since(self, earlier),
            self.nanos >= earlier.nanos ==> r.nanos == self.nanos - earlier.nanos,
            self.nanos < earlier.nanos ==> r.nanos == 0,
    {
        if self.nanos > earlier.nanos {
            Duration { nanos: self.nanos - earlier.nanos }
        } else {
            Duration::zero()
        }
    }
}

/// The span from one point to a later one, and none to an earlier one.
pub open spec fn since(later: Instant, earlier: Instant) -> Duration {
    if later.nanos > earlier.nanos {
        Duration { nanos: (later.nanos - earlier.nanos) as u128 }
    } else {
        Duration { nanos: 0 }
    }
}

/// The seconds of a span, in terms of one part in `2^53` for each of the two roundings.
pub proof fn lemma_seconds_error(nanos: nat)
    ensures
        seconds(nanos) * SECOND * MANTISSA_BOUND * MANTISSA_BOUND <= nanos * binary64::one() * (
        MANTISSA_BOUND + 1) * (MANTISSA_BOUND + 1),
        nanos * binary64::one() * (MANTISSA_BOUND - 1) * (MANTISSA_BOUND - 1) <= seconds(nanos) * SECOND
            * MANTISSA_BOUND * MANTISSA_BOUND,
        nanos > 0 ==> 2 * SECOND * seconds(nanos) >= binary64::one(),
{
    let (s, f) = (nanos / SECOND as nat, nanos % SECOND as nat);
    let o = binary64::one();
    let b = MANTISSA_BOUND as int;
    float_bounds::lemma_one_is_large();
    float_bounds::lemma_float_of_error(s);
    float_bounds::lemma_float_of_exact(f);
    float_bounds::lemma_float_of_exact(SECOND as nat);
    let whole = binary64::float_of(s);
    let num = f * o;
    let den = SECOND as nat * o;
    let part = binary64::nearest(num, den);
    assert(den > 0);
    // The fraction of a second.
    assert(part * SECOND * b <= f * o * (b + 1) && f * o * (b - 1) <= part * SECOND * b) by {
        if f == 0 {
            assert(num == 0) by (nonlinear_arith)
                requires
                    num == f * o,
                    f == 0,
            ;
            binary64::lemma_nearest_zero(den);
        } else {
            assert(2 * (num * o) >= den * b) by (nonlinear_arith)
                requires
                    num == f * o,
                    den == SECOND * o,
                    f >= 1,
                    o >= SECOND * b,
            ;
            float_bounds::lemma_nearest_error(num, den);
            assert(part * SECOND * b <= f * o * (b + 1) && f * o * (b - 1) <= part * SECOND * b)
                by (nonlinear_arith)
                requires
                    num == f * o,
                    den == SECOND * o,
                    o > 0,
                    (part * den) * b <= (num * o) * (b + 1),
                    (num * o) * (b - 1) <= (part * den) * b,
            ;
        }
    }
    // Their sum, before it is rounded.
    let sum = whole + part;
    assert(nanos == s * SECOND + f) by {
        vstd::arithmetic::div_mod::lemma_fundamental_div_mod(nanos as int, SECOND as int);
    }
    assert(sum * SECOND * b <= nanos * o * (b + 1) && nanos * o * (b - 1) <= sum * SECOND * b)
        by (nonlinear_arith)
        requires
            sum == whole + part,
            nanos == s * SECOND + f,
            whole * b <= (s * o) * (b + 1),
            (s * o) * (b - 1) <= whole * b,
            part * SECOND * b <= f * o * (b + 1),
            f * o * (b - 1) <= part * SECOND * b,
    ;
    let got = seconds(nanos);
    if sum == 0 {
        binary64::lemma_nearest_zero(o);
        assert(nanos == 0) by (nonlinear_arith)
            requires
                nanos * o * (b - 1) <= 0 * SECOND * b,
                o > 0,
                b > 1,
        ;
    } else {
        assert(nanos >= 1) by (nonlinear_arith)
            requires
                sum * SECOND * b <= nanos * o * (b + 1),
                sum >= 1,
                SECOND * b > 0,
        ;
        assert(4 * SECOND * sum >= 3 * o) by (nonlinear_arith)
            requires
                nanos * o * (b - 1) <= sum * SECOND * b,
                nanos >= 1,
                b >= 4,
        ;
        assert(2 * (sum * o) >= o * b) by (nonlinear_arith)
            requires
                4 * SECOND * sum >= 3 * o,
                o >= SECOND * b * 4,
        ;
        float_bounds::lemma_nearest_error(sum, o);
        assert(got * b <= sum * (b + 1) && sum * (b - 1) <= got * b) by (nonlinear_arith)
            requires
                (got * o) * b <= (sum * o) * (b + 1),
                (sum * o) * (b - 1) <= (got * o) * b,
                o > 0,
        ;
        assert(got * SECOND * b * b <= nanos * o * (b + 1) * (b + 1)) by (nonlinear_arith)
            requires
                got * b <= sum * (b + 1),
                sum * SECOND * b <= nanos * o * (b + 1),
                b > 0,
        ;
        assert(nanos * o * (b - 1) * (b - 1) <= got * SECOND * b * b) by (nonlinear_arith)
            requires
                sum * (b - 1) <= got * b,
                nanos * o * (b - 1) <= sum * SECOND * b,
                b > 1,
        ;
        assert(2 * SECOND * got >= o) by (nonlinear_arith)
            requires
                4 * SECOND * sum >= 3 * o,
                sum * (b - 1) <= got * b,
                b >= 4,
        ;
    }
}

/// The seconds of a span times a number near `k / den`, rounded: not much too large.
pub proof fn lemma_product_upper(
    p: int,
    o: int,
    c: int,
    sec: int,
    k: int,
    den: int,
    nanos: int,
    b: int,
)
    requires
        o > 0,
        den > 0,
        b > 0,
        p >= 0,
        c >= 0,
        sec >= 0,
        k >= 0,
        nanos >= 0,
        p * o * b <= c * sec * (b + 1),
        c * den * b <= k * o * (b + 1),
        sec * SECOND * b * b <= nanos * o * (b + 1) * (b + 1),
    ensures
        p * (den * SECOND) * (b * b * b * b) <= k * nanos * o * ((b + 1) * (b + 1) * (b + 1) * (b + 1)),
{
    let d = b + 1;
    let (u, v) = (c * den * b, sec * SECOND * b * b);
    let (s, t) = (k * o * d, nanos * o * d * d);
    assert(u * v <= s * t) by (nonlinear_arith)
        requires
            0 <= u <= s,
            0 <= v <= t,
    ;
    let w = (den * b) * (SECOND * b * b);
    assert(w >= 0) by (nonlinear_arith)
        requires
            w == (den * b) * (SECOND * b * b),
            den > 0,
            b > 0,
    ;
    assert((p * o * b) * w <= (c * sec * d) * w) by (nonlinear_arith)
        requires
            p * o * b <= c * sec * d,
            w >= 0,
    ;
    let (x, y) = (den * b, SECOND * b * b);
    assert(u == c * x && v == sec * y) by (nonlinear_arith)
        requires
            u == c * den * b,
            v == sec * SECOND * b * b,
            x == den * b,
            y == SECOND * b * b,
    ;
    assert((c * sec * d) * w == (u * v) * d) by (nonlinear_arith)
        requires
            u == c * x,
            v == sec * y,
            w == x * y,
    ;
    assert((u * v) * d <= (s * t) * d) by (nonlinear_arith)
        requires
            u * v <= s * t,
            d >= 0,
    ;
    let left = p * (den * SECOND) * (b * b * b * b);
    let right = k * nanos * o * (d * d * d * d);
    assert((p * o * b) * w == left * o) by (nonlinear_arith)
        requires
            left == p * (den * SECOND) * (b * b * b * b),
            w == (den * b) * (SECOND * b * b),
    ;
    assert((s * t) * d == right * o) by (nonlinear_arith)
        requires
            right == k * nanos * o * (d * d * d * d),
            s == k * o * d,
            t == nanos * o * d * d,
    ;
    assert(left <= right) by (nonlinear_arith)
        requires
            left * o <= right * o,
            o > 0,
    ;
}

/// The seconds of a span times a number near `k / den`, rounded: not much too small.
pub proof fn lemma_product_lower(
    p: int,
    o: int,
    c: int,
    sec: int,
    k: int,
    den: int,
    nanos: int,
    b: int,
)
    requires
        o > 0,
        den > 0,
        b > 1,
        p >= 0,
        c >= 0,
        sec >= 0,
        k >= 0,
        nanos >= 0,
        c * sec * (b - 1) <= p * o * b,
        k * o * (b - 1) <= c * den * b,
        nanos * o * (b - 1) * (b - 1) <= sec * SECOND * b * b,
    ensures
        k * nanos * o * ((b - 1) * (b - 1) * (b - 1) * (b - 1)) <= p * (den * SECOND) * (b * b * b * b),
{
    let d = b - 1;
    let (u, v) = (c * den * b, sec * SECOND * b * b);
    let (s, t) = (k * o * d, nanos * o * d * d);
    assert(s >= 0 && t >= 0) by (nonlinear_arith)
        requires
            s == k * o * d,
            t == nanos * o * d * d,
            k >= 0,
            o > 0,
            d > 0,
            nanos >= 0,
    ;
    assert(s * t <= u * v) by (nonlinear_arith)
        requires
            0 <= s <= u,
            0 <= t <= v,
    ;
    let w = (den * b) * (SECOND * b * b);
    assert(w >= 0) by (nonlinear_arith)
        requires
            w == (den * b) * (SECOND * b * b),
            den > 0,
            b > 0,
    ;
    assert((c * sec * d) * w <= (p * o * b) * w) by (nonlinear_arith)
        requires
            c * sec * d <= p * o * b,
            w >= 0,
    ;
    let (x, y) = (den * b, SECOND * b * b);
    assert(u == c * x && v == sec * y) by (nonlinear_arith)
        requires
            u == c * den * b,
            v == sec * SECOND * b * b,
            x == den * b,
            y == SECOND * b * b,
    ;
    assert((c * sec * d) * w == (u * v) * d) by (nonlinear_arith)
        requires
            u == c * x,
            v == sec * y,
            w == x * y,
    ;
    assert((s * t) * d <= (u * v) * d) by (nonlinear_arith)
        requires
            s * t <= u * v,
            d >= 0,
    ;
    let right = p * (den * SECOND) * (b * b * b * b);
    let left = k * nanos * o * (d * d * d * d);
    assert((p * o * b) * w == right * o) by (nonlinear_arith)
        requires
            right == p * (den * SECOND) * (b * b * b * b),
            w == (den * b) * (SECOND * b * b),
    ;
    assert((s * t) * d == left * o) by (nonlinear_arith)
        requires
            left == k * nanos * o * (d * d * d * d),
            s == k * o * d,
            t == nanos * o * d * d,
    ;
    assert(left <= right) by (nonlinear_arith)
        requires
            left * o <= right * o,
            o > 0,
    ;
}

/// A span or a point in time is in range exactly below `2^64` or `2^63` seconds.
pub proof fn law_ranges(span: Duration, point: Instant)
    ensures
        span.wf() <==> span.nanos < 0x1_0000_0000_0000_0000 * 1_000_000_000,
        point.wf() <==> point.nanos < 0x8000_0000_0000_0000 * 1_000_000_000,
{
}

/// From an earlier point to a later one is as long as it takes to get there, and back is no time.
pub proof fn law_time_between_points(start: Instant, span: Duration)
    requires
        start.nanos + span.nanos <= u128::MAX,
    ensures
        since(Instant { nanos: (start.nanos + span.nanos) as u128 }, start) == span,
        since(start, Instant { nanos: (start.nanos + span.nanos) as u128 }).nanos == 0,
{
}

/// So many seconds are the nearest whole nanosecond, and of two that are as near the even one.
pub proof fn law_seconds_make_the_nearest_nanosecond(secs: nat)
    ensures
        ({
            let (n, o) = (from_seconds(secs), binary64::one());
            &&& 2 * (n * o) <= 2 * (secs * 1_000_000_000) + o
            &&& 2 * (secs * 1_000_000_000) <= 2 * (n * o) + o
            &&& 2 * (n * o) == 2 * (secs * 1_000_000_000) + o || 2 * (secs * 1_000_000_000) == 2 * (n * o)
                + o ==> n % 2 == 0
        }),
{
    float_bounds::lemma_one_is_large();
    binary64::law_rounding_is_to_the_nearest_even(secs * SECOND as nat, binary64::one());
}

/// A span in seconds is the sum of its whole seconds and of the rest, and each of the two and the sum
/// is rounded once.
pub proof fn law_span_in_seconds(secs: nat, rest: nat)
    requires
        rest < 1_000_000_000,
    ensures
        seconds(secs * 1_000_000_000 + rest) == binary64::nearest(
            binary64::nearest(secs, 1) + binary64::nearest(
                binary64::nearest(rest, 1),
                binary64::nearest(1_000_000_000, 1),
            ),
            binary64::one(),
        ),
{
    let n = secs * 1_000_000_000 + rest;
    assert(n / 1_000_000_000 == secs && n % 1_000_000_000 == rest);
}

} // verus!
