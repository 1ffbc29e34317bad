//! The frame interval: where it starts, how it follows the incoming frames, and how it is
//! shown.

use crate::binary64;
use crate::binary64::{Binary64, Double, MANTISSA_BOUND};
use crate::duration;
use crate::duration::{Duration, DURATION_LIMIT, EXACT_LIMIT, SECOND};
use crate::float_bounds;
use vstd::prelude::*;

verus! {

/// `k / 10` as a double.
pub open spec fn tenths(k: nat) -> nat {
    binary64::float_div(binary64::float_of(k), binary64::float_of(10))
}

/// The nanoseconds of one frame at a rate.
pub open spec fn frame_nanos(fps: Double) -> nat {
    duration::from_seconds(binary64::float_div(binary64::float_of(1), fps.units()))
}

/// A rate at which one frame is not too long.
pub open spec fn is_rate(fps: Double) -> bool {
    &&& fps.is_positive()
    &&& duration::is_span(binary64::float_div(binary64::float_of(1), fps.units()))
}

/// An observed interval that is taken for a frame: from two milliseconds to one second.
pub open spec fn is_reasonable(observed: Duration) -> bool {
    2_000_000 <= observed.nanos <= 1_000_000_000
}

/// The nanoseconds of an interval after a reasonable observation.
pub open spec fn blended_nanos(previous: nat, observed: nat) -> nat {
    duration::mul_float(previous, tenths(8)) + duration::mul_float(observed, tenths(2))
}

/// The interval after an observation.
pub open spec fn smoothed(previous: Duration, observed: Duration) -> Duration {
    if is_reasonable(observed) {
        Duration { nanos: blended_nanos(previous.nanos as nat, observed.nanos as nat) as u128 }
    } else {
        previous
    }
}

/// Frames in a thousand seconds at an interval, to the nearest; none for no interval.
pub open spec fn milli_hz(interval: Duration) -> nat {
    if interval.nanos == 0 {
        0
    } else {
        binary64::rounded_to_u64(
            binary64::float_div(
                binary64::float_of(1000),
                duration::seconds(interval.nanos as nat),
            ),
        )
    }
}

/// The frames in a thousand seconds lie in the middle between two integers.
pub open spec fn is_rate_tie(interval: nat) -> bool {
    (2_000_000_000_000 + interval) % (2 * interval) == 0
}

/// A span times `k / 10`, in terms of one part in `2^53` for each of the four roundings.
proof fn lemma_tenths_error(k: nat, nanos: nat) -> (p: nat)
    requires
        1 <= k <= 9,
        nanos > 0,
    ensures
        p == binary64::float_mul(tenths(k), duration::seconds(nanos)),
        p * (10 * SECOND) * (MANTISSA_BOUND * MANTISSA_BOUND * MANTISSA_BOUND * MANTISSA_BOUND) <= k
            * nanos * binary64::one() * ((MANTISSA_BOUND + 1) * (MANTISSA_BOUND + 1) * (MANTISSA_BOUND
            + 1) * (MANTISSA_BOUND + 1)),
        k * nanos * binary64::one() * ((MANTISSA_BOUND - 1) * (MANTISSA_BOUND - 1) * (MANTISSA_BOUND
            - 1) * (MANTISSA_BOUND - 1)) <= p * (10 * SECOND) * (MANTISSA_BOUND * MANTISSA_BOUND
            * MANTISSA_BOUND * MANTISSA_BOUND),
{
    let o = binary64::one();
    let b = MANTISSA_BOUND as int;
    let sec = duration::seconds(nanos);
    let c = tenths(k);
    float_bounds::lemma_one_is_large();
    float_bounds::lemma_float_of_exact(k);
    float_bounds::lemma_float_of_exact(10);
    duration::lemma_seconds_error(nanos);
    let (num, den) = (k * o, 10 * o);
    assert(2 * (num * o) >= den * b) by (nonlinear_arith)
        requires
            num == k * o,
            den == 10 * o,
            k >= 1,
            o >= 10 * b,
    ;
    float_bounds::lemma_nearest_error(num, den);
    assert(c * 10 * b <= k * o * (b + 1) && k * o * (b - 1) <= c * 10 * b) by (nonlinear_arith)
        requires
            num == k * o,
            den == 10 * o,
            o > 0,
            (c * den) * b <= (num * o) * (b + 1),
            (num * o) * (b - 1) <= (c * den) * b,
    ;
    assert(20 * c >= o) by (nonlinear_arith)
        requires
            k * o * (b - 1) <= c * 10 * b,
            k >= 1,
            b >= 2,
    ;
    let (x, y) = (c * sec, o * o);
    assert(x * (40 * SECOND) >= y) by (nonlinear_arith)
        requires
            x == c * sec,
            y == o * o,
            20 * c >= o,
            2 * SECOND * sec >= o,
    ;
    assert(2 * (x * o) >= y * b && y > 0) by (nonlinear_arith)
        requires
            x * (40 * SECOND) >= y,
            o >= (20 * SECOND) * b,
            y == o * o,
            o > 0,
    ;
    float_bounds::lemma_nearest_error(x, y);
    let p = binary64::float_mul(c, sec);
    assert(p * o * b <= c * sec * (b + 1) && c * sec * (b - 1) <= p * o * b) by (nonlinear_arith)
        requires
            (p * y) * b <= (x * o) * (b + 1),
            (x * o) * (b - 1) <= (p * y) * b,
            x == c * sec,
            y == o * o,
            o > 0,
    ;
    duration::lemma_product_upper(
        p as int,
        o as int,
        c as int,
        sec as int,
        k as int,
        10,
        nanos as int,
        b,
    );
    duration::lemma_product_lower(
        p as int,
        o as int,
        c as int,
        sec as int,
        k as int,
        10,
        nanos as int,
        b,
    );
    p
}

/// Less than all of a span is not too long, and neither much more nor much less than it should be.
proof fn lemma_tenths_span(k: nat, nanos: nat)
    requires
        1 <= k <= 8,
        nanos < DURATION_LIMIT,
    ensures
        duration::is_span(binary64::float_mul(tenths(k), duration::seconds(nanos))),
        100 * duration::mul_float(nanos, tenths(k)) <= (10 * k + 1) * nanos + 100,
        (10 * k - 1) * nanos <= 100 * duration::mul_float(nanos, tenths(k)) + 100,
        nanos == 0 ==> duration::mul_float(nanos, tenths(k)) == 0,
{
    let o = binary64::one();
    let b = MANTISSA_BOUND as int;
    float_bounds::lemma_one_is_large();
    let sec = duration::seconds(nanos);
    let p = binary64::float_mul(tenths(k), sec);
    if nanos == 0 {
        duration::lemma_seconds_error(0);
        assert(sec == 0) by (nonlinear_arith)
            requires
                sec * SECOND * b * b <= 0 * o * (b + 1) * (b + 1),
                b > 0,
        ;
        assert(tenths(k) * sec == 0 && o * o > 0) by (nonlinear_arith)
            requires
                sec == 0,
                o > 0,
        ;
        binary64::lemma_nearest_zero(o * o);
    } else {
        lemma_tenths_error(k, nanos);
        let q = b * b * b * b;
        let r = (b + 1) * (b + 1) * (b + 1) * (b + 1);
        assert(100 * r <= 101 * q && q > 0);
        assert(1000 * SECOND * p <= 101 * (k * nanos * o)) by (nonlinear_arith)
            requires
                p * (10 * SECOND) * q <= k * nanos * o * r,
                100 * r <= 101 * q,
                q > 0,
                k * nanos * o >= 0,
        ;
        let t = (10 * k + 1) * nanos * o;
        assert(101 * (k * nanos * o) <= 10 * t) by (nonlinear_arith)
            requires
                k <= 8,
                nanos * o >= 0,
                t == (10 * k + 1) * nanos * o,
        ;
        assert(100 * SECOND * p <= t) by (nonlinear_arith)
            requires
                1000 * SECOND * p <= 10 * t,
        ;
        assert(p < 0x1_0000_0000_0000_0000 * o) by (nonlinear_arith)
            requires
                100 * SECOND * p <= (10 * k + 1) * nanos * o,
                k <= 8,
                nanos < 0x1_0000_0000_0000_0000 * SECOND,
                o > 0,
        ;
        let d = (b - 1) * (b - 1) * (b - 1) * (b - 1);
        assert(99 * q <= 100 * d);
        assert(99 * (k * nanos * o) <= 1000 * SECOND * p) by (nonlinear_arith)
            requires
                k * nanos * o * d <= p * (10 * SECOND) * q,
                99 * q <= 100 * d,
                q > 0,
                k * nanos * o >= 0,
        ;
        let l = (10 * k - 1) * nanos * o;
        assert(10 * l <= 99 * (k * nanos * o)) by (nonlinear_arith)
            requires
                k <= 8,
                nanos * o >= 0,
                l == (10 * k - 1) * nanos * o,
        ;
    }
    let num = p * SECOND as nat;
    float_bounds::lemma_round_half_even_error(num, o);
    let got = binary64::round_half_even(num, o);
    assert(100 * num <= (10 * k + 1) * nanos * o) by {
        if nanos == 0 {
            assert(num == 0);
        }
    }
    if nanos == 0 {
        assert(got == 0) by (nonlinear_arith)
            requires
                2 * (got * o) <= 2 * num + o,
                num == 0,
                o > 0,
        ;
    }
    assert(100 * got <= (10 * k + 1) * nanos + 100) by (nonlinear_arith)
        requires
            2 * (got * o) <= 2 * num + o,
            100 * num <= (10 * k + 1) * nanos * o,
            o > 0,
    ;
    assert((10 * k - 1) * nanos * o <= 100 * num) by {
        if nanos == 0 {
            assert((10 * k - 1) * nanos * o == 0) by (nonlinear_arith)
                requires
                    nanos == 0,
            ;
        }
    }
    assert((10 * k - 1) * nanos <= 100 * got + 100) by (nonlinear_arith)
        requires
            2 * num <= 2 * (got * o) + o,
            (10 * k - 1) * nanos * o <= 100 * num,
            o > 0,
    ;
}

/// An interval stays below the limit as it follows the frames.
proof fn lemma_blended_below(previous: nat, observed: nat)
    requires
        previous < DURATION_LIMIT,
        observed <= SECOND,
    ensures
        blended_nanos(previous, observed) < DURATION_LIMIT,
{
    lemma_tenths_span(8, previous);
    lemma_tenths_span(2, observed);
    assert(100 * duration::mul_float(previous, tenths(8)) <= 81 * previous + 100);
    assert(100 * duration::mul_float(observed, tenths(2)) <= 21 * observed + 100);
    assert(DURATION_LIMIT > 3_000_000_000);
}

/// How long one frame is at a rate.
pub fn frame_interval(fps: Double) -> (r: Duration)
    requires
        is_rate(fps),
    ensures
        r.nanos == frame_nanos(fps),
        r.wf(),
{
    let rate = fps.decode();
    if rate.exponent > 2031 {
        proof {
            lemma_fast_rate(rate);
        }
        return Duration::zero();
    }
    Duration::from_seconds(Binary64::from_integer(1).over(rate))
}

/// Whether a positive rate is one at which one frame is not too long.
pub fn has_frame_interval(fps: Double) -> (r: bool)
    requires
        fps.is_positive(),
    ensures
        r == is_rate(fps),
{
    let rate = fps.decode();
    if rate.exponent > 2031 {
        proof {
            lemma_fast_rate(rate);
        }
        return true;
    }
    Binary64::from_integer(1).over(rate).is_below_two_to_64()
}

/// At a rate of `2^64` and more, one frame is less than half a nanosecond.
proof fn lemma_fast_rate(rate: Binary64)
    requires
        rate.wf(),
        rate.exponent > 2031,
    ensures
        duration::from_seconds(binary64::float_div(binary64::float_of(1), rate.units())) == 0,
        duration::is_span(binary64::float_div(binary64::float_of(1), rate.units())),
{
    let o = binary64::one();
    let u = rate.units();
    vstd::arithmetic::power2::lemma2_to64();
    vstd::arithmetic::power2::lemma_pow2_adds(64, 1074);
    binary64::lemma_pow2_monotone(64 + 1074, rate.exponent as nat);
    let p = vstd::arithmetic::power2::pow2(rate.exponent as nat);
    assert(u >= 0x1_0000_0000_0000_0000 * o) by (nonlinear_arith)
        requires
            u == rate.mantissa * p,
            p >= 0x1_0000_0000_0000_0000 * o,
            rate.mantissa >= 1,
    ;
    lemma_fast_units(u);
}

proof fn lemma_fast_units(u: nat)
    requires
        u >= 0x1_0000_0000_0000_0000 * binary64::one(),
    ensures
        duration::from_seconds(binary64::float_div(binary64::float_of(1), u)) == 0,
        duration::is_span(binary64::float_div(binary64::float_of(1), u)),
{
    let o = binary64::one();
    let huge = vstd::arithmetic::power2::pow2(64);
    vstd::arithmetic::power2::lemma2_to64();
    vstd::arithmetic::power2::lemma_pow2_adds(64, 1010);
    float_bounds::lemma_one_is_large();
    float_bounds::lemma_float_of_exact(1);
    let small = vstd::arithmetic::power2::pow2(1010);
    assert(1 * o * huge <= 1 * u);
    float_bounds::lemma_nearest_monotone(1 * o, u, 1, huge);
    float_bounds::lemma_representable(1, huge, 1, 1010);
    let num = binary64::nearest(1 * o, u) * SECOND as nat;
    assert(2 * num < o) by (nonlinear_arith)
        requires
            num <= small * SECOND,
            o == huge * small,
            huge > 2 * SECOND,
            small > 0,
    ;
    binary64::lemma_floor(num, o, 0);
}

/// The interval after an observation: an unreasonable one changes nothing, and a reasonable
/// one moves the interval a fifth of the way.
pub fn smooth_interval(previous: Duration, observed: Duration) -> (r: Duration)
    requires
        previous.wf(),
    ensures
        r == smoothed(previous, observed),
        r.wf(),
        observed.nanos < 2_000_000 || observed.nanos > 1_000_000_000 ==> r == previous,
        2_000_000 <= observed.nanos <= 1_000_000_000 && previous.nanos <= 0x4000_0000_0000 ==> r.nanos
            == (8 * previous.nanos + 5) / 10 + (2 * observed.nanos + 5) / 10,
{
    if observed.nanos < Duration::from_millis(2).nanos || observed.nanos > Duration::from_secs(1).nanos {
        return previous;
    }
    proof {
        lemma_tenths_span(8, previous.nanos as nat);
        lemma_tenths_span(2, observed.nanos as nat);
        lemma_blended_below(previous.nanos as nat, observed.nanos as nat);
        if previous.nanos <= EXACT_LIMIT {
            lemma_tenths_exact(8, previous.nanos as nat);
            lemma_tenths_exact(2, observed.nanos as nat);
        }
    }
    let ten = Binary64::from_integer(10);
    let kept = previous.times(Binary64::from_integer(8).over(ten));
    let moved = observed.times(Binary64::from_integer(2).over(ten));
    Duration { nanos: kept.nanos + moved.nanos }
}

/// Frames in a thousand seconds at an interval.
pub fn duration_to_milli_hz(duration: Duration) -> (r: u64)
    requires
        duration.wf(),
    ensures
        r == milli_hz(duration),
        duration.nanos == 0 ==> r == 0,
        duration.nanos > 0 && (2_000_000_000_000 + duration.nanos) % (2 * duration.nanos) != 0 ==> r == (
        2_000_000_000_000 + duration.nanos) / (2 * duration.nanos),
        duration.nanos > 0 ==> 2 * (r * duration.nanos) <= 2_000_000_000_000 + duration.nanos
            && 2_000_000_000_000 <= 2 * (r * duration.nanos) + duration.nanos,
{
    proof {
        if duration.nanos > 0 {
            lemma_milli_hz_near(duration);
            if !is_rate_tie(duration.nanos as nat) {
                lemma_milli_hz_exact(duration);
            }
        }
    }
    if duration.is_zero() {
        return 0;
    }
    Binary64::from_integer(1000).over(duration.as_seconds()).rounded()
}

/// A fifth or four fifths of a span, to the nearest nanosecond.
proof fn lemma_tenths_exact(k: nat, nanos: nat)
    requires
        k == 2 || k == 8,
        nanos <= EXACT_LIMIT,
    ensures
        duration::mul_float(nanos, tenths(k)) == (k * nanos + 5) / 10,
{
    let o = binary64::one();
    let b = MANTISSA_BOUND as int;
    float_bounds::lemma_one_is_large();
    if nanos == 0 {
        lemma_tenths_span(k, 0);
    } else {
        let p = lemma_tenths_error(k, nanos);
        let got = p * (10 * SECOND) as nat;
        let exact = k * nanos * o;
        float_bounds::lemma_four_roundings(got, exact);
        let t = k * nanos;
        assert(t <= 0x2_0000_0000_0000 && exact == t * o) by (nonlinear_arith)
            requires
                t == k * nanos,
                exact == k * nanos * o,
                k <= 8,
                nanos <= 0x4000_0000_0000,
        ;
        assert(2 * got < 2 * exact + o && 2 * exact < 2 * got + o) by (nonlinear_arith)
            requires
                got * b <= exact * (b + 5),
                exact * (b - 5) <= got * b,
                exact == t * o,
                t <= 0x2_0000_0000_0000,
                b == 0x20_0000_0000_0000,
                o > 0,
        ;
        let num = p * SECOND as nat;
        assert(num * 10 == got) by (nonlinear_arith)
            requires
                num == p * SECOND,
                got == p * (10 * SECOND),
        ;
        assert((2 * t + 10) % 20 != 0);
        float_bounds::lemma_near_quotient(num, o, t, 10);
    }
}

/// The frames in a thousand seconds, to the nearest; of a tie, either neighbour.
proof fn lemma_milli_hz_near(interval: Duration)
    requires
        interval.wf(),
        interval.nanos > 0,
    ensures
        2 * (milli_hz(interval) * interval.nanos) <= 2_000_000_000_000 + interval.nanos,
        2_000_000_000_000 <= 2 * (milli_hz(interval) * interval.nanos) + interval.nanos,
{
    let n = interval.nanos as nat;
    let (sec, o) = (duration::seconds(n), binary64::one());
    let b = MANTISSA_BOUND as int;
    float_bounds::lemma_one_is_large();
    float_bounds::lemma_float_of_exact(1000);
    duration::lemma_seconds_error(n);
    let num = 1000 * o;
    let m = binary64::nearest(num, sec);
    assert(sec > 0) by (nonlinear_arith)
        requires
            2 * SECOND * sec >= o,
            o > 0,
    ;
    assert(sec <= 0x4_0000_0000_0000_0000 * o) by (nonlinear_arith)
        requires
            sec * SECOND * b * b <= n * o * (b + 1) * (b + 1),
            n < 0x1_0000_0000_0000_0000 * SECOND,
            (b + 1) * (b + 1) <= 4 * (b * b),
            b > 0,
            o > 0,
    {
        assert(sec * SECOND * (b * b) <= n * o * (4 * (b * b)));
        assert(sec * SECOND <= n * o * 4);
    }
    assert(2 * (num * o) >= sec * b) by (nonlinear_arith)
        requires
            num == 1000 * o,
            sec <= 0x4_0000_0000_0000_0000 * o,
            o >= 0x4_0000_0000_0000_0000 * b,
            o > 0,
    ;
    float_bounds::lemma_nearest_error(num, sec);
    lemma_reciprocal_upper(m as int, sec as int, n as int, o as int, b);
    lemma_reciprocal_lower(m as int, sec as int, n as int, o as int, b);
    let got = m * n;
    let exact = 1_000_000_000_000 * o;
    assert(2 * got < 2 * exact + o && 2 * exact < 2 * got + o) by (nonlinear_arith)
        requires
            got * b <= exact * (b + 4),
            exact * (b - 4) <= got * b,
            exact == 1_000_000_000_000 * o,
            b == 0x20_0000_0000_0000,
            o > 0,
    ;
    let value = (2 * m + o) / (2 * o);
    vstd::arithmetic::div_mod::lemma_fundamental_div_mod((2 * m + o) as int, (2 * o) as int);
    let rest = (2 * m + o) % (2 * o);
    assert(2 * (value * n) <= 2_000_000_000_000 + n && 2_000_000_000_000 <= 2 * (value * n) + n)
        by (nonlinear_arith)
        requires
            2 * m + o == (2 * o) * value + rest,
            0 <= rest < 2 * o,
            got == m * n,
            2 * got < 2 * exact + o,
            2 * exact < 2 * got + o,
            exact == 1_000_000_000_000 * o,
            o > 0,
            n > 0,
    {
        let share = value * n;
        let left = rest * n;
        assert(2 * got + o * n == (2 * o) * share + left);
        assert(0 <= left < (2 * o) * n);
        assert((2 * o) * share < (2_000_000_000_000 + 1 + n) * o);
        assert((2_000_000_000_000 - 1) * o < (2 * share + n) * o);
    }
    assert(value <= 2_000_000_000_000) by (nonlinear_arith)
        requires
            2 * (value * n) <= 2_000_000_000_000 + n,
            n >= 1,
    ;
}

/// The frames in a thousand seconds, to the nearest, where there is one.
proof fn lemma_milli_hz_exact(interval: Duration)
    requires
        interval.wf(),
        interval.nanos > 0,
        !is_rate_tie(interval.nanos as nat),
    ensures
        milli_hz(interval) == (2_000_000_000_000 + interval.nanos) / (2 * interval.nanos as int),
{
    lemma_milli_hz_near(interval);
    let n = interval.nanos as int;
    let value = milli_hz(interval) as int;
    let top = 2_000_000_000_000 + n;
    let rest = top - value * (2 * n);
    assert(value * (2 * n) == 2 * (value * n)) by (nonlinear_arith);
    if rest == 2 * n {
        assert(top == (value + 1) * (2 * n)) by (nonlinear_arith)
            requires
                top - value * (2 * n) == 2 * n,
        ;
        vstd::arithmetic::div_mod::lemma_fundamental_div_mod_converse(top, 2 * n, value + 1, 0);
    }
    vstd::arithmetic::div_mod::lemma_fundamental_div_mod_converse(top, 2 * n, value, rest);
}

proof fn lemma_reciprocal_upper(m: int, sec: int, n: int, o: int, b: int)
    requires
        m >= 0,
        sec > 0,
        n > 0,
        o > 0,
        b >= 16,
        (m * sec) * b <= (1000 * o * o) * (b + 1),
        n * o * (b - 1) * (b - 1) <= sec * SECOND * b * b,
    ensures
        (m * n) * b <= (1_000_000_000_000 * o) * (b + 4),
{
    let down = (b - 1) * (b - 1);
    let (x, y) = (n * o * down, sec * SECOND * (b * b));
    assert(x <= y) by (nonlinear_arith)
        requires
            x == n * o * down,
            down == (b - 1) * (b - 1),
            y == sec * SECOND * (b * b),
            n * o * (b - 1) * (b - 1) <= sec * SECOND * b * b,
    ;
    assert(m * x <= m * y) by (nonlinear_arith)
        requires
            x <= y,
            m >= 0,
    ;
    let z = (m * sec) * b;
    assert(m * y == z * (SECOND * b)) by (nonlinear_arith)
        requires
            y == sec * SECOND * (b * b),
            z == (m * sec) * b,
    ;
    assert(z * (SECOND * b) <= ((1000 * o * o) * (b + 1)) * (SECOND * b)) by (nonlinear_arith)
        requires
            z <= (1000 * o * o) * (b + 1),
            b > 0,
    ;
    let t = 1_000_000_000_000 * o;
    assert((m * n) * down <= t * ((b + 1) * b)) by (nonlinear_arith)
        requires
            m * x <= ((1000 * o * o) * (b + 1)) * (SECOND * b),
            x == n * o * down,
            t == 1_000_000_000_000 * o,
            o > 0,
            SECOND == 1_000_000_000,
    ;
    // What is left is a comparison of the factors.
    assert((b + 1) * b * b <= (b + 4) * down && down > 0) by (nonlinear_arith)
        requires
            down == (b - 1) * (b - 1),
            b >= 16,
    ;
    let g = m * n;
    assert(g * b <= t * (b + 4)) by (nonlinear_arith)
        requires
            g * down <= t * ((b + 1) * b),
            (b + 1) * b * b <= (b + 4) * down,
            down > 0,
            t >= 0,
            b > 0,
    {
        assert((g * b) * down <= t * ((b + 1) * b * b));
        assert(t * ((b + 1) * b * b) <= t * ((b + 4) * down));
        assert((g * b) * down <= (t * (b + 4)) * down);
    }
}

proof fn lemma_reciprocal_lower(m: int, sec: int, n: int, o: int, b: int)
    requires
        m >= 0,
        sec > 0,
        n > 0,
        o > 0,
        b >= 16,
        (1000 * o * o) * (b - 1) <= (m * sec) * b,
        sec * SECOND * b * b <= n * o * (b + 1) * (b + 1),
    ensures
        (1_000_000_000_000 * o) * (b - 4) <= (m * n) * b,
{
    let up = (b + 1) * (b + 1);
    let (x, y) = (n * o * up, sec * SECOND * (b * b));
    assert(y <= x) by (nonlinear_arith)
        requires
            x == n * o * up,
            up == (b + 1) * (b + 1),
            y == sec * SECOND * (b * b),
            sec * SECOND * b * b <= n * o * (b + 1) * (b + 1),
    ;
    assert(m * y <= m * x) by (nonlinear_arith)
        requires
            y <= x,
            m >= 0,
    ;
    let z = (m * sec) * b;
    assert(m * y == z * (SECOND * b)) by (nonlinear_arith)
        requires
            y == sec * SECOND * (b * b),
            z == (m * sec) * b,
    ;
    assert(((1000 * o * o) * (b - 1)) * (SECOND * b) <= z * (SECOND * b)) by (nonlinear_arith)
        requires
            (1000 * o * o) * (b - 1) <= z,
            b > 0,
    ;
    let t = 1_000_000_000_000 * o;
    assert(t * ((b - 1) * b) <= (m * n) * up) by (nonlinear_arith)
        requires
            ((1000 * o * o) * (b - 1)) * (SECOND * b) <= m * x,
            x == n * o * up,
            t == 1_000_000_000_000 * o,
            o > 0,
            SECOND == 1_000_000_000,
    ;
    assert((b - 4) * up <= (b - 1) * b * b && up > 0) by (nonlinear_arith)
        requires
            up == (b + 1) * (b + 1),
            b >= 16,
    ;
    let g = m * n;
    assert(t * (b - 4) <= g * b) by (nonlinear_arith)
        requires
            t * ((b - 1) * b) <= g * up,
            (b - 4) * up <= (b - 1) * b * b,
            up > 0,
            t >= 0,
            b > 0,
    {
        assert(t * ((b - 1) * b * b) <= (g * b) * up);
        assert(t * ((b - 4) * up) <= t * ((b - 1) * b * b));
        assert((t * (b - 4)) * up <= (g * b) * up);
    }
}

/// At a whole number of frames in a second, one frame is a billion nanoseconds divided by that
/// number, to the nearest nanosecond.
pub proof fn law_whole_rate(fps: Double, f: nat)
    requires
        fps.is_positive(),
        0 < f < MANTISSA_BOUND,
        fps.units() == f * binary64::one(),
    ensures
        is_rate(fps),
        (2_000_000_000 + f) % (2 * f) != 0 ==> frame_nanos(fps) == (2_000_000_000 + f) / (2 * f),
{
    let o = binary64::one();
    let b = MANTISSA_BOUND as int;
    float_bounds::lemma_one_is_large();
    float_bounds::lemma_float_of_exact(1);
    let u = fps.units();
    let one = 1 * o;
    assert(2 * (one * o) >= u * b && u > 0) by (nonlinear_arith)
        requires
            one == o,
            u == f * o,
            0 < f < b,
            o >= b * b,
            b > 0,
    ;
    float_bounds::lemma_nearest_error(one, u);
    let q = binary64::nearest(one, u);
    let (got, exact) = ((q * SECOND as nat) * f, SECOND as nat * o);
    assert(got * b <= exact * (b + 1) && exact * (b - 1) <= got * b) by (nonlinear_arith)
        requires
            (q * u) * b <= (one * o) * (b + 1),
            (one * o) * (b - 1) <= (q * u) * b,
            one == o,
            u == f * o,
            got == (q * SECOND) * f,
            exact == SECOND * o,
            o > 0,
    ;
    assert(2 * got < 2 * exact + o && 2 * exact < 2 * got + o) by (nonlinear_arith)
        requires
            got * b <= exact * (b + 1),
            exact * (b - 1) <= got * b,
            exact == SECOND * o,
            b > 4 * SECOND,
            o > 0,
    ;
    assert(q < 0x1_0000_0000_0000_0000 * o) by (nonlinear_arith)
        requires
            2 * got < 2 * exact + o,
            got == (q * SECOND) * f,
            exact == SECOND * o,
            f >= 1,
            o > 0,
    ;
    if (2_000_000_000 + f) % (2 * f) != 0 {
        float_bounds::lemma_near_quotient(q * SECOND as nat, o, SECOND as nat, f);
    }
}

/// An interval that is observed again stays as it is.
pub proof fn law_steady_interval_stays(interval: Duration)
    ensures
        smoothed(interval, interval) == interval,
{
    if is_reasonable(interval) {
        let n = interval.nanos as nat;
        lemma_tenths_exact(8, n);
        lemma_tenths_exact(2, n);
        assert((8 * n + 5) / 10 + (2 * n + 5) / 10 == n);
        assert(blended_nanos(n, n) == n);
    }
}

/// An unreasonable observation changes nothing.
pub proof fn law_unreasonable_observations_are_ignored(previous: Duration, observed: Duration)
    requires
        observed.nanos < 2_000_000 || observed.nanos > 1_000_000_000,
    ensures
        smoothed(previous, observed) == previous,
{
}

/// A reasonable observation leaves the interval between what it was and what was observed.
pub proof fn law_smoothing_stays_between(previous: Duration, observed: Duration)
    requires
        2_000_000 <= observed.nanos <= 1_000_000_000,
        previous.wf(),
    ensures
        previous.nanos <= observed.nanos ==> previous.nanos <= smoothed(previous, observed).nanos
            <= observed.nanos,
        observed.nanos <= previous.nanos ==> observed.nanos <= smoothed(previous, observed).nanos
            <= previous.nanos,
{
    let (p, n) = (previous.nanos as nat, observed.nanos as nat);
    if p <= EXACT_LIMIT {
        lemma_tenths_exact(8, p);
        lemma_tenths_exact(2, n);
    } else {
        lemma_tenths_span(8, p);
        lemma_tenths_span(2, n);
        lemma_blended_below(p, n);
        assert(100 * duration::mul_float(p, tenths(8)) <= 81 * p + 100);
        assert(79 * p <= 100 * duration::mul_float(p, tenths(8)) + 100);
        assert(100 * duration::mul_float(n, tenths(2)) <= 21 * n + 100);
    }
}

/// A part of a span, however long: to half a nanosecond, and to five parts in `2^53`.
proof fn lemma_tenths_near(k: nat, nanos: nat)
    requires
        1 <= k <= 8,
        nanos < DURATION_LIMIT,
    ensures
        20 * (MANTISSA_BOUND * duration::mul_float(nanos, tenths(k))) <= 2 * (k * nanos * (
        MANTISSA_BOUND + 5)) + 10 * MANTISSA_BOUND,
        2 * (k * nanos * (MANTISSA_BOUND - 5)) <= 20 * (MANTISSA_BOUND * duration::mul_float(
            nanos,
            tenths(k),
        )) + 10 * MANTISSA_BOUND,
{
    let o = binary64::one();
    let b = MANTISSA_BOUND as int;
    float_bounds::lemma_one_is_large();
    let got = duration::mul_float(nanos, tenths(k));
    let t = k * nanos;
    if nanos == 0 {
        lemma_tenths_span(k, 0);
        assert(t == 0 && t * (b + 5) == 0 && t * (b - 5) == 0) by (nonlinear_arith)
            requires
                t == k * 0,
        ;
    } else {
        let p = lemma_tenths_error(k, nanos);
        let (num, ten, exact) = (p * SECOND as nat, p * (10 * SECOND) as nat, t * o);
        float_bounds::lemma_four_roundings(ten, exact);
        float_bounds::lemma_round_half_even_error(num, o);
        let (high, low) = (t * (b + 5), t * (b - 5));
        assert(ten == 10 * num && ten * b <= high * o && low * o <= ten * b) by (nonlinear_arith)
            requires
                num == p * SECOND,
                ten == p * (10 * SECOND),
                ten * b <= exact * (b + 5),
                exact * (b - 5) <= ten * b,
                exact == t * o,
                high == t * (b + 5),
                low == t * (b - 5),
        ;
        assert(20 * (b * got) <= 2 * high + 10 * b && 2 * low <= 20 * (b * got) + 10 * b)
            by (nonlinear_arith)
            requires
                2 * (got * o) <= 2 * num + o,
                2 * num <= 2 * (got * o) + o,
                ten == 10 * num,
                ten * b <= high * o,
                low * o <= ten * b,
                o > 0,
                b > 0,
        {
            assert((20 * (b * got)) * o <= (2 * high + 10 * b) * o);
            assert((2 * low) * o <= (20 * (b * got) + 10 * b) * o);
        }
    }
}

/// A reasonable observation takes away a fifth of the distance, to the nanosecond, and of a long
/// interval to five parts in `2^53`, which double precision does not hold.
pub proof fn law_smoothing_approaches(previous: Duration, observed: Duration)
    requires
        2_000_000 <= observed.nanos <= 1_000_000_000,
        previous.wf(),
    ensures
        ({
            let after = smoothed(previous, observed).nanos;
            &&& MANTISSA_BOUND * (5 * after - observed.nanos - 5) <= 4 * (previous.nanos * (
            MANTISSA_BOUND + 5))
            &&& 4 * (previous.nanos * (MANTISSA_BOUND - 5)) <= MANTISSA_BOUND * (5 * after
                - observed.nanos + 5)
            &&& previous.nanos <= 0x4000_0000_0000 ==> 4 * (previous.nanos - observed.nanos) - 5 <= 5 * (
            after - observed.nanos) <= 4 * (previous.nanos - observed.nanos) + 5
        }),
{
    let (p, n) = (previous.nanos as nat, observed.nanos as nat);
    lemma_blended_below(p, n);
    lemma_tenths_near(8, p);
    lemma_tenths_exact(2, n);
    if p <= EXACT_LIMIT {
        lemma_tenths_exact(8, p);
    }
    let b = MANTISSA_BOUND as int;
    let (kept, moved) = (
        duration::mul_float(p, tenths(8)) as int,
        duration::mul_float(n, tenths(2)) as int,
    );
    let (high, low) = ((p * (b + 5)) as int, (p * (b - 5)) as int);
    assert(8 * p * (b + 5) == 8 * high && 8 * p * (b - 5) == 8 * low) by (nonlinear_arith)
        requires
            high == p * (b + 5),
            low == p * (b - 5),
    ;
    assert(n - 3 <= 5 * moved <= n + 3 && (2 * n + 5) / 10 == moved);
    let after = kept + moved;
    assert(b * (5 * after - n - 5) <= 4 * high && 4 * low <= b * (5 * after - n + 5)) by (nonlinear_arith)
        requires
            20 * (b * kept) <= 16 * high + 10 * b,
            16 * low <= 20 * (b * kept) + 10 * b,
            2 * n - 5 <= 10 * moved <= 2 * n + 5,
            after == kept + moved,
            b > 0,
    {
        assert(b * (10 * moved) <= b * (2 * n + 5));
        assert(b * (2 * n - 5) <= b * (10 * moved));
    }
}

/// The rate that is shown falls, or stays, as the interval grows; no interval at all is the one
/// exception, and has no rate.
pub proof fn law_longer_intervals_are_slower(shorter: Duration, longer: Duration)
    requires
        shorter.nanos <= longer.nanos,
        longer.wf(),
    ensures
        shorter.nanos > 0 ==> milli_hz(shorter) >= milli_hz(longer),
        shorter.nanos == 0 ==> milli_hz(shorter) == 0,
{
    if shorter.nanos > 0 {
        lemma_milli_hz_near(shorter);
        lemma_milli_hz_near(longer);
        let (d, e) = (shorter.nanos as int, longer.nanos as int);
        let (fast, slow) = (milli_hz(shorter) as int, milli_hz(longer) as int);
        if d < e && fast < slow {
            assert(false) by (nonlinear_arith)
                requires
                    fast + 1 <= slow,
                    0 < d < e,
                    fast >= 0,
                    2_000_000_000_000 <= 2 * (fast * d) + d,
                    2 * (slow * e) <= 2_000_000_000_000 + e,
            {
                assert((2 * fast + 1) * e <= (2 * slow - 1) * e);
                assert((2 * fast + 1) * d < (2 * fast + 1) * e);
            }
        }
    }
}

/// At such a rate one frame is half a nanosecond longer or shorter than it should be, and hardly
/// any more than that.
proof fn lemma_frame_error(fps: Double) -> (n: int)
    requires
        fps.is_positive(),
        binary64::one() <= fps.units() <= 500 * binary64::one(),
    ensures
        is_rate(fps),
        n == frame_nanos(fps),
        2000 * (n * fps.units()) <= 2_000_000_000_000 * binary64::one() + 1001 * fps.units(),
        2_000_000_000_000 * binary64::one() <= 2000 * (n * fps.units()) + 1001 * fps.units(),
{
    let o = binary64::one();
    let b = MANTISSA_BOUND as int;
    let u = fps.units();
    float_bounds::lemma_one_is_large();
    float_bounds::lemma_float_of_exact(1);
    let one = 1 * o;
    let q = binary64::nearest(one, u);
    float_bounds::lemma_nearest_monotone(one, u, 1, 1);
    assert(q <= o);
    let num = q * SECOND as nat;
    float_bounds::lemma_round_half_even_error(num, o);
    let n = frame_nanos(fps) as int;
    assert(2 * (one * o) >= u * b) by (nonlinear_arith)
        requires
            one == o,
            u <= 500 * o,
            o >= 500 * b,
            b > 0,
    ;
    float_bounds::lemma_nearest_error(one, u);
    let x = q * u;
    let y = n * u;
    assert(2 * y * o <= 2 * SECOND * x + o * u && 2 * SECOND * x <= 2 * y * o + o * u)
        by (nonlinear_arith)
        requires
            2 * (n * o) <= 2 * num + o,
            2 * num <= 2 * (n * o) + o,
            num == q * SECOND,
            x == q * u,
            y == n * u,
            u >= 0,
    ;
    let square = o * o;
    assert(2000 * SECOND * x <= 2000 * SECOND * square + square && 2000 * SECOND * square <= 2000
        * SECOND * x + square) by (nonlinear_arith)
        requires
            x * b <= square * (b + 1),
            square * (b - 1) <= x * b,
            b > 2000 * SECOND,
            square >= 0,
    ;
    assert(square <= o * u) by (nonlinear_arith)
        requires
            square == o * o,
            o <= u,
    ;
    assert(2000 * y <= 2_000_000_000_000 * o + 1001 * u && 2_000_000_000_000 * o <= 2000 * y + 1001
        * u) by (nonlinear_arith)
        requires
            2 * y * o <= 2 * SECOND * x + o * u,
            2 * SECOND * x <= 2 * y * o + o * u,
            2000 * SECOND * x <= 2000 * SECOND * square + square,
            2000 * SECOND * square <= 2000 * SECOND * x + square,
            square <= o * u,
            square == o * o,
            SECOND == 1_000_000_000,
            o > 0,
    {
        assert((2000 * y) * o <= (2_000_000_000_000 * o + 1001 * u) * o);
        assert((2_000_000_000_000 * o) * o <= (2000 * y + 1001 * u) * o);
    }
    n
}

/// At a frame rate from one to five hundred frames in a second, the rate that is shown for the
/// frame interval is the rate that it came from, to within a thousandth of a frame.
pub proof fn law_shown_rate_is_the_rate(fps: Double)
    requires
        fps.is_positive(),
        binary64::one() <= fps.units() <= 500 * binary64::one(),
    ensures
        is_rate(fps),
        ({
            let shown = milli_hz(Duration { nanos: frame_nanos(fps) as u128 });
            &&& shown * binary64::one() <= 1000 * fps.units() + binary64::one()
            &&& 1000 * fps.units() <= shown * binary64::one() + binary64::one()
        }),
{
    let (o, u) = (binary64::one(), fps.units());
    float_bounds::lemma_one_is_large();
    let n = lemma_frame_error(fps);
    assert(1_000_000 <= n <= 1_000_000_001) by (nonlinear_arith)
        requires
            2000 * (n * u) <= 2_000_000_000_000 * o + 1001 * u,
            2_000_000_000_000 * o <= 2000 * (n * u) + 1001 * u,
            o <= u <= 500 * o,
            o > 0,
            n >= 0,
    ;
    let span = Duration { nanos: n as u128 };
    lemma_milli_hz_near(span);
    let shown = milli_hz(span) as int;
    let y = n * u;
    let x = shown * n;
    assert(shown * o <= 1000 * u + o && 1000 * u <= shown * o + o) by (nonlinear_arith)
        requires
            2 * x <= 2_000_000_000_000 + n,
            2_000_000_000_000 <= 2 * x + n,
            2000 * y <= 2_000_000_000_000 * o + 1001 * u,
            2_000_000_000_000 * o <= 2000 * y + 1001 * u,
            x == shown * n,
            y == n * u,
            u <= 500 * o,
            n >= 1_000_000,
            o > 0,
    {
        assert(1001 * u <= n * o);
        assert(2 * (x * o) <= 2_000_000_000_000 * o + n * o);
        assert(2_000_000_000_000 * o <= 2 * (x * o) + n * o);
        assert(2 * (x * o) <= 2000 * y + 2 * (n * o));
        assert(2000 * y <= 2 * (x * o) + 2 * (n * o));
        assert((shown * o) * n == x * o);
        assert((1000 * u) * n == 1000 * y);
        assert((shown * o) * n <= (1000 * u + o) * n);
        assert((1000 * u) * n <= (shown * o + o) * n);
    }
}

/// The units of a positive double are not zero.
proof fn lemma_units_positive(fps: Double)
    requires
        fps.is_positive(),
    ensures
        fps.units() > 0,
{
    let exponent = fps.bits as nat / 0x10_0000_0000_0000;
    if exponent > 0 {
        let m = (0x10_0000_0000_0000 + fps.bits as nat % 0x10_0000_0000_0000) as nat;
        let p = vstd::arithmetic::power2::pow2((exponent - 1) as nat);
        vstd::arithmetic::power2::lemma_pow2_pos((exponent - 1) as nat);
        assert(m * p > 0) by (nonlinear_arith)
            requires
                m > 0,
                p > 0,
        ;
    }
}

/// One frame at a rate is a second divided by the rate, whatever the rate: the frame times the rate
/// is a second, to half a nanosecond and to one part in `2^53`.
pub proof fn law_frame_is_a_second_divided_by_the_rate(fps: Double)
    requires
        fps.is_positive(),
    ensures
        ({
            let (n, u) = (frame_nanos(fps) as int, fps.units() as int);
            let (b, o) = (0x20_0000_0000_0000int, binary64::one() as int);
            &&& 2 * ((n * u) * b) <= 2_000_000_000 * (o * (b + 1)) + u * b
            &&& 2_000_000_000 * (o * (b - 1)) <= 2 * ((n * u) * b) + u * b
        }),
{
    let o = binary64::one() as int;
    let b = MANTISSA_BOUND as int;
    let u = fps.units();
    lemma_units_positive(fps);
    float_bounds::lemma_one_is_large();
    float_bounds::lemma_float_of_exact(1);
    let one = (1 * o) as nat;
    let q = binary64::nearest(one, u);
    let n = frame_nanos(fps) as int;
    let y = n * u;
    if 2 * (one * o) >= u * b {
        float_bounds::lemma_nearest_error(one, u);
        let num = q * SECOND as nat;
        float_bounds::lemma_round_half_even_error(num, o as nat);
        let x = q * u;
        assert(2 * (y * o) <= 2 * (SECOND * x) + o * u && 2 * (SECOND * x) <= 2 * (y * o) + o * u)
            by (nonlinear_arith)
            requires
                2 * (n * o) <= 2 * num + o,
                2 * num <= 2 * (n * o) + o,
                num == q * SECOND,
                x == q * u,
                y == n * u,
                u >= 0,
        ;
        let (high, low) = (o * (b + 1), o * (b - 1));
        assert(x * b <= o * high && o * low <= x * b) by (nonlinear_arith)
            requires
                (q * u) * b <= (one * o) * (b + 1),
                (one * o) * (b - 1) <= (q * u) * b,
                one == o,
                x == q * u,
                high == o * (b + 1),
                low == o * (b - 1),
        ;
        assert(2 * (y * b) <= 2_000_000_000 * high + u * b && 2_000_000_000 * low <= 2 * (y * b) + u * b)
            by (nonlinear_arith)
            requires
                2 * (y * o) <= 2 * (SECOND * x) + o * u,
                2 * (SECOND * x) <= 2 * (y * o) + o * u,
                x * b <= o * high,
                o * low <= x * b,
                SECOND == 1_000_000_000,
                o > 0,
                b > 0,
        {
            assert((2 * (y * b)) * o <= (2_000_000_000 * high + u * b) * o);
            assert((2_000_000_000 * low) * o <= (2 * (y * b) + u * b) * o);
        }
    } else {
        assert(u >= 0x1_0000_0000_0000_0000 * o && u * b >= 2_000_000_000 * (o * (b - 1))
            && 2_000_000_000 * (o * (b + 1)) + u * b >= 0) by (nonlinear_arith)
            requires
                2 * (one * o) < u * b,
                one == o,
                o >= 0x1_0000_0000_0000_0000 * b,
                o >= 2_000_000_000 * b,
                b >= 1,
                o > 0,
        {
            assert((0x1_0000_0000_0000_0000 * b) * o <= o * o);
            assert((2_000_000_000 * b) * o <= o * o);
            assert((0x1_0000_0000_0000_0000 * o) * b < u * b);
        }
        lemma_fast_units(u);
        assert(y == 0 && y * b == 0) by (nonlinear_arith)
            requires
                y == n * u,
                n == 0,
        ;
    }
}

/// A rate has a frame interval unless one frame takes `2^64` seconds or more; one part in `2^53`
/// decides to either side.
pub proof fn law_only_the_slowest_rates_have_no_interval(fps: Double)
    requires
        fps.is_positive(),
    ensures
        ({
            let (u, b) = (fps.units() as int, 0x20_0000_0000_0000int);
            let (o, limit) = (binary64::one() as int, 0x1_0000_0000_0000_0000int);
            &&& limit * (u * b) > o * (b + 1) ==> is_rate(fps)
            &&& limit * (u * b) <= o * (b - 1) ==> !is_rate(fps)
        }),
{
    let o = binary64::one() as int;
    let b = MANTISSA_BOUND as int;
    let limit = 0x1_0000_0000_0000_0000int;
    let u = fps.units();
    lemma_units_positive(fps);
    float_bounds::lemma_one_is_large();
    float_bounds::lemma_float_of_exact(1);
    let one = (1 * o) as nat;
    let q = binary64::nearest(one, u);
    if 2 * (one * o) >= u * b {
        float_bounds::lemma_nearest_error(one, u);
        if q >= limit * o {
            assert(limit * (u * b) <= o * (b + 1)) by (nonlinear_arith)
                requires
                    q >= limit * o,
                    (q * u) * b <= (one * o) * (b + 1),
                    one == o,
                    o > 0,
                    u > 0,
                    b > 0,
            {
                assert((limit * o) * (u * b) <= q * (u * b));
                assert((limit * (u * b)) * o <= (o * (b + 1)) * o);
            }
        }
        if limit * (u * b) <= o * (b - 1) {
            assert(q >= limit * o) by (nonlinear_arith)
                requires
                    limit * (u * b) <= o * (b - 1),
                    (one * o) * (b - 1) <= (q * u) * b,
                    one == o,
                    o > 0,
                    u > 0,
                    b > 0,
            {
                assert((limit * (u * b)) * o <= (o * (b - 1)) * o);
                assert((limit * o) * (u * b) <= q * (u * b));
            }
        }
    } else {
        assert(u >= limit * o && limit * (u * b) > o * (b - 1)) by (nonlinear_arith)
            requires
                2 * (one * o) < u * b,
                one == o,
                o >= limit * b,
                limit >= 1,
                b >= 1,
                o > 0,
        {
            assert((limit * b) * o <= o * o);
            assert((limit * o) * b < u * b);
            assert(o * o >= o * b);
            assert(u * b <= limit * (u * b));
        }
        lemma_fast_units(u);
    }
}

/// The interval after a reasonable observation is four fifths of what it was and a fifth of what was
/// observed, each to the nearest nanosecond; any other observation leaves it as it was.
pub proof fn law_smoothing_in_numbers(previous: Duration, observed: Duration)
    requires
        previous.nanos <= 0x4000_0000_0000,
    ensures
        smoothed(previous, observed).nanos == (if 2_000_000 <= observed.nanos && observed.nanos
            <= 1_000_000_000 {
            (8 * previous.nanos + 5) / 10 + (2 * observed.nanos + 5) / 10
        } else {
            previous.nanos as int
        }),
{
    if is_reasonable(observed) {
        lemma_tenths_exact(8, previous.nanos as nat);
        lemma_tenths_exact(2, observed.nanos as nat);
    }
}

/// The rate that is shown is the number of intervals in a thousand seconds, to the nearest and of a
/// tie to either side; no interval has no rate.
pub proof fn law_shown_rate_in_numbers(interval: Duration)
    requires
        interval.nanos < 0x1_0000_0000_0000_0000 * 1_000_000_000,
    ensures
        interval.nanos == 0 ==> milli_hz(interval) == 0,
        interval.nanos > 0 ==> 2 * (milli_hz(interval) * interval.nanos) <= 2_000_000_000_000
            + interval.nanos && 2_000_000_000_000 <= 2 * (milli_hz(interval) * interval.nanos)
            + interval.nanos,
{
    if interval.nanos > 0 {
        lemma_milli_hz_near(interval);
    }
}

/// The frame interval, its smoothing and the rate that is shown are computed in double precision, and
/// every operation rounds once: a second divided by the rate, the seconds of each span times `0.8` and
/// `0.2`, and a thousand divided by the seconds.
pub proof fn law_intervals_round_once(fps: Double, previous: Duration, observed: Duration)
    requires
        previous.nanos < 0x1_0000_0000_0000_0000 * 1_000_000_000,
    ensures
        is_rate(fps) <==> fps.is_positive() && binary64::nearest(binary64::nearest(1, 1), fps.units())
            < 0x1_0000_0000_0000_0000 * binary64::one(),
        frame_nanos(fps) == binary64::round_half_even(
            binary64::nearest(binary64::nearest(1, 1), fps.units()) * 1_000_000_000,
            binary64::one(),
        ),
        2_000_000 <= observed.nanos <= 1_000_000_000 ==> smoothed(previous, observed).nanos
            == binary64::round_half_even(
            binary64::nearest(
                binary64::nearest(binary64::nearest(8, 1), binary64::nearest(10, 1))
                    * duration::seconds(previous.nanos as nat),
                binary64::one() * binary64::one(),
            ) * 1_000_000_000,
            binary64::one(),
        ) + binary64::round_half_even(
            binary64::nearest(
                binary64::nearest(binary64::nearest(2, 1), binary64::nearest(10, 1))
                    * duration::seconds(observed.nanos as nat),
                binary64::one() * binary64::one(),
            ) * 1_000_000_000,
            binary64::one(),
        ),
        previous.nanos > 0 ==> milli_hz(previous) == binary64::rounded_to_u64(
            binary64::nearest(binary64::nearest(1000, 1), duration::seconds(previous.nanos as nat)),
        ),
{
    if is_reasonable(observed) {
        lemma_blended_below(previous.nanos as nat, observed.nanos as nat);
    }
}

} // verus!
