//! How the packets of a frame are spread over the frame interval.

use crate::binary64;
use crate::binary64::{Binary64, MANTISSA_BOUND};
use crate::duration;
use crate::duration::{Duration, CLOCK_LIMIT, DURATION_LIMIT, SECOND, SLOT_LIMIT};
use crate::float_bounds;
use vstd::prelude::*;

verus! {

/// The nanoseconds between two packets where an interval is spread over so many of them.
pub open spec fn spacing_nanos(interval: nat, count: nat) -> nat {
    duration::div_float(interval, binary64::float_of(count))
}

/// The nanoseconds from the start of a frame to the slot of one of its packets.
pub open spec fn slot_nanos(spacing: nat, index: nat) -> nat {
    duration::mul_float(spacing, binary64::float_of(index))
}

/// An integer nearest to `interval / count`.
pub open spec fn is_nearest_share(spacing: nat, interval: nat, count: nat) -> bool {
    &&& 2 * (count * spacing) <= 2 * interval + count
    &&& 2 * interval <= 2 * (count * spacing) + count
}

/// A span's seconds are at most a hundredth more than they should be.
proof fn lemma_seconds_coarse(nanos: nat)
    ensures
        100 * SECOND * duration::seconds(nanos) <= 101 * (nanos * binary64::one()),
        nanos == 0 ==> duration::seconds(nanos) == 0,
{
    duration::lemma_seconds_error(nanos);
    float_bounds::lemma_one_is_large();
    let b = MANTISSA_BOUND as int;
    let (sec, o) = (duration::seconds(nanos), binary64::one());
    let (q, r) = (b * b, (b + 1) * (b + 1));
    assert(100 * r <= 101 * q && q > 0) by (nonlinear_arith)
        requires
            q == b * b,
            r == (b + 1) * (b + 1),
            b >= 1000,
    ;
    assert(sec * SECOND * q <= nanos * o * r) by (nonlinear_arith)
        requires
            sec * SECOND * b * b <= nanos * o * (b + 1) * (b + 1),
            q == b * b,
            r == (b + 1) * (b + 1),
    ;
    assert(100 * SECOND * sec <= 101 * (nanos * o)) by (nonlinear_arith)
        requires
            sec * SECOND * q <= nanos * o * r,
            100 * r <= 101 * q,
            q > 0,
            nanos * o >= 0,
    ;
    assert(nanos == 0 ==> sec == 0) by (nonlinear_arith)
        requires
            100 * SECOND * sec <= 101 * (nanos * o),
    ;
}

/// The seconds between two packets are at most a little more than they should be.
proof fn lemma_spacing_coarse(interval: nat, count: nat) -> (g: nat)
    requires
        0 < count < 0x1_0000_0000_0000_0000,
    ensures
        g == binary64::float_div(duration::seconds(interval), binary64::float_of(count)),
        9900 * SECOND * (g * count) <= 10201 * (interval * binary64::one()),
{
    let (sec, o) = (duration::seconds(interval), binary64::one());
    let b = MANTISSA_BOUND as int;
    let f = binary64::float_of(count);
    let g = binary64::nearest(sec, f);
    lemma_seconds_coarse(interval);
    float_bounds::lemma_one_is_large();
    float_bounds::lemma_float_of_error(count);
    if interval == 0 {
        binary64::lemma_nearest_zero(f);
    } else {
        duration::lemma_seconds_error(interval);
        assert(f <= 0x2_0000_0000_0000_0000 * o) by (nonlinear_arith)
            requires
                f * b <= (count * o) * (b + 1),
                count <= 0x1_0000_0000_0000_0000,
                b >= 1,
        ;
        assert(2 * (sec * o) >= f * b) by (nonlinear_arith)
            requires
                2 * SECOND * sec >= o,
                f <= 0x2_0000_0000_0000_0000 * o,
                o >= SECOND * 0x2_0000_0000_0000_0000 * b,
        ;
        float_bounds::lemma_nearest_error(sec, f);
        assert(100 * (g * f) <= 101 * (sec * o)) by (nonlinear_arith)
            requires
                (g * f) * b <= (sec * o) * (b + 1),
                b >= 100,
                sec * o >= 0,
        ;
        assert(100 * f >= 99 * (count * o)) by (nonlinear_arith)
            requires
                (count * o) * (b - 1) <= f * b,
                b >= 100,
        ;
        assert(99 * (g * count) <= 101 * sec) by (nonlinear_arith)
            requires
                100 * (g * f) <= 101 * (sec * o),
                100 * f >= 99 * (count * o),
                o > 0,
        ;
    }
    let (u, v) = (g * count, interval * o);
    assert(9900 * SECOND * u <= 10201 * v) by (nonlinear_arith)
        requires
            99 * u <= 101 * sec,
            100 * SECOND * sec <= 101 * v,
    ;
    g
}

/// Neither the spacing of a frame nor the slot of any of its packets is too long a span.
proof fn lemma_slot_spans(interval: nat, count: nat, index: nat)
    requires
        interval < CLOCK_LIMIT,
        index < count < 0x1_0000_0000_0000_0000,
    ensures
        duration::is_span(
            binary64::float_div(duration::seconds(interval), binary64::float_of(count)),
        ),
        duration::is_span(
            binary64::float_mul(
                binary64::float_of(index),
                duration::seconds(spacing_nanos(interval, count)),
            ),
        ),
{
    let o = binary64::one();
    let b = MANTISSA_BOUND as int;
    float_bounds::lemma_one_is_large();
    let g = lemma_spacing_coarse(interval, count);
    let limit = 0x8000_0000_0000_0000int;
    assert(g < 0x1_0000_0000_0000_0000 * o) by (nonlinear_arith)
        requires
            9900 * SECOND * (g * count) <= 10201 * (interval * o),
            interval < limit * SECOND,
            limit == 0x8000_0000_0000_0000,
            count >= 1,
            o > 0,
    ;
    let spacing = spacing_nanos(interval, count);
    let num = g * SECOND as nat;
    float_bounds::lemma_round_half_even_error(num, o);
    // The slots together take little more than the interval.
    assert(19800 * (spacing * count) <= 20402 * interval + 9900 * count) by (nonlinear_arith)
        requires
            2 * (spacing * o) <= 2 * num + o,
            num == g * SECOND,
            9900 * SECOND * (g * count) <= 10201 * (interval * o),
            o > 0,
    ;
    let sec = duration::seconds(spacing);
    let f = binary64::float_of(index);
    lemma_seconds_coarse(spacing);
    float_bounds::lemma_float_of_error(index);
    assert(100 * f <= 101 * (index * o)) by (nonlinear_arith)
        requires
            f * b <= (index * o) * (b + 1),
            b >= 100,
    ;
    let (x, y) = (f * sec, o * o);
    let slot = binary64::float_mul(f, sec);
    assert(y > 0) by (nonlinear_arith)
        requires
            y == o * o,
            o > 0,
    ;
    if index == 0 || spacing == 0 {
        if index == 0 {
            float_bounds::lemma_float_of_exact(0);
        }
        assert(x == 0) by (nonlinear_arith)
            requires
                x == f * sec,
                f == 0 || sec == 0,
        ;
        binary64::lemma_nearest_zero(y);
    } else {
        duration::lemma_seconds_error(spacing);
        assert(2 * (x * o) >= y * b) by (nonlinear_arith)
            requires
                x == f * sec,
                y == o * o,
                f >= o,
                2 * SECOND * sec >= o,
                o >= SECOND * b,
        ;
        float_bounds::lemma_nearest_error(x, y);
        assert(100 * (slot * o) <= 101 * (f * sec)) by (nonlinear_arith)
            requires
                (slot * y) * b <= (x * o) * (b + 1),
                x == f * sec,
                y == o * o,
                o > 0,
                b >= 100,
                f * sec >= 0,
        ;
        assert(10000 * SECOND * (f * sec) <= 10201 * ((index * spacing) * (o * o))) by (nonlinear_arith)
            requires
                100 * f <= 101 * (index * o),
                100 * SECOND * sec <= 101 * (spacing * o),
                f >= 0,
                sec >= 0,
                index * o >= 0,
        ;
        assert(1_000_000 * SECOND * slot <= 1_030_301 * ((index * spacing) * o)) by (nonlinear_arith)
            requires
                100 * (slot * o) <= 101 * (f * sec),
                10000 * SECOND * (f * sec) <= 10201 * ((index * spacing) * (o * o)),
                o > 0,
        ;
        assert(index * spacing <= spacing * count) by (nonlinear_arith)
            requires
                index <= count,
        ;
        let used = index * spacing;
        assert(slot < 0x1_0000_0000_0000_0000 * o) by (nonlinear_arith)
            requires
                1_000_000 * SECOND * slot <= 1_030_301 * (used * o),
                19800 * used <= 20402 * interval + 9900 * count,
                interval < 0x8000_0000_0000_0000 * SECOND,
                count < 0x1_0000_0000_0000_0000,
                o > 0,
        ;
    }
}

/// A slot is a span, and so it is less than `2^64` seconds and a nanosecond.
pub proof fn lemma_slot_bounded(interval: nat, count: nat, index: nat)
    requires
        interval < CLOCK_LIMIT,
        index < count < 0x1_0000_0000_0000_0000,
    ensures
        slot_nanos(spacing_nanos(interval, count), index) <= DURATION_LIMIT,
{
    lemma_slot_spans(interval, count, index);
    let o = binary64::one();
    float_bounds::lemma_one_is_large();
    let slot = binary64::float_mul(
        binary64::float_of(index),
        duration::seconds(spacing_nanos(interval, count)),
    );
    let num = slot * SECOND as nat;
    float_bounds::lemma_round_half_even_error(num, o);
    let got = binary64::round_half_even(num, o);
    assert(got <= 0x1_0000_0000_0000_0000 * SECOND) by (nonlinear_arith)
        requires
            2 * (got * o) <= 2 * num + o,
            num == slot * SECOND,
            slot < 0x1_0000_0000_0000_0000 * o,
            o > 0,
    ;
}

/// The time between two packets where an interval is spread over so many of them.
pub fn spacing(interval: Duration, count: usize) -> (r: Duration)
    requires
        interval.nanos < CLOCK_LIMIT,
        count > 0,
    ensures
        r.nanos == spacing_nanos(interval.nanos as nat, count as nat),
        r.wf(),
        interval.nanos <= 0x2_0000_0000_0000 && count <= 0x2_0000_0000_0000 ==> 2 * (count * r.nanos) <= 2
            * interval.nanos + count && 2 * interval.nanos <= 2 * (count * r.nanos) + count,
{
    proof {
        lemma_slot_spans(interval.nanos as nat, count as nat, 0);
        if interval.nanos <= SLOT_LIMIT && count <= SLOT_LIMIT {
            law_spacing_is_even(interval.nanos as nat, count as nat);
        }
    }
    interval.over(Binary64::from_integer(count as u64))
}

/// The time from the start of a frame to the slot of one of its packets.
pub fn slot_offset(interval: Duration, spacing: Duration, count: usize, index: usize) -> (r: Duration)
    requires
        interval.nanos < CLOCK_LIMIT,
        index < count,
        spacing.nanos == spacing_nanos(interval.nanos as nat, count as nat),
        spacing.wf(),
    ensures
        r.nanos == slot_nanos(spacing.nanos as nat, index as nat),
        r.wf(),
        interval.nanos <= 0x2_0000_0000_0000 && count <= 0x2_0000_0000_0000 ==> r.nanos == index
            * spacing.nanos,
{
    proof {
        lemma_slot_spans(interval.nanos as nat, count as nat, index as nat);
        if interval.nanos <= SLOT_LIMIT && count <= SLOT_LIMIT {
            law_slots_are_even(interval.nanos as nat, count as nat, index as nat);
        }
    }
    spacing.times(Binary64::from_integer(index as u64))
}

/// The spacing of a frame is an even share of the interval, to the nearest nanosecond.
pub proof fn law_spacing_is_even(interval: nat, count: nat)
    requires
        interval <= 0x2_0000_0000_0000,
        0 < count <= 0x2_0000_0000_0000,
    ensures
        2 * (count * spacing_nanos(interval, count)) <= 2 * interval + count,
        2 * interval <= 2 * (count * spacing_nanos(interval, count)) + count,
        is_nearest_share(spacing_nanos(interval, count), interval, count),
{
    let (sec, o) = (duration::seconds(interval), binary64::one());
    let b = MANTISSA_BOUND as int;
    float_bounds::lemma_one_is_large();
    float_bounds::lemma_float_of_exact(count);
    let f = count * o;
    let g = binary64::nearest(sec, f);
    assert(f > 0) by (nonlinear_arith)
        requires
            f == count * o,
            count > 0,
            o > 0,
    ;
    let got = (g * SECOND as nat) * count;
    let exact = interval * o;
    if interval == 0 {
        lemma_seconds_coarse(0);
        binary64::lemma_nearest_zero(f);
        assert(got == 0 && exact == 0) by (nonlinear_arith)
            requires
                got == (0 * SECOND) * count,
                exact == 0 * o,
        ;
    } else {
        duration::lemma_seconds_error(interval);
        assert(2 * (sec * o) >= f * b) by (nonlinear_arith)
            requires
                2 * SECOND * sec >= o,
                f == count * o,
                count <= 0x2_0000_0000_0000,
                o >= SECOND * 0x2_0000_0000_0000 * b,
        ;
        float_bounds::lemma_nearest_error(sec, f);
        assert((g * count) * b <= sec * (b + 1) && sec * (b - 1) <= (g * count) * b)
            by (nonlinear_arith)
            requires
                (g * f) * b <= (sec * o) * (b + 1),
                (sec * o) * (b - 1) <= (g * f) * b,
                f == count * o,
                o > 0,
        ;
        lemma_share_error((g * count) as int, sec as int, interval as int, o as int, b);
        assert((g * count) * SECOND == got) by (nonlinear_arith)
            requires
                got == (g * SECOND) * count,
        ;
        float_bounds::lemma_three_roundings(got, exact);
    }
    assert(2 * got < 2 * exact + o && 2 * exact < 2 * got + o) by (nonlinear_arith)
        requires
            got * b <= exact * (b + 4),
            exact * (b - 4) <= got * b,
            exact == interval * o,
            interval <= 0x2_0000_0000_0000,
            b == 0x20_0000_0000_0000,
            o > 0,
    ;
    let num = g * SECOND as nat;
    float_bounds::lemma_round_half_even_error(num, o);
    let spacing = spacing_nanos(interval, count);
    let share = count * spacing;
    assert(2 * (share * o) <= 2 * got + count * o && 2 * got <= 2 * (share * o) + count * o)
        by (nonlinear_arith)
        requires
            2 * (spacing * o) <= 2 * num + o,
            2 * num <= 2 * (spacing * o) + o,
            got == num * count,
            share == count * spacing,
    ;
    assert(2 * share <= 2 * interval + count && 2 * interval <= 2 * share + count) by (nonlinear_arith)
        requires
            2 * (share * o) <= 2 * got + count * o,
            2 * got <= 2 * (share * o) + count * o,
            2 * got < 2 * exact + o,
            2 * exact < 2 * got + o,
            exact == interval * o,
            o > 0,
    ;
}

/// One rounding on top of the two of a span's seconds.
proof fn lemma_share_error(x: int, sec: int, nanos: int, o: int, b: int)
    requires
        x >= 0,
        sec >= 0,
        nanos >= 0,
        o > 0,
        b > 1,
        x * b <= sec * (b + 1),
        sec * (b - 1) <= x * b,
        sec * SECOND * b * b <= nanos * o * (b + 1) * (b + 1),
        nanos * o * (b - 1) * (b - 1) <= sec * SECOND * b * b,
    ensures
        (x * SECOND) * (b * b * b) <= (nanos * o) * ((b + 1) * (b + 1) * (b + 1)),
        (nanos * o) * ((b - 1) * (b - 1) * (b - 1)) <= (x * SECOND) * (b * b * b),
{
    let w = SECOND * b * b;
    assert(w > 0) by (nonlinear_arith)
        requires
            w == SECOND * b * b,
            b > 1,
    ;
    assert((x * b) * w <= (sec * (b + 1)) * w && (sec * (b - 1)) * w <= (x * b) * w)
        by (nonlinear_arith)
        requires
            x * b <= sec * (b + 1),
            sec * (b - 1) <= x * b,
            w > 0,
    ;
    let y = sec * SECOND * b * b;
    assert((sec * (b + 1)) * w == y * (b + 1) && (sec * (b - 1)) * w == y * (b - 1)) by (nonlinear_arith)
        requires
            w == SECOND * b * b,
            y == sec * SECOND * b * b,
    ;
    assert((x * b) * w == (x * SECOND) * (b * b * b)) by (nonlinear_arith)
        requires
            w == SECOND * b * b,
    ;
    let (high, low) = (nanos * o * (b + 1) * (b + 1), nanos * o * (b - 1) * (b - 1));
    assert(y * (b + 1) <= high * (b + 1) && low * (b - 1) <= y * (b - 1)) by (nonlinear_arith)
        requires
            y <= high,
            low <= y,
            b > 1,
    ;
    assert(high * (b + 1) == (nanos * o) * ((b + 1) * (b + 1) * (b + 1)) && low * (b - 1) == (nanos * o)
        * ((b - 1) * (b - 1) * (b - 1))) by (nonlinear_arith)
        requires
            high == nanos * o * (b + 1) * (b + 1),
            low == nanos * o * (b - 1) * (b - 1),
    ;
}

/// The slots of a frame follow each other at exactly the spacing, from the start of the frame.
pub proof fn law_slots_are_even(interval: nat, count: nat, index: nat)
    requires
        interval <= 0x2_0000_0000_0000,
        index < count <= 0x2_0000_0000_0000,
    ensures
        slot_nanos(spacing_nanos(interval, count), index) == index * spacing_nanos(interval, count),
{
    let spacing = spacing_nanos(interval, count);
    law_spacing_is_even(interval, count);
    let total = index * spacing;
    assert(total <= count * spacing) by (nonlinear_arith)
        requires
            total == index * spacing,
            index <= count,
    ;
    let (sec, o) = (duration::seconds(spacing), binary64::one());
    let b = MANTISSA_BOUND as int;
    float_bounds::lemma_one_is_large();
    float_bounds::lemma_float_of_exact(index);
    let f = index * o;
    let (x, y) = (f * sec, o * o);
    let slot = binary64::nearest(x, y);
    assert(y > 0) by (nonlinear_arith)
        requires
            y == o * o,
            o > 0,
    ;
    let got = slot * SECOND as nat;
    let exact = total * o;
    if index == 0 || spacing == 0 {
        lemma_seconds_coarse(spacing);
        assert(x == 0 && total == 0 && exact == 0) by (nonlinear_arith)
            requires
                x == (index * o) * sec,
                total == index * spacing,
                exact == total * o,
                index == 0 || (spacing == 0 && sec == 0),
        ;
        binary64::lemma_nearest_zero(y);
    } else {
        duration::lemma_seconds_error(spacing);
        assert(2 * (x * o) >= y * b) by (nonlinear_arith)
            requires
                x == (index * o) * sec,
                y == o * o,
                index >= 1,
                2 * SECOND * sec >= o,
                o >= SECOND * b,
        ;
        float_bounds::lemma_nearest_error(x, y);
        let s = index * sec;
        assert(slot * b <= s * (b + 1) && s * (b - 1) <= slot * b) by (nonlinear_arith)
            requires
                (slot * y) * b <= (x * o) * (b + 1),
                (x * o) * (b - 1) <= (slot * y) * b,
                x == (index * o) * sec,
                s == index * sec,
                y == o * o,
                y > 0,
        ;
        assert(s * SECOND * b * b <= total * o * (b + 1) * (b + 1) && total * o * (b - 1) * (b - 1) <= s
            * SECOND * b * b) by (nonlinear_arith)
            requires
                sec * SECOND * b * b <= spacing * o * (b + 1) * (b + 1),
                spacing * o * (b - 1) * (b - 1) <= sec * SECOND * b * b,
                s == index * sec,
                total == index * spacing,
        ;
        lemma_share_error(slot as int, s as int, total as int, o as int, b);
        float_bounds::lemma_three_roundings(got, exact);
    }
    assert(2 * got < 2 * exact + o && 2 * exact < 2 * got + o) by (nonlinear_arith)
        requires
            got * b <= exact * (b + 4),
            exact * (b - 4) <= got * b,
            exact == total * o,
            total <= 0x3_0000_0000_0000,
            b == 0x20_0000_0000_0000,
            o > 0,
    ;
    binary64::lemma_floor(2 * total + 1, 2, total);
    float_bounds::lemma_near_quotient(got, o, total, 1);
}

/// The slots of a frame come in the order of its packets, however long the interval.
pub proof fn law_slots_in_order(spacing: nat, first: nat, second: nat)
    requires
        first <= second,
    ensures
        slot_nanos(spacing, first) <= slot_nanos(spacing, second),
{
    let o = binary64::one();
    float_bounds::lemma_one_is_large();
    float_bounds::lemma_nearest_monotone(first, 1, second, 1);
    let sec = duration::seconds(spacing);
    let (f, s) = (binary64::float_of(first), binary64::float_of(second));
    let square = o * o;
    assert(square > 0 && (f * sec) * square <= (s * sec) * square) by (nonlinear_arith)
        requires
            square == o * o,
            o > 0,
            f <= s,
    ;
    float_bounds::lemma_nearest_monotone(f * sec, square, s * sec, square);
    let (x, y) = (binary64::float_mul(f, sec), binary64::float_mul(s, sec));
    let (a, c) = (x * SECOND as nat, y * SECOND as nat);
    assert(a * o <= c * o) by (nonlinear_arith)
        requires
            a == x * SECOND,
            c == y * SECOND,
            x <= y,
    ;
    float_bounds::lemma_round_half_even_monotone(a, o, c, o);
}

/// The first slot of a frame is its start.
pub proof fn law_first_slot_is_start(spacing: nat)
    ensures
        slot_nanos(spacing, 0) == 0,
{
    let o = binary64::one();
    float_bounds::lemma_one_is_large();
    float_bounds::lemma_float_of_exact(0);
    let square = o * o;
    let zero = 0 * o;
    assert(square > 0 && zero * duration::seconds(spacing) == 0) by (nonlinear_arith)
        requires
            square == o * o,
            o > 0,
            zero == 0 * o,
    ;
    binary64::lemma_nearest_zero(square);
    float_bounds::lemma_round_half_even_error(0, o);
    let got = binary64::round_half_even(0, o);
    assert(got == 0) by (nonlinear_arith)
        requires
            2 * (got * o) <= 2 * 0 + o,
            o > 0,
    ;
}

/// A slot comes after its share of the interval by no more than half a nanosecond for each packet
/// before it, and not after the end of the interval, unless the packets are so many that these
/// halves add up to more than the share of one packet.
pub proof fn law_slots_within_interval(interval: nat, count: nat, index: nat)
    requires
        interval <= 0x2_0000_0000_0000,
        index < count <= 0x2_0000_0000_0000,
    ensures
        2 * (count * slot_nanos(spacing_nanos(interval, count), index)) <= index * (2 * interval + count),
        count * (count - 1) <= 2 * interval ==> slot_nanos(spacing_nanos(interval, count), index)
            <= interval,
{
    law_slots_are_even(interval, count, index);
    law_spacing_is_even(interval, count);
    let spacing = spacing_nanos(interval, count);
    let slot = index * spacing;
    assert(2 * (count * slot) <= index * (2 * interval + count)) by (nonlinear_arith)
        requires
            slot == index * spacing,
            2 * (count * spacing) <= 2 * interval + count,
            index >= 0,
    ;
    if count * (count - 1) <= 2 * interval {
        let last = (count - 1) * (2 * interval + count);
        assert(index * (2 * interval + count) <= last) by (nonlinear_arith)
            requires
                index <= count - 1,
                last == (count - 1) * (2 * interval + count),
        ;
        assert(last == 2 * (count * interval) - 2 * interval + count * (count - 1)) by (nonlinear_arith)
            requires
                last == (count - 1) * (2 * interval + count),
        ;
        assert(slot <= interval) by (nonlinear_arith)
            requires
                count * slot <= count * interval,
                count > 0,
        ;
    }
}

/// The spacing of a frame before it is rounded to the nanosecond, for any interval: five parts in
/// `2^53` off at most.
proof fn lemma_spacing_error(interval: nat, count: nat) -> (g: nat)
    requires
        0 < count < 0x1_0000_0000_0000_0000,
    ensures
        g == binary64::float_div(duration::seconds(interval), binary64::float_of(count)),
        (g * count * SECOND) * MANTISSA_BOUND <= (interval * binary64::one()) * (MANTISSA_BOUND + 5),
        (interval * binary64::one()) * (MANTISSA_BOUND - 5) <= (g * count * SECOND) * MANTISSA_BOUND,
{
    let (sec, o) = (duration::seconds(interval), binary64::one());
    let b = MANTISSA_BOUND as int;
    let f = binary64::float_of(count);
    let g = binary64::nearest(sec, f);
    float_bounds::lemma_one_is_large();
    float_bounds::lemma_float_of_error(count);
    let x = g * count * SECOND as nat;
    let exact = interval * o;
    if interval == 0 {
        lemma_seconds_coarse(0);
        binary64::lemma_nearest_zero(f);
        assert(x == 0 && exact == 0) by (nonlinear_arith)
            requires
                x == 0 * count * SECOND,
                exact == 0 * o,
        ;
    } else {
        duration::lemma_seconds_error(interval);
        assert(f <= 0x2_0000_0000_0000_0000 * o) by (nonlinear_arith)
            requires
                f * b <= (count * o) * (b + 1),
                count <= 0x1_0000_0000_0000_0000,
                b >= 1,
        ;
        assert(2 * (sec * o) >= f * b) by (nonlinear_arith)
            requires
                2 * SECOND * sec >= o,
                f <= 0x2_0000_0000_0000_0000 * o,
                o >= SECOND * 0x2_0000_0000_0000_0000 * b,
        ;
        float_bounds::lemma_nearest_error(sec, f);
        let y = g * count;
        assert(y * (b - 1) <= sec * (b + 1) && sec * (b - 1) <= y * (b + 1)) by (nonlinear_arith)
            requires
                (g * f) * b <= (sec * o) * (b + 1),
                (sec * o) * (b - 1) <= (g * f) * b,
                f * b <= (count * o) * (b + 1),
                (count * o) * (b - 1) <= f * b,
                y == g * count,
                o > 0,
                g >= 0,
        {
            assert((y * (b - 1)) * o <= g * (f * b));
            assert(g * (f * b) <= (y * (b + 1)) * o);
            assert((y * (b - 1)) * o <= (sec * (b + 1)) * o);
            assert((sec * (b - 1)) * o <= (y * (b + 1)) * o);
        }
        lemma_division_error(y as int, sec as int, interval as int, o as int, b);
        assert(x == y * SECOND);
    }
    g
}

/// A division by a rounded number on top of the two roundings of a span's seconds.
proof fn lemma_division_error(y: int, sec: int, nanos: int, o: int, b: int)
    requires
        y >= 0,
        sec >= 0,
        nanos >= 0,
        o > 0,
        b >= 16,
        y * (b - 1) <= sec * (b + 1),
        sec * (b - 1) <= y * (b + 1),
        sec * SECOND * b * b <= nanos * o * (b + 1) * (b + 1),
        nanos * o * (b - 1) * (b - 1) <= sec * SECOND * b * b,
    ensures
        (y * SECOND) * b <= (nanos * o) * (b + 5),
        (nanos * o) * (b - 5) <= (y * SECOND) * b,
{
    let (x, e, t) = (y * SECOND, nanos * o, sec * SECOND);
    let square = b * b;
    let (up, down) = ((b + 1) * (b + 1), (b - 1) * (b - 1));
    assert(x * (b - 1) <= t * (b + 1) && t * (b - 1) <= x * (b + 1)) by (nonlinear_arith)
        requires
            x == y * SECOND,
            t == sec * SECOND,
            y * (b - 1) <= sec * (b + 1),
            sec * (b - 1) <= y * (b + 1),
    ;
    assert(t * square <= e * up && e * down <= t * square && e >= 0 && x >= 0) by (nonlinear_arith)
        requires
            sec * SECOND * b * b <= nanos * o * (b + 1) * (b + 1),
            nanos * o * (b - 1) * (b - 1) <= sec * SECOND * b * b,
            t == sec * SECOND,
            e == nanos * o,
            x == y * SECOND,
            square == b * b,
            up == (b + 1) * (b + 1),
            down == (b - 1) * (b - 1),
            nanos >= 0,
            o > 0,
            y >= 0,
    ;
    let (high, low) = ((b - 1) * b, (b + 1) * b);
    assert(up * (b + 1) <= (b + 5) * high && (b - 5) * low <= down * (b - 1) && high > 0 && low > 0
        && square > 0) by (nonlinear_arith)
        requires
            up == (b + 1) * (b + 1),
            down == (b - 1) * (b - 1),
            high == (b - 1) * b,
            low == (b + 1) * b,
            square == b * b,
            b >= 16,
    ;
    let (above, below) = (e * (b + 5), e * (b - 5));
    let z = x * b;
    assert(z * high <= above * high) by (nonlinear_arith)
        requires
            x * (b - 1) <= t * (b + 1),
            t * square <= e * up,
            up * (b + 1) <= (b + 5) * high,
            z == x * b,
            above == e * (b + 5),
            high == (b - 1) * b,
            square == b * b,
            e >= 0,
            b > 0,
    {
        assert((x * (b - 1)) * square <= (t * (b + 1)) * square);
        assert((t * square) * (b + 1) <= (e * up) * (b + 1));
        assert(e * (up * (b + 1)) <= e * ((b + 5) * high));
        assert((x * (b - 1)) * square == z * high);
    }
    assert(below * low <= z * low) by (nonlinear_arith)
        requires
            t * (b - 1) <= x * (b + 1),
            e * down <= t * square,
            (b - 5) * low <= down * (b - 1),
            z == x * b,
            below == e * (b - 5),
            low == (b + 1) * b,
            square == b * b,
            e >= 0,
            b > 1,
    {
        assert((t * (b - 1)) * square <= (x * (b + 1)) * square);
        assert((e * down) * (b - 1) <= (t * square) * (b - 1));
        assert(e * ((b - 5) * low) <= e * (down * (b - 1)));
        assert((x * (b + 1)) * square == z * low);
    }
    assert(z <= above) by (nonlinear_arith)
        requires
            z * high <= above * high,
            high > 0,
    ;
    assert(below <= z) by (nonlinear_arith)
        requires
            below * low <= z * low,
            low > 0,
    ;
}

/// The spacing of a frame is an even share of the interval, however long that is: to half a
/// nanosecond, and to five parts in `2^53`.
pub proof fn law_spacing_is_a_share(interval: nat, count: nat)
    requires
        0 < count < 0x1_0000_0000_0000_0000,
    ensures
        ({
            let spread = count * spacing_nanos(interval, count);
            &&& 2 * MANTISSA_BOUND * spread <= 2 * (interval * (MANTISSA_BOUND + 5)) + MANTISSA_BOUND
                * count
            &&& 2 * (interval * (MANTISSA_BOUND - 5)) <= 2 * MANTISSA_BOUND * spread + MANTISSA_BOUND
                * count
        }),
{
    let o = binary64::one();
    let b = MANTISSA_BOUND as int;
    float_bounds::lemma_one_is_large();
    let g = lemma_spacing_error(interval, count);
    let num = g * SECOND as nat;
    float_bounds::lemma_round_half_even_error(num, o);
    let spacing = spacing_nanos(interval, count);
    let (spread, x) = (count * spacing, g * count * SECOND);
    assert(2 * (spread * o) <= 2 * x + count * o && 2 * x <= 2 * (spread * o) + count * o)
        by (nonlinear_arith)
        requires
            2 * (spacing * o) <= 2 * num + o,
            2 * num <= 2 * (spacing * o) + o,
            num == g * SECOND,
            spread == count * spacing,
            x == g * count * SECOND,
    ;
    let (high, low) = (interval * (b + 5), interval * (b - 5));
    assert(x * b <= high * o && low * o <= x * b) by (nonlinear_arith)
        requires
            x * b <= (interval * o) * (b + 5),
            (interval * o) * (b - 5) <= x * b,
            high == interval * (b + 5),
            low == interval * (b - 5),
    ;
    assert(2 * b * spread <= 2 * high + b * count && 2 * low <= 2 * b * spread + b * count)
        by (nonlinear_arith)
        requires
            2 * (spread * o) <= 2 * x + count * o,
            2 * x <= 2 * (spread * o) + count * o,
            x * b <= high * o,
            low * o <= x * b,
            o > 0,
            b > 0,
    {
        assert((2 * b * spread) * o <= (2 * high + b * count) * o);
        assert((2 * low) * o <= (2 * b * spread + b * count) * o);
    }
}

/// The slots of a frame are multiples of its spacing, however long that is: to half a nanosecond,
/// and to five parts in `2^53`.
pub proof fn law_slots_are_multiples(spacing: nat, index: nat)
    ensures
        ({
            let (slot, exact) = (slot_nanos(spacing, index), index * spacing);
            &&& 2 * MANTISSA_BOUND * slot <= 2 * (exact * (MANTISSA_BOUND + 5)) + MANTISSA_BOUND
            &&& 2 * (exact * (MANTISSA_BOUND - 5)) <= 2 * MANTISSA_BOUND * slot + MANTISSA_BOUND
        }),
{
    let (sec, o) = (duration::seconds(spacing), binary64::one());
    let b = MANTISSA_BOUND as int;
    float_bounds::lemma_one_is_large();
    float_bounds::lemma_float_of_error(index);
    let f = binary64::float_of(index);
    let (x, y) = (f * sec, o * o);
    let m = binary64::nearest(x, y);
    let total = index * spacing;
    let (got, exact) = (m * SECOND as nat, total * o);
    assert(y > 0) by (nonlinear_arith)
        requires
            y == o * o,
            o > 0,
    ;
    if index == 0 || spacing == 0 {
        lemma_seconds_coarse(spacing);
        if index == 0 {
            float_bounds::lemma_float_of_exact(0);
        }
        assert(x == 0 && exact == 0) by (nonlinear_arith)
            requires
                x == f * sec,
                exact == (index * spacing) * o,
                index == 0 && f == 0 || spacing == 0 && sec == 0,
        ;
        binary64::lemma_nearest_zero(y);
    } else {
        duration::lemma_seconds_error(spacing);
        assert(2 * (x * o) >= y * b) by (nonlinear_arith)
            requires
                x == f * sec,
                y == o * o,
                f >= o,
                2 * SECOND * sec >= o,
                o >= SECOND * b,
        ;
        float_bounds::lemma_nearest_error(x, y);
        assert(m * o * b <= f * sec * (b + 1) && f * sec * (b - 1) <= m * o * b) by (nonlinear_arith)
            requires
                (m * y) * b <= (x * o) * (b + 1),
                (x * o) * (b - 1) <= (m * y) * b,
                x == f * sec,
                y == o * o,
                o > 0,
        ;
        let (mi, oi, fi, si) = (m as int, o as int, f as int, sec as int);
        duration::lemma_product_upper(mi, oi, fi, si, index as int, 1, spacing as int, b);
        duration::lemma_product_lower(mi, oi, fi, si, index as int, 1, spacing as int, b);
        float_bounds::lemma_four_roundings(got, exact);
    }
    float_bounds::lemma_round_half_even_error(got, o);
    let slot = slot_nanos(spacing, index);
    let (high, low) = (total * (b + 5), total * (b - 5));
    assert(got * b <= high * o && low * o <= got * b) by (nonlinear_arith)
        requires
            got * b <= exact * (b + 5),
            exact * (b - 5) <= got * b,
            exact == total * o,
            high == total * (b + 5),
            low == total * (b - 5),
    ;
    assert(2 * b * slot <= 2 * high + b && 2 * low <= 2 * b * slot + b) by (nonlinear_arith)
        requires
            2 * (slot * o) <= 2 * got + o,
            2 * got <= 2 * (slot * o) + o,
            got * b <= high * o,
            low * o <= got * b,
            o > 0,
            b > 0,
    {
        assert((2 * b * slot) * o <= (2 * high + b) * o);
        assert((2 * low) * o <= (2 * b * slot + b) * o);
    }
}

/// The packets of a frame are spread evenly over the interval, however long that is and however
/// many they are: a slot comes at its share of the interval, no earlier than by half a nanosecond
/// for each packet up to its own and no later than by one, and by eleven parts in `2^53` of the
/// share.
pub proof fn law_slots_are_shares(interval: nat, count: nat, index: nat)
    requires
        index < count < 0x1_0000_0000_0000_0000,
    ensures
        ({
            let slot = slot_nanos(spacing_nanos(interval, count), index);
            let (place, share) = (count * slot, index * interval);
            &&& 2 * (share * (MANTISSA_BOUND - 11)) <= MANTISSA_BOUND * (2 * place + (index + 1)
                * count)
            &&& 2 * (MANTISSA_BOUND * place) <= 2 * (share * (MANTISSA_BOUND + 11)) + MANTISSA_BOUND
                * (2 * (index + 1) * count)
        }),
{
    let b = MANTISSA_BOUND as int;
    let spacing = spacing_nanos(interval, count);
    let slot = slot_nanos(spacing, index);
    law_spacing_is_a_share(interval, count);
    law_slots_are_multiples(spacing, index);
    let (spread, total) = (count * spacing, index * spacing);
    let (place, share) = ((count * slot) as int, (index * interval) as int);
    // So many spreads are as much as so many times the slot's exact place.
    let whole = (index * spread) as int;
    assert(whole == count * total) by (nonlinear_arith)
        requires
            whole == index * spread,
            spread == count * spacing,
            total == index * spacing,
    ;
    let (i, c, n) = (index as int, count as int, interval as int);
    assert(2 * (whole * (b - 5)) <= 2 * b * place + b * c && 2 * b * place <= 2 * (whole * (b + 5)) + b
        * c) by (nonlinear_arith)
        requires
            2 * b * slot <= 2 * (total * (b + 5)) + b,
            2 * (total * (b - 5)) <= 2 * b * slot + b,
            whole == c * total,
            place == c * slot,
            c >= 0,
    {
        assert(c * (2 * (total * (b - 5))) <= c * (2 * b * slot + b));
        assert(c * (2 * b * slot) <= c * (2 * (total * (b + 5)) + b));
    }
    let pairs = i * c;
    assert(2 * (share * (b - 5)) <= 2 * b * whole + b * pairs && 2 * b * whole <= 2 * (share * (b + 5))
        + b * pairs) by (nonlinear_arith)
        requires
            2 * b * spread <= 2 * (n * (b + 5)) + b * c,
            2 * (n * (b - 5)) <= 2 * b * spread + b * c,
            whole == i * spread,
            share == i * n,
            pairs == i * c,
            i >= 0,
    {
        assert(i * (2 * (n * (b - 5))) <= i * (2 * b * spread + b * c));
        assert(i * (2 * b * spread) <= i * (2 * (n * (b + 5)) + b * c));
    }
    assert(share >= 0 && pairs >= 0 && (i + 1) * c == pairs + c && 2 * (i + 1) * c == 2 * pairs + 2 * c)
        by (nonlinear_arith)
        requires
            share == i * n,
            pairs == i * c,
            i >= 0,
            n >= 0,
            c >= 0,
    ;
    lemma_two_errors(share, whole, place, pairs, c, b);
}

/// An error in the spacing and one in the slot, taken together.
proof fn lemma_two_errors(share: int, whole: int, place: int, pairs: int, c: int, b: int)
    requires
        share >= 0,
        pairs >= 0,
        c >= 0,
        b >= 100,
        2 * (share * (b - 5)) <= 2 * b * whole + b * pairs,
        2 * b * whole <= 2 * (share * (b + 5)) + b * pairs,
        2 * (whole * (b - 5)) <= 2 * b * place + b * c,
        2 * b * place <= 2 * (whole * (b + 5)) + b * c,
    ensures
        2 * (share * (b - 11)) <= b * (2 * place + (pairs + c)),
        2 * (b * place) <= 2 * (share * (b + 11)) + b * (2 * pairs + 2 * c),
{
    let (low, high) = (2 * (share * (b - 11)), 2 * (share * (b + 11)));
    let under = b * (2 * place + (pairs + c));
    assert(low * b <= under * b) by (nonlinear_arith)
        requires
            2 * (share * (b - 5)) <= 2 * b * whole + b * pairs,
            2 * (whole * (b - 5)) <= 2 * b * place + b * c,
            low == 2 * (share * (b - 11)),
            under == b * (2 * place + (pairs + c)),
            share >= 0,
            pairs >= 0,
            b >= 100,
    {
        assert((2 * (share * (b - 5))) * (b - 5) <= (2 * b * whole + b * pairs) * (b - 5));
        assert((2 * (whole * (b - 5))) * b <= (2 * b * place + b * c) * b);
        assert((b * pairs) * (b - 5) <= (b * pairs) * b);
        assert((b - 11) * b <= (b - 5) * (b - 5));
        assert(share * ((b - 11) * b) <= share * ((b - 5) * (b - 5)));
    }
    assert(low <= under) by (nonlinear_arith)
        requires
            low * b <= under * b,
            b > 0,
    ;
    let over = high + b * (2 * pairs + 2 * c);
    let got = 2 * (b * place);
    assert(got * b <= over * b) by (nonlinear_arith)
        requires
            2 * b * whole <= 2 * (share * (b + 5)) + b * pairs,
            2 * b * place <= 2 * (whole * (b + 5)) + b * c,
            high == 2 * (share * (b + 11)),
            over == high + b * (2 * pairs + 2 * c),
            got == 2 * (b * place),
            share >= 0,
            pairs >= 0,
            c >= 0,
            b >= 100,
    {
        assert((2 * b * whole) * (b + 5) <= (2 * (share * (b + 5)) + b * pairs) * (b + 5));
        assert((2 * b * place) * b <= (2 * (whole * (b + 5)) + b * c) * b);
        assert((b * pairs) * (b + 5) <= (b * pairs) * (2 * b));
        assert((b + 5) * (b + 5) <= (b + 11) * b);
        assert(share * ((b + 5) * (b + 5)) <= share * ((b + 11) * b));
        assert((b * c) * b <= (b * (2 * c)) * b);
    }
    assert(got <= over) by (nonlinear_arith)
        requires
            got * b <= over * b,
            b > 0,
    ;
}

/// The spacing is computed in double precision: the seconds of the interval divided by the count, each
/// rounded once, and the result in nanoseconds, rounded once.
pub proof fn law_spacing_is_one_division(interval: nat, count: nat)
    ensures
        spacing_nanos(interval, count) == binary64::round_half_even(
            binary64::nearest(duration::seconds(interval), binary64::nearest(count, 1)) * 1_000_000_000,
            binary64::one(),
        ),
{
}

/// A slot is computed in double precision: the number of packets before it times the seconds of the
/// spacing, each rounded once, and the result in nanoseconds, rounded once.
pub proof fn law_slot_is_one_product(spacing: nat, index: nat)
    ensures
        slot_nanos(spacing, index) == binary64::round_half_even(
            binary64::nearest(
                binary64::nearest(index, 1) * duration::seconds(spacing),
                binary64::one() * binary64::one(),
            ) * 1_000_000_000,
            binary64::one(),
        ),
{
}

} // verus!
