//! How far rounding to a double moves a number, and in which order it leaves two.

use crate::binary64;
use crate::binary64::MANTISSA_BOUND;
use vstd::arithmetic::div_mod::*;
use vstd::arithmetic::power2::*;
use vstd::prelude::*;

verus! {

proof fn lemma_exponent_below(num: nat, den: nat, bound: nat)
    requires
        binary64::below_binade(num, den, bound),
    ensures
        exists|exponent: nat| exponent <= bound && binary64::is_exponent(num, den, exponent),
    decreases bound,
{
    if bound > 0 && binary64::below_binade(num, den, (bound - 1) as nat) {
        lemma_exponent_below(num, den, (bound - 1) as nat);
        let e = choose|e: nat| e <= bound - 1 && binary64::is_exponent(num, den, e);
        assert(e <= bound && binary64::is_exponent(num, den, e));
    } else {
        assert(binary64::is_exponent(num, den, bound));
    }
}

proof fn lemma_pow2_above(e: nat)
    ensures
        pow2(e) > e,
    decreases e,
{
    lemma2_to64();
    if e > 0 {
        lemma_pow2_above((e - 1) as nat);
        lemma_pow2_unfold(e);
    }
}

/// Every quotient has an exponent.
proof fn lemma_exponent(num: nat, den: nat) -> (e: nat)
    requires
        den > 0,
    ensures
        binary64::is_exponent(num, den, e),
        binary64::nearest(num, den) == binary64::rounded_at(num, den, e),
{
    let bound = num * binary64::one();
    lemma_pow2_above(bound);
    let p = pow2(bound);
    assert(bound < den * p * MANTISSA_BOUND) by (nonlinear_arith)
        requires
            bound < p,
            den >= 1,
    ;
    lemma_exponent_below(num, den, bound);
    let e = choose|e: nat| e <= bound && binary64::is_exponent(num, den, e);
    binary64::lemma_nearest_at(num, den, e);
    e
}

/// Rounding to an integer moves a number by at most a half.
pub proof fn lemma_round_half_even_error(num: nat, den: nat)
    requires
        den > 0,
    ensures
        2 * (binary64::round_half_even(num, den) * den) <= 2 * num + den,
        2 * num <= 2 * (binary64::round_half_even(num, den) * den) + den,
{
    lemma_fundamental_div_mod(num as int, den as int);
    let floor = num / den;
    assert(den * floor == floor * den) by (nonlinear_arith);
    assert((floor + 1) * den == floor * den + den) by (nonlinear_arith);
}

/// Rounding to a double moves a number by at most one part in `2^53`.
pub proof fn lemma_nearest_error(num: nat, den: nat)
    requires
        den > 0,
        2 * (num * binary64::one()) >= den * MANTISSA_BOUND,
    ensures
        (binary64::nearest(num, den) * den) * MANTISSA_BOUND <= (num * binary64::one()) * (MANTISSA_BOUND + 1),
        (num * binary64::one()) * (MANTISSA_BOUND - 1) <= (binary64::nearest(num, den) * den) * MANTISSA_BOUND,
{
    let e = lemma_exponent(num, den);
    let p = pow2(e);
    lemma_pow2_pos(e);
    let step = den * p;
    assert(step > 0) by (nonlinear_arith)
        requires
            step == den * p,
            den > 0,
            p > 0,
    ;
    let exact = num * binary64::one();
    let m = binary64::round_half_even(exact, step);
    lemma_round_half_even_error(exact, step);
    assert(binary64::nearest(num, den) * den == m * step) by (nonlinear_arith)
        requires
            binary64::nearest(num, den) == m * p,
            step == den * p,
    ;
    if e > 0 {
        lemma_pow2_unfold(e);
        let q = pow2((e - 1) as nat);
        assert(2 * (den * q * MANTISSA_BOUND) == step * MANTISSA_BOUND) by (nonlinear_arith)
            requires
                step == den * p,
                p == 2 * q,
        ;
    } else {
        lemma2_to64();
        assert(step == den);
    }
    let got = m * step;
    assert(got * MANTISSA_BOUND <= exact * (MANTISSA_BOUND + 1) && exact * (MANTISSA_BOUND - 1) <= got
        * MANTISSA_BOUND) by (nonlinear_arith)
        requires
            2 * got <= 2 * exact + step,
            2 * exact <= 2 * got + step,
            step * MANTISSA_BOUND <= 2 * exact,
    ;
}

/// A larger quotient does not round to a smaller integer.
pub proof fn lemma_round_half_even_monotone(a: nat, b: nat, c: nat, d: nat)
    requires
        b > 0,
        d > 0,
        a * d <= c * b,
    ensures
        binary64::round_half_even(a, b) <= binary64::round_half_even(c, d),
{
    let (m, n) = (binary64::round_half_even(a, b), binary64::round_half_even(c, d));
    if m > n {
        lemma_round_half_even_error(a, b);
        lemma_round_half_even_error(c, d);
        // Both lie half way between neighbours, and then they are equal.
        assert(m == n + 1 && 2 * (m * b) == 2 * a + b && 2 * (n * d) + d == 2 * c) by (nonlinear_arith)
            requires
                m >= n + 1,
                a * d <= c * b,
                b > 0,
                d > 0,
                2 * (m * b) <= 2 * a + b,
                2 * c <= 2 * (n * d) + d,
        ;
        lemma_fundamental_div_mod(a as int, b as int);
        lemma_fundamental_div_mod(c as int, d as int);
        assert(m * b == b * n + b) by (nonlinear_arith)
            requires
                m == n + 1,
        ;
        assert(n * d == d * n) by (nonlinear_arith);
        assert((n + 1) * b == b * n + b) by (nonlinear_arith);
        assert((n + 1) * d == d * n + d) by (nonlinear_arith);
        assert(n * b == b * n) by (nonlinear_arith);
        binary64::lemma_floor(a, b, n);
        binary64::lemma_floor(c, d, n);
    }
}

/// A larger quotient does not round to a smaller double.
pub proof fn lemma_nearest_monotone(a: nat, b: nat, c: nat, d: nat)
    requires
        b > 0,
        d > 0,
        a * d <= c * b,
    ensures
        binary64::nearest(a, b) <= binary64::nearest(c, d),
{
    let e = lemma_exponent(a, b);
    let f = lemma_exponent(c, d);
    let (p, q) = (pow2(e), pow2(f));
    lemma_pow2_pos(e);
    lemma_pow2_pos(f);
    lemma_pow2_pos(1074);
    let (x, y) = (a * binary64::one(), c * binary64::one());
    assert(x * d <= y * b) by (nonlinear_arith)
        requires
            a * d <= c * b,
            x == a * binary64::one(),
            y == c * binary64::one(),
    ;
    if f < e {
        // What is below a binade stays below it.
        binary64::lemma_below_monotone(c, d, f, (e - 1) as nat);
        let r = pow2((e - 1) as nat);
        assert(false) by (nonlinear_arith)
            requires
                y < d * r * MANTISSA_BOUND,
                x >= b * r * MANTISSA_BOUND,
                x * d <= y * b,
                b > 0,
                d > 0,
        ;
    }
    let (s, t) = (b * p, d * q);
    assert(s > 0 && t > 0) by (nonlinear_arith)
        requires
            s == b * p,
            t == d * q,
            b > 0,
            d > 0,
            p > 0,
            q > 0,
    ;
    let (m, n) = (binary64::round_half_even(x, s), binary64::round_half_even(y, t));
    if e == f {
        assert(x * t <= y * s) by (nonlinear_arith)
            requires
                x * d <= y * b,
                s == b * p,
                t == d * p,
        ;
        lemma_round_half_even_monotone(x, s, y, t);
        assert(m * p <= n * p) by (nonlinear_arith)
            requires
                m <= n,
        ;
    } else {
        lemma_round_half_even_error(x, s);
        lemma_round_half_even_error(y, t);
        // A mantissa is at most `2^53`, and at least half of that above the first binade.
        assert(m <= MANTISSA_BOUND) by (nonlinear_arith)
            requires
                2 * (m * s) <= 2 * x + s,
                x < s * MANTISSA_BOUND,
                s > 0,
        ;
        lemma_pow2_unfold(f);
        let h = pow2((f - 1) as nat);
        assert(2 * y >= t * MANTISSA_BOUND) by (nonlinear_arith)
            requires
                y >= d * h * MANTISSA_BOUND,
                t == d * q,
                q == 2 * h,
        ;
        assert(2 * n >= MANTISSA_BOUND) by (nonlinear_arith)
            requires
                2 * y <= 2 * (n * t) + t,
                2 * y >= t * MANTISSA_BOUND,
                t > 0,
                MANTISSA_BOUND % 2 == 0,
        ;
        binary64::lemma_pow2_monotone(e, (f - 1) as nat);
        assert(m * p <= n * q) by (nonlinear_arith)
            requires
                m <= MANTISSA_BOUND,
                2 * n >= MANTISSA_BOUND,
                q == 2 * h,
                p <= h,
        ;
    }
}

/// A quotient that 53 bits hold is a double as it stands.
pub proof fn lemma_representable(num: nat, den: nat, m: nat, e: nat)
    requires
        den > 0,
        m < MANTISSA_BOUND,
        num * binary64::one() == m * pow2(e) * den,
    ensures
        binary64::nearest(num, den) == m * pow2(e),
{
    let x = lemma_exponent(num, den);
    let (p, q) = (pow2(e), pow2(x));
    lemma_pow2_pos(e);
    lemma_pow2_pos(x);
    assert(m * p * den < den * p * MANTISSA_BOUND) by (nonlinear_arith)
        requires
            m < MANTISSA_BOUND,
            p > 0,
            den > 0,
    ;
    if x > e {
        binary64::lemma_below_monotone(num, den, e, (x - 1) as nat);
    }
    lemma_pow2_adds(x, (e - x) as nat);
    let h = pow2((e - x) as nat);
    let k = m * h;
    let exact = num * binary64::one();
    let step = den * q;
    assert(exact == k * step && step > 0) by (nonlinear_arith)
        requires
            exact == m * p * den,
            p == q * h,
            k == m * h,
            step == den * q,
            den > 0,
            q > 0,
    ;
    assert((k + 1) * step == k * step + step) by (nonlinear_arith);
    binary64::lemma_floor(exact, step, k);
    assert(k * q == m * p) by (nonlinear_arith)
        requires
            p == q * h,
            k == m * h,
    ;
}

/// One is a great many units.
pub proof fn lemma_one_is_large()
    ensures
        binary64::one() >= 0x1_0000_0000_0000_0000_0000_0000_0000_0000_0000_0000_0000_0000,
{
    lemma2_to64();
    lemma_pow2_adds(64, 64);
    lemma_pow2_adds(128, 64);
    binary64::lemma_pow2_monotone(192, 1074);
}

/// An integer of up to 53 bits is a double as it stands.
pub proof fn lemma_float_of_exact(n: nat)
    requires
        n < MANTISSA_BOUND,
    ensures
        binary64::float_of(n) == n * binary64::one(),
{
    lemma_representable(n, 1, n, 1074);
}

/// Any other integer moves by at most one part in `2^53`.
pub proof fn lemma_float_of_error(n: nat)
    ensures
        binary64::float_of(n) * MANTISSA_BOUND <= (n * binary64::one()) * (MANTISSA_BOUND + 1),
        (n * binary64::one()) * (MANTISSA_BOUND - 1) <= binary64::float_of(n) * MANTISSA_BOUND,
        n > 0 ==> binary64::float_of(n) >= binary64::one(),
{
    if n == 0 {
        lemma_float_of_exact(0);
    } else {
        lemma_one_is_large();
        assert(2 * (n * binary64::one()) >= 1 * MANTISSA_BOUND) by (nonlinear_arith)
            requires
                n >= 1,
                binary64::one() >= MANTISSA_BOUND,
        ;
        lemma_nearest_error(n, 1);
        lemma_nearest_monotone(1, 1, n, 1);
        lemma_float_of_exact(1);
    }
}

/// Three roundings of one part in `2^53` each move a number by at most four such parts.
pub proof fn lemma_three_roundings(got: nat, exact: nat)
    requires
        got * (MANTISSA_BOUND * MANTISSA_BOUND * MANTISSA_BOUND) <= exact * ((MANTISSA_BOUND + 1) * (
        MANTISSA_BOUND + 1) * (MANTISSA_BOUND + 1)),
        exact * ((MANTISSA_BOUND - 1) * (MANTISSA_BOUND - 1) * (MANTISSA_BOUND - 1)) <= got * (
        MANTISSA_BOUND * MANTISSA_BOUND * MANTISSA_BOUND),
    ensures
        got * MANTISSA_BOUND <= exact * (MANTISSA_BOUND + 4),
        exact * (MANTISSA_BOUND - 4) <= got * MANTISSA_BOUND,
{
    let b = MANTISSA_BOUND as int;
    let square = b * b;
    let up = (b + 1) * (b + 1) * (b + 1);
    let down = (b - 1) * (b - 1) * (b - 1);
    assert(up <= (b + 4) * square && down >= (b - 4) * square && square > 0) by (nonlinear_arith)
        requires
            up == (b + 1) * (b + 1) * (b + 1),
            down == (b - 1) * (b - 1) * (b - 1),
            square == b * b,
            b >= 8,
    ;
    lemma_cancel(got as int, exact as int, b, square, up, down, 4);
}

/// Four of them move it by at most five.
pub proof fn lemma_four_roundings(got: nat, exact: nat)
    requires
        got * (MANTISSA_BOUND * MANTISSA_BOUND * MANTISSA_BOUND * MANTISSA_BOUND) <= exact * ((
        MANTISSA_BOUND + 1) * (MANTISSA_BOUND + 1) * (MANTISSA_BOUND + 1) * (MANTISSA_BOUND + 1)),
        exact * ((MANTISSA_BOUND - 1) * (MANTISSA_BOUND - 1) * (MANTISSA_BOUND - 1) * (MANTISSA_BOUND
            - 1)) <= got * (MANTISSA_BOUND * MANTISSA_BOUND * MANTISSA_BOUND * MANTISSA_BOUND),
    ensures
        got * MANTISSA_BOUND <= exact * (MANTISSA_BOUND + 5),
        exact * (MANTISSA_BOUND - 5) <= got * MANTISSA_BOUND,
{
    let b = MANTISSA_BOUND as int;
    let cube = b * b * b;
    let up = (b + 1) * (b + 1) * (b + 1) * (b + 1);
    let down = (b - 1) * (b - 1) * (b - 1) * (b - 1);
    let square = b * b;
    assert(cube == b * square && b * cube == b * b * b * b && cube > 0) by (nonlinear_arith)
        requires
            cube == b * b * b,
            square == b * b,
            b > 0,
    ;
    assert(up == b * cube + 4 * cube + 6 * square + 4 * b + 1 && down == b * cube - 4 * cube + 6
        * square - 4 * b + 1) by (nonlinear_arith)
        requires
            up == (b + 1) * (b + 1) * (b + 1) * (b + 1),
            down == (b - 1) * (b - 1) * (b - 1) * (b - 1),
            square == b * b,
            cube == b * square,
    ;
    assert(6 * square + 4 * b + 1 <= cube && 4 * b <= square) by (nonlinear_arith)
        requires
            square == b * b,
            cube == b * square,
            b >= 16,
    ;
    assert((b + 5) * cube == b * cube + 5 * cube && (b - 5) * cube == b * cube - 5 * cube)
        by (nonlinear_arith);
    lemma_cancel(got as int, exact as int, b, cube, up, down, 5);
}

proof fn lemma_cancel(got: int, exact: int, b: int, scale: int, up: int, down: int, parts: int)
    requires
        got >= 0,
        exact >= 0,
        scale > 0,
        up <= (b + parts) * scale,
        down >= (b - parts) * scale,
        got * (b * scale) <= exact * up,
        exact * down <= got * (b * scale),
    ensures
        got * b <= exact * (b + parts),
        exact * (b - parts) <= got * b,
{
    let (high, low) = (exact * (b + parts), exact * (b - parts));
    assert(exact * up <= high * scale) by (nonlinear_arith)
        requires
            up <= (b + parts) * scale,
            high == exact * (b + parts),
            exact >= 0,
    ;
    assert(low * scale <= exact * down) by (nonlinear_arith)
        requires
            down >= (b - parts) * scale,
            low == exact * (b - parts),
            exact >= 0,
    ;
    let g = got * b;
    assert(got * (b * scale) == g * scale) by (nonlinear_arith)
        requires
            g == got * b,
    ;
    assert(g <= high && low <= g) by (nonlinear_arith)
        requires
            g * scale <= high * scale,
            low * scale <= g * scale,
            scale > 0,
    ;
}

/// A number that is closer to a quotient than the quotient is to the middle between two integers
/// rounds to the integer nearest to the quotient.
pub proof fn lemma_near_quotient(got: nat, unit: nat, num: nat, den: nat)
    requires
        unit > 0,
        den > 0,
        (2 * num + den) % (2 * den) != 0,
        2 * (got * den) < 2 * (num * unit) + unit,
        2 * (num * unit) < 2 * (got * den) + unit,
    ensures
        binary64::round_half_even(got, unit) == (2 * num + den) / (2 * den),
        (2 * got + unit) / (2 * unit) == (2 * num + den) / (2 * den),
{
    let q = (2 * num + den) / (2 * den);
    let rest = (2 * num + den) % (2 * den);
    lemma_fundamental_div_mod((2 * num + den) as int, (2 * den) as int);
    // The quotient is at least `1 / (2 * den)` away from either middle.
    assert((2 * q) * den + 1 <= 2 * num + den <= (2 * q + 2) * den - 1) by (nonlinear_arith)
        requires
            2 * num + den == (2 * den) * q + rest,
            1 <= rest < 2 * den,
    ;
    let (low, high) = ((2 * q) * unit, (2 * q + 2) * unit);
    assert(low < 2 * got + unit < high) by (nonlinear_arith)
        requires
            low == (2 * q) * unit,
            high == (2 * q + 2) * unit,
            (2 * q) * den + 1 <= 2 * num + den <= (2 * q + 2) * den - 1,
            2 * (got * den) < 2 * (num * unit) + unit,
            2 * (num * unit) < 2 * (got * den) + unit,
            den > 0,
            unit > 0,
    ;
    assert(q * (2 * unit) == low && (q + 1) * (2 * unit) == high) by (nonlinear_arith)
        requires
            low == (2 * q) * unit,
            high == (2 * q + 2) * unit,
    ;
    binary64::lemma_floor(2 * got + unit, 2 * unit, q);
    lemma_round_half_even_error(got, unit);
    let m = binary64::round_half_even(got, unit);
    assert(m == q) by (nonlinear_arith)
        requires
            2 * (m * unit) <= 2 * got + unit,
            2 * got <= 2 * (m * unit) + unit,
            (2 * q) * unit < 2 * got + unit < (2 * q + 2) * unit,
            unit > 0,
    ;
}

/// Rounding to a double gives a number of at most 53 bits at some exponent, as many as there can be
/// unless the exponent is the least, that is no further than half of the last place away from the
/// quotient, and of two that are the one whose last bit is clear.
pub proof fn law_nearest_double(num: nat, den: nat) -> (r: (nat, nat))
    requires
        den > 0,
    ensures
        ({
            let (m, e) = r;
            let (got, exact, step) = (
                binary64::nearest(num, den) * den,
                num * pow2(1074),
                den * pow2(e),
            );
            &&& binary64::nearest(num, den) == m * pow2(e)
            &&& m <= 0x20_0000_0000_0000
            &&& e == 0 || m >= 0x10_0000_0000_0000
            &&& 2 * got <= 2 * exact + step
            &&& 2 * exact <= 2 * got + step
            &&& 2 * got == 2 * exact + step || 2 * exact == 2 * got + step ==> m % 2 == 0
        }),
{
    let e = lemma_exponent(num, den);
    let p = pow2(e);
    lemma_pow2_pos(e);
    let step = den * p;
    assert(step > 0) by (nonlinear_arith)
        requires
            step == den * p,
            den > 0,
            p > 0,
    ;
    let exact = num * binary64::one();
    let m = binary64::round_half_even(exact, step);
    binary64::law_rounding_is_to_the_nearest_even(exact, step);
    assert((m * p) * den == m * step) by (nonlinear_arith)
        requires
            step == den * p,
    ;
    assert(m <= MANTISSA_BOUND) by (nonlinear_arith)
        requires
            2 * (m * step) <= 2 * exact + step,
            exact < step * MANTISSA_BOUND,
            step > 0,
    ;
    if e > 0 {
        lemma_pow2_unfold(e);
        let h = pow2((e - 1) as nat);
        assert(2 * exact >= step * MANTISSA_BOUND) by (nonlinear_arith)
            requires
                exact >= den * h * MANTISSA_BOUND,
                step == den * p,
                p == 2 * h,
        ;
        assert(m >= 0x10_0000_0000_0000) by (nonlinear_arith)
            requires
                2 * exact <= 2 * (m * step) + step,
                2 * exact >= step * 0x20_0000_0000_0000,
                step > 0,
        ;
    }
    (m, e)
}

/// The operations on doubles are those on numbers, rounded once.
pub proof fn law_operations_round_once(a: nat, b: nat)
    ensures
        binary64::one() == pow2(1074),
        binary64::float_of(a) == binary64::nearest(a, 1),
        binary64::float_add(a, b) == binary64::nearest(a + b, pow2(1074)),
        binary64::float_mul(a, b) == binary64::nearest(a * b, pow2(1074) * pow2(1074)),
        binary64::float_div(a, b) == binary64::nearest(a, b),
{
}

} // verus!
