//! IEEE 754 double precision arithmetic on non-negative numbers, in integers.
//!
//! Every finite double is a multiple of `2^-1074`. The model of a double is the
//! natural number of such units that it stands for, and an operation is the exact
//! rational result rounded to a double.

use vstd::prelude::*;
use vstd::arithmetic::power2::*;
use vstd::arithmetic::div_mod::*;

verus! {

/// A mantissa reaches this bound, `2^53`, only by being rounded up to it.
pub const MANTISSA_BOUND: u64 = 0x20_0000_0000_0000;

/// The exponent of the number one's last place: one is `2^1074` units.
pub const POINT: u32 = 1074;

/// The number one, in units.
pub open spec fn one() -> nat {
    pow2(1074)
}

/// `num / den` rounded to an integer, a tie going to the even neighbour.
pub open spec fn round_half_even(num: nat, den: nat) -> nat {
    let floor = num / den;
    let rest = num % den;
    if 2 * rest < den || (2 * rest == den && floor % 2 == 0) {
        floor
    } else {
        floor + 1
    }
}

/// `num / den` is below `2^53` steps of `2^exponent` units.
pub open spec fn below_binade(num: nat, den: nat, exponent: nat) -> bool {
    num * one() < den * pow2(exponent) * MANTISSA_BOUND
}

/// `exponent` is the least one at which 53 bits hold `num / den`.
pub open spec fn is_exponent(num: nat, den: nat, exponent: nat) -> bool {
    &&& below_binade(num, den, exponent)
    &&& exponent > 0 ==> !below_binade(num, den, (exponent - 1) as nat)
}

/// `num / den` rounded to the steps of `2^exponent` units.
pub open spec fn rounded_at(num: nat, den: nat, exponent: nat) -> nat {
    round_half_even(num * one(), den * pow2(exponent)) * pow2(exponent)
}

/// The double nearest to `num / den`, in units; a tie goes to the even mantissa.
pub open spec fn nearest(num: nat, den: nat) -> nat {
    rounded_at(num, den, choose|exponent: nat| is_exponent(num, den, exponent))
}

/// An integer as a double.
pub open spec fn float_of(n: nat) -> nat {
    nearest(n, 1)
}

/// The sum of two doubles.
pub open spec fn float_add(a: nat, b: nat) -> nat {
    nearest(a + b, one())
}

/// The product of two doubles.
pub open spec fn float_mul(a: nat, b: nat) -> nat {
    nearest(a * b, one() * one())
}

/// The quotient of two doubles.
pub open spec fn float_div(a: nat, b: nat) -> nat {
    nearest(a, b)
}

/// A non-negative finite double, `mantissa * 2^exponent` units.
#[derive(Clone, Copy, Debug)]
pub struct Binary64 {
    pub mantissa: u64,
    pub exponent: u32,
}

impl Binary64 {
    /// The number that a double stands for, in units.
    pub open spec fn units(self) -> nat {
        self.mantissa as nat * pow2(self.exponent as nat)
    }

    /// The mantissa fits, and has 53 bits unless the number is below the normal range.
    pub open spec fn wf(self) -> bool {
        &&& self.mantissa <= MANTISSA_BOUND
        &&& self.exponent == 0 || 2 * self.mantissa >= MANTISSA_BOUND
    }
}

/// `num / den` lies in the step of `2^exponent` units that starts at `floor`, and `lost`
/// tells that it lies inside.
pub open spec fn in_step(num: nat, den: nat, floor: nat, exponent: nat, lost: bool) -> bool {
    &&& floor * (den * pow2(exponent)) <= num * one() < (floor + 1) * (den * pow2(exponent))
    &&& lost <==> floor * (den * pow2(exponent)) != num * one()
}

/// A quotient has at most one exponent.
proof fn lemma_exponent_unique(num: nat, den: nat, a: nat, b: nat)
    requires
        is_exponent(num, den, a),
        is_exponent(num, den, b),
    ensures
        a == b,
{
    if a < b {
        lemma_below_monotone(num, den, a, (b - 1) as nat);
    } else if b < a {
        lemma_below_monotone(num, den, b, (a - 1) as nat);
    }
}

/// What is below a binade is below every later one.
pub proof fn lemma_below_monotone(num: nat, den: nat, a: nat, b: nat)
    requires
        a <= b,
        below_binade(num, den, a),
    ensures
        below_binade(num, den, b),
{
    if a < b {
        lemma_pow2_strictly_increases(a, b);
    }
    let (x, y) = (pow2(a), pow2(b));
    assert(den * x * MANTISSA_BOUND <= den * y * MANTISSA_BOUND) by (nonlinear_arith)
        requires
            x <= y,
    ;
}

/// The nearest double is found at the exponent of the quotient.
pub proof fn lemma_nearest_at(num: nat, den: nat, exponent: nat)
    requires
        is_exponent(num, den, exponent),
    ensures
        nearest(num, den) == rounded_at(num, den, exponent),
{
    let e = choose|e: nat| is_exponent(num, den, e);
    lemma_exponent_unique(num, den, exponent, e);
}

/// A number between two multiples has the lower one's quotient.
pub proof fn lemma_floor(num: nat, den: nat, floor: nat)
    requires
        floor * den <= num < (floor + 1) * den,
    ensures
        num / den == floor,
        num % den == num - floor * den,
{
    assert(den > 0) by (nonlinear_arith)
        requires
            floor * den < (floor + 1) * den,
    ;
    let rest = num - floor * den;
    assert((floor + 1) * den == floor * den + den) by (nonlinear_arith);
    lemma_fundamental_div_mod_converse(num as int, den as int, floor as int, rest);
}

/// Halving a step: what was lost is lost still.
proof fn lemma_halve(num: nat, den: nat, floor: nat, exponent: nat, lost: bool)
    requires
        in_step(num, den, floor, exponent, lost),
    ensures
        in_step(num, den, floor / 2, exponent + 1, lost || floor % 2 == 1),
{
    lemma_pow2_unfold(exponent + 1);
    let step = den * pow2(exponent);
    let wide = den * pow2(exponent + 1);
    assert(wide == 2 * step) by (nonlinear_arith)
        requires
            wide == den * (2 * pow2(exponent)),
            step == den * pow2(exponent),
    ;
    let (half, odd) = (floor / 2, floor % 2);
    assert(half * wide == (floor - odd) * step) by (nonlinear_arith)
        requires
            wide == 2 * step,
            2 * half == floor - odd,
    ;
    assert((half + 1) * wide == (floor - odd + 2) * step) by (nonlinear_arith)
        requires
            wide == 2 * step,
            2 * half == floor - odd,
    ;
    assert((floor - odd) * step <= floor * step) by (nonlinear_arith)
        requires
            odd >= 0,
    ;
    assert((floor + 1) * step <= (floor - odd + 2) * step) by (nonlinear_arith)
        requires
            odd <= 1,
    ;
    assert(step > 0) by (nonlinear_arith)
        requires
            floor * step < (floor + 1) * step,
    ;
    if odd == 1 {
        assert((floor - odd) * step < floor * step) by (nonlinear_arith)
            requires
                odd == 1,
                step > 0,
        ;
    }
}

/// Doubling an exact step.
proof fn lemma_double(num: nat, den: nat, floor: nat, exponent: nat)
    requires
        exponent > 0,
        den > 0,
        in_step(num, den, floor, exponent, false),
    ensures
        in_step(num, den, 2 * floor, (exponent - 1) as nat, false),
{
    lemma_pow2_unfold(exponent);
    lemma_pow2_pos((exponent - 1) as nat);
    let step = den * pow2((exponent - 1) as nat);
    let wide = den * pow2(exponent);
    assert(wide == 2 * step) by (nonlinear_arith)
        requires
            wide == den * (2 * pow2((exponent - 1) as nat)),
            step == den * pow2((exponent - 1) as nat),
    ;
    assert(step > 0) by (nonlinear_arith)
        requires
            step == den * pow2((exponent - 1) as nat),
            den > 0,
            pow2((exponent - 1) as nat) > 0,
    ;
    assert((2 * floor) * step == floor * wide) by (nonlinear_arith)
        requires
            wide == 2 * step,
    ;
    assert((2 * floor + 1) * step == (2 * floor) * step + step) by (nonlinear_arith);
}

/// Rounding from a step half as wide as the last place.
proof fn lemma_round_from_half(num: nat, den: nat, floor: nat, lost: bool)
    requires
        floor * den <= 2 * num < (floor + 1) * den,
        lost <==> floor * den != 2 * num,
    ensures
        round_half_even(num, den) == (if floor % 2 == 1 && (lost || (floor / 2) % 2 == 1) {
            floor / 2 + 1
        } else {
            floor / 2
        }),
{
    let half = floor / 2;
    let odd = floor % 2;
    assert(floor * den == 2 * (half * den) + odd * den) by (nonlinear_arith)
        requires
            floor == 2 * half + odd,
    ;
    assert((floor + 1) * den == 2 * (half * den) + odd * den + den) by (nonlinear_arith)
        requires
            floor == 2 * half + odd,
    ;
    assert((half + 1) * den == half * den + den) by (nonlinear_arith);
    if odd == 0 {
        assert(odd * den == 0);
    } else {
        assert(odd * den == den) by (nonlinear_arith)
            requires
                odd == 1,
        ;
    }
    lemma_floor(num, den, half);
}

proof fn lemma_pow2_values()
    ensures
        pow2(53) == MANTISSA_BOUND,
        pow2(74) == 0x400_0000_0000_0000_0000,
{
    lemma2_to64();
    lemma_pow2_adds(32, 21);
    lemma_pow2_adds(64, 10);
}

pub proof fn lemma_pow2_monotone(a: nat, b: nat)
    requires
        a <= b,
    ensures
        pow2(a) <= pow2(b),
{
    if a < b {
        lemma_pow2_strictly_increases(a, b);
    }
}

/// Rounds `num / den`, known to lie in a step of `2^exponent` units, to a double.
fn round(floor: u128, exponent: u32, lost: bool, Ghost(num): Ghost<nat>, Ghost(den): Ghost<nat>)
    -> (r: Binary64)
    requires
        den > 0,
        in_step(num, den, floor as nat, exponent as nat, lost),
        lost ==> floor >= MANTISSA_BOUND,
        exponent <= 5000,
    ensures
        r.wf(),
        r.units() == nearest(num, den),
        r.exponent <= exponent + 76,
        floor > 0 ==> r.exponent + 53 >= exponent,
        floor >= MANTISSA_BOUND ==> r.exponent > exponent,
        floor > 0 <==> r.mantissa > 0,
{
    let mut n: u128 = floor;
    let mut e: u32 = exponent;
    let mut sticky: bool = lost;
    proof {
        lemma_pow2_values();
        lemma2_to64();
    }
    while n < MANTISSA_BOUND as u128 && e > 0
        invariant
            den > 0,
            in_step(num, den, n as nat, e as nat, sticky),
            sticky ==> n >= MANTISSA_BOUND,
            e <= exponent <= 5000,
            floor > 0 ==> n >= pow2((exponent - e) as nat) && exponent - e <= 53,
            floor > 0 <==> n > 0,
            floor >= MANTISSA_BOUND ==> e == exponent && n == floor,
            pow2(53) == MANTISSA_BOUND,
        decreases e,
    {
        proof {
            lemma_double(num, den, n as nat, e as nat);
            lemma_pow2_unfold((exponent - e + 1) as nat);
            if floor > 0 && exponent - e >= 53 {
                lemma_pow2_monotone(53, (exponent - e) as nat);
            }
        }
        n = 2 * n;
        e = e - 1;
    }
    let ghost start: nat = e as nat;
    assert(n * pow2(0) == n) by {
        lemma2_to64();
    }
    while n >= 2 * MANTISSA_BOUND as u128
        invariant
            den > 0,
            in_step(num, den, n as nat, e as nat, sticky),
            sticky ==> n >= MANTISSA_BOUND,
            n < MANTISSA_BOUND ==> e == 0,
            floor >= MANTISSA_BOUND ==> n >= MANTISSA_BOUND,
            floor > 0 <==> n > 0,
            start <= e <= start + 74,
            start <= exponent <= 5000,
            n * pow2((e - start) as nat) <= u128::MAX,
            pow2(74) == 0x400_0000_0000_0000_0000,
        decreases n,
    {
        proof {
            lemma_halve(num, den, n as nat, e as nat, sticky);
            let passed = (e - start) as nat;
            let p = pow2(passed);
            if passed >= 74 {
                lemma_pow2_monotone(74, passed);
                assert(n * p >= 0x40_0000_0000_0000 * 0x400_0000_0000_0000_0000) by (nonlinear_arith)
                    requires
                        n >= 0x40_0000_0000_0000,
                        p >= 0x400_0000_0000_0000_0000,
                ;
            }
            lemma_pow2_unfold(passed + 1);
            assert((n / 2) * (2 * p) <= n * p) by (nonlinear_arith)
                requires
                    2 * (n / 2) <= n,
            ;
        }
        sticky = sticky || n % 2 == 1;
        n = n / 2;
        e = e + 1;
    }
    if n < MANTISSA_BOUND as u128 {
        proof {
            lemma_exact(num, den, n as nat);
        }
        return Binary64 { mantissa: n as u64, exponent: 0 };
    }
    proof {
        lemma_round_normal(num, den, n as nat, e as nat, sticky);
    }
    let half: u128 = n / 2;
    let mantissa: u128 = if n % 2 == 1 && (sticky || half % 2 == 1) {
        half + 1
    } else {
        half
    };
    Binary64 { mantissa: mantissa as u64, exponent: e + 1 }
}

/// A number of less than 53 bits of whole units is a double as it stands.
proof fn lemma_exact(num: nat, den: nat, floor: nat)
    requires
        den > 0,
        floor < MANTISSA_BOUND,
        in_step(num, den, floor, 0, false),
    ensures
        nearest(num, den) == floor,
        floor * pow2(0) == floor,
{
    lemma2_to64();
    let step = den * pow2(0);
    assert(step == den);
    assert(floor * step < step * MANTISSA_BOUND) by (nonlinear_arith)
        requires
            floor < MANTISSA_BOUND,
            step > 0,
    ;
    lemma_nearest_at(num, den, 0);
    assert(2 * floor * step == 2 * (num * one())) by (nonlinear_arith)
        requires
            floor * step == num * one(),
    ;
    assert((2 * floor + 1) * step == 2 * floor * step + step) by (nonlinear_arith);
    lemma_round_from_half(num * one(), step, 2 * floor, false);
}

/// 54 bits and what was lost below them determine the double.
proof fn lemma_round_normal(num: nat, den: nat, floor: nat, exponent: nat, lost: bool)
    requires
        den > 0,
        MANTISSA_BOUND <= floor < 2 * MANTISSA_BOUND,
        in_step(num, den, floor, exponent, lost),
    ensures
        nearest(num, den) == (if floor % 2 == 1 && (lost || (floor / 2) % 2 == 1) {
            floor / 2 + 1
        } else {
            floor / 2
        }) * pow2(exponent + 1),
{
    let step = den * pow2(exponent);
    let wide = den * pow2(exponent + 1);
    lemma_pow2_unfold(exponent + 1);
    assert(wide == 2 * step) by (nonlinear_arith)
        requires
            wide == den * (2 * pow2(exponent)),
            step == den * pow2(exponent),
    ;
    assert(floor * step >= step * MANTISSA_BOUND) by (nonlinear_arith)
        requires
            floor >= MANTISSA_BOUND,
    ;
    assert((floor + 1) * step <= wide * MANTISSA_BOUND) by (nonlinear_arith)
        requires
            floor + 1 <= 2 * MANTISSA_BOUND,
            wide == 2 * step,
    ;
    lemma_nearest_at(num, den, exponent + 1);
    assert(floor * wide == 2 * (floor * step)) by (nonlinear_arith)
        requires
            wide == 2 * step,
    ;
    assert((floor + 1) * wide == 2 * ((floor + 1) * step)) by (nonlinear_arith)
        requires
            wide == 2 * step,
    ;
    lemma_round_from_half(num * one(), wide, floor, lost);
}

/// Zero stays zero.
pub proof fn lemma_nearest_zero(den: nat)
    requires
        den > 0,
    ensures
        nearest(0, den) == 0,
{
    lemma2_to64();
    assert(0 * one() == 0 && 0 * (den * pow2(0)) == 0 && 1 * (den * pow2(0)) == den)
        by (nonlinear_arith)
        requires
            pow2(0) == 1,
    ;
    lemma_exact(0, den, 0);
}

/// `n` without its last `count` bits, and whether any of them was set.
fn shift_right(n: u128, count: u32) -> (r: (u128, bool))
    ensures
        r.0 * pow2(count as nat) <= n < (r.0 + 1) * pow2(count as nat),
        r.1 <==> r.0 * pow2(count as nat) != n,
{
    let mut kept: u128 = n;
    let mut lost: bool = false;
    let mut done: u32 = 0;
    assert(pow2(0) == 1) by {
        lemma2_to64();
    }
    while done < count
        invariant
            done <= count,
            kept * pow2(done as nat) <= n < (kept + 1) * pow2(done as nat),
            lost <==> kept * pow2(done as nat) != n,
        decreases count - done,
    {
        proof {
            lemma_pow2_unfold(done as nat + 1);
            lemma_pow2_pos(done as nat);
            let p = pow2(done as nat);
            let (half, odd) = (kept / 2, kept % 2);
            assert(half * (2 * p) == kept * p - odd * p) by (nonlinear_arith)
                requires
                    kept == 2 * half + odd,
            ;
            assert((half + 1) * (2 * p) == (kept + 1) * p + p - odd * p) by (nonlinear_arith)
                requires
                    kept == 2 * half + odd,
            ;
            assert(odd == 0 ==> odd * p == 0);
            assert(odd == 1 ==> odd * p == p) by (nonlinear_arith);
        }
        lost = lost || kept % 2 == 1;
        kept = kept / 2;
        done = done + 1;
    }
    (kept, lost)
}

/// `n` with `count` zero bits put behind it.
fn shift_left(n: u128, count: u32) -> (r: u128)
    requires
        n * pow2(count as nat) <= u128::MAX,
    ensures
        r == n * pow2(count as nat),
{
    let mut grown: u128 = n;
    let mut done: u32 = 0;
    assert(n * pow2(0) == n) by {
        lemma2_to64();
    }
    while done < count
        invariant
            done <= count,
            n * pow2(count as nat) <= u128::MAX,
            grown == n * pow2(done as nat),
        decreases count - done,
    {
        proof {
            lemma_pow2_unfold(done as nat + 1);
            lemma_pow2_monotone(done as nat + 1, count as nat);
            let (p, q) = (pow2(done as nat + 1), pow2(count as nat));
            assert(n * p <= n * q) by (nonlinear_arith)
                requires
                    p <= q,
            ;
            assert(2 * (n * pow2(done as nat)) == n * p) by (nonlinear_arith)
                requires
                    p == 2 * pow2(done as nat),
            ;
        }
        grown = 2 * grown;
        done = done + 1;
    }
    grown
}

impl Binary64 {
    /// `n as f64`.
    pub fn from_integer(n: u64) -> (r: Binary64)
        ensures
            r.wf(),
            r.units() == float_of(n as nat),
            n > 0 ==> 1021 <= r.exponent,
            r.exponent <= 1150,
            n > 0 <==> r.mantissa > 0,
    {
        proof {
            lemma_pow2_pos(1074);
            assert((n + 1) * (1 * one()) == n * one() + one()) by (nonlinear_arith);
        }
        round(n as u128, POINT, false, Ghost(n as nat), Ghost(1))
    }

    /// `self * other`.
    pub fn times(self, other: Binary64) -> (r: Binary64)
        requires
            self.wf(),
            other.wf(),
            self.exponent <= 2500,
            other.exponent <= 2500,
            self.mantissa == 0 || other.mantissa == 0 || self.exponent + other.exponent >= POINT,
        ensures
            r.wf(),
            r.units() == float_mul(self.units(), other.units()),
            r.exponent == 0 || r.exponent + 998 <= self.exponent + other.exponent,
    {
        proof {
            lemma_pow2_pos(1074);
            assert(one() * one() > 0) by (nonlinear_arith)
                requires
                    one() > 0,
            ;
        }
        if self.mantissa == 0 || other.mantissa == 0 {
            proof {
                lemma_nearest_zero(one() * one());
                let (a, b) = (self.mantissa, other.mantissa);
                let (x, y) = (pow2(self.exponent as nat), pow2(other.exponent as nat));
                assert((a * x) * (b * y) == 0 && a * 0 == 0 && 0 * x == 0) by (nonlinear_arith)
                    requires
                        a == 0 || b == 0,
                ;
            }
            return Binary64 { mantissa: 0, exponent: 0 };
        }
        let exponent: u32 = self.exponent + other.exponent - POINT;
        let (a, b): (u128, u128) = (self.mantissa as u128, other.mantissa as u128);
        assert(a * b <= MANTISSA_BOUND * MANTISSA_BOUND) by (nonlinear_arith)
            requires
                a <= MANTISSA_BOUND,
                b <= MANTISSA_BOUND,
        ;
        let ghost num = self.units() * other.units();
        let ghost den = one() * one();
        proof {
            let (x, y, z) = (
                pow2(self.exponent as nat),
                pow2(other.exponent as nat),
                pow2(exponent as nat),
            );
            lemma_pow2_adds(self.exponent as nat, other.exponent as nat);
            lemma_pow2_adds(exponent as nat, 1074);
            assert((a * b) * (den * z) == num * one()) by (nonlinear_arith)
                requires
                    x * y == z * one(),
                    num == (a * x) * (b * y),
                    den == one() * one(),
            ;
            lemma_pow2_pos(exponent as nat);
            assert(den * z > 0) by (nonlinear_arith)
                requires
                    den > 0,
                    z > 0,
            ;
            assert((a * b + 1) * (den * z) == (a * b) * (den * z) + den * z) by (nonlinear_arith);
        }
        round(a * b, exponent, false, Ghost(num), Ghost(den))
    }

    /// `self / other`.
    pub fn over(self, other: Binary64) -> (r: Binary64)
        requires
            self.wf(),
            other.wf(),
            other.mantissa > 0,
            self.mantissa == 0 || 2 * self.mantissa >= MANTISSA_BOUND,
            self.exponent <= 2500,
            self.mantissa > 0 ==> other.exponent <= self.exponent + 1010,
        ensures
            r.wf(),
            r.units() == float_div(self.units(), other.units()),
            self.mantissa > 0 <==> r.mantissa > 0,
            self.mantissa == 0 ==> r.exponent == 0,
            self.mantissa > 0 ==> r.exponent <= self.exponent + 1086 - other.exponent,
            self.mantissa > 0 ==> r.exponent > self.exponent + 1010 - other.exponent,
    {
        proof {
            lemma_pow2_pos(other.exponent as nat);
            assert(other.units() > 0) by (nonlinear_arith)
                requires
                    other.units() == other.mantissa * pow2(other.exponent as nat),
                    other.mantissa > 0,
                    pow2(other.exponent as nat) > 0,
            ;
        }
        if self.mantissa == 0 {
            proof {
                lemma_nearest_zero(other.units());
            }
            return Binary64 { mantissa: 0, exponent: 0 };
        }
        let exponent: u32 = self.exponent + 1010 - other.exponent;
        let (a, b): (u128, u128) = (self.mantissa as u128, other.mantissa as u128);
        let wide: u128 = a * 0x1_0000_0000_0000_0000;
        let floor: u128 = wide / b;
        let ghost num = self.units();
        let ghost den = other.units();
        proof {
            let (x, y, z) = (
                pow2(self.exponent as nat),
                pow2(other.exponent as nat),
                pow2(exponent as nat),
            );
            lemma2_to64();
            lemma_pow2_adds(other.exponent as nat, exponent as nat);
            lemma_pow2_adds(64, (self.exponent + 1010) as nat);
            lemma_pow2_adds(self.exponent as nat, 1074);
            lemma_pow2_pos(self.exponent as nat);
            lemma_pow2_pos(1074);
            lemma_fundamental_div_mod(wide as int, b as int);
            assert(num * one() == wide * (y * z)) by (nonlinear_arith)
                requires
                    num == a * x,
                    x * one() == 0x1_0000_0000_0000_0000 * (y * z),
                    wide == a * 0x1_0000_0000_0000_0000,
            ;
            assert(y * z > 0) by (nonlinear_arith)
                requires
                    x * one() == 0x1_0000_0000_0000_0000 * (y * z),
                    x > 0,
                    one() > 0,
            ;
            assert(floor * (den * z) == (floor * b) * (y * z)) by (nonlinear_arith)
                requires
                    den == b * y,
            ;
            assert((floor + 1) * (den * z) == (floor * b + b) * (y * z)) by (nonlinear_arith)
                requires
                    den == b * y,
            ;
            let unit = y * z;
            let low = floor * b;
            assert(low == b * floor) by (nonlinear_arith)
                requires
                    low == floor * b,
            ;
            assert(low * unit <= wide * unit) by (nonlinear_arith)
                requires
                    low <= wide,
            ;
            assert(wide * unit < (low + b) * unit) by (nonlinear_arith)
                requires
                    wide < low + b,
                    unit > 0,
            ;
            assert(low * unit == wide * unit ==> low == wide) by (nonlinear_arith)
                requires
                    unit > 0,
            ;
            assert(floor >= MANTISSA_BOUND) by (nonlinear_arith)
                requires
                    wide < low + b,
                    low == floor * b,
                    b <= MANTISSA_BOUND,
                    b > 0,
                    wide >= 0x10_0000_0000_0000 * 0x1_0000_0000_0000_0000,
            ;
        }
        round(floor, exponent, wide % b != 0, Ghost(num), Ghost(den))
    }

    /// `self + other`.
    pub fn plus(self, other: Binary64) -> (r: Binary64)
        requires
            self.wf(),
            other.wf(),
            self.exponent <= 2500,
            other.exponent <= 2500,
        ensures
            r.wf(),
            r.units() == float_add(self.units(), other.units()),
            r.mantissa == 0 <==> self.mantissa == 0 && other.mantissa == 0,
            r.exponent <= self.exponent + 76 || r.exponent <= other.exponent + 76,
            self.mantissa > 0 && other.mantissa > 0 ==> r.exponent + 65 > self.exponent
                || r.exponent + 65 > other.exponent,
            self.mantissa > 0 && other.mantissa == 0 ==> r.exponent + 65 > self.exponent,
            self.mantissa == 0 && other.mantissa > 0 ==> r.exponent + 65 > other.exponent,
    {
        if self.exponent >= other.exponent {
            Self::plus_aligned(self, other)
        } else {
            Self::plus_aligned(other, self)
        }
    }

    /// The sum of two doubles, the one with the larger exponent first.
    fn plus_aligned(high: Binary64, low: Binary64) -> (r: Binary64)
        requires
            high.wf(),
            low.wf(),
            low.exponent <= high.exponent <= 2500,
        ensures
            r.wf(),
            r.units() == float_add(high.units(), low.units()),
            r.mantissa == 0 <==> high.mantissa == 0 && low.mantissa == 0,
            r.exponent <= high.exponent + 76,
            high.mantissa > 0 && low.mantissa > 0 ==> r.exponent + 65 > low.exponent,
            high.mantissa > 0 && low.mantissa == 0 ==> r.exponent + 65 > high.exponent,
            high.mantissa == 0 && low.mantissa > 0 ==> r.exponent + 65 > low.exponent,
    {
        let (a, b): (u128, u128) = (high.mantissa as u128, low.mantissa as u128);
        let apart: u32 = high.exponent - low.exponent;
        let ghost num = high.units() + low.units();
        proof {
            lemma_pow2_pos(1074);
        }
        if apart <= 64 {
            proof {
                lemma_aligned_bound(a, apart as nat);
                lemma_pow2_adds(apart as nat, low.exponent as nat);
            }
            let sum: u128 = shift_left(a, apart) + b;
            proof {
                let (x, y) = (pow2(apart as nat), pow2(low.exponent as nat));
                assert(sum * y == num) by (nonlinear_arith)
                    requires
                        sum == a * x + b,
                        num == a * (x * y) + b * y,
                ;
                lemma_exact_step(num, sum as nat, low.exponent as nat);
                lemma_pow2_pos(apart as nat);
                assert(a * x == 0 <==> a == 0) by (nonlinear_arith)
                    requires
                        x > 0,
                ;
            }
            return round(sum, low.exponent, false, Ghost(num), Ghost(one()));
        }
        proof {
            lemma_aligned_bound(a, 64);
        }
        let (tail, lost): (u128, bool) = shift_right(b, apart - 64);
        let exponent: u32 = high.exponent - 64;
        let front: u128 = shift_left(a, 64);
        proof {
            lemma2_to64();
            let (x, y, z) = (
                pow2((apart - 64) as nat),
                pow2(low.exponent as nat),
                pow2(exponent as nat),
            );
            lemma_pow2_pos((apart - 64) as nat);
            lemma_pow2_pos(exponent as nat);
            lemma_pow2_pos(low.exponent as nat);
            lemma_pow2_adds(64, exponent as nat);
            lemma_pow2_adds((apart - 64) as nat, low.exponent as nat);
            assert(tail <= b) by (nonlinear_arith)
                requires
                    tail * x <= b,
                    x >= 1,
            ;
            let floor = front + tail;
            assert(floor * z == high.units() + (tail * x) * y) by (nonlinear_arith)
                requires
                    floor == a * 0x1_0000_0000_0000_0000 + tail,
                    high.units() == a * (0x1_0000_0000_0000_0000 * z),
                    z == x * y,
            ;
            assert((floor + 1) * z == high.units() + ((tail + 1) * x) * y) by (nonlinear_arith)
                requires
                    floor == a * 0x1_0000_0000_0000_0000 + tail,
                    high.units() == a * (0x1_0000_0000_0000_0000 * z),
                    z == x * y,
            ;
            let (lower, upper) = (tail * x, (tail + 1) * x);
            assert(lower * y <= b * y < upper * y && (lower * y == b * y ==> lower == b))
                by (nonlinear_arith)
                requires
                    lower <= b < upper,
                    y > 0,
            ;
            lemma_step_from_units(num, floor as nat, exponent as nat, lost);
        }
        round(front + tail, exponent, lost, Ghost(num), Ghost(one()))
    }

    /// `self * factor` rounded to an integer, a tie going to the even neighbour.
    pub fn scaled(self, factor: u64) -> (r: u128)
        requires
            self.wf(),
            self.exponent <= 2500,
            factor <= 1_000_000_000,
            self.units() < 0x1_0000_0000_0000_0000 * one(),
        ensures
            r == round_half_even(self.units() * factor as nat, one()),
            factor > 0 ==> r < 0x1_0000_0000_0000_0000 * factor,
    {
        let (m, f): (u128, u128) = (self.mantissa as u128, factor as u128);
        assert(m * f <= MANTISSA_BOUND * 1_000_000_000) by (nonlinear_arith)
            requires
                m <= MANTISSA_BOUND,
                f <= 1_000_000_000,
        ;
        let n: u128 = m * f;
        let ghost num = self.units() * factor as nat;
        let ghost p = pow2(self.exponent as nat);
        proof {
            lemma_pow2_pos(1074);
            assert(num == n * p) by (nonlinear_arith)
                requires
                    num == (m * p) * f,
                    n == m * f,
            ;
        }
        if self.exponent >= POINT {
            let count: u32 = self.exponent - POINT;
            proof {
                let x = pow2(count as nat);
                lemma_pow2_adds(count as nat, 1074);
                assert(m * x < 0x1_0000_0000_0000_0000) by (nonlinear_arith)
                    requires
                        m * (x * one()) < 0x1_0000_0000_0000_0000 * one(),
                ;
                assert(n * x == (m * x) * f && (m * x) * f <= 0xffff_ffff_ffff_ffff * f) by (nonlinear_arith)
                    requires
                        n == m * f,
                        0 <= m * x <= 0xffff_ffff_ffff_ffff,
                        0 <= f,
                ;
                let whole = (n * x) as nat;
                assert((2 * whole) * one() == 2 * num && (2 * whole + 1) * one() == 2 * num + one())
                    by (nonlinear_arith)
                    requires
                        whole == n * x,
                        num == n * (x * one()),
                ;
                lemma_round_from_half(num, one(), 2 * whole, false);
            }
            return shift_left(n, count);
        }
        let count: u32 = POINT - 1 - self.exponent;
        let (half, lost): (u128, bool) = shift_right(n, count);
        proof {
            lemma_half_steps(n as nat, self.exponent as nat, count as nat, half as nat, lost);
            lemma_round_from_half(num, one(), half as nat, lost);
            lemma_pow2_pos(count as nat);
            assert(half <= n) by (nonlinear_arith)
                requires
                    half * pow2(count as nat) <= n,
                    pow2(count as nat) >= 1,
            ;
            assert(n <= MANTISSA_BOUND * f) by (nonlinear_arith)
                requires
                    n == m * f,
                    m <= MANTISSA_BOUND,
            ;
        }
        if half % 2 == 1 && (lost || (half / 2) % 2 == 1) {
            half / 2 + 1
        } else {
            half / 2
        }
    }

    /// Whether the number is below `2^64`.
    pub fn is_below_two_to_64(self) -> (r: bool)
        requires
            self.wf(),
        ensures
            r == (self.units() < 0x1_0000_0000_0000_0000 * one()),
    {
        let n: u128 = self.mantissa as u128;
        proof {
            lemma_pow2_pos(1074);
            lemma2_to64();
        }
        if self.exponent < POINT {
            proof {
                lemma_pow2_monotone(self.exponent as nat, 1074);
                let p = pow2(self.exponent as nat);
                assert(n * p < 0x1_0000_0000_0000_0000 * one()) by (nonlinear_arith)
                    requires
                        n <= MANTISSA_BOUND,
                        p <= one(),
                        one() > 0,
                ;
            }
            return true;
        }
        let count: u32 = self.exponent - POINT;
        let ghost x = pow2(count as nat);
        proof {
            lemma_pow2_adds(count as nat, 1074);
            assert(n * (x * one()) < 0x1_0000_0000_0000_0000 * one() <==> n * x
                < 0x1_0000_0000_0000_0000) by (nonlinear_arith)
                requires
                    one() > 0,
            ;
        }
        if count >= 64 {
            proof {
                lemma_pow2_monotone(64, count as nat);
                assert(n * x >= 0x1_0000_0000_0000_0000) by (nonlinear_arith)
                    requires
                        n >= 1,
                        x >= 0x1_0000_0000_0000_0000,
                ;
            }
            return false;
        }
        proof {
            lemma_aligned_bound(n, count as nat);
        }
        shift_left(n, count) < 0x1_0000_0000_0000_0000
    }

    /// `self.round() as u64`: a tie goes up, and what is too large becomes the largest.
    pub fn rounded(self) -> (r: u64)
        requires
            self.wf(),
            self.exponent <= 2500,
        ensures
            r == rounded_to_u64(self.units()),
    {
        let n: u128 = self.mantissa as u128;
        let ghost num = self.units();
        let ghost p = pow2(self.exponent as nat);
        proof {
            lemma_pow2_pos(1074);
            lemma2_to64();
        }
        if self.exponent >= POINT {
            let count: u32 = self.exponent - POINT;
            let ghost x = pow2(count as nat);
            let ghost whole = (n * x) as nat;
            proof {
                lemma_pow2_adds(count as nat, 1074);
                assert((2 * num + one()) == (2 * one()) * whole + one()) by (nonlinear_arith)
                    requires
                        whole == n * x,
                        num == n * (x * one()),
                ;
                assert((whole + 1) * (2 * one()) == (2 * one()) * whole + 2 * one() && whole * (2 * one())
                    == (2 * one()) * whole) by (nonlinear_arith);
                lemma_floor(2 * num + one(), 2 * one(), whole);
            }
            if count >= 64 {
                proof {
                    lemma_pow2_monotone(64, count as nat);
                    assert(whole >= 0x1_0000_0000_0000_0000) by (nonlinear_arith)
                        requires
                            whole == n * x,
                            n >= 1,
                            x >= 0x1_0000_0000_0000_0000,
                    ;
                }
                return u64::MAX;
            }
            proof {
                lemma_aligned_bound(n, count as nat);
            }
            let value: u128 = shift_left(n, count);
            return if value >= u64::MAX as u128 { u64::MAX } else { value as u64 };
        }
        let count: u32 = POINT - 1 - self.exponent;
        let (half, lost): (u128, bool) = shift_right(n, count);
        proof {
            lemma_half_steps(n as nat, self.exponent as nat, count as nat, half as nat, lost);
            lemma_pow2_pos(count as nat);
            assert(half <= n) by (nonlinear_arith)
                requires
                    half * pow2(count as nat) <= n,
                    pow2(count as nat) >= 1,
            ;
            let up = (half + 1) / 2;
            let odd = (half + 1) % 2;
            assert(up * (2 * one()) == (half as nat) * one() + one() - odd * one()) by (nonlinear_arith)
                requires
                    2 * up == half + 1 - odd,
            ;
            assert((up + 1) * (2 * one()) == (half as nat + 1) * one() + 2 * one() - odd * one())
                by (nonlinear_arith)
                requires
                    2 * up == half + 1 - odd,
            ;
            assert(odd == 0 ==> odd * one() == 0);
            assert(odd == 1 ==> odd * one() == one()) by (nonlinear_arith);
            lemma_floor(2 * num + one(), 2 * one(), up as nat);
        }
        ((half + 1) / 2) as u64
    }
}

/// A double rounded to an integer, a tie going up, within the range of `u64`.
pub open spec fn rounded_to_u64(a: nat) -> nat {
    let value = (2 * a + one()) / (2 * one());
    if value <= u64::MAX {
        value
    } else {
        u64::MAX as nat
    }
}

proof fn lemma_aligned_bound(a: u128, count: nat)
    requires
        a <= MANTISSA_BOUND,
        count <= 64,
    ensures
        a * pow2(count) <= MANTISSA_BOUND * 0x1_0000_0000_0000_0000,
{
    lemma2_to64();
    lemma_pow2_monotone(count, 64);
    let p = pow2(count);
    assert(a * p <= MANTISSA_BOUND * 0x1_0000_0000_0000_0000) by (nonlinear_arith)
        requires
            a <= MANTISSA_BOUND,
            p <= 0x1_0000_0000_0000_0000,
    ;
}

/// A step found in units is a step of the quotient by one.
proof fn lemma_step_from_units(num: nat, floor: nat, exponent: nat, lost: bool)
    requires
        floor * pow2(exponent) <= num < (floor + 1) * pow2(exponent),
        lost <==> floor * pow2(exponent) != num,
    ensures
        in_step(num, one(), floor, exponent, lost),
{
    lemma_pow2_pos(1074);
    let p = pow2(exponent);
    assert(floor * (one() * p) == (floor * p) * one()) by (nonlinear_arith);
    assert((floor + 1) * (one() * p) == ((floor + 1) * p) * one()) by (nonlinear_arith);
    let (low, high) = (floor * p, (floor + 1) * p);
    assert(low * one() <= num * one() < high * one() && (low * one() == num * one() ==> low == num))
        by (nonlinear_arith)
        requires
            low <= num < high,
            one() > 0,
    ;
}

proof fn lemma_exact_step(num: nat, floor: nat, exponent: nat)
    requires
        floor * pow2(exponent) == num,
    ensures
        in_step(num, one(), floor, exponent, false),
{
    lemma_pow2_pos(exponent);
    assert((floor + 1) * pow2(exponent) == num + pow2(exponent)) by (nonlinear_arith)
        requires
            floor * pow2(exponent) == num,
    ;
    lemma_step_from_units(num, floor, exponent, false);
}

/// Half a unit more than the whole bits of a fraction below the point.
proof fn lemma_half_steps(n: nat, exponent: nat, count: nat, half: nat, lost: bool)
    requires
        exponent + count + 1 == 1074,
        half * pow2(count) <= n < (half + 1) * pow2(count),
        lost <==> half * pow2(count) != n,
    ensures
        half * one() <= 2 * (n * pow2(exponent)) < (half + 1) * one(),
        lost <==> half * one() != 2 * (n * pow2(exponent)),
{
    let (x, y) = (pow2(count), pow2(exponent));
    lemma_pow2_adds(count, exponent);
    lemma_pow2_unfold(1074);
    lemma_pow2_pos(exponent);
    assert(half * one() == 2 * ((half * x) * y)) by (nonlinear_arith)
        requires
            one() == 2 * (x * y),
    ;
    assert((half + 1) * one() == 2 * (((half + 1) * x) * y)) by (nonlinear_arith)
        requires
            one() == 2 * (x * y),
    ;
    let (low, high) = (half * x, (half + 1) * x);
    assert(low * y <= n * y < high * y && (low * y == n * y ==> low == n)) by (nonlinear_arith)
        requires
            low <= n < high,
            y > 0,
    ;
}

/// A double as its bit pattern.
#[derive(Clone, Copy, Debug, PartialEq, Eq, Structural)]
pub struct Double {
    pub bits: u64,
}

impl Double {
    /// The double is finite and above zero: its sign bit is clear, its other bits are not all
    /// zero, and its exponent bits are not all one.
    pub open spec fn is_positive(self) -> bool {
        0 < self.bits < 0x7ff0_0000_0000_0000
    }

    /// The number that a positive double stands for, in units.
    pub open spec fn units(self) -> nat {
        let exponent = self.bits as nat / 0x10_0000_0000_0000;
        let fraction = self.bits as nat % 0x10_0000_0000_0000;
        if exponent == 0 {
            fraction
        } else {
            (0x10_0000_0000_0000 + fraction) * pow2((exponent - 1) as nat)
        }
    }

    /// Whether the double is finite and above zero.
    pub fn is_positive_finite(self) -> (r: bool)
        ensures
            r == self.is_positive(),
    {
        0 < self.bits && self.bits < 0x7ff0_0000_0000_0000
    }

    /// The mantissa and exponent of a positive double.
    pub fn decode(self) -> (r: Binary64)
        requires
            self.is_positive(),
        ensures
            r.wf(),
            r.units() == self.units(),
            r.mantissa > 0,
            r.exponent <= 2045,
    {
        let exponent: u64 = self.bits / 0x10_0000_0000_0000;
        let fraction: u64 = self.bits % 0x10_0000_0000_0000;
        if exponent == 0 {
            proof {
                lemma2_to64();
            }
            Binary64 { mantissa: fraction, exponent: 0 }
        } else {
            Binary64 { mantissa: 0x10_0000_0000_0000 + fraction, exponent: (exponent - 1) as u32 }
        }
    }
}

/// Rounding to an integer gives one that is no further than a half away, and of two that are a half
/// away the even one.
pub proof fn law_rounding_is_to_the_nearest_even(num: nat, den: nat)
    requires
        den > 0,
    ensures
        ({
            let r = round_half_even(num, den);
            &&& 2 * (r * den) <= 2 * num + den
            &&& 2 * num <= 2 * (r * den) + den
            &&& 2 * (r * den) == 2 * num + den || 2 * num == 2 * (r * den) + den ==> r % 2 == 0
        }),
{
    lemma_fundamental_div_mod(num as int, den as int);
    let floor = num / den;
    assert(den * floor == floor * den) by (nonlinear_arith);
    assert((floor + 1) * den == floor * den + den) by (nonlinear_arith);
}

/// A double rounded to an integer is the one that is no further than a half away, the larger of two
/// that are, or the largest that there is.
pub proof fn law_rounding_to_u64_goes_up(a: nat)
    ensures
        ({
            let r = rounded_to_u64(a);
            &&& r <= 0xffff_ffff_ffff_ffff
            &&& 2 * (r * pow2(1074)) <= 2 * a + pow2(1074)
            &&& r < 0xffff_ffff_ffff_ffff ==> 2 * a + pow2(1074) < 2 * ((r + 1) * pow2(1074))
        }),
{
    lemma_pow2_pos(1074);
    let o = one() as int;
    let value = (2 * a + o) / (2 * o);
    let rest = (2 * a + o) % (2 * o);
    lemma_fundamental_div_mod(2 * a + o, 2 * o);
    let r = rounded_to_u64(a) as int;
    assert(2 * (value * o) <= 2 * a + o < 2 * ((value + 1) * o)) by (nonlinear_arith)
        requires
            2 * a + o == (2 * o) * value + rest,
            0 <= rest < 2 * o,
    ;
    assert(r * o <= value * o) by (nonlinear_arith)
        requires
            r <= value,
            o > 0,
    ;
}

/// The units of a double follow its bits: the bits of one are one, the next bits of the same exponent
/// are one step further, the same bits of the next exponent are twice as much, and below the normal
/// range the bits are the units.
pub proof fn law_units_follow_bits(double: Double)
    requires
        double.bits < 0x7ff0_0000_0000_0000,
    ensures
        (Double { bits: 0x3ff0_0000_0000_0000 }).units() == pow2(1074),
        double.bits < 0x10_0000_0000_0000 ==> double.units() == double.bits,
        double.bits == 0x10_0000_0000_0000 ==> double.units() == 0x10_0000_0000_0000,
        0x10_0000_0000_0000 <= double.bits < 0x7fe0_0000_0000_0000 ==> (Double {
            bits: (double.bits + 0x10_0000_0000_0000) as u64,
        }).units() == 2 * double.units(),
        double.bits % 0x10_0000_0000_0000 != 0x0f_ffff_ffff_ffff ==> 0x10_0000_0000_0000 * ((Double {
            bits: (double.bits + 1) as u64,
        }).units() - double.units()) == (Double {
            bits: (double.bits - double.bits % 0x10_0000_0000_0000) as u64,
        }).units() || double.bits < 0x10_0000_0000_0000,
{
    lemma2_to64();
    lemma_pow2_adds(32, 20);
    lemma_pow2_adds(52, 1022);
    let size = 0x10_0000_0000_0000int;
    let (e, f) = (double.bits as int / size, double.bits as int % size);
    assert((0x3ff0_0000_0000_0000int / size) == 1023 && (0x3ff0_0000_0000_0000int % size) == 0);
    if e > 0 {
        let p = pow2((e - 1) as nat) as int;
        lemma_pow2_unfold(e as nat);
        assert((double.bits + size) / size == e + 1 && (double.bits + size) % size == f);
        let m = size + f;
        assert(m * (2 * p) == 2 * (m * p)) by (nonlinear_arith);
        if f != size - 1 {
            assert((double.bits + 1) / size == e && (double.bits + 1) % size == f + 1);
            assert((double.bits - f) / size == e && (double.bits - f) % size == 0);
            assert((m + 1) * p - m * p == p) by (nonlinear_arith);
        }
    }
}

/// A double is finite and above zero exactly if its sign bit is clear, its exponent bits are not all
/// set, and it is not zero.
pub proof fn law_positive_by_bits(double: Double)
    ensures
        double.is_positive() <==> {
            &&& double.bits / 0x8000_0000_0000_0000 == 0
            &&& (double.bits / 0x10_0000_0000_0000) % 0x800 != 0x7ff
            &&& double.bits != 0
        },
{
}

/// The units of a mantissa and an exponent.
pub proof fn law_units_of_parts(number: Binary64)
    ensures
        number.units() == number.mantissa * pow2(number.exponent as nat),
        number.wf() <==> number.mantissa <= 0x20_0000_0000_0000 && (number.exponent == 0
            || number.mantissa >= 0x10_0000_0000_0000),
{
}


} // verus!
