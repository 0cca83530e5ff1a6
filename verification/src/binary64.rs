//! IEEE 754 binary64 arithmetic on integers.
//!
//! Every finite binary64 number is a whole multiple of `2^-1074`, the smallest
//! positive one. The specifications below write such a number as that multiple,
//! its count of *quanta*; rounding, dividing, comparing and printing then become
//! statements about integers.

use vstd::arithmetic::div_mod::lemma_fundamental_div_mod;
use vstd::arithmetic::div_mod::lemma_fundamental_div_mod_converse;
use vstd::arithmetic::div_mod::lemma_mod_bound;
use vstd::arithmetic::power2::lemma_pow2_adds;
use vstd::arithmetic::power2::lemma_pow2_pos;
use vstd::arithmetic::power2::lemma_pow2_strictly_increases;
use vstd::arithmetic::power2::lemma_pow2_unfold;
use vstd::arithmetic::power2::lemma2_to64;
use vstd::arithmetic::power2::lemma2_to64_rest;
use vstd::arithmetic::power2::pow2;
use vstd::prelude::*;

verus! {

/// `2^52`, the least significand of a normal number.
pub const HIDDEN_BIT: u64 = 0x10_0000_0000_0000;

/// The quanta in the number one are `2^ONE_SHIFT`.
pub const ONE_SHIFT: u32 = 1074;

/// The integer nearest to `n / d`; of two equally near ones, the even one.
pub open spec fn round_half_even(n: nat, d: nat) -> nat {
    let q = n / d;
    let r = n % d;
    if 2 * r < d || (2 * r == d && q % 2 == 0) {
        q
    } else {
        q + 1
    }
}

/// Numbers around `n / d` quanta are spaced `2^s` quanta apart: `s` is the least
/// shift under which the significand stays below `2^53`.
pub open spec fn is_spacing(n: nat, d: nat, s: nat) -> bool {
    &&& n < d * pow2(53 + s)
    &&& s > 0 ==> d * pow2((52 + s) as nat) <= n
}

/// The binary64 number nearest to `n / d` quanta, ties to the even significand.
pub open spec fn nearest(n: nat, d: nat) -> nat {
    let s = choose|s: nat| is_spacing(n, d, s);
    round_half_even(n, d * pow2(s)) * pow2(s)
}

/// The conversion of the integer `n`.
pub open spec fn from_int(n: nat) -> nat {
    nearest(n * pow2(ONE_SHIFT as nat), 1)
}

/// The quotient of two numbers, rounded.
pub open spec fn quotient(a: nat, b: nat) -> nat {
    nearest(a * pow2(ONE_SHIFT as nat), b)
}

/// The product of a number and one hundred, rounded.
pub open spec fn hundredfold(a: nat) -> nat {
    nearest(a * 100, 1)
}

/// The number `a`, multiplied by `scale` and rounded to an integer.
pub open spec fn scaled_to_int(a: nat, scale: nat) -> nat {
    round_half_even(a * scale, pow2(ONE_SHIFT as nat))
}

pub open spec fn magnitude(x: int) -> nat {
    if x < 0 {
        (-x) as nat
    } else {
        x as nat
    }
}

/// `value as f64 / total as f64 * 100.0` without its sign.
pub open spec fn percent_magnitude(value: int, total: int) -> nat {
    hundredfold(quotient(from_int(magnitude(value)), from_int(magnitude(total))))
}

/// `value as f64 / total as f64 * 100.0`, in quanta.
pub open spec fn percent(value: int, total: int) -> int {
    if (value < 0) != (total < 0) {
        -percent_magnitude(value, total)
    } else {
        percent_magnitude(value, total) as int
    }
}

/// A binary64 number as its bit pattern.
#[derive(Debug, Clone, Copy, PartialEq, Eq, Structural)]
pub struct Binary64 {
    pub bits: u64,
}

pub open spec fn exponent_field(bits: u64) -> nat {
    ((bits / HIDDEN_BIT) % 2048) as nat
}

pub open spec fn fraction_field(bits: u64) -> nat {
    (bits % HIDDEN_BIT) as nat
}

pub open spec fn sign_field(bits: u64) -> bool {
    bits >= 0x8000_0000_0000_0000
}

impl Binary64 {
    /// Neither infinite nor a NaN.
    pub open spec fn is_finite(self) -> bool {
        exponent_field(self.bits) != 2047
    }

    pub open spec fn is_nan(self) -> bool {
        exponent_field(self.bits) == 2047 && fraction_field(self.bits) != 0
    }

    /// The quanta of a finite number.
    pub open spec fn quanta(self) -> int {
        let exponent = exponent_field(self.bits);
        let fraction = fraction_field(self.bits);
        let size = if exponent == 0 {
            fraction
        } else {
            (HIDDEN_BIT as nat + fraction) * pow2((exponent - 1) as nat)
        };
        if sign_field(self.bits) {
            -size
        } else {
            size as int
        }
    }

    /// `x >= self` for a finite `x` of the given quanta.
    pub open spec fn is_at_most(self, x: int) -> bool {
        if self.is_finite() {
            x >= self.quanta()
        } else {
            !self.is_nan() && sign_field(self.bits)
        }
    }

    /// The number with the given bit pattern.
    pub fn from_bits(bits: u64) -> (r: Binary64)
        ensures
            r.bits == bits,
    {
        Binary64 { bits }
    }
}

/// A non-negative number `m * 2^s` quanta, normal unless zero.
struct Scaled {
    m: u64,
    s: u32,
}

impl Scaled {
    spec fn quanta(self) -> nat {
        self.m as nat * pow2(self.s as nat)
    }

    spec fn wf(self) -> bool {
        &&& self.m == 0 || HIDDEN_BIT <= self.m < 2 * HIDDEN_BIT
        &&& 900 <= self.s <= 1100
    }
}

proof fn lemma_pow2_52()
    ensures
        pow2(52) == HIDDEN_BIT,
        pow2(53) == 2 * HIDDEN_BIT,
{
    lemma2_to64();
    lemma2_to64_rest();
}

/// The spacing is unique: no one is below another.
proof fn lemma_spacing_least(n: nat, d: nat, s1: nat, s2: nat)
    requires
        is_spacing(n, d, s1),
        is_spacing(n, d, s2),
    ensures
        s1 >= s2,
{
    if s1 < s2 {
        let lo = pow2(53 + s1);
        let hi = pow2((52 + s2) as nat);
        if 53 + s1 < 52 + s2 {
            lemma_pow2_strictly_increases(53 + s1, (52 + s2) as nat);
        }
        assert(d * lo <= d * hi) by (nonlinear_arith)
            requires
                lo <= hi,
        ;
    }
}

proof fn lemma_nearest_at(n: nat, d: nat, s: nat)
    requires
        is_spacing(n, d, s),
    ensures
        nearest(n, d) == round_half_even(n, d * pow2(s)) * pow2(s),
{
    let c = choose|c: nat| is_spacing(n, d, c);
    lemma_spacing_least(n, d, s, c);
    lemma_spacing_least(n, d, c, s);
}

/// Equal fractions round alike.
proof fn lemma_round_same(a: nat, b: nat, c: nat, d: nat)
    requires
        b > 0,
        d > 0,
        a * d == c * b,
    ensures
        round_half_even(a, b) == round_half_even(c, d),
{
    let q = a / b;
    let r = a % b;
    lemma_fundamental_div_mod(a as int, b as int);
    let t = c - q * d;
    assert(t * b == r * d) by (nonlinear_arith)
        requires
            t == c - q * d,
            a == b * q + r,
            a * d == c * b,
    ;
    assert(0 <= t < d) by (nonlinear_arith)
        requires
            t * b == r * d,
            0 <= r < b,
            d > 0,
    ;
    assert(c == q * d + t);
    lemma_fundamental_div_mod_converse(c as int, d as int, q as int, t);
    assert(2 * r < b <==> 2 * t < d) by (nonlinear_arith)
        requires
            t * b == r * d,
            0 <= r < b,
            0 <= t < d,
            d > 0,
    ;
    assert(2 * r == b <==> 2 * t == d) by (nonlinear_arith)
        requires
            t * b == r * d,
            0 <= r < b,
            0 <= t < d,
            d > 0,
    ;
}

/// The nearest number depends on the fraction alone.
proof fn lemma_nearest_same(a: nat, b: nat, c: nat, d: nat, s: nat)
    requires
        b > 0,
        d > 0,
        a * d == c * b,
        is_spacing(a, b, s),
    ensures
        nearest(a, b) == nearest(c, d),
{
    let p = pow2(s);
    let hi = pow2(53 + s);
    let lo = pow2((52 + s) as nat);
    lemma_pow2_pos(s);
    assert(c < d * hi) by (nonlinear_arith)
        requires
            a * d == c * b,
            a < b * hi,
            b > 0,
            d > 0,
    ;
    if s > 0 {
        assert(d * lo <= c) by (nonlinear_arith)
            requires
                a * d == c * b,
                b * lo <= a,
                b > 0,
                d > 0,
        ;
    }
    assert(is_spacing(c, d, s));
    lemma_nearest_at(a, b, s);
    lemma_nearest_at(c, d, s);
    assert(a * (d * p) == c * (b * p)) by (nonlinear_arith)
        requires
            a * d == c * b,
    ;
    assert(b * p > 0 && d * p > 0) by (nonlinear_arith)
        requires
            b > 0,
            d > 0,
            p > 0,
    ;
    lemma_round_same(a, b * p, c, d * p);
}

proof fn lemma_round_exact(k: nat, d: nat)
    requires
        d > 0,
    ensures
        round_half_even(k * d, d) == k,
{
    lemma_fundamental_div_mod_converse((k * d) as int, d as int, k as int, 0);
}

fn round_div(n: u128, d: u128) -> (r: u128)
    requires
        0 < d < 0x4000_0000_0000_0000_0000_0000_0000_0000,
        n < 0x8000_0000_0000_0000_0000_0000_0000_0000,
    ensures
        r == round_half_even(n as nat, d as nat),
{
    let q: u128 = n / d;
    let r: u128 = n % d;
    assert(q <= n) by (nonlinear_arith)
        requires
            q == n / d,
            d > 0,
    ;
    if 2 * r < d || (2 * r == d && q % 2 == 0) {
        q
    } else {
        q + 1
    }
}

/// Rounds `n / d * 2^t` quanta, where `n / d` has the size of a significand.
fn round_scaled(n: u128, d: u128, t: u32) -> (r: Scaled)
    requires
        0 < d < 0x4000_0000_0000_0000_0000_0000_0000_0000,
        n < 0x8000_0000_0000_0000_0000_0000_0000_0000,
        HIDDEN_BIT * d <= n < 2 * HIDDEN_BIT * d,
        900 <= t < 1100,
    ensures
        r.wf(),
        r.m != 0,
        t <= r.s <= t + 1,
        r.quanta() == nearest((n * pow2(t as nat)) as nat, d as nat),
        is_spacing((n * pow2(t as nat)) as nat, d as nat, t as nat),
{
    let m: u128 = round_div(n, d);
    proof {
        let p = pow2(t as nat);
        lemma_pow2_52();
        lemma_pow2_pos(t as nat);
        lemma_pow2_adds(53, t as nat);
        lemma_pow2_adds(52, t as nat);
        assert(n * p < d * (2 * HIDDEN_BIT * p)) by (nonlinear_arith)
            requires
                n < 2 * HIDDEN_BIT * d,
                p > 0,
        ;
        assert(d * (HIDDEN_BIT * p) <= n * p) by (nonlinear_arith)
            requires
                HIDDEN_BIT * d <= n,
                p > 0,
        ;
        assert(is_spacing((n * p) as nat, d as nat, t as nat));
        lemma_nearest_at((n * p) as nat, d as nat, t as nat);
        assert(n as nat * (d as nat * p) == (n * p) as nat * d as nat) by (nonlinear_arith);
        assert(d * p > 0) by (nonlinear_arith)
            requires
                d > 0,
                p > 0,
        ;
        lemma_round_same(n as nat, d as nat, (n * p) as nat, d as nat * p);
        lemma_fundamental_div_mod(n as int, d as int);
        let q = n as int / d as int;
        let r = n as int % d as int;
        assert(HIDDEN_BIT <= q < 2 * HIDDEN_BIT) by (nonlinear_arith)
            requires
                n == d * q + r,
                0 <= r < d,
                HIDDEN_BIT * d <= n < 2 * HIDDEN_BIT * d,
        ;
    }
    if m == 2 * HIDDEN_BIT as u128 {
        proof {
            lemma_pow2_adds(1, t as nat);
            lemma2_to64();
            assert(HIDDEN_BIT * (2 * pow2(t as nat)) == 2 * HIDDEN_BIT * pow2(t as nat))
                by (nonlinear_arith);
        }
        Scaled { m: HIDDEN_BIT, s: t + 1 }
    } else {
        Scaled { m: m as u64, s: t }
    }
}

/// `2^k`.
fn power_of_two(k: u32) -> (r: u128)
    requires
        k <= 120,
    ensures
        r == pow2(k as nat),
        0 < r < 0x4000_0000_0000_0000_0000_0000_0000_0000,
{
    proof {
        lemma2_to64();
        lemma2_to64_rest();
        lemma_pow2_adds(60, 60);
    }
    let mut r: u128 = 1;
    let mut i: u32 = 0;
    while i < k
        invariant
            i <= k <= 120,
            r == pow2(i as nat),
            0 < r,
            pow2(120) == 0x100_0000_0000_0000_0000_0000_0000_0000,
            pow2(1) == 2,
        decreases k - i,
    {
        proof {
            lemma_pow2_adds(1, i as nat);
            if i + 1 < 120 {
                lemma_pow2_strictly_increases((i + 1) as nat, 120);
            }
        }
        r = r * 2;
        i = i + 1;
    }
    proof {
        if k < 120 {
            lemma_pow2_strictly_increases(k as nat, 120);
        }
    }
    r
}

/// `n as f64`.
fn convert(n: u64) -> (r: Scaled)
    ensures
        r.wf(),
        r.quanta() == from_int(n as nat),
        r.m == 0 <==> n == 0,
        1022 <= r.s <= 1086,
{
    let ghost one = pow2(ONE_SHIFT as nat);
    proof {
        lemma_pow2_52();
        lemma_pow2_pos(ONE_SHIFT as nat);
    }
    if n == 0 {
        proof {
            assert(is_spacing(0, 1, 0));
            lemma_nearest_at(0, 1, 0);
            lemma_pow2_pos(0);
            lemma_round_exact(0, 1 * pow2(0));
            assert(0 * one == 0) by (nonlinear_arith);
        }
        return Scaled { m: 0, s: ONE_SHIFT };
    }
    if n < HIDDEN_BIT {
        let mut m: u64 = n;
        let mut k: u32 = 0;
        proof {
            lemma2_to64();
            assert(m * pow2(ONE_SHIFT as nat) == n * one);
        }
        while m < HIDDEN_BIT
            invariant
                0 < n < HIDDEN_BIT,
                n <= m < 2 * HIDDEN_BIT,
                k <= 52,
                k < 52 || m >= HIDDEN_BIT,
                m >= pow2(k as nat),
                pow2(52) == HIDDEN_BIT,
                m * pow2((ONE_SHIFT - k) as nat) == n * one,
            decreases 2 * HIDDEN_BIT - m,
        {
            proof {
                lemma_pow2_adds(1, k as nat);
                lemma_pow2_adds(1, (ONE_SHIFT - k - 1) as nat);
                lemma2_to64();
                let p = pow2((ONE_SHIFT - k - 1) as nat);
                assert((2 * m) * p == m * (2 * p)) by (nonlinear_arith);
            }
            m = m * 2;
            k = k + 1;
        }
        let r: Scaled = round_scaled(m as u128, 1, ONE_SHIFT - k);
        return r;
    }
    let mut k: u32 = 0;
    let mut d: u128 = 1;
    proof {
        lemma2_to64();
    }
    while n as u128 >= 0x20_0000_0000_0000 * d
        invariant
            k <= 11,
            d == pow2(k as nat),
            0 < d <= 2048,
            k == 11 ==> d == 2048,
            n >= 0x10_0000_0000_0000 * d,
        decreases 11 - k,
    {
        proof {
            lemma_pow2_adds(1, k as nat);
            lemma2_to64();
        }
        d = d * 2;
        k = k + 1;
    }
    assert(HIDDEN_BIT * d == 0x10_0000_0000_0000 * d) by (nonlinear_arith);
    assert(2 * HIDDEN_BIT * d == 0x20_0000_0000_0000 * d) by (nonlinear_arith);
    let r: Scaled = round_scaled(n as u128, d, ONE_SHIFT + k);
    proof {
        let t = (ONE_SHIFT + k) as nat;
        lemma_pow2_adds(k as nat, ONE_SHIFT as nat);
        assert((n * pow2(t)) as nat * 1 == (n * one) as nat * d as nat) by (nonlinear_arith)
            requires
                pow2(t) == d * one,
        ;
        lemma_nearest_same((n * pow2(t)) as nat, d as nat, (n * one) as nat, 1, t);
    }
    r
}

/// `a / b`.
fn divide(a: Scaled, b: Scaled) -> (r: Scaled)
    requires
        a.wf(),
        b.wf(),
        b.m != 0,
        1022 <= a.s <= 1086,
        1022 <= b.s <= 1086,
    ensures
        r.wf(),
        r.quanta() == quotient(a.quanta(), b.quanta()),
        957 <= r.s <= 1087,
        r.m == 0 <==> a.m == 0,
{
    let ghost one = pow2(ONE_SHIFT as nat);
    proof {
        lemma_pow2_52();
        lemma_pow2_pos(ONE_SHIFT as nat);
        lemma_pow2_pos(b.s as nat);
        lemma_pow2_pos(a.s as nat);
        let bp = pow2(b.s as nat);
        assert(b.quanta() > 0) by (nonlinear_arith)
            requires
                b.m > 0,
                bp > 0,
                b.quanta() == b.m * bp,
        ;
    }
    if a.m == 0 {
        proof {
            let d = b.quanta();
            let hi = pow2(53 + 0);
            assert(0 < d * hi) by (nonlinear_arith)
                requires
                    d > 0,
                    hi > 0,
            ;
            assert(0 * pow2(a.s as nat) == 0) by (nonlinear_arith);
            assert(0 * one == 0) by (nonlinear_arith);
            assert(0 * pow2(ONE_SHIFT as nat) == 0) by (nonlinear_arith);
            assert(is_spacing(0, d, 0));
            lemma_nearest_at(0, d, 0);
            lemma2_to64();
            lemma_round_exact(0, d * pow2(0));
        }
        return Scaled { m: 0, s: ONE_SHIFT };
    }
    let lift: u32 = if a.m >= b.m {
        52
    } else {
        53
    };
    let n: u128 = if a.m >= b.m {
        a.m as u128 * 0x10_0000_0000_0000
    } else {
        a.m as u128 * 0x20_0000_0000_0000
    };
    let t: u32 = ONE_SHIFT + a.s - b.s - lift;
    proof {
        assert(n == a.m * pow2(lift as nat)) by (nonlinear_arith)
            requires
                n == a.m * 0x10_0000_0000_0000 && pow2(lift as nat) == HIDDEN_BIT || n == a.m
                    * 0x20_0000_0000_0000 && pow2(lift as nat) == 2 * HIDDEN_BIT,
        ;
        if a.m >= b.m {
            assert(HIDDEN_BIT * b.m <= n < 2 * HIDDEN_BIT * b.m) by (nonlinear_arith)
                requires
                    n == a.m * 0x10_0000_0000_0000,
                    b.m <= a.m < 2 * HIDDEN_BIT,
                    b.m >= HIDDEN_BIT,
            ;
        } else {
            assert(HIDDEN_BIT * b.m <= n < 2 * HIDDEN_BIT * b.m) by (nonlinear_arith)
                requires
                    n == a.m * 0x20_0000_0000_0000,
                    HIDDEN_BIT <= a.m < b.m,
                    b.m < 2 * HIDDEN_BIT,
            ;
        }
    }
    let r: Scaled = round_scaled(n, b.m as u128, t);
    proof {
        let pt = pow2(t as nat);
        let pl = pow2(lift as nat);
        let pa = pow2(a.s as nat);
        let pb = pow2(b.s as nat);
        lemma_pow2_adds(lift as nat, t as nat);
        lemma_pow2_adds((lift + t) as nat, b.s as nat);
        lemma_pow2_adds(ONE_SHIFT as nat, a.s as nat);
        assert(pl * pt * pb == one * pa);
        assert((n * pt) * (b.m * pb) == ((a.m * pa) * one) * b.m) by (nonlinear_arith)
            requires
                n == a.m * pl,
                pl * pt * pb == one * pa,
        ;
        lemma_nearest_same((n * pt) as nat, b.m as nat, (a.quanta() * one) as nat, b.quanta(), t as nat);
    }
    r
}

/// `a * 100.0`.
fn times_hundred(a: Scaled) -> (r: Scaled)
    requires
        a.wf(),
        957 <= a.s <= 1087,
    ensures
        r.wf(),
        r.quanta() == hundredfold(a.quanta()),
        957 <= r.s <= 1095,
        r.m == 0 <==> a.m == 0,
{
    if a.m == 0 {
        proof {
            assert(0 * pow2(a.s as nat) == 0) by (nonlinear_arith);
            lemma_pow2_52();
            lemma2_to64();
            assert(is_spacing(0, 1, 0));
            lemma_nearest_at(0, 1, 0);
            lemma_round_exact(0, 1 * pow2(0));
        }
        return a;
    }
    let n: u128 = a.m as u128 * 100;
    let up: u32 = if n < 2 * HIDDEN_BIT as u128 * 64 {
        6
    } else {
        7
    };
    let d: u128 = if n < 2 * HIDDEN_BIT as u128 * 64 {
        64
    } else {
        128
    };
    let r: Scaled = round_scaled(n, d, a.s + up);
    proof {
        let pa = pow2(a.s as nat);
        let t = (a.s + up) as nat;
        lemma2_to64();
        lemma_pow2_adds(up as nat, a.s as nat);
        assert((n * pow2(t)) as nat * 1 == (a.quanta() * 100) * d as nat) by (nonlinear_arith)
            requires
                n == a.m * 100,
                pow2(t) == d * pa,
                a.quanta() == a.m * pa,
        ;
        lemma_nearest_same((n * pow2(t)) as nat, d as nat, a.quanta() * 100, 1, t);
    }
    r
}

/// `a`, times `scale`, to the nearest integer.
fn to_int(a: Scaled, scale: u64) -> (r: u128)
    requires
        a.wf(),
        957 <= a.s <= 1095,
        0 < scale <= 10,
    ensures
        r == scaled_to_int(a.quanta(), scale as nat),
{
    assert(a.m * scale <= 20 * HIDDEN_BIT) by (nonlinear_arith)
        requires
            a.m < 2 * HIDDEN_BIT,
            scale <= 10,
    ;
    let n: u128 = a.m as u128 * scale as u128;
    let ghost one = pow2(ONE_SHIFT as nat);
    let ghost pa = pow2(a.s as nat);
    proof {
        lemma_pow2_pos(ONE_SHIFT as nat);
    }
    if a.s >= ONE_SHIFT {
        let p: u128 = power_of_two(a.s - ONE_SHIFT);
        proof {
            lemma2_to64();
            if a.s - ONE_SHIFT < 21 {
                lemma_pow2_strictly_increases((a.s - ONE_SHIFT) as nat, 21);
            }
            assert(n * p <= 20 * HIDDEN_BIT * 0x20_0000) by (nonlinear_arith)
                requires
                    0 <= n <= 20 * HIDDEN_BIT,
                    0 < p <= 0x20_0000,
            ;
            lemma_pow2_adds((a.s - ONE_SHIFT) as nat, ONE_SHIFT as nat);
            assert(a.quanta() * scale == (n * p) * one) by (nonlinear_arith)
                requires
                    a.quanta() == a.m * pa,
                    pa == p * one,
                    n == a.m * scale,
            ;
            lemma_round_exact((n * p) as nat, one);
        }
        n * p
    } else {
        let d: u128 = power_of_two(ONE_SHIFT - a.s);
        proof {
            lemma_pow2_pos(a.s as nat);
            lemma_pow2_adds((ONE_SHIFT - a.s) as nat, a.s as nat);
            assert(n as nat * one == (a.quanta() * scale) * d as nat) by (nonlinear_arith)
                requires
                    a.quanta() == a.m * pa,
                    one == d * pa,
                    n == a.m * scale,
            ;
            lemma_round_same(n as nat, d as nat, a.quanta() * scale as nat, one);
        }
        round_div(n, d)
    }
}

/// The absolute value of `x`.
pub fn absolute(x: i64) -> (r: u64)
    ensures
        r == magnitude(x as int),
{
    if x >= 0 {
        x as u64
    } else if x == i64::MIN {
        0x8000_0000_0000_0000
    } else {
        (-x) as u64
    }
}

/// `n as f64 / d as f64`, times `scale`, to the nearest integer.
pub fn rounded_quotient(n: u64, d: u64, scale: u64) -> (r: u128)
    requires
        d != 0,
        0 < scale <= 10,
    ensures
        r == scaled_to_int(quotient(from_int(n as nat), from_int(d as nat)), scale as nat),
{
    to_int(divide(convert(n), convert(d)), scale)
}

fn percent_scaled(value: i64, total: i64) -> (r: Scaled)
    requires
        total != 0,
    ensures
        r.wf(),
        r.quanta() == percent_magnitude(value as int, total as int),
        957 <= r.s <= 1095,
{
    times_hundred(divide(convert(absolute(value)), convert(absolute(total))))
}

/// The tenths of a percent that `value` is of `total`, without the sign.
pub fn percent_tenths(value: i64, total: i64) -> (r: u128)
    requires
        total != 0,
    ensures
        r == scaled_to_int(percent_magnitude(value as int, total as int), 10),
{
    to_int(percent_scaled(value, total), 10)
}

/// `value as f64 / total as f64 * 100.0 >= threshold`.
pub fn percent_reaches(value: i64, total: i64, threshold: Binary64) -> (r: bool)
    requires
        total != 0,
    ensures
        r == threshold.is_at_most(percent(value as int, total as int)),
{
    let x: Scaled = percent_scaled(value, total);
    let negative: bool = (value < 0) != (total < 0);
    let bits: u64 = threshold.bits;
    let exponent: u64 = (bits / HIDDEN_BIT) % 2048;
    let fraction: u64 = bits % HIDDEN_BIT;
    let below: bool = bits >= 0x8000_0000_0000_0000;
    if exponent == 2047 {
        return fraction == 0 && below;
    }
    let m: u64 = if exponent == 0 {
        fraction
    } else {
        HIDDEN_BIT + fraction
    };
    let s: u32 = if exponent == 0 {
        0
    } else {
        (exponent - 1) as u32
    };
    let ghost size = m as nat * pow2(s as nat);
    proof {
        lemma2_to64();
        lemma_pow2_pos(s as nat);
        lemma_pow2_pos(x.s as nat);
        let px = pow2(x.s as nat);
        let ps = pow2(s as nat);
        assert(x.m == 0 <==> x.quanta() == 0) by (nonlinear_arith)
            requires
                x.quanta() == x.m * px,
                px > 0,
        ;
        assert(m == 0 <==> size == 0) by (nonlinear_arith)
            requires
                size == m * ps,
                ps > 0,
        ;
        lemma_order(x.m as nat, x.s as nat, m as nat, s as nat);
        assert(m * pow2(0) == m) by (nonlinear_arith)
            requires
                pow2(0) == 1,
        ;
        assert(threshold.quanta() == if below {
            -size
        } else {
            size as int
        });
    }
    let larger: bool = x.s > s || (x.s == s && x.m >= m);
    let smaller: bool = x.s < s || (x.s == s && x.m <= m);
    if m == 0 {
        !negative || x.m == 0
    } else if x.m == 0 {
        below
    } else if negative {
        below && smaller
    } else {
        below || larger
    }
}

/// Two numbers of full-size significands are ordered by their exponents first.
proof fn lemma_order(m1: nat, s1: nat, m2: nat, s2: nat)
    requires
        m1 == 0 || HIDDEN_BIT <= m1 < 2 * HIDDEN_BIT,
        0 < s1,
        m2 < 2 * HIDDEN_BIT,
        m2 < HIDDEN_BIT ==> s2 == 0,
    ensures
        m1 != 0 && m2 != 0 ==> {
            &&& m1 * pow2(s1) >= m2 * pow2(s2) <==> (s1 > s2 || (s1 == s2 && m1 >= m2))
            &&& m1 * pow2(s1) <= m2 * pow2(s2) <==> (s1 < s2 || (s1 == s2 && m1 <= m2))
        },
{
    let p1 = pow2(s1);
    let p2 = pow2(s2);
    lemma_pow2_pos(s1);
    lemma_pow2_pos(s2);
    lemma2_to64();
    if m1 != 0 && m2 != 0 {
        if s1 > s2 {
            lemma_pow2_adds((s1 - s2 - 1) as nat, s2 + 1);
            lemma_pow2_adds(1, s2);
            lemma_pow2_pos((s1 - s2 - 1) as nat);
            let k = pow2((s1 - s2 - 1) as nat);
            assert(m1 * p1 > m2 * p2) by (nonlinear_arith)
                requires
                    p1 == k * (2 * p2),
                    k >= 1,
                    p2 >= 1,
                    m1 >= HIDDEN_BIT,
                    m2 < 2 * HIDDEN_BIT,
            ;
        } else if s1 < s2 {
            lemma_pow2_adds((s2 - s1 - 1) as nat, s1 + 1);
            lemma_pow2_adds(1, s1);
            lemma_pow2_pos((s2 - s1 - 1) as nat);
            let k = pow2((s2 - s1 - 1) as nat);
            assert(m2 * p2 > m1 * p1) by (nonlinear_arith)
                requires
                    p2 == k * (2 * p1),
                    k >= 1,
                    p1 >= 1,
                    m2 >= HIDDEN_BIT,
                    m1 < 2 * HIDDEN_BIT,
            ;
        } else {
            assert(m1 * p1 >= m2 * p1 <==> m1 >= m2) by (nonlinear_arith)
                requires
                    p1 >= 1,
            ;
            assert(m1 * p1 <= m2 * p1 <==> m1 <= m2) by (nonlinear_arith)
                requires
                    p1 >= 1,
            ;
        }
    }
}

/// Every fraction has a spacing.
proof fn lemma_spacing_from(n: nat, d: nat, s: nat)
    requires
        d > 0,
        s > 0 ==> d * pow2((52 + s) as nat) <= n,
    ensures
        exists|t: nat| is_spacing(n, d, t),
    decreases n - s,
{
    if n < d * pow2(53 + s) {
        assert(is_spacing(n, d, s));
    } else {
        lemma_pow2_above(53 + s);
        assert(d * pow2(53 + s) > s) by (nonlinear_arith)
            requires
                d > 0,
                pow2(53 + s) > 53 + s,
        ;
        assert(52 + (s + 1) == 53 + s);
        lemma_spacing_from(n, d, s + 1);
    }
}

proof fn lemma_pow2_above(e: nat)
    ensures
        pow2(e) > e,
    decreases e,
{
    lemma_pow2_pos(e);
    if e > 0 {
        lemma_pow2_above((e - 1) as nat);
        lemma_pow2_unfold(e);
    }
}

/// Nothing but zero is rounded to zero where it is at least one quantum.
proof fn lemma_nearest_positive(n: nat)
    requires
        n > 0,
    ensures
        nearest(n, 1) > 0,
{
    lemma_spacing_from(n, 1, 0);
    let s = choose|s: nat| is_spacing(n, 1, s);
    lemma_nearest_at(n, 1, s);
    lemma_pow2_pos(s);
    let p = pow2(s);
    if s == 0 {
        lemma2_to64();
        lemma_round_exact(n, 1);
    } else {
        lemma_pow2_adds(52, s);
        lemma_pow2_pos(52);
        assert(n >= p) by (nonlinear_arith)
            requires
                n >= pow2(52) * p,
                pow2(52) >= 1,
        ;
        lemma_fundamental_div_mod(n as int, p as int);
        assert(n / p >= 1) by {
            if n / p < 1 {
                assert(p * (n / p) <= 0) by (nonlinear_arith)
                    requires
                        n / p < 1,
                        p > 0,
                ;
                lemma_mod_bound(n as int, p as int);
            }
        }
    }
    assert(nearest(n, 1) > 0) by (nonlinear_arith)
        requires
            nearest(n, 1) == round_half_even(n, 1 * p) * p,
            round_half_even(n, 1 * p) >= 1,
            p > 0,
    ;
}

/// A number with at most 53 significant bits is not rounded.
proof fn lemma_nearest_exact(m: nat, s: nat, d: nat)
    requires
        HIDDEN_BIT <= m < 2 * HIDDEN_BIT,
        d > 0,
    ensures
        nearest(m * pow2(s) * d, d) == m * pow2(s),
{
    let n = m * pow2(s) * d;
    let p = pow2(s);
    lemma_pow2_52();
    lemma_pow2_pos(s);
    lemma_pow2_adds(53, s);
    lemma_pow2_adds(52, s);
    assert(n < d * (pow2(53) * p)) by (nonlinear_arith)
        requires
            n == m * p * d,
            m < pow2(53),
            p > 0,
            d > 0,
    ;
    assert(d * (pow2(52) * p) <= n) by (nonlinear_arith)
        requires
            n == m * p * d,
            m >= pow2(52),
            p > 0,
            d > 0,
    ;
    assert(is_spacing(n, d, s));
    lemma_nearest_at(n, d, s);
    assert(n == m * (d * p)) by (nonlinear_arith)
        requires
            n == m * p * d,
    ;
    assert(d * p > 0) by (nonlinear_arith)
        requires
            d > 0,
            p > 0,
    ;
    lemma_round_exact(m, d * p);
}

/// A whole is one hundred percent of itself.
pub proof fn lemma_percent_whole(value: int)
    requires
        value != 0,
    ensures
        percent_magnitude(value, value) == 100 * pow2(ONE_SHIFT as nat),
        scaled_to_int(percent_magnitude(value, value), 10) == 1000,
{
    let one = pow2(ONE_SHIFT as nat);
    let n = magnitude(value);
    let a = from_int(n);
    lemma_pow2_52();
    lemma_pow2_pos(ONE_SHIFT as nat);
    assert(n * one > 0) by (nonlinear_arith)
        requires
            n > 0,
            one > 0,
    ;
    lemma_nearest_positive(n * one);
    lemma_pow2_adds(52, 1022);
    assert(one == HIDDEN_BIT * pow2(1022));
    lemma_nearest_exact(HIDDEN_BIT as nat, 1022, a);
    assert(a * one == one * a) by (nonlinear_arith);
    assert(quotient(a, a) == one);
    lemma2_to64();
    lemma_pow2_adds(46, 1028);
    let m: nat = 100 * pow2(46);
    assert(pow2(46) == 0x4000_0000_0000) by {
        lemma2_to64_rest();
    }
    assert(HIDDEN_BIT <= m < 2 * HIDDEN_BIT);
    assert(m * pow2(1028) == one * 100) by (nonlinear_arith)
        requires
            m == 100 * pow2(46),
            one == pow2(46) * pow2(1028),
    ;
    lemma_nearest_exact(m, 1028, 1);
    assert(m * pow2(1028) * 1 == one * 100);
    assert(hundredfold(one) == one * 100);
    assert(one * 100 * 10 == 1000 * one);
    lemma_round_exact(1000, one);
}

/// The rounded integer is at most half away.
proof fn lemma_round_half(n: nat, d: nat)
    requires
        d > 0,
    ensures
        2 * (round_half_even(n, d) * d) <= 2 * n + d,
        2 * n <= 2 * (round_half_even(n, d) * d) + d,
{
    let q = n / d;
    lemma_fundamental_div_mod(n as int, d as int);
    lemma_mod_bound(n as int, d as int);
    assert((q + 1) * d == q * d + d) by (nonlinear_arith);
    assert(d * q == q * d) by (nonlinear_arith);
}

/// A number is rounded by at most half the distance between its neighbours.
pub proof fn lemma_nearest_half(n: nat, d: nat, s: nat)
    requires
        d > 0,
        is_spacing(n, d, s),
    ensures
        2 * (nearest(n, d) * d) <= 2 * n + d * pow2(s),
        2 * n <= 2 * (nearest(n, d) * d) + d * pow2(s),
{
    let p = pow2(s);
    lemma_pow2_pos(s);
    lemma_nearest_at(n, d, s);
    assert(d * p > 0) by (nonlinear_arith)
        requires
            d > 0,
            p > 0,
    ;
    lemma_round_half(n, d * p);
    let k = round_half_even(n, d * p);
    assert(k * p * d == k * (d * p)) by (nonlinear_arith);
}

/// Integers of at most 53 bits are converted exactly.
pub proof fn lemma_from_int_exact(n: nat)
    requires
        n < 2 * HIDDEN_BIT,
    ensures
        from_int(n) == n * pow2(ONE_SHIFT as nat),
{
    let one = pow2(ONE_SHIFT as nat);
    let x = n * one;
    lemma_pow2_pos(ONE_SHIFT as nat);
    lemma_spacing_from(x, 1, 0);
    let s = choose|s: nat| is_spacing(x, 1, s);
    lemma_nearest_at(x, 1, s);
    lemma_pow2_pos(s);
    if s <= ONE_SHIFT {
        let rest = (ONE_SHIFT - s) as nat;
        lemma_pow2_adds(s, rest);
        let k = n * pow2(rest);
        assert(x == k * (1 * pow2(s))) by (nonlinear_arith)
            requires
                x == n * one,
                one == pow2(s) * pow2(rest),
                k == n * pow2(rest),
        ;
        lemma_round_exact(k, 1 * pow2(s));
    } else {
        lemma_pow2_52();
        lemma_pow2_adds(52, s);
        lemma_pow2_adds(53, ONE_SHIFT as nat);
        if 53 + ONE_SHIFT < 52 + s {
            lemma_pow2_strictly_increases((53 + ONE_SHIFT) as nat, (52 + s) as nat);
        }
        assert(x < pow2((53 + ONE_SHIFT) as nat)) by (nonlinear_arith)
            requires
                x == n * one,
                n < 2 * HIDDEN_BIT,
                one > 0,
                pow2((53 + ONE_SHIFT) as nat) == pow2(53) * one,
                pow2(53) == 2 * HIDDEN_BIT,
        ;
    }
}

/// The bits of `5.0`.
pub const FIVE_BITS: u64 = 0x4014_0000_0000_0000;

/// The bits of `15.0`.
pub const FIFTEEN_BITS: u64 = 0x402E_0000_0000_0000;

/// The bits of `30.0`.
pub const THIRTY_BITS: u64 = 0x403E_0000_0000_0000;

/// `value as f64 / total as f64 * 100.0` is at least the whole number `n`.
pub open spec fn percent_from(value: int, total: int, n: nat) -> bool {
    percent(value, total) >= n * pow2(ONE_SHIFT as nat)
}

/// What the bits of some whole numbers stand for.
pub proof fn lemma_whole_bits()
    ensures
        forall|x: int| (Binary64 { bits: FIVE_BITS }).is_at_most(x) <==> x >= 5 * pow2(
            ONE_SHIFT as nat,
        ),
        forall|x: int| (Binary64 { bits: FIFTEEN_BITS }).is_at_most(x) <==> x >= 15 * pow2(
            ONE_SHIFT as nat,
        ),
        forall|x: int| (Binary64 { bits: THIRTY_BITS }).is_at_most(x) <==> x >= 30 * pow2(
            ONE_SHIFT as nat,
        ),
{
    lemma2_to64();
    lemma2_to64_rest();
    lemma_pow2_adds(50, 1024);
    lemma_pow2_adds(49, 1025);
    lemma_pow2_adds(48, 1026);
    let one = pow2(ONE_SHIFT as nat);
    assert((HIDDEN_BIT + 0x4_0000_0000_0000) * pow2(1024) == 5 * one) by (nonlinear_arith)
        requires
            HIDDEN_BIT == 0x10_0000_0000_0000,
            one == pow2(50) * pow2(1024),
            pow2(50) == 0x4_0000_0000_0000,
    ;
    assert((HIDDEN_BIT + 0xE_0000_0000_0000) * pow2(1025) == 15 * one) by (nonlinear_arith)
        requires
            HIDDEN_BIT == 0x10_0000_0000_0000,
            one == pow2(49) * pow2(1025),
            pow2(49) == 0x2_0000_0000_0000,
    ;
    assert((HIDDEN_BIT + 0xE_0000_0000_0000) * pow2(1026) == 30 * one) by (nonlinear_arith)
        requires
            HIDDEN_BIT == 0x10_0000_0000_0000,
            one == pow2(48) * pow2(1026),
            pow2(48) == 0x1_0000_0000_0000,
    ;
    assert(exponent_field(FIVE_BITS) == 1025 && fraction_field(FIVE_BITS) == 0x4_0000_0000_0000);
    assert(exponent_field(FIFTEEN_BITS) == 1026 && fraction_field(FIFTEEN_BITS)
        == 0xE_0000_0000_0000);
    assert(exponent_field(THIRTY_BITS) == 1027 && fraction_field(THIRTY_BITS)
        == 0xE_0000_0000_0000);
}

/// A number that is not too small is rounded by less than one part in `2^53`.
pub proof fn lemma_nearest_relative(n: nat, d: nat)
    requires
        d > 0,
        n >= d * pow2(53),
    ensures
        nearest(n, d) * d <= n ==> (n - nearest(n, d) * d) * pow2(53) <= n,
        nearest(n, d) * d >= n ==> (nearest(n, d) * d - n) * pow2(53) <= n,
{
    lemma_spacing_from(n, d, 0);
    let s = choose|s: nat| is_spacing(n, d, s);
    lemma_nearest_half(n, d, s);
    let p = pow2(s);
    let r = nearest(n, d) * d;
    if s == 0 {
        lemma2_to64();
    }
    assert(s > 0);
    lemma_pow2_adds(52, s);
    lemma_pow2_adds(1, 52);
    lemma2_to64();
    let big = pow2(52);
    assert(pow2(53) == 2 * big);
    assert(pow2((52 + s) as nat) == big * p);
    assert(d * (big * p) <= n);
    if r <= n {
        let e = (n - r) as nat;
        assert(e * (2 * big) <= n) by (nonlinear_arith)
            requires
                2 * e <= d * p,
                d * (big * p) <= n,
        ;
    }
    if r >= n {
        let e = (r - n) as nat;
        assert(e * (2 * big) <= n) by (nonlinear_arith)
            requires
                2 * e <= d * p,
                d * (big * p) <= n,
        ;
    }
}

/// Two errors of one part each add up to less than three.
proof fn lemma_two_errors(h: int, q: int, b: int, n: int, big: int)
    requires
        big >= 2,
        b > 0,
        n >= 0,
        q >= 0,
        -n <= (q * b - n) * big <= n,
        -(100 * q) <= (h - 100 * q) * big <= 100 * q,
    ensures
        -(300 * n) <= (h * b - 100 * n) * big <= 300 * n,
{
    let e1 = q * b - n;
    let e2 = h - 100 * q;
    assert(e1 <= n) by (nonlinear_arith)
        requires
            e1 * big <= n,
            big >= 2,
            n >= 0,
    ;
    assert((h * b - 100 * n) * big == (e2 * big) * b + 100 * (e1 * big)) by (nonlinear_arith)
        requires
            e1 == q * b - n,
            e2 == h - 100 * q,
    ;
    let x = e2 * big;
    assert(-(100 * q) * b <= x * b <= (100 * q) * b) by (nonlinear_arith)
        requires
            -(100 * q) <= x <= 100 * q,
            b > 0,
    ;
    assert((100 * q) * b == 100 * (q * b)) by (nonlinear_arith);
    assert(-(100 * q) * b == -(100 * (q * b))) by (nonlinear_arith);
}

/// A factor that both sides have does not count.
pub(crate) proof fn lemma_cancel(x: int, y: int, one: int)
    requires
        one > 0,
        x * one <= y * one,
    ensures
        x <= y,
{
    if x > y {
        assert(x * one > y * one) by (nonlinear_arith)
            requires
                x > y,
                one > 0,
        ;
    }
}

/// A percentage is a hundred times the value by the total, but for two roundings: it is
/// off by at most three parts in `2^53`.
pub proof fn lemma_percent_close(value: nat, total: nat)
    requires
        0 < value < 2 * HIDDEN_BIT,
        0 < total < 2 * HIDDEN_BIT,
    ensures
        ({
            let exact = 100 * (value * pow2(1074));
            let off = percent(value as int, total as int) * total - exact;
            -(3 * exact) <= off * pow2(53) <= 3 * exact
        }),
{
    let one = pow2(1074) as int;
    let big = pow2(53) as int;
    lemma_pow2_pos(1074);
    lemma_pow2_52();
    lemma_from_int_exact(value);
    lemma_from_int_exact(total);
    let a = from_int(value);
    let b = from_int(total);
    let n = a * pow2(1074);
    let q = quotient(a, b);
    let h = hundredfold(q);
    lemma_pow2_adds(53, 53);
    lemma_pow2_adds(106, 968);
    lemma_pow2_pos(968);
    let rest = pow2(968) as int;
    assert(one == big * big * rest);
    assert(one >= big * big) by (nonlinear_arith)
        requires
            one == big * big * rest,
            rest >= 1,
            big >= 2,
    ;
    let v = value as int;
    let t = total as int;
    let bi = b as int;
    let ni = n as int;
    assert(bi == t * one && ni == v * one * one);
    assert(bi > 0) by (nonlinear_arith)
        requires
            bi == t * one,
            t > 0,
            one > 0,
    ;
    assert(bi * big <= ni) by (nonlinear_arith)
        requires
            bi == t * one,
            ni == v * one * one,
            v >= 1,
            0 < t <= big,
            one >= big * big,
            big >= 2,
    {
        assert(bi * big == t * big * one);
        assert(t * big <= big * big);
        assert(t * big * one <= one * one);
        assert(one * one <= v * one * one);
    }
    lemma_nearest_relative(n, b);
    let qi = q as int;
    assert(-ni <= (qi * bi - ni) * big <= ni) by (nonlinear_arith)
        requires
            qi * bi <= ni ==> (ni - qi * bi) * big <= ni,
            qi * bi >= ni ==> (qi * bi - ni) * big <= ni,
            big >= 2,
            ni >= 0,
    ;
    assert(2 * (qi * bi) >= ni) by (nonlinear_arith)
        requires
            -ni <= (qi * bi - ni) * big,
            big >= 2,
            ni >= 0,
    ;
    assert(qi >= 1) by (nonlinear_arith)
        requires
            2 * (qi * bi) >= ni,
            ni >= bi * big,
            bi > 0,
            big >= 2,
            qi >= 0,
    ;
    assert(100 * qi >= big) by (nonlinear_arith)
        requires
            2 * (qi * bi) >= ni,
            ni >= bi * big,
            bi > 0,
            big >= 2,
    ;
    lemma_nearest_relative(q * 100, 1);
    let hi = h as int;
    assert(-(100 * qi) <= (hi - 100 * qi) * big <= 100 * qi) by (nonlinear_arith)
        requires
            hi <= qi * 100 ==> (qi * 100 - hi) * big <= qi * 100,
            hi >= qi * 100 ==> (hi - qi * 100) * big <= qi * 100,
            big >= 2,
            qi >= 0,
    ;
    lemma_two_errors(hi, qi, bi, ni, big);
    let exact = 100 * (v * one);
    let off = hi * t - exact;
    assert((off * big) * one == (hi * bi - 100 * ni) * big) by (nonlinear_arith)
        requires
            bi == t * one,
            ni == v * one * one,
            off == hi * t - 100 * (v * one),
    ;
    assert((3 * exact) * one == 300 * ni) by (nonlinear_arith)
        requires
            ni == v * one * one,
            exact == 100 * (v * one),
    ;
    assert((-(3 * exact)) * one == -(300 * ni)) by (nonlinear_arith)
        requires
            (3 * exact) * one == 300 * ni,
    ;
    lemma_cancel(off * big, 3 * exact, one);
    lemma_cancel(-(3 * exact), off * big, one);
    assert(percent(v, t) == hi);
}

/// The sign of a percentage is that of the quotient; nothing else of it hangs on the signs.
pub proof fn lemma_percent_signs(value: int, total: int)
    requires
        total != 0,
    ensures
        value != 0 ==> percent(-value, total) == -percent(value, total),
        value != 0 ==> percent(value, -total) == -percent(value, total),
        value != 0 ==> percent(-value, -total) == percent(value, total),
        value > 0 && total > 0 ==> percent(value, total) >= 0,
{
}

/// Nothing is zero percent of anything.
pub proof fn lemma_percent_of_nothing(total: int)
    requires
        total != 0,
    ensures
        percent(0, total) == 0,
{
    lemma_pow2_52();
    lemma_from_int_exact(0);
    assert(from_int(0) == 0);
    let b = from_int(magnitude(total));
    lemma_pow2_pos(1074);
    let x = magnitude(total) * pow2(1074);
    assert(x > 0) by (nonlinear_arith)
        requires
            x == magnitude(total) * pow2(1074),
            magnitude(total) > 0,
            pow2(1074) > 0,
    ;
    lemma_nearest_positive(x);
    lemma_nearest_zero(b);
    assert(0 * pow2(1074) == 0) by (nonlinear_arith);
    lemma_nearest_zero(1);
}

proof fn lemma_nearest_zero(d: nat)
    requires
        d > 0,
    ensures
        nearest(0, d) == 0,
{
    lemma_pow2_pos(53);
    assert(0 < d * pow2(53)) by (nonlinear_arith)
        requires
            d > 0,
            pow2(53) > 0,
    ;
    assert(is_spacing(0, d, 0));
    lemma_nearest_at(0, d, 0);
    lemma2_to64();
    lemma_round_exact(0, d * pow2(0));
    assert(0 * (d * pow2(0)) == 0) by (nonlinear_arith);
}

/// A threshold that is reached is reached by all that is greater. What is no number is
/// never reached, nor is positive infinity; negative infinity always is.
pub proof fn lemma_thresholds(threshold: Binary64, x: int, y: int)
    ensures
        x <= y && threshold.is_at_most(x) ==> threshold.is_at_most(y),
        threshold.is_nan() ==> !threshold.is_at_most(x),
        threshold.bits == 0x7ff0_0000_0000_0000 ==> !threshold.is_at_most(x),
        threshold.bits == 0xfff0_0000_0000_0000 ==> threshold.is_at_most(x),
        threshold.is_finite() ==> threshold.is_at_most(threshold.quanta())
            && !threshold.is_at_most(threshold.quanta() - 1),
{
}

/// What the bits of a finite number stand for: doubling the exponent's step doubles the
/// number, the top bit is its sign, and the least bits count steps.
pub proof fn lemma_quanta(exponent: u64, fraction: u64)
    requires
        exponent < 2047,
        fraction < 0x10_0000_0000_0000,
    ensures
        ({
            let bits = (exponent * 0x10_0000_0000_0000 + fraction) as u64;
            let number = Binary64 { bits };
            &&& number.is_finite()
            &&& exponent == 0 ==> number.quanta() == fraction
            &&& exponent > 0 ==> number.quanta() == (0x10_0000_0000_0000 + fraction) * pow2(
                (exponent - 1) as nat,
            )
            &&& (Binary64 { bits: (bits + 0x8000_0000_0000_0000) as u64 }).quanta()
                == -number.quanta()
        }),
{
    let bits = (exponent * 0x10_0000_0000_0000 + fraction) as u64;
    assert(bits / 0x10_0000_0000_0000 == exponent && bits % 0x10_0000_0000_0000 == fraction);
    let other = (bits + 0x8000_0000_0000_0000) as u64;
    assert(other / 0x10_0000_0000_0000 == exponent + 2048);
    assert(other % 0x10_0000_0000_0000 == fraction);
}

/// What rounding to an integer leaves: at most a half.
pub proof fn lemma_rounded_half(n: nat, d: nat)
    requires
        d > 0,
    ensures
        -d <= 2 * (round_half_even(n, d) * d - n) <= d,
{
    lemma_round_half(n, d);
}

/// The rounded quotient of two integers, times the divisor, is the dividend but for one
/// part in `2^53`.
pub proof fn lemma_ratio_parts(n: nat, d: nat)
    requires
        0 < n < 2 * HIDDEN_BIT,
        0 < d < 2 * HIDDEN_BIT,
    ensures
        ({
            let one = pow2(1074) as int;
            let q = quotient(from_int(n), from_int(d)) as int;
            &&& one > 0
            &&& pow2(53) == 0x20_0000_0000_0000
            &&& -(n * one) <= (q * d - n * one) * pow2(53) <= n * one
        }),
{
    let one = pow2(1074) as int;
    let big = pow2(53) as int;
    lemma_pow2_pos(1074);
    lemma_pow2_52();
    lemma_from_int_exact(n);
    lemma_from_int_exact(d);
    let a = from_int(n);
    let b = from_int(d);
    let m = a * pow2(1074);
    let q = quotient(a, b) as int;
    lemma_pow2_adds(53, 53);
    lemma_pow2_adds(106, 968);
    lemma_pow2_pos(968);
    let rest = pow2(968) as int;
    assert(one >= big * big) by (nonlinear_arith)
        requires
            one == big * big * rest,
            rest >= 1,
            big >= 2,
    ;
    let v = n as int;
    let t = d as int;
    let bi = b as int;
    let mi = m as int;
    assert(bi > 0) by (nonlinear_arith)
        requires
            bi == t * one,
            t > 0,
            one > 0,
    ;
    assert(bi * big <= mi) by (nonlinear_arith)
        requires
            bi == t * one,
            mi == v * one * one,
            v >= 1,
            0 < t <= big,
            one >= big * big,
            big >= 2,
    {
        assert(bi * big == t * big * one);
        assert(t * big <= big * big);
        assert(t * big * one <= one * one);
        assert(one * one <= v * one * one);
    }
    lemma_nearest_relative(m, b);
    let e = (q * t - v * one) * big;
    assert(e * one == (q * bi - mi) * big) by (nonlinear_arith)
        requires
            e == (q * t - v * one) * big,
            bi == t * one,
            mi == v * one * one,
    ;
    assert(-mi <= (q * bi - mi) * big <= mi) by (nonlinear_arith)
        requires
            q * bi <= mi ==> (mi - q * bi) * big <= mi,
            q * bi >= mi ==> (q * bi - mi) * big <= mi,
            big >= 2,
            mi >= 0,
    ;
    assert((-(v * one)) * one == -mi) by (nonlinear_arith)
        requires
            mi == v * one * one,
    ;
    lemma_cancel(e, v * one, one);
    lemma_cancel(-(v * one), e, one);
}

/// What lies in the middle of two integers is rounded to the even one.
pub proof fn lemma_tie_to_even(n: nat, d: nat, k: nat)
    requires
        d > 0,
        2 * n == (2 * k + 1) * d,
    ensures
        round_half_even(n, d) % 2 == 0,
        round_half_even(n, d) == k || round_half_even(n, d) == k + 1,
{
    let r = n - k * d;
    assert(2 * r == d) by (nonlinear_arith)
        requires
            2 * n == (2 * k + 1) * d,
            r == n - k * d,
    ;
    vstd::arithmetic::div_mod::lemma_fundamental_div_mod_converse(
        n as int,
        d as int,
        k as int,
        r,
    );
}

/// What lies nearer to one of two integers is rounded to that one.
pub proof fn lemma_rounded_to_nearer(n: nat, d: nat, k: nat)
    requires
        d > 0,
    ensures
        k * d <= n && 2 * n < (2 * k + 1) * d ==> round_half_even(n, d) == k,
        (2 * k + 1) * d < 2 * n && n < (k + 1) * d ==> round_half_even(n, d) == k + 1,
{
    let r = n - k * d;
    if k * d <= n && n < (k + 1) * d {
        assert(r < d) by (nonlinear_arith)
            requires
                n < (k + 1) * d,
                r == n - k * d,
        ;
        vstd::arithmetic::div_mod::lemma_fundamental_div_mod_converse(
            n as int,
            d as int,
            k as int,
            r,
        );
    }
    if k * d <= n && 2 * n < (2 * k + 1) * d {
        assert(2 * r < d) by (nonlinear_arith)
            requires
                2 * n < (2 * k + 1) * d,
                r == n - k * d,
        ;
        assert(n < (k + 1) * d) by (nonlinear_arith)
            requires
                2 * r < d,
                r == n - k * d,
                d > 0,
        ;
    }
    if (2 * k + 1) * d < 2 * n && n < (k + 1) * d {
        assert(2 * r > d) by (nonlinear_arith)
            requires
                (2 * k + 1) * d < 2 * n,
                r == n - k * d,
        ;
    }
}

/// `x` is a number of 53 bits, but for a factor `2^s`, and no more than half of that factor
/// away from `n / d`.
pub open spec fn is_rounded(x: nat, n: nat, d: nat) -> bool {
    exists|s: nat, k: nat|
        #![trigger k * pow2(s)]
        {
            &&& x == k * pow2(s)
            &&& n < d * pow2(53 + s)
            &&& s > 0 ==> d * pow2((52 + s) as nat) <= n
            &&& 2 * (x * d) <= 2 * n + d * pow2(s)
            &&& 2 * n <= 2 * (x * d) + d * pow2(s)
        }
}

proof fn lemma_is_rounded(n: nat, d: nat)
    requires
        d > 0,
    ensures
        is_rounded(nearest(n, d), n, d),
{
    lemma_spacing_from(n, d, 0);
    let s = choose|s: nat| is_spacing(n, d, s);
    lemma_nearest_at(n, d, s);
    lemma_nearest_half(n, d, s);
    let k = round_half_even(n, d * pow2(s));
    assert(nearest(n, d) == k * pow2(s));
}

/// A percentage takes four roundings: of the value and of the total to numbers, of their
/// quotient, and of a hundred times that; in this order.
pub proof fn lemma_percent_roundings(value: nat, total: nat)
    requires
        total > 0,
    ensures
        exists|a: nat, b: nat, q: nat|
            {
                &&& #[trigger] is_rounded(a, value * pow2(1074), 1)
                &&& #[trigger] is_rounded(b, total * pow2(1074), 1)
                &&& #[trigger] is_rounded(q, a * pow2(1074), b)
                &&& is_rounded(percent(value as int, total as int) as nat, q * 100, 1)
                &&& percent(value as int, total as int) >= 0
            },
{
    let one = pow2(1074);
    lemma_pow2_pos(1074);
    assert(total * one > 0) by (nonlinear_arith)
        requires
            total > 0,
            one > 0,
    ;
    lemma_nearest_positive(total * one);
    let a = from_int(value);
    let b = from_int(total);
    let q = quotient(a, b);
    lemma_is_rounded(value * one, 1);
    lemma_is_rounded(total * one, 1);
    lemma_is_rounded(a * one, b);
    lemma_is_rounded(q * 100, 1);
    assert(is_rounded(a, value * pow2(1074), 1));
    assert(is_rounded(b, total * pow2(1074), 1));
    assert(is_rounded(q, a * pow2(1074), b));
}

} // verus!
