//! A running sum in double precision of single precision numbers.
//!
//! The sum is kept as a sign, a significand and an exponent. Its value is an
//! integer count of the units of [`Float32`]: every term is a whole number of
//! them, so a double's finer grid never shows in a sum.
use crate::float32::{lemma_encoding, lemma_magnitude_order, Float32};
use crate::rounding::{
    excess_bits, half_even, law_rounding_is_close, lemma_excess_bits, lemma_excess_bits_bounds,
    lemma_quotient_below, lemma_round_quotient_at_most, lemma_round_quotient_common_factor,
    lemma_round_quotient_scale, lemma_significand_bounds, power_of_two, round_quotient,
    round_to_bits,
};
use vstd::arithmetic::div_mod::lemma_fundamental_div_mod_converse;
use vstd::arithmetic::power2::{
    lemma2_to64, lemma2_to64_rest, lemma_pow2_adds, lemma_pow2_pos, lemma_pow2_strictly_increases,
    lemma_pow2_unfold, pow2,
};
use vstd::prelude::*;

verus! {

/// The double nearest to the whole number `x`, ties to even.
pub open spec fn round_double(x: int) -> int {
    if x < 0 {
        -(round_quotient((-x) as nat, 1, 53) as int)
    } else {
        round_quotient(x as nat, 1, 53) as int
    }
}

/// The quotient of a whole number of single precision units and `d`, rounded to
/// double precision. It is counted in the smallest positive double, of which a
/// single precision unit holds `2^925`.
pub open spec fn double_quotient(n: nat, d: nat) -> nat {
    round_quotient(n * pow2(925), d, 53)
}

/// A tenth of a sum, divided in double precision and narrowed to single.
pub open spec fn tenth(sum: int) -> Float32 {
    let n: nat = if sum < 0 {
        (-sum) as nat
    } else {
        sum as nat
    };
    let m = Float32::nearest(double_quotient(n, 10), pow2(925));
    if sum < 0 {
        m.negated()
    } else {
        m
    }
}

/// A double precision sum of single precision terms.
#[derive(Clone, Copy, Debug)]
pub struct DoubleSum {
    negative: bool,
    significand: u64,
    exponent: u32,
}

/// A number of at most `p` significant bits needs no rounding.
pub proof fn lemma_round_exact(m: nat, e: nat, p: nat)
    requires
        p > 0,
        m <= pow2(p),
    ensures
        round_quotient(m * pow2(e), 1, p) == m * pow2(e),
{
    let v = m * pow2(e);
    let k = excess_bits(v, p);
    assert(v / 1 == v);
    lemma_pow2_pos(e);
    lemma_pow2_pos(k);
    lemma_excess_bits_bounds(v, p);
    lemma_pow2_adds(p, e);
    if m == pow2(p) {
        lemma_pow2_unfold(p + e + 1);
        lemma_pow2_pos(p + e);
        assert(p + (e + 1) == p + e + 1);
        assert((p + (e + 1) - 1) as nat == p + e);
        lemma_excess_bits(v, p, e + 1);
        let half = pow2((p - 1) as nat);
        lemma_pow2_unfold(p);
        lemma_pow2_unfold(e + 1);
        assert(v == half * pow2(e + 1)) by (nonlinear_arith)
            requires
                v == pow2(p) * pow2(e),
                pow2(p) == 2 * half,
                pow2(e + 1) == 2 * pow2(e),
        ;
        lemma_fundamental_div_mod_converse(v as int, pow2(k) as int, half as int, 0);
    } else {
        assert(v < pow2(p + e)) by (nonlinear_arith)
            requires
                v == m * pow2(e),
                m < pow2(p),
                pow2(e) > 0,
                pow2(p + e) == pow2(p) * pow2(e),
        ;
        if k > e {
            if p + k - 1 > p + e {
                lemma_pow2_strictly_increases(p + e, (p + k - 1) as nat);
            }
            assert(false);
        }
        lemma_pow2_adds(k, (e - k) as nat);
        let c = pow2((e - k) as nat);
        assert(v == (m * c) * pow2(k)) by (nonlinear_arith)
            requires
                v == m * pow2(e),
                pow2(e) == pow2(k) * c,
        ;
        lemma_fundamental_div_mod_converse(v as int, pow2(k) as int, (m * c) as int, 0);
    }
    assert(1 * pow2(k) == pow2(k));
}

/// Rounding a whole number times a power of two.
pub proof fn lemma_round_shifted(m: nat, e: nat)
    ensures
        round_quotient(m * pow2(e), 1, 53) == round_quotient(m, 1, 53) * pow2(e),
{
    if m <= pow2(53) {
        lemma_round_exact(m, e, 53);
        lemma_round_exact(m, 0, 53);
        lemma2_to64();
        assert(m * pow2(0) == m);
    } else {
        lemma_pow2_strictly_increases(52, 53);
        assert(m / 1 == m);
        lemma_round_quotient_scale(m, 1, 53, e);
    }
}

/// A term far below the last bit of a sum leaves it as it is.
proof fn lemma_round_absorbs(a: nat, e: nat, x: nat)
    requires
        pow2(52) <= a < pow2(53),
        e >= 2,
        a * pow2(e) - pow2((e - 2) as nat) < x < a * pow2(e) + pow2((e - 2) as nat),
    ensures
        round_quotient(x, 1, 53) == a * pow2(e),
{
    let s = pow2(e);
    let q = pow2((e - 2) as nat);
    let h = pow2((e - 1) as nat);
    lemma_pow2_pos((e - 2) as nat);
    lemma_pow2_unfold(e);
    lemma_pow2_unfold((e - 1) as nat);
    assert(s == 4 * q);
    assert(h == 2 * q);
    lemma_pow2_adds(52, e);
    lemma_pow2_adds(53, e);
    lemma_pow2_adds(51, e);
    lemma_pow2_unfold(52 + e);
    lemma_pow2_unfold(53 + e);
    lemma2_to64();
    assert(x / 1 == x);
    let v = a * s;
    assert(v >= pow2(52) * s) by (nonlinear_arith)
        requires
            v == a * s,
            a >= pow2(52),
    ;
    assert(v + s <= pow2(53) * s) by (nonlinear_arith)
        requires
            v == a * s,
            a + 1 <= pow2(53),
    ;
    if x >= pow2(52 + e) {
        assert((53 + e - 1) as nat == 52 + e);
        lemma_excess_bits(x, 53, e);
        if x >= v {
            lemma_fundamental_div_mod_converse(x as int, s as int, a as int, x - v);
        } else {
            assert((a - 1) * s == v - s) by (nonlinear_arith)
                requires
                    v == a * s,
            ;
            lemma_fundamental_div_mod_converse(x as int, s as int, a - 1, x - (v - s));
        }
        assert(1 * s == s);
        assert(half_even(x, s) == a);
    } else {
        assert(a == pow2(52)) by (nonlinear_arith)
            requires
                v == a * s,
                v < pow2(52) * s + s,
                a >= pow2(52),
        ;
        let k = (e - 1) as nat;
        assert(53 + k == 52 + e);
        assert((53 + k - 1) as nat == 51 + e);
        lemma_excess_bits(x, 53, k);
        assert(v == (2 * a) * h) by (nonlinear_arith)
            requires
                v == a * s,
                s == 2 * h,
        ;
        assert((2 * a - 1) * h == v - h) by (nonlinear_arith)
            requires
                v == (2 * a) * h,
        ;
        lemma_fundamental_div_mod_converse(x as int, h as int, 2 * a - 1, x - (v - h));
        assert(1 * h == h);
        assert(half_even(x, h) == 2 * a);
    }
}

impl DoubleSum {
    /// The sum, in units of [`Float32`].
    pub closed spec fn value(self) -> int {
        let m = self.significand as nat * pow2(self.exponent as nat);
        if self.negative {
            -(m as int)
        } else {
            m as int
        }
    }

    /// The power of two that the significand is scaled by.
    pub closed spec fn scale(self) -> nat {
        self.exponent as nat
    }

    /// The significand fills its 53 bits unless the sum is on the grid of the
    /// unit, and a zero sum has no sign.
    pub closed spec fn wf(self) -> bool {
        &&& self.significand < 0x20_0000_0000_0000
        &&& self.exponent > 0 ==> self.significand >= 0x10_0000_0000_0000
        &&& self.significand == 0 ==> !self.negative
    }

    /// The empty sum.
    pub fn zero() -> (r: DoubleSum)
        ensures
            r.wf(),
            r.value() == 0,
            r.scale() == 0,
    {
        proof {
            lemma2_to64();
        }
        DoubleSum { negative: false, significand: 0, exponent: 0 }
    }

    /// A finite single precision number as a sum of one term.
    pub fn single(x: Float32) -> (r: DoubleSum)
        requires
            x.finite(),
        ensures
            r.wf(),
            r.value() == x.value(),
            r.scale() < 256,
    {
        let (m, e): (u32, u32) = x.parts();
        let shift: u32 = if e < 29 {
            e
        } else {
            29
        };
        let factor: u128 = power_of_two(shift);
        proof {
            lemma2_to64();
            if shift < 29 {
                lemma_pow2_strictly_increases(shift as nat, 29);
            }
            assert(m * factor < 0x20_0000_0000_0000) by (nonlinear_arith)
                requires
                    m < 0x100_0000,
                    0 < factor <= 0x2000_0000,
            ;
            assert(x.magnitude() == m * pow2(e as nat));
            lemma_pow2_adds(shift as nat, (e - shift) as nat);
            assert((m * factor) * pow2((e - shift) as nat) == m * pow2(e as nat))
                by (nonlinear_arith)
                requires
                    pow2(e as nat) == factor * pow2((e - shift) as nat),
            ;
            if e > 29 {
                assert(m * factor >= 0x10_0000_0000_0000) by (nonlinear_arith)
                    requires
                        m >= 0x80_0000,
                        factor == 0x2000_0000,
                ;
            }
        }
        let significand: u64 = (m as u128 * factor) as u64;
        DoubleSum {
            negative: x.to_bits() >= 0x8000_0000 && significand != 0,
            significand,
            exponent: e - shift,
        }
    }
}

impl DoubleSum {
    /// The sum with the given sign, significand and exponent, brought into the
    /// form that [`DoubleSum::wf`] asks for.
    fn normalized(negative: bool, significand: u64, exponent: u32) -> (r: DoubleSum)
        requires
            significand <= 0x20_0000_0000_0000,
            exponent < u32::MAX,
        ensures
            r.wf(),
            r.value() == (if negative {
                -(significand * pow2(exponent as nat))
            } else {
                significand * pow2(exponent as nat)
            }),
            r.scale() <= exponent + 1,
    {
        proof {
            lemma2_to64();
        }
        if significand == 0 {
            return DoubleSum { negative: false, significand: 0, exponent: 0 };
        }
        let mut m: u64 = significand;
        let mut e: u32 = exponent;
        let ghost target = significand * pow2(exponent as nat);
        if m == 0x20_0000_0000_0000 {
            proof {
                lemma_pow2_unfold((e + 1) as nat);
            }
            m = 0x10_0000_0000_0000;
            e = e + 1;
        }
        while e > 0 && m < 0x10_0000_0000_0000
            invariant
                0 < m < 0x20_0000_0000_0000,
                m * pow2(e as nat) == target,
                e <= exponent + 1,
            decreases e,
        {
            proof {
                lemma_pow2_unfold(e as nat);
                assert((2 * m) * pow2((e - 1) as nat) == m * pow2(e as nat)) by (nonlinear_arith)
                    requires
                        pow2(e as nat) == 2 * pow2((e - 1) as nat),
                ;
            }
            m = m * 2;
            e = e - 1;
        }
        DoubleSum { negative, significand: m, exponent: e }
    }

    /// The rounded sum of two sums, the first of the larger exponent.
    fn sum(big: DoubleSum, small: DoubleSum) -> (r: DoubleSum)
        requires
            big.wf(),
            small.wf(),
            big.scale() >= small.scale(),
            big.scale() < 0x1000_0000,
        ensures
            r.wf(),
            r.value() == round_double(big.value() + small.value()),
            r.scale() <= big.scale() + 129,
    {
        let gap: u32 = big.exponent - small.exponent;
        let ghost a = big.significand as nat;
        proof {
            lemma2_to64();
            lemma2_to64_rest();
            lemma_pow2_pos(gap as nat);
        }
        if gap > 64 {
            proof {
                lemma_absorbed(big, small);
            }
            return big;
        }
        let factor: u128 = power_of_two(gap);
        let ghost e = small.exponent as nat;
        proof {
            if gap < 64 {
                lemma_pow2_strictly_increases(gap as nat, 64);
            }
            assert(a * factor <= 0x20_0000_0000_0000 * 0x1_0000_0000_0000_0000) by (nonlinear_arith)
                requires
                    a < 0x20_0000_0000_0000,
                    0 < factor <= 0x1_0000_0000_0000_0000,
            ;
            lemma_pow2_adds(gap as nat, e);
            assert(a * pow2(big.exponent as nat) == (a * factor) * pow2(e)) by (nonlinear_arith)
                requires
                    pow2(big.exponent as nat) == factor * pow2(e),
            ;
        }
        let left: u128 = big.significand as u128 * factor;
        let right: u128 = small.significand as u128;
        let (negative, magnitude): (bool, u128) = if big.negative == small.negative {
            (big.negative, left + right)
        } else if left >= right {
            (big.negative, left - right)
        } else {
            (small.negative, right - left)
        };
        let (m, k): (u128, u32) = round_to_bits(magnitude, 1, 53);
        proof {
            let total = big.value() + small.value();
            lemma_pow2_pos(e);
            assert((left + right) * pow2(e) == left * pow2(e) + right * pow2(e))
                by (nonlinear_arith);
            assert((left - right) * pow2(e) == left * pow2(e) - right * pow2(e))
                by (nonlinear_arith);
            assert((right - left) * pow2(e) == right * pow2(e) - left * pow2(e))
                by (nonlinear_arith);
            assert(total == if negative { -(magnitude * pow2(e)) } else { magnitude * pow2(e) });
            assert(magnitude > 0 ==> magnitude * pow2(e) > 0) by (nonlinear_arith)
                requires
                    pow2(e) > 0,
            ;
            lemma_round_shifted(magnitude as nat, e);
            lemma_pow2_adds(k as nat, e);
            assert((m * pow2(k as nat)) * pow2(e) == m * pow2((k + e) as nat)) by (nonlinear_arith)
                requires
                    pow2((k + e) as nat) == pow2(k as nat) * pow2(e),
            ;
            assert(round_quotient((magnitude * pow2(e)) as nat, 1, 53) == m * pow2((k + e) as nat));
            if magnitude == 0 {
                lemma_round_exact(0, e, 53);
            }
        }
        DoubleSum::normalized(negative, m as u64, k + small.exponent)
    }

    /// Adds a term, rounding to double precision.
    pub fn add(&mut self, x: Float32)
        requires
            old(self).wf(),
            old(self).scale() < 0x1000_0000,
            x.finite(),
        ensures
            final(self).wf(),
            final(self).value() == round_double(old(self).value() + x.value()),
            final(self).scale() <= old(self).scale() + 400,
    {
        let term: DoubleSum = DoubleSum::single(x);
        if self.exponent >= term.exponent {
            *self = DoubleSum::sum(*self, term);
        } else {
            *self = DoubleSum::sum(term, *self);
        }
    }
}

/// A sum of far smaller exponent leaves a sum as it is.
proof fn lemma_absorbed(big: DoubleSum, small: DoubleSum)
    requires
        big.wf(),
        small.wf(),
        big.scale() > small.scale() + 64,
    ensures
        big.value() == round_double(big.value() + small.value()),
{
    lemma2_to64_rest();
    let a = big.significand as nat;
    let b = small.significand as nat;
    let e = big.exponent as nat;
    let s = small.exponent as nat;
    let q = pow2((e - 2) as nat);
    lemma_pow2_adds(53, s);
    lemma_pow2_pos(s);
    lemma_pow2_pos(e);
    lemma_pow2_strictly_increases(53 + s, (e - 2) as nat);
    assert(b * pow2(s) < q) by (nonlinear_arith)
        requires
            b < pow2(53),
            pow2(53) * pow2(s) < q,
            pow2(s) > 0,
    ;
    assert(a * pow2(e) >= q) by {
        lemma_pow2_strictly_increases((e - 2) as nat, e);
        assert(a * pow2(e) >= pow2(e)) by (nonlinear_arith)
            requires
                a >= 1,
                pow2(e) > 0,
        ;
    }
    let total = big.value() + small.value();
    let x: nat = if total < 0 {
        (-total) as nat
    } else {
        total as nat
    };
    assert(b * pow2(s) >= 0) by (nonlinear_arith)
        requires
            b >= 0,
            pow2(s) > 0,
    ;
    lemma_round_absorbs(a, e, x);
}

/// A tenth of `m * 2^e`, in terms of a significand that fits a machine integer.
proof fn lemma_tenth(m: nat, e: nat)
    requires
        m > 0,
    ensures
        (m * pow2(60)) / 10 >= pow2(52),
        double_quotient(m * pow2(e), 10) == round_quotient(m * pow2(60), 10, 53) * pow2(e + 865),
{
    lemma2_to64_rest();
    let n = m * pow2(60);
    assert(n >= pow2(60)) by (nonlinear_arith)
        requires
            n == m * pow2(60),
            m >= 1,
    ;
    lemma_round_quotient_scale(n, 10, 53, e + 865);
    lemma_pow2_adds(60, e + 865);
    lemma_pow2_adds(e, 925);
    assert((m * pow2(e)) * pow2(925) == (m * pow2(60)) * pow2(e + 865)) by (nonlinear_arith)
        requires
            pow2(e) * pow2(925) == pow2(60) * pow2(e + 865),
    ;
}

/// Narrowing `m * 2^t` units of `2^865` smallest doubles to single precision.
proof fn lemma_narrow(m: nat, t: nat)
    requires
        m >= pow2(52),
    ensures
        t >= 60 ==> round_quotient(m * pow2(t + 865), pow2(925), 24) == round_quotient(m, 1, 24)
            * pow2((t - 60) as nat),
        t < 60 ==> round_quotient(m * pow2(t + 865), pow2(925), 24) == round_quotient(
            m * pow2(t),
            pow2(60),
            24,
        ),
{
    lemma2_to64();
    lemma_pow2_pos(925);
    lemma_pow2_pos(865);
    lemma_pow2_pos(60);
    if t >= 60 {
        let j = (t - 60) as nat;
        lemma_pow2_adds(j, 925);
        assert(j + 925 == t + 865);
        assert(m * pow2(t + 865) == (m * pow2(j)) * pow2(925)) by (nonlinear_arith)
            requires
                pow2(t + 865) == pow2(j) * pow2(925),
        ;
        lemma_round_quotient_common_factor(m * pow2(j), 1, 24, pow2(925));
        assert(1 * pow2(925) == pow2(925));
        lemma_pow2_strictly_increases(23, 52);
        assert(m / 1 == m);
        lemma_round_quotient_scale(m, 1, 24, j);
    } else {
        lemma_pow2_adds(t, 865);
        lemma_pow2_adds(60, 865);
        assert(m * pow2(t + 865) == (m * pow2(t)) * pow2(865)) by (nonlinear_arith)
            requires
                pow2(t + 865) == pow2(t) * pow2(865),
        ;
        lemma_round_quotient_common_factor(m * pow2(t), pow2(60), 24, pow2(865));
    }
}

impl DoubleSum {
    /// A tenth of the sum: divided in double precision, narrowed to single.
    pub fn tenth(&self) -> (r: Float32)
        requires
            self.wf(),
            self.scale() < 0x1000_0000,
        ensures
            r == tenth(self.value()),
            !r.nan(),
    {
        let ghost sum = self.value();
        let ghost e = self.exponent as nat;
        let ghost n = self.significand as nat;
        proof {
            lemma2_to64();
            lemma2_to64_rest();
            lemma_pow2_pos(e);
        }
        if self.significand == 0 {
            proof {
                lemma_zero_tenth();
                assert(n * pow2(e) == 0) by (nonlinear_arith)
                    requires
                        n == 0,
                ;
            }
            return Float32::from_bits(0);
        }
        proof {
            assert(n * pow2(e) > 0) by (nonlinear_arith)
                requires
                    n > 0,
                    pow2(e) > 0,
            ;
            lemma_tenth(n, e);
            assert(n * 0x1000_0000_0000_0000 < 0x20_0000_0000_0000 * 0x1000_0000_0000_0000)
                by (nonlinear_arith)
                requires
                    n < 0x20_0000_0000_0000,
            ;
        }
        let (m, k): (u128, u32) = round_to_bits(
            self.significand as u128 * 0x1000_0000_0000_0000,
            10,
            53,
        );
        let t: u32 = k + self.exponent;
        proof {
            lemma_pow2_adds(k as nat, e + 865);
            assert((m * pow2(k as nat)) * pow2(e + 865) == m * pow2(t as nat + 865))
                by (nonlinear_arith)
                requires
                    pow2(t as nat + 865) == pow2(k as nat) * pow2(e + 865),
            ;
            lemma_narrow(m as nat, t as nat);
        }
        let magnitude: Float32 = if t >= 60 {
            let (digits, shift): (u128, u32) = round_to_bits(m, 1, 24);
            proof {
                lemma_pow2_strictly_increases(23, 52);
                lemma_pow2_adds(shift as nat, (t - 60) as nat);
                assert((digits * pow2(shift as nat)) * pow2((t - 60) as nat) == digits * pow2(
                    (shift + (t - 60)) as nat,
                )) by (nonlinear_arith)
                    requires
                        pow2((shift + (t - 60)) as nat) == pow2(shift as nat) * pow2(
                            (t - 60) as nat,
                        ),
                ;
            }
            Float32::encode(digits, shift + (t - 60))
        } else {
            let factor: u128 = power_of_two(t);
            proof {
                lemma_pow2_strictly_increases(t as nat, 60);
                assert(m * factor <= 0x20_0000_0000_0000 * 0x1000_0000_0000_0000)
                    by (nonlinear_arith)
                    requires
                        m <= 0x20_0000_0000_0000,
                        factor <= 0x1000_0000_0000_0000,
                ;
            }
            let (digits, shift): (u128, u32) = round_to_bits(m * factor, 0x1000_0000_0000_0000, 24);
            Float32::encode(digits, shift)
        };
        if self.negative {
            Float32::from_bits(magnitude.to_bits() + 0x8000_0000)
        } else {
            magnitude
        }
    }
}

/// A tenth of nothing is nothing.
proof fn lemma_zero_tenth()
    ensures
        tenth(0) == (Float32 { bits: 0 }),
{
    lemma_pow2_pos(925);
    lemma2_to64();
    lemma_fundamental_div_mod_converse(0, 10, 0, 0);
    assert(0 * pow2(925) == 0);
    assert(excess_bits(0, 53) == 0);
    assert(double_quotient(0, 10) == 0);
    lemma_fundamental_div_mod_converse(0, pow2(925) as int, 0, 0);
    assert(excess_bits(0, 24) == 0);
    assert(pow2(925) * pow2(0) == pow2(925));
    assert(round_quotient(0, pow2(925), 24) == 0);
}

/// The largest finite single precision number, in units.
pub open spec fn largest() -> nat {
    0xFF_FFFF * pow2(253)
}

/// No finite number is larger than the largest.
pub proof fn lemma_largest(x: Float32)
    requires
        x.finite(),
    ensures
        -(largest() as int) <= x.value() <= largest(),
        x.magnitude() <= largest(),
{
    let top = Float32 { bits: 0x7F7F_FFFF };
    assert(top.magnitude() == largest());
    lemma_magnitude_order(x, top);
}

/// A rounded sum of at most ten finite numbers is within ten times the largest.
pub proof fn lemma_sum_bounded(sum: int, x: Float32, count: nat)
    requires
        count < 10,
        x.finite(),
        -(count * largest()) <= sum <= count * largest(),
    ensures
        -((count + 1) * largest()) <= round_double(sum + x.value()) <= (count + 1) * largest(),
{
    lemma_largest(x);
    let total = sum + x.value();
    let n: nat = if total < 0 {
        (-total) as nat
    } else {
        total as nat
    };
    let b: nat = (count + 1) * 0xFF_FFFF;
    lemma2_to64_rest();
    assert((count + 1) * largest() == count * largest() + largest()) by (nonlinear_arith);
    assert((count + 1) * largest() == b * pow2(253)) by (nonlinear_arith)
        requires
            largest() == 0xFF_FFFF * pow2(253),
            b == (count + 1) * 0xFF_FFFF,
    ;
    assert(b <= pow2(53));
    assert(1 * (b * pow2(253)) == b * pow2(253));
    lemma_round_quotient_at_most(n, 1, 53, b, 253);
}

/// A tenth of such a sum is finite.
pub proof fn lemma_tenth_finite(sum: int)
    requires
        -(10 * largest()) <= sum <= 10 * largest(),
    ensures
        tenth(sum).finite(),
        !tenth(sum).nan(),
{
    let n: nat = if sum < 0 {
        (-sum) as nat
    } else {
        sum as nat
    };
    lemma2_to64();
    lemma2_to64_rest();
    lemma_pow2_pos(925);
    let b: nat = 0xFF_FFFF;
    lemma_pow2_adds(253, 925);
    assert(n * pow2(925) <= 10 * (b * pow2(1178))) by (nonlinear_arith)
        requires
            n <= 10 * (b * pow2(253)),
            pow2(1178) == pow2(253) * pow2(925),
    ;
    lemma_round_quotient_at_most(n * pow2(925), 10, 53, b, 1178);
    let q = double_quotient(n, 10);
    assert(q <= pow2(925) * (b * pow2(253))) by (nonlinear_arith)
        requires
            q <= b * pow2(1178),
            pow2(1178) == pow2(253) * pow2(925),
    ;
    lemma_round_quotient_at_most(q, pow2(925), 24, b, 253);
    let m = round_quotient(q, pow2(925), 24);
    assert(m < pow2(277)) by {
        lemma_pow2_adds(24, 253);
        lemma_pow2_pos(253);
    }
    let e = excess_bits(m, 24);
    lemma_excess_bits_bounds(m, 24);
    if e > 253 {
        if e > 254 {
            lemma_pow2_strictly_increases(277, (23 + e) as nat);
        }
    }
    lemma_pow2_adds(24, e);
    lemma_pow2_pos(e);
    lemma_quotient_below(m, pow2(e), 0x100_0000);
    let x = Float32::of_magnitude(m);
    assert(e * 0x80_0000 + m / pow2(e) < 0x7F80_0000);
    assert(x.bits < 0x7F80_0000);
}

/// A term is added to within one part in `2^53`, and exactly where the sum needs
/// no more than 53 bits.
pub proof fn law_sum_is_close(total: int)
    ensures
        ({
            let error = total - round_double(total);
            let size = if total < 0 {
                -total
            } else {
                total
            };
            &&& -size <= pow2(53) * error <= size
            &&& size <= pow2(53) ==> error == 0
        }),
{
    let n: nat = if total < 0 {
        (-total) as nat
    } else {
        total as nat
    };
    let r = round_quotient(n, 1, 53);
    law_rounding_is_close(n, 1, 53);
    assert(1 * r == r);
    lemma_pow2_pos(53);
    let e = n - r;
    assert(-e <= 0 || e != 0);
    if -1 <= 2 * e <= 1 {
        assert(e == 0);
        assert(pow2(53) * e == 0) by (nonlinear_arith)
            requires
                e == 0,
        ;
    }
    assert(pow2(53) * (-e) == -(pow2(53) * e)) by (nonlinear_arith);
    if n <= pow2(53) {
        lemma2_to64();
        lemma_round_exact(n, 0, 53);
        assert(n * pow2(0) == n);
    }
}

/// The mean of ten terms has the sign of their sum, and is a tenth of it to
/// within one part in `2^22`, save for a few of the smallest units.
pub proof fn law_tenth_is_close(sum: int)
    requires
        -(10 * largest()) <= sum <= 10 * largest(),
    ensures
        ({
            let mean = tenth(sum);
            let size = if sum < 0 {
                -sum
            } else {
                sum
            };
            &&& mean.finite()
            &&& sum >= 0 ==> mean.value() >= 0
            &&& sum <= 0 ==> mean.value() <= 0
            &&& -(size + 0x200_0000) <= 0x40_0000 * (10 * mean.value() - sum) <= size + 0x200_0000
        }),
{
    let n: nat = if sum < 0 {
        (-sum) as nat
    } else {
        sum as nat
    };
    lemma_tenth_finite(sum);
    lemma2_to64();
    lemma2_to64_rest();
    lemma_pow2_pos(925);
    let unit = pow2(925);
    let q = double_quotient(n, 10);
    let m = round_quotient(q, unit, 24);
    let r = Float32::of_magnitude(m);
    law_rounding_is_close(n * unit, 10, 53);
    law_rounding_is_close(q, unit, 24);
    lemma_nearest_is_exact(q, unit);
    assert(r.magnitude() == m);
    let big = n * unit;
    let w = unit * m;
    let e1 = big - 10 * q;
    let e2 = q - w;
    assert(big >= 0 && w >= 0);
    assert(unit >= 1);
    lemma_two_roundings(big, q, w, unit);
    let gap = 10 * m - n;
    assert(10 * w - big == unit * gap) by (nonlinear_arith)
        requires
            w == unit * m,
            big == n * unit,
            gap == 10 * m - n,
    ;
    assert(-(n + 0x200_0000) <= 0x40_0000 * gap <= n + 0x200_0000) by (nonlinear_arith)
        requires
            -(n * unit + 0x200_0000 * unit) <= 0x40_0000 * (unit * gap) <= n * unit + 0x200_0000
                * unit,
            unit >= 1,
    ;
    if sum < 0 {
        assert(r.bits < 0x8000_0000);
        lemma_magnitude_order(r, r.negated());
        assert(tenth(sum).magnitude() == m);
    }
}

/// The errors of a division in double precision and of the narrowing to single
/// add up to little.
proof fn lemma_two_roundings(big: nat, q: nat, w: nat, unit: nat)
    requires
        unit >= 1,
        -10 <= 2 * (big - 10 * q) <= 10 || -(big as int) <= 0x20_0000_0000_0000 * (big - 10 * q)
            <= big,
        -(unit as int) <= 2 * (q - w) <= unit || -(q as int) <= 0x100_0000 * (q - w) <= q,
    ensures
        -(big + 0x200_0000 * unit) <= 0x40_0000 * (10 * w - big) <= big + 0x200_0000 * unit,
{
}

/// Where the nearest number is finite, it has the rounded quotient as its
/// magnitude.
proof fn lemma_nearest_is_exact(n: nat, d: nat)
    requires
        d > 0,
        Float32::nearest(n, d).finite(),
    ensures
        Float32::nearest(n, d).magnitude() == round_quotient(n, d, 24),
        !Float32::nearest(n, d).negative(),
{
    let k = excess_bits(n / d, 24);
    let m = half_even(n, d * pow2(k));
    lemma2_to64();
    lemma_significand_bounds(n, d, 24);
    lemma_encoding(m, k);
}

} // verus!
