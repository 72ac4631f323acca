//! Single precision numbers as their IEEE 754 bit patterns.
//!
//! A log stores its measurements as 32-bit floating point numbers. This module
//! keeps them as bits and gives them their exact value: every finite number is
//! a whole multiple of the smallest positive one, so its value is an integer
//! count of such units. Comparisons and rounding are stated over those counts.
use crate::rounding::{excess_bits, lemma_excess_bits, round_quotient};
use vstd::arithmetic::div_mod::lemma_fundamental_div_mod_converse;
use vstd::arithmetic::power2::{
    lemma2_to64, lemma_pow2_adds, lemma_pow2_pos, lemma_pow2_strictly_increases,
    lemma_pow2_unfold, pow2,
};
use vstd::prelude::*;

verus! {

/// A single precision number. Equality of two values of this type is equality
/// of their bits; numeric comparisons are methods.
#[derive(Clone, Copy, Debug, PartialEq, Eq, Structural)]
pub struct Float32 {
    pub bits: u32,
}

/// The number one, in units of the smallest positive single precision number.
pub open spec fn one() -> nat {
    pow2(149)
}

impl Float32 {
    /// The sign bit.
    pub open spec fn negative(self) -> bool {
        self.bits >= 0x8000_0000
    }

    /// The eight exponent bits.
    pub open spec fn exponent(self) -> nat {
        ((self.bits / 0x80_0000) % 0x100) as nat
    }

    /// The 23 fraction bits.
    pub open spec fn fraction(self) -> nat {
        (self.bits % 0x80_0000) as nat
    }

    /// Not a number.
    pub open spec fn nan(self) -> bool {
        self.exponent() == 255 && self.fraction() != 0
    }

    /// Neither infinite nor not a number.
    pub open spec fn finite(self) -> bool {
        self.exponent() != 255
    }

    /// The absolute value in units. An infinity counts as the power of two just
    /// beyond the largest finite number, which orders it correctly.
    pub open spec fn magnitude(self) -> nat {
        if self.exponent() == 0 {
            self.fraction()
        } else {
            (0x80_0000 + self.fraction()) * pow2((self.exponent() - 1) as nat)
        }
    }

    /// The value in units.
    pub open spec fn value(self) -> int {
        if self.negative() {
            -(self.magnitude() as int)
        } else {
            self.magnitude() as int
        }
    }

    /// `self < other`, which is false of anything that is not a number.
    pub open spec fn lt(self, other: Float32) -> bool {
        !self.nan() && !other.nan() && self.value() < other.value()
    }

    /// `self > n` for a whole number `n`.
    pub open spec fn exceeds(self, n: nat) -> bool {
        !self.nan() && self.value() > n * one()
    }

    /// `self >= n` for a whole number `n`.
    pub open spec fn reaches(self, n: nat) -> bool {
        !self.nan() && self.value() >= n * one()
    }

    /// `self < n` for a whole number `n`.
    pub open spec fn below(self, n: nat) -> bool {
        !self.nan() && self.value() < n * one()
    }

    /// `self == 0`, which holds of both zeros.
    pub open spec fn zero(self) -> bool {
        self.magnitude() == 0
    }

    /// The non-negative number of the given magnitude: the least exponent that
    /// leaves 24 significant bits, with those bits behind it.
    pub open spec fn of_magnitude(m: nat) -> Float32 {
        let e = excess_bits(m, 24);
        let code = e * 0x80_0000 + m / pow2(e);
        Float32 {
            bits: if code < 0x7F80_0000 {
                code as u32
            } else {
                0x7F80_0000
            },
        }
    }

    /// The non-negative number nearest to `n / d` units, ties to even.
    pub open spec fn nearest(n: nat, d: nat) -> Float32 {
        Float32::of_magnitude(round_quotient(n, d, 24))
    }

    /// The same number with the sign bit set.
    pub open spec fn negated(self) -> Float32 {
        Float32 { bits: (self.bits % 0x8000_0000 + 0x8000_0000) as u32 }
    }

    /// The number with the given bits.
    pub fn from_bits(bits: u32) -> (r: Float32)
        ensures
            r.bits == bits,
    {
        Float32 { bits }
    }

    /// The bits of the number.
    pub fn to_bits(self) -> (bits: u32)
        ensures
            bits == self.bits,
    {
        self.bits
    }

    /// Whether the number is finite.
    pub fn is_finite(self) -> (r: bool)
        ensures
            r == self.finite(),
    {
        (self.bits / 0x80_0000) % 0x100 != 255
    }

    /// Whether this is not a number.
    pub fn is_nan(self) -> (r: bool)
        ensures
            r == self.nan(),
    {
        (self.bits / 0x80_0000) % 0x100 == 255 && self.bits % 0x80_0000 != 0
    }

    /// The significand and the exponent of the magnitude.
    pub fn parts(self) -> (r: (u32, u32))
        requires
            self.finite(),
        ensures
            self.magnitude() == r.0 as nat * pow2(r.1 as nat),
            r.0 < 0x100_0000,
            r.1 > 0 ==> r.0 >= 0x80_0000,
            r.1 == if self.exponent() == 0 {
                0
            } else {
                self.exponent() - 1
            },
    {
        let field: u32 = (self.bits / 0x80_0000) % 0x100;
        let fraction: u32 = self.bits % 0x80_0000;
        proof {
            lemma2_to64();
            assert(fraction as nat * pow2(0) == fraction as nat);
        }
        if field == 0 {
            (fraction, 0)
        } else {
            (0x80_0000 + fraction, field - 1)
        }
    }

    /// The numeric comparison `self < other`.
    pub fn less_than(self, other: Float32) -> (r: bool)
        ensures
            r == self.lt(other),
    {
        if self.is_nan() || other.is_nan() {
            return false;
        }
        let a: u32 = self.bits % 0x8000_0000;
        let b: u32 = other.bits % 0x8000_0000;
        let left_negative: bool = self.bits >= 0x8000_0000;
        let right_negative: bool = other.bits >= 0x8000_0000;
        proof {
            lemma_magnitude_order(self, other);
            lemma_magnitude_zero(self);
            lemma_magnitude_zero(other);
        }
        if left_negative {
            if right_negative {
                b < a
            } else {
                a != 0 || b != 0
            }
        } else {
            !right_negative && a < b
        }
    }
}

/// Magnitudes order as the bits below the sign bit do.
pub proof fn lemma_magnitude_order(x: Float32, y: Float32)
    ensures
        x.magnitude() < y.magnitude() <==> x.bits % 0x8000_0000 < y.bits % 0x8000_0000,
        x.magnitude() == y.magnitude() <==> x.bits % 0x8000_0000 == y.bits % 0x8000_0000,
{
    let a = (x.bits % 0x8000_0000) as int;
    let b = (y.bits % 0x8000_0000) as int;
    lemma_fields(x);
    lemma_fields(y);
    if a < b {
        lemma_magnitude_strict(x, y);
    } else if b < a {
        lemma_magnitude_strict(y, x);
    }
}

/// The bits below the sign bit are the exponent and the fraction.
proof fn lemma_fields(x: Float32)
    ensures
        x.bits % 0x8000_0000 == x.exponent() * 0x80_0000 + x.fraction(),
        x.exponent() < 0x100,
        x.fraction() < 0x80_0000,
{
}

/// Larger bits below the sign bit are a larger magnitude.
proof fn lemma_magnitude_strict(x: Float32, y: Float32)
    requires
        x.bits % 0x8000_0000 < y.bits % 0x8000_0000,
    ensures
        x.magnitude() < y.magnitude(),
{
    lemma_fields(x);
    lemma_fields(y);
    let a = x.exponent();
    let b = y.exponent();
    lemma2_to64();
    if a == b {
        if a > 0 {
            let p = pow2((a - 1) as nat);
            lemma_pow2_pos((a - 1) as nat);
            assert((0x80_0000 + x.fraction()) * p < (0x80_0000 + y.fraction()) * p)
                by (nonlinear_arith)
                requires
                    x.fraction() < y.fraction(),
                    p > 0,
            ;
        }
    } else {
        assert(a < b);
        let q = pow2((b - 1) as nat);
        lemma_pow2_pos((b - 1) as nat);
        assert(y.magnitude() >= 0x80_0000 * q) by (nonlinear_arith)
            requires
                y.magnitude() == (0x80_0000 + y.fraction()) * q,
                q >= 0,
        ;
        if a > 0 {
            let p = pow2((a - 1) as nat);
            lemma_pow2_pos((a - 1) as nat);
            assert(x.magnitude() < 0x80_0000 * (2 * p)) by (nonlinear_arith)
                requires
                    x.magnitude() == (0x80_0000 + x.fraction()) * p,
                    x.fraction() < 0x80_0000,
                    p > 0,
            ;
            lemma_pow2_unfold(a);
            if a < b - 1 {
                lemma_pow2_strictly_increases(a, (b - 1) as nat);
            }
            assert(2 * p <= q);
        }
    }
}

/// Only the two zeros have magnitude zero.
pub proof fn lemma_magnitude_zero(x: Float32)
    ensures
        x.magnitude() == 0 <==> x.bits % 0x8000_0000 == 0,
{
    let z = Float32 { bits: 0 };
    lemma_magnitude_order(x, z);
}

/// A number whose significand is a whole number shifted into place has that
/// whole number as its value.
pub proof fn lemma_whole(x: Float32, n: nat)
    requires
        !x.negative(),
        0 < x.exponent() <= 150,
        0x80_0000 + x.fraction() == n * pow2((150 - x.exponent()) as nat),
    ensures
        x.finite(),
        !x.nan(),
        x.value() == n * one(),
{
    let a = (150 - x.exponent()) as nat;
    let b = (x.exponent() - 1) as nat;
    lemma_pow2_adds(a, b);
    assert(a + b == 149);
    assert((n * pow2(a)) * pow2(b) == n * (pow2(a) * pow2(b))) by (nonlinear_arith);
}

/// A significand of 24 bits behind an exponent is a number's magnitude, and its
/// bits are the two side by side.
pub proof fn lemma_encoding(m: nat, e: nat)
    requires
        m <= 0x100_0000,
        e > 0 ==> m >= 0x80_0000,
    ensures
        ({
            let code = e * 0x80_0000 + m;
            let r = Float32::of_magnitude(m * pow2(e));
            &&& code < 0x7F80_0000 ==> {
                &&& r.bits == code
                &&& r.finite()
                &&& r.magnitude() == m * pow2(e)
            }
            &&& code >= 0x7F80_0000 ==> r.bits == 0x7F80_0000
        }),
{
    lemma2_to64();
    lemma_pow2_pos(e);
    let v = m * pow2(e);
    let code = e * 0x80_0000 + m;
    assert(pow2(24) == 0x100_0000);
    assert(pow2(23) == 0x80_0000);
    if m < 0x100_0000 {
        lemma_pow2_adds(24, e);
        assert(v < pow2(24) * pow2(e)) by (nonlinear_arith)
            requires
                v == m * pow2(e),
                m < pow2(24),
                pow2(e) > 0,
        ;
        if e > 0 {
            lemma_pow2_adds(23, e);
            assert(v >= pow2(23) * pow2(e)) by (nonlinear_arith)
                requires
                    v == m * pow2(e),
                    m >= pow2(23),
            ;
        }
        assert(24 + e - 1 == 23 + e);
        lemma_excess_bits(v, 24, e);
        lemma_fundamental_div_mod_converse(v as int, pow2(e) as int, m as int, 0);
        assert(v / pow2(e) == m);
    } else {
        lemma_pow2_adds(24, e);
        lemma_pow2_adds(25, e);
        lemma_pow2_unfold(24 + e + 1);
        lemma_pow2_unfold(e + 1);
        lemma_pow2_pos(24 + e);
        assert(v == pow2(24 + e));
        assert(24 + (e + 1) == 24 + e + 1);
        assert((24 + (e + 1) - 1) as nat == 24 + e);
        lemma_excess_bits(v, 24, e + 1);
        assert(v == 0x80_0000 * pow2(e + 1));
        lemma_fundamental_div_mod_converse(v as int, pow2(e + 1) as int, 0x80_0000, 0);
    }
    if code < 0x7F80_0000 {
        let r = Float32 { bits: code as u32 };
        assert(r == Float32::of_magnitude(v));
        if m < 0x80_0000 {
            assert(e == 0);
        } else if m < 0x100_0000 {
            let f = (m - 0x80_0000) as nat;
            assert(code == (e + 1) * 0x80_0000 + f);
            lemma_fundamental_div_mod_converse(code as int, 0x80_0000, (e + 1) as int, f as int);
            assert(r.exponent() == e + 1);
            assert(r.fraction() == f);
        } else {
            assert(code == (e + 2) * 0x80_0000);
            lemma_fundamental_div_mod_converse(code as int, 0x80_0000, (e + 2) as int, 0);
            assert(r.exponent() == e + 2);
            assert(r.fraction() == 0);
            lemma_pow2_unfold(e + 1);
        }
    }
}

impl Float32 {
    /// The number with significand `m` and exponent `e`, in units; infinity
    /// where that is out of range.
    pub fn encode(m: u128, e: u32) -> (r: Float32)
        requires
            m <= 0x100_0000,
            e > 0 ==> m >= 0x80_0000,
        ensures
            r == Float32::of_magnitude(m as nat * pow2(e as nat)),
            !r.nan(),
            !r.negative(),
            e * 0x80_0000 + m < 0x7F80_0000 ==> r.finite() && r.magnitude() == m as nat * pow2(
                e as nat,
            ),
    {
        proof {
            lemma_encoding(m as nat, e as nat);
        }
        if e >= 255 {
            return Float32 { bits: 0x7F80_0000 };
        }
        let code: u32 = e * 0x80_0000 + m as u32;
        if code < 0x7F80_0000 {
            Float32 { bits: code }
        } else {
            Float32 { bits: 0x7F80_0000 }
        }
    }
}

/// Every finite number that is not negative is the number of its magnitude.
pub proof fn law_magnitude_determines_the_number(x: Float32)
    requires
        x.finite(),
        !x.negative(),
    ensures
        Float32::of_magnitude(x.magnitude()) == x,
{
    lemma_fields(x);
    lemma2_to64();
    if x.exponent() == 0 {
        assert(x.fraction() * pow2(0) == x.fraction());
        lemma_encoding(x.fraction(), 0);
    } else {
        lemma_encoding((0x80_0000 + x.fraction()) as nat, (x.exponent() - 1) as nat);
    }
}

/// The number of a magnitude that a finite number has is that number again, and
/// no number is in doubt: two numbers of the same value have the same bits, save
/// for the two zeros.
pub proof fn law_value_determines_the_bits(x: Float32, y: Float32)
    requires
        x.value() == y.value(),
        x.value() != 0,
    ensures
        x == y,
{
    lemma_magnitude_order(x, y);
    lemma_fields(x);
    lemma_fields(y);
}

/// Comparison is that of the values: of two numbers exactly one is smaller,
/// unless their values are the same; what is not a number is never smaller nor
/// larger than anything.
pub proof fn law_comparison_is_of_values(x: Float32, y: Float32)
    ensures
        x.nan() || y.nan() ==> !x.lt(y) && !y.lt(x),
        !x.nan() && !y.nan() ==> (x.lt(y) <==> x.value() < y.value()),
        !(x.lt(y) && y.lt(x)),
{
}

/// Below the sign bit, the bits of infinity part the finite numbers from what is
/// not a number.
pub proof fn law_infinity_parts_the_numbers(x: Float32)
    ensures
        x.finite() <==> x.bits % 0x8000_0000 < 0x7F80_0000,
        x.nan() <==> x.bits % 0x8000_0000 > 0x7F80_0000,
{
    lemma_fields(x);
}

/// The numbers up to twice the smallest normal one are counted by their bits.
pub proof fn law_small_numbers_are_counted_by_their_bits(x: Float32)
    requires
        x.bits % 0x8000_0000 <= 0x100_0000,
    ensures
        x.magnitude() == x.bits % 0x8000_0000,
{
    lemma_fields(x);
    lemma2_to64();
    if x.exponent() == 1 {
        assert((0x80_0000 + x.fraction()) * pow2(0) == 0x80_0000 + x.fraction());
    } else if x.exponent() == 2 {
        assert((0x80_0000 + x.fraction()) * pow2(1) == 2 * (0x80_0000 + x.fraction()));
    }
}

/// From there on, a number whose exponent field is one higher is twice as large.
pub proof fn law_exponents_double(x: Float32, y: Float32)
    requires
        0x80_0000 <= x.bits,
        y.bits == x.bits + 0x80_0000,
        y.bits <= 0x7F80_0000,
    ensures
        y.magnitude() == 2 * x.magnitude(),
{
    lemma_fields(x);
    lemma_fields(y);
    let e = x.exponent();
    assert(y.exponent() == e + 1);
    assert(y.fraction() == x.fraction());
    lemma_pow2_unfold(e);
    let m = 0x80_0000 + x.fraction();
    assert(m * pow2(e) == 2 * (m * pow2((e - 1) as nat))) by (nonlinear_arith)
        requires
            pow2(e) == 2 * pow2((e - 1) as nat),
    ;
}

/// The sign bit, and nothing else, makes a value negative.
pub proof fn law_sign_bit_negates(x: Float32, y: Float32)
    requires
        x.bits < 0x8000_0000,
        y.bits == x.bits + 0x8000_0000,
    ensures
        x.value() == x.magnitude(),
        y.value() == -x.value(),
{
    lemma_magnitude_order(x, y);
}

} // verus!
