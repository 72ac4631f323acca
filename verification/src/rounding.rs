//! Rounding of non-negative quotients, as binary floating point and decimal
//! output do it: to the nearest value, ties to the even neighbour.
use vstd::arithmetic::div_mod::{
    lemma_div_is_ordered, lemma_fundamental_div_mod, lemma_fundamental_div_mod_converse,
    lemma_mod_bound,
};
use vstd::arithmetic::mul::{lemma_mul_inequality, lemma_mul_strictly_positive};
use vstd::arithmetic::power2::{
    lemma2_to64, lemma2_to64_rest, lemma_pow2_adds, lemma_pow2_pos, lemma_pow2_strictly_increases,
    lemma_pow2_unfold, pow2,
};
use vstd::prelude::*;

verus! {

/// `n / d` rounded to the nearest integer; a quotient halfway between two
/// integers goes to the even one.
pub open spec fn half_even(n: nat, d: nat) -> nat {
    let q = n / d;
    let r = n % d;
    if 2 * r < d || (2 * r == d && q % 2 == 0) {
        q
    } else {
        q + 1
    }
}

/// How many low bits `x` has beyond a significand of `p` bits: the least `k`
/// with `x < 2^(p + k)`.
pub open spec fn excess_bits(x: nat, p: nat) -> nat
    decreases x,
{
    if x < pow2(p) || x == 0 {
        0
    } else {
        1 + excess_bits(x / 2, p)
    }
}

/// `n / d` rounded to a significand of `p` bits on a grid of whole units: the
/// result of a binary floating point operation whose exact value is `n / d`
/// units, the unit being the smallest positive number of the format.
pub open spec fn round_quotient(n: nat, d: nat, p: nat) -> nat {
    let k = excess_bits(n / d, p);
    half_even(n, d * pow2(k)) * pow2(k)
}

/// A positive number that needs `p + k` bits has `k` excess bits.
pub proof fn lemma_excess_bits(x: nat, p: nat, k: nat)
    requires
        p > 0,
        x < pow2(p + k),
        k > 0 ==> x >= pow2((p + k - 1) as nat),
    ensures
        excess_bits(x, p) == k,
    decreases k,
{
    if k > 0 {
        lemma_pow2_pos((p + k - 1) as nat);
        if k > 1 {
            lemma_pow2_strictly_increases(p, (p + k - 1) as nat);
        }
        lemma_pow2_unfold(p + k);
        if k > 1 {
            lemma_pow2_unfold((p + k - 1) as nat);
        }
        lemma_excess_bits(x / 2, p, (k - 1) as nat);
    }
}

/// What the number of excess bits says of the size of `x`.
pub proof fn lemma_excess_bits_bounds(x: nat, p: nat)
    requires
        p > 0,
    ensures
        x < pow2(p + excess_bits(x, p)),
        excess_bits(x, p) > 0 ==> x >= pow2((p + excess_bits(x, p) - 1) as nat),
    decreases x,
{
    lemma_pow2_pos(p);
    if x >= pow2(p) && x != 0 {
        lemma_excess_bits_bounds(x / 2, p);
        let k = excess_bits(x / 2, p);
        lemma_pow2_unfold(p + k + 1);
        if k > 0 {
            lemma_pow2_unfold(p + k);
        }
    }
}

/// A common factor does not change a rounded quotient.
pub proof fn lemma_half_even_common_factor(n: nat, d: nat, c: nat)
    requires
        d > 0,
        c > 0,
    ensures
        d * c > 0,
        half_even(n * c, d * c) == half_even(n, d),
{
    let q = n / d;
    let r = n % d;
    lemma_fundamental_div_mod(n as int, d as int);
    lemma_mod_bound(n as int, d as int);
    assert(n * c == q * (d * c) + r * c) by (nonlinear_arith)
        requires
            n == d * q + r,
    ;
    assert(0 <= r * c < d * c) by (nonlinear_arith)
        requires
            0 <= r < d,
            c > 0,
    ;
    lemma_fundamental_div_mod_converse(
        (n * c) as int,
        (d * c) as int,
        q as int,
        (r * c) as int,
    );
    assert(2 * (r * c) < d * c <==> 2 * r < d) by (nonlinear_arith)
        requires
            c > 0,
    ;
    assert(2 * (r * c) == d * c <==> 2 * r == d) by (nonlinear_arith)
        requires
            c > 0,
    ;
}

/// Scaling by a power of two commutes with rounding, once the quotient fills
/// the significand.
pub proof fn lemma_round_quotient_scale(n: nat, d: nat, p: nat, j: nat)
    requires
        d > 0,
        p > 0,
        n / d >= pow2((p - 1) as nat),
    ensures
        round_quotient(n * pow2(j), d, p) == round_quotient(n, d, p) * pow2(j),
{
    let x = n / d;
    let k = excess_bits(x, p);
    let y = (n * pow2(j)) / d;
    lemma_pow2_pos(j);
    lemma_pow2_pos(k);
    lemma_excess_bits_bounds(x, p);
    lemma_fundamental_div_mod(n as int, d as int);
    lemma_mod_bound(n as int, d as int);
    // 2^j * x <= y < 2^j * (x + 1)
    assert(y >= x * pow2(j)) by {
        assert(n * pow2(j) >= d * (x * pow2(j))) by (nonlinear_arith)
            requires
                n >= d * x,
        ;
        lemma_quotient_at_least(n * pow2(j), d, x * pow2(j));
    }
    assert(y < (x + 1) * pow2(j)) by {
        assert(n * pow2(j) < d * ((x + 1) * pow2(j))) by (nonlinear_arith)
            requires
                n < d * x + d,
                pow2(j) > 0,
        ;
        lemma_quotient_below(n * pow2(j), d, (x + 1) * pow2(j));
    }
    lemma_pow2_adds(p + k, j);
    assert((x + 1) * pow2(j) <= pow2(p + k) * pow2(j)) by (nonlinear_arith)
        requires
            x + 1 <= pow2(p + k),
    ;
    let low: nat = if k > 0 {
        (p + k - 1) as nat
    } else {
        (p - 1) as nat
    };
    lemma_pow2_adds(low, j);
    assert(x * pow2(j) >= pow2(low) * pow2(j)) by (nonlinear_arith)
        requires
            x >= pow2(low),
    ;
    assert(p + k + j == p + (k + j));
    lemma_excess_bits(y, p, k + j);
    lemma_pow2_adds(k, j);
    assert(d * pow2(k + j) == (d * pow2(k)) * pow2(j)) by (nonlinear_arith)
        requires
            pow2(k + j) == pow2(k) * pow2(j),
    ;
    assert(d * pow2(k) > 0) by (nonlinear_arith)
        requires
            d > 0,
            pow2(k) > 0,
    ;
    lemma_half_even_common_factor(n, d * pow2(k), pow2(j));
    let h = half_even(n, d * pow2(k));
    assert(h * pow2(k + j) == (h * pow2(k)) * pow2(j)) by (nonlinear_arith)
        requires
            pow2(k + j) == pow2(k) * pow2(j),
    ;
}

/// A common factor of numerator and denominator does not change the result.
pub proof fn lemma_round_quotient_common_factor(n: nat, d: nat, p: nat, c: nat)
    requires
        d > 0,
        c > 0,
    ensures
        d * c > 0,
        round_quotient(n * c, d * c, p) == round_quotient(n, d, p),
{
    lemma_mul_strictly_positive(d as int, c as int);
    assert((n * c) / (d * c) == n / d) by {
        lemma_fundamental_div_mod(n as int, d as int);
        lemma_mod_bound(n as int, d as int);
        let q = n / d;
        let r = n % d;
        assert(n * c == q * (d * c) + r * c) by (nonlinear_arith)
            requires
                n == d * q + r,
        ;
        assert(0 <= r * c < d * c) by (nonlinear_arith)
            requires
                0 <= r < d,
                c > 0,
        ;
        lemma_fundamental_div_mod_converse(
            (n * c) as int,
            (d * c) as int,
            q as int,
            (r * c) as int,
        );
    }
    let k = excess_bits(n / d, p);
    lemma_pow2_pos(k);
    lemma_mul_strictly_positive(d as int, pow2(k) as int);
    lemma_half_even_common_factor(n, d * pow2(k), c);
    assert((d * pow2(k)) * c == (d * c) * pow2(k)) by (nonlinear_arith);
}

/// A quotient is at least `q` when the numerator holds `q` denominators.
pub proof fn lemma_quotient_at_least(n: nat, d: nat, q: nat)
    requires
        d > 0,
        n >= d * q,
    ensures
        n / d >= q,
{
    lemma_fundamental_div_mod(n as int, d as int);
    lemma_mod_bound(n as int, d as int);
    let x = n / d;
    assert(x >= q) by (nonlinear_arith)
        requires
            d * x + d > n,
            n >= d * q,
            d > 0,
    ;
}

/// A quotient is below `q` when the numerator is below `q` denominators.
pub proof fn lemma_quotient_below(n: nat, d: nat, q: nat)
    requires
        d > 0,
        n < d * q,
    ensures
        n / d < q,
{
    lemma_fundamental_div_mod(n as int, d as int);
    lemma_mod_bound(n as int, d as int);
    let x = n / d;
    assert(x < q) by (nonlinear_arith)
        requires
            d * x <= n,
            n < d * q,
            d > 0,
    ;
}

/// Computes [`half_even`].
pub fn round_half_even(n: u128, d: u128) -> (q: u128)
    requires
        d > 0,
    ensures
        q == half_even(n as nat, d as nat),
{
    let quotient: u128 = n / d;
    let remainder: u128 = n % d;
    let rest: u128 = d - remainder;
    if remainder < rest || (remainder == rest && quotient % 2 == 0) {
        quotient
    } else {
        proof {
            lemma_fundamental_div_mod(n as int, d as int);
            assert(quotient < u128::MAX) by (nonlinear_arith)
                requires
                    n == d * quotient + remainder,
                    remainder > 0,
                    d > 0,
                    n <= u128::MAX,
            ;
        }
        quotient + 1
    }
}

/// Computes [`round_quotient`] as a significand and an exponent: the result is
/// `significand * 2^exponent`.
pub fn round_to_bits(n: u128, d: u128, p: u32) -> (r: (u128, u32))
    requires
        d > 0,
        0 < p < 128,
    ensures
        r.0 * pow2(r.1 as nat) == round_quotient(n as nat, d as nat, p as nat),
        r.1 == excess_bits((n / d) as nat, p as nat),
        r.0 <= pow2(p as nat),
        n / d >= pow2((p - 1) as nat) ==> r.0 >= pow2((p - 1) as nat),
        r.1 > 0 ==> r.0 >= pow2((p - 1) as nat),
        r.1 < 128,
{
    let mut rest: u128 = n / d;
    let mut scaled: u128 = d;
    let mut k: u32 = 0;
    let ghost x: nat = (n / d) as nat;
    let limit: u128 = power_of_two(p);
    proof {
        lemma_pow2_pos(0);
        lemma2_to64();
        lemma_fundamental_div_mod(n as int, d as int);
        lemma_mod_bound(n as int, d as int);
        assert(scaled * rest <= n) by (nonlinear_arith)
            requires
                n == d * (n / d) + n % d,
                n % d >= 0,
                rest == n / d,
                scaled == d,
        ;
    }
    while rest >= limit
        invariant
            d > 0,
            0 < p < 128,
            limit == pow2(p as nat),
            x == (n / d) as nat,
            scaled == d * pow2(k as nat),
            scaled * rest <= n,
            scaled > 0,
            k + excess_bits(rest as nat, p as nat) == excess_bits(x, p as nat),
            k < 128,
            k > 0 ==> rest >= 1 && pow2(k as nat) * 1 <= u128::MAX,
            rest * pow2(k as nat) <= x,
        decreases rest,
    {
        proof {
            lemma_pow2_pos(p as nat);
            lemma_pow2_unfold(p as nat);
            lemma_pow2_pos((p - 1) as nat);
            lemma_pow2_unfold((k + 1) as nat);
            let half = rest / 2;
            assert(half >= 1);
            assert(2 * half <= rest);
            assert((2 * scaled) * half <= n) by (nonlinear_arith)
                requires
                    scaled * rest <= n,
                    2 * half <= rest,
            ;
            assert(2 * scaled <= n) by (nonlinear_arith)
                requires
                    (2 * scaled) * half <= n,
                    half >= 1,
            ;
            assert(half * pow2((k + 1) as nat) <= x) by (nonlinear_arith)
                requires
                    rest * pow2(k as nat) <= x,
                    2 * half <= rest,
                    pow2((k + 1) as nat) == 2 * pow2(k as nat),
            ;
            assert(pow2((k + 1) as nat) <= x) by (nonlinear_arith)
                requires
                    half * pow2((k + 1) as nat) <= x,
                    half >= 1,
            ;
            lemma_pow2_below_u128((k + 1) as nat);
            assert(d * pow2((k + 1) as nat) == 2 * (d * pow2(k as nat))) by (nonlinear_arith)
                requires
                    pow2((k + 1) as nat) == 2 * pow2(k as nat),
            ;
        }
        rest = rest / 2;
        scaled = scaled * 2;
        k = k + 1;
    }
    let significand: u128 = round_half_even(n, scaled);
    proof {
        lemma_significand_bounds(n as nat, d as nat, p as nat);
    }
    (significand, k)
}

/// `2^e` as a machine integer.
pub fn power_of_two(e: u32) -> (r: u128)
    requires
        e < 128,
    ensures
        r == pow2(e as nat),
{
    let mut r: u128 = 1;
    let mut i: u32 = 0;
    proof {
        lemma2_to64();
    }
    while i < e
        invariant
            i <= e < 128,
            r == pow2(i as nat),
        decreases e - i,
    {
        proof {
            lemma_pow2_unfold((i + 1) as nat);
            lemma_pow2_fits((i + 1) as nat);
        }
        r = r * 2;
        i = i + 1;
    }
    r
}

/// The first power of two that a machine integer cannot hold.
proof fn lemma_pow2_128()
    ensures
        pow2(128) == u128::MAX + 1,
{
    lemma2_to64();
    lemma_pow2_adds(64, 64);
    assert(pow2(64) == 0x1_0000_0000_0000_0000);
}

/// A machine integer holds the powers of two below that.
proof fn lemma_pow2_fits(e: nat)
    requires
        e < 128,
    ensures
        pow2(e) <= u128::MAX,
{
    lemma_pow2_128();
    lemma_pow2_strictly_increases(e, 128);
}

/// A power of two that a machine integer holds is below that.
proof fn lemma_pow2_below_u128(e: nat)
    requires
        pow2(e) <= u128::MAX,
    ensures
        e < 128,
{
    lemma_pow2_128();
    if e > 128 {
        lemma_pow2_strictly_increases(128, e);
    }
}

/// The rounded significand has `p` bits, or is the next power of two.
pub proof fn lemma_significand_bounds(n: nat, d: nat, p: nat)
    requires
        d > 0,
        p > 0,
    ensures
        ({
            let k = excess_bits(n / d, p);
            let m = half_even(n, d * pow2(k));
            &&& d * pow2(k) > 0
            &&& m <= pow2(p)
            &&& k > 0 ==> m >= pow2((p - 1) as nat)
            &&& n / d >= pow2((p - 1) as nat) ==> m >= pow2((p - 1) as nat)
        }),
{
    let x = n / d;
    let k = excess_bits(x, p);
    lemma_excess_bits_bounds(x, p);
    lemma_pow2_pos(k);
    lemma_mul_strictly_positive(d as int, pow2(k) as int);
    lemma_pow2_adds(p, k);
    lemma_fundamental_div_mod(n as int, d as int);
    lemma_mod_bound(n as int, d as int);
    assert(n < (d * pow2(k)) * pow2(p)) by (nonlinear_arith)
        requires
            n < d * x + d,
            x + 1 <= pow2(p) * pow2(k),
            d > 0,
    ;
    lemma_quotient_below(n, d * pow2(k), pow2(p));
    if k > 0 || x >= pow2((p - 1) as nat) {
        assert(x >= pow2((p - 1) as nat) * pow2(k)) by {
            lemma_pow2_adds((p - 1) as nat, k);
            if k == 0 {
                lemma2_to64();
            }
        }
        assert(n >= (d * pow2(k)) * pow2((p - 1) as nat)) by (nonlinear_arith)
            requires
                n >= d * x,
                x >= pow2((p - 1) as nat) * pow2(k),
                d > 0,
        ;
        lemma_quotient_at_least(n, d * pow2(k), pow2((p - 1) as nat));
    }
}

/// A quotient of at most `w` rounds to at most `w`.
proof fn lemma_half_even_at_most(n: nat, d: nat, w: nat)
    requires
        d > 0,
        n <= d * w,
    ensures
        half_even(n, d) <= w,
{
    lemma_fundamental_div_mod(n as int, d as int);
    lemma_mod_bound(n as int, d as int);
    let q = n / d;
    assert(q < w || (q == w && n % d == 0)) by (nonlinear_arith)
        requires
            n == d * q + n % d,
            n <= d * w,
            n % d >= 0,
            d > 0,
    ;
}

/// A quotient of at least `w` rounds to at least `w`.
proof fn lemma_half_even_at_least(n: nat, d: nat, w: nat)
    requires
        d > 0,
        n >= d * w,
    ensures
        half_even(n, d) >= w,
{
    lemma_quotient_at_least(n, d, w);
}

/// A number of at most `p` significant bits that lies in the binade of a
/// rounding, or at its lower end, is on the rounding's grid.
proof fn lemma_on_grid(b: nat, j: nat, p: nat, k: nat)
    requires
        p > 0,
        b <= pow2(p),
        b * pow2(j) >= pow2((p + k - 1) as nat),
    ensures
        b * pow2(j) == (b * pow2(j) / pow2(k)) * pow2(k),
{
    let v = b * pow2(j);
    lemma_pow2_pos(k);
    lemma_pow2_pos(j);
    let w: nat = if j >= k {
        lemma_pow2_adds(k, (j - k) as nat);
        let c = pow2((j - k) as nat);
        assert(v == (b * c) * pow2(k)) by (nonlinear_arith)
            requires
                v == b * pow2(j),
                pow2(j) == pow2(k) * c,
        ;
        b * c
    } else {
        // Only b == 2^p and k == j + 1 are left.
        lemma_pow2_adds(p, j);
        assert(v <= pow2(p + j)) by (nonlinear_arith)
            requires
                v == b * pow2(j),
                b <= pow2(p),
                pow2(p + j) == pow2(p) * pow2(j),
        ;
        if p + k - 1 > p + j {
            lemma_pow2_strictly_increases(p + j, (p + k - 1) as nat);
        }
        assert(k == j + 1);
        assert(v == pow2(p + j));
        lemma_pow2_adds((p - 1) as nat, k);
        assert(p - 1 + k == p + j);
        pow2((p - 1) as nat)
    };
    assert(v == w * pow2(k));
    lemma_fundamental_div_mod_converse(v as int, pow2(k) as int, w as int, 0);
}

/// Rounding does not carry a quotient above a number of at most `p` significant
/// bits.
pub proof fn lemma_round_quotient_at_most(n: nat, d: nat, p: nat, b: nat, j: nat)
    requires
        d > 0,
        p > 0,
        b <= pow2(p),
        n <= d * (b * pow2(j)),
    ensures
        round_quotient(n, d, p) <= b * pow2(j),
{
    let v = b * pow2(j);
    let x = n / d;
    let k = excess_bits(x, p);
    let m = half_even(n, d * pow2(k));
    lemma_pow2_pos(k);
    lemma_excess_bits_bounds(x, p);
    lemma_significand_bounds(n, d, p);
    lemma_fundamental_div_mod(n as int, d as int);
    lemma_mod_bound(n as int, d as int);
    assert(x <= v) by (nonlinear_arith)
        requires
            n == d * x + n % d,
            n % d >= 0,
            n <= d * v,
            d > 0,
    ;
    if k == 0 {
        lemma2_to64();
        assert(d * pow2(0) == d);
        lemma_half_even_at_most(n, d, v);
    } else {
        lemma_on_grid(b, j, p, k);
        let w = v / pow2(k);
        assert(n <= (d * pow2(k)) * w) by (nonlinear_arith)
            requires
                n <= d * v,
                v == w * pow2(k),
        ;
        lemma_half_even_at_most(n, d * pow2(k), w);
        assert(m * pow2(k) <= v) by (nonlinear_arith)
            requires
                m <= w,
                v == w * pow2(k),
        ;
    }
}

/// Rounding does not carry a quotient below a number of at most `p` significant
/// bits.
pub proof fn lemma_round_quotient_at_least(n: nat, d: nat, p: nat, b: nat, j: nat)
    requires
        d > 0,
        p > 0,
        b <= pow2(p),
        n >= d * (b * pow2(j)),
    ensures
        round_quotient(n, d, p) >= b * pow2(j),
{
    let v = b * pow2(j);
    let x = n / d;
    let k = excess_bits(x, p);
    let m = half_even(n, d * pow2(k));
    lemma_pow2_pos(k);
    lemma_excess_bits_bounds(x, p);
    lemma_significand_bounds(n, d, p);
    if k == 0 {
        lemma2_to64();
        assert(d * pow2(0) == d);
        lemma_half_even_at_least(n, d, v);
    } else if v >= pow2((p + k - 1) as nat) {
        lemma_on_grid(b, j, p, k);
        let w = v / pow2(k);
        assert(n >= (d * pow2(k)) * w) by (nonlinear_arith)
            requires
                n >= d * v,
                v == w * pow2(k),
        ;
        lemma_half_even_at_least(n, d * pow2(k), w);
        assert(m * pow2(k) >= v) by (nonlinear_arith)
            requires
                m >= w,
                v == w * pow2(k),
        ;
    } else {
        lemma_pow2_adds((p - 1) as nat, k);
        assert(p - 1 + k == p + k - 1);
        assert(m * pow2(k) >= pow2((p - 1) as nat) * pow2(k)) by (nonlinear_arith)
            requires
                m >= pow2((p - 1) as nat),
        ;
    }
}

/// A larger numerator rounds no lower.
proof fn lemma_half_even_monotone(a: nat, b: nat, d: nat)
    requires
        d > 0,
        a <= b,
    ensures
        half_even(a, d) <= half_even(b, d),
{
    lemma_div_is_ordered(a as int, b as int, d as int);
    lemma_fundamental_div_mod(a as int, d as int);
    lemma_fundamental_div_mod(b as int, d as int);
}

/// A larger numerator rounds no lower.
pub proof fn lemma_round_quotient_monotone(a: nat, b: nat, d: nat, p: nat)
    requires
        d > 0,
        p > 0,
        a <= b,
    ensures
        round_quotient(a, d, p) <= round_quotient(b, d, p),
{
    let k = excess_bits(a / d, p);
    let l = excess_bits(b / d, p);
    lemma_div_is_ordered(a as int, b as int, d as int);
    lemma_excess_bits_bounds(a / d, p);
    lemma_excess_bits_bounds(b / d, p);
    lemma_significand_bounds(a, d, p);
    lemma_significand_bounds(b, d, p);
    let m = half_even(a, d * pow2(k));
    let n = half_even(b, d * pow2(l));
    lemma_pow2_pos(k);
    lemma_pow2_pos(l);
    if k == l {
        lemma_half_even_monotone(a, b, d * pow2(k));
        lemma_mul_inequality(m as int, n as int, pow2(k) as int);
    } else if k < l {
        lemma_pow2_adds(p, k);
        lemma_pow2_adds((p - 1) as nat, l);
        assert(p - 1 + l == p + l - 1);
        if p + k < p + l - 1 {
            lemma_pow2_strictly_increases(p + k, (p + l - 1) as nat);
        }
        lemma_mul_inequality(m as int, pow2(p) as int, pow2(k) as int);
        lemma_mul_inequality(pow2((p - 1) as nat) as int, n as int, pow2(l) as int);
    } else {
        if p + l < p + k - 1 {
            lemma_pow2_strictly_increases(p + l, (p + k - 1) as nat);
        }
        assert(false);
    }
}

/// Computes [`round_quotient`] of a numerator up to `2^120`.
pub fn round_value(n: u128, d: u128, p: u32) -> (r: u128)
    requires
        d > 0,
        0 < p < 120,
        n <= 0x100_0000_0000_0000_0000_0000_0000_0000,
    ensures
        r == round_quotient(n as nat, d as nat, p as nat),
        r <= 0x100_0000_0000_0000_0000_0000_0000_0000,
{
    let (m, k): (u128, u32) = round_to_bits(n, d, p);
    let weight: u128 = power_of_two(k);
    proof {
        lemma2_to64();
        lemma2_to64_rest();
        lemma_pow2_adds(60, 60);
        lemma_pow2_pos(p as nat);
        assert(n <= d * (1 * pow2(120))) by (nonlinear_arith)
            requires
                n <= pow2(120),
                d >= 1,
        ;
        lemma_round_quotient_at_most(n as nat, d as nat, p as nat, 1, 120);
    }
    m * weight
}

/// A quotient is rounded to the integer nearest to it, and from halfway to the
/// even one.
pub proof fn law_half_even_is_nearest(n: nat, d: nat)
    requires
        d > 0,
    ensures
        -(d as int) <= 2 * (n - d * half_even(n, d)) <= d,
        2 * (n - d * half_even(n, d)) == d ==> half_even(n, d) % 2 == 0,
        2 * (n - d * half_even(n, d)) == -(d as int) ==> half_even(n, d) % 2 == 0,
{
    let q = n / d;
    lemma_fundamental_div_mod(n as int, d as int);
    lemma_mod_bound(n as int, d as int);
    assert(d * (q + 1) == d * q + d) by (nonlinear_arith);
}

/// A rounded quotient is off by half a unit at most, or by one part in `2^p` at
/// most.
pub proof fn law_rounding_is_close(n: nat, d: nat, p: nat)
    requires
        d > 0,
        p > 0,
    ensures
        ({
            let error = n - d * round_quotient(n, d, p);
            ||| -(d as int) <= 2 * error <= d
            ||| -(n as int) <= pow2(p) * error <= n
        }),
{
    let x = n / d;
    let k = excess_bits(x, p);
    let g = pow2(k);
    let h = half_even(n, d * g);
    lemma_pow2_pos(k);
    lemma_mul_strictly_positive(d as int, g as int);
    law_half_even_is_nearest(n, d * g);
    let error = n - d * (h * g);
    assert((d * g) * h == d * (h * g)) by (nonlinear_arith);
    if k == 0 {
        lemma2_to64();
        assert(d * g == d);
    } else {
        lemma_excess_bits_bounds(x, p);
        lemma_fundamental_div_mod(n as int, d as int);
        lemma_mod_bound(n as int, d as int);
        let half = pow2((p - 1) as nat);
        lemma_pow2_adds((p - 1) as nat, k);
        assert(p - 1 + k == p + k - 1);
        lemma_pow2_unfold(p);
        assert(n >= (d * g) * half) by (nonlinear_arith)
            requires
                n >= d * x,
                x >= half * g,
                d > 0,
        ;
        assert(-((d * g) * half) <= (2 * half) * error <= (d * g) * half) by (nonlinear_arith)
            requires
                -(d * g) <= 2 * error <= d * g,
                half >= 0,
        ;
    }
}

/// No number of at most `p` significant bits is nearer to a quotient than the
/// rounded one.
pub proof fn law_rounded_is_nearest(n: nat, d: nat, p: nat, b: nat, j: nat)
    requires
        d > 0,
        p > 0,
        b <= pow2(p),
    ensures
        ({
            let error = n - d * round_quotient(n, d, p);
            let other = n - d * (b * pow2(j));
            if other >= 0 {
                -other <= error <= other
            } else {
                other <= error <= -other
            }
        }),
{
    let v = b * pow2(j);
    let x = n / d;
    let k = excess_bits(x, p);
    let g = pow2(k);
    let c = d * g;
    let q = n / c;
    let h = half_even(n, c);
    lemma_pow2_pos(k);
    lemma_mul_strictly_positive(d as int, g as int);
    lemma_excess_bits_bounds(x, p);
    lemma_fundamental_div_mod(n as int, d as int);
    lemma_mod_bound(n as int, d as int);
    lemma_fundamental_div_mod(n as int, c as int);
    lemma_mod_bound(n as int, c as int);
    assert(c * h == d * (h * g)) by (nonlinear_arith)
        requires
            c == d * g,
    ;
    assert(c * (q + 1) == c * q + c) by (nonlinear_arith);
    let low = c * q;
    let high = c * (q + 1);
    assert(n - c * h <= n - low && c * h - n <= n - low);
    assert(n - c * h <= high - n && c * h - n <= high - n);
    // The grid of the rounding holds `v`, unless `v` is below its binade.
    let w = v / g;
    if k == 0 {
        lemma2_to64();
        assert(d * g == d);
        assert(v / 1 == v);
        assert(w * g == v);
    } else if v >= pow2((p + k - 1) as nat) {
        lemma_on_grid(b, j, p, k);
    }
    if d * v <= n {
        assert(d * v <= low) by {
            if k == 0 || v >= pow2((p + k - 1) as nat) {
                assert(c * w == d * v) by (nonlinear_arith)
                    requires
                        c == d * g,
                        v == w * g,
                ;
                lemma_quotient_at_least(n, c, w);
                lemma_mul_inequality(w as int, q as int, c as int);
                assert(w * c == c * w) by (nonlinear_arith);
                assert(q * c == c * q) by (nonlinear_arith);
            } else {
                let half = pow2((p - 1) as nat);
                lemma_pow2_adds((p - 1) as nat, k);
                assert(p - 1 + k == p + k - 1);
                assert(n >= c * half) by (nonlinear_arith)
                    requires
                        n >= d * x,
                        x >= half * g,
                        d > 0,
                        c == d * g,
                ;
                lemma_quotient_at_least(n, c, half);
                assert(d * v <= c * q) by (nonlinear_arith)
                    requires
                        v <= half * g,
                        half <= q,
                        c == d * g,
                ;
            }
        }
    } else {
        assert(v > x) by (nonlinear_arith)
            requires
                d * v > n,
                n >= d * x,
                d > 0,
        ;
        assert(c * w == d * v) by (nonlinear_arith)
            requires
                c == d * g,
                v == w * g,
        ;
        assert(w > q) by (nonlinear_arith)
            requires
                c * w > n,
                n >= c * q,
                c > 0,
        ;
        assert(c * w >= high) by (nonlinear_arith)
            requires
                w >= q + 1,
                high == c * (q + 1),
        ;
    }
}

/// A rounded quotient has no more than `p` significant bits.
pub proof fn law_rounded_has_few_bits(n: nat, d: nat, p: nat)
    requires
        d > 0,
        p > 0,
    ensures
        exists|b: nat, k: nat| b <= pow2(p) && round_quotient(n, d, p) == #[trigger] (b * pow2(k)),
{
    let k = excess_bits(n / d, p);
    let b = half_even(n, d * pow2(k));
    lemma_significand_bounds(n, d, p);
    assert(round_quotient(n, d, p) == b * pow2(k));
}

} // verus!
