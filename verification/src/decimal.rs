//! Decimal text of the numbers that a diagnostic's summary shows.
use crate::double_sum::{double_quotient, lemma_round_exact, lemma_round_shifted};
use crate::float32::{one, Float32};
use crate::rounding::{
    excess_bits, half_even, law_half_even_is_nearest, law_rounding_is_close,
    lemma_half_even_common_factor, lemma_quotient_at_least, lemma_round_quotient_at_least,
    lemma_round_quotient_at_most, lemma_round_quotient_scale, power_of_two, round_half_even,
    round_quotient, round_value,
};
use vstd::arithmetic::div_mod::{lemma_fundamental_div_mod, lemma_fundamental_div_mod_converse};
use vstd::arithmetic::power2::{
    lemma2_to64, lemma2_to64_rest, lemma_pow2_adds, lemma_pow2_pos,
    lemma_pow2_strictly_increases, pow2,
};
use vstd::prelude::*;
use vstd::string::StringExecFns;

verus! {

/// The decimal digit `d`.
pub open spec fn digit(d: nat) -> char {
    (48 + d) as char
}

/// A whole number in decimal, without leading zeros.
pub open spec fn whole_text(n: nat) -> Seq<char>
    decreases n,
{
    if n < 10 {
        seq![digit(n)]
    } else {
        whole_text(n / 10).push(digit(n % 10))
    }
}

/// A count of tenths, with one decimal place.
pub open spec fn tenths_text(t: nat) -> Seq<char> {
    whole_text(t / 10) + seq!['.', digit(t % 10)]
}

/// A count of hundredths, with two decimal places.
pub open spec fn hundredths_text(t: nat) -> Seq<char> {
    whole_text(t / 100) + seq!['.', digit(t / 10 % 10), digit(t % 10)]
}

/// `n / d` computed in double precision, times `scale`, to the nearest whole
/// number: the digits that the quotient shows when it is written with as many
/// decimal places as `scale` has zeros.
pub open spec fn shown_quotient(n: nat, d: nat, scale: nat) -> nat {
    half_even(scale * double_quotient(round_quotient(n * one(), 1, 53), d), pow2(1074))
}

/// Microseconds as seconds with one decimal place.
pub open spec fn seconds_text(us: nat) -> Seq<char> {
    tenths_text(shown_quotient(us, 1_000_000, 10))
}

/// The sign that a number shows.
pub open spec fn sign_text(x: Float32) -> Seq<char> {
    if x.negative() {
        seq!['-']
    } else {
        seq![]
    }
}

/// A finite number with one decimal place.
pub open spec fn float_tenths_text(x: Float32) -> Seq<char> {
    sign_text(x) + tenths_text(half_even(x.magnitude() * 10, one()))
}

/// A finite number with two decimal places.
pub open spec fn float_hundredths_text(x: Float32) -> Seq<char> {
    sign_text(x) + hundredths_text(half_even(x.magnitude() * 100, one()))
}

/// The text of one digit.
fn digit_str(d: u32) -> (r: &'static str)
    requires
        d < 10,
    ensures
        r@ == seq![digit(d as nat)],
{
    proof {
        reveal_strlit("0");
        reveal_strlit("1");
        reveal_strlit("2");
        reveal_strlit("3");
        reveal_strlit("4");
        reveal_strlit("5");
        reveal_strlit("6");
        reveal_strlit("7");
        reveal_strlit("8");
        reveal_strlit("9");
    }
    if d == 0 {
        "0"
    } else if d == 1 {
        "1"
    } else if d == 2 {
        "2"
    } else if d == 3 {
        "3"
    } else if d == 4 {
        "4"
    } else if d == 5 {
        "5"
    } else if d == 6 {
        "6"
    } else if d == 7 {
        "7"
    } else if d == 8 {
        "8"
    } else {
        "9"
    }
}

/// Appends a whole number.
pub fn append_whole(s: &mut String, n: u128)
    ensures
        final(s)@ == old(s)@ + whole_text(n as nat),
    decreases n,
{
    if n < 10 {
        s.append(digit_str(n as u32));
    } else {
        append_whole(s, n / 10);
        s.append(digit_str((n % 10) as u32));
        assert(s@ =~= old(s)@ + whole_text(n as nat));
    }
}

/// Appends a decimal point and one digit behind it.
fn append_one_place(s: &mut String, f: u32)
    requires
        f < 10,
    ensures
        final(s)@ == old(s)@ + seq!['.', digit(f as nat)],
{
    proof {
        reveal_strlit(".");
    }
    s.append(".");
    s.append(digit_str(f));
    assert(s@ =~= old(s)@ + seq!['.', digit(f as nat)]);
}

/// Nothing shows as nothing.
proof fn lemma_shown_zero(d: nat, scale: nat)
    requires
        d > 0,
    ensures
        shown_quotient(0, d, scale) == 0,
{
    lemma2_to64();
    lemma_pow2_pos(1074);
    assert(0 * one() == 0);
    assert(0 * pow2(925) == 0);
    assert(excess_bits(0, 53) == 0);
    lemma_round_exact(0, 0, 53);
    lemma_fundamental_div_mod_converse(0, d as int, 0, 0);
    assert(d * pow2(0) == d);
    assert(double_quotient(0, d) == 0);
    assert(scale * 0 == 0);
    lemma_fundamental_div_mod_converse(0, pow2(1074) as int, 0, 0);
}

/// A shown quotient, in terms of a numerator `u * 2^s` that fits a machine
/// integer and fills the significand.
proof fn lemma_shown_quotient(n: nat, u: nat, d: nat, scale: nat, s: nat)
    requires
        u == round_quotient(n, 1, 53),
        d > 0,
        s <= 1074,
        (u * pow2(s)) / d >= pow2(52),
    ensures
        shown_quotient(n, d, scale) == half_even(
            scale * round_quotient(u * pow2(s), d, 53),
            pow2(s),
        ),
{
    let j = (1074 - s) as nat;
    let r = round_quotient(u * pow2(s), d, 53);
    lemma_round_shifted(n, 149);
    lemma_round_quotient_scale(u * pow2(s), d, 53, j);
    lemma_pow2_adds(149, 925);
    lemma_pow2_adds(s, j);
    assert((u * pow2(149)) * pow2(925) == (u * pow2(s)) * pow2(j)) by (nonlinear_arith)
        requires
            pow2(149) * pow2(925) == pow2(s) * pow2(j),
    ;
    assert(scale * (r * pow2(j)) == (scale * r) * pow2(j)) by (nonlinear_arith);
    lemma_pow2_pos(s);
    lemma_pow2_pos(j);
    lemma_half_even_common_factor(scale * r, pow2(s), pow2(j));
}

/// Computes [`shown_quotient`].
pub fn quotient_digits(n: u64, d: u32, scale: u32) -> (r: u128)
    requires
        0 < d <= 0x10_0000,
        0 < scale <= 100,
    ensures
        r == shown_quotient(n as nat, d as nat, scale as nat),
{
    proof {
        lemma2_to64();
        lemma2_to64_rest();
    }
    if n == 0 {
        proof {
            lemma_shown_zero(d as nat, scale as nat);
        }
        return 0;
    }
    let u: u128 = round_value(n as u128, 1, 53);
    proof {
        assert(1 * (1 * pow2(64)) == pow2(64));
        assert(1 * (1 * pow2(0)) == 1);
        lemma_round_quotient_at_most(n as nat, 1, 53, 1, 64);
        lemma_round_quotient_at_least(n as nat, 1, 53, 1, 0);
    }
    let s: u32 = if u >= 0x1_0000_0000 {
        40
    } else {
        72
    };
    let shift: u128 = power_of_two(s);
    proof {
        lemma_pow2_adds(40, 32);
        lemma_pow2_adds(64, 40);
        lemma_pow2_adds(32, 72);
        if s == 40 {
            assert(pow2(72) <= u * shift <= pow2(104)) by (nonlinear_arith)
                requires
                    0x1_0000_0000 <= u <= 0x1_0000_0000_0000_0000,
                    shift == pow2(40),
                    pow2(72) == pow2(40) * 0x1_0000_0000,
                    pow2(104) == 0x1_0000_0000_0000_0000 * pow2(40),
            ;
        } else {
            assert(pow2(72) <= u * shift <= pow2(104)) by (nonlinear_arith)
                requires
                    1 <= u <= 0x1_0000_0000,
                    shift == pow2(72),
                    pow2(104) == 0x1_0000_0000 * pow2(72),
            ;
        }
    }
    let scaled: u128 = u * shift;
    proof {
        lemma_pow2_adds(52, 20);
        assert(scaled >= d * pow2(52)) by (nonlinear_arith)
            requires
                scaled >= pow2(52) * 0x10_0000,
                d <= 0x10_0000,
        ;
        lemma_quotient_at_least(scaled as nat, d as nat, pow2(52));
        lemma_shown_quotient(n as nat, u as nat, d as nat, scale as nat, s as nat);
    }
    let q: u128 = round_value(scaled, d as u128, 53);
    proof {
        assert(scale * q <= 100 * 0x100_0000_0000_0000_0000_0000_0000_0000) by (nonlinear_arith)
            requires
                scale <= 100,
                q <= 0x100_0000_0000_0000_0000_0000_0000_0000,
        ;
    }
    round_half_even(scale as u128 * q, shift)
}

/// Appends microseconds as seconds with one decimal place.
pub fn append_seconds(s: &mut String, us: u64)
    ensures
        final(s)@ == old(s)@ + seconds_text(us as nat),
{
    let t: u128 = quotient_digits(us, 1_000_000, 10);
    append_whole(s, t / 10);
    append_one_place(s, (t % 10) as u32);
    assert(s@ =~= old(s)@ + seconds_text(us as nat));
}

/// A finite number in units of `1 / scale`, rounded, as whole units of one and
/// the rest.
fn float_digits(x: Float32, scale: u32) -> (r: (u128, u32))
    requires
        x.finite(),
        0 < scale <= 100,
    ensures
        r.1 < scale,
        half_even(x.magnitude() * scale as nat, one()) == r.0 * scale + r.1,
{
    let (m, e): (u32, u32) = x.parts();
    proof {
        lemma2_to64();
        lemma_pow2_pos(e as nat);
        lemma_pow2_pos(149);
    }
    if e >= 149 {
        let shift: u32 = e - 149;
        let factor: u128 = power_of_two(shift);
        proof {
            lemma_pow2_adds(64, 40);
            lemma2_to64_rest();
            if shift < 104 {
                lemma_pow2_strictly_increases(shift as nat, 104);
            }
            assert(m * factor <= 0xFF_FFFF * (0x1_0000_0000_0000_0000 * 0x100_0000_0000))
                by (nonlinear_arith)
                requires
                    m <= 0xFF_FFFF,
                    factor <= 0x1_0000_0000_0000_0000 * 0x100_0000_0000,
            ;
            lemma_pow2_adds(shift as nat, 149);
            let w = m as nat * factor as nat;
            assert(x.magnitude() * scale as nat == (w * scale as nat) * one()) by (nonlinear_arith)
                requires
                    x.magnitude() == m * pow2(e as nat),
                    pow2(e as nat) == factor * one(),
                    w == m * factor,
            ;
            lemma_fundamental_div_mod_converse(
                (x.magnitude() * scale as nat) as int,
                one() as int,
                (w * scale as nat) as int,
                0,
            );
        }
        (m as u128 * factor, 0)
    } else {
        let drop: u32 = 149 - e;
        proof {
            assert(m * scale <= 0xFF_FFFF * 100) by (nonlinear_arith)
                requires
                    m <= 0xFF_FFFF,
                    scale <= 100,
            ;
        }
        let n: u128 = m as u128 * scale as u128;
        proof {
            lemma_pow2_adds(drop as nat, e as nat);
            lemma_pow2_pos(drop as nat);
            assert(x.magnitude() * scale as nat == (m * scale) * pow2(e as nat))
                by (nonlinear_arith)
                requires
                    x.magnitude() == m * pow2(e as nat),
            ;
            lemma_half_even_common_factor(n as nat, pow2(drop as nat), pow2(e as nat));
        }
        if drop >= 64 {
            proof {
                if drop > 64 {
                    lemma_pow2_strictly_increases(64, drop as nat);
                }
                lemma_fundamental_div_mod_converse(n as int, pow2(drop as nat) as int, 0, n as int);
            }
            return (0, 0);
        }
        let t: u128 = round_half_even(n, power_of_two(drop));
        proof {
            lemma_fundamental_div_mod(t as int, scale as int);
            assert((t / scale as u128) * scale == scale * (t / scale as u128)) by (nonlinear_arith);
        }
        (t / scale as u128, (t % scale as u128) as u32)
    }
}

/// Appends the sign of a negative number.
fn append_sign(s: &mut String, x: Float32)
    ensures
        final(s)@ == old(s)@ + sign_text(x),
{
    proof {
        reveal_strlit("-");
    }
    if x.to_bits() >= 0x8000_0000 {
        s.append("-");
    }
    assert(s@ =~= old(s)@ + sign_text(x));
}

/// Appends a finite number with one decimal place.
pub fn append_float_tenths(s: &mut String, x: Float32)
    requires
        x.finite(),
    ensures
        final(s)@ == old(s)@ + float_tenths_text(x),
{
    let (whole, rest): (u128, u32) = float_digits(x, 10);
    append_sign(s, x);
    append_whole(s, whole);
    append_one_place(s, rest);
    proof {
        let t = half_even(x.magnitude() * 10, one());
        lemma_fundamental_div_mod_converse(t as int, 10, whole as int, rest as int);
    }
    assert(s@ =~= old(s)@ + float_tenths_text(x));
}

/// Appends a finite number with two decimal places.
pub fn append_float_hundredths(s: &mut String, x: Float32)
    requires
        x.finite(),
    ensures
        final(s)@ == old(s)@ + float_hundredths_text(x),
{
    let (whole, rest): (u128, u32) = float_digits(x, 100);
    append_sign(s, x);
    append_whole(s, whole);
    append_one_place(s, rest / 10);
    s.append(digit_str(rest % 10));
    proof {
        let t = half_even(x.magnitude() * 100, one());
        lemma_fundamental_div_mod_converse(t as int, 100, whole as int, rest as int);
        assert(t / 10 % 10 == (rest / 10) as nat);
        assert(t % 10 == (rest % 10) as nat);
    }
    assert(s@ =~= old(s)@ + float_hundredths_text(x));
}

/// Texts one after the other, with a separator between them.
pub open spec fn joined(parts: Seq<Seq<char>>, separator: Seq<char>) -> Seq<char>
    decreases parts.len(),
{
    if parts.len() == 0 {
        seq![]
    } else if parts.len() == 1 {
        parts[0]
    } else {
        joined(parts.drop_last(), separator) + separator + parts.last()
    }
}

/// The contents of a list of texts.
pub open spec fn texts(list: Seq<String>) -> Seq<Seq<char>> {
    list.map_values(|s: String| s@)
}

/// Joins texts with a separator between them.
pub fn join(parts: &Vec<String>, separator: &str) -> (r: String)
    ensures
        r@ == joined(texts(parts@), separator@),
{
    let mut r: String = String::new();
    let mut i: usize = 0;
    let ghost all = texts(parts@);
    while i < parts.len()
        invariant
            i <= parts@.len(),
            all == texts(parts@),
            r@ == joined(all.take(i as int), separator@),
        decreases parts@.len() - i,
    {
        proof {
            assert(all.take(i as int + 1).drop_last() =~= all.take(i as int));
            assert(all.take(i as int + 1).last() == parts@[i as int]@);
        }
        if i > 0 {
            r.append(separator);
        }
        r.append(parts[i].as_str());
        proof {
            if i == 0 {
                assert(r@ =~= all.take(1)[0]);
            }
        }
        i = i + 1;
    }
    assert(all.take(parts@.len() as int) =~= all);
    r
}

/// The number that the digits of a text make, whatever point stands among them.
pub open spec fn numeral(text: Seq<char>) -> nat
    decreases text.len(),
{
    if text.len() == 0 {
        0
    } else if text.last() == '.' {
        numeral(text.drop_last())
    } else {
        (10 * numeral(text.drop_last()) + (text.last() as nat - 48)) as nat
    }
}

/// A text of digits alone, without a leading zero.
pub open spec fn plain_digits(text: Seq<char>) -> bool {
    &&& text.len() > 0
    &&& forall|i: int| 0 <= i < text.len() ==> '0' <= #[trigger] text[i] <= '9'
    &&& text.len() > 1 ==> text[0] != '0'
}

/// A whole number is written in digits that make it.
pub proof fn law_whole_text_reads_back(n: nat)
    ensures
        numeral(whole_text(n)) == n,
        plain_digits(whole_text(n)),
        n > 0 ==> whole_text(n)[0] != '0',
    decreases n,
{
    let text = whole_text(n);
    if n < 10 {
        assert(text.drop_last() =~= Seq::empty());
        assert(text.last() == digit(n));
        assert(numeral(text.drop_last()) == 0);
    } else {
        law_whole_text_reads_back(n / 10);
        assert(text.drop_last() =~= whole_text(n / 10));
        assert(text.last() == digit(n % 10));
        assert forall|i: int| 0 <= i < text.len() implies '0' <= #[trigger] text[i] <= '9' by {
            if i < text.len() - 1 {
                assert(text[i] == whole_text(n / 10)[i]);
            }
        }
        assert(text[0] == whole_text(n / 10)[0]);
    }
}

/// A text with one place shows `t` tenths.
pub open spec fn reads_tenths(text: Seq<char>, t: nat) -> bool {
    &&& text.len() >= 3
    &&& text[text.len() - 2] == '.'
    &&& plain_digits(text.take(text.len() - 2))
    &&& '0' <= text.last() <= '9'
    &&& numeral(text) == t
}

/// A text with two places shows `t` hundredths.
pub open spec fn reads_hundredths(text: Seq<char>, t: nat) -> bool {
    &&& text.len() >= 4
    &&& text[text.len() - 3] == '.'
    &&& plain_digits(text.take(text.len() - 3))
    &&& '0' <= text[text.len() - 2] <= '9'
    &&& '0' <= text.last() <= '9'
    &&& numeral(text) == t
}

/// Tenths are written with one digit behind the point.
pub proof fn law_tenths_text_reads_back(t: nat)
    ensures
        reads_tenths(tenths_text(t), t),
{
    let whole = whole_text(t / 10);
    let text = tenths_text(t);
    law_whole_text_reads_back(t / 10);
    assert(text.take(text.len() - 2) =~= whole);
    assert(text.drop_last() =~= whole.push('.'));
    assert(whole.push('.').drop_last() =~= whole);
    assert(numeral(whole.push('.')) == t / 10);
    assert(text.last() == digit(t % 10));
    assert(numeral(text) == 10 * numeral(text.drop_last()) + (digit(t % 10) as nat - 48));
}

/// Hundredths are written with two digits behind the point.
pub proof fn law_hundredths_text_reads_back(t: nat)
    ensures
        reads_hundredths(hundredths_text(t), t),
{
    let whole = whole_text(t / 100);
    let text = hundredths_text(t);
    law_whole_text_reads_back(t / 100);
    let tenths = digit(t / 10 % 10);
    assert(text.take(text.len() - 3) =~= whole);
    assert(text.drop_last() =~= whole.push('.').push(tenths));
    assert(whole.push('.').push(tenths).drop_last() =~= whole.push('.'));
    assert(whole.push('.').drop_last() =~= whole);
    assert(numeral(whole.push('.')) == t / 100);
    assert(numeral(whole.push('.').push(tenths)) == 10 * (t / 100) + (tenths as nat - 48));
    assert(text.last() == digit(t % 10));
    assert(text[text.len() - 2] == tenths);
    assert(numeral(text) == 10 * numeral(text.drop_last()) + (digit(t % 10) as nat - 48));
}

/// A number with one place is shown to the nearest tenth, with a minus sign
/// exactly if it has one.
pub proof fn law_float_tenths_are_nearest(x: Float32)
    ensures
        exists|t: nat, text: Seq<char>| #[trigger]
            reads_tenths(text, t) && float_tenths_text(x) == (if x.negative() {
                seq!['-']
            } else {
                seq![]
            }) + text && -(pow2(149) as int) <= 2 * (10 * x.magnitude() - pow2(149) * t) <= pow2(
                149,
            ),
{
    let t = half_even(x.magnitude() * 10, one());
    lemma_pow2_pos(149);
    law_half_even_is_nearest(x.magnitude() * 10, one());
    law_tenths_text_reads_back(t);
    assert(float_tenths_text(x) =~= (if x.negative() {
        seq!['-']
    } else {
        seq![]
    }) + tenths_text(t));
}

/// A number with two places is shown to the nearest hundredth, with a minus sign
/// exactly if it has one.
pub proof fn law_float_hundredths_are_nearest(x: Float32)
    ensures
        exists|t: nat, text: Seq<char>| #[trigger]
            reads_hundredths(text, t) && float_hundredths_text(x) == (if x.negative() {
                seq!['-']
            } else {
                seq![]
            }) + text && -(pow2(149) as int) <= 2 * (100 * x.magnitude() - pow2(149) * t) <= pow2(
                149,
            ),
{
    let t = half_even(x.magnitude() * 100, one());
    lemma_pow2_pos(149);
    law_half_even_is_nearest(x.magnitude() * 100, one());
    law_hundredths_text_reads_back(t);
    assert(float_hundredths_text(x) =~= (if x.negative() {
        seq!['-']
    } else {
        seq![]
    }) + hundredths_text(t));
}

/// A quotient is shown to the nearest place, as long as it has no more digits
/// than a double can tell apart.
pub proof fn law_shown_quotient_is_nearest(n: nat, d: nat, scale: nat)
    requires
        0 < d <= 0x10_0000,
        scale <= 100,
        scale * n <= pow2(50),
        n <= pow2(50),
    ensures
        -(d as int) <= 2 * (scale * n - d * shown_quotient(n, d, scale)) <= d,
{
    lemma2_to64();
    lemma2_to64_rest();
    lemma_pow2_pos(1074);
    lemma_pow2_adds(149, 925);
    lemma_pow2_adds(53, 1021);
    lemma_pow2_pos(1021);
    let unit = pow2(1074);
    lemma_round_exact(n, 149, 53);
    assert(n * one() <= pow2(53) * one()) by (nonlinear_arith)
        requires
            n <= pow2(53),
    ;
    let u = round_quotient(n * one(), 1, 53);
    assert(u == n * one());
    assert(u * pow2(925) == n * unit) by (nonlinear_arith)
        requires
            u == n * one(),
            unit == one() * pow2(925),
    ;
    let x = double_quotient(u, d);
    law_rounding_is_close(n * unit, d, 53);
    law_half_even_is_nearest(scale * x, unit);
    let t = shown_quotient(n, d, scale);
    let e1 = n * unit - d * x;
    let e2 = scale * x - unit * t;
    // scale * e1 + d * e2 == unit * (scale * n - d * t)
    let gap = scale * n - d * t;
    assert(scale * e1 + d * e2 == unit * gap) by (nonlinear_arith)
        requires
            e1 == n * unit - d * x,
            e2 == scale * x - unit * t,
            gap == scale * n - d * t,
    ;
    assert(-(d * unit) <= 2 * (d * e2) <= d * unit) by (nonlinear_arith)
        requires
            -unit <= 2 * e2 <= unit,
            d > 0,
    ;
    // The quotient is off by less than half a unit.
    assert(-unit < 2 * (scale * e1) < unit) by {
        if -(d as int) <= 2 * e1 <= d {
            assert(-0x640_0000 <= 2 * (scale * e1) <= 0x640_0000) by (nonlinear_arith)
                requires
                    -(d as int) <= 2 * e1 <= d,
                    d <= 0x10_0000,
                    0 <= scale <= 100,
            ;
        } else {
            let whole = scale * n;
            assert(-(whole * unit) <= pow2(53) * (scale * e1) <= whole * unit) by (nonlinear_arith)
                requires
                    -(n * unit) <= pow2(53) * e1 <= n * unit,
                    whole == scale * n,
                    scale >= 0,
            ;
            assert(whole * unit <= pow2(50) * unit) by (nonlinear_arith)
                requires
                    whole <= pow2(50),
            ;
        }
    }
    assert(-(d as int) <= 2 * gap <= d) by (nonlinear_arith)
        requires
            -(d * unit) - unit < 2 * (unit * gap) < d * unit + unit,
            unit > 0,
    ;
}

/// Microseconds are shown as seconds, to the nearest tenth.
pub proof fn law_seconds_are_nearest(us: nat)
    requires
        us <= 100_000_000_000_000,
    ensures
        exists|t: nat| #[trigger]
            reads_tenths(seconds_text(us), t) && -50_000 <= us - 100_000 * t <= 50_000,
{
    lemma2_to64();
    lemma2_to64_rest();
    law_shown_quotient_is_nearest(us, 1_000_000, 10);
    let t = shown_quotient(us, 1_000_000, 10);
    law_tenths_text_reads_back(t);
    assert(reads_tenths(seconds_text(us), t));
    assert(-1_000_000 <= 2 * (10 * us - 1_000_000 * t) <= 1_000_000);
}

} // verus!
