use flight_diagnostics::battery_brownout::BatteryBrownoutAnalyzer;
use flight_diagnostics::decimal::{
    append_float_hundredths, append_float_tenths, append_seconds, append_whole, join,
    quotient_digits,
};
use flight_diagnostics::double_sum::DoubleSum;
use flight_diagnostics::float32::Float32;
use flight_diagnostics::rounding::{power_of_two, round_half_even, round_to_bits, round_value};

fn single(x: f32) -> Float32 {
    Float32::from_bits(x.to_bits())
}

fn native(x: Float32) -> f32 {
    f32::from_bits(x.to_bits())
}

/// A small generator of well spread 64-bit patterns.
struct Patterns {
    state: u64,
}

impl Patterns {
    fn new(seed: u64) -> Self {
        Patterns { state: seed }
    }

    fn next(&mut self) -> u64 {
        self.state = self.state.wrapping_add(0x9E37_79B9_7F4A_7C15);
        let mut z = self.state;
        z = (z ^ (z >> 30)).wrapping_mul(0xBF58_476D_1CE4_E5B9);
        z = (z ^ (z >> 27)).wrapping_mul(0x94D0_49BB_1331_11EB);
        z ^ (z >> 31)
    }
}

fn edge_values() -> Vec<f32> {
    vec![
        0.0,
        -0.0,
        1.0,
        -1.0,
        1.5,
        2.0,
        5.0,
        10.0,
        0.05,
        0.25,
        0.75,
        0.125,
        -0.04,
        -0.06,
        1900.0,
        1899.9999,
        16777215.0,
        16777216.0,
        123456.78,
        1.0e-45,
        1.0e-40,
        f32::MIN_POSITIVE,
        f32::MAX,
        f32::MIN,
        3.4e38,
        f32::INFINITY,
        f32::NEG_INFINITY,
        f32::NAN,
    ]
}

fn seconds(us: u64) -> String {
    let mut s = String::new();
    append_seconds(&mut s, us);
    s
}

fn tenths(x: f32) -> String {
    let mut s = String::new();
    append_float_tenths(&mut s, single(x));
    s
}

fn hundredths(x: f32) -> String {
    let mut s = String::new();
    append_float_hundredths(&mut s, single(x));
    s
}

#[test]
fn half_even_rounds_ties_to_the_even_neighbour() {
    assert_eq!(round_half_even(5, 10), 0);
    assert_eq!(round_half_even(15, 10), 2);
    assert_eq!(round_half_even(25, 10), 2);
    assert_eq!(round_half_even(26, 10), 3);
    assert_eq!(round_half_even(24, 10), 2);
    assert_eq!(round_half_even(u128::MAX, 1), u128::MAX);
}

#[test]
fn powers_of_two() {
    assert_eq!(power_of_two(0), 1);
    assert_eq!(power_of_two(127), 1u128 << 127);
}

#[test]
fn rounding_to_bits_agrees_with_conversion_to_double() {
    let mut patterns = Patterns::new(1);
    for i in 0..20_000u32 {
        let n = patterns.next() >> (i % 64);
        assert_eq!(round_value(n as u128, 1, 53), (n as f64) as u128);
        assert_eq!(round_value(n as u128, 1, 24), (n as f32) as u128);
        let (m, k) = round_to_bits(n as u128, 1, 53);
        assert_eq!(m << k, (n as f64) as u128);
    }
}

#[test]
fn comparison_agrees_with_native_comparison() {
    let mut values = edge_values();
    let mut patterns = Patterns::new(2);
    for _ in 0..400 {
        values.push(f32::from_bits(patterns.next() as u32));
    }
    for a in &values {
        for b in &values {
            assert_eq!(single(*a).less_than(single(*b)), *a < *b, "{} < {}", a, b);
        }
        assert_eq!(single(*a).is_finite(), a.is_finite());
        assert_eq!(single(*a).is_nan(), a.is_nan());
    }
}

#[test]
fn encoding_is_exact_up_to_infinity() {
    assert_eq!(native(Float32::encode(0, 0)), 0.0);
    assert_eq!(native(Float32::encode(1, 0)).to_bits(), 1);
    assert_eq!(native(Float32::encode(0x80_0000, 126)), 1.0);
    assert_eq!(native(Float32::encode(0x100_0000, 125)), 1.0);
    assert_eq!(native(Float32::encode(0xFF_FFFF, 253)), f32::MAX);
    assert_eq!(native(Float32::encode(0x100_0000, 253)), f32::INFINITY);
    assert_eq!(native(Float32::encode(0x80_0000, 400)), f32::INFINITY);
}

#[test]
fn parts_rebuild_the_number() {
    let mut patterns = Patterns::new(3);
    for _ in 0..2_000 {
        let x = f32::from_bits(patterns.next() as u32 % 0x7F80_0000);
        let (m, e) = single(x).parts();
        assert_eq!(native(Float32::encode(m as u128, e)), x);
    }
}

#[test]
fn sums_agree_with_native_doubles() {
    let mut patterns = Patterns::new(4);
    for round in 0..3_000 {
        let mut sum = DoubleSum::zero();
        let mut expected: f64 = 0.0;
        for _ in 0..10 {
            let bits = match round % 3 {
                // Any finite number.
                0 => patterns.next() as u32,
                // Numbers of similar size and any sign.
                1 => (patterns.next() as u32 & 0x81FF_FFFF) | 0x3800_0000,
                // Small positive numbers.
                _ => (patterns.next() as u32 & 0x00FF_FFFF) | 0x3F00_0000,
            };
            let x = f32::from_bits(bits);
            if x.is_finite() {
                sum.add(single(x));
                expected += x as f64;
            }
        }
        let mean = (expected / 10.0) as f32;
        assert_eq!(native(sum.tenth()).to_bits(), mean.to_bits());
    }
}

#[test]
fn sums_that_cancel_or_underflow() {
    let mut sum = DoubleSum::zero();
    assert_eq!(native(sum.tenth()).to_bits(), 0);
    sum.add(single(1.5));
    sum.add(single(-1.5));
    assert_eq!(native(sum.tenth()).to_bits(), 0);
    // A tenth of the smallest negative number is a negative zero.
    sum.add(single(-f32::from_bits(1)));
    assert_eq!(native(sum.tenth()).to_bits(), 0x8000_0000);
    // A small term vanishes beside a large one.
    let mut large = DoubleSum::zero();
    large.add(single(f32::MAX));
    large.add(single(1.0));
    large.add(single(-f32::MAX));
    assert_eq!(native(large.tenth()), 0.0);
    // Ten times the largest number divides back to it.
    let mut full = DoubleSum::zero();
    for _ in 0..10 {
        full.add(single(f32::MAX));
    }
    assert_eq!(native(full.tenth()), f32::MAX);
}

#[test]
fn seconds_text_agrees_with_native_formatting() {
    assert_eq!(seconds(0), "0.0");
    assert_eq!(seconds(1_500_000), "1.5");
    assert_eq!(seconds(250_000), "0.2");
    assert_eq!(seconds(750_000), "0.8");
    assert_eq!(seconds(2_000_000), "2.0");
    assert_eq!(seconds(999_999), "1.0");
    let mut patterns = Patterns::new(5);
    for i in 0..20_000u32 {
        let n = patterns.next() >> (i % 64);
        assert_eq!(seconds(n), format!("{:.1}", n as f64 / 1_000_000.0), "{}", n);
        // Halfway cases, exact in decimal but not in binary.
        let tie = (n >> 20) * 100_000 + 50_000;
        assert_eq!(seconds(tie), format!("{:.1}", tie as f64 / 1_000_000.0), "{}", tie);
    }
    assert_eq!(seconds(u64::MAX), format!("{:.1}", u64::MAX as f64 / 1_000_000.0));
}

#[test]
fn satellite_mean_text_agrees_with_native_formatting() {
    for sum in 0..=2550u64 {
        let shown = quotient_digits(sum, 10, 1);
        assert_eq!(format!("{}", shown), format!("{:.0}", sum as f64 / 10.0), "{}", sum);
    }
}

#[test]
fn float_text_agrees_with_native_formatting() {
    let mut values = edge_values();
    let mut patterns = Patterns::new(6);
    for i in 0..20_000u32 {
        values.push(f32::from_bits(patterns.next() as u32));
        values.push((i as f32) / 8.0);
        values.push((i as f32) / 20.0);
        values.push(-(i as f32) / 200.0);
    }
    for x in values {
        if x.is_finite() {
            assert_eq!(tenths(x), format!("{:.1}", x));
            assert_eq!(hundredths(x), format!("{:.2}", x));
        }
    }
    assert_eq!(tenths(13.2), "13.2");
    assert_eq!(hundredths(12.5), "12.50");
    assert_eq!(tenths(-0.04), "-0.0");
}

#[test]
fn whole_numbers_are_written_in_full() {
    let mut s = String::new();
    append_whole(&mut s, 0);
    append_whole(&mut s, 10);
    append_whole(&mut s, u128::MAX);
    assert_eq!(s, format!("{}{}{}", 0, 10, u128::MAX));
}

#[test]
fn joining_puts_the_separator_between() {
    let none: Vec<String> = vec![];
    assert_eq!(join(&none, ", "), "");
    assert_eq!(join(&vec!["a".to_string()], ", "), "a");
    let three = vec!["a".to_string(), "b".to_string(), "c".to_string()];
    assert_eq!(join(&three, ", "), "a, b, c");
}

#[test]
fn cell_estimate_agrees_with_native_arithmetic() {
    let mut values = edge_values();
    let mut patterns = Patterns::new(7);
    for i in 0..40_000u32 {
        values.push(f32::from_bits(patterns.next() as u32));
        values.push(i as f32 / 512.0);
    }
    // Around each change of the estimate.
    for k in 1..14u32 {
        let edge = ((k as f32) - 0.5) * 4.2;
        for step in 0..40u32 {
            values.push(f32::from_bits(edge.to_bits() - 20 + step));
        }
    }
    for v in values {
        let expected = ((v / 4.2f32).round() as u8).clamp(1, 12);
        assert_eq!(BatteryBrownoutAnalyzer::estimate_cell_count(single(v)), expected, "{}", v);
    }
}

#[test]
fn critical_threshold_agrees_with_native_arithmetic() {
    for cells in 1..=12u8 {
        let full = cells as f32 * 4.2;
        let mut analyzer = BatteryBrownoutAnalyzer::new();
        analyzer.vehicle_status(Some(2));
        analyzer.battery_status(1_000_000, Some(single(full)), None);
        analyzer.battery_status(40_000_000, Some(single(0.5)), None);
        let diags = Box::new(analyzer).finish();
        assert_eq!(diags.len(), 1);
        match &diags[0].evidence {
            flight_diagnostics::diagnostic::Evidence::BatteryBrownout {
                critical_threshold_v,
                ..
            } => assert_eq!(native(*critical_threshold_v), cells as f32 * 3.3),
            _ => panic!("Expected BatteryBrownout evidence"),
        }
        let expected = format!(
            "Battery voltage {:.2}V below critical threshold {:.1}V at {:.1}s ({}S)",
            0.5f32,
            cells as f32 * 3.3f32,
            40.0f64,
            cells
        );
        assert_eq!(diags[0].summary, expected);
    }
}
