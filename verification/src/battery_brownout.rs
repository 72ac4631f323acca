//! Battery brownout detection analyzer.
//!
//! Detects dangerously low battery voltage during armed flight. Estimates the
//! cell count from the first usable voltage and flags when the voltage drops
//! below the critical threshold for that many cells.
use crate::decimal::{
    append_float_hundredths, append_float_tenths, append_seconds, append_whole,
    float_hundredths_text, float_tenths_text, seconds_text, whole_text,
};
use crate::diagnostic::{
    findings, last_timestamp, report, spaced, AnomalyKind, Diagnostic, DiagnosticView, Evidence,
    EvidenceView, FieldUnit, OutputDescriptor, PlotAnchor, PlotAnchorView, Severity,
};
use crate::float32::{lemma_encoding, lemma_magnitude_order, one, Float32};
use crate::message::{
    byte_field, byte_readable, float_field, float_field_or, float_or_readable, float_readable,
    is_byte_readable, is_float_or_readable, is_timestamp_readable, law_whole_message_is_readable,
    read_byte, read_float_or, read_timestamp, same_text, timestamp_readable, timestamp_us, topic,
    topic_of, whole,
};
use crate::rounding::{
    excess_bits, half_even, law_rounding_is_close, lemma_excess_bits_bounds,
    lemma_quotient_at_least, lemma_quotient_below, lemma_round_quotient_at_least,
    lemma_round_quotient_at_most, lemma_round_quotient_common_factor,
    lemma_round_quotient_monotone, lemma_round_quotient_scale, lemma_significand_bounds,
    power_of_two, round_quotient, round_to_bits, round_value,
};
use crate::vehicle_status::{armed_after, next_armed};
use px4_ulog::stream_parser::model::DataMessage;
use vstd::arithmetic::div_mod::{
    lemma_div_is_ordered, lemma_fundamental_div_mod, lemma_fundamental_div_mod_converse,
    lemma_mod_bound,
};
use vstd::arithmetic::power2::{
    lemma2_to64, lemma2_to64_rest, lemma_pow2_adds, lemma_pow2_pos,
    lemma_pow2_strictly_increases, pow2,
};
use vstd::prelude::*;
use vstd::string::StringExecFns;

verus! {

/// Bits of the critical voltage per cell, 3.3 V.
pub const CRITICAL_VOLTAGE_PER_CELL_BITS: u32 = 0x4053_3333;

/// Bits of the nominal voltage of a full cell, 4.2 V, for the estimate of the
/// cell count.
pub const NOMINAL_FULL_VOLTAGE_PER_CELL_BITS: u32 = 0x4086_6666;

/// Minimum time (microseconds) between detections. It is high to avoid
/// flooding: one detection per brownout is enough.
pub const DEDUP_INTERVAL_US: u64 = 30_000_000;

/// The fewest cells that are assumed.
pub const MIN_CELLS: u8 = 1;

/// The most cells that are assumed.
pub const MAX_CELLS: u8 = 12;

/// The voltage per nominal full cell, rounded to single precision, in units.
pub open spec fn full_cells(voltage: Float32) -> nat {
    round_quotient(
        voltage.magnitude() * one(),
        (Float32 { bits: NOMINAL_FULL_VOLTAGE_PER_CELL_BITS }).magnitude(),
        24,
    )
}

/// The number of cells that a voltage suggests: the voltage over that of a full
/// cell, to the nearest whole number with halves upwards, kept between one cell
/// and twelve.
pub open spec fn cell_estimate(voltage: Float32) -> u8 {
    let cells = (2 * full_cells(voltage) + one()) / (2 * one());
    if voltage.nan() || voltage.negative() || cells < MIN_CELLS {
        MIN_CELLS
    } else if cells > MAX_CELLS {
        MAX_CELLS
    } else {
        cells as u8
    }
}

/// The critical voltage of a battery: the product, rounded to single precision.
pub open spec fn critical_threshold(cells: u8) -> Float32 {
    Float32::nearest(
        cells as nat * (Float32 { bits: CRITICAL_VOLTAGE_PER_CELL_BITS }).magnitude(),
        1,
    )
}

/// The two voltages of a cell in units.
proof fn lemma_cell_voltages()
    ensures
        (Float32 { bits: NOMINAL_FULL_VOLTAGE_PER_CELL_BITS }).magnitude() == 8_808_038 * pow2(128),
        (Float32 { bits: CRITICAL_VOLTAGE_PER_CELL_BITS }).magnitude() == 13_841_203 * pow2(127),
{
}

/// A voltage under four volts is one cell at most.
proof fn lemma_few_cells(voltage: Float32)
    requires
        !voltage.nan(),
        !voltage.negative(),
        voltage.magnitude() < pow2(151),
    ensures
        cell_estimate(voltage) == MIN_CELLS,
{
    lemma_cell_voltages();
    lemma2_to64();
    lemma_pow2_adds(23, 128);
    lemma_pow2_pos(128);
    lemma_pow2_pos(149);
    let v = voltage.magnitude();
    let d: nat = 8_808_038 * pow2(128);
    assert(v <= d);
    assert(1 * pow2(149) == pow2(149));
    assert(v * one() <= d * (1 * pow2(149))) by (nonlinear_arith)
        requires
            v <= d,
            one() == pow2(149),
    ;
    lemma_round_quotient_at_most(v * one(), d, 24, 1, 149);
    let n = 2 * full_cells(voltage) + one();
    assert(n < (2 * one()) * 2);
    lemma_quotient_below(n, 2 * one(), 2);
}

/// A voltage of 64 volts or more is more than twelve cells.
proof fn lemma_many_cells(voltage: Float32)
    requires
        !voltage.nan(),
        !voltage.negative(),
        voltage.magnitude() >= pow2(155),
    ensures
        cell_estimate(voltage) == MAX_CELLS,
{
    lemma_cell_voltages();
    lemma2_to64();
    lemma_pow2_adds(27, 128);
    lemma_pow2_pos(128);
    lemma_pow2_pos(149);
    let v = voltage.magnitude();
    let d: nat = 8_808_038 * pow2(128);
    assert(v >= 12 * d);
    assert(v * one() >= d * (12 * pow2(149))) by (nonlinear_arith)
        requires
            v >= 12 * d,
            one() == pow2(149),
    ;
    lemma_round_quotient_at_least(v * one(), d, 24, 12, 149);
    let n = 2 * full_cells(voltage) + one();
    assert(n >= (2 * one()) * 12);
    lemma_quotient_at_least(n, 2 * one(), 12);
}

/// A voltage between, in terms of a numerator that fits a machine integer.
proof fn lemma_some_cells(voltage: Float32, n: nat, q: nat)
    requires
        voltage.magnitude() == n * pow2(128),
        0x80_0000 <= n < 0x800_0000,
        q == round_quotient(n * pow2(40), 8_808_038, 24),
    ensures
        (2 * full_cells(voltage) + one()) / (2 * one()) == (q + pow2(39)) / pow2(40),
{
    lemma_cell_voltages();
    lemma2_to64();
    lemma2_to64_rest();
    lemma_pow2_pos(128);
    lemma_pow2_pos(109);
    let d: nat = 8_808_038;
    // Cancel 2^128, then scale 2^149 down to 2^40.
    assert(voltage.magnitude() * one() == (n * one()) * pow2(128)) by (nonlinear_arith)
        requires
            voltage.magnitude() == n * pow2(128),
    ;
    lemma_round_quotient_common_factor(n * one(), d, 24, pow2(128));
    lemma_pow2_adds(40, 109);
    assert(n * one() == (n * pow2(40)) * pow2(109)) by (nonlinear_arith)
        requires
            one() == pow2(40) * pow2(109),
    ;
    assert(n * pow2(40) >= d * pow2(23)) by (nonlinear_arith)
        requires
            n >= 0x80_0000,
            d == 8_808_038,
            pow2(40) == 0x100_0000_0000,
            pow2(23) == 0x80_0000,
    ;
    lemma_quotient_at_least(n * pow2(40), d, pow2(23));
    lemma_round_quotient_scale(n * pow2(40), d, 24, 109);
    assert(full_cells(voltage) == q * pow2(109));
    // (2 q 2^109 + 2^149) / 2^150 == (q + 2^39) / 2^40
    lemma_pow2_adds(39, 110);
    lemma_pow2_adds(40, 110);
    lemma_pow2_adds(1, 109);
    lemma_pow2_adds(1, 149);
    lemma_pow2_pos(110);
    let a = q + pow2(39);
    let c = pow2(110);
    assert(2 * (q * pow2(109)) + one() == a * c) by (nonlinear_arith)
        requires
            c == 2 * pow2(109),
            one() == pow2(39) * c,
            a == q + pow2(39),
    ;
    assert(2 * one() == pow2(40) * c);
    let b = pow2(40);
    let x = a / b;
    lemma_fundamental_div_mod(a as int, b as int);
    lemma_mod_bound(a as int, b as int);
    let r = a % b;
    assert(a * c == x * (b * c) + r * c) by (nonlinear_arith)
        requires
            a == b * x + r,
    ;
    assert(0 <= r * c < b * c) by (nonlinear_arith)
        requires
            0 <= r < b,
            c > 0,
    ;
    lemma_fundamental_div_mod_converse(
        (a * c) as int,
        (b * c) as int,
        x as int,
        (r * c) as int,
    );
}

/// The fields of the analyzer's evidence.
pub open spec fn battery_brownout_descriptor() -> Seq<(Seq<char>, FieldUnit)> {
    seq![
        ("voltage_v"@, FieldUnit::Volts),
        ("critical_threshold_v"@, FieldUnit::Volts),
        ("current_a"@, FieldUnit::Amps),
    ]
}

/// Detects low battery voltage while the vehicle is armed.
pub struct BatteryBrownoutAnalyzer {
    armed: bool,
    cell_count: Option<u8>,
    critical_threshold_v: Float32,
    last_detection_us: u64,
    detections: Vec<Diagnostic>,
}

/// What a [`BatteryBrownoutAnalyzer`] has seen and reported.
pub struct BatteryBrownoutState {
    /// The vehicle is armed.
    pub armed: bool,
    /// The estimated number of cells, once there was a usable voltage.
    pub cell_count: Option<u8>,
    /// The critical voltage for that many cells.
    pub critical_threshold_v: Float32,
    /// When the last finding was reported, 0 before the first.
    pub last_detection_us: u64,
    /// The findings so far.
    pub detections: Seq<DiagnosticView>,
}

/// A voltage reading that says something: finite and positive.
pub open spec fn usable(voltage: Float32) -> bool {
    voltage.finite() && voltage.value() > 0
}

/// A finding is a critical one at a moment, and tells of a positive voltage
/// below the threshold.
pub open spec fn sound(d: DiagnosticView) -> bool {
    &&& d.id == "battery_brownout"@
    &&& d.severity == Severity::Critical
    &&& d.kind == AnomalyKind::Point
    &&& d.end_timestamp_us is None
    &&& d.evidence matches EvidenceView::BatteryBrownout { voltage_v, critical_threshold_v, .. }
        && voltage_v.value() > 0 && voltage_v.lt(critical_threshold_v)
}

impl BatteryBrownoutState {
    /// The state of an analyzer that has seen nothing.
    pub open spec fn initial() -> BatteryBrownoutState {
        BatteryBrownoutState {
            armed: false,
            cell_count: None,
            critical_threshold_v: Float32 { bits: 0 },
            last_detection_us: 0,
            detections: seq![],
        }
    }

    /// The threshold belongs to the cell count, which is a plausible one; the
    /// findings are sound and keep their distance from each other.
    pub open spec fn wf(self) -> bool {
        &&& match self.cell_count {
            Some(cells) => MIN_CELLS <= cells <= MAX_CELLS && self.critical_threshold_v
                == critical_threshold(cells),
            None => self.critical_threshold_v == (Float32 { bits: 0 }) && self.detections.len()
                == 0,
        }
        &&& self.last_detection_us == last_timestamp(self.detections)
        &&& spaced(self.detections, DEDUP_INTERVAL_US as nat)
        &&& forall|i: int| 0 <= i < self.detections.len() ==> sound(#[trigger] self.detections[i])
    }

    /// The cell count once a usable voltage was read: the first one settles it.
    pub open spec fn cells(self, voltage: Float32) -> u8 {
        match self.cell_count {
            Some(cells) => cells,
            None => cell_estimate(voltage),
        }
    }

    /// The critical voltage once a usable voltage was read.
    pub open spec fn threshold(self, voltage: Float32) -> Float32 {
        match self.cell_count {
            Some(_) => self.critical_threshold_v,
            None => critical_threshold(cell_estimate(voltage)),
        }
    }

    /// There is a finding already, and it is too recent for another one. A
    /// message without a timestamp is never too early.
    pub open spec fn recent(self, ts: u64) -> bool {
        self.detections.len() > 0 && ts > 0 && ts - self.last_detection_us < DEDUP_INTERVAL_US
    }

    /// A reading of the voltage calls for a finding.
    pub open spec fn due(self, ts: u64, voltage: Float32) -> bool {
        &&& self.armed
        &&& usable(voltage)
        &&& !self.recent(ts)
        &&& voltage.lt(self.threshold(voltage))
    }

    /// The finding for a reading.
    pub open spec fn finding(
        self,
        ts: u64,
        voltage: Float32,
        current: Option<Float32>,
    ) -> DiagnosticView {
        let threshold = self.threshold(voltage);
        DiagnosticView {
            id: "battery_brownout"@,
            summary: "Battery voltage "@ + float_hundredths_text(voltage)
                + "V below critical threshold "@ + float_tenths_text(threshold) + "V at "@
                + seconds_text(ts as nat) + "s ("@ + whole_text(self.cells(voltage) as nat)
                + "S)"@,
            severity: Severity::Critical,
            kind: AnomalyKind::Point,
            timestamp_us: ts,
            end_timestamp_us: None,
            anchor: PlotAnchorView { topic: "battery_status"@, field: "voltage_v"@ },
            descriptor: battery_brownout_descriptor(),
            evidence: EvidenceView::BatteryBrownout {
                voltage_v: voltage,
                critical_threshold_v: threshold,
                current_a: current,
            },
        }
    }

    /// The state after a `vehicle_status` message.
    pub open spec fn after_vehicle_status(self, arming_state: Option<u8>) -> BatteryBrownoutState {
        BatteryBrownoutState { armed: armed_after(self.armed, arming_state), ..self }
    }

    /// The state after a `battery_status` message.
    pub open spec fn after_battery_status(
        self,
        ts: u64,
        voltage: Option<Float32>,
        current: Option<Float32>,
    ) -> BatteryBrownoutState {
        match voltage {
            Some(v) if usable(v) => BatteryBrownoutState {
                armed: self.armed,
                cell_count: Some(self.cells(v)),
                critical_threshold_v: self.threshold(v),
                last_detection_us: if self.due(ts, v) {
                    ts
                } else {
                    self.last_detection_us
                },
                detections: if self.due(ts, v) {
                    self.detections.push(self.finding(ts, v, current))
                } else {
                    self.detections
                },
            },
            _ => self,
        }
    }

    /// Time has not run back behind the last finding, as far as the analyzer
    /// looks at the time.
    pub open spec fn in_order(self, ts: u64, voltage: Option<Float32>) -> bool {
        voltage matches Some(v) ==> self.armed && usable(v) && ts > 0 ==> ts
            >= self.last_detection_us
    }

    /// The state after a message.
    pub open spec fn after_message(self, data: DataMessage<'_>) -> BatteryBrownoutState {
        if topic_of(data) == "vehicle_status"@ {
            self.after_vehicle_status(byte_field(data, "arming_state"@))
        } else if topic_of(data) == "battery_status"@ {
            self.after_battery_status(
                timestamp_us(data),
                battery_voltage(data),
                battery_current(data),
            )
        } else {
            self
        }
    }

    /// What the analyzer reads of a message lies within the message, and time
    /// has not run back.
    pub open spec fn accepts(self, data: DataMessage<'_>) -> bool {
        if topic_of(data) == "vehicle_status"@ {
            byte_readable(data, "arming_state"@)
        } else if topic_of(data) == "battery_status"@ {
            &&& float_or_readable(data, "voltage_v"@, "voltage_filtered_v"@)
            &&& battery_voltage(data) matches Some(v) ==> self.armed && usable(v) ==> {
                &&& timestamp_readable(data)
                &&& self.in_order(timestamp_us(data), Some(v))
                &&& self.due(timestamp_us(data), v) ==> float_or_readable(
                    data,
                    "current_a"@,
                    "current_filtered_a"@,
                )
            }
        } else {
            true
        }
    }
}

/// The voltage that a message gives: the measured one, or else the filtered one.
pub open spec fn battery_voltage(data: DataMessage<'_>) -> Option<Float32> {
    float_field_or(data, "voltage_v"@, "voltage_filtered_v"@)
}

/// The current that a message gives: the measured one, or else the filtered one.
pub open spec fn battery_current(data: DataMessage<'_>) -> Option<Float32> {
    float_field_or(data, "current_a"@, "current_filtered_a"@)
}

/// The time counts only for a usable voltage in armed flight, and the current
/// only where a finding is due.
proof fn lemma_unread(
    s: BatteryBrownoutState,
    ts: u64,
    current: Option<Float32>,
    other_ts: u64,
    other_current: Option<Float32>,
    v: Float32,
)
    requires
        s.armed && usable(v) ==> ts == other_ts,
        s.due(other_ts, v) ==> current == other_current,
    ensures
        s.after_battery_status(ts, Some(v), current) == s.after_battery_status(
            other_ts,
            Some(v),
            other_current,
        ),
{
}

impl View for BatteryBrownoutAnalyzer {
    type V = BatteryBrownoutState;

    closed spec fn view(&self) -> BatteryBrownoutState {
        BatteryBrownoutState {
            armed: self.armed,
            cell_count: self.cell_count,
            critical_threshold_v: self.critical_threshold_v,
            last_detection_us: self.last_detection_us,
            detections: findings(self.detections@),
        }
    }
}

impl Default for BatteryBrownoutAnalyzer {
    fn default() -> (r: BatteryBrownoutAnalyzer)
        ensures
            r@ == BatteryBrownoutState::initial(),
            r@.wf(),
    {
        BatteryBrownoutAnalyzer::new()
    }
}

impl BatteryBrownoutAnalyzer {
    /// An analyzer that has seen nothing.
    pub fn new() -> (r: BatteryBrownoutAnalyzer)
        ensures
            r@ == BatteryBrownoutState::initial(),
            r@.wf(),
    {
        let r: BatteryBrownoutAnalyzer = BatteryBrownoutAnalyzer {
            armed: false,
            cell_count: None,
            critical_threshold_v: Float32::from_bits(0),
            last_detection_us: 0,
            detections: Vec::new(),
        };
        assert(r@.detections =~= seq![]);
        r
    }

    /// Estimates the number of cells from a voltage.
    pub fn estimate_cell_count(voltage: Float32) -> (r: u8)
        ensures
            r == cell_estimate(voltage),
            MIN_CELLS <= r <= MAX_CELLS,
    {
        let bits: u32 = voltage.to_bits();
        if voltage.is_nan() || bits >= 0x8000_0000 {
            return MIN_CELLS;
        }
        proof {
            lemma2_to64();
            lemma2_to64_rest();
        }
        let ghost four = Float32 { bits: 0x4080_0000 };
        let ghost sixty_four = Float32 { bits: 0x4280_0000 };
        proof {
            lemma_pow2_adds(23, 128);
            lemma_pow2_adds(23, 132);
            assert(four.magnitude() == pow2(151));
            assert(sixty_four.magnitude() == pow2(155));
            lemma_magnitude_order(voltage, four);
            lemma_magnitude_order(voltage, sixty_four);
        }
        if bits < 0x4080_0000 {
            proof {
                lemma_few_cells(voltage);
            }
            return MIN_CELLS;
        }
        if bits >= 0x4280_0000 {
            proof {
                lemma_many_cells(voltage);
            }
            return MAX_CELLS;
        }
        let (m, e): (u32, u32) = voltage.parts();
        assert(128 <= e <= 131);
        let factor: u128 = power_of_two(e - 128);
        proof {
            lemma_pow2_adds((e - 128) as nat, 128);
            assert(1 <= factor <= 8);
            assert(0x80_0000 <= m * factor < 0x800_0000) by (nonlinear_arith)
                requires
                    0x80_0000 <= m < 0x100_0000,
                    1 <= factor <= 8,
            ;
            assert(m * pow2(e as nat) == (m * factor) * pow2(128)) by (nonlinear_arith)
                requires
                    pow2(e as nat) == factor * pow2(128),
            ;
        }
        let n: u128 = m as u128 * factor;
        let q: u128 = round_value(n * 0x100_0000_0000, 8_808_038, 24);
        let cells: u128 = (q + 0x80_0000_0000) / 0x100_0000_0000;
        proof {
            lemma_some_cells(voltage, n as nat, q as nat);
        }
        if cells < MIN_CELLS as u128 {
            MIN_CELLS
        } else if cells > MAX_CELLS as u128 {
            MAX_CELLS
        } else {
            cells as u8
        }
    }

    /// The critical voltage of a battery with that many cells.
    fn threshold_for(cells: u8) -> (r: Float32)
        requires
            MIN_CELLS <= cells <= MAX_CELLS,
        ensures
            r == critical_threshold(cells),
            r.finite(),
    {
        let n: u128 = cells as u128 * 13_841_203;
        let (m, k): (u128, u32) = round_to_bits(n, 1, 24);
        proof {
            lemma2_to64();
            lemma_cell_voltages();
            assert(n as nat / 1 == n as nat);
            lemma_excess_bits_bounds(n as nat, 24);
            if k > 5 {
                lemma_pow2_strictly_increases(28, (23 + k) as nat);
            }
            assert(k <= 4);
            assert(cells as nat * (13_841_203 * pow2(127)) == n as nat * pow2(127))
                by (nonlinear_arith)
                requires
                    n == cells * 13_841_203,
            ;
            lemma_round_quotient_scale(n as nat, 1, 24, 127);
            lemma_pow2_adds(k as nat, 127);
            assert((m * pow2(k as nat)) * pow2(127) == m * pow2((k + 127) as nat))
                by (nonlinear_arith)
                requires
                    pow2((k + 127) as nat) == pow2(k as nat) * pow2(127),
            ;
        }
        Float32::encode(m, k + 127)
    }

    /// The analyzer's identifier.
    pub fn id(&self) -> (r: &str)
        ensures
            r@ == "battery_brownout"@,
    {
        "battery_brownout"
    }

    /// What the analyzer detects.
    pub fn description(&self) -> (r: &str)
        ensures
            r@ == "Voltage below critical threshold"@,
    {
        "Voltage below critical threshold"
    }

    /// The topics that the analyzer reads.
    pub fn required_topics(&self) -> (r: &[&str])
        ensures
            r@.len() == 2,
            r@[0]@ == "battery_status"@,
            r@[1]@ == "vehicle_status"@,
    {
        &["battery_status", "vehicle_status"]
    }

    /// Takes in what a `vehicle_status` message says.
    pub fn vehicle_status(&mut self, arming_state: Option<u8>)
        ensures
            final(self)@ == old(self)@.after_vehicle_status(arming_state),
            old(self)@.wf() ==> final(self)@.wf(),
    {
        self.armed = next_armed(self.armed, arming_state);
    }

    /// Whether a voltage is finite and positive.
    fn is_usable(voltage: Float32) -> (r: bool)
        ensures
            r == usable(voltage),
    {
        proof {
            lemma2_to64();
        }
        voltage.is_finite() && Float32::from_bits(0).less_than(voltage)
    }

    /// Whether a reading of the voltage calls for a finding.
    fn is_due(&self, ts: u64, voltage: Float32) -> (r: bool)
        requires
            self@.in_order(ts, Some(voltage)),
        ensures
            r == self@.due(ts, voltage),
    {
        if !self.armed || !BatteryBrownoutAnalyzer::is_usable(voltage) {
            return false;
        }
        if self.detections.len() > 0 && ts > 0 && ts - self.last_detection_us < DEDUP_INTERVAL_US {
            return false;
        }
        match self.cell_count {
            Some(_) => voltage.less_than(self.critical_threshold_v),
            None => {
                let cells: u8 = BatteryBrownoutAnalyzer::estimate_cell_count(voltage);
                voltage.less_than(BatteryBrownoutAnalyzer::threshold_for(cells))
            },
        }
    }

    /// Takes in what a `battery_status` message says.
    pub fn battery_status(&mut self, ts: u64, voltage: Option<Float32>, current: Option<Float32>)
        requires
            old(self)@.wf(),
            old(self)@.in_order(ts, voltage),
        ensures
            final(self)@ == old(self)@.after_battery_status(ts, voltage, current),
            final(self)@.wf(),
    {
        let v: Float32 = match voltage {
            Some(v) => v,
            None => {
                return;
            },
        };
        if !BatteryBrownoutAnalyzer::is_usable(v) {
            return;
        }
        let due: bool = self.is_due(ts, v);
        let cells: u8 = match self.cell_count {
            Some(cells) => cells,
            None => BatteryBrownoutAnalyzer::estimate_cell_count(v),
        };
        let threshold: Float32 = BatteryBrownoutAnalyzer::threshold_for(cells);
        self.cell_count = Some(cells);
        self.critical_threshold_v = threshold;
        if due {
            self.last_detection_us = ts;
            let mut summary: String = "Battery voltage ".to_owned();
            append_float_hundredths(&mut summary, v);
            summary.append("V below critical threshold ");
            append_float_tenths(&mut summary, threshold);
            summary.append("V at ");
            append_seconds(&mut summary, ts);
            summary.append("s (");
            append_whole(&mut summary, cells as u128);
            summary.append("S)");
            let descriptor: OutputDescriptor = self.output_descriptor();
            report(
                &mut self.detections,
                Diagnostic {
                    id: "battery_brownout".to_owned(),
                    summary,
                    severity: Severity::Critical,
                    kind: AnomalyKind::Point,
                    timestamp_us: ts,
                    end_timestamp_us: None,
                    anchor: PlotAnchor::new("battery_status", "voltage_v"),
                    descriptor,
                    evidence: Evidence::BatteryBrownout {
                        voltage_v: v,
                        critical_threshold_v: threshold,
                        current_a: current,
                    },
                },
            );
        }
    }

    /// Takes in a message. Topics other than the required ones are ignored.
    pub fn on_message(&mut self, data: &DataMessage<'_>)
        requires
            old(self)@.wf(),
            old(self)@.accepts(*data),
        ensures
            final(self)@ == old(self)@.after_message(*data),
            final(self)@.wf(),
    {
        let name: &str = topic(data);
        if same_text(name, "vehicle_status") {
            self.vehicle_status(read_byte(data, "arming_state"));
        } else if same_text(name, "battery_status") {
            let voltage: Option<Float32> = read_float_or(data, "voltage_v", "voltage_filtered_v");
            let v: Float32 = match voltage {
                Some(v) => v,
                None => {
                    return;
                },
            };
            // The timestamp and the current are read only where they count.
            let measured: bool = self.armed && BatteryBrownoutAnalyzer::is_usable(v);
            let ts: u64 = if measured {
                read_timestamp(data)
            } else {
                0
            };
            let current: Option<Float32> = if measured && self.is_due(ts, v) {
                read_float_or(data, "current_a", "current_filtered_a")
            } else {
                None
            };
            proof {
                lemma_unread(self@, ts, current, timestamp_us(*data), battery_current(*data), v);
            }
            self.battery_status(ts, voltage, current);
        }
    }

    /// Takes in a message, or leaves the analyzer as it is and returns `false`
    /// where a field that it reads runs past the end of the message, or where
    /// the message is older than the last finding.
    pub fn try_on_message(&mut self, data: &DataMessage<'_>) -> (taken: bool)
        requires
            old(self)@.wf(),
        ensures
            taken == old(self)@.accepts(*data),
            taken ==> final(self)@ == old(self)@.after_message(*data),
            !taken ==> final(self)@ == old(self)@,
            final(self)@.wf(),
    {
        let accepted: bool = self.can_accept(data);
        if accepted {
            self.on_message(data);
        }
        accepted
    }

    /// Whether a message can be taken in.
    fn can_accept(&self, data: &DataMessage<'_>) -> (r: bool)
        ensures
            r == self@.accepts(*data),
    {
        let name: &str = topic(data);
        if same_text(name, "vehicle_status") {
            return is_byte_readable(data, "arming_state");
        }
        if !same_text(name, "battery_status") {
            return true;
        }
        if !is_float_or_readable(data, "voltage_v", "voltage_filtered_v") {
            return false;
        }
        match read_float_or(data, "voltage_v", "voltage_filtered_v") {
            Some(v) => {
                if !self.armed || !BatteryBrownoutAnalyzer::is_usable(v) {
                    return true;
                }
                if !is_timestamp_readable(data) {
                    return false;
                }
                let ts: u64 = read_timestamp(data);
                if ts > 0 && ts < self.last_detection_us {
                    return false;
                }
                !self.is_due(ts, v) || is_float_or_readable(data, "current_a", "current_filtered_a")
            },
            None => true,
        }
    }

    /// The findings, once the log is over.
    pub fn finish(self: Box<Self>) -> (r: Vec<Diagnostic>)
        ensures
            findings(r@) == self@.detections,
    {
        let this: BatteryBrownoutAnalyzer = *self;
        this.detections
    }

    /// The fields of the analyzer's evidence.
    pub fn output_descriptor(&self) -> (r: OutputDescriptor)
        ensures
            r@ == battery_brownout_descriptor(),
    {
        let r: OutputDescriptor = OutputDescriptor::new()
            .field("voltage_v", FieldUnit::Volts)
            .field("critical_threshold_v", FieldUnit::Volts)
            .field("current_a", FieldUnit::Amps);
        assert(r@ =~= battery_brownout_descriptor());
        r
    }
}

/// Nothing is found while the vehicle is disarmed.
pub proof fn law_silent_while_disarmed(
    s: BatteryBrownoutState,
    ts: u64,
    voltage: Option<Float32>,
    current: Option<Float32>,
)
    requires
        !s.armed,
    ensures
        s.after_battery_status(ts, voltage, current).detections == s.detections,
{
}

/// A message without a voltage, or with one that is not finite and positive,
/// changes nothing.
pub proof fn law_unusable_voltage_is_ignored(
    s: BatteryBrownoutState,
    ts: u64,
    voltage: Option<Float32>,
    current: Option<Float32>,
)
    requires
        voltage matches Some(v) ==> !v.finite() || v.value() <= 0,
    ensures
        s.after_battery_status(ts, voltage, current) == s,
{
}

/// The first usable voltage settles the cell count and the threshold, armed or
/// not; no later message changes them.
pub proof fn law_cell_count_is_settled(
    s: BatteryBrownoutState,
    ts: u64,
    voltage: Float32,
    current: Option<Float32>,
    data: DataMessage<'_>,
)
    requires
        s.wf(),
        voltage.finite(),
        voltage.value() > 0,
    ensures
        ({
            let known = s.after_battery_status(ts, Some(voltage), current);
            &&& known.cell_count is Some
            &&& s.cell_count is Some ==> known.cell_count == s.cell_count
            &&& s.cell_count is None ==> known.cell_count == Some(cell_estimate(voltage))
            &&& known.critical_threshold_v == critical_threshold(known.cell_count->0)
            &&& known.armed == s.armed
            &&& known.after_message(data).cell_count == known.cell_count
            &&& known.after_message(data).critical_threshold_v == known.critical_threshold_v
        }),
{
}

/// The first brownout is reported whenever it comes: the interval lies between
/// findings, and there is none to keep a distance from.
pub proof fn law_first_brownout_is_reported(
    s: BatteryBrownoutState,
    ts: u64,
    voltage: Float32,
    current: Option<Float32>,
)
    requires
        s.armed,
        s.detections.len() == 0,
        voltage.finite(),
        voltage.value() > 0,
        ({
            let threshold = s.after_battery_status(
                ts,
                Some(voltage),
                current,
            ).critical_threshold_v;
            !threshold.nan() && voltage.value() < threshold.value()
        }),
    ensures
        s.after_battery_status(ts, Some(voltage), current).detections == seq![
            s.finding(ts, voltage, current),
        ],
{
}

/// After a finding there is no other one until the deduplication interval has
/// passed.
pub proof fn law_one_finding_per_interval(
    s: BatteryBrownoutState,
    first: (u64, Float32, Option<Float32>),
    second: (u64, Option<Float32>, Option<Float32>),
)
    requires
        s.due(first.0, first.1),
        first.0 <= second.0 < first.0 + 30_000_000,
        second.0 > 0,
    ensures
        ({
            let found = s.after_battery_status(first.0, Some(first.1), first.2);
            &&& found.detections == s.detections.push(s.finding(first.0, first.1, first.2))
            &&& found.after_battery_status(second.0, second.1, second.2).detections
                == found.detections
        }),
{
}

/// A higher voltage never suggests fewer cells.
pub proof fn law_more_voltage_no_fewer_cells(low: Float32, high: Float32)
    requires
        !low.nan(),
        !high.nan(),
        low.value() <= high.value(),
    ensures
        cell_estimate(low) <= cell_estimate(high),
{
    if !low.negative() && !high.negative() {
        let d = (Float32 { bits: NOMINAL_FULL_VOLTAGE_PER_CELL_BITS }).magnitude();
        lemma_cell_voltages();
        lemma_pow2_pos(128);
        lemma_pow2_pos(149);
        assert(low.magnitude() * one() <= high.magnitude() * one()) by (nonlinear_arith)
            requires
                low.magnitude() <= high.magnitude(),
        ;
        lemma_round_quotient_monotone(low.magnitude() * one(), high.magnitude() * one(), d, 24);
        lemma_div_is_ordered(
            (2 * full_cells(low) + one()) as int,
            (2 * full_cells(high) + one()) as int,
            (2 * one()) as int,
        );
    } else if !low.negative() {
        lemma_pow2_pos(151);
        lemma_few_cells(low);
    }
}

/// Findings are kept, and a message adds one at most.
pub proof fn law_findings_are_kept(s: BatteryBrownoutState, data: DataMessage<'_>)
    ensures
        s.detections.is_prefix_of(s.after_message(data).detections),
        s.after_message(data).detections.len() <= s.detections.len() + 1,
{
}

/// Only the required topics count.
pub proof fn law_other_topics_are_ignored(s: BatteryBrownoutState, data: DataMessage<'_>)
    requires
        topic_of(data) != "battery_status"@,
        topic_of(data) != "vehicle_status"@,
    ensures
        s.after_message(data) == s,
{
}

/// The critical voltage is a positive number, exactly that many times 3.3 V but
/// for rounding.
proof fn lemma_threshold(cells: u8)
    requires
        1 <= cells <= 12,
    ensures
        critical_threshold(cells).finite(),
        !critical_threshold(cells).negative(),
        critical_threshold(cells).magnitude() == round_quotient(
            cells as nat * (13_841_203 * pow2(127)),
            1,
            24,
        ),
{
    let n = (cells * 13_841_203) as nat;
    let k = excess_bits(n, 24);
    let m = half_even(n, 1 * pow2(k));
    lemma2_to64();
    lemma_cell_voltages();
    assert(n / 1 == n);
    lemma_excess_bits_bounds(n, 24);
    lemma_significand_bounds(n, 1, 24);
    if k > 5 {
        lemma_pow2_strictly_increases(28, (23 + k) as nat);
    }
    assert(cells as nat * (13_841_203 * pow2(127)) == n * pow2(127)) by (nonlinear_arith)
        requires
            n == cells * 13_841_203,
    ;
    lemma_round_quotient_scale(n, 1, 24, 127);
    lemma_pow2_adds(k, 127);
    assert((m * pow2(k)) * pow2(127) == m * pow2(k + 127)) by (nonlinear_arith)
        requires
            pow2(k + 127) == pow2(k) * pow2(127),
    ;
    lemma_encoding(m, k + 127);
}

/// The critical voltage is 3.3 V for each cell, to within one part in four
/// million.
pub proof fn law_threshold_is_per_cell(cells: u8)
    requires
        1 <= cells <= 12,
    ensures
        ({
            let exact = 33 * cells * pow2(149);
            let shown = 10 * critical_threshold(cells).value();
            &&& critical_threshold(cells).finite()
            &&& -exact <= 4_000_000 * (shown - exact) <= exact
        }),
{
    lemma_threshold(cells);
    let unit = pow2(127);
    let q = cells as nat * unit;
    let n = cells as nat * (13_841_203 * unit);
    assert(n == 13_841_203 * q) by (nonlinear_arith)
        requires
            n == cells as nat * (13_841_203 * unit),
            q == cells as nat * unit,
    ;
    lemma2_to64();
    lemma_pow2_adds(22, 127);
    lemma_pow2_pos(127);
    assert(33 * cells * pow2(149) == 138_412_032 * q) by (nonlinear_arith)
        requires
            pow2(149) == 0x40_0000 * unit,
            q == cells as nat * unit,
    ;
    law_rounding_is_close(n, 1, 24);
}

/// The estimate is the number of full cells, 4.2 V each, nearest to the voltage:
/// it reaches `c` cells from half a cell below on, and not before, but for the
/// last bits of the quotient. It is never under one cell nor over twelve.
pub proof fn law_cell_estimate_is_nearest(voltage: Float32, c: u8)
    requires
        voltage.finite(),
        2 <= c <= 12,
    ensures
        1 <= cell_estimate(voltage) <= 12,
        2 * voltage.value() >= (2 * c - 1) * (8_808_038 * pow2(128)) ==> cell_estimate(voltage)
            >= c,
        0x10_0000 * voltage.value() <= ((2 * c - 1) * 0x8_0000 - 1) * (8_808_038 * pow2(128))
            ==> cell_estimate(voltage) < c,
{
    lemma_cell_voltages();
    lemma2_to64();
    lemma_pow2_pos(128);
    lemma_pow2_pos(149);
    let d: nat = 8_808_038 * pow2(128);
    let v = voltage.magnitude();
    let q = full_cells(voltage);
    let n = 2 * q + one();
    let odd = (2 * c - 1) as nat;
    if voltage.negative() {
        assert(odd * d > 0) by (nonlinear_arith)
            requires
                odd > 0,
                d > 0,
        ;
    } else {
        if 2 * v >= odd * d {
            lemma_pow2_adds(1, 148);
            let half = pow2(148);
            assert(v * one() >= d * (odd * half)) by (nonlinear_arith)
                requires
                    2 * v >= odd * d,
                    one() == 2 * half,
            ;
            lemma_round_quotient_at_least(v * one(), d, 24, odd, 148);
            assert(2 * (odd * half) + one() == (2 * one()) * c) by (nonlinear_arith)
                requires
                    one() == 2 * half,
                    odd == 2 * c - 1,
            ;
            lemma_quotient_at_least(n, 2 * one(), c as nat);
        }
        if 0x10_0000 * v <= (odd * 0x8_0000 - 1) * d {
            let b = (odd * 0x8_0000 - 1) as nat;
            lemma_under_half_a_cell(v, d, b, c);
            lemma_quotient_below(n, 2 * one(), c as nat);
        }
    }
}

/// A voltage clearly under half a cell below `c` cells.
proof fn lemma_under_half_a_cell(v: nat, d: nat, b: nat, c: u8)
    requires
        2 <= c <= 12,
        d > 0,
        b == (2 * c - 1) * 0x8_0000 - 1,
        0x10_0000 * v <= b * d,
    ensures
        2 * round_quotient(v * one(), d, 24) + one() < (2 * one()) * c,
{
    lemma2_to64();
    lemma_pow2_adds(20, 129);
    lemma_pow2_pos(129);
    let unit = pow2(129);
    assert(v * one() <= d * (b * unit)) by (nonlinear_arith)
        requires
            0x10_0000 * v <= b * d,
            one() == 0x10_0000 * unit,
    ;
    lemma_round_quotient_at_most(v * one(), d, 24, b, 129);
    assert(2 * (b * unit) + one() < (2 * one()) * c) by (nonlinear_arith)
        requires
            b == (2 * c - 1) * 0x8_0000 - 1,
            one() == 0x10_0000 * unit,
            unit > 0,
    ;
}

/// A reading is reported exactly if the vehicle is armed, the voltage is finite,
/// positive and below the critical voltage, and the last finding, if there is
/// one, is thirty seconds old or the reading has no time. All else leaves the
/// findings as they are.
pub proof fn law_brownouts_are_found(
    s: BatteryBrownoutState,
    ts: u64,
    voltage: Option<Float32>,
    current: Option<Float32>,
)
    requires
        s.wf(),
    ensures
        ({
            let after = s.after_battery_status(ts, voltage, current);
            let free = s.detections.len() == 0 || ts == 0 || ts >= s.detections.last().timestamp_us
                + 30_000_000;
            match voltage {
                Some(v) if s.armed && free && v.finite() && 0 < v.value()
                    && v.value() < after.critical_threshold_v.value() => {
                    &&& after.detections.len() == s.detections.len() + 1
                    &&& after.detections.drop_last() == s.detections
                    &&& after.detections.last().timestamp_us == ts
                    &&& after.detections.last().evidence == (EvidenceView::BatteryBrownout {
                        voltage_v: v,
                        critical_threshold_v: after.critical_threshold_v,
                        current_a: current,
                    })
                },
                _ => after.detections == s.detections,
            }
        }),
{
    let after = s.after_battery_status(ts, voltage, current);
    if let Some(v) = voltage {
        if usable(v) {
            lemma_estimate_range(v);
            lemma_threshold(s.cells(v));
            if s.due(ts, v) {
                assert(after.detections.drop_last() =~= s.detections);
            }
        }
    }
}

/// An estimate is between one cell and twelve.
proof fn lemma_estimate_range(voltage: Float32)
    ensures
        1 <= cell_estimate(voltage) <= 12,
{
}

/// What a finding says beside its evidence: it is a critical one at the moment
/// of the reading, drawn on the voltage, and its summary shows the voltage, the
/// threshold, the time and the cells.
pub proof fn law_finding_reads_as_its_evidence(
    s: BatteryBrownoutState,
    ts: u64,
    v: Float32,
    current: Option<Float32>,
)
    ensures
        s.after_battery_status(ts, Some(v), current).detections.len() > s.detections.len() ==> {
            let after = s.after_battery_status(ts, Some(v), current);
            let d = after.detections.last();
            &&& d.id == "battery_brownout"@
            &&& d.severity == Severity::Critical
            &&& d.kind == AnomalyKind::Point
            &&& d.end_timestamp_us is None
            &&& d.anchor.topic == "battery_status"@
            &&& d.anchor.field == "voltage_v"@
            &&& d.descriptor == battery_brownout_descriptor()
            &&& after.cell_count matches Some(cells) && d.summary == "Battery voltage "@
                + float_hundredths_text(v) + "V below critical threshold "@ + float_tenths_text(
                after.critical_threshold_v,
            ) + "V at "@ + seconds_text(d.timestamp_us as nat) + "s ("@ + whole_text(cells as nat)
                + "S)"@
        },
{
}

/// The measured voltage and current count where the message has them, whatever
/// the filtered ones are; the filtered ones count only where it has not. The
/// time is the message's own.
pub proof fn law_measured_values_come_first(s: BatteryBrownoutState, data: DataMessage<'_>)
    requires
        topic_of(data) == "battery_status"@,
    ensures
        s.after_message(data) == s.after_battery_status(
            timestamp_us(data),
            match float_field(data, "voltage_v"@) {
                Some(measured) => Some(measured),
                None => float_field(data, "voltage_filtered_v"@),
            },
            match float_field(data, "current_a"@) {
                Some(measured) => Some(measured),
                None => float_field(data, "current_filtered_a"@),
            },
        ),
{
    reveal_strlit("battery_status");
    reveal_strlit("vehicle_status");
    assert("battery_status"@[0] != "vehicle_status"@[0]);
}

/// A `vehicle_status` message says whether the vehicle is armed, and nothing
/// else that counts.
pub proof fn law_status_only_arms(s: BatteryBrownoutState, data: DataMessage<'_>)
    requires
        topic_of(data) == "vehicle_status"@,
    ensures
        s.after_message(data) == (BatteryBrownoutState {
            armed: match byte_field(data, "arming_state"@) {
                Some(state) => state == 2,
                None => s.armed,
            },
            ..s
        }),
{
}

/// A message is taken in exactly if what counts of it can be read: of a
/// `vehicle_status` message the arming state; of a `battery_status` message the
/// voltage; for a positive voltage in armed flight the time too, which may not
/// be before the last finding; and where it adds a finding the current. Of a
/// measured and a filtered value the second is read only without the first.
pub proof fn law_what_is_read_decides(s: BatteryBrownoutState, data: DataMessage<'_>)
    requires
        s.wf(),
    ensures
        s.accepts(data) <==> {
            let voltage = match float_field(data, "voltage_v"@) {
                Some(measured) => Some(measured),
                None => float_field(data, "voltage_filtered_v"@),
            };
            &&& topic_of(data) == "vehicle_status"@ ==> byte_readable(data, "arming_state"@)
            &&& topic_of(data) == "battery_status"@ ==> {
                &&& float_readable(data, "voltage_v"@)
                &&& float_field(data, "voltage_v"@) is Some || float_readable(
                    data,
                    "voltage_filtered_v"@,
                )
                &&& s.armed && (voltage matches Some(v) && v.finite() && v.value() > 0) ==> {
                    &&& timestamp_readable(data)
                    &&& s.detections.len() == 0 || timestamp_us(data) == 0 || timestamp_us(data)
                        >= s.detections.last().timestamp_us
                    &&& s.after_message(data).detections.len() > s.detections.len() ==> {
                        &&& float_readable(data, "current_a"@)
                        &&& float_field(data, "current_a"@) is Some || float_readable(
                            data,
                            "current_filtered_a"@,
                        )
                    }
                }
            }
        },
{
    reveal_strlit("battery_status");
    reveal_strlit("vehicle_status");
    assert("battery_status"@[0] != "vehicle_status"@[0]);
}

/// A message is refused for a reason only: one that is whole and comes no
/// earlier than the last finding, or without a time, is taken in.
pub proof fn law_whole_message_is_accepted(s: BatteryBrownoutState, data: DataMessage<'_>)
    requires
        s.wf(),
        whole(data),
        s.detections.len() == 0 || timestamp_us(data) == 0 || timestamp_us(data)
            >= s.detections.last().timestamp_us,
    ensures
        s.accepts(data),
{
    law_whole_message_is_readable(data, "arming_state"@);
    law_whole_message_is_readable(data, "voltage_v"@);
    law_whole_message_is_readable(data, "voltage_filtered_v"@);
    law_whole_message_is_readable(data, "current_a"@);
    law_whole_message_is_readable(data, "current_filtered_a"@);
}

/// A fresh analyzer takes the vehicle for disarmed and knows no battery.
pub proof fn law_nothing_is_known_at_first()
    ensures
        !BatteryBrownoutState::initial().armed,
        BatteryBrownoutState::initial().cell_count is None,
        BatteryBrownoutState::initial().detections.len() == 0,
{
}

} // verus!
