//! GPS interference detection analyzer.
//!
//! Monitors `vehicle_gps_position` for sudden degradation in GPS quality:
//! - EPH (horizontal position error) spikes above a good baseline
//! - EPV (vertical position error) spikes above a threshold
//! - The satellite count drops significantly below the baseline
use crate::decimal::{
    append_float_tenths, append_seconds, append_whole, float_tenths_text, join, joined,
    law_shown_quotient_is_nearest, quotient_digits, seconds_text, shown_quotient, texts,
    whole_text,
};
use crate::diagnostic::{
    findings, last_timestamp, report, spaced, AnomalyKind, Diagnostic, DiagnosticView, Evidence,
    EvidenceView, FieldUnit, OutputDescriptor, PlotAnchor, PlotAnchorView, Severity,
};
use crate::double_sum::{
    double_quotient, largest, lemma_sum_bounded, lemma_tenth_finite, round_double, tenth, DoubleSum,
};
use crate::float32::{lemma_whole, one, Float32};
use crate::message::{
    byte_field, byte_readable, float_field, float_readable, is_byte_readable, is_float_readable,
    is_timestamp_readable, law_whole_message_is_readable, read_byte, read_float, read_timestamp,
    same_text, timestamp_readable, timestamp_us, topic, topic_of, whole,
};
use crate::rounding::{lemma_round_quotient_at_least, lemma_round_quotient_at_most};
use px4_ulog::stream_parser::model::DataMessage;
use vstd::arithmetic::power2::{
    lemma2_to64, lemma2_to64_rest, lemma_pow2_adds, lemma_pow2_pos, pow2,
};
use vstd::prelude::*;
use vstd::string::StringExecFns;

verus! {

/// Number of samples to establish the baseline.
pub const BASELINE_SAMPLES: u32 = 10;

/// A baseline EPH below this many meters is good.
pub const EPH_GOOD_BASELINE: u32 = 2;

/// EPH threshold (meters) for detection when the baseline is good.
pub const EPH_SPIKE_THRESHOLD: u32 = 5;

/// EPH threshold (meters) for critical severity.
pub const EPH_CRITICAL_THRESHOLD: u32 = 10;

/// EPV threshold (meters) for detection.
pub const EPV_THRESHOLD: u32 = 10;

/// Minimum satellite count for less than critical severity.
pub const SATS_CRITICAL_MIN: u16 = 4;

/// Minimum time (microseconds) between detections to avoid duplicates.
pub const DEDUP_INTERVAL_US: u64 = 5_000_000;

/// Bits of the number two.
pub const TWO_BITS: u32 = 0x4000_0000;

/// Bits of the number five.
pub const FIVE_BITS: u32 = 0x40A0_0000;

/// Bits of the number ten.
pub const TEN_BITS: u32 = 0x4120_0000;

/// The fields of the analyzer's evidence.
pub open spec fn gps_interference_descriptor() -> Seq<(Seq<char>, FieldUnit)> {
    seq![
        ("eph_m"@, FieldUnit::Meters),
        ("epv_m"@, FieldUnit::Meters),
        ("num_satellites"@, FieldUnit::Count),
        ("noise_level"@, FieldUnit::Ratio),
    ]
}

/// What a `vehicle_gps_position` message gives.
#[derive(Clone, Copy, Debug)]
pub struct GpsSample {
    /// Horizontal position error in meters.
    pub eph: Option<Float32>,
    /// Vertical position error in meters.
    pub epv: Option<Float32>,
    /// Number of satellites used.
    pub sats: Option<u8>,
}

impl GpsSample {
    /// The horizontal error, 0 where the message has none.
    pub open spec fn current_eph(self) -> Float32 {
        match self.eph {
            Some(x) => x,
            None => Float32 { bits: 0 },
        }
    }

    /// The vertical error, 0 where the message has none.
    pub open spec fn current_epv(self) -> Float32 {
        match self.epv {
            Some(x) => x,
            None => Float32 { bits: 0 },
        }
    }

    /// The number of satellites, 0 where the message has none.
    pub open spec fn current_sats(self) -> u16 {
        match self.sats {
            Some(n) => n as u16,
            None => 0,
        }
    }
}

/// Detects sudden degradation of the GPS quality.
pub struct GpsInterferenceAnalyzer {
    sample_count: u32,
    eph_sum: DoubleSum,
    sats_sum: u32,
    baseline_eph: Option<Float32>,
    last_detection_us: u64,
    detections: Vec<Diagnostic>,
}

/// What a [`GpsInterferenceAnalyzer`] has seen and reported.
pub struct GpsInterferenceState {
    /// The number of samples in the baseline.
    pub sample_count: u32,
    /// The sum of their finite horizontal errors, in double precision.
    pub eph_sum: int,
    /// The sum of their satellite counts.
    pub sats_sum: nat,
    /// The mean horizontal error, once the baseline is complete.
    pub baseline_eph: Option<Float32>,
    /// When the last finding was reported, 0 before the first.
    pub last_detection_us: u64,
    /// The findings so far.
    pub detections: Seq<DiagnosticView>,
}

/// A finding is critical exactly when the horizontal error is very high or the
/// satellites are too few for a position.
pub open spec fn sound(d: DiagnosticView) -> bool {
    &&& d.evidence matches EvidenceView::GpsInterference { eph_m, num_satellites, .. }
        && d.severity == if eph_m.exceeds(EPH_CRITICAL_THRESHOLD as nat) || num_satellites
        < SATS_CRITICAL_MIN {
        Severity::Critical
    } else {
        Severity::Warning
    }
}

impl GpsInterferenceState {
    /// The state of an analyzer that has seen nothing.
    pub open spec fn initial() -> GpsInterferenceState {
        GpsInterferenceState {
            sample_count: 0,
            eph_sum: 0,
            sats_sum: 0,
            baseline_eph: None,
            last_detection_us: 0,
            detections: seq![],
        }
    }

    /// The baseline belongs to its samples, nothing is found before it is
    /// complete, and the findings are sound and keep their distance from each
    /// other.
    pub open spec fn wf(self) -> bool {
        &&& self.sample_count <= BASELINE_SAMPLES
        &&& self.sats_sum <= 255 * self.sample_count
        &&& -(self.sample_count * largest()) <= self.eph_sum <= self.sample_count * largest()
        &&& self.baseline_eph == (if self.sample_count == BASELINE_SAMPLES {
            Some(tenth(self.eph_sum))
        } else {
            None
        })
        &&& self.sample_count < BASELINE_SAMPLES ==> self.detections.len() == 0
        &&& self.last_detection_us == last_timestamp(self.detections)
        &&& spaced(self.detections, DEDUP_INTERVAL_US as nat)
        &&& forall|i: int| 0 <= i < self.detections.len() ==> sound(#[trigger] self.detections[i])
    }

    /// The mean satellite count of the baseline as a double, in units of the
    /// smallest positive one.
    pub open spec fn mean_sats(self) -> nat {
        double_quotient(self.sats_sum * one(), BASELINE_SAMPLES as nat)
    }

    /// There is a finding already, and it is too recent for another one. A
    /// message without a timestamp is never too early.
    pub open spec fn recent(self, ts: u64) -> bool {
        self.detections.len() > 0 && ts > 0 && ts - self.last_detection_us < DEDUP_INTERVAL_US
    }

    /// The horizontal error is high where the baseline was good.
    pub open spec fn eph_spike(self, sample: GpsSample) -> bool {
        &&& self.baseline_eph matches Some(baseline) && baseline.below(EPH_GOOD_BASELINE as nat)
        &&& sample.current_eph().exceeds(EPH_SPIKE_THRESHOLD as nat)
        &&& sample.current_eph().finite()
    }

    /// The vertical error is high.
    pub open spec fn epv_spike(self, sample: GpsSample) -> bool {
        &&& sample.current_epv().exceeds(EPV_THRESHOLD as nat)
        &&& sample.current_epv().finite()
    }

    /// There are fewer than half the satellites of the baseline's mean.
    pub open spec fn sats_drop(self, sample: GpsSample) -> bool {
        &&& self.mean_sats() > 0
        &&& 2 * sample.current_sats() * pow2(1074) < self.mean_sats()
    }

    /// A sample calls for a finding.
    pub open spec fn due(self, ts: u64, sample: GpsSample) -> bool {
        &&& self.sample_count >= BASELINE_SAMPLES
        &&& !self.recent(ts)
        &&& self.eph_spike(sample) || self.epv_spike(sample) || self.sats_drop(sample)
    }

    /// What is wrong with a sample, in words.
    pub open spec fn reasons(self, sample: GpsSample) -> Seq<Seq<char>> {
        let eph = if self.eph_spike(sample) {
            seq![
                "EPH "@ + float_tenths_text(sample.current_eph()) + "m (baseline "@
                    + float_tenths_text(self.baseline_eph->0) + "m)"@,
            ]
        } else {
            seq![]
        };
        let epv = if self.epv_spike(sample) {
            seq!["EPV "@ + float_tenths_text(sample.current_epv()) + "m"@]
        } else {
            seq![]
        };
        let sats = if self.sats_drop(sample) {
            seq![
                "satellites "@ + whole_text(sample.current_sats() as nat) + " (baseline "@
                    + whole_text(shown_quotient(self.sats_sum, BASELINE_SAMPLES as nat, 1)) + ")"@,
            ]
        } else {
            seq![]
        };
        eph + epv + sats
    }

    /// The finding for a sample.
    pub open spec fn finding(self, ts: u64, sample: GpsSample) -> DiagnosticView {
        DiagnosticView {
            id: "gps_interference"@,
            summary: "GPS quality degraded at "@ + seconds_text(ts as nat) + "s: "@ + joined(
                self.reasons(sample),
                ", "@,
            ),
            severity: if sample.current_eph().exceeds(EPH_CRITICAL_THRESHOLD as nat)
                || sample.current_sats() < SATS_CRITICAL_MIN {
                Severity::Critical
            } else {
                Severity::Warning
            },
            kind: AnomalyKind::Point,
            timestamp_us: ts,
            end_timestamp_us: None,
            anchor: PlotAnchorView { topic: "vehicle_gps_position"@, field: "eph"@ },
            descriptor: gps_interference_descriptor(),
            evidence: EvidenceView::GpsInterference {
                eph_m: sample.current_eph(),
                epv_m: sample.current_epv(),
                num_satellites: sample.current_sats(),
                noise_level: None,
            },
        }
    }

    /// The sum of horizontal errors with one more sample; an error that is not
    /// finite adds nothing.
    pub open spec fn eph_sum_after(self, sample: GpsSample) -> int {
        match sample.eph {
            Some(x) if x.finite() => round_double(self.eph_sum + x.value()),
            _ => self.eph_sum,
        }
    }

    /// The state after a sample. The first samples make the baseline.
    pub open spec fn after_position(self, ts: u64, sample: GpsSample) -> GpsInterferenceState {
        if self.sample_count < BASELINE_SAMPLES {
            GpsInterferenceState {
                sample_count: (self.sample_count + 1) as u32,
                eph_sum: self.eph_sum_after(sample),
                sats_sum: self.sats_sum + sample.current_sats() as nat,
                baseline_eph: if self.sample_count + 1 == BASELINE_SAMPLES {
                    Some(tenth(self.eph_sum_after(sample)))
                } else {
                    None
                },
                ..self
            }
        } else if self.due(ts, sample) {
            GpsInterferenceState {
                last_detection_us: ts,
                detections: self.detections.push(self.finding(ts, sample)),
                ..self
            }
        } else {
            self
        }
    }

    /// Time has not run back behind the last finding, as far as the analyzer
    /// looks at the time.
    pub open spec fn in_order(self, ts: u64) -> bool {
        self.sample_count >= BASELINE_SAMPLES && ts > 0 ==> ts >= self.last_detection_us
    }

    /// The state after a message.
    pub open spec fn after_message(self, data: DataMessage<'_>) -> GpsInterferenceState {
        if topic_of(data) == "vehicle_gps_position"@ {
            self.after_position(timestamp_us(data), gps_sample(data))
        } else {
            self
        }
    }

    /// What the analyzer reads of a message lies within the message, and time
    /// has not run back.
    pub open spec fn accepts(self, data: DataMessage<'_>) -> bool {
        topic_of(data) == "vehicle_gps_position"@ ==> {
            &&& timestamp_readable(data)
            &&& float_readable(data, "eph"@)
            &&& float_readable(data, "epv"@)
            &&& byte_readable(data, "satellites_used"@)
            &&& self.in_order(timestamp_us(data))
        }
    }
}

/// The sample in a message.
pub open spec fn gps_sample(data: DataMessage<'_>) -> GpsSample {
    GpsSample {
        eph: float_field(data, "eph"@),
        epv: float_field(data, "epv"@),
        sats: byte_field(data, "satellites_used"@),
    }
}

/// The thresholds are whole numbers.
proof fn lemma_thresholds(x: Float32)
    ensures
        (Float32 { bits: FIVE_BITS }).lt(x) == x.exceeds(5),
        (Float32 { bits: TEN_BITS }).lt(x) == x.exceeds(10),
        x.lt(Float32 { bits: TWO_BITS }) == x.below(2),
{
    lemma2_to64();
    lemma_whole(Float32 { bits: TWO_BITS }, 2);
    lemma_whole(Float32 { bits: FIVE_BITS }, 5);
    lemma_whole(Float32 { bits: TEN_BITS }, 10);
}

impl View for GpsInterferenceAnalyzer {
    type V = GpsInterferenceState;

    closed spec fn view(&self) -> GpsInterferenceState {
        GpsInterferenceState {
            sample_count: self.sample_count,
            eph_sum: self.eph_sum.value(),
            sats_sum: self.sats_sum as nat,
            baseline_eph: self.baseline_eph,
            last_detection_us: self.last_detection_us,
            detections: findings(self.detections@),
        }
    }
}

impl Default for GpsInterferenceAnalyzer {
    fn default() -> (r: GpsInterferenceAnalyzer)
        ensures
            r@ == GpsInterferenceState::initial(),
            r@.wf(),
            r.wf(),
    {
        GpsInterferenceAnalyzer::new()
    }
}

impl GpsInterferenceAnalyzer {
    /// The state is in order, and so is the form of the sum.
    pub closed spec fn wf(&self) -> bool {
        &&& self@.wf()
        &&& self.eph_sum.wf()
        &&& self.eph_sum.scale() <= 400 * self.sample_count
    }

    /// An analyzer that has seen nothing.
    pub fn new() -> (r: GpsInterferenceAnalyzer)
        ensures
            r@ == GpsInterferenceState::initial(),
            r@.wf(),
            r.wf(),
    {
        let r: GpsInterferenceAnalyzer = GpsInterferenceAnalyzer {
            sample_count: 0,
            eph_sum: DoubleSum::zero(),
            sats_sum: 0,
            baseline_eph: None,
            last_detection_us: 0,
            detections: Vec::new(),
        };
        assert(r@.detections =~= seq![]);
        assert(0 * largest() == 0);
        r
    }

    /// The analyzer's identifier.
    pub fn id(&self) -> (r: &str)
        ensures
            r@ == "gps_interference"@,
    {
        "gps_interference"
    }

    /// What the analyzer detects.
    pub fn description(&self) -> (r: &str)
        ensures
            r@ == "EPH/EPV spike, satellite count drop"@,
    {
        "EPH/EPV spike, satellite count drop"
    }

    /// The topics that the analyzer reads.
    pub fn required_topics(&self) -> (r: &[&str])
        ensures
            r@.len() == 1,
            r@[0]@ == "vehicle_gps_position"@,
    {
        &["vehicle_gps_position"]
    }

    /// Takes in what a `vehicle_gps_position` message says.
    pub fn position(&mut self, ts: u64, sample: GpsSample)
        requires
            old(self).wf(),
            old(self)@.in_order(ts),
        ensures
            final(self)@ == old(self)@.after_position(ts, sample),
            final(self)@.wf(),
            final(self).wf(),
    {
        if self.sample_count < BASELINE_SAMPLES {
            self.accumulate(sample);
            return;
        }
        if self.detections.len() > 0 && ts > 0 && ts - self.last_detection_us < DEDUP_INTERVAL_US {
            return;
        }
        self.detect(ts, sample);
    }

    /// Adds a sample to the baseline.
    fn accumulate(&mut self, sample: GpsSample)
        requires
            old(self).wf(),
            old(self)@.sample_count < BASELINE_SAMPLES,
        ensures
            forall|ts: u64| final(self)@ == #[trigger] old(self)@.after_position(ts, sample),
            final(self).wf(),
    {
        let ghost count = self.sample_count as nat;
        proof {
            assert((count + 1) * largest() == count * largest() + largest()) by (nonlinear_arith);
            if let Some(x) = sample.eph {
                if x.finite() {
                    lemma_sum_bounded(self@.eph_sum, x, count);
                }
            }
        }
        if let Some(x) = sample.eph {
            if x.is_finite() {
                self.eph_sum.add(x);
            }
        }
        if let Some(n) = sample.sats {
            self.sats_sum = self.sats_sum + n as u32;
        }
        self.sample_count = self.sample_count + 1;
        if self.sample_count == BASELINE_SAMPLES {
            self.baseline_eph = Some(self.eph_sum.tenth());
        }
    }

    /// Puts what is wrong with a sample into words.
    fn describe(
        &self,
        sample: GpsSample,
        eph_spike: bool,
        epv_spike: bool,
        sats_drop: bool,
    ) -> (r: Vec<String>)
        requires
            self.wf(),
            eph_spike == self@.eph_spike(sample),
            epv_spike == self@.epv_spike(sample),
            sats_drop == self@.sats_drop(sample),
        ensures
            texts(r@) == self@.reasons(sample),
    {
        let mut reasons: Vec<String> = Vec::new();
        if eph_spike {
            let baseline_eph: Float32 = self.baseline_eph.unwrap_or(Float32::from_bits(0));
            proof {
                lemma_tenth_finite(self@.eph_sum);
            }
            let current_eph: Float32 = sample.eph.unwrap_or(Float32::from_bits(0));
            let mut reason: String = "EPH ".to_owned();
            append_float_tenths(&mut reason, current_eph);
            reason.append("m (baseline ");
            append_float_tenths(&mut reason, baseline_eph);
            reason.append("m)");
            reasons.push(reason);
        }
        if epv_spike {
            let current_epv: Float32 = sample.epv.unwrap_or(Float32::from_bits(0));
            let mut reason: String = "EPV ".to_owned();
            append_float_tenths(&mut reason, current_epv);
            reason.append("m");
            reasons.push(reason);
        }
        if sats_drop {
            let current_sats: u8 = sample.sats.unwrap_or(0);
            let mut reason: String = "satellites ".to_owned();
            append_whole(&mut reason, current_sats as u128);
            reason.append(" (baseline ");
            append_whole(&mut reason, quotient_digits(self.sats_sum as u64, BASELINE_SAMPLES, 1));
            reason.append(")");
            reasons.push(reason);
        }
        assert(texts(reasons@) =~= self@.reasons(sample));
        reasons
    }

    /// Reports a sample that is bad against the baseline.
    fn detect(&mut self, ts: u64, sample: GpsSample)
        requires
            old(self).wf(),
            old(self)@.sample_count >= BASELINE_SAMPLES,
            !old(self)@.recent(ts),
        ensures
            final(self)@ == old(self)@.after_position(ts, sample),
            final(self).wf(),
    {
        let baseline_eph: Float32 = match self.baseline_eph {
            Some(x) => x,
            None => Float32::from_bits(0),
        };
        let current_eph: Float32 = sample.eph.unwrap_or(Float32::from_bits(0));
        let current_epv: Float32 = sample.epv.unwrap_or(Float32::from_bits(0));
        let current_sats: u16 = match sample.sats {
            Some(n) => n as u16,
            None => 0,
        };
        proof {
            lemma_thresholds(baseline_eph);
            lemma_thresholds(current_eph);
            lemma_thresholds(current_epv);
            law_satellite_drop_is_exact(self@, sample);
        }
        let two: Float32 = Float32::from_bits(TWO_BITS);
        let five: Float32 = Float32::from_bits(FIVE_BITS);
        let ten: Float32 = Float32::from_bits(TEN_BITS);
        let eph_spike: bool = baseline_eph.less_than(two) && five.less_than(current_eph)
            && current_eph.is_finite();
        let epv_spike: bool = ten.less_than(current_epv) && current_epv.is_finite();
        let sats_drop: bool = 20 * (current_sats as u32) < self.sats_sum;
        if !eph_spike && !epv_spike && !sats_drop {
            return;
        }
        let severity: Severity = if ten.less_than(current_eph) || current_sats < SATS_CRITICAL_MIN {
            Severity::Critical
        } else {
            Severity::Warning
        };
        let reasons: Vec<String> = self.describe(sample, eph_spike, epv_spike, sats_drop);
        let mut summary: String = "GPS quality degraded at ".to_owned();
        append_seconds(&mut summary, ts);
        summary.append("s: ");
        let list: String = join(&reasons, ", ");
        summary.append(list.as_str());
        let descriptor: OutputDescriptor = self.output_descriptor();
        self.last_detection_us = ts;
        report(
            &mut self.detections,
            Diagnostic {
                id: "gps_interference".to_owned(),
                summary,
                severity,
                kind: AnomalyKind::Point,
                timestamp_us: ts,
                end_timestamp_us: None,
                anchor: PlotAnchor::new("vehicle_gps_position", "eph"),
                descriptor,
                evidence: Evidence::GpsInterference {
                    eph_m: current_eph,
                    epv_m: current_epv,
                    num_satellites: current_sats,
                    noise_level: None,
                },
            },
        );
    }

    /// Takes in a message. Topics other than the required one are ignored.
    pub fn on_message(&mut self, data: &DataMessage<'_>)
        requires
            old(self).wf(),
            old(self)@.accepts(*data),
        ensures
            final(self)@ == old(self)@.after_message(*data),
            final(self)@.wf(),
            final(self).wf(),
    {
        if !same_text(topic(data), "vehicle_gps_position") {
            return;
        }
        let ts: u64 = read_timestamp(data);
        let sample: GpsSample = GpsSample {
            eph: read_float(data, "eph"),
            epv: read_float(data, "epv"),
            sats: read_byte(data, "satellites_used"),
        };
        self.position(ts, sample);
    }

    /// Takes in a message, or leaves the analyzer as it is and returns `false`
    /// where a field that it reads runs past the end of the message, or where
    /// the message is older than the last finding.
    pub fn try_on_message(&mut self, data: &DataMessage<'_>) -> (taken: bool)
        requires
            old(self).wf(),
        ensures
            taken == old(self)@.accepts(*data),
            taken ==> final(self)@ == old(self)@.after_message(*data),
            !taken ==> final(self)@ == old(self)@,
            final(self)@.wf(),
            final(self).wf(),
    {
        if same_text(topic(data), "vehicle_gps_position") {
            if !is_timestamp_readable(data) || !is_float_readable(data, "eph")
                || !is_float_readable(data, "epv") || !is_byte_readable(data, "satellites_used") {
                return false;
            }
            let ts: u64 = read_timestamp(data);
            if self.sample_count >= BASELINE_SAMPLES && ts > 0 && ts < self.last_detection_us {
                return false;
            }
        }
        self.on_message(data);
        true
    }

    /// The findings, once the log is over.
    pub fn finish(self: Box<Self>) -> (r: Vec<Diagnostic>)
        ensures
            findings(r@) == self@.detections,
    {
        let this: GpsInterferenceAnalyzer = *self;
        this.detections
    }

    /// The fields of the analyzer's evidence.
    pub fn output_descriptor(&self) -> (r: OutputDescriptor)
        ensures
            r@ == gps_interference_descriptor(),
    {
        let r: OutputDescriptor = OutputDescriptor::new()
            .field("eph_m", FieldUnit::Meters)
            .field("epv_m", FieldUnit::Meters)
            .field("num_satellites", FieldUnit::Count)
            .field("noise_level", FieldUnit::Ratio);
        assert(r@ =~= gps_interference_descriptor());
        r
    }
}

/// The satellites have dropped exactly when they are fewer than half the mean
/// of the baseline: the rounding of the mean never tips the comparison.
pub proof fn law_satellite_drop_is_exact(s: GpsInterferenceState, sample: GpsSample)
    requires
        s.wf(),
    ensures
        s.sats_drop(sample) <==> 20 * sample.current_sats() < s.sats_sum,
{
    let c = sample.current_sats() as nat;
    let n = s.sats_sum * one();
    lemma2_to64();
    lemma2_to64_rest();
    lemma_pow2_adds(149, 925);
    lemma_pow2_adds(4, 1070);
    lemma_pow2_pos(1070);
    assert(n * pow2(925) == s.sats_sum * pow2(1074)) by (nonlinear_arith)
        requires
            n == s.sats_sum * one(),
            pow2(1074) == one() * pow2(925),
    ;
    if 20 * c < s.sats_sum {
        let b = 32 * c + 1;
        assert(s.sats_sum * pow2(1074) >= 10 * (b * pow2(1070))) by (nonlinear_arith)
            requires
                s.sats_sum >= 20 * c + 1,
                b == 32 * c + 1,
                pow2(1074) == 16 * pow2(1070),
        ;
        lemma_round_quotient_at_least(n * pow2(925), 10, 53, b, 1070);
        assert(b * pow2(1070) > 2 * c * pow2(1074)) by (nonlinear_arith)
            requires
                b == 32 * c + 1,
                pow2(1074) == 16 * pow2(1070),
                pow2(1070) > 0,
        ;
    } else {
        let b = 2 * c;
        assert(s.sats_sum * pow2(1074) <= 10 * (b * pow2(1074))) by (nonlinear_arith)
            requires
                s.sats_sum <= 20 * c,
                b == 2 * c,
        ;
        lemma_round_quotient_at_most(n * pow2(925), 10, 53, b, 1074);
    }
}

impl GpsInterferenceState {
    /// The state after a run of samples.
    pub open spec fn after_positions(self, samples: Seq<(u64, GpsSample)>) -> GpsInterferenceState
        decreases samples.len(),
    {
        if samples.len() == 0 {
            self
        } else {
            self.after_positions(samples.drop_last()).after_position(
                samples.last().0,
                samples.last().1,
            )
        }
    }
}

/// The sum of the satellite counts of some samples; a sample without one adds
/// nothing.
pub open spec fn satellites(samples: Seq<(u64, GpsSample)>) -> nat
    decreases samples.len(),
{
    if samples.len() == 0 {
        0
    } else {
        let before = satellites(samples.drop_last());
        match samples.last().1.sats {
            Some(n) => before + n as nat,
            None => before,
        }
    }
}

/// The sum of the finite horizontal errors of some samples, taken in double
/// precision from first to last.
pub open spec fn horizontal_errors(samples: Seq<(u64, GpsSample)>) -> int
    decreases samples.len(),
{
    if samples.len() == 0 {
        0
    } else {
        let before = horizontal_errors(samples.drop_last());
        match samples.last().1.eph {
            Some(x) if x.finite() => round_double(before + x.value()),
            _ => before,
        }
    }
}

/// The first samples make the baseline, all later ones leave it alone, and
/// nothing is found before it is complete.
pub proof fn law_first_samples_make_the_baseline(samples: Seq<(u64, GpsSample)>)
    ensures
        ({
            let s = GpsInterferenceState::initial().after_positions(samples);
            let n = if samples.len() < 10 {
                samples.len() as int
            } else {
                10
            };
            &&& s.sample_count == n
            &&& s.sats_sum == satellites(samples.take(n))
            &&& s.eph_sum == horizontal_errors(samples.take(n))
            &&& s.baseline_eph == if n == 10 {
                Some(tenth(horizontal_errors(samples.take(n))))
            } else {
                None
            }
            &&& samples.len() <= 10 ==> s.detections.len() == 0
        }),
    decreases samples.len(),
{
    if samples.len() > 0 {
        let earlier = samples.drop_last();
        law_first_samples_make_the_baseline(earlier);
        if samples.len() <= 10 {
            assert(samples.take(samples.len() as int) =~= samples);
            assert(earlier.take(earlier.len() as int) =~= earlier);
        } else {
            assert(samples.take(10) =~= earlier.take(10));
        }
    } else {
        assert(samples.take(0) =~= samples);
    }
}

/// Once the baseline is complete, a sample is reported exactly if the last
/// finding, if there is one, is five seconds old or the sample has no time, and
/// one of three things is wrong: a finite horizontal error above 5 m where the
/// mean was below 2 m, a finite vertical error above 10 m, or fewer satellites
/// than half the mean. A missing satellite count counts as none. All else leaves
/// the findings as they are.
pub proof fn law_degradations_are_found(s: GpsInterferenceState, ts: u64, sample: GpsSample)
    requires
        s.wf(),
        s.sample_count == 10,
    ensures
        ({
            let after = s.after_position(ts, sample);
            let free = s.detections.len() == 0 || ts == 0 || ts >= s.detections.last().timestamp_us
                + 5_000_000;
            let sats = match sample.sats {
                Some(n) => n as nat,
                None => 0,
            };
            let horizontal = sample.eph matches Some(x) && x.finite() && x.value() > 5 * pow2(149)
                && s.baseline_eph->0.value() < 2 * pow2(149);
            let vertical = sample.epv matches Some(x) && x.finite() && x.value() > 10 * pow2(149);
            let few = 20 * sats < s.sats_sum;
            if free && (horizontal || vertical || few) {
                &&& after.detections.len() == s.detections.len() + 1
                &&& after.detections.drop_last() == s.detections
                &&& after.detections.last().timestamp_us == ts
                &&& after.detections.last().severity == if sats < 4 || (sample.eph matches Some(x)
                    && !x.nan() && x.value() > 10 * pow2(149)) {
                    Severity::Critical
                } else {
                    Severity::Warning
                }
            } else {
                after.detections == s.detections
            }
        }),
{
    law_satellite_drop_is_exact(s, sample);
    lemma_tenth_finite(s.eph_sum);
    lemma_pow2_pos(149);
    if s.due(ts, sample) {
        assert(s.after_position(ts, sample).detections.drop_last() =~= s.detections);
    }
}

/// What a finding says of its sample: the measurements, with zeros for those
/// that are missing, a moment on the horizontal error, and a summary with the
/// time and, in this order, each of the things that are wrong.
pub proof fn law_finding_reads_as_its_sample(s: GpsInterferenceState, ts: u64, sample: GpsSample)
    requires
        s.wf(),
        s.after_position(ts, sample).detections.len() > s.detections.len(),
    ensures
        ({
            let d = s.after_position(ts, sample).detections.last();
            let eph = match sample.eph {
                Some(x) => x,
                None => Float32 { bits: 0 },
            };
            let epv = match sample.epv {
                Some(x) => x,
                None => Float32 { bits: 0 },
            };
            let sats: u16 = match sample.sats {
                Some(n) => n as u16,
                None => 0,
            };
            let horizontal = eph.finite() && eph.value() > 5 * pow2(149)
                && s.baseline_eph->0.value() < 2 * pow2(149);
            let vertical = epv.finite() && epv.value() > 10 * pow2(149);
            let few = 20 * sats < s.sats_sum;
            let first = if horizontal {
                "EPH "@ + float_tenths_text(eph) + "m (baseline "@ + float_tenths_text(
                    s.baseline_eph->0,
                ) + "m)"@
            } else {
                seq![]
            };
            let second = if vertical {
                "EPV "@ + float_tenths_text(epv) + "m"@
            } else {
                seq![]
            };
            let third = if few {
                "satellites "@ + whole_text(sats as nat) + " (baseline "@ + whole_text(
                    shown_quotient(s.sats_sum, 10, 1),
                ) + ")"@
            } else {
                seq![]
            };
            &&& d.id == "gps_interference"@
            &&& d.kind == AnomalyKind::Point
            &&& d.end_timestamp_us is None
            &&& d.anchor.topic == "vehicle_gps_position"@
            &&& d.anchor.field == "eph"@
            &&& d.descriptor == gps_interference_descriptor()
            &&& d.evidence == (EvidenceView::GpsInterference {
                eph_m: eph,
                epv_m: epv,
                num_satellites: sats,
                noise_level: None,
            })
            &&& d.summary == "GPS quality degraded at "@ + seconds_text(d.timestamp_us as nat)
                + "s: "@ + first + (if horizontal && (vertical || few) {
                ", "@
            } else {
                seq![]
            }) + second + (if vertical && few {
                ", "@
            } else {
                seq![]
            }) + third
        }),
{
    law_satellite_drop_is_exact(s, sample);
    lemma_tenth_finite(s.eph_sum);
    lemma_pow2_pos(149);
    let reasons = s.reasons(sample);
    lemma_joined(reasons, ", "@);
    let d = s.after_position(ts, sample).detections.last();
    assert(d == s.finding(ts, sample));
    let start = "GPS quality degraded at "@ + seconds_text(ts as nat) + "s: "@;
    assert(d.summary == start + joined(reasons, ", "@));
    if s.eph_spike(sample) && s.epv_spike(sample) && s.sats_drop(sample) {
        assert(d.summary =~= start + reasons[0] + ", "@ + reasons[1] + ", "@ + reasons[2]);
    } else if reasons.len() == 2 {
        assert(d.summary =~= start + reasons[0] + ", "@ + reasons[1]);
    } else {
        assert(d.summary =~= start + reasons[0]);
    }
}

/// Up to three texts joined.
proof fn lemma_joined(parts: Seq<Seq<char>>, separator: Seq<char>)
    requires
        parts.len() <= 3,
    ensures
        parts.len() == 1 ==> joined(parts, separator) == parts[0],
        parts.len() == 2 ==> joined(parts, separator) == parts[0] + separator + parts[1],
        parts.len() == 3 ==> joined(parts, separator) == parts[0] + separator + parts[1]
            + separator + parts[2],
{
    reveal_with_fuel(joined, 4);
}

/// The mean number of satellites is shown to the nearest whole number.
pub proof fn law_shown_satellites_are_nearest(s: GpsInterferenceState)
    requires
        s.wf(),
    ensures
        -5 <= s.sats_sum - 10 * shown_quotient(s.sats_sum, 10, 1) <= 5,
{
    lemma2_to64_rest();
    law_shown_quotient_is_nearest(s.sats_sum, 10, 1);
}

/// A message is a sample of its two position errors and its satellite count, at
/// its own time.
pub proof fn law_message_is_a_sample(s: GpsInterferenceState, data: DataMessage<'_>)
    requires
        topic_of(data) == "vehicle_gps_position"@,
    ensures
        s.after_message(data) == s.after_position(
            timestamp_us(data),
            (GpsSample {
                eph: float_field(data, "eph"@),
                epv: float_field(data, "epv"@),
                sats: byte_field(data, "satellites_used"@),
            }),
        ),
{
}

/// A message of another topic is taken in. One of this topic is taken in exactly
/// if its time and the three measurements can be read, and it does not come
/// before the last finding; a message without a time never does.
pub proof fn law_what_is_read_decides(s: GpsInterferenceState, data: DataMessage<'_>)
    requires
        s.wf(),
    ensures
        s.accepts(data) <==> (topic_of(data) == "vehicle_gps_position"@ ==> {
            &&& timestamp_readable(data)
            &&& float_readable(data, "eph"@)
            &&& float_readable(data, "epv"@)
            &&& byte_readable(data, "satellites_used"@)
            &&& s.detections.len() == 0 || timestamp_us(data) == 0 || timestamp_us(data)
                >= s.detections.last().timestamp_us
        }),
{
}

/// A message is refused for a reason only: one that is whole and comes no
/// earlier than the last finding, or without a time, is taken in.
pub proof fn law_whole_message_is_accepted(s: GpsInterferenceState, data: DataMessage<'_>)
    requires
        s.wf(),
        whole(data),
        s.detections.len() == 0 || timestamp_us(data) == 0 || timestamp_us(data)
            >= s.detections.last().timestamp_us,
    ensures
        s.accepts(data),
{
    law_whole_message_is_readable(data, "eph"@);
    law_whole_message_is_readable(data, "epv"@);
    law_whole_message_is_readable(data, "satellites_used"@);
}

/// A sample whose errors are low and whose satellites are at least half the
/// mean of the baseline is never reported.
pub proof fn law_good_sample_is_silent(s: GpsInterferenceState, ts: u64, sample: GpsSample)
    requires
        s.wf(),
        sample.eph matches Some(x) ==> x.nan() || x.value() <= 5 * pow2(149),
        sample.epv matches Some(x) ==> x.nan() || x.value() <= 10 * pow2(149),
        20 * (match sample.sats {
            Some(n) => n as nat,
            None => 0,
        }) >= s.sats_sum,
    ensures
        s.after_position(ts, sample).detections == s.detections,
{
    if s.sample_count == 10 {
        law_degradations_are_found(s, ts, sample);
    }
}

/// The first degradation after the baseline is reported whenever it comes: the
/// interval lies between findings, and there is none to keep a distance from.
pub proof fn law_first_degradation_is_reported(
    s: GpsInterferenceState,
    ts: u64,
    sample: GpsSample,
)
    requires
        s.sample_count >= 10,
        s.detections.len() == 0,
        (sample.epv matches Some(x) && x.finite() && x.value() > 10 * pow2(149)) || (
        sample.eph matches Some(x) && x.finite() && x.value() > 5 * pow2(149) && (
        s.baseline_eph matches Some(mean) && !mean.nan() && mean.value() < 2 * pow2(149)))
            || s.sats_drop(sample),
    ensures
        s.after_position(ts, sample).detections == seq![s.finding(ts, sample)],
{
    let (x, y) = (sample.current_epv(), sample.current_eph());
    assert(x.finite() ==> !x.nan());
    assert(y.finite() ==> !y.nan());
}

/// After a finding there is no other one until the deduplication interval has
/// passed.
pub proof fn law_one_finding_per_interval(
    s: GpsInterferenceState,
    first: (u64, GpsSample),
    second: (u64, GpsSample),
)
    requires
        s.due(first.0, first.1),
        first.0 <= second.0 < first.0 + 5_000_000,
        second.0 > 0,
    ensures
        ({
            let found = s.after_position(first.0, first.1);
            &&& found.detections == s.detections.push(s.finding(first.0, first.1))
            &&& found.after_position(second.0, second.1) == found
        }),
{
}

/// Findings are kept, and a message adds one at most.
pub proof fn law_findings_are_kept(s: GpsInterferenceState, data: DataMessage<'_>)
    ensures
        s.detections.is_prefix_of(s.after_message(data).detections),
        s.after_message(data).detections.len() <= s.detections.len() + 1,
{
}

/// Only the required topic counts.
pub proof fn law_other_topics_are_ignored(s: GpsInterferenceState, data: DataMessage<'_>)
    requires
        topic_of(data) != "vehicle_gps_position"@,
    ensures
        s.after_message(data) == s,
{
}

} // verus!
