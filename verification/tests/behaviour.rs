use flight_diagnostics::battery_brownout::BatteryBrownoutAnalyzer;
use flight_diagnostics::diagnostic::{
    AnomalyKind, Diagnostic, Evidence, FieldUnit, MotorFailureMode, OutputDescriptor, Severity,
};
use flight_diagnostics::ekf_failure::{EkfFailureAnalyzer, InnovationTracker};
use flight_diagnostics::float32::Float32;
use flight_diagnostics::gps_interference::{GpsInterferenceAnalyzer, GpsSample};
use flight_diagnostics::motor_failure::MotorFailureAnalyzer;
use flight_diagnostics::rc_loss::RcLossAnalyzer;
use flight_diagnostics::vehicle_status::{nav_state_name, next_armed};
use px4_ulog::stream_parser::model::{
    DataMessage, FlattenedField, FlattenedFieldType, FlattenedFormat, MultiId,
};

fn single(x: f32) -> Float32 {
    Float32::from_bits(x.to_bits())
}

fn native(x: Float32) -> f32 {
    f32::from_bits(x.to_bits())
}

/// A message with fields of the types that the analyzers read.
struct Sample {
    format: FlattenedFormat,
    data: Vec<u8>,
}

/// Builds a message from its bytes and floats, behind a timestamp if there is
/// one.
fn sample(topic: &str, ts: Option<u64>, bytes: &[(&str, u8)], floats: &[(&str, f32)]) -> Sample {
    let mut data = vec![7u8, 0];
    let mut fields = vec![];
    let mut push = |name: &str, field_type, value: &[u8]| {
        fields.push(FlattenedField {
            flattened_field_name: name.to_string(),
            field_type,
            offset: data.len() as u16,
        });
        data.extend_from_slice(value);
    };
    if let Some(ts) = ts {
        push("timestamp", FlattenedFieldType::UInt64, &ts.to_le_bytes());
    }
    for (name, value) in bytes {
        push(name, FlattenedFieldType::UInt8, &[*value]);
    }
    for (name, value) in floats {
        push(name, FlattenedFieldType::Float, &value.to_le_bytes());
    }
    let size = data.len() as u16;
    Sample { format: FlattenedFormat::new(topic.to_string(), fields, size).unwrap(), data }
}

impl Sample {
    fn message(&self) -> DataMessage<'_> {
        self.cut_to(self.data.len())
    }

    /// The message with fewer bytes than its format asks for.
    fn cut_to(&self, len: usize) -> DataMessage<'_> {
        DataMessage {
            msg_id: 7,
            multi_id: MultiId::new(0),
            flattened_format: &self.format,
            data: &self.data[..len],
        }
    }
}

fn summaries(diags: &[Diagnostic]) -> Vec<&str> {
    diags.iter().map(|d| d.summary.as_str()).collect()
}

fn times(diags: &[Diagnostic]) -> Vec<u64> {
    diags.iter().map(|d| d.timestamp_us).collect()
}

fn severities(diags: &[Diagnostic]) -> Vec<Severity> {
    diags.iter().map(|d| d.severity).collect()
}

fn units(descriptor: &OutputDescriptor) -> Vec<(&str, FieldUnit)> {
    descriptor.fields.iter().map(|f| (f.name.as_str(), f.unit)).collect()
}

// Battery.

fn armed_battery(volts: f32) -> BatteryBrownoutAnalyzer {
    let mut analyzer = BatteryBrownoutAnalyzer::new();
    analyzer.battery_status(1_000_000, Some(single(volts)), None);
    analyzer.vehicle_status(Some(2));
    analyzer
}

#[test]
fn battery_describes_itself() {
    let analyzer = BatteryBrownoutAnalyzer::default();
    assert_eq!(analyzer.id(), "battery_brownout");
    assert_eq!(analyzer.description(), "Voltage below critical threshold");
    assert_eq!(analyzer.required_topics(), &["battery_status", "vehicle_status"]);
    assert_eq!(
        units(&analyzer.output_descriptor()),
        vec![
            ("voltage_v", FieldUnit::Volts),
            ("critical_threshold_v", FieldUnit::Volts),
            ("current_a", FieldUnit::Amps),
        ]
    );
    assert!(Box::new(analyzer).finish().is_empty());
}

#[test]
fn battery_is_silent_while_disarmed() {
    let mut analyzer = BatteryBrownoutAnalyzer::new();
    analyzer.battery_status(1_000_000, Some(single(16.8)), None);
    analyzer.battery_status(40_000_000, Some(single(5.0)), None);
    analyzer.vehicle_status(Some(2));
    analyzer.vehicle_status(None);
    analyzer.battery_status(50_000_000, Some(single(12.0)), None);
    analyzer.vehicle_status(Some(1));
    analyzer.battery_status(90_000_000, Some(single(12.0)), None);
    let diags = Box::new(analyzer).finish();
    assert_eq!(times(&diags), vec![50_000_000]);
}

#[test]
fn battery_cell_count_is_settled_by_the_first_usable_voltage() {
    let mut analyzer = BatteryBrownoutAnalyzer::new();
    for unusable in [f32::NAN, f32::INFINITY, 0.0, -0.0, -12.0] {
        analyzer.battery_status(1_000_000, Some(single(unusable)), None);
    }
    analyzer.battery_status(1_000_000, None, None);
    analyzer.battery_status(2_000_000, Some(single(12.6)), None);
    analyzer.battery_status(3_000_000, Some(single(25.2)), None);
    analyzer.vehicle_status(Some(2));
    analyzer.battery_status(40_000_000, Some(single(10.0)), None);
    analyzer.battery_status(41_000_000, Some(single(9.87)), Some(single(21.5)));
    let diags = Box::new(analyzer).finish();
    assert_eq!(
        summaries(&diags),
        vec!["Battery voltage 9.87V below critical threshold 9.9V at 41.0s (3S)"]
    );
    assert_eq!(diags[0].kind, AnomalyKind::Point);
    assert_eq!(diags[0].end_timestamp_us, None);
    assert_eq!(diags[0].anchor.topic, "battery_status");
    assert_eq!(diags[0].anchor.field, "voltage_v");
    match &diags[0].evidence {
        Evidence::BatteryBrownout { voltage_v, critical_threshold_v, current_a } => {
            assert_eq!(native(*voltage_v), 9.87);
            assert_eq!(native(*critical_threshold_v), 3.0f32 * 3.3f32);
            assert_eq!(current_a.map(native), Some(21.5));
        }
        other => panic!("{:?}", other),
    }
}

#[test]
fn battery_threshold_itself_is_not_low() {
    let mut analyzer = armed_battery(16.8);
    let threshold = 4.0f32 * 3.3f32;
    analyzer.battery_status(40_000_000, Some(single(threshold)), None);
    let below = f32::from_bits(threshold.to_bits() - 1);
    analyzer.battery_status(41_000_000, Some(single(below)), None);
    assert_eq!(times(&Box::new(analyzer).finish()), vec![41_000_000]);
}

#[test]
fn battery_findings_keep_their_distance() {
    let mut analyzer = armed_battery(16.8);
    analyzer.battery_status(5_000_000, Some(single(12.0)), None);
    analyzer.battery_status(34_999_999, Some(single(12.0)), None);
    analyzer.battery_status(35_000_000, Some(single(12.0)), None);
    analyzer.battery_status(64_999_999, Some(single(12.0)), None);
    analyzer.battery_status(65_000_000, Some(single(12.0)), None);
    assert_eq!(times(&Box::new(analyzer).finish()), vec![5_000_000, 35_000_000, 65_000_000]);
}

#[test]
fn battery_first_brownout_is_reported_at_once() {
    let mut analyzer = BatteryBrownoutAnalyzer::new();
    let armed = sample("vehicle_status", Some(1_000_000), &[("arming_state", 2)], &[]);
    analyzer.on_message(&armed.message());
    let full = sample("battery_status", Some(2_000_000), &[], &[("voltage_v", 16.0)]);
    analyzer.on_message(&full.message());
    let low = sample("battery_status", Some(10_000_000), &[], &[("voltage_v", 12.0)]);
    analyzer.on_message(&low.message());
    let diags = Box::new(analyzer).finish();
    assert_eq!(times(&diags), vec![10_000_000]);
    assert_eq!(severities(&diags), vec![Severity::Critical]);
}

#[test]
fn battery_message_without_a_time_is_never_too_early() {
    let mut analyzer = armed_battery(16.8);
    let low = sample("battery_status", None, &[], &[("voltage_v", 12.0)]);
    analyzer.on_message(&low.message());
    analyzer.on_message(&low.message());
    assert_eq!(times(&Box::new(analyzer).finish()), vec![0, 0]);
}

#[test]
fn battery_falls_back_to_filtered_fields() {
    let mut analyzer = armed_battery(16.8);
    let low = sample(
        "battery_status",
        Some(31_000_000),
        &[("voltage_v", 200)],
        &[("voltage_filtered_v", 12.0), ("current_filtered_a", 3.5)],
    );
    analyzer.on_message(&low.message());
    let diags = Box::new(analyzer).finish();
    match &diags[0].evidence {
        Evidence::BatteryBrownout { voltage_v, current_a, .. } => {
            assert_eq!(native(*voltage_v), 12.0);
            assert_eq!(current_a.map(native), Some(3.5));
        }
        other => panic!("{:?}", other),
    }
}

#[test]
fn battery_refuses_what_it_cannot_read() {
    let mut analyzer = armed_battery(16.8);
    let low = sample("battery_status", Some(40_000_000), &[], &[("voltage_v", 12.0)]);
    assert!(!analyzer.try_on_message(&low.cut_to(low.data.len() - 1)));
    assert!(!analyzer.try_on_message(&low.cut_to(0)));
    assert!(analyzer.try_on_message(&low.message()));
    // Time runs back behind the finding.
    let early = sample("battery_status", Some(39_000_000), &[], &[("voltage_v", 12.0)]);
    assert!(!analyzer.try_on_message(&early.message()));
    // Disarmed, the time does not count.
    analyzer.vehicle_status(Some(0));
    assert!(analyzer.try_on_message(&early.message()));
    assert!(analyzer.try_on_message(&sample("other", None, &[], &[]).cut_to(0)));
    let status = sample("vehicle_status", Some(1), &[("arming_state", 2)], &[]);
    assert!(!analyzer.try_on_message(&status.cut_to(10)));
    assert!(analyzer.try_on_message(&status.cut_to(11)));
    assert_eq!(times(&Box::new(analyzer).finish()), vec![40_000_000]);
}

#[test]
fn more_voltage_never_means_fewer_cells() {
    let mut last = 0;
    for step in 0..700u32 {
        let cells = BatteryBrownoutAnalyzer::estimate_cell_count(single(step as f32 * 0.1));
        assert!(cells >= last);
        last = cells;
    }
    assert_eq!(last, 12);
    // Half a cell rounds up.
    assert_eq!(BatteryBrownoutAnalyzer::estimate_cell_count(single(6.3)), 2);
    assert_eq!(BatteryBrownoutAnalyzer::estimate_cell_count(single(f32::NAN)), 1);
    assert_eq!(BatteryBrownoutAnalyzer::estimate_cell_count(single(-50.0)), 1);
    assert_eq!(BatteryBrownoutAnalyzer::estimate_cell_count(single(f32::INFINITY)), 12);
}

// EKF.

fn velocity(analyzer: &mut EkfFailureAnalyzer, ts: u64, ratio: f32) {
    analyzer.estimator_status(ts, &[Some(single(ratio)), None, None]);
}

#[test]
fn ekf_describes_itself() {
    let analyzer = EkfFailureAnalyzer::default();
    assert_eq!(analyzer.id(), "ekf_failure");
    assert_eq!(analyzer.description(), "Sustained EKF innovation exceedance");
    assert_eq!(analyzer.required_topics(), &["estimator_status"]);
    assert_eq!(
        units(&analyzer.output_descriptor()),
        vec![
            ("innovation", FieldUnit::Label),
            ("test_ratio", FieldUnit::Ratio),
            ("threshold", FieldUnit::Ratio),
        ]
    );
    assert!(Box::new(analyzer).finish().is_empty());
}

#[test]
fn ekf_warns_after_two_seconds_and_escalates_after_five() {
    let mut analyzer = EkfFailureAnalyzer::new();
    for ts in [1_000_000, 2_999_999, 3_000_000, 5_999_999, 6_000_000, 9_000_000] {
        velocity(&mut analyzer, ts, 1.25);
    }
    let diags = Box::new(analyzer).finish();
    assert_eq!(severities(&diags), vec![Severity::Warning, Severity::Critical]);
    assert_eq!(
        summaries(&diags),
        vec![
            "EKF velocity innovation exceeded threshold for 2.0s starting at 1.0s",
            "EKF velocity innovation exceeded threshold for 5.0s starting at 1.0s",
        ]
    );
    assert_eq!(diags[0].end_timestamp_us, Some(3_000_000));
    assert_eq!(diags[1].timestamp_us, 1_000_000);
    assert_eq!(diags[1].end_timestamp_us, Some(6_000_000));
    assert_eq!(diags[1].kind, AnomalyKind::Region);
    assert_eq!(diags[1].anchor.topic, "estimator_status");
    assert_eq!(diags[1].anchor.field, "vel_test_ratio");
    match &diags[1].evidence {
        Evidence::EkfFailure { innovation, test_ratio, threshold } => {
            assert_eq!(innovation, "velocity");
            assert_eq!(native(*test_ratio), 1.25);
            assert_eq!(native(*threshold), 1.0);
        }
        other => panic!("{:?}", other),
    }
}

#[test]
fn ekf_gap_leads_straight_to_critical() {
    let mut analyzer = EkfFailureAnalyzer::new();
    velocity(&mut analyzer, 1_000_000, 2.0);
    velocity(&mut analyzer, 8_000_000, 2.0);
    velocity(&mut analyzer, 9_000_000, 2.0);
    assert_eq!(severities(&Box::new(analyzer).finish()), vec![Severity::Critical]);
}

#[test]
fn ekf_recovery_starts_afresh() {
    let mut analyzer = EkfFailureAnalyzer::new();
    velocity(&mut analyzer, 1_000_000, 2.0);
    velocity(&mut analyzer, 3_000_000, 2.0);
    // The threshold itself is no exceedance.
    velocity(&mut analyzer, 4_000_000, 1.0);
    velocity(&mut analyzer, 5_000_000, 2.0);
    velocity(&mut analyzer, 6_500_000, 2.0);
    velocity(&mut analyzer, 7_000_000, 2.0);
    let diags = Box::new(analyzer).finish();
    assert_eq!(severities(&diags), vec![Severity::Warning, Severity::Warning]);
    assert_eq!(times(&diags), vec![1_000_000, 5_000_000]);
}

#[test]
fn ekf_ratio_that_is_not_finite_is_ignored() {
    let mut analyzer = EkfFailureAnalyzer::new();
    velocity(&mut analyzer, 500_000, f32::INFINITY);
    velocity(&mut analyzer, 1_000_000, 2.0);
    velocity(&mut analyzer, 1_500_000, f32::NAN);
    velocity(&mut analyzer, 2_000_000, f32::NEG_INFINITY);
    velocity(&mut analyzer, 3_500_000, f32::INFINITY);
    velocity(&mut analyzer, 4_000_000, 2.0);
    let diags = Box::new(analyzer).finish();
    assert_eq!(times(&diags), vec![1_000_000]);
    assert_eq!(diags[0].end_timestamp_us, Some(4_000_000));
}

#[test]
fn ekf_channels_are_independent() {
    let mut analyzer = EkfFailureAnalyzer::new();
    for i in 0..=20u64 {
        let height = if i == 10 { 0.5 } else { 3.0 };
        let position = if i < 10 { None } else { Some(single(1.5)) };
        analyzer.estimator_status(
            i * 200_000,
            &[Some(single(0.1)), position, Some(single(height))],
        );
    }
    let diags = Box::new(analyzer).finish();
    assert_eq!(
        summaries(&diags),
        vec!["EKF position innovation exceeded threshold for 2.0s starting at 2.0s"]
    );
}

#[test]
fn ekf_channel_finds_what_its_tracker_alone_finds() {
    let ratios = [(1.5, 0.2, 3.0), (1.6, 2.0, 0.4), (1.7, 2.0, 3.0), (0.9, 2.0, 3.0)];
    let mut analyzer = EkfFailureAnalyzer::new();
    let mut trackers = [
        InnovationTracker::new("velocity", "vel_test_ratio"),
        InnovationTracker::new("position", "pos_test_ratio"),
        InnovationTracker::new("height", "hgt_test_ratio"),
    ];
    let mut alone = [vec![], vec![], vec![]];
    let descriptor = analyzer.output_descriptor();
    for i in 0..40usize {
        let ts = i as u64 * 1_000_000;
        let (v, p, h) = ratios[i / 10];
        let status = sample(
            "estimator_status",
            Some(ts),
            &[],
            &[("vel_test_ratio", v), ("pos_test_ratio", p), ("hgt_test_ratio", h)],
        );
        analyzer.on_message(&status.message());
        for (c, ratio) in [v, p, h].iter().enumerate() {
            trackers[c].update(ts, single(*ratio), &descriptor, &mut alone[c]);
        }
    }
    let diags = Box::new(analyzer).finish();
    for (c, name) in ["velocity", "position", "height"].iter().enumerate() {
        let own: Vec<&str> = diags
            .iter()
            .filter(|d| match &d.evidence {
                Evidence::EkfFailure { innovation, .. } => innovation == name,
                _ => false,
            })
            .map(|d| d.summary.as_str())
            .collect();
        assert_eq!(own, summaries(&alone[c]));
        assert!(!own.is_empty());
    }
    // Velocity and height rise together: velocity is named first.
    let mut analyzer = EkfFailureAnalyzer::new();
    for ts in [0, 2_000_000] {
        analyzer.estimator_status(ts, &[Some(single(2.0)), None, Some(single(2.0))]);
    }
    let diags = Box::new(analyzer).finish();
    assert_eq!(diags[0].anchor.field, "vel_test_ratio");
    assert_eq!(diags[1].anchor.field, "hgt_test_ratio");
}

#[test]
fn ekf_time_that_runs_back_lasts_nothing() {
    let mut analyzer = EkfFailureAnalyzer::new();
    velocity(&mut analyzer, 9_000_000, 2.0);
    velocity(&mut analyzer, 1_000_000, 2.0);
    assert!(Box::new(analyzer).finish().is_empty());
}

#[test]
fn ekf_tracker_reports_into_a_list() {
    let mut tracker = InnovationTracker::new("airspeed", "tas_test_ratio");
    let mut detections = Vec::new();
    let descriptor = OutputDescriptor::new().field("innovation", FieldUnit::Label);
    tracker.update(0, single(1.5), &descriptor, &mut detections);
    tracker.update(2_500_000, single(1.5), &descriptor, &mut detections);
    assert_eq!(
        summaries(&detections),
        vec!["EKF airspeed innovation exceeded threshold for 2.5s starting at 0.0s"]
    );
    assert_eq!(detections[0].anchor.field, "tas_test_ratio");
    assert_eq!(units(&detections[0].descriptor), vec![("innovation", FieldUnit::Label)]);
}

#[test]
fn ekf_refuses_what_it_cannot_read() {
    let mut analyzer = EkfFailureAnalyzer::new();
    let fields = [("vel_test_ratio", 2.0), ("hgt_test_ratio", 2.0)];
    let status = sample("estimator_status", Some(1), &[], &fields);
    assert!(!analyzer.try_on_message(&status.cut_to(status.data.len() - 1)));
    assert!(!analyzer.try_on_message(&status.cut_to(9)));
    assert!(analyzer.try_on_message(&status.message()));
    let other = sample("estimator_states", Some(1), &[], &fields);
    assert!(analyzer.try_on_message(&other.cut_to(0)));
}

// GPS.

fn gps(eph: f32, epv: f32, sats: u8) -> GpsSample {
    GpsSample { eph: Some(single(eph)), epv: Some(single(epv)), sats: Some(sats) }
}

/// An analyzer that has its baseline.
fn baseline(eph: f32, sats: &[u8; 10]) -> GpsInterferenceAnalyzer {
    let mut analyzer = GpsInterferenceAnalyzer::new();
    for (i, n) in sats.iter().enumerate() {
        analyzer.position((i as u64 + 1) * 1_000_000, gps(eph, 1.0, *n));
    }
    analyzer
}

#[test]
fn gps_describes_itself() {
    let analyzer = GpsInterferenceAnalyzer::default();
    assert_eq!(analyzer.id(), "gps_interference");
    assert_eq!(analyzer.description(), "EPH/EPV spike, satellite count drop");
    assert_eq!(analyzer.required_topics(), &["vehicle_gps_position"]);
    assert_eq!(
        units(&analyzer.output_descriptor()),
        vec![
            ("eph_m", FieldUnit::Meters),
            ("epv_m", FieldUnit::Meters),
            ("num_satellites", FieldUnit::Count),
            ("noise_level", FieldUnit::Ratio),
        ]
    );
    assert!(Box::new(analyzer).finish().is_empty());
}

#[test]
fn gps_baseline_is_silent_and_settled() {
    let mut analyzer = GpsInterferenceAnalyzer::new();
    for i in 0..9u64 {
        analyzer.position(i * 6_000_000, gps(1.0, 99.0, 12));
    }
    // The tenth sample is part of the baseline, however bad.
    analyzer.position(54_000_000, gps(8.5, 99.0, 2));
    // Mean EPH 1.75 m, mean of 11 satellites. Later samples do not move it.
    for i in 10..100u64 {
        analyzer.position(i * 6_000_000, gps(4.9, 1.0, 6));
    }
    analyzer.position(700_000_000, gps(5.25, 1.0, 5));
    let diags = Box::new(analyzer).finish();
    assert_eq!(
        summaries(&diags),
        vec!["GPS quality degraded at 700.0s: EPH 5.2m (baseline 1.8m), satellites 5 (baseline 11)"]
    );
    assert_eq!(diags[0].severity, Severity::Warning);
    assert_eq!(diags[0].kind, AnomalyKind::Point);
    assert_eq!(diags[0].anchor.field, "eph");
    match &diags[0].evidence {
        Evidence::GpsInterference { eph_m, epv_m, num_satellites, noise_level } => {
            assert_eq!(native(*eph_m), 5.25);
            assert_eq!(native(*epv_m), 1.0);
            assert_eq!(*num_satellites, 5);
            assert!(noise_level.is_none());
        }
        other => panic!("{:?}", other),
    }
}

#[test]
fn gps_all_reasons_are_named() {
    let mut analyzer = baseline(0.5, &[14; 10]);
    analyzer.position(20_000_000, gps(25.0, 30.06, 3));
    let diags = Box::new(analyzer).finish();
    assert_eq!(
        summaries(&diags),
        vec![
            "GPS quality degraded at 20.0s: EPH 25.0m (baseline 0.5m), EPV 30.1m, \
             satellites 3 (baseline 14)"
        ]
    );
    assert_eq!(diags[0].severity, Severity::Critical);
}

#[test]
fn gps_poor_baseline_hides_horizontal_errors() {
    let mut analyzer = baseline(2.0, &[14; 10]);
    analyzer.position(20_000_000, gps(50.0, 1.0, 14));
    assert!(Box::new(analyzer).finish().is_empty());
    let mut analyzer = baseline(1.9, &[14; 10]);
    analyzer.position(20_000_000, gps(50.0, 1.0, 14));
    assert_eq!(severities(&Box::new(analyzer).finish()), vec![Severity::Critical]);
}

#[test]
fn gps_thresholds_themselves_are_good() {
    let mut analyzer = baseline(1.0, &[12; 10]);
    analyzer.position(20_000_000, gps(5.0, 10.0, 6));
    for bad in [f32::NAN, f32::INFINITY] {
        analyzer.position(30_000_000, gps(bad, bad, 12));
    }
    assert!(Box::new(analyzer).finish().is_empty());
}

#[test]
fn gps_satellite_drop_is_exact() {
    // The mean is 11.1: five are too few, six are not.
    let sats = [11, 11, 11, 11, 11, 11, 11, 11, 11, 12];
    let mut analyzer = baseline(1.0, &sats);
    analyzer.position(20_000_000, gps(1.0, 1.0, 6));
    analyzer.position(21_000_000, gps(1.0, 1.0, 5));
    let diags = Box::new(analyzer).finish();
    assert_eq!(
        summaries(&diags),
        vec!["GPS quality degraded at 21.0s: satellites 5 (baseline 11)"]
    );
    // Without satellites in the baseline there is nothing to drop from.
    let mut analyzer = baseline(1.0, &[0; 10]);
    analyzer.position(20_000_000, gps(1.0, 1.0, 0));
    assert!(Box::new(analyzer).finish().is_empty());
}

#[test]
fn gps_missing_fields_count_as_zero() {
    let mut analyzer = baseline(1.0, &[12; 10]);
    analyzer.position(20_000_000, GpsSample { eph: None, epv: None, sats: None });
    let diags = Box::new(analyzer).finish();
    assert_eq!(
        summaries(&diags),
        vec!["GPS quality degraded at 20.0s: satellites 0 (baseline 12)"]
    );
    assert_eq!(diags[0].severity, Severity::Critical);
}

#[test]
fn gps_findings_keep_their_distance() {
    let mut analyzer = baseline(1.0, &[12; 10]);
    for ts in [20_000_000, 24_999_999, 25_000_000, 0, 5_000_000] {
        analyzer.position(ts, gps(8.0, 1.0, 12));
    }
    assert_eq!(times(&Box::new(analyzer).finish()), vec![20_000_000, 25_000_000, 0, 5_000_000]);
}

#[test]
fn gps_first_spike_is_reported_at_once() {
    let mut analyzer = GpsInterferenceAnalyzer::new();
    for k in 1..=10u64 {
        let good = sample(
            "vehicle_gps_position",
            Some(k * 100_000),
            &[("satellites_used", 12)],
            &[("eph", 1.0), ("epv", 1.0)],
        );
        analyzer.on_message(&good.message());
    }
    let bad = sample(
        "vehicle_gps_position",
        Some(2_000_000),
        &[("satellites_used", 12)],
        &[("eph", 8.0), ("epv", 2.0)],
    );
    analyzer.on_message(&bad.message());
    let diags = Box::new(analyzer).finish();
    assert_eq!(times(&diags), vec![2_000_000]);
    assert_eq!(severities(&diags), vec![Severity::Warning]);
}

#[test]
fn gps_refuses_what_it_cannot_read() {
    let mut analyzer = baseline(1.0, &[12; 10]);
    let bytes = [("satellites_used", 12)];
    let floats = [("eph", 8.0), ("epv", 1.0)];
    let bad = sample("vehicle_gps_position", Some(20_000_000), &bytes, &floats);
    for len in [0, 9, 10, 14, 18] {
        assert!(!analyzer.try_on_message(&bad.cut_to(len)));
    }
    assert!(analyzer.try_on_message(&bad.message()));
    let early = sample("vehicle_gps_position", Some(19_000_000), &bytes, &floats);
    assert!(!analyzer.try_on_message(&early.message()));
    let other = sample("vehicle_global_position", Some(1), &bytes, &floats);
    assert!(analyzer.try_on_message(&other.cut_to(0)));
    assert_eq!(times(&Box::new(analyzer).finish()), vec![20_000_000]);
}

// Motors.

fn armed_motors() -> MotorFailureAnalyzer {
    let mut analyzer = MotorFailureAnalyzer::new();
    analyzer.vehicle_status(Some(2), Some(3));
    analyzer
}

fn outputs(values: &[f32]) -> Vec<Option<Float32>> {
    values.iter().map(|x| Some(single(*x))).collect()
}

#[test]
fn motor_describes_itself() {
    let analyzer = MotorFailureAnalyzer::default();
    assert_eq!(analyzer.id(), "motor_failure");
    assert_eq!(analyzer.description(), "PWM drop/lock detection while armed");
    assert_eq!(analyzer.required_topics(), &["actuator_outputs", "vehicle_status"]);
    assert_eq!(
        units(&analyzer.output_descriptor()),
        vec![
            ("motor_index", FieldUnit::Count),
            ("pwm_value", FieldUnit::Pwm),
            ("flight_mode", FieldUnit::Label),
        ]
    );
    assert!(Box::new(analyzer).finish().is_empty());
}

#[test]
fn motor_lock_takes_a_full_window_and_is_reported_once() {
    let mut analyzer = armed_motors();
    for i in 0..49u64 {
        analyzer.actuator_outputs(i * 100_000, &outputs(&[1900.0, 1500.0]));
    }
    // One output below the maximum leaves the window only fifty outputs later.
    analyzer.actuator_outputs(4_900_000, &outputs(&[1899.0, 1500.0]));
    for i in 50..200u64 {
        analyzer.actuator_outputs(i * 100_000, &outputs(&[2000.0, 1500.0]));
    }
    let diags = Box::new(analyzer).finish();
    assert_eq!(
        summaries(&diags),
        vec!["Motor 0 locked at max PWM from 5.0s to 9.9s while armed"]
    );
    assert_eq!(diags[0].severity, Severity::Warning);
    assert_eq!(diags[0].kind, AnomalyKind::Region);
    assert_eq!(diags[0].timestamp_us, 5_000_000);
    assert_eq!(diags[0].end_timestamp_us, Some(9_900_000));
    assert_eq!(diags[0].anchor.field, "output[0]");
    match &diags[0].evidence {
        Evidence::MotorFailure { motor_index, pwm_value, mode, flight_mode } => {
            assert_eq!(*motor_index, 0);
            assert_eq!(native(*pwm_value), 2000.0);
            assert_eq!(*mode, MotorFailureMode::LockedAtMax);
            assert_eq!(flight_mode, "Mission");
        }
        other => panic!("{:?}", other),
    }
}

#[test]
fn motor_output_that_is_no_number_breaks_the_lock() {
    let mut analyzer = armed_motors();
    for i in 0..60u64 {
        let x = if i == 30 { f32::NAN } else { 1950.0 };
        analyzer.actuator_outputs(i * 100_000, &outputs(&[x]));
    }
    assert!(Box::new(analyzer).finish().is_empty());
    let mut analyzer = armed_motors();
    for i in 0..50u64 {
        analyzer.actuator_outputs(i * 100_000, &outputs(&[f32::INFINITY]));
    }
    assert_eq!(Box::new(analyzer).finish().len(), 1);
}

#[test]
fn motor_only_drops_after_it_ran() {
    let mut analyzer = armed_motors();
    analyzer.actuator_outputs(1_000_000, &outputs(&[0.0, -0.0, 0.0]));
    analyzer.actuator_outputs(2_000_000, &outputs(&[0.0, 1200.0, f32::NAN]));
    analyzer.actuator_outputs(3_000_000, &outputs(&[0.0, -0.0, 0.0]));
    analyzer.actuator_outputs(4_000_000, &outputs(&[0.0, 1200.0, 0.0]));
    analyzer.actuator_outputs(5_000_000, &outputs(&[0.0, 0.0, 0.0]));
    let diags = Box::new(analyzer).finish();
    assert_eq!(
        summaries(&diags),
        vec![
            "Motor 1 output dropped to 0 PWM at 3.0s while armed in Mission mode",
            "Motor 2 output dropped to 0 PWM at 3.0s while armed in Mission mode",
        ]
    );
    assert_eq!(severities(&diags), vec![Severity::Critical, Severity::Critical]);
}

#[test]
fn motor_outputs_do_not_count_while_disarmed() {
    let mut analyzer = MotorFailureAnalyzer::new();
    analyzer.actuator_outputs(1_000_000, &outputs(&[1500.0, 1500.0]));
    analyzer.vehicle_status(Some(2), None);
    analyzer.actuator_outputs(2_000_000, &outputs(&[0.0]));
    analyzer.actuator_outputs(3_000_000, &outputs(&[1500.0]));
    analyzer.vehicle_status(Some(1), None);
    analyzer.actuator_outputs(4_000_000, &outputs(&[0.0]));
    analyzer.vehicle_status(Some(2), None);
    analyzer.actuator_outputs(5_000_000, &outputs(&[0.0]));
    let diags = Box::new(analyzer).finish();
    assert_eq!(
        summaries(&diags),
        vec!["Motor 0 output dropped to 0 PWM at 5.0s while armed in Unknown mode"]
    );
}

#[test]
fn motor_count_is_settled_by_the_first_outputs() {
    let mut analyzer = armed_motors();
    // A gap ends the count.
    let gap = sample(
        "actuator_outputs",
        Some(1_000_000),
        &[],
        &[("output[0]", 1500.0), ("output[1]", 1500.0), ("output[3]", 1500.0)],
    );
    analyzer.on_message(&gap.message());
    let more = sample(
        "actuator_outputs",
        Some(2_000_000),
        &[],
        &[("output[0]", 1500.0), ("output[1]", 1500.0), ("output[2]", 1500.0)],
    );
    analyzer.on_message(&more.message());
    // A missing output is passed over.
    let fewer = sample("actuator_outputs", Some(3_000_000), &[], &[("output[1]", 0.0)]);
    analyzer.on_message(&fewer.message());
    let none = sample(
        "actuator_outputs",
        Some(4_000_000),
        &[],
        &[("output[0]", 0.0), ("output[1]", 0.0), ("output[2]", 0.0), ("output[3]", 0.0)],
    );
    analyzer.on_message(&none.message());
    let diags = Box::new(analyzer).finish();
    assert_eq!(times(&diags), vec![3_000_000, 4_000_000]);
    assert_eq!(diags[0].anchor.field, "output[1]");
    assert_eq!(diags[1].anchor.field, "output[0]");
}

#[test]
fn motor_count_has_a_limit() {
    let names: Vec<String> = (0..20).map(|i| format!("output[{}]", i)).collect();
    let running: Vec<(&str, f32)> = names.iter().map(|n| (n.as_str(), 1500.0)).collect();
    let stopped: Vec<(&str, f32)> = names.iter().map(|n| (n.as_str(), 0.0)).collect();
    let mut analyzer = armed_motors();
    analyzer.on_message(&sample("actuator_outputs", Some(1), &[], &running).message());
    analyzer.on_message(&sample("actuator_outputs", Some(2), &[], &stopped).message());
    let diags = Box::new(analyzer).finish();
    assert_eq!(diags.len(), 16);
    assert_eq!(diags[15].anchor.field, "output[15]");
}

#[test]
fn motor_refuses_what_it_cannot_read() {
    let mut analyzer = armed_motors();
    let floats = [("output[0]", 1500.0), ("output[1]", 1500.0)];
    let first = sample("actuator_outputs", Some(1), &[], &floats);
    for len in [0, 9, 13, 17] {
        assert!(!analyzer.try_on_message(&first.cut_to(len)));
    }
    assert!(analyzer.try_on_message(&first.message()));
    assert!(!analyzer.try_on_message(&first.cut_to(17)));
    let status = sample("vehicle_status", Some(1), &[("arming_state", 1), ("nav_state", 0)], &[]);
    assert!(!analyzer.try_on_message(&status.cut_to(11)));
    assert!(analyzer.try_on_message(&status.message()));
    // Disarmed, outputs are not even read.
    assert!(analyzer.try_on_message(&first.cut_to(0)));
    assert!(Box::new(analyzer).finish().is_empty());
}

#[test]
fn flight_modes_have_names() {
    assert_eq!(nav_state_name(0), "Manual");
    assert_eq!(nav_state_name(2), "Position");
    assert_eq!(nav_state_name(5), "Return");
    assert_eq!(nav_state_name(14), "Offboard");
    assert_eq!(nav_state_name(200), "Unknown");
    assert!(next_armed(false, Some(2)));
    assert!(!next_armed(true, Some(1)));
    assert!(next_armed(true, None));
}

// Remote control.

fn armed_rc() -> RcLossAnalyzer {
    let mut analyzer = RcLossAnalyzer::new();
    analyzer.vehicle_status(1_000_000, Some(2));
    analyzer.input_rc(2_000_000, Some(0));
    analyzer
}

#[test]
fn rc_describes_itself() {
    let analyzer = RcLossAnalyzer::default();
    assert_eq!(analyzer.id(), "rc_loss");
    assert_eq!(analyzer.description(), "RC signal loss during armed flight");
    assert_eq!(analyzer.required_topics(), &["input_rc", "vehicle_status"]);
    assert_eq!(
        units(&analyzer.output_descriptor()),
        vec![
            ("last_signal_timestamp_us", FieldUnit::Microseconds),
            ("signal_lost_duration_ms", FieldUnit::Milliseconds),
        ]
    );
    assert!(Box::new(analyzer).finish().is_empty());
}

#[test]
fn rc_loss_is_timed_from_its_first_message() {
    let mut analyzer = armed_rc();
    for ts in [3_000_000, 3_500_000, 4_000_000] {
        analyzer.input_rc(ts, Some(1));
        analyzer.vehicle_status(ts + 1, Some(2));
    }
    analyzer.input_rc(4_500_000, Some(0));
    analyzer.input_rc(5_000_000, Some(0));
    let diags = Box::new(analyzer).finish();
    assert_eq!(
        summaries(&diags),
        vec!["RC signal lost for 1.5s starting at 3.0s while armed"]
    );
    assert_eq!(diags[0].end_timestamp_us, Some(4_500_000));
    assert_eq!(diags[0].kind, AnomalyKind::Region);
    assert_eq!(diags[0].anchor.topic, "input_rc");
    assert_eq!(diags[0].anchor.field, "rc_lost");
    match &diags[0].evidence {
        Evidence::RcLoss { last_signal_timestamp_us, signal_lost_duration_ms } => {
            assert_eq!(*last_signal_timestamp_us, 2_000_000);
            assert_eq!(*signal_lost_duration_ms, 1_500);
        }
        other => panic!("{:?}", other),
    }
}

#[test]
fn rc_loss_durations_decide_what_is_reported() {
    let mut analyzer = armed_rc();
    for (start, end) in [
        (10_000_000, 10_499_999),
        (20_000_000, 20_500_000),
        (30_000_000, 34_999_999),
        (40_000_000, 45_000_000),
        (60_000_000, 50_000_000),
    ] {
        analyzer.input_rc(start, Some(255));
        analyzer.input_rc(end, None);
    }
    let diags = Box::new(analyzer).finish();
    assert_eq!(times(&diags), vec![20_000_000, 30_000_000, 40_000_000]);
    assert_eq!(
        severities(&diags),
        vec![Severity::Warning, Severity::Warning, Severity::Critical]
    );
}

#[test]
fn rc_loss_while_disarmed_is_ignored() {
    let mut analyzer = RcLossAnalyzer::new();
    analyzer.input_rc(1_000_000, Some(1));
    analyzer.vehicle_status(2_000_000, Some(2));
    analyzer.input_rc(9_000_000, Some(0));
    assert!(Box::new(analyzer).finish().is_empty());
}

#[test]
fn rc_loss_ends_with_disarming() {
    let mut analyzer = armed_rc();
    analyzer.input_rc(3_000_000, Some(1));
    analyzer.vehicle_status(4_000_000, None);
    analyzer.vehicle_status(9_000_000, Some(1));
    analyzer.input_rc(20_000_000, Some(0));
    let diags = Box::new(analyzer).finish();
    assert_eq!(times(&diags), vec![3_000_000]);
    assert_eq!(diags[0].end_timestamp_us, Some(9_000_000));
    assert_eq!(diags[0].severity, Severity::Critical);
}

#[test]
fn rc_loss_that_outlasts_the_log_ends_with_it() {
    let mut analyzer = armed_rc();
    analyzer.input_rc(3_000_000, Some(1));
    analyzer.input_rc(9_000_000, Some(1));
    let diags = Box::new(analyzer).finish();
    assert_eq!(
        summaries(&diags),
        vec!["RC signal lost for 6.0s starting at 3.0s while armed"]
    );
    assert_eq!(severities(&diags), vec![Severity::Critical]);
    assert_eq!(times(&diags), vec![3_000_000]);
    assert_eq!(diags[0].end_timestamp_us, Some(9_000_000));
    match &diags[0].evidence {
        Evidence::RcLoss { last_signal_timestamp_us, signal_lost_duration_ms } => {
            assert_eq!(*last_signal_timestamp_us, 2_000_000);
            assert_eq!(*signal_lost_duration_ms, 6_000);
        }
        other => panic!("{:?}", other),
    }
    // The vehicle's status tells the time too.
    let mut analyzer = armed_rc();
    analyzer.input_rc(3_000_000, Some(1));
    analyzer.vehicle_status(4_000_000, Some(2));
    let diags = Box::new(analyzer).finish();
    assert_eq!(diags[0].end_timestamp_us, Some(4_000_000));
    assert_eq!(severities(&diags), vec![Severity::Warning]);
    // A short loss is not reported at the end of the log either.
    let mut analyzer = armed_rc();
    analyzer.input_rc(3_000_000, Some(1));
    analyzer.input_rc(3_499_999, Some(1));
    assert!(Box::new(analyzer).finish().is_empty());
}

#[test]
fn rc_losses_do_not_overlap() {
    let mut analyzer = armed_rc();
    for (ts, flag) in [(3, 1), (4, 0), (4, 1), (6, 0), (7, 1), (8, 1)] {
        analyzer.input_rc(ts * 1_000_000, Some(flag));
    }
    let diags = Box::new(analyzer).finish();
    assert_eq!(times(&diags), vec![3_000_000, 4_000_000, 7_000_000]);
    let ends: Vec<Option<u64>> = diags.iter().map(|d| d.end_timestamp_us).collect();
    assert_eq!(ends, vec![Some(4_000_000), Some(6_000_000), Some(8_000_000)]);
}

#[test]
fn rc_refuses_what_it_cannot_read() {
    let mut analyzer = RcLossAnalyzer::new();
    let status = sample("vehicle_status", Some(1), &[("arming_state", 2)], &[]);
    assert!(!analyzer.try_on_message(&status.cut_to(10)));
    assert!(analyzer.try_on_message(&status.message()));
    let input = sample("input_rc", Some(2_000_000), &[("rc_lost", 1)], &[]);
    assert!(!analyzer.try_on_message(&input.cut_to(10)));
    assert!(analyzer.try_on_message(&input.message()));
    // The time is read of every message.
    let other = sample("other", Some(1), &[], &[]);
    assert!(!analyzer.try_on_message(&other.cut_to(9)));
    assert!(analyzer.try_on_message(&other.message()));
    let back = sample("input_rc", Some(4_000_000), &[("rc_lost", 0)], &[]);
    assert!(analyzer.try_on_message(&back.message()));
    assert_eq!(times(&Box::new(analyzer).finish()), vec![2_000_000]);
}

#[test]
fn other_topics_are_ignored_by_all() {
    let odd = sample(
        "sensor_combined",
        Some(9_000_000),
        &[("arming_state", 2), ("rc_lost", 1), ("satellites_used", 1)],
        &[("voltage_v", 3.0), ("vel_test_ratio", 9.0), ("eph", 99.0), ("output[0]", 0.0)],
    );
    let mut battery = armed_battery(16.8);
    let mut ekf = EkfFailureAnalyzer::new();
    let mut position = baseline(1.0, &[12; 10]);
    let mut motor = armed_motors();
    let mut rc = armed_rc();
    for _ in 0..60 {
        battery.on_message(&odd.message());
        ekf.on_message(&odd.message());
        position.on_message(&odd.message());
        motor.on_message(&odd.message());
        rc.on_message(&odd.message());
    }
    assert!(Box::new(battery).finish().is_empty());
    assert!(Box::new(ekf).finish().is_empty());
    assert!(Box::new(position).finish().is_empty());
    assert!(Box::new(motor).finish().is_empty());
    assert!(Box::new(rc).finish().is_empty());
}
