use flight_diagnostics::battery_brownout::BatteryBrownoutAnalyzer;
use flight_diagnostics::diagnostic::{AnomalyKind, Evidence, MotorFailureMode, Severity};
use flight_diagnostics::ekf_failure::EkfFailureAnalyzer;
use flight_diagnostics::float32::Float32;
use flight_diagnostics::gps_interference::{GpsInterferenceAnalyzer, BASELINE_SAMPLES};
use flight_diagnostics::motor_failure::MotorFailureAnalyzer;
use flight_diagnostics::rc_loss::RcLossAnalyzer;
use px4_ulog::stream_parser::model::{
    DataMessage, FlattenedField, FlattenedFieldType, FlattenedFormat, MultiId,
};
use px4_ulog::stream_parser::LogParser;

fn single(x: f32) -> Float32 {
    Float32::from_bits(x.to_bits())
}

fn native(x: Float32) -> f32 {
    f32::from_bits(x.to_bits())
}

/// Builds a message's format and payload field by field.
struct MessageBuilder {
    name: String,
    fields: Vec<FlattenedField>,
    data: Vec<u8>,
}

impl MessageBuilder {
    fn new(name: &str) -> Self {
        // A payload begins with the two bytes of the message id.
        MessageBuilder { name: name.to_string(), fields: vec![], data: vec![0, 0] }
    }

    fn push(mut self, name: &str, field_type: FlattenedFieldType, bytes: &[u8]) -> Self {
        self.fields.push(FlattenedField {
            flattened_field_name: name.to_string(),
            field_type,
            offset: self.data.len() as u16,
        });
        self.data.extend_from_slice(bytes);
        self
    }

    fn timestamp(self, ts: u64) -> Self {
        self.push("timestamp", FlattenedFieldType::UInt64, &ts.to_le_bytes())
    }

    fn field_u8(self, name: &str, value: u8) -> Self {
        self.push(name, FlattenedFieldType::UInt8, &[value])
    }

    fn field_f32(self, name: &str, value: f32) -> Self {
        self.push(name, FlattenedFieldType::Float, &value.to_le_bytes())
    }

    fn build(self) -> (FlattenedFormat, Vec<u8>) {
        let size = self.data.len() as u16;
        (FlattenedFormat::new(self.name, self.fields, size).unwrap(), self.data)
    }
}

fn make_data_message<'a>(fmt: &'a FlattenedFormat, data: &'a [u8]) -> DataMessage<'a> {
    DataMessage { msg_id: 0, multi_id: MultiId::new(0), flattened_format: fmt, data }
}

#[test]
fn detects_low_voltage() {
    let mut analyzer = BatteryBrownoutAnalyzer::new();

    // Arm
    let (fmt, data) = MessageBuilder::new("vehicle_status")
        .timestamp(1_000_000)
        .field_u8("arming_state", 2)
        .build();
    let dm = make_data_message(&fmt, &data);
    analyzer.on_message(&dm);

    // Initial battery reading at ~4S (16.8V full)
    let (fmt2, data2) = MessageBuilder::new("battery_status")
        .timestamp(2_000_000)
        .field_f32("voltage_v", 16.0)
        .field_f32("current_a", 10.0)
        .build();
    let dm2 = make_data_message(&fmt2, &data2);
    analyzer.on_message(&dm2);

    // Voltage drops below critical (4 * 3.3 = 13.2V)
    let (fmt3, data3) = MessageBuilder::new("battery_status")
        .timestamp(40_000_000)
        .field_f32("voltage_v", 12.5)
        .field_f32("current_a", 15.0)
        .build();
    let dm3 = make_data_message(&fmt3, &data3);
    analyzer.on_message(&dm3);

    let diags = Box::new(analyzer).finish();
    assert_eq!(diags.len(), 1);
    assert_eq!(diags[0].severity, Severity::Critical);
    match &diags[0].evidence {
        Evidence::BatteryBrownout {
            voltage_v,
            critical_threshold_v,
            current_a,
        } => {
            assert!(native(*voltage_v) < native(*critical_threshold_v));
            assert_eq!(current_a.map(native), Some(15.0));
        }
        _ => panic!("Expected BatteryBrownout evidence"),
    }
}

#[test]
fn battery_brownout_no_detection_when_disarmed() {
    let mut analyzer = BatteryBrownoutAnalyzer::new();

    // Stay disarmed
    let (fmt, data) = MessageBuilder::new("vehicle_status")
        .timestamp(1_000_000)
        .field_u8("arming_state", 0)
        .build();
    let dm = make_data_message(&fmt, &data);
    analyzer.on_message(&dm);

    // Initial reading
    let (fmt2, data2) = MessageBuilder::new("battery_status")
        .timestamp(2_000_000)
        .field_f32("voltage_v", 16.0)
        .build();
    let dm2 = make_data_message(&fmt2, &data2);
    analyzer.on_message(&dm2);

    // Low voltage while disarmed
    let (fmt3, data3) = MessageBuilder::new("battery_status")
        .timestamp(10_000_000)
        .field_f32("voltage_v", 10.0)
        .build();
    let dm3 = make_data_message(&fmt3, &data3);
    analyzer.on_message(&dm3);

    let diags = Box::new(analyzer).finish();
    assert!(diags.is_empty());
}

#[test]
fn battery_brownout_handles_missing_fields() {
    let mut analyzer = BatteryBrownoutAnalyzer::new();

    let (fmt, data) = MessageBuilder::new("battery_status")
        .timestamp(1_000_000)
        .build();
    let dm = make_data_message(&fmt, &data);
    analyzer.on_message(&dm); // must not panic

    let diags = Box::new(analyzer).finish();
    assert!(diags.is_empty());
}

#[test]
fn battery_brownout_deduplicates_within_interval() {
    let mut analyzer = BatteryBrownoutAnalyzer::new();

    let (fmt, data) = MessageBuilder::new("vehicle_status")
        .timestamp(1_000_000)
        .field_u8("arming_state", 2)
        .build();
    let dm = make_data_message(&fmt, &data);
    analyzer.on_message(&dm);

    // Initial reading
    let (fmt2, data2) = MessageBuilder::new("battery_status")
        .timestamp(2_000_000)
        .field_f32("voltage_v", 16.0)
        .build();
    let dm2 = make_data_message(&fmt2, &data2);
    analyzer.on_message(&dm2);

    // Two low readings within dedup interval (30s)
    for ts in [40_000_000u64, 50_000_000] {
        let (fmt3, data3) = MessageBuilder::new("battery_status")
            .timestamp(ts)
            .field_f32("voltage_v", 12.0)
            .build();
        let dm3 = make_data_message(&fmt3, &data3);
        analyzer.on_message(&dm3);
    }

    let diags = Box::new(analyzer).finish();
    assert_eq!(diags.len(), 1, "Should deduplicate within 2s interval");
}

#[test]
fn cell_count_estimation() {
    assert_eq!(BatteryBrownoutAnalyzer::estimate_cell_count(single(16.8)), 4);
    assert_eq!(BatteryBrownoutAnalyzer::estimate_cell_count(single(12.6)), 3);
    assert_eq!(BatteryBrownoutAnalyzer::estimate_cell_count(single(25.2)), 6);
    assert_eq!(BatteryBrownoutAnalyzer::estimate_cell_count(single(4.2)), 1);
}

#[test]
fn detects_sustained_velocity_failure() {
    let mut analyzer = EkfFailureAnalyzer::new();

    // Feed 3 seconds of high velocity test ratio (> warning threshold)
    for i in 0..30 {
        let ts = (i as u64 + 1) * 100_000; // 100ms intervals, 3s total
        let (fmt, data) = MessageBuilder::new("estimator_status")
            .timestamp(ts)
            .field_f32("vel_test_ratio", 1.5)
            .field_f32("pos_test_ratio", 0.3)
            .field_f32("hgt_test_ratio", 0.2)
            .build();
        let dm = make_data_message(&fmt, &data);
        analyzer.on_message(&dm);
    }

    let diags = Box::new(analyzer).finish();
    assert_eq!(diags.len(), 1);
    assert_eq!(diags[0].severity, Severity::Warning);
    match &diags[0].evidence {
        Evidence::EkfFailure { innovation, .. } => {
            assert_eq!(innovation, "velocity");
        }
        _ => panic!("Expected EkfFailure evidence"),
    }
}

#[test]
fn escalates_to_critical() {
    let mut analyzer = EkfFailureAnalyzer::new();

    // Feed 6 seconds of high test ratio (> critical threshold)
    for i in 0..60 {
        let ts = (i as u64 + 1) * 100_000;
        let (fmt, data) = MessageBuilder::new("estimator_status")
            .timestamp(ts)
            .field_f32("vel_test_ratio", 2.0)
            .field_f32("pos_test_ratio", 0.3)
            .field_f32("hgt_test_ratio", 0.2)
            .build();
        let dm = make_data_message(&fmt, &data);
        analyzer.on_message(&dm);
    }

    let diags = Box::new(analyzer).finish();
    // Should have both warning and critical (warning fires first at 2s, critical at 5s)
    assert_eq!(diags.len(), 2);
    assert_eq!(diags[0].severity, Severity::Warning);
    assert_eq!(diags[1].severity, Severity::Critical);
}

#[test]
fn resets_on_recovery() {
    let mut analyzer = EkfFailureAnalyzer::new();

    // 1.5s of exceedance (below warning threshold)
    for i in 0..15 {
        let ts = (i as u64 + 1) * 100_000;
        let (fmt, data) = MessageBuilder::new("estimator_status")
            .timestamp(ts)
            .field_f32("vel_test_ratio", 1.5)
            .build();
        let dm = make_data_message(&fmt, &data);
        analyzer.on_message(&dm);
    }

    // Recovery
    let (fmt, data) = MessageBuilder::new("estimator_status")
        .timestamp(2_000_000)
        .field_f32("vel_test_ratio", 0.5)
        .build();
    let dm = make_data_message(&fmt, &data);
    analyzer.on_message(&dm);

    let diags = Box::new(analyzer).finish();
    assert!(diags.is_empty(), "Should not fire if ratio drops before warning duration");
}

#[test]
fn ekf_failure_handles_missing_fields() {
    let mut analyzer = EkfFailureAnalyzer::new();

    let (fmt, data) = MessageBuilder::new("estimator_status")
        .timestamp(1_000_000)
        .build();
    let dm = make_data_message(&fmt, &data);
    analyzer.on_message(&dm); // must not panic

    let diags = Box::new(analyzer).finish();
    assert!(diags.is_empty());
}

#[test]
fn detects_eph_spike() {
    let mut analyzer = GpsInterferenceAnalyzer::new();

    // Feed baseline samples with good EPH
    for i in 0..BASELINE_SAMPLES {
        let (fmt, data) = MessageBuilder::new("vehicle_gps_position")
            .timestamp((i as u64 + 1) * 1_000_000)
            .field_f32("eph", 1.0)
            .field_f32("epv", 1.0)
            .field_u8("satellites_used", 12)
            .build();
        let dm = make_data_message(&fmt, &data);
        analyzer.on_message(&dm);
    }

    // Spike EPH
    let (fmt, data) = MessageBuilder::new("vehicle_gps_position")
        .timestamp(20_000_000)
        .field_f32("eph", 8.0)
        .field_f32("epv", 2.0)
        .field_u8("satellites_used", 12)
        .build();
    let dm = make_data_message(&fmt, &data);
    analyzer.on_message(&dm);

    let diags = Box::new(analyzer).finish();
    assert_eq!(diags.len(), 1);
    assert_eq!(diags[0].severity, Severity::Warning);
}

#[test]
fn detects_critical_eph() {
    let mut analyzer = GpsInterferenceAnalyzer::new();

    for i in 0..BASELINE_SAMPLES {
        let (fmt, data) = MessageBuilder::new("vehicle_gps_position")
            .timestamp((i as u64 + 1) * 1_000_000)
            .field_f32("eph", 1.0)
            .field_f32("epv", 1.0)
            .field_u8("satellites_used", 12)
            .build();
        let dm = make_data_message(&fmt, &data);
        analyzer.on_message(&dm);
    }

    // Critical EPH spike
    let (fmt, data) = MessageBuilder::new("vehicle_gps_position")
        .timestamp(20_000_000)
        .field_f32("eph", 15.0)
        .field_f32("epv", 2.0)
        .field_u8("satellites_used", 12)
        .build();
    let dm = make_data_message(&fmt, &data);
    analyzer.on_message(&dm);

    let diags = Box::new(analyzer).finish();
    assert_eq!(diags.len(), 1);
    assert_eq!(diags[0].severity, Severity::Critical);
}

#[test]
fn detects_satellite_drop() {
    let mut analyzer = GpsInterferenceAnalyzer::new();

    for i in 0..BASELINE_SAMPLES {
        let (fmt, data) = MessageBuilder::new("vehicle_gps_position")
            .timestamp((i as u64 + 1) * 1_000_000)
            .field_f32("eph", 1.0)
            .field_f32("epv", 1.0)
            .field_u8("satellites_used", 12)
            .build();
        let dm = make_data_message(&fmt, &data);
        analyzer.on_message(&dm);
    }

    // Satellite drop to 3 (critical)
    let (fmt, data) = MessageBuilder::new("vehicle_gps_position")
        .timestamp(20_000_000)
        .field_f32("eph", 1.5)
        .field_f32("epv", 1.5)
        .field_u8("satellites_used", 3)
        .build();
    let dm = make_data_message(&fmt, &data);
    analyzer.on_message(&dm);

    let diags = Box::new(analyzer).finish();
    assert_eq!(diags.len(), 1);
    assert_eq!(diags[0].severity, Severity::Critical);
}

#[test]
fn gps_interference_handles_missing_fields() {
    let mut analyzer = GpsInterferenceAnalyzer::new();

    let (fmt, data) = MessageBuilder::new("vehicle_gps_position")
        .timestamp(1_000_000)
        .build();
    let dm = make_data_message(&fmt, &data);
    analyzer.on_message(&dm); // must not panic

    let diags = Box::new(analyzer).finish();
    assert!(diags.is_empty());
}

#[test]
fn gps_interference_deduplicates_within_interval() {
    let mut analyzer = GpsInterferenceAnalyzer::new();

    for i in 0..BASELINE_SAMPLES {
        let (fmt, data) = MessageBuilder::new("vehicle_gps_position")
            .timestamp((i as u64 + 1) * 1_000_000)
            .field_f32("eph", 1.0)
            .field_f32("epv", 1.0)
            .field_u8("satellites_used", 12)
            .build();
        let dm = make_data_message(&fmt, &data);
        analyzer.on_message(&dm);
    }

    // Two spikes within dedup interval
    for ts in [20_000_000u64, 22_000_000] {
        let (fmt, data) = MessageBuilder::new("vehicle_gps_position")
            .timestamp(ts)
            .field_f32("eph", 8.0)
            .field_f32("epv", 2.0)
            .field_u8("satellites_used", 12)
            .build();
        let dm = make_data_message(&fmt, &data);
        analyzer.on_message(&dm);
    }

    let diags = Box::new(analyzer).finish();
    assert_eq!(diags.len(), 1, "Should deduplicate within 5s interval");
}

#[test]
fn detects_pwm_drop_to_zero() {
    let mut analyzer = MotorFailureAnalyzer::new();

    // Arm the vehicle
    let (fmt, data) = MessageBuilder::new("vehicle_status")
        .timestamp(1_000_000)
        .field_u8("arming_state", 2)
        .field_u8("nav_state", 2)
        .build();
    let dm = make_data_message(&fmt, &data);
    analyzer.on_message(&dm);

    // Both motors active initially
    let (fmt1, data1) = MessageBuilder::new("actuator_outputs")
        .timestamp(1_500_000)
        .field_f32("output[0]", 1500.0)
        .field_f32("output[1]", 1500.0)
        .build();
    let dm1 = make_data_message(&fmt1, &data1);
    analyzer.on_message(&dm1);

    // Motor 1 drops to zero
    let (fmt2, data2) = MessageBuilder::new("actuator_outputs")
        .timestamp(2_000_000)
        .field_f32("output[0]", 1500.0)
        .field_f32("output[1]", 0.0)
        .build();
    let dm2 = make_data_message(&fmt2, &data2);
    analyzer.on_message(&dm2);

    let diags = Box::new(analyzer).finish();
    assert_eq!(diags.len(), 1);
    assert_eq!(diags[0].severity, Severity::Critical);
    assert_eq!(diags[0].kind, AnomalyKind::Point);
    assert_eq!(diags[0].anchor.topic, "actuator_outputs");
    assert_eq!(diags[0].anchor.field, "output[1]");
    match &diags[0].evidence {
        Evidence::MotorFailure {
            motor_index,
            mode,
            ..
        } => {
            assert_eq!(*motor_index, 1);
            assert_eq!(*mode, MotorFailureMode::DropToZero);
        }
        _ => panic!("Expected MotorFailure evidence"),
    }
}

#[test]
fn ignores_unused_motor_channels() {
    let mut analyzer = MotorFailureAnalyzer::new();

    // Arm
    let (fmt, data) = MessageBuilder::new("vehicle_status")
        .timestamp(1_000_000)
        .field_u8("arming_state", 2)
        .field_u8("nav_state", 2)
        .build();
    let dm = make_data_message(&fmt, &data);
    analyzer.on_message(&dm);

    // 4 active motors, outputs 4-7 always zero (unused channels)
    for ts in [2_000_000u64, 3_000_000, 4_000_000] {
        let (fmt2, data2) = MessageBuilder::new("actuator_outputs")
            .timestamp(ts)
            .field_f32("output[0]", 1500.0)
            .field_f32("output[1]", 1500.0)
            .field_f32("output[2]", 1500.0)
            .field_f32("output[3]", 1500.0)
            .field_f32("output[4]", 0.0)
            .field_f32("output[5]", 0.0)
            .field_f32("output[6]", 0.0)
            .field_f32("output[7]", 0.0)
            .build();
        let dm2 = make_data_message(&fmt2, &data2);
        analyzer.on_message(&dm2);
    }

    let diags = Box::new(analyzer).finish();
    assert!(diags.is_empty(), "Unused channels should not trigger motor_failure, got: {:?}", diags);
}

#[test]
fn motor_failure_no_detection_when_disarmed() {
    let mut analyzer = MotorFailureAnalyzer::new();

    // Disarmed (arming_state != 2)
    let (fmt, data) = MessageBuilder::new("vehicle_status")
        .timestamp(1_000_000)
        .field_u8("arming_state", 0)
        .field_u8("nav_state", 0)
        .build();
    let dm = make_data_message(&fmt, &data);
    analyzer.on_message(&dm);

    // Motor at zero while disarmed — should not trigger
    let (fmt2, data2) = MessageBuilder::new("actuator_outputs")
        .timestamp(2_000_000)
        .field_f32("output[0]", 0.0)
        .build();
    let dm2 = make_data_message(&fmt2, &data2);
    analyzer.on_message(&dm2);

    let diags = Box::new(analyzer).finish();
    assert!(diags.is_empty());
}

#[test]
fn motor_failure_handles_missing_fields() {
    let mut analyzer = MotorFailureAnalyzer::new();

    // Arm first
    let (fmt, data) = MessageBuilder::new("vehicle_status")
        .timestamp(1_000_000)
        .field_u8("arming_state", 2)
        .build();
    let dm = make_data_message(&fmt, &data);
    analyzer.on_message(&dm);

    // actuator_outputs with no output fields
    let (fmt2, data2) = MessageBuilder::new("actuator_outputs")
        .timestamp(2_000_000)
        .build();
    let dm2 = make_data_message(&fmt2, &data2);
    analyzer.on_message(&dm2); // must not panic

    let diags = Box::new(analyzer).finish();
    assert!(diags.is_empty());
}

#[test]
fn deduplicates_repeated_failures() {
    let mut analyzer = MotorFailureAnalyzer::new();

    let (fmt, data) = MessageBuilder::new("vehicle_status")
        .timestamp(1_000_000)
        .field_u8("arming_state", 2)
        .field_u8("nav_state", 2)
        .build();
    let dm = make_data_message(&fmt, &data);
    analyzer.on_message(&dm);

    // Motor active first
    let (fmt1, data1) = MessageBuilder::new("actuator_outputs")
        .timestamp(1_500_000)
        .field_f32("output[0]", 1500.0)
        .build();
    let dm1 = make_data_message(&fmt1, &data1);
    analyzer.on_message(&dm1);

    // Same motor drops to zero multiple times
    for ts in [2_000_000u64, 3_000_000, 4_000_000] {
        let (fmt2, data2) = MessageBuilder::new("actuator_outputs")
            .timestamp(ts)
            .field_f32("output[0]", 0.0)
            .build();
        let dm2 = make_data_message(&fmt2, &data2);
        analyzer.on_message(&dm2);
    }

    let diags = Box::new(analyzer).finish();
    assert_eq!(diags.len(), 1, "Should only fire once per motor per failure mode");
}

#[test]
fn detects_rc_loss_during_armed_flight() {
    let mut analyzer = RcLossAnalyzer::new();

    // Arm
    let (fmt, data) = MessageBuilder::new("vehicle_status")
        .timestamp(1_000_000)
        .field_u8("arming_state", 2)
        .build();
    let dm = make_data_message(&fmt, &data);
    analyzer.on_message(&dm);

    // RC signal present
    let (fmt2, data2) = MessageBuilder::new("input_rc")
        .timestamp(2_000_000)
        .field_u8("rc_lost", 0)
        .build();
    let dm2 = make_data_message(&fmt2, &data2);
    analyzer.on_message(&dm2);

    // RC lost
    let (fmt3, data3) = MessageBuilder::new("input_rc")
        .timestamp(3_000_000)
        .field_u8("rc_lost", 1)
        .build();
    let dm3 = make_data_message(&fmt3, &data3);
    analyzer.on_message(&dm3);

    // RC recovered after 2 seconds (> min threshold)
    let (fmt4, data4) = MessageBuilder::new("input_rc")
        .timestamp(5_000_000)
        .field_u8("rc_lost", 0)
        .build();
    let dm4 = make_data_message(&fmt4, &data4);
    analyzer.on_message(&dm4);

    let diags = Box::new(analyzer).finish();
    assert_eq!(diags.len(), 1);
    assert_eq!(diags[0].severity, Severity::Warning);
    match &diags[0].evidence {
        Evidence::RcLoss {
            signal_lost_duration_ms,
            ..
        } => {
            assert_eq!(*signal_lost_duration_ms, 2000);
        }
        _ => panic!("Expected RcLoss evidence"),
    }
}

#[test]
fn critical_on_long_loss() {
    let mut analyzer = RcLossAnalyzer::new();

    let (fmt, data) = MessageBuilder::new("vehicle_status")
        .timestamp(1_000_000)
        .field_u8("arming_state", 2)
        .build();
    let dm = make_data_message(&fmt, &data);
    analyzer.on_message(&dm);

    // RC lost
    let (fmt2, data2) = MessageBuilder::new("input_rc")
        .timestamp(2_000_000)
        .field_u8("rc_lost", 1)
        .build();
    let dm2 = make_data_message(&fmt2, &data2);
    analyzer.on_message(&dm2);

    // RC recovered after 6 seconds
    let (fmt3, data3) = MessageBuilder::new("input_rc")
        .timestamp(8_000_000)
        .field_u8("rc_lost", 0)
        .build();
    let dm3 = make_data_message(&fmt3, &data3);
    analyzer.on_message(&dm3);

    let diags = Box::new(analyzer).finish();
    assert_eq!(diags.len(), 1);
    assert_eq!(diags[0].severity, Severity::Critical);
}

#[test]
fn rc_loss_no_detection_when_disarmed() {
    let mut analyzer = RcLossAnalyzer::new();

    // Disarmed
    let (fmt, data) = MessageBuilder::new("vehicle_status")
        .timestamp(1_000_000)
        .field_u8("arming_state", 0)
        .build();
    let dm = make_data_message(&fmt, &data);
    analyzer.on_message(&dm);

    // RC lost while disarmed
    let (fmt2, data2) = MessageBuilder::new("input_rc")
        .timestamp(2_000_000)
        .field_u8("rc_lost", 1)
        .build();
    let dm2 = make_data_message(&fmt2, &data2);
    analyzer.on_message(&dm2);

    let (fmt3, data3) = MessageBuilder::new("input_rc")
        .timestamp(10_000_000)
        .field_u8("rc_lost", 0)
        .build();
    let dm3 = make_data_message(&fmt3, &data3);
    analyzer.on_message(&dm3);

    let diags = Box::new(analyzer).finish();
    assert!(diags.is_empty());
}

#[test]
fn ignores_short_loss() {
    let mut analyzer = RcLossAnalyzer::new();

    let (fmt, data) = MessageBuilder::new("vehicle_status")
        .timestamp(1_000_000)
        .field_u8("arming_state", 2)
        .build();
    let dm = make_data_message(&fmt, &data);
    analyzer.on_message(&dm);

    // Very short RC loss (200ms, below 500ms threshold)
    let (fmt2, data2) = MessageBuilder::new("input_rc")
        .timestamp(2_000_000)
        .field_u8("rc_lost", 1)
        .build();
    let dm2 = make_data_message(&fmt2, &data2);
    analyzer.on_message(&dm2);

    let (fmt3, data3) = MessageBuilder::new("input_rc")
        .timestamp(2_200_000)
        .field_u8("rc_lost", 0)
        .build();
    let dm3 = make_data_message(&fmt3, &data3);
    analyzer.on_message(&dm3);

    let diags = Box::new(analyzer).finish();
    assert!(diags.is_empty());
}

#[test]
fn rc_loss_handles_missing_fields() {
    let mut analyzer = RcLossAnalyzer::new();

    let (fmt, data) = MessageBuilder::new("input_rc")
        .timestamp(1_000_000)
        .build();
    let dm = make_data_message(&fmt, &data);
    analyzer.on_message(&dm); // must not panic

    let diags = Box::new(analyzer).finish();
    assert!(diags.is_empty());
}

/// Writes a log in the ULog format.
struct LogBuilder {
    bytes: Vec<u8>,
}

impl LogBuilder {
    fn new() -> Self {
        let mut bytes = vec![0x55, 0x4c, 0x6f, 0x67, 0x01, 0x12, 0x35, 0x01];
        bytes.extend_from_slice(&0u64.to_le_bytes());
        let mut log = LogBuilder { bytes };
        log.record(b'B', &[0u8; 40]);
        log
    }

    fn record(&mut self, kind: u8, payload: &[u8]) {
        self.bytes.extend_from_slice(&(payload.len() as u16).to_le_bytes());
        self.bytes.push(kind);
        self.bytes.extend_from_slice(payload);
    }

    fn format(&mut self, topic: &str, fields: &str) {
        self.record(b'F', format!("{}:uint64_t timestamp;{}", topic, fields).as_bytes());
    }

    fn subscribe(&mut self, id: u16, topic: &str) {
        let mut payload = vec![0u8];
        payload.extend_from_slice(&id.to_le_bytes());
        payload.extend_from_slice(topic.as_bytes());
        self.record(b'A', &payload);
    }

    fn sample(&mut self, id: u16, ts: u64, fields: &[&[u8]]) {
        let mut payload = id.to_le_bytes().to_vec();
        payload.extend_from_slice(&ts.to_le_bytes());
        for field in fields {
            payload.extend_from_slice(field);
        }
        self.record(b'D', &payload);
    }
}

/// What goes wrong in a flight, if anything.
#[derive(Clone, Copy, PartialEq)]
enum Trouble {
    Nothing,
    Battery,
    Ekf,
    Gps,
    Motor,
    Rc,
}

/// The log of a flight of a minute and a half, armed from the fifth second on.
fn flight_log(trouble: Trouble) -> Vec<u8> {
    let mut log = LogBuilder::new();
    log.format("vehicle_status", "uint8_t arming_state;uint8_t nav_state");
    log.format("battery_status", "float voltage_v;float current_a");
    log.format(
        "estimator_status",
        "float vel_test_ratio;float pos_test_ratio;float hgt_test_ratio",
    );
    log.format("vehicle_gps_position", "float eph;float epv;uint8_t satellites_used");
    log.format("actuator_outputs", "float[4] output");
    log.format("input_rc", "uint8_t rc_lost");
    let topics = [
        "vehicle_status",
        "battery_status",
        "estimator_status",
        "vehicle_gps_position",
        "actuator_outputs",
        "input_rc",
    ];
    for (id, topic) in topics.iter().enumerate() {
        log.subscribe(id as u16, topic);
    }
    for i in 0..900u64 {
        let ts = 1_000_000 + i * 100_000;
        let armed = i >= 40 && i < 860;
        // The trouble lasts from the minute mark on for ten seconds.
        let bad = i >= 590 && i < 690;
        let is = |t: Trouble| bad && trouble == t;
        log.sample(0, ts, &[&[if armed { 2 } else { 1 }], &[2]]);
        let voltage: f32 = if is(Trouble::Battery) { 12.5 } else { 16.4 - i as f32 * 0.001 };
        log.sample(1, ts, &[&voltage.to_le_bytes(), &8.5f32.to_le_bytes()]);
        let ratio: f32 = if is(Trouble::Ekf) { 1.7 } else { 0.1 + (i % 7) as f32 * 0.1 };
        log.sample(
            2,
            ts,
            &[&ratio.to_le_bytes(), &0.3f32.to_le_bytes(), &0.2f32.to_le_bytes()],
        );
        let eph: f32 = if is(Trouble::Gps) { 12.0 } else { 0.8 + (i % 5) as f32 * 0.1 };
        log.sample(3, ts, &[&eph.to_le_bytes(), &1.3f32.to_le_bytes(), &[14 - (i % 3) as u8]]);
        let pwm: f32 = if armed { 1500.0 + (i % 10) as f32 * 20.0 } else { 900.0 };
        let last: f32 = if is(Trouble::Motor) { 0.0 } else { pwm };
        log.sample(
            4,
            ts,
            &[
                &pwm.to_le_bytes(),
                &pwm.to_le_bytes(),
                &pwm.to_le_bytes(),
                &last.to_le_bytes(),
            ],
        );
        log.sample(5, ts, &[&[if is(Trouble::Rc) { 1 } else { 0 }]]);
    }
    log.bytes
}

/// The findings of one analyzer on a log.
fn analyze(log: &[u8], id: &str) -> Vec<flight_diagnostics::diagnostic::Diagnostic> {
    let mut battery = BatteryBrownoutAnalyzer::default();
    let mut ekf = EkfFailureAnalyzer::default();
    let mut gps = GpsInterferenceAnalyzer::default();
    let mut motor = MotorFailureAnalyzer::default();
    let mut rc = RcLossAnalyzer::default();
    let mut seen = 0u32;
    {
        let mut callback = |data: &DataMessage| {
            seen += 1;
            assert!(battery.try_on_message(data));
            assert!(ekf.try_on_message(data));
            assert!(gps.try_on_message(data));
            assert!(motor.try_on_message(data));
            assert!(rc.try_on_message(data));
        };
        let mut parser = LogParser::default();
        parser.set_data_message_callback(&mut callback);
        parser.consume_bytes(log).expect("the log is well-formed");
    }
    assert_eq!(seen, 5400);
    match id {
        "battery_brownout" => Box::new(battery).finish(),
        "ekf_failure" => Box::new(ekf).finish(),
        "gps_interference" => Box::new(gps).finish(),
        "motor_failure" => Box::new(motor).finish(),
        "rc_loss" => Box::new(rc).finish(),
        _ => panic!("no analyzer {}", id),
    }
}

/// Runs an analyzer on the log of a flight without trouble.
fn assert_no_false_positives(id: &str) {
    let diags = analyze(&flight_log(Trouble::Nothing), id);
    assert!(diags.is_empty(), "{} found {:?}", id, diags);
}

#[test]
fn battery_brownout_no_false_positives_sample() {
    assert_no_false_positives("battery_brownout");
}

#[test]
fn ekf_failure_no_false_positives_sample() {
    assert_no_false_positives("ekf_failure");
}

#[test]
fn gps_interference_no_false_positives_sample() {
    assert_no_false_positives("gps_interference");
}

#[test]
fn motor_failure_no_false_positives_sample() {
    assert_no_false_positives("motor_failure");
}

#[test]
fn rc_loss_no_false_positives_sample() {
    assert_no_false_positives("rc_loss");
}

#[test]
fn battery_trouble_in_a_log_is_found_once() {
    let diags = analyze(&flight_log(Trouble::Battery), "battery_brownout");
    assert_eq!(diags.len(), 1);
    assert_eq!(
        diags[0].summary,
        "Battery voltage 12.50V below critical threshold 13.2V at 60.0s (4S)"
    );
    assert!(analyze(&flight_log(Trouble::Battery), "ekf_failure").is_empty());
}

#[test]
fn ekf_trouble_in_a_log_escalates() {
    let diags = analyze(&flight_log(Trouble::Ekf), "ekf_failure");
    assert_eq!(diags.len(), 2);
    assert_eq!(diags[0].severity, Severity::Warning);
    assert_eq!(
        diags[0].summary,
        "EKF velocity innovation exceeded threshold for 2.0s starting at 60.0s"
    );
    assert_eq!(diags[1].severity, Severity::Critical);
    assert_eq!(diags[1].timestamp_us, 60_000_000);
    assert_eq!(diags[1].end_timestamp_us, Some(65_000_000));
}

#[test]
fn gps_trouble_in_a_log_is_found_every_five_seconds() {
    let diags = analyze(&flight_log(Trouble::Gps), "gps_interference");
    assert_eq!(diags.len(), 2);
    assert_eq!(diags[0].severity, Severity::Critical);
    assert_eq!(diags[0].summary, "GPS quality degraded at 60.0s: EPH 12.0m (baseline 1.0m)");
    assert_eq!(diags[1].timestamp_us, 65_000_000);
}

#[test]
fn motor_trouble_in_a_log_is_found_once() {
    let diags = analyze(&flight_log(Trouble::Motor), "motor_failure");
    assert_eq!(diags.len(), 1);
    assert_eq!(
        diags[0].summary,
        "Motor 3 output dropped to 0 PWM at 60.0s while armed in Position mode"
    );
    assert_eq!(diags[0].anchor.field, "output[3]");
}

#[test]
fn rc_trouble_in_a_log_is_found_when_it_is_over() {
    let diags = analyze(&flight_log(Trouble::Rc), "rc_loss");
    assert_eq!(diags.len(), 1);
    assert_eq!(diags[0].severity, Severity::Critical);
    assert_eq!(diags[0].summary, "RC signal lost for 10.0s starting at 60.0s while armed");
    match &diags[0].evidence {
        Evidence::RcLoss { last_signal_timestamp_us, signal_lost_duration_ms } => {
            assert_eq!(*last_signal_timestamp_us, 59_900_000);
            assert_eq!(*signal_lost_duration_ms, 10_000);
        }
        _ => panic!("Expected RcLoss evidence"),
    }
}
