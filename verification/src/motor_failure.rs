//! Motor failure detection analyzer.
//!
//! Detects two failure modes while the vehicle is armed:
//! - **Drop to zero**: a motor output suddenly drops to 0, indicating a motor
//!   disconnect or ESC failure.
//! - **Locked at max**: a motor output saturates at its maximum for a sustained
//!   period, indicating a locked rotor or mechanical failure.
use crate::decimal::{append_seconds, append_whole, seconds_text, whole_text};
use crate::diagnostic::{
    findings, report, AnomalyKind, Diagnostic, DiagnosticView, Evidence, EvidenceView, FieldUnit,
    MotorFailureMode, OutputDescriptor, PlotAnchor, PlotAnchorView, Severity,
};
use crate::float32::{lemma_magnitude_zero, lemma_whole, Float32};
use crate::message::{
    byte_field, byte_readable, float_field, float_readable, is_byte_readable, is_float_readable,
    is_timestamp_readable, law_whole_message_is_readable, read_byte, read_float, read_timestamp,
    same_text, timestamp_readable, timestamp_us, topic, topic_of, whole,
};
use crate::vehicle_status::{armed_after, flight_mode_name, nav_state_name, next_armed};
use px4_ulog::stream_parser::model::DataMessage;
use std::collections::{HashSet, VecDeque};
use vstd::arithmetic::power2::{lemma2_to64, lemma_pow2_pos, pow2};
use vstd::prelude::*;
use vstd::string::StringExecFns;

verus! {

broadcast use vstd::std_specs::hash::group_hash_axioms;

/// Maximum number of motors to track.
pub const MAX_MOTORS: usize = 16;

/// Sliding window size per motor.
pub const WINDOW_SIZE: usize = 50;

/// Output threshold for "locked at max" detection.
pub const PWM_MAX_THRESHOLD: u32 = 1900;

/// Bits of that threshold as a single precision number.
pub const PWM_MAX_THRESHOLD_BITS: u32 = 0x44ED_8000;

/// The fields of the analyzer's evidence.
pub open spec fn motor_failure_descriptor() -> Seq<(Seq<char>, FieldUnit)> {
    seq![
        ("motor_index"@, FieldUnit::Count),
        ("pwm_value"@, FieldUnit::Pwm),
        ("flight_mode"@, FieldUnit::Label),
    ]
}

/// The name of the field that holds a motor's output.
pub open spec fn output_name(i: nat) -> Seq<char> {
    "output["@ + whole_text(i) + "]"@
}

/// A motor's output with its time.
pub type Output = (u64, Float32);

/// A window with one more output at its end; a full one loses its first.
pub open spec fn slide(window: Seq<Output>, output: Output) -> Seq<Output> {
    let longer = window.push(output);
    if longer.len() > WINDOW_SIZE {
        longer.subrange(1, longer.len() as int)
    } else {
        longer
    }
}

/// A full window of outputs at the maximum.
pub open spec fn locked(window: Seq<Output>) -> bool {
    &&& window.len() == WINDOW_SIZE
    &&& forall|j: int|
        0 <= j < window.len() ==> (#[trigger] window[j]).1.reaches(PWM_MAX_THRESHOLD as nat)
}

/// Detects failing motors while the vehicle is armed.
pub struct MotorFailureAnalyzer {
    armed: bool,
    current_flight_mode: String,
    motor_windows: Vec<VecDeque<Output>>,
    detections: Vec<Diagnostic>,
    /// The motors whose drop to zero was reported.
    dropped: HashSet<u8>,
    /// The motors whose lock was reported.
    locked: HashSet<u8>,
    /// The motors that have had an output other than zero while armed. Unused
    /// channels stay at zero and are not to be flagged.
    motor_was_active: Vec<bool>,
    /// The number of motors, once the first outputs came.
    motor_count: Option<usize>,
}

/// What a [`MotorFailureAnalyzer`] has seen and reported.
pub struct MotorFailureState {
    /// The vehicle is armed.
    pub armed: bool,
    /// The name of the flight mode.
    pub flight_mode: Seq<char>,
    /// The number of motors, once the first outputs came.
    pub motor_count: Option<nat>,
    /// The last outputs of each motor.
    pub windows: Seq<Seq<Output>>,
    /// Which motors have had an output other than zero while armed.
    pub was_active: Seq<bool>,
    /// The failures that were reported.
    pub fired: Set<(u8, MotorFailureMode)>,
    /// The findings so far.
    pub detections: Seq<DiagnosticView>,
}

/// The failure that a finding reports.
pub open spec fn failure(d: DiagnosticView) -> (u8, MotorFailureMode) {
    (d.evidence->motor_index, d.evidence->mode)
}

/// Some finding reports a failure.
pub open spec fn has_finding(list: Seq<DiagnosticView>, p: (u8, MotorFailureMode)) -> bool {
    exists|i: int| 0 <= i < list.len() && failure(#[trigger] list[i]) == p
}

/// A finding is drawn on its motor's output. A drop to zero is critical, belongs
/// to a moment and tells of an output of zero; a lock is a warning, belongs to a
/// stretch of time and tells of an output at the maximum.
pub open spec fn sound(d: DiagnosticView) -> bool {
    &&& d.id == "motor_failure"@
    &&& d.anchor.topic == "actuator_outputs"@
    &&& d.evidence matches EvidenceView::MotorFailure { motor_index, pwm_value, mode, .. } && {
        &&& d.anchor.field == output_name(motor_index as nat)
        &&& match mode {
            MotorFailureMode::DropToZero => {
                &&& d.severity == Severity::Critical
                &&& d.kind == AnomalyKind::Point
                &&& d.end_timestamp_us is None
                &&& pwm_value.zero()
            },
            MotorFailureMode::LockedAtMax => {
                &&& d.severity == Severity::Warning
                &&& d.kind == AnomalyKind::Region
                &&& d.end_timestamp_us is Some
                &&& pwm_value.reaches(PWM_MAX_THRESHOLD as nat)
            },
        }
    }
}

impl MotorFailureState {
    /// The state of an analyzer that has seen nothing.
    pub open spec fn initial() -> MotorFailureState {
        MotorFailureState {
            armed: false,
            flight_mode: "Unknown"@,
            motor_count: None,
            windows: seq![],
            was_active: seq![],
            fired: Set::empty(),
            detections: seq![],
        }
    }

    /// There is one window and one flag for each motor, windows are bounded,
    /// the findings are sound, each failure that fired has one finding and no
    /// other failure has any, and only a motor that ran can drop.
    pub open spec fn wf(self) -> bool {
        &&& self.windows.len() == self.was_active.len()
        &&& self.windows.len() == (match self.motor_count {
            Some(n) => n,
            None => 0,
        })
        &&& self.windows.len() <= MAX_MOTORS
        &&& forall|i: int|
            0 <= i < self.windows.len() ==> (#[trigger] self.windows[i]).len() <= WINDOW_SIZE
        &&& forall|i: int|
            0 <= i < self.detections.len() ==> sound(#[trigger] self.detections[i])
                && self.fired.contains(failure(self.detections[i]))
        &&& forall|p: (u8, MotorFailureMode)|
            #[trigger] self.fired.contains(p) ==> p.0 < self.windows.len() && has_finding(
                self.detections,
                p,
            )
        &&& forall|i: int, j: int|
            0 <= i < j < self.detections.len() ==> failure(#[trigger] self.detections[i])
                != failure(#[trigger] self.detections[j])
        &&& forall|m: u8|
            #[trigger] self.fired.contains((m, MotorFailureMode::DropToZero)) ==> m
                < self.was_active.len() && self.was_active[m as int]
    }

    /// The output of a motor dropped to zero, after the motor ran, and that was
    /// not reported yet.
    pub open spec fn drop_due(self, i: nat, pwm: Float32) -> bool {
        &&& pwm.zero()
        &&& self.was_active[i as int]
        &&& !self.fired.contains((i as u8, MotorFailureMode::DropToZero))
    }

    /// With this output the motor is locked, and that was not reported yet.
    pub open spec fn lock_due(self, i: nat, ts: u64, pwm: Float32) -> bool {
        &&& locked(slide(self.windows[i as int], (ts, pwm)))
        &&& !self.fired.contains((i as u8, MotorFailureMode::LockedAtMax))
    }

    /// The finding for a drop to zero.
    pub open spec fn drop_finding(self, i: nat, ts: u64, pwm: Float32) -> DiagnosticView {
        DiagnosticView {
            id: "motor_failure"@,
            summary: "Motor "@ + whole_text(i) + " output dropped to 0 PWM at "@ + seconds_text(
                ts as nat,
            ) + "s while armed in "@ + self.flight_mode + " mode"@,
            severity: Severity::Critical,
            kind: AnomalyKind::Point,
            timestamp_us: ts,
            end_timestamp_us: None,
            anchor: PlotAnchorView { topic: "actuator_outputs"@, field: output_name(i) },
            descriptor: motor_failure_descriptor(),
            evidence: EvidenceView::MotorFailure {
                motor_index: i as u8,
                pwm_value: pwm,
                mode: MotorFailureMode::DropToZero,
                flight_mode: self.flight_mode,
            },
        }
    }

    /// The finding for a locked motor. It reaches back to the first output of
    /// the window.
    pub open spec fn lock_finding(self, i: nat, ts: u64, pwm: Float32) -> DiagnosticView {
        let first_ts = slide(self.windows[i as int], (ts, pwm))[0].0;
        DiagnosticView {
            id: "motor_failure"@,
            summary: "Motor "@ + whole_text(i) + " locked at max PWM from "@ + seconds_text(
                first_ts as nat,
            ) + "s to "@ + seconds_text(ts as nat) + "s while armed"@,
            severity: Severity::Warning,
            kind: AnomalyKind::Region,
            timestamp_us: first_ts,
            end_timestamp_us: Some(ts),
            anchor: PlotAnchorView { topic: "actuator_outputs"@, field: output_name(i) },
            descriptor: motor_failure_descriptor(),
            evidence: EvidenceView::MotorFailure {
                motor_index: i as u8,
                pwm_value: pwm,
                mode: MotorFailureMode::LockedAtMax,
                flight_mode: self.flight_mode,
            },
        }
    }

    /// The state after an output of motor `i`.
    pub open spec fn after_output(self, i: nat, ts: u64, pwm: Float32) -> MotorFailureState {
        let dropped = self.drop_due(i, pwm);
        let stuck = self.lock_due(i, ts, pwm);
        let fired = if dropped {
            self.fired.insert((i as u8, MotorFailureMode::DropToZero))
        } else {
            self.fired
        };
        let detections = if dropped {
            self.detections.push(self.drop_finding(i, ts, pwm))
        } else {
            self.detections
        };
        MotorFailureState {
            windows: self.windows.update(i as int, slide(self.windows[i as int], (ts, pwm))),
            was_active: self.was_active.update(i as int, self.was_active[i as int] || !pwm.zero()),
            fired: if stuck {
                fired.insert((i as u8, MotorFailureMode::LockedAtMax))
            } else {
                fired
            },
            detections: if stuck {
                detections.push(self.lock_finding(i, ts, pwm))
            } else {
                detections
            },
            ..self
        }
    }

    /// The state after the outputs of the first `n` motors; a motor without an
    /// output is passed over.
    pub open spec fn after_outputs(
        self,
        ts: u64,
        outputs: Seq<Option<Float32>>,
        n: nat,
    ) -> MotorFailureState
        decreases n,
    {
        if n == 0 {
            self
        } else {
            let before = self.after_outputs(ts, outputs, (n - 1) as nat);
            match outputs[n - 1] {
                Some(pwm) => before.after_output((n - 1) as nat, ts, pwm),
                None => before,
            }
        }
    }

    /// The state once the number of motors is known. It is settled once.
    pub open spec fn with_motors(self, count: nat) -> MotorFailureState {
        match self.motor_count {
            Some(_) => self,
            None => MotorFailureState {
                motor_count: Some(count),
                windows: Seq::new(count, |i: int| Seq::<Output>::empty()),
                was_active: Seq::new(count, |i: int| false),
                ..self
            },
        }
    }

    /// The state after a message's outputs, one for each motor. Nothing counts
    /// while the vehicle is disarmed.
    pub open spec fn after_actuator_outputs(
        self,
        ts: u64,
        outputs: Seq<Option<Float32>>,
    ) -> MotorFailureState {
        if self.armed {
            self.with_motors(outputs.len()).after_outputs(ts, outputs, outputs.len())
        } else {
            self
        }
    }

    /// The state after a `vehicle_status` message.
    pub open spec fn after_vehicle_status(
        self,
        arming_state: Option<u8>,
        nav_state: Option<u8>,
    ) -> MotorFailureState {
        MotorFailureState {
            armed: armed_after(self.armed, arming_state),
            flight_mode: match nav_state {
                Some(nav) => flight_mode_name(nav),
                None => self.flight_mode,
            },
            ..self
        }
    }

    /// The number of outputs that are read from a message: as many as there are
    /// motors, or as the first message has.
    pub open spec fn outputs_read(self, data: DataMessage<'_>) -> nat {
        match self.motor_count {
            Some(n) => n,
            None => leading_outputs(data, 0),
        }
    }

    /// The state after a message.
    pub open spec fn after_message(self, data: DataMessage<'_>) -> MotorFailureState {
        if topic_of(data) == "vehicle_status"@ {
            self.after_vehicle_status(
                byte_field(data, "arming_state"@),
                byte_field(data, "nav_state"@),
            )
        } else if topic_of(data) == "actuator_outputs"@ {
            self.after_actuator_outputs(
                timestamp_us(data),
                motor_outputs(data, self.outputs_read(data)),
            )
        } else {
            self
        }
    }

    /// What the analyzer reads of a message lies within the message.
    pub open spec fn readable(self, data: DataMessage<'_>) -> bool {
        if topic_of(data) == "vehicle_status"@ {
            byte_readable(data, "arming_state"@) && byte_readable(data, "nav_state"@)
        } else if topic_of(data) == "actuator_outputs"@ && self.armed {
            &&& timestamp_readable(data)
            &&& forall|i: nat|
                i < self.outputs_read(data) ==> float_readable(data, #[trigger] output_name(i))
        } else {
            true
        }
    }
}

/// The number of output fields that a message has without a gap, from the
/// `from`-th on and up to the maximum.
pub open spec fn leading_outputs(data: DataMessage<'_>, from: nat) -> nat
    decreases MAX_MOTORS - from,
{
    if from < MAX_MOTORS && float_field(data, output_name(from)) is Some {
        leading_outputs(data, from + 1)
    } else {
        from
    }
}

/// The first `n` outputs in a message.
pub open spec fn motor_outputs(data: DataMessage<'_>, n: nat) -> Seq<Option<Float32>> {
    Seq::new(n, |i: int| float_field(data, output_name(i as nat)))
}

/// Leading outputs are counted from a start up to the maximum.
proof fn lemma_leading_outputs(data: DataMessage<'_>, from: nat)
    requires
        from <= MAX_MOTORS,
    ensures
        from <= leading_outputs(data, from) <= MAX_MOTORS,
    decreases MAX_MOTORS - from,
{
    if from < MAX_MOTORS && float_field(data, output_name(from)) is Some {
        lemma_leading_outputs(data, from + 1);
    }
}

/// One output keeps the state in order.
proof fn lemma_after_output(s: MotorFailureState, i: nat, ts: u64, pwm: Float32)
    requires
        s.wf(),
        i < s.windows.len(),
    ensures
        s.after_output(i, ts, pwm).wf(),
        s.after_output(i, ts, pwm).windows.len() == s.windows.len(),
        s.after_output(i, ts, pwm).motor_count == s.motor_count,
{
    let after = s.after_output(i, ts, pwm);
    if s.lock_due(i, ts, pwm) {
        let window = slide(s.windows[i as int], (ts, pwm));
        assert(window[window.len() - 1] == (ts, pwm));
    }
    assert forall|j: int| 0 <= j < after.detections.len() implies sound(
        #[trigger] after.detections[j],
    ) && after.fired.contains(failure(after.detections[j])) by {
        if j < s.detections.len() {
            assert(after.detections[j] == s.detections[j]);
        }
    }
    assert forall|p: (u8, MotorFailureMode)| #[trigger] after.fired.contains(p) implies p.0
        < after.windows.len() && has_finding(after.detections, p) by {
        if s.fired.contains(p) {
            let j = choose|j: int|
                0 <= j < s.detections.len() && failure(#[trigger] s.detections[j]) == p;
            assert(after.detections[j] == s.detections[j]);
        } else if p.1 == MotorFailureMode::LockedAtMax {
            assert(failure(after.detections[after.detections.len() - 1]) == p);
        } else {
            assert(failure(after.detections[s.detections.len() as int]) == p);
        }
    }
    assert forall|a: int, b: int| 0 <= a < b < after.detections.len() implies failure(
        #[trigger] after.detections[a],
    ) != failure(#[trigger] after.detections[b]) by {
        if a < s.detections.len() {
            assert(after.detections[a] == s.detections[a]);
        }
        if b < s.detections.len() {
            assert(after.detections[b] == s.detections[b]);
        }
    }
}

/// Any number of outputs keeps the state in order.
proof fn lemma_after_outputs(
    s: MotorFailureState,
    ts: u64,
    outputs: Seq<Option<Float32>>,
    n: nat,
)
    requires
        s.wf(),
        n <= s.windows.len(),
    ensures
        s.after_outputs(ts, outputs, n).wf(),
        s.after_outputs(ts, outputs, n).windows.len() == s.windows.len(),
        s.after_outputs(ts, outputs, n).motor_count == s.motor_count,
    decreases n,
{
    if n > 0 {
        lemma_after_outputs(s, ts, outputs, (n - 1) as nat);
        if let Some(pwm) = outputs[n - 1] {
            lemma_after_output(
                s.after_outputs(ts, outputs, (n - 1) as nat),
                (n - 1) as nat,
                ts,
                pwm,
            );
        }
    }
}

/// The threshold is 1900.
proof fn lemma_pwm_max_threshold(pwm: Float32)
    ensures
        !pwm.nan() && !pwm.lt(Float32 { bits: PWM_MAX_THRESHOLD_BITS }) <==> pwm.reaches(1900),
{
    lemma2_to64();
    lemma_whole(Float32 { bits: PWM_MAX_THRESHOLD_BITS }, 1900);
}

/// The name of the field that holds a motor's output.
fn output_field_name(i: usize) -> (r: String)
    ensures
        r@ == output_name(i as nat),
{
    let mut name: String = "output[".to_owned();
    append_whole(&mut name, i as u128);
    name.append("]");
    name
}

/// The contents of the windows.
pub open spec fn window_views(list: Seq<VecDeque<Output>>) -> Seq<Seq<Output>> {
    list.map_values(|w: VecDeque<Output>| w@)
}

/// The failures that two sets of motors stand for.
pub open spec fn failures(dropped: Set<u8>, locked: Set<u8>) -> Set<(u8, MotorFailureMode)> {
    Set::new(
        |p: (u8, MotorFailureMode)|
            match p.1 {
                MotorFailureMode::DropToZero => dropped.contains(p.0),
                MotorFailureMode::LockedAtMax => locked.contains(p.0),
            },
    )
}

/// A motor in one of the sets is one failure more.
proof fn lemma_failures(dropped: Set<u8>, locked: Set<u8>, m: u8)
    ensures
        failures(dropped, locked).contains((m, MotorFailureMode::DropToZero)) == dropped.contains(
            m,
        ),
        failures(dropped, locked).contains((m, MotorFailureMode::LockedAtMax)) == locked.contains(
            m,
        ),
        failures(dropped.insert(m), locked) == failures(dropped, locked).insert(
            (m, MotorFailureMode::DropToZero),
        ),
        failures(dropped, locked.insert(m)) == failures(dropped, locked).insert(
            (m, MotorFailureMode::LockedAtMax),
        ),
{
    assert(failures(dropped.insert(m), locked) =~= failures(dropped, locked).insert(
        (m, MotorFailureMode::DropToZero),
    ));
    assert(failures(dropped, locked.insert(m)) =~= failures(dropped, locked).insert(
        (m, MotorFailureMode::LockedAtMax),
    ));
}

impl View for MotorFailureAnalyzer {
    type V = MotorFailureState;

    closed spec fn view(&self) -> MotorFailureState {
        MotorFailureState {
            armed: self.armed,
            flight_mode: self.current_flight_mode@,
            motor_count: match self.motor_count {
                Some(n) => Some(n as nat),
                None => None,
            },
            windows: window_views(self.motor_windows@),
            was_active: self.motor_was_active@,
            fired: failures(self.dropped@, self.locked@),
            detections: findings(self.detections@),
        }
    }
}

impl Default for MotorFailureAnalyzer {
    fn default() -> (r: MotorFailureAnalyzer)
        ensures
            r@ == MotorFailureState::initial(),
            r@.wf(),
    {
        MotorFailureAnalyzer::new()
    }
}

impl MotorFailureAnalyzer {
    /// An analyzer that has seen nothing.
    pub fn new() -> (r: MotorFailureAnalyzer)
        ensures
            r@ == MotorFailureState::initial(),
            r@.wf(),
    {
        let r: MotorFailureAnalyzer = MotorFailureAnalyzer {
            armed: false,
            current_flight_mode: "Unknown".to_owned(),
            motor_windows: Vec::new(),
            detections: Vec::new(),
            dropped: HashSet::new(),
            locked: HashSet::new(),
            motor_was_active: Vec::new(),
            motor_count: None,
        };
        assert(r@.windows =~= seq![]);
        assert(r@.was_active =~= seq![]);
        assert(r@.fired =~= Set::empty());
        assert(r@.detections =~= seq![]);
        r
    }

    /// Counts the outputs that a message has without a gap.
    fn detect_motor_count(data: &DataMessage<'_>) -> (count: usize)
        requires
            forall|i: nat|
                i < leading_outputs(*data, 0) ==> float_readable(*data, #[trigger] output_name(i)),
        ensures
            count == leading_outputs(*data, 0),
            count <= MAX_MOTORS,
    {
        let mut count: usize = 0;
        while count < MAX_MOTORS
            invariant
                count <= MAX_MOTORS,
                leading_outputs(*data, count as nat) == leading_outputs(*data, 0),
                forall|i: nat|
                    i < leading_outputs(*data, 0) ==> float_readable(
                        *data,
                        #[trigger] output_name(i),
                    ),
            decreases MAX_MOTORS - count,
        {
            let name: String = output_field_name(count);
            proof {
                if float_field(*data, output_name(count as nat)) is Some {
                    lemma_leading_outputs(*data, (count + 1) as nat);
                }
            }
            if read_float(data, name.as_str()).is_none() {
                return count;
            }
            count = count + 1;
        }
        count
    }

    /// The analyzer's identifier.
    pub fn id(&self) -> (r: &str)
        ensures
            r@ == "motor_failure"@,
    {
        "motor_failure"
    }

    /// What the analyzer detects.
    pub fn description(&self) -> (r: &str)
        ensures
            r@ == "PWM drop/lock detection while armed"@,
    {
        "PWM drop/lock detection while armed"
    }

    /// The topics that the analyzer reads.
    pub fn required_topics(&self) -> (r: &[&str])
        ensures
            r@.len() == 2,
            r@[0]@ == "actuator_outputs"@,
            r@[1]@ == "vehicle_status"@,
    {
        &["actuator_outputs", "vehicle_status"]
    }

    /// Takes in what a `vehicle_status` message says.
    pub fn vehicle_status(&mut self, arming_state: Option<u8>, nav_state: Option<u8>)
        ensures
            final(self)@ == old(self)@.after_vehicle_status(arming_state, nav_state),
            old(self)@.wf() ==> final(self)@.wf(),
    {
        self.armed = next_armed(self.armed, arming_state);
        if let Some(nav) = nav_state {
            self.current_flight_mode = nav_state_name(nav).to_owned();
        }
    }

    /// Settles the number of motors.
    fn set_motors(&mut self, count: usize)
        requires
            old(self)@.wf(),
            old(self)@.motor_count is None,
            count <= MAX_MOTORS,
        ensures
            final(self)@ == old(self)@.with_motors(count as nat),
            final(self)@.wf(),
    {
        let mut windows: Vec<VecDeque<Output>> = Vec::new();
        let mut active: Vec<bool> = Vec::new();
        let mut i: usize = 0;
        while i < count
            invariant
                i <= count,
                windows@.len() == i,
                active@.len() == i,
                forall|j: int| 0 <= j < i ==> (#[trigger] windows@[j])@ == Seq::<Output>::empty(),
                forall|j: int| 0 <= j < i ==> !(#[trigger] active@[j]),
            decreases count - i,
        {
            windows.push(VecDeque::with_capacity(WINDOW_SIZE));
            active.push(false);
            i = i + 1;
        }
        self.motor_count = Some(count);
        self.motor_windows = windows;
        self.motor_was_active = active;
        assert(self@.windows =~= old(self)@.with_motors(count as nat).windows);
        assert(self@.was_active =~= old(self)@.with_motors(count as nat).was_active);
    }

    /// Whether a motor's window is full of outputs at the maximum.
    fn is_locked(window: &VecDeque<Output>) -> (r: bool)
        ensures
            r == locked(window@),
    {
        if window.len() != WINDOW_SIZE {
            return false;
        }
        let threshold: Float32 = Float32::from_bits(PWM_MAX_THRESHOLD_BITS);
        let mut j: usize = 0;
        while j < window.len()
            invariant
                j <= window@.len(),
                window@.len() == WINDOW_SIZE,
                threshold.bits == PWM_MAX_THRESHOLD_BITS,
                forall|k: int| 0 <= k < j ==> (#[trigger] window@[k]).1.reaches(1900),
            decreases window@.len() - j,
        {
            let pwm: Float32 = window[j].1;
            proof {
                lemma_pwm_max_threshold(pwm);
            }
            if pwm.is_nan() || pwm.less_than(threshold) {
                assert(!window@[j as int].1.reaches(1900));
                return false;
            }
            j = j + 1;
        }
        true
    }

    /// Adds an output to a motor's window.
    fn slide_window(&mut self, i: usize, ts: u64, pwm: Float32)
        requires
            i < old(self)@.windows.len(),
        ensures
            final(self)@ == (MotorFailureState {
                windows: old(self)@.windows.update(
                    i as int,
                    slide(old(self)@.windows[i as int], (ts, pwm)),
                ),
                ..old(self)@
            }),
    {
        self.motor_windows[i].push_back((ts, pwm));
        if self.motor_windows[i].len() > WINDOW_SIZE {
            let _ = self.motor_windows[i].pop_front();
        }
        assert(self@.windows =~= old(self)@.windows.update(
            i as int,
            slide(old(self)@.windows[i as int], (ts, pwm)),
        ));
    }

    /// The finding for a drop to zero.
    fn drop_diagnostic(&self, i: usize, ts: u64, pwm: Float32) -> (r: Diagnostic)
        requires
            i < MAX_MOTORS,
        ensures
            r@ == self@.drop_finding(i as nat, ts, pwm),
    {
        let mut summary: String = "Motor ".to_owned();
        append_whole(&mut summary, i as u128);
        summary.append(" output dropped to 0 PWM at ");
        append_seconds(&mut summary, ts);
        summary.append("s while armed in ");
        summary.append(self.current_flight_mode.as_str());
        summary.append(" mode");
        let field: String = output_field_name(i);
        Diagnostic {
            id: "motor_failure".to_owned(),
            summary,
            severity: Severity::Critical,
            kind: AnomalyKind::Point,
            timestamp_us: ts,
            end_timestamp_us: None,
            anchor: PlotAnchor::new("actuator_outputs", field.as_str()),
            descriptor: self.output_descriptor(),
            evidence: Evidence::MotorFailure {
                motor_index: i as u8,
                pwm_value: pwm,
                mode: MotorFailureMode::DropToZero,
                flight_mode: self.current_flight_mode.clone(),
            },
        }
    }

    /// The finding for a motor that has been locked since `first_ts`.
    fn lock_diagnostic(&self, i: usize, first_ts: u64, ts: u64, pwm: Float32) -> (r: Diagnostic)
        requires
            i < MAX_MOTORS,
        ensures
            forall|s: MotorFailureState|
                s.flight_mode == self@.flight_mode && slide(s.windows[i as int], (ts, pwm))[0].0
                    == first_ts ==> r@ == #[trigger] s.lock_finding(i as nat, ts, pwm),
    {
        let mut summary: String = "Motor ".to_owned();
        append_whole(&mut summary, i as u128);
        summary.append(" locked at max PWM from ");
        append_seconds(&mut summary, first_ts);
        summary.append("s to ");
        append_seconds(&mut summary, ts);
        summary.append("s while armed");
        let field: String = output_field_name(i);
        Diagnostic {
            id: "motor_failure".to_owned(),
            summary,
            severity: Severity::Warning,
            kind: AnomalyKind::Region,
            timestamp_us: first_ts,
            end_timestamp_us: Some(ts),
            anchor: PlotAnchor::new("actuator_outputs", field.as_str()),
            descriptor: self.output_descriptor(),
            evidence: Evidence::MotorFailure {
                motor_index: i as u8,
                pwm_value: pwm,
                mode: MotorFailureMode::LockedAtMax,
                flight_mode: self.current_flight_mode.clone(),
            },
        }
    }

    /// Takes in an output of motor `i`.
    fn output(&mut self, i: usize, ts: u64, pwm: Float32)
        requires
            old(self)@.wf(),
            i < old(self)@.windows.len(),
        ensures
            final(self)@ == old(self)@.after_output(i as nat, ts, pwm),
            final(self)@.wf(),
    {
        let ghost before = self@;
        proof {
            lemma_after_output(before, i as nat, ts, pwm);
            lemma_magnitude_zero(pwm);
        }
        self.slide_window(i, ts, pwm);
        let motor_index: u8 = i as u8;
        let zero: bool = pwm.to_bits() % 0x8000_0000 == 0;
        if !zero {
            self.motor_was_active[i] = true;
        }
        proof {
            lemma_failures(self.dropped@, self.locked@, motor_index);
        }
        if zero && self.motor_was_active[i] && !self.dropped.contains(&motor_index) {
            let d: Diagnostic = self.drop_diagnostic(i, ts, pwm);
            self.dropped.insert(motor_index);
            report(&mut self.detections, d);
        }
        proof {
            lemma_failures(self.dropped@, self.locked@, motor_index);
            assert(self.motor_windows@[i as int]@ == self@.windows[i as int]);
        }
        if MotorFailureAnalyzer::is_locked(&self.motor_windows[i]) && !self.locked.contains(
            &motor_index,
        ) {
            let first_ts: u64 = self.motor_windows[i][0].0;
            let d: Diagnostic = self.lock_diagnostic(i, first_ts, ts, pwm);
            self.locked.insert(motor_index);
            report(&mut self.detections, d);
        }
        let ghost after = before.after_output(i as nat, ts, pwm);
        assert(self@.was_active =~= after.was_active);
        assert(self@.windows =~= after.windows);
        assert(self@.fired =~= after.fired);
        assert(self@.detections =~= after.detections);
    }

    /// Takes in the outputs of an `actuator_outputs` message, one for each
    /// motor. The first outputs settle the number of motors.
    pub fn actuator_outputs(&mut self, ts: u64, outputs: &[Option<Float32>])
        requires
            old(self)@.wf(),
            match old(self)@.motor_count {
                Some(n) => outputs@.len() == n,
                None => outputs@.len() <= MAX_MOTORS,
            },
        ensures
            final(self)@ == old(self)@.after_actuator_outputs(ts, outputs@),
            final(self)@.wf(),
            final(self)@.armed == old(self)@.armed,
            old(self)@.armed ==> final(self)@.motor_count == Some(outputs@.len()),
    {
        if !self.armed {
            return;
        }
        if self.motor_count.is_none() {
            self.set_motors(outputs.len());
        }
        let ghost start = self@;
        let mut i: usize = 0;
        while i < outputs.len()
            invariant
                i <= outputs@.len(),
                start.wf(),
                start.windows.len() == outputs@.len(),
                self@ == start.after_outputs(ts, outputs@, i as nat),
                self@.wf(),
                self@.windows.len() == outputs@.len(),
                self@.armed,
                self@.motor_count == Some(outputs@.len()),
            decreases outputs@.len() - i,
        {
            proof {
                lemma_after_outputs(start, ts, outputs@, (i + 1) as nat);
                lemma_armed_kept(start, ts, outputs@, (i + 1) as nat);
            }
            if let Some(pwm) = outputs[i] {
                self.output(i, ts, pwm);
            }
            i = i + 1;
        }
    }

    /// Takes in a message. Topics other than the required ones are ignored.
    pub fn on_message(&mut self, data: &DataMessage<'_>)
        requires
            old(self)@.wf(),
            old(self)@.readable(*data),
        ensures
            final(self)@ == old(self)@.after_message(*data),
            final(self)@.wf(),
    {
        let name: &str = topic(data);
        if same_text(name, "vehicle_status") {
            self.vehicle_status(read_byte(data, "arming_state"), read_byte(data, "nav_state"));
        } else if same_text(name, "actuator_outputs") {
            if !self.armed {
                return;
            }
            let ts: u64 = read_timestamp(data);
            let count: usize = match self.motor_count {
                Some(n) => n,
                None => MotorFailureAnalyzer::detect_motor_count(data),
            };
            let mut outputs: Vec<Option<Float32>> = Vec::new();
            let mut i: usize = 0;
            while i < count
                invariant
                    i <= count,
                    outputs@.len() == i,
                    forall|j: nat|
                        j < count ==> float_readable(*data, #[trigger] output_name(j)),
                    forall|j: int|
                        0 <= j < i ==> #[trigger] outputs@[j] == float_field(
                            *data,
                            output_name(j as nat),
                        ),
                decreases count - i,
            {
                let field: String = output_field_name(i);
                outputs.push(read_float(data, field.as_str()));
                i = i + 1;
            }
            assert(outputs@ =~= motor_outputs(*data, count as nat));
            self.actuator_outputs(ts, outputs.as_slice());
        }
    }

    /// Takes in a message, or leaves the analyzer as it is and returns `false`
    /// where a field that it reads runs past the end of the message.
    pub fn try_on_message(&mut self, data: &DataMessage<'_>) -> (taken: bool)
        requires
            old(self)@.wf(),
        ensures
            taken == old(self)@.readable(*data),
            taken ==> final(self)@ == old(self)@.after_message(*data),
            !taken ==> final(self)@ == old(self)@,
            final(self)@.wf(),
    {
        let accepted: bool = self.is_readable(data);
        if accepted {
            self.on_message(data);
        }
        accepted
    }

    /// Whether a message can be taken in.
    fn is_readable(&self, data: &DataMessage<'_>) -> (r: bool)
        requires
            self@.wf(),
        ensures
            r == self@.readable(*data),
    {
        let name: &str = topic(data);
        if same_text(name, "vehicle_status") {
            return is_byte_readable(data, "arming_state") && is_byte_readable(data, "nav_state");
        }
        if !same_text(name, "actuator_outputs") || !self.armed {
            return true;
        }
        if !is_timestamp_readable(data) {
            return false;
        }
        let limit: usize = match self.motor_count {
            Some(n) => n,
            None => MAX_MOTORS,
        };
        let ghost read = self@.outputs_read(*data);
        let mut i: usize = 0;
        proof {
            lemma_leading_outputs(*data, 0);
        }
        while i < limit
            invariant
                i <= limit <= MAX_MOTORS,
                read == self@.outputs_read(*data),
                match self@.motor_count {
                    Some(n) => limit == n,
                    None => limit == MAX_MOTORS && leading_outputs(*data, i as nat) == read,
                },
                self@.motor_count is None <==> self.motor_count is None,
                i <= read <= limit,
                topic_of(*data) == "actuator_outputs"@,
                topic_of(*data) != "vehicle_status"@,
                self@.armed,
                timestamp_readable(*data),
                forall|j: nat| j < i ==> float_readable(*data, #[trigger] output_name(j)),
            decreases limit - i,
        {
            let field: String = output_field_name(i);
            proof {
                lemma_leading_outputs(*data, i as nat);
            }
            if !is_float_readable(data, field.as_str()) {
                proof {
                    if self@.motor_count is None {
                        lemma_leading_outputs(*data, (i + 1) as nat);
                    }
                    assert(i < read);
                }
                return false;
            }
            if self.motor_count.is_none() && read_float(data, field.as_str()).is_none() {
                return true;
            }
            proof {
                if self@.motor_count is None {
                    lemma_leading_outputs(*data, (i + 1) as nat);
                }
            }
            i = i + 1;
        }
        true
    }

    /// The findings, once the log is over.
    pub fn finish(self: Box<Self>) -> (r: Vec<Diagnostic>)
        ensures
            findings(r@) == self@.detections,
    {
        let this: MotorFailureAnalyzer = *self;
        this.detections
    }

    /// The fields of the analyzer's evidence.
    pub fn output_descriptor(&self) -> (r: OutputDescriptor)
        ensures
            r@ == motor_failure_descriptor(),
    {
        let r: OutputDescriptor = OutputDescriptor::new()
            .field("motor_index", FieldUnit::Count)
            .field("pwm_value", FieldUnit::Pwm)
            .field("flight_mode", FieldUnit::Label);
        assert(r@ =~= motor_failure_descriptor());
        r
    }
}

/// What one of the required topics says.
pub enum MotorEvent {
    /// A `vehicle_status` message.
    Status { arming_state: Option<u8>, nav_state: Option<u8> },
    /// An `actuator_outputs` message.
    Outputs { ts: u64, outputs: Seq<Option<Float32>> },
}

impl MotorFailureState {
    /// The state after one event.
    pub open spec fn after_event(self, event: MotorEvent) -> MotorFailureState {
        match event {
            MotorEvent::Status { arming_state, nav_state } => self.after_vehicle_status(
                arming_state,
                nav_state,
            ),
            MotorEvent::Outputs { ts, outputs } => self.after_actuator_outputs(ts, outputs),
        }
    }

    /// The state after a series of events.
    pub open spec fn after_events(self, events: Seq<MotorEvent>) -> MotorFailureState
        decreases events.len(),
    {
        if events.len() == 0 {
            self
        } else {
            self.after_events(events.drop_last()).after_event(events.last())
        }
    }
}

/// Whether the vehicle is armed after a series of events.
pub open spec fn armed_through(armed: bool, events: Seq<MotorEvent>) -> bool
    decreases events.len(),
{
    if events.len() == 0 {
        armed
    } else {
        let before = armed_through(armed, events.drop_last());
        match events.last() {
            MotorEvent::Status { arming_state, .. } => armed_after(before, arming_state),
            MotorEvent::Outputs { .. } => before,
        }
    }
}

/// The outputs of one motor in a series of events, as far as they came while
/// the vehicle was armed.
pub open spec fn history(armed: bool, events: Seq<MotorEvent>, i: nat) -> Seq<Output>
    decreases events.len(),
{
    if events.len() == 0 {
        seq![]
    } else {
        let before = history(armed, events.drop_last(), i);
        match events.last() {
            MotorEvent::Outputs { ts, outputs } if armed_through(armed, events.drop_last()) => {
                match outputs[i as int] {
                    Some(pwm) => before.push((ts, pwm)),
                    None => before,
                }
            },
            _ => before,
        }
    }
}

/// Every message with outputs that comes while the vehicle is armed has as many
/// of them as there are motors.
pub open spec fn same_count(armed: bool, events: Seq<MotorEvent>, count: nat) -> bool {
    forall|k: int|
        0 <= k < events.len() && armed_through(armed, events.take(k)) ==> (
        #[trigger] events[k] matches MotorEvent::Outputs { outputs, .. } ==> outputs.len() == count)
}

/// The last fifty outputs, or all where there are fewer.
pub open spec fn last_outputs(outputs: Seq<Output>) -> Seq<Output> {
    if outputs.len() > 50 {
        outputs.skip(outputs.len() - 50)
    } else {
        outputs
    }
}

/// An output other than zero, and one of zero later.
pub open spec fn stopped(outputs: Seq<Output>) -> bool {
    exists|j: int, k: int|
        0 <= j < k < outputs.len() && (#[trigger] outputs[j]).1.value() != 0 && (
        #[trigger] outputs[k]).1.value() == 0
}

/// The fifty outputs before the `k`-th are each a number of at least 1900.
pub open spec fn fifty_at_maximum(outputs: Seq<Output>, k: int) -> bool {
    &&& 50 <= k <= outputs.len()
    &&& forall|j: int|
        k - 50 <= j < k ==> !(#[trigger] outputs[j]).1.nan() && outputs[j].1.value() >= 1900 * pow2(
            149,
        )
}

/// At some time the last fifty outputs were at the maximum.
pub open spec fn saturated(outputs: Seq<Output>) -> bool {
    exists|k: int| fifty_at_maximum(outputs, k)
}

/// A window is locked when it is the last fifty outputs and they are at the
/// maximum.
proof fn lemma_locked(outputs: Seq<Output>)
    ensures
        locked(last_outputs(outputs)) <==> fifty_at_maximum(outputs, outputs.len() as int),
{
    let window = last_outputs(outputs);
    let first = outputs.len() - window.len();
    assert forall|j: int| 0 <= j < window.len() implies #[trigger] window[j] == outputs[first
        + j] by {}
    if locked(window) {
        assert forall|j: int| outputs.len() - 50 <= j < outputs.len() implies !(
        #[trigger] outputs[j]).1.nan() && outputs[j].1.value() >= 1900 * pow2(149) by {
            assert(window[j - first].1.reaches(PWM_MAX_THRESHOLD as nat));
        }
    }
}

/// An output more in the history of a motor.
proof fn lemma_history_grows(outputs: Seq<Output>, output: Output)
    ensures
        last_outputs(outputs.push(output)) == slide(last_outputs(outputs), output),
        stopped(outputs.push(output)) <==> stopped(outputs) || (output.1.value() == 0
            && exists|j: int| 0 <= j < outputs.len() && (#[trigger] outputs[j]).1.value() != 0),
        saturated(outputs.push(output)) <==> saturated(outputs) || locked(
            last_outputs(outputs.push(output)),
        ),
{
    let more = outputs.push(output);
    assert(last_outputs(more) =~= slide(last_outputs(outputs), output));
    if stopped(outputs) {
        let (j, k) = choose|j: int, k: int|
            0 <= j < k < outputs.len() && (#[trigger] outputs[j]).1.value() != 0 && (
            #[trigger] outputs[k]).1.value() == 0;
        assert(more[j] == outputs[j] && more[k] == outputs[k]);
    }
    if output.1.value() == 0 && exists|j: int|
        0 <= j < outputs.len() && (#[trigger] outputs[j]).1.value() != 0 {
        let j = choose|j: int| 0 <= j < outputs.len() && (#[trigger] outputs[j]).1.value() != 0;
        assert(more[j] == outputs[j] && more[outputs.len() as int] == output);
    }
    if stopped(more) {
        let (j, k) = choose|j: int, k: int|
            0 <= j < k < more.len() && (#[trigger] more[j]).1.value() != 0 && (
            #[trigger] more[k]).1.value() == 0;
        assert(more[j] == outputs[j]);
        if k < outputs.len() {
            assert(more[k] == outputs[k]);
        }
    }
    lemma_locked(more);
    assert forall|k: int| 0 <= k <= outputs.len() implies fifty_at_maximum(outputs, k)
        == fifty_at_maximum(more, k) by {
        assert(fifty_at_maximum(outputs, k) ==> forall|j: int|
            k - 50 <= j < k ==> #[trigger] more[j] == outputs[j]);
        assert(fifty_at_maximum(more, k) ==> forall|j: int|
            k - 50 <= j < k ==> more[j] == #[trigger] outputs[j]);
    }
    if saturated(outputs) {
        let k = choose|k: int| fifty_at_maximum(outputs, k);
        assert(fifty_at_maximum(more, k));
    }
    if saturated(more) {
        let k = choose|k: int| fifty_at_maximum(more, k);
        if k <= outputs.len() {
            assert(fifty_at_maximum(outputs, k));
        }
    }
}

/// What becomes of a motor depends on that motor and its own output alone.
pub proof fn law_motors_are_independent(
    s: MotorFailureState,
    ts: u64,
    outputs: Seq<Option<Float32>>,
    n: nat,
    i: nat,
)
    requires
        i < s.windows.len() <= MAX_MOTORS,
        s.was_active.len() == s.windows.len(),
        n <= s.windows.len(),
    ensures
        ({
            let after = s.after_outputs(ts, outputs, n);
            let drop = (i as u8, MotorFailureMode::DropToZero);
            let lock = (i as u8, MotorFailureMode::LockedAtMax);
            &&& after.windows.len() == s.windows.len()
            &&& after.was_active.len() == s.was_active.len()
            &&& match outputs[i as int] {
                Some(pwm) if i < n => {
                    &&& after.windows[i as int] == slide(s.windows[i as int], (ts, pwm))
                    &&& after.was_active[i as int] == (s.was_active[i as int] || !pwm.zero())
                    &&& after.fired.contains(drop) == (s.fired.contains(drop) || s.drop_due(i, pwm))
                    &&& after.fired.contains(lock) == (s.fired.contains(lock) || s.lock_due(
                        i,
                        ts,
                        pwm,
                    ))
                },
                _ => {
                    &&& after.windows[i as int] == s.windows[i as int]
                    &&& after.was_active[i as int] == s.was_active[i as int]
                    &&& after.fired.contains(drop) == s.fired.contains(drop)
                    &&& after.fired.contains(lock) == s.fired.contains(lock)
                },
            }
        }),
    decreases n,
{
    if n > 0 {
        law_motors_are_independent(s, ts, outputs, (n - 1) as nat, i);
    }
}

/// A motor's drop to zero is reported exactly if, among its outputs while the
/// vehicle was armed, there is one of zero after one that was not; its lock is
/// reported exactly if fifty of them in a row were at the maximum, whatever their
/// values were. Neither is reported twice.
pub proof fn law_failures_are_found(
    s: MotorFailureState,
    events: Seq<MotorEvent>,
    count: nat,
    i: nat,
)
    requires
        s.wf(),
        s.motor_count is None,
        i < count <= 16,
        same_count(s.armed, events, count),
    ensures
        ({
            let after = s.after_events(events);
            &&& has_finding(after.detections, (i as u8, MotorFailureMode::DropToZero))
                <==> stopped(history(s.armed, events, i))
            &&& has_finding(after.detections, (i as u8, MotorFailureMode::LockedAtMax))
                <==> saturated(history(s.armed, events, i))
            &&& forall|a: int, b: int|
                0 <= a < b < after.detections.len() ==> failure(#[trigger] after.detections[a])
                    != failure(#[trigger] after.detections[b])
        }),
{
    lemma_events(s, events, count, i);
    let after = s.after_events(events);
    assert forall|p: (u8, MotorFailureMode)| has_finding(
        after.detections,
        p,
    ) implies #[trigger] after.fired.contains(p) by {
        let j = choose|j: int|
            0 <= j < after.detections.len() && failure(#[trigger] after.detections[j]) == p;
    }
}

/// The state of motor `i` tells of the outputs that it had.
spec fn reflects(s: MotorFailureState, i: nat, outputs: Seq<Output>) -> bool {
    &&& s.windows[i as int] == last_outputs(outputs)
    &&& s.was_active[i as int] == exists|j: int|
        0 <= j < outputs.len() && (#[trigger] outputs[j]).1.value() != 0
    &&& s.fired.contains((i as u8, MotorFailureMode::DropToZero)) == stopped(outputs)
    &&& s.fired.contains((i as u8, MotorFailureMode::LockedAtMax)) == saturated(outputs)
}

/// One more message with outputs is reflected.
proof fn lemma_reflects_more(
    s: MotorFailureState,
    ts: u64,
    outputs: Seq<Option<Float32>>,
    i: nat,
    before: Seq<Output>,
)
    requires
        s.wf(),
        s.motor_count == Some(outputs.len()),
        i < outputs.len(),
        reflects(s, i, before),
    ensures
        reflects(
            s.after_outputs(ts, outputs, outputs.len()),
            i,
            match outputs[i as int] {
                Some(pwm) => before.push((ts, pwm)),
                None => before,
            },
        ),
{
    law_motors_are_independent(s, ts, outputs, outputs.len(), i);
    if let Some(pwm) = outputs[i as int] {
        lemma_history_grows(before, (ts, pwm));
        let grown = before.push((ts, pwm));
        if pwm.value() != 0 {
            assert(grown[before.len() as int] == (ts, pwm));
        }
        if exists|j: int| 0 <= j < before.len() && (#[trigger] before[j]).1.value() != 0 {
            let j = choose|j: int| 0 <= j < before.len() && (#[trigger] before[j]).1.value() != 0;
            assert(grown[j] == before[j]);
        }
        if exists|j: int| 0 <= j < grown.len() && (#[trigger] grown[j]).1.value() != 0 {
            let j = choose|j: int| 0 <= j < grown.len() && (#[trigger] grown[j]).1.value() != 0;
            if j < before.len() {
                assert(grown[j] == before[j]);
            }
        }
    }
}

/// A motor without outputs has neither stopped nor been locked.
proof fn lemma_no_outputs()
    ensures
        !stopped(Seq::empty()),
        !saturated(Seq::empty()),
{
}

/// The state after a series of events tells of the outputs in it.
proof fn lemma_events(s: MotorFailureState, events: Seq<MotorEvent>, count: nat, i: nat)
    requires
        s.wf(),
        s.motor_count is None,
        i < count <= 16,
        same_count(s.armed, events, count),
    ensures
        ({
            let after = s.after_events(events);
            let outputs = history(s.armed, events, i);
            &&& after.wf()
            &&& after.armed == armed_through(s.armed, events)
            &&& match after.motor_count {
                Some(n) => n == count && reflects(after, i, outputs),
                None => outputs.len() == 0,
            }
            &&& after.fired.contains((i as u8, MotorFailureMode::DropToZero)) == stopped(outputs)
            &&& after.fired.contains((i as u8, MotorFailureMode::LockedAtMax)) == saturated(outputs)
        }),
    decreases events.len(),
{
    lemma_no_outputs();
    if events.len() == 0 {
        assert(!s.fired.contains((i as u8, MotorFailureMode::DropToZero)));
        assert(!s.fired.contains((i as u8, MotorFailureMode::LockedAtMax)));
        assert(history(s.armed, events, i) =~= Seq::empty());
    } else {
        let earlier = events.drop_last();
        assert(events[events.len() - 1] == events.last());
        assert(events.take(events.len() - 1) =~= earlier);
        assert(same_count(s.armed, earlier, count)) by {
            assert forall|k: int|
                0 <= k < earlier.len() && armed_through(s.armed, earlier.take(k)) implies (
            #[trigger] earlier[k] matches MotorEvent::Outputs { outputs, .. } ==> outputs.len()
                == count) by {
                assert(earlier[k] == events[k]);
                assert(earlier.take(k) =~= events.take(k));
            }
        }
        lemma_events(s, earlier, count, i);
        let before = s.after_events(earlier);
        let old_history = history(s.armed, earlier, i);
        if let MotorEvent::Outputs { ts, outputs } = events.last() {
            if before.armed {
                let start = before.with_motors(count);
                if before.motor_count is None {
                    assert(old_history =~= Seq::empty());
                }
                assert(start.wf());
                assert(reflects(start, i, old_history));
                lemma_after_outputs(start, ts, outputs, count);
                lemma_armed_kept(start, ts, outputs, count);
                lemma_reflects_more(start, ts, outputs, i, old_history);
            }
        }
    }
}

/// Findings are kept, and each output adds two at most.
proof fn lemma_findings_kept(s: MotorFailureState, ts: u64, outputs: Seq<Option<Float32>>, n: nat)
    ensures
        s.detections.is_prefix_of(s.after_outputs(ts, outputs, n).detections),
        s.after_outputs(ts, outputs, n).detections.len() <= s.detections.len() + 2 * n,
    decreases n,
{
    if n > 0 {
        lemma_findings_kept(s, ts, outputs, (n - 1) as nat);
    }
}

/// Outputs change neither the arming nor the flight mode.
proof fn lemma_armed_kept(s: MotorFailureState, ts: u64, outputs: Seq<Option<Float32>>, n: nat)
    ensures
        s.after_outputs(ts, outputs, n).armed == s.armed,
        s.after_outputs(ts, outputs, n).motor_count == s.motor_count,
    decreases n,
{
    if n > 0 {
        lemma_armed_kept(s, ts, outputs, (n - 1) as nat);
    }
}

/// A channel that is never used is never flagged: as long as all of a motor's
/// outputs while armed are zero nothing is found of it.
pub proof fn law_unused_channel_is_not_flagged(
    s: MotorFailureState,
    events: Seq<MotorEvent>,
    count: nat,
    i: nat,
    mode: MotorFailureMode,
)
    requires
        s.wf(),
        s.motor_count is None,
        i < count <= 16,
        same_count(s.armed, events, count),
        forall|j: int|
            0 <= j < history(s.armed, events, i).len() ==> (#[trigger] history(
                s.armed,
                events,
                i,
            )[j]).1.value() == 0,
    ensures
        !has_finding(s.after_events(events).detections, (i as u8, mode)),
{
    law_failures_are_found(s, events, count, i);
    let outputs = history(s.armed, events, i);
    lemma_pow2_pos(149);
    if saturated(outputs) {
        let k = choose|k: int| fifty_at_maximum(outputs, k);
        assert(outputs[k - 1].1.value() >= 1900 * pow2(149));
    }
}

/// Fifty outputs in a row while armed, each a number of at least 1900, are
/// reported as a lock of that motor.
pub proof fn law_fifty_outputs_at_maximum_are_a_lock(
    s: MotorFailureState,
    events: Seq<MotorEvent>,
    count: nat,
    i: nat,
    first: int,
)
    requires
        s.wf(),
        s.motor_count is None,
        i < count <= 16,
        same_count(s.armed, events, count),
        0 <= first <= history(s.armed, events, i).len() - 50,
        forall|j: int|
            first <= j < first + 50 ==> {
                let pwm = (#[trigger] history(s.armed, events, i)[j]).1;
                !pwm.nan() && pwm.value() >= 1900 * pow2(149)
            },
    ensures
        exists|m: int|
            0 <= m < s.after_events(events).detections.len() && ((#[trigger] s.after_events(
                events,
            ).detections[m]).evidence matches EvidenceView::MotorFailure { motor_index, mode, .. }
                && motor_index == i && mode == MotorFailureMode::LockedAtMax),
{
    law_failures_are_found(s, events, count, i);
    assert(fifty_at_maximum(history(s.armed, events, i), first + 50));
    lemma_events(s, events, count, i);
    let list = s.after_events(events).detections;
    let m = choose|m: int|
        0 <= m < list.len() && failure(#[trigger] list[m]) == (
            i as u8,
            MotorFailureMode::LockedAtMax,
        );
    assert(sound(list[m]));
}

/// The window of a motor is its last fifty outputs while armed, or all where
/// there are fewer.
pub proof fn law_window_is_the_last_outputs(
    s: MotorFailureState,
    events: Seq<MotorEvent>,
    count: nat,
    i: nat,
)
    requires
        s.wf(),
        s.motor_count is None,
        i < count <= 16,
        same_count(s.armed, events, count),
    ensures
        ({
            let after = s.after_events(events);
            let outputs = history(s.armed, events, i);
            match after.motor_count {
                Some(n) => {
                    &&& n == count
                    &&& after.windows[i as int] == last_outputs(outputs)
                    &&& after.was_active[i as int] <==> exists|j: int|
                        0 <= j < outputs.len() && (#[trigger] outputs[j]).1.value() != 0
                },
                None => outputs.len() == 0,
            }
        }),
{
    lemma_events(s, events, count, i);
}

/// What one output adds to the findings: a drop for an output of zero of a motor
/// that ran, at its own time; a lock for an output at the maximum behind
/// forty-nine others, from the time of the first of them to its own; else, and
/// where the failure was reported before, nothing.
pub proof fn law_findings_of_an_output(s: MotorFailureState, i: nat, ts: u64, pwm: Float32)
    requires
        s.wf(),
        i < s.windows.len(),
    ensures
        ({
            let after = s.after_output(i, ts, pwm).detections;
            let window = s.windows[i as int];
            let drop = pwm.value() == 0 && s.was_active[i as int] && !has_finding(
                s.detections,
                (i as u8, MotorFailureMode::DropToZero),
            );
            let lock = window.len() >= 49 && !pwm.nan() && pwm.value() >= 1900 * pow2(149) && (
            forall|j: int|
                window.len() - 49 <= j < window.len() ==> !(#[trigger] window[j]).1.nan()
                    && window[j].1.value() >= 1900 * pow2(149)) && !has_finding(
                s.detections,
                (i as u8, MotorFailureMode::LockedAtMax),
            );
            if drop || lock {
                let d = after.last();
                &&& after.len() == s.detections.len() + 1
                &&& after.drop_last() == s.detections
                &&& d.evidence == (EvidenceView::MotorFailure {
                    motor_index: i as u8,
                    pwm_value: pwm,
                    mode: if drop {
                        MotorFailureMode::DropToZero
                    } else {
                        MotorFailureMode::LockedAtMax
                    },
                    flight_mode: s.flight_mode,
                })
                &&& drop ==> d.timestamp_us == ts && d.end_timestamp_us is None
                &&& lock ==> d.timestamp_us == window[window.len() - 49].0 && d.end_timestamp_us
                    == Some(ts)
                &&& reads_as_its_evidence(d)
            } else {
                after == s.detections
            }
        }),
{
    let after = s.after_output(i, ts, pwm).detections;
    let window = s.windows[i as int];
    let longer = slide(window, (ts, pwm));
    lemma_pow2_pos(149);
    lemma_fired(s, (i as u8, MotorFailureMode::DropToZero));
    lemma_fired(s, (i as u8, MotorFailureMode::LockedAtMax));
    assert(longer.last() == (ts, pwm));
    if window.len() >= 49 {
        let first = window.len() - 49;
        assert(longer.len() == 50);
        assert forall|j: int| 0 <= j < 49 implies #[trigger] longer[j] == window[first + j] by {}
        if locked(longer) {
            assert forall|j: int| first <= j < window.len() implies !(#[trigger] window[j]).1.nan()
                && window[j].1.value() >= 1900 * pow2(149) by {
                assert(longer[j - first].1.reaches(PWM_MAX_THRESHOLD as nat));
            }
            assert(longer[49].1.reaches(PWM_MAX_THRESHOLD as nat));
        }
    }
    if s.drop_due(i, pwm) {
        assert(!locked(longer)) by {
            if locked(longer) {
                assert(longer[49].1.reaches(PWM_MAX_THRESHOLD as nat));
            }
        }
    }
    if after.len() > s.detections.len() {
        assert(after.drop_last() =~= s.detections);
    }
}

/// A failure has fired exactly if there is a finding of it.
proof fn lemma_fired(s: MotorFailureState, p: (u8, MotorFailureMode))
    requires
        s.wf(),
    ensures
        s.fired.contains(p) <==> has_finding(s.detections, p),
{
    if has_finding(s.detections, p) {
        let j = choose|j: int|
            0 <= j < s.detections.len() && failure(#[trigger] s.detections[j]) == p;
        assert(sound(s.detections[j]));
    }
}

/// What a finding says of its evidence: a drop is critical and a moment, a lock
/// is a warning and a stretch of time; both are drawn on the motor's output, and
/// the summary gives the motor, the times and, for a drop, the flight mode.
pub open spec fn reads_as_its_evidence(d: DiagnosticView) -> bool {
    d.evidence matches EvidenceView::MotorFailure { motor_index, mode, flight_mode, .. } && {
        &&& d.id == "motor_failure"@
        &&& d.anchor.topic == "actuator_outputs"@
        &&& d.anchor.field == "output["@ + whole_text(motor_index as nat) + "]"@
        &&& d.descriptor == motor_failure_descriptor()
        &&& match mode {
            MotorFailureMode::DropToZero => {
                &&& d.severity == Severity::Critical
                &&& d.kind == AnomalyKind::Point
                &&& d.end_timestamp_us is None
                &&& d.summary == "Motor "@ + whole_text(motor_index as nat)
                    + " output dropped to 0 PWM at "@ + seconds_text(d.timestamp_us as nat)
                    + "s while armed in "@ + flight_mode + " mode"@
            },
            MotorFailureMode::LockedAtMax => {
                &&& d.severity == Severity::Warning
                &&& d.kind == AnomalyKind::Region
                &&& d.end_timestamp_us matches Some(end) && d.summary == "Motor "@ + whole_text(
                    motor_index as nat,
                ) + " locked at max PWM from "@ + seconds_text(d.timestamp_us as nat) + "s to "@
                    + seconds_text(end as nat) + "s while armed"@
            },
        }
    }
}

/// The findings that one message adds come in the order of the motors.
pub proof fn law_findings_come_in_motor_order(
    s: MotorFailureState,
    ts: u64,
    outputs: Seq<Option<Float32>>,
    a: int,
    b: int,
)
    requires
        outputs.len() <= 16,
        s.detections.len() <= a < b < s.after_actuator_outputs(ts, outputs).detections.len(),
    ensures
        ({
            let list = s.after_actuator_outputs(ts, outputs).detections;
            failure(list[a]).0 <= failure(list[b]).0
        }),
{
    lemma_motor_order(s.with_motors(outputs.len()), ts, outputs, outputs.len());
}

/// The same for the first `n` motors.
proof fn lemma_motor_order(s: MotorFailureState, ts: u64, outputs: Seq<Option<Float32>>, n: nat)
    requires
        n <= 16,
    ensures
        ({
            let list = s.after_outputs(ts, outputs, n).detections;
            &&& list.len() >= s.detections.len()
            &&& forall|a: int|
                s.detections.len() <= a < list.len() ==> failure(#[trigger] list[a]).0 < n
            &&& forall|a: int, b: int|
                s.detections.len() <= a < b < list.len() ==> failure(#[trigger] list[a]).0
                    <= failure(#[trigger] list[b]).0
        }),
    decreases n,
{
    if n > 0 {
        lemma_motor_order(s, ts, outputs, (n - 1) as nat);
    }
}

/// A `vehicle_status` message says whether the vehicle is armed, which it is in
/// state 2 alone, and what its flight mode is; what it does not say stays, and
/// nothing else changes.
pub proof fn law_status_sets_arming_and_mode(s: MotorFailureState, data: DataMessage<'_>)
    requires
        topic_of(data) == "vehicle_status"@,
    ensures
        s.after_message(data) == (MotorFailureState {
            armed: match byte_field(data, "arming_state"@) {
                Some(state) => state == 2,
                None => s.armed,
            },
            flight_mode: match byte_field(data, "nav_state"@) {
                Some(nav) => flight_mode_name(nav),
                None => s.flight_mode,
            },
            ..s
        }),
{
}

/// An `actuator_outputs` message gives each motor the output in its own field,
/// at the message's time. The motors are those of the first such message while
/// armed: as many as it has output fields from the first on without a gap,
/// sixteen at most.
pub proof fn law_message_gives_each_motor_its_output(
    s: MotorFailureState,
    data: DataMessage<'_>,
    outputs: Seq<Option<Float32>>,
)
    requires
        topic_of(data) == "actuator_outputs"@,
        s.armed,
        forall|j: int|
            0 <= j < outputs.len() ==> #[trigger] outputs[j] == float_field(
                data,
                "output["@ + whole_text(j as nat) + "]"@,
            ),
        match s.motor_count {
            Some(n) => outputs.len() == n,
            None => {
                &&& outputs.len() <= 16
                &&& forall|j: int| 0 <= j < outputs.len() ==> (#[trigger] outputs[j]) is Some
                &&& outputs.len() < 16 ==> float_field(
                    data,
                    "output["@ + whole_text(outputs.len()) + "]"@,
                ) is None
            },
        },
    ensures
        s.after_message(data) == s.after_event(
            MotorEvent::Outputs { ts: timestamp_us(data), outputs },
        ),
{
    reveal_strlit("actuator_outputs");
    reveal_strlit("vehicle_status");
    assert("actuator_outputs"@.len() != "vehicle_status"@.len());
    if s.motor_count is None {
        lemma_leading_is(data, outputs, 0);
    }
    assert(motor_outputs(data, s.outputs_read(data)) =~= outputs);
}

/// The leading outputs are counted up to the first gap.
proof fn lemma_leading_is(data: DataMessage<'_>, outputs: Seq<Option<Float32>>, from: nat)
    requires
        from <= outputs.len() <= 16,
        forall|j: int|
            0 <= j < outputs.len() ==> #[trigger] outputs[j] == float_field(
                data,
                output_name(j as nat),
            ),
        forall|j: int| 0 <= j < outputs.len() ==> (#[trigger] outputs[j]) is Some,
        outputs.len() < 16 ==> float_field(data, output_name(outputs.len())) is None,
    ensures
        leading_outputs(data, from) == outputs.len(),
    decreases outputs.len() - from,
{
    if from < outputs.len() {
        assert(outputs[from as int] is Some);
        lemma_leading_is(data, outputs, from + 1);
    }
}

/// A message is taken in exactly if what counts of its topic can be read: of a
/// `vehicle_status` message the two states, of an `actuator_outputs` message
/// while armed the time and the output of each motor, of any other nothing.
pub proof fn law_what_is_read_decides(
    s: MotorFailureState,
    data: DataMessage<'_>,
    count: nat,
)
    requires
        match s.motor_count {
            Some(n) => count == n,
            None => {
                &&& count <= 16
                &&& forall|j: nat|
                    j < count ==> float_field(data, #[trigger] output_name(j)) is Some
                &&& count < 16 ==> float_field(data, output_name(count)) is None
            },
        },
    ensures
        s.readable(data) <==> {
            &&& topic_of(data) == "vehicle_status"@ ==> byte_readable(data, "arming_state"@)
                && byte_readable(data, "nav_state"@)
            &&& topic_of(data) == "actuator_outputs"@ && s.armed ==> timestamp_readable(data)
                && forall|j: nat|
                j < count ==> float_readable(data, #[trigger] output_name(j))
        },
{
    reveal_strlit("actuator_outputs");
    reveal_strlit("vehicle_status");
    assert("actuator_outputs"@.len() != "vehicle_status"@.len());
    if s.motor_count is None {
        lemma_leading_is(data, motor_outputs(data, count), 0);
    }
    assert(s.outputs_read(data) == count);
}

/// The field of a motor's output is named by the motor's number.
pub proof fn law_output_fields_are_numbered(i: nat)
    ensures
        output_name(i) == "output["@ + whole_text(i) + "]"@,
{
}

/// A message is refused for a reason only: one that is whole is taken in.
pub proof fn law_whole_message_is_accepted(s: MotorFailureState, data: DataMessage<'_>)
    requires
        whole(data),
    ensures
        s.readable(data),
{
    law_whole_message_is_readable(data, "arming_state"@);
    law_whole_message_is_readable(data, "nav_state"@);
    assert forall|i: nat| i < s.outputs_read(data) implies float_readable(
        data,
        #[trigger] output_name(i),
    ) by {
        law_whole_message_is_readable(data, output_name(i));
    }
}

/// A fresh analyzer takes the vehicle for disarmed and knows neither a motor nor
/// the flight mode.
pub proof fn law_nothing_is_known_at_first()
    ensures
        !MotorFailureState::initial().armed,
        MotorFailureState::initial().flight_mode == "Unknown"@,
        MotorFailureState::initial().motor_count is None,
        MotorFailureState::initial().detections.len() == 0,
        MotorFailureState::initial().wf(),
{
}

/// Nothing is found while the vehicle is disarmed; outputs do not even count.
pub proof fn law_silent_while_disarmed(s: MotorFailureState, ts: u64, outputs: Seq<Option<Float32>>)
    requires
        !s.armed,
    ensures
        s.after_actuator_outputs(ts, outputs) == s,
{
}

/// The first outputs while armed settle the number of motors; no later message
/// changes it.
pub proof fn law_motor_count_is_settled(s: MotorFailureState, data: DataMessage<'_>)
    ensures
        s.motor_count is Some ==> s.after_message(data).motor_count == s.motor_count,
        s.motor_count is None && s.armed && topic_of(data) == "actuator_outputs"@
            ==> s.after_message(data).motor_count == Some(leading_outputs(data, 0)),
{
    reveal_strlit("actuator_outputs");
    reveal_strlit("vehicle_status");
    assert("actuator_outputs"@.len() != "vehicle_status"@.len());
    let n = s.outputs_read(data);
    lemma_armed_kept(s.with_motors(n), timestamp_us(data), motor_outputs(data, n), n);
}

/// Findings are kept, and a message adds two for each motor at most.
pub proof fn law_findings_are_kept(s: MotorFailureState, data: DataMessage<'_>)
    ensures
        s.detections.is_prefix_of(s.after_message(data).detections),
        s.after_message(data).detections.len() <= s.detections.len() + 2 * s.outputs_read(data),
{
    let n = s.outputs_read(data);
    lemma_findings_kept(s.with_motors(n), timestamp_us(data), motor_outputs(data, n), n);
}

/// Only the required topics count.
pub proof fn law_other_topics_are_ignored(s: MotorFailureState, data: DataMessage<'_>)
    requires
        topic_of(data) != "actuator_outputs"@,
        topic_of(data) != "vehicle_status"@,
    ensures
        s.after_message(data) == s,
{
}

} // verus!
