//! What the analyzers report.
use crate::float32::Float32;
use vstd::prelude::*;

verus! {

/// How serious a finding is.
#[derive(Clone, Copy, Debug, PartialEq, Eq, Structural)]
pub enum Severity {
    Warning,
    Critical,
}

/// Whether a finding belongs to a moment or to a stretch of time.
#[derive(Clone, Copy, Debug, PartialEq, Eq, Structural)]
pub enum AnomalyKind {
    Point,
    Region,
}

/// The unit of an evidence field.
#[derive(Clone, Copy, Debug, PartialEq, Eq, Structural)]
pub enum FieldUnit {
    Amps,
    Count,
    Label,
    Meters,
    Microseconds,
    Milliseconds,
    Pwm,
    Ratio,
    Volts,
}

/// How a motor failed.
#[derive(Clone, Copy, Debug, PartialEq, Eq, Structural)]
pub enum MotorFailureMode {
    /// The output fell to zero.
    DropToZero,
    /// The output stayed at its maximum.
    LockedAtMax,
}

/// The logged series that a finding is drawn on.
#[derive(Debug)]
pub struct PlotAnchor {
    pub topic: String,
    pub field: String,
}

/// The contents of a [`PlotAnchor`].
pub struct PlotAnchorView {
    pub topic: Seq<char>,
    pub field: Seq<char>,
}

impl View for PlotAnchor {
    type V = PlotAnchorView;

    open spec fn view(&self) -> PlotAnchorView {
        PlotAnchorView { topic: self.topic@, field: self.field@ }
    }
}

impl PlotAnchor {
    /// The anchor at a field of a topic.
    pub fn new(topic: &str, field: &str) -> (r: PlotAnchor)
        ensures
            r@ == (PlotAnchorView { topic: topic@, field: field@ }),
    {
        PlotAnchor { topic: topic.to_owned(), field: field.to_owned() }
    }
}

/// One field of an analyzer's evidence.
#[derive(Debug)]
pub struct DescriptorField {
    pub name: String,
    pub unit: FieldUnit,
}

impl View for DescriptorField {
    type V = (Seq<char>, FieldUnit);

    open spec fn view(&self) -> (Seq<char>, FieldUnit) {
        (self.name@, self.unit)
    }
}

impl Clone for DescriptorField {
    fn clone(&self) -> (r: DescriptorField)
        ensures
            r@ == self@,
    {
        DescriptorField { name: self.name.clone(), unit: self.unit }
    }
}

/// The fields of an analyzer's evidence, in order, with their units.
#[derive(Debug)]
pub struct OutputDescriptor {
    pub fields: Vec<DescriptorField>,
}

impl View for OutputDescriptor {
    type V = Seq<(Seq<char>, FieldUnit)>;

    open spec fn view(&self) -> Seq<(Seq<char>, FieldUnit)> {
        self.fields@.map_values(|f: DescriptorField| f@)
    }
}

impl OutputDescriptor {
    /// The descriptor without fields.
    pub fn new() -> (r: OutputDescriptor)
        ensures
            r@ == Seq::<(Seq<char>, FieldUnit)>::empty(),
    {
        let r: OutputDescriptor = OutputDescriptor { fields: Vec::new() };
        assert(r@ =~= Seq::<(Seq<char>, FieldUnit)>::empty());
        r
    }

    /// The descriptor with one more field.
    pub fn field(self, name: &str, unit: FieldUnit) -> (r: OutputDescriptor)
        ensures
            r@ == self@.push((name@, unit)),
    {
        let mut fields: Vec<DescriptorField> = self.fields;
        fields.push(DescriptorField { name: name.to_owned(), unit });
        let r: OutputDescriptor = OutputDescriptor { fields };
        assert(r@ =~= self@.push((name@, unit)));
        r
    }
}

impl Clone for OutputDescriptor {
    fn clone(&self) -> (r: OutputDescriptor)
        ensures
            r@ == self@,
    {
        let mut fields: Vec<DescriptorField> = Vec::new();
        let mut i: usize = 0;
        while i < self.fields.len()
            invariant
                i <= self.fields@.len(),
                fields@.len() == i,
                forall|j: int| 0 <= j < i ==> (#[trigger] fields@[j])@ == self.fields@[j]@,
            decreases self.fields@.len() - i,
        {
            fields.push(self.fields[i].clone());
            i = i + 1;
        }
        let r: OutputDescriptor = OutputDescriptor { fields };
        assert(r@ =~= self@);
        r
    }
}

/// The measurements behind a finding.
#[derive(Debug)]
pub enum Evidence {
    MotorFailure {
        motor_index: u8,
        pwm_value: Float32,
        mode: MotorFailureMode,
        flight_mode: String,
    },
    BatteryBrownout {
        voltage_v: Float32,
        critical_threshold_v: Float32,
        current_a: Option<Float32>,
    },
    EkfFailure { innovation: String, test_ratio: Float32, threshold: Float32 },
    GpsInterference {
        eph_m: Float32,
        epv_m: Float32,
        num_satellites: u16,
        noise_level: Option<Float32>,
    },
    RcLoss { last_signal_timestamp_us: u64, signal_lost_duration_ms: u64 },
}

/// The contents of an [`Evidence`].
pub enum EvidenceView {
    MotorFailure {
        motor_index: u8,
        pwm_value: Float32,
        mode: MotorFailureMode,
        flight_mode: Seq<char>,
    },
    BatteryBrownout {
        voltage_v: Float32,
        critical_threshold_v: Float32,
        current_a: Option<Float32>,
    },
    EkfFailure { innovation: Seq<char>, test_ratio: Float32, threshold: Float32 },
    GpsInterference {
        eph_m: Float32,
        epv_m: Float32,
        num_satellites: u16,
        noise_level: Option<Float32>,
    },
    RcLoss { last_signal_timestamp_us: u64, signal_lost_duration_ms: u64 },
}

impl View for Evidence {
    type V = EvidenceView;

    open spec fn view(&self) -> EvidenceView {
        match *self {
            Evidence::MotorFailure { motor_index, pwm_value, mode, flight_mode } =>
                EvidenceView::MotorFailure {
                    motor_index,
                    pwm_value,
                    mode,
                    flight_mode: flight_mode@,
                },
            Evidence::BatteryBrownout { voltage_v, critical_threshold_v, current_a } =>
                EvidenceView::BatteryBrownout { voltage_v, critical_threshold_v, current_a },
            Evidence::EkfFailure { innovation, test_ratio, threshold } =>
                EvidenceView::EkfFailure { innovation: innovation@, test_ratio, threshold },
            Evidence::GpsInterference { eph_m, epv_m, num_satellites, noise_level } =>
                EvidenceView::GpsInterference { eph_m, epv_m, num_satellites, noise_level },
            Evidence::RcLoss { last_signal_timestamp_us, signal_lost_duration_ms } =>
                EvidenceView::RcLoss { last_signal_timestamp_us, signal_lost_duration_ms },
        }
    }
}

/// One finding of one analyzer.
#[derive(Debug)]
pub struct Diagnostic {
    pub id: String,
    pub summary: String,
    pub severity: Severity,
    pub kind: AnomalyKind,
    pub timestamp_us: u64,
    pub end_timestamp_us: Option<u64>,
    pub anchor: PlotAnchor,
    pub descriptor: OutputDescriptor,
    pub evidence: Evidence,
}

/// The contents of a [`Diagnostic`].
pub struct DiagnosticView {
    pub id: Seq<char>,
    pub summary: Seq<char>,
    pub severity: Severity,
    pub kind: AnomalyKind,
    pub timestamp_us: u64,
    pub end_timestamp_us: Option<u64>,
    pub anchor: PlotAnchorView,
    pub descriptor: Seq<(Seq<char>, FieldUnit)>,
    pub evidence: EvidenceView,
}

impl View for Diagnostic {
    type V = DiagnosticView;

    open spec fn view(&self) -> DiagnosticView {
        DiagnosticView {
            id: self.id@,
            summary: self.summary@,
            severity: self.severity,
            kind: self.kind,
            timestamp_us: self.timestamp_us,
            end_timestamp_us: self.end_timestamp_us,
            anchor: self.anchor@,
            descriptor: self.descriptor@,
            evidence: self.evidence@,
        }
    }
}

/// The contents of a list of findings.
pub open spec fn findings(list: Seq<Diagnostic>) -> Seq<DiagnosticView> {
    list.map_values(|d: Diagnostic| d@)
}

/// The timestamp of the last finding, 0 where there is none.
pub open spec fn last_timestamp(list: Seq<DiagnosticView>) -> u64 {
    if list.len() == 0 {
        0
    } else {
        list.last().timestamp_us
    }
}

/// Each finding with a timestamp comes at least `interval` microseconds after
/// the one before it.
pub open spec fn spaced(list: Seq<DiagnosticView>, interval: nat) -> bool {
    forall|i: int, j: int|
        #![trigger list[i], list[j]]
        0 <= i && j == i + 1 && j < list.len() && list[j].timestamp_us > 0 ==> list[j].timestamp_us
            >= list[i].timestamp_us + interval
}

/// Appends a finding.
pub fn report(list: &mut Vec<Diagnostic>, d: Diagnostic)
    ensures
        findings(final(list)@) == findings(old(list)@).push(d@),
{
    list.push(d);
    assert(findings(list@) =~= findings(old(list)@).push(d@));
}

/// What is said of a finding's contents is what its fields hold.
pub proof fn law_contents_are_the_fields(d: Diagnostic)
    ensures
        d@.id == d.id@,
        d@.summary == d.summary@,
        d@.severity == d.severity,
        d@.kind == d.kind,
        d@.timestamp_us == d.timestamp_us,
        d@.end_timestamp_us == d.end_timestamp_us,
        d@.anchor.topic == d.anchor.topic@,
        d@.anchor.field == d.anchor.field@,
        d@.descriptor.len() == d.descriptor.fields@.len(),
        forall|i: int|
            0 <= i < d.descriptor.fields@.len() ==> (#[trigger] d@.descriptor[i]) == (
                d.descriptor.fields@[i].name@,
                d.descriptor.fields@[i].unit,
            ),
        match d.evidence {
            Evidence::MotorFailure { motor_index, pwm_value, mode, flight_mode } => d@.evidence == (
            EvidenceView::MotorFailure { motor_index, pwm_value, mode, flight_mode: flight_mode@ }),
            Evidence::BatteryBrownout { voltage_v, critical_threshold_v, current_a } => d@.evidence
                == (EvidenceView::BatteryBrownout { voltage_v, critical_threshold_v, current_a }),
            Evidence::EkfFailure { innovation, test_ratio, threshold } => d@.evidence == (
            EvidenceView::EkfFailure { innovation: innovation@, test_ratio, threshold }),
            Evidence::GpsInterference { eph_m, epv_m, num_satellites, noise_level } => d@.evidence
                == (EvidenceView::GpsInterference { eph_m, epv_m, num_satellites, noise_level }),
            Evidence::RcLoss { last_signal_timestamp_us, signal_lost_duration_ms } => d@.evidence
                == (EvidenceView::RcLoss { last_signal_timestamp_us, signal_lost_duration_ms }),
        },
{
}

/// A list is said to hold what its findings hold, one by one.
pub proof fn law_contents_are_in_order(list: Seq<Diagnostic>)
    ensures
        findings(list).len() == list.len(),
        forall|i: int| 0 <= i < list.len() ==> #[trigger] findings(list)[i] == list[i]@,
{
}

} // verus!
