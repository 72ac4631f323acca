//! EKF failure detection analyzer.
//!
//! Monitors `estimator_status` for innovation test ratios exceeding their
//! bounds. When a test ratio stays above one for a sustained period, the filter
//! is failing to converge and its position and velocity estimates are
//! unreliable.
use crate::decimal::{append_seconds, seconds_text};
use crate::diagnostic::{
    findings, report, AnomalyKind, Diagnostic, DiagnosticView, Evidence, EvidenceView, FieldUnit,
    OutputDescriptor, PlotAnchor, PlotAnchorView, Severity,
};
use crate::float32::{lemma_whole, Float32};
use crate::message::{
    float_field, float_readable, is_float_readable, is_timestamp_readable,
    law_whole_message_is_readable, read_float, read_timestamp, same_text, timestamp_readable,
    timestamp_us, topic, topic_of, whole,
};
use px4_ulog::stream_parser::model::DataMessage;
use vstd::arithmetic::power2::{lemma2_to64, pow2};
use vstd::prelude::*;
use vstd::string::StringExecFns;

verus! {

/// Bits of the test ratio threshold, one: above it the innovation is failing.
pub const TEST_RATIO_THRESHOLD_BITS: u32 = 0x3F80_0000;

/// Duration (microseconds) of sustained exceedance for a warning.
pub const WARNING_DURATION_US: u64 = 2_000_000;

/// Duration (microseconds) of sustained exceedance for a critical finding.
pub const CRITICAL_DURATION_US: u64 = 5_000_000;

/// Tracks sustained exceedance for a single innovation channel.
pub struct InnovationTracker {
    name: &'static str,
    field_name: &'static str,
    exceeded_since: Option<u64>,
    warning_fired: bool,
    critical_fired: bool,
}

/// What an [`InnovationTracker`] knows of its channel.
pub struct TrackerState {
    /// The innovation's name.
    pub name: Seq<char>,
    /// The field that holds its test ratio.
    pub field_name: Seq<char>,
    /// When the ratio rose above the threshold, while it is above.
    pub exceeded_since: Option<u64>,
    /// A warning is no longer due for this exceedance.
    pub warning_fired: bool,
    /// A critical finding was reported for this exceedance.
    pub critical_fired: bool,
}

/// The fields of the analyzer's evidence.
pub open spec fn ekf_failure_descriptor() -> Seq<(Seq<char>, FieldUnit)> {
    seq![
        ("innovation"@, FieldUnit::Label),
        ("test_ratio"@, FieldUnit::Ratio),
        ("threshold"@, FieldUnit::Ratio),
    ]
}

impl TrackerState {
    /// A channel that has shown nothing yet.
    pub open spec fn initial(name: Seq<char>, field_name: Seq<char>) -> TrackerState {
        TrackerState {
            name,
            field_name,
            exceeded_since: None,
            warning_fired: false,
            critical_fired: false,
        }
    }

    /// Findings belong to an exceedance, and a critical one rules out a later
    /// warning.
    pub open spec fn wf(self) -> bool {
        &&& self.critical_fired ==> self.warning_fired
        &&& self.warning_fired ==> self.exceeded_since is Some
    }

    /// When the exceedance that a sample at `ts` belongs to began.
    pub open spec fn start(self, ts: u64) -> u64 {
        match self.exceeded_since {
            Some(start) => start,
            None => ts,
        }
    }

    /// How long that exceedance has lasted.
    pub open spec fn duration(self, ts: u64) -> nat {
        if ts >= self.start(ts) {
            (ts - self.start(ts)) as nat
        } else {
            0
        }
    }

    /// The finding that a sample calls for, if any: a critical one after five
    /// seconds, else a warning after two, each once per exceedance.
    pub open spec fn due(self, ts: u64, ratio: Float32) -> Option<Severity> {
        if !ratio.finite() || !ratio.exceeds(1) {
            None
        } else if self.duration(ts) >= CRITICAL_DURATION_US && !self.critical_fired {
            Some(Severity::Critical)
        } else if self.duration(ts) >= WARNING_DURATION_US && !self.warning_fired {
            Some(Severity::Warning)
        } else {
            None
        }
    }

    /// The channel after a sample. A ratio that is not finite says nothing; one
    /// at or below the threshold ends the exceedance.
    pub open spec fn after(self, ts: u64, ratio: Float32) -> TrackerState {
        if !ratio.finite() {
            self
        } else if ratio.exceeds(1) {
            TrackerState {
                exceeded_since: Some(self.start(ts)),
                warning_fired: self.warning_fired || self.due(ts, ratio) is Some,
                critical_fired: self.critical_fired || self.due(ts, ratio) == Some(
                    Severity::Critical,
                ),
                ..self
            }
        } else {
            TrackerState::initial(self.name, self.field_name)
        }
    }

    /// The finding of the given severity for a sample.
    pub open spec fn finding(
        self,
        ts: u64,
        ratio: Float32,
        severity: Severity,
        descriptor: Seq<(Seq<char>, FieldUnit)>,
    ) -> DiagnosticView {
        DiagnosticView {
            id: "ekf_failure"@,
            summary: "EKF "@ + self.name + " innovation exceeded threshold for "@ + seconds_text(
                self.duration(ts),
            ) + "s starting at "@ + seconds_text(self.start(ts) as nat) + "s"@,
            severity,
            kind: AnomalyKind::Region,
            timestamp_us: self.start(ts),
            end_timestamp_us: Some(ts),
            anchor: PlotAnchorView { topic: "estimator_status"@, field: self.field_name },
            descriptor,
            evidence: EvidenceView::EkfFailure {
                innovation: self.name,
                test_ratio: ratio,
                threshold: Float32 { bits: TEST_RATIO_THRESHOLD_BITS },
            },
        }
    }

    /// The findings after a sample.
    pub open spec fn reported(
        self,
        before: Seq<DiagnosticView>,
        ts: u64,
        ratio: Float32,
        descriptor: Seq<(Seq<char>, FieldUnit)>,
    ) -> Seq<DiagnosticView> {
        match self.due(ts, ratio) {
            Some(severity) => before.push(self.finding(ts, ratio, severity, descriptor)),
            None => before,
        }
    }
}

impl View for InnovationTracker {
    type V = TrackerState;

    closed spec fn view(&self) -> TrackerState {
        TrackerState {
            name: self.name@,
            field_name: self.field_name@,
            exceeded_since: self.exceeded_since,
            warning_fired: self.warning_fired,
            critical_fired: self.critical_fired,
        }
    }
}

/// The threshold is one.
pub proof fn lemma_test_ratio_threshold(ratio: Float32)
    ensures
        (Float32 { bits: TEST_RATIO_THRESHOLD_BITS }).lt(ratio) == ratio.exceeds(1),
{
    lemma2_to64();
    lemma_whole(Float32 { bits: TEST_RATIO_THRESHOLD_BITS }, 1);
}

impl InnovationTracker {
    /// A tracker of the named innovation, whose test ratio is in the named
    /// field.
    pub fn new(name: &'static str, field_name: &'static str) -> (r: InnovationTracker)
        ensures
            r@ == TrackerState::initial(name@, field_name@),
            r@.wf(),
    {
        InnovationTracker {
            name,
            field_name,
            exceeded_since: None,
            warning_fired: false,
            critical_fired: false,
        }
    }

    /// Takes in a test ratio, and reports what it calls for.
    pub fn update(
        &mut self,
        ts: u64,
        ratio: Float32,
        descriptor: &OutputDescriptor,
        detections: &mut Vec<Diagnostic>,
    )
        ensures
            final(self)@ == old(self)@.after(ts, ratio),
            findings(final(detections)@) == old(self)@.reported(
                findings(old(detections)@),
                ts,
                ratio,
                descriptor@,
            ),
            old(self)@.wf() ==> final(self)@.wf(),
    {
        if !ratio.is_finite() {
            return;
        }
        let threshold: Float32 = Float32::from_bits(TEST_RATIO_THRESHOLD_BITS);
        proof {
            lemma_test_ratio_threshold(ratio);
        }
        if threshold.less_than(ratio) {
            let start: u64 = match self.exceeded_since {
                Some(since) => since,
                None => ts,
            };
            self.exceeded_since = Some(start);
            let duration: u64 = ts.saturating_sub(start);
            if duration >= CRITICAL_DURATION_US && !self.critical_fired {
                self.critical_fired = true;
                self.warning_fired = true;
                let d: Diagnostic = self.diagnostic(ts, ratio, Severity::Critical, descriptor);
                report(detections, d);
            } else if duration >= WARNING_DURATION_US && !self.warning_fired {
                self.warning_fired = true;
                let d: Diagnostic = self.diagnostic(ts, ratio, Severity::Warning, descriptor);
                report(detections, d);
            }
        } else {
            self.exceeded_since = None;
            self.warning_fired = false;
            self.critical_fired = false;
        }
    }

    /// The finding of the given severity for a sample.
    fn diagnostic(
        &self,
        ts: u64,
        ratio: Float32,
        severity: Severity,
        descriptor: &OutputDescriptor,
    ) -> (r: Diagnostic)
        ensures
            r@ == self@.finding(ts, ratio, severity, descriptor@),
    {
        let start: u64 = match self.exceeded_since {
            Some(since) => since,
            None => ts,
        };
        let duration: u64 = ts.saturating_sub(start);
        let mut summary: String = "EKF ".to_owned();
        summary.append(self.name);
        summary.append(" innovation exceeded threshold for ");
        append_seconds(&mut summary, duration);
        summary.append("s starting at ");
        append_seconds(&mut summary, start);
        summary.append("s");
        Diagnostic {
            id: "ekf_failure".to_owned(),
            summary,
            severity,
            kind: AnomalyKind::Region,
            timestamp_us: start,
            end_timestamp_us: Some(ts),
            anchor: PlotAnchor::new("estimator_status", self.field_name),
            descriptor: descriptor.clone(),
            evidence: Evidence::EkfFailure {
                innovation: self.name.to_owned(),
                test_ratio: ratio,
                threshold: Float32::from_bits(TEST_RATIO_THRESHOLD_BITS),
            },
        }
    }
}

/// Detects sustained exceedance of the innovation test ratios.
pub struct EkfFailureAnalyzer {
    trackers: Vec<InnovationTracker>,
    detections: Vec<Diagnostic>,
}

/// What an [`EkfFailureAnalyzer`] has seen and reported.
pub struct EkfFailureState {
    /// The channels.
    pub trackers: Seq<TrackerState>,
    /// The findings so far.
    pub detections: Seq<DiagnosticView>,
}

/// A finding covers at least two seconds above the threshold, and is critical
/// exactly when it covers five.
pub open spec fn sound(d: DiagnosticView) -> bool {
    &&& d.end_timestamp_us matches Some(end) && {
        &&& end - d.timestamp_us >= WARNING_DURATION_US
        &&& d.severity == if end - d.timestamp_us >= CRITICAL_DURATION_US {
            Severity::Critical
        } else {
            Severity::Warning
        }
    }
    &&& d.evidence matches EvidenceView::EkfFailure { test_ratio, .. } && test_ratio.exceeds(1)
}

impl EkfFailureState {
    /// The state of an analyzer that has seen nothing.
    pub open spec fn initial() -> EkfFailureState {
        EkfFailureState {
            trackers: seq![
                TrackerState::initial("velocity"@, "vel_test_ratio"@),
                TrackerState::initial("position"@, "pos_test_ratio"@),
                TrackerState::initial("height"@, "hgt_test_ratio"@),
            ],
            detections: seq![],
        }
    }

    /// No two channels have the same name.
    pub open spec fn names_differ(self) -> bool {
        forall|i: int, j: int|
            0 <= i < j < self.trackers.len() ==> (#[trigger] self.trackers[i]).name != (
            #[trigger] self.trackers[j]).name
    }

    /// Every channel is in order and has a name of its own, and the findings are
    /// sound.
    pub open spec fn wf(self) -> bool {
        &&& self.names_differ()
        &&& forall|i: int| 0 <= i < self.trackers.len() ==> (#[trigger] self.trackers[i]).wf()
        &&& forall|i: int| 0 <= i < self.detections.len() ==> sound(#[trigger] self.detections[i])
    }

    /// The channels after a sample of test ratios, channel by channel; a
    /// channel without a ratio stays as it is.
    pub open spec fn trackers_after(self, ts: u64, ratios: Seq<Option<Float32>>) -> Seq<
        TrackerState,
    > {
        Seq::new(
            self.trackers.len(),
            |i: int|
                match ratios[i] {
                    Some(ratio) => self.trackers[i].after(ts, ratio),
                    None => self.trackers[i],
                },
        )
    }

    /// The findings after the first `n` channels of a sample.
    pub open spec fn reported(self, ts: u64, ratios: Seq<Option<Float32>>, n: nat) -> Seq<
        DiagnosticView,
    >
        decreases n,
    {
        if n == 0 {
            self.detections
        } else {
            let i = n - 1;
            let before = self.reported(ts, ratios, i as nat);
            match ratios[i] {
                Some(ratio) => self.trackers[i].reported(
                    before,
                    ts,
                    ratio,
                    ekf_failure_descriptor(),
                ),
                None => before,
            }
        }
    }

    /// The state after a sample of test ratios.
    pub open spec fn after_estimator_status(
        self,
        ts: u64,
        ratios: Seq<Option<Float32>>,
    ) -> EkfFailureState {
        EkfFailureState {
            trackers: self.trackers_after(ts, ratios),
            detections: self.reported(ts, ratios, self.trackers.len()),
        }
    }

    /// The test ratios that a message gives the channels.
    pub open spec fn ratios(self, data: DataMessage<'_>) -> Seq<Option<Float32>> {
        Seq::new(self.trackers.len(), |i: int| float_field(data, self.trackers[i].field_name))
    }

    /// The state after a message.
    pub open spec fn after_message(self, data: DataMessage<'_>) -> EkfFailureState {
        if topic_of(data) == "estimator_status"@ {
            self.after_estimator_status(timestamp_us(data), self.ratios(data))
        } else {
            self
        }
    }

    /// What the analyzer reads of a message lies within the message.
    pub open spec fn readable(self, data: DataMessage<'_>) -> bool {
        topic_of(data) == "estimator_status"@ ==> {
            &&& timestamp_readable(data)
            &&& forall|i: int|
                0 <= i < self.trackers.len() ==> float_readable(
                    data,
                    #[trigger] self.trackers[i].field_name,
                )
        }
    }
}

/// Findings are kept, at most one is added for each channel, and all are sound.
proof fn lemma_reported(s: EkfFailureState, ts: u64, ratios: Seq<Option<Float32>>, n: nat)
    requires
        n <= s.trackers.len(),
    ensures
        s.detections.is_prefix_of(s.reported(ts, ratios, n)),
        s.reported(ts, ratios, n).len() <= s.detections.len() + n,
        s.wf() ==> forall|i: int|
            0 <= i < s.reported(ts, ratios, n).len() ==> sound(
                #[trigger] s.reported(ts, ratios, n)[i],
            ),
    decreases n,
{
    if n > 0 {
        lemma_reported(s, ts, ratios, (n - 1) as nat);
    }
}

/// The channels of an analyzer have different names.
proof fn lemma_initial_names()
    ensures
        EkfFailureState::initial().names_differ(),
{
    reveal_strlit("velocity");
    reveal_strlit("position");
    reveal_strlit("height");
    assert("velocity"@[0] != "position"@[0]);
    assert("velocity"@.len() != "height"@.len());
    assert("position"@.len() != "height"@.len());
}

/// The contents of a list of trackers.
pub open spec fn channels(list: Seq<InnovationTracker>) -> Seq<TrackerState> {
    list.map_values(|t: InnovationTracker| t@)
}

impl View for EkfFailureAnalyzer {
    type V = EkfFailureState;

    closed spec fn view(&self) -> EkfFailureState {
        EkfFailureState {
            trackers: channels(self.trackers@),
            detections: findings(self.detections@),
        }
    }
}

impl Default for EkfFailureAnalyzer {
    fn default() -> (r: EkfFailureAnalyzer)
        ensures
            r@ == EkfFailureState::initial(),
            r@.wf(),
    {
        EkfFailureAnalyzer::new()
    }
}

impl EkfFailureAnalyzer {
    /// An analyzer that has seen nothing.
    pub fn new() -> (r: EkfFailureAnalyzer)
        ensures
            r@ == EkfFailureState::initial(),
            r@.wf(),
    {
        let mut trackers: Vec<InnovationTracker> = Vec::new();
        trackers.push(InnovationTracker::new("velocity", "vel_test_ratio"));
        trackers.push(InnovationTracker::new("position", "pos_test_ratio"));
        trackers.push(InnovationTracker::new("height", "hgt_test_ratio"));
        let r: EkfFailureAnalyzer = EkfFailureAnalyzer { trackers, detections: Vec::new() };
        assert(r@.trackers =~= EkfFailureState::initial().trackers);
        assert(r@.detections =~= seq![]);
        proof {
            lemma_initial_names();
        }
        r
    }

    /// The analyzer's identifier.
    pub fn id(&self) -> (r: &str)
        ensures
            r@ == "ekf_failure"@,
    {
        "ekf_failure"
    }

    /// What the analyzer detects.
    pub fn description(&self) -> (r: &str)
        ensures
            r@ == "Sustained EKF innovation exceedance"@,
    {
        "Sustained EKF innovation exceedance"
    }

    /// The topics that the analyzer reads.
    pub fn required_topics(&self) -> (r: &[&str])
        ensures
            r@.len() == 1,
            r@[0]@ == "estimator_status"@,
    {
        &["estimator_status"]
    }

    /// Takes in a sample of test ratios, one for each channel.
    pub fn estimator_status(&mut self, ts: u64, ratios: &[Option<Float32>])
        requires
            ratios@.len() == old(self)@.trackers.len(),
        ensures
            final(self)@ == old(self)@.after_estimator_status(ts, ratios@),
            old(self)@.wf() ==> final(self)@.wf(),
    {
        let descriptor: OutputDescriptor = self.output_descriptor();
        let mut i: usize = 0;
        let ghost before = self@;
        while i < self.trackers.len()
            invariant
                i <= self.trackers@.len(),
                before == old(self)@,
                ratios@.len() == before.trackers.len(),
                self.trackers@.len() == before.trackers.len(),
                descriptor@ == ekf_failure_descriptor(),
                forall|j: int|
                    i <= j < self.trackers@.len() ==> (#[trigger] self.trackers@[j])@
                        == before.trackers[j],
                forall|j: int|
                    0 <= j < i ==> (#[trigger] self.trackers@[j])@ == before.trackers_after(
                        ts,
                        ratios@,
                    )[j],
                findings(self.detections@) == before.reported(ts, ratios@, i as nat),
            decreases self.trackers@.len() - i,
        {
            if let Some(ratio) = ratios[i] {
                self.trackers[i].update(ts, ratio, &descriptor, &mut self.detections);
            }
            i = i + 1;
        }
        assert(self@.trackers =~= before.trackers_after(ts, ratios@));
        proof {
            lemma_reported(before, ts, ratios@, before.trackers.len());
        }
    }

    /// Takes in a message. Topics other than the required one are ignored.
    pub fn on_message(&mut self, data: &DataMessage<'_>)
        requires
            old(self)@.readable(*data),
        ensures
            final(self)@ == old(self)@.after_message(*data),
            old(self)@.wf() ==> final(self)@.wf(),
    {
        if !same_text(topic(data), "estimator_status") {
            return;
        }
        let ts: u64 = read_timestamp(data);
        let mut ratios: Vec<Option<Float32>> = Vec::new();
        let mut i: usize = 0;
        while i < self.trackers.len()
            invariant
                i <= self.trackers@.len(),
                self@ == old(self)@,
                self@.readable(*data),
                topic_of(*data) == "estimator_status"@,
                ratios@.len() == i,
                forall|j: int| 0 <= j < i ==> #[trigger] ratios@[j] == self@.ratios(*data)[j],
            decreases self.trackers@.len() - i,
        {
            assert(self@.trackers[i as int].field_name == self.trackers@[i as int].field_name@);
            ratios.push(read_float(data, self.trackers[i].field_name));
            i = i + 1;
        }
        assert(ratios@ =~= self@.ratios(*data));
        self.estimator_status(ts, ratios.as_slice());
    }

    /// Takes in a message, or leaves the analyzer as it is and returns `false`
    /// where a field that it reads runs past the end of the message.
    pub fn try_on_message(&mut self, data: &DataMessage<'_>) -> (taken: bool)
        ensures
            taken == old(self)@.readable(*data),
            taken ==> final(self)@ == old(self)@.after_message(*data),
            !taken ==> final(self)@ == old(self)@,
            old(self)@.wf() ==> final(self)@.wf(),
    {
        if same_text(topic(data), "estimator_status") {
            if !is_timestamp_readable(data) {
                return false;
            }
            let mut i: usize = 0;
            while i < self.trackers.len()
                invariant
                    i <= self.trackers@.len(),
                    self@ == old(self)@,
                    topic_of(*data) == "estimator_status"@,
                    timestamp_readable(*data),
                    forall|j: int|
                        0 <= j < i ==> float_readable(
                            *data,
                            #[trigger] self@.trackers[j].field_name,
                        ),
                decreases self.trackers@.len() - i,
            {
                assert(self@.trackers[i as int].field_name == self.trackers@[i as int].field_name@);
                if !is_float_readable(data, self.trackers[i].field_name) {
                    return false;
                }
                i = i + 1;
            }
        }
        self.on_message(data);
        true
    }

    /// The findings, once the log is over.
    pub fn finish(self: Box<Self>) -> (r: Vec<Diagnostic>)
        ensures
            findings(r@) == self@.detections,
    {
        let this: EkfFailureAnalyzer = *self;
        this.detections
    }

    /// The fields of the analyzer's evidence.
    pub fn output_descriptor(&self) -> (r: OutputDescriptor)
        ensures
            r@ == ekf_failure_descriptor(),
    {
        let r: OutputDescriptor = OutputDescriptor::new()
            .field("innovation", FieldUnit::Label)
            .field("test_ratio", FieldUnit::Ratio)
            .field("threshold", FieldUnit::Ratio);
        assert(r@ =~= ekf_failure_descriptor());
        r
    }
}

impl TrackerState {
    /// The channel after a run of samples.
    pub open spec fn after_samples(self, samples: Seq<(u64, Float32)>) -> TrackerState
        decreases samples.len(),
    {
        if samples.len() == 0 {
            self
        } else {
            self.after_samples(samples.drop_last()).after(samples.last().0, samples.last().1)
        }
    }

    /// The severities of the findings that a run of samples calls for.
    pub open spec fn severities(self, samples: Seq<(u64, Float32)>) -> Seq<Severity>
        decreases samples.len(),
    {
        if samples.len() == 0 {
            seq![]
        } else {
            let before = self.severities(samples.drop_last());
            match self.after_samples(samples.drop_last()).due(samples.last().0, samples.last().1) {
                Some(severity) => before.push(severity),
                None => before,
            }
        }
    }
}

/// The ratio is above the threshold from sample `k` on; ratios that are not
/// finite do not count.
pub open spec fn exceeding_from(samples: Seq<(u64, Float32)>, k: int) -> bool {
    &&& 0 <= k < samples.len()
    &&& samples[k].1.finite()
    &&& forall|j: int|
        k <= j < samples.len() && (#[trigger] samples[j]).1.finite() ==> samples[j].1.value()
            > pow2(149)
}

/// Sample `k` is where the present exceedance began.
pub open spec fn exceedance_start(samples: Seq<(u64, Float32)>, k: int) -> bool {
    &&& exceeding_from(samples, k)
    &&& forall|j: int| 0 <= j < k ==> !exceeding_from(samples, j)
}

/// A channel is in exceedance exactly if its ratio has been above the threshold
/// since some sample, and then it remembers the time of the first one.
pub proof fn law_exceedance_is_remembered(
    name: Seq<char>,
    field_name: Seq<char>,
    samples: Seq<(u64, Float32)>,
)
    ensures
        match TrackerState::initial(name, field_name).after_samples(samples).exceeded_since {
            Some(start) => exists|k: int| #[trigger]
                exceedance_start(samples, k) && samples[k].0 == start,
            None => forall|k: int| !exceeding_from(samples, k),
        },
    decreases samples.len(),
{
    if samples.len() > 0 {
        let earlier = samples.drop_last();
        let last = samples.len() - 1;
        law_exceedance_is_remembered(name, field_name, earlier);
        let before = TrackerState::initial(name, field_name).after_samples(earlier);
        let (ts, ratio) = samples.last();
        assert forall|k: int|
            0 <= k < last && (!ratio.finite() || ratio.value() > pow2(149)) implies exceeding_from(
            samples,
            k,
        ) == exceeding_from(earlier, k) by {
            assert(samples[k] == earlier[k]);
            assert(exceeding_from(samples, k) ==> forall|j: int|
                k <= j < earlier.len() ==> #[trigger] earlier[j] == samples[j]);
            assert(exceeding_from(earlier, k) ==> forall|j: int|
                k <= j < earlier.len() ==> earlier[j] == #[trigger] samples[j]);
        }
        if !ratio.finite() || ratio.exceeds(1) {
            if let Some(start) = before.exceeded_since {
                let k = choose|k: int| #[trigger]
                    exceedance_start(earlier, k) && earlier[k].0 == start;
                assert(exceedance_start(samples, k));
            } else if ratio.finite() {
                assert(exceedance_start(samples, last));
            }
        } else {
            assert forall|k: int| !exceeding_from(samples, k) by {
                assert(samples[last] == (ts, ratio));
            }
        }
    }
}

/// A finding is due only for an exceedance that has lasted: at least two
/// seconds have passed since its first sample, and a finding is critical
/// exactly if five have.
pub proof fn law_only_sustained_exceedance_is_reported(
    name: Seq<char>,
    field_name: Seq<char>,
    samples: Seq<(u64, Float32)>,
    ts: u64,
    ratio: Float32,
)
    requires
        TrackerState::initial(name, field_name).after_samples(samples).due(ts, ratio) is Some,
    ensures
        ({
            let severity = TrackerState::initial(name, field_name).after_samples(samples).due(
                ts,
                ratio,
            )->0;
            let all = samples.push((ts, ratio));
            exists|k: int| #[trigger]
                exceedance_start(all, k) && {
                    &&& ts - all[k].0 >= 2_000_000
                    &&& severity == if ts - all[k].0 >= 5_000_000 {
                        Severity::Critical
                    } else {
                        Severity::Warning
                    }
                }
        }),
{
    let all = samples.push((ts, ratio));
    assert(all.drop_last() =~= samples);
    lemma_samples_keep_wf(TrackerState::initial(name, field_name), samples);
    law_exceedance_is_remembered(name, field_name, all);
}

/// A channel stays in order.
proof fn lemma_samples_keep_wf(s: TrackerState, samples: Seq<(u64, Float32)>)
    requires
        s.wf(),
    ensures
        s.after_samples(samples).wf(),
    decreases samples.len(),
{
    if samples.len() > 0 {
        lemma_samples_keep_wf(s, samples.drop_last());
    }
}

/// One exceedance calls for at most one warning and one critical finding, and
/// for no warning after the critical one.
pub proof fn law_each_severity_once_per_exceedance(
    name: Seq<char>,
    field_name: Seq<char>,
    samples: Seq<(u64, Float32)>,
)
    requires
        forall|j: int|
            0 <= j < samples.len() && (#[trigger] samples[j]).1.finite() ==> samples[j].1.value()
                > pow2(149),
    ensures
        ({
            let found = TrackerState::initial(name, field_name).severities(samples);
            ||| found == Seq::<Severity>::empty()
            ||| found == seq![Severity::Warning]
            ||| found == seq![Severity::Critical]
            ||| found == seq![Severity::Warning, Severity::Critical]
        }),
{
    lemma_severities(TrackerState::initial(name, field_name), samples);
}

/// What the flags of a channel say of the findings of its exceedance.
proof fn lemma_severities(s: TrackerState, samples: Seq<(u64, Float32)>)
    requires
        s.exceeded_since is None,
        s.wf(),
        forall|j: int|
            0 <= j < samples.len() && (#[trigger] samples[j]).1.finite() ==> samples[j].1.value()
                > pow2(149),
    ensures
        ({
            let after = s.after_samples(samples);
            let found = s.severities(samples);
            if after.critical_fired {
                &&& after.warning_fired
                &&& found =~= seq![Severity::Critical] || found =~= seq![
                    Severity::Warning,
                    Severity::Critical,
                ]
            } else if after.warning_fired {
                found =~= seq![Severity::Warning]
            } else {
                found =~= Seq::<Severity>::empty()
            }
        }),
    decreases samples.len(),
{
    if samples.len() > 0 {
        let earlier = samples.drop_last();
        assert forall|j: int| 0 <= j < earlier.len() implies #[trigger] earlier[j]
            == samples[j] by {}
        lemma_severities(s, earlier);
        assert(samples.last() == samples[samples.len() - 1]);
    }
}

/// A ratio at or below the threshold ends the exceedance: the channel is as
/// new, so that a later exceedance is timed and reported afresh.
pub proof fn law_recovery_starts_afresh(s: TrackerState, ts: u64, ratio: Float32)
    requires
        ratio.finite(),
        ratio.value() <= pow2(149),
    ensures
        s.due(ts, ratio) is None,
        s.after(ts, ratio) == TrackerState::initial(s.name, s.field_name),
{
}

/// A ratio that is not finite neither ends an exceedance nor calls for a
/// finding.
pub proof fn law_non_finite_ratio_is_ignored(s: TrackerState, ts: u64, ratio: Float32)
    requires
        !ratio.finite(),
    ensures
        s.due(ts, ratio) is None,
        s.after(ts, ratio) == s,
{
}

impl TrackerState {
    /// The findings of a tracker on its own that takes in a run of samples.
    pub open spec fn found(
        self,
        samples: Seq<(u64, Float32)>,
        descriptor: Seq<(Seq<char>, FieldUnit)>,
    ) -> Seq<DiagnosticView>
        decreases samples.len(),
    {
        if samples.len() == 0 {
            seq![]
        } else {
            self.after_samples(samples.drop_last()).reported(
                self.found(samples.drop_last(), descriptor),
                samples.last().0,
                samples.last().1,
                descriptor,
            )
        }
    }
}

impl EkfFailureState {
    /// The state after a series of messages.
    pub open spec fn after_messages(self, messages: Seq<DataMessage<'_>>) -> EkfFailureState
        decreases messages.len(),
    {
        if messages.len() == 0 {
            self
        } else {
            self.after_messages(messages.drop_last()).after_message(messages.last())
        }
    }
}

/// The test ratios in the named field of a series of messages, with their times.
pub open spec fn channel_samples(messages: Seq<DataMessage<'_>>, field_name: Seq<char>) -> Seq<
    (u64, Float32),
>
    decreases messages.len(),
{
    if messages.len() == 0 {
        seq![]
    } else {
        let before = channel_samples(messages.drop_last(), field_name);
        let data = messages.last();
        match float_field(data, field_name) {
            Some(ratio) if topic_of(data) == "estimator_status"@ => before.push(
                (timestamp_us(data), ratio),
            ),
            _ => before,
        }
    }
}

/// A finding tells of the named innovation.
pub open spec fn tells_of(d: DiagnosticView, name: Seq<char>) -> bool {
    d.evidence matches EvidenceView::EkfFailure { innovation, .. } && innovation == name
}

/// The findings that tell of the named innovation.
pub open spec fn of_channel(list: Seq<DiagnosticView>, name: Seq<char>) -> Seq<DiagnosticView>
    decreases list.len(),
{
    if list.len() == 0 {
        seq![]
    } else if tells_of(list.last(), name) {
        of_channel(list.drop_last(), name).push(list.last())
    } else {
        of_channel(list.drop_last(), name)
    }
}

/// The findings of one channel after a sample are those of its tracker alone.
proof fn lemma_of_channel(
    s: EkfFailureState,
    ts: u64,
    ratios: Seq<Option<Float32>>,
    n: nat,
    c: int,
)
    requires
        s.names_differ(),
        n <= s.trackers.len(),
        0 <= c < s.trackers.len(),
    ensures
        of_channel(s.reported(ts, ratios, n), s.trackers[c].name) == (match ratios[c] {
            Some(ratio) if c < n => s.trackers[c].reported(
                of_channel(s.detections, s.trackers[c].name),
                ts,
                ratio,
                ekf_failure_descriptor(),
            ),
            _ => of_channel(s.detections, s.trackers[c].name),
        }),
    decreases n,
{
    if n > 0 {
        let i = n - 1;
        lemma_of_channel(s, ts, ratios, i as nat, c);
        let before = s.reported(ts, ratios, i as nat);
        if let Some(ratio) = ratios[i] {
            if let Some(severity) = s.trackers[i].due(ts, ratio) {
                let d = s.trackers[i].finding(ts, ratio, severity, ekf_failure_descriptor());
                assert(before.push(d).drop_last() =~= before);
                assert(tells_of(d, s.trackers[i].name));
                if i < c {
                    assert(s.trackers[i].name != s.trackers[c].name);
                } else if c < i {
                    assert(s.trackers[c].name != s.trackers[i].name);
                }
            }
        }
    }
}

/// What becomes of a channel, and what is found of it, depends on that channel
/// and its own ratio alone.
pub proof fn law_channels_are_independent(
    s: EkfFailureState,
    t: EkfFailureState,
    ts: u64,
    a: Seq<Option<Float32>>,
    b: Seq<Option<Float32>>,
    i: int,
)
    requires
        0 <= i < s.trackers.len(),
        i < t.trackers.len(),
        s.wf(),
        t.wf(),
        s.trackers[i] == t.trackers[i],
        of_channel(s.detections, s.trackers[i].name) == of_channel(
            t.detections,
            t.trackers[i].name,
        ),
        a[i] == b[i],
    ensures
        ({
            let after_a = s.after_estimator_status(ts, a);
            let after_b = t.after_estimator_status(ts, b);
            &&& after_a.trackers[i] == after_b.trackers[i]
            &&& of_channel(after_a.detections, s.trackers[i].name) == of_channel(
                after_b.detections,
                t.trackers[i].name,
            )
        }),
{
    lemma_of_channel(s, ts, a, s.trackers.len(), i);
    lemma_of_channel(t, ts, b, t.trackers.len(), i);
}

/// After any messages, the findings of a channel are those of a tracker on its
/// own that took in the ratios of that channel, and nothing else; and the
/// channel is where that tracker is.
pub proof fn law_channel_is_a_tracker_of_its_own(messages: Seq<DataMessage<'_>>, c: int)
    requires
        0 <= c < 3,
    ensures
        ({
            let tracker = EkfFailureState::initial().trackers[c];
            let samples = channel_samples(messages, tracker.field_name);
            let after = EkfFailureState::initial().after_messages(messages);
            &&& after.trackers.len() == 3
            &&& after.trackers[c] == tracker.after_samples(samples)
            &&& of_channel(after.detections, tracker.name) == tracker.found(
                samples,
                ekf_failure_descriptor(),
            )
        }),
{
    lemma_messages(messages, c);
}

/// The same, with what the channels keep.
proof fn lemma_messages(messages: Seq<DataMessage<'_>>, c: int)
    requires
        0 <= c < 3,
    ensures
        ({
            let start = EkfFailureState::initial();
            let tracker = start.trackers[c];
            let samples = channel_samples(messages, tracker.field_name);
            let after = start.after_messages(messages);
            &&& after.trackers.len() == 3
            &&& forall|i: int|
                0 <= i < 3 ==> (#[trigger] after.trackers[i]).name == start.trackers[i].name
                    && after.trackers[i].field_name == start.trackers[i].field_name
            &&& after.trackers[c] == tracker.after_samples(samples)
            &&& of_channel(after.detections, tracker.name) == tracker.found(
                samples,
                ekf_failure_descriptor(),
            )
        }),
    decreases messages.len(),
{
    let start = EkfFailureState::initial();
    let tracker = start.trackers[c];
    if messages.len() > 0 {
        let earlier = messages.drop_last();
        let data = messages.last();
        lemma_messages(earlier, c);
        let before = start.after_messages(earlier);
        let samples = channel_samples(earlier, tracker.field_name);
        if topic_of(data) == "estimator_status"@ {
            let ts = timestamp_us(data);
            let ratios = before.ratios(data);
            lemma_initial_names();
            assert forall|i: int, j: int| 0 <= i < j < 3 implies (
            #[trigger] before.trackers[i]).name != (#[trigger] before.trackers[j]).name by {
                assert(start.trackers[i].name != start.trackers[j].name);
            }
            assert(before.names_differ());
            assert(ratios[c] == float_field(data, tracker.field_name));
            lemma_of_channel(before, ts, ratios, 3, c);
            if let Some(ratio) = ratios[c] {
                assert(samples.push((ts, ratio)).drop_last() =~= samples);
            }
        }
    } else {
        assert(start.detections =~= seq![]);
    }
}

/// The findings that one message adds come in the order of the channels, at
/// most one for each.
pub proof fn law_findings_come_in_channel_order(
    s: EkfFailureState,
    ts: u64,
    ratios: Seq<Option<Float32>>,
    i: int,
    j: int,
)
    requires
        s.detections.len() <= i < j < s.after_estimator_status(ts, ratios).detections.len(),
    ensures
        ({
            let after = s.after_estimator_status(ts, ratios).detections;
            exists|a: int, b: int|
                0 <= a < b < s.trackers.len() && tells_of(
                    after[i],
                    (#[trigger] s.trackers[a]).name,
                ) && tells_of(after[j], (#[trigger] s.trackers[b]).name)
        }),
{
    lemma_channel_order(s, ts, ratios, s.trackers.len(), i, j);
}

/// The same for the first `n` channels.
proof fn lemma_channel_order(
    s: EkfFailureState,
    ts: u64,
    ratios: Seq<Option<Float32>>,
    n: nat,
    i: int,
    j: int,
)
    requires
        n <= s.trackers.len(),
        s.detections.len() <= i < j < s.reported(ts, ratios, n).len(),
    ensures
        ({
            let after = s.reported(ts, ratios, n);
            exists|a: int, b: int|
                0 <= a < b < n && tells_of(after[i], (#[trigger] s.trackers[a]).name) && tells_of(
                    after[j],
                    (#[trigger] s.trackers[b]).name,
                )
        }),
    decreases n,
{
    if n > 0 {
        let before = s.reported(ts, ratios, (n - 1) as nat);
        let after = s.reported(ts, ratios, n);
        if j < before.len() {
            lemma_channel_order(s, ts, ratios, (n - 1) as nat, i, j);
        } else {
            lemma_added_by(s, ts, ratios, (n - 1) as nat, i);
            let a = choose|a: int|
                0 <= a < n - 1 && tells_of(before[i], (#[trigger] s.trackers[a]).name);
            assert(after[i] == before[i]);
            assert(tells_of(after[j], s.trackers[n - 1].name));
        }
    }
}

/// A finding that is added tells of one of the channels.
proof fn lemma_added_by(
    s: EkfFailureState,
    ts: u64,
    ratios: Seq<Option<Float32>>,
    n: nat,
    i: int,
)
    requires
        n <= s.trackers.len(),
        s.detections.len() <= i < s.reported(ts, ratios, n).len(),
    ensures
        exists|a: int|
            0 <= a < n && tells_of(
                s.reported(ts, ratios, n)[i],
                (#[trigger] s.trackers[a]).name,
            ),
    decreases n,
{
    if n > 0 {
        let before = s.reported(ts, ratios, (n - 1) as nat);
        if i < before.len() {
            lemma_added_by(s, ts, ratios, (n - 1) as nat, i);
        } else {
            assert(tells_of(s.reported(ts, ratios, n)[i], s.trackers[n - 1].name));
        }
    }
}

/// The findings of a tracker have the severities that its samples call for.
pub proof fn law_findings_have_their_severities(
    s: TrackerState,
    samples: Seq<(u64, Float32)>,
    descriptor: Seq<(Seq<char>, FieldUnit)>,
)
    ensures
        s.found(samples, descriptor).len() == s.severities(samples).len(),
        forall|m: int|
            0 <= m < s.severities(samples).len() ==> (#[trigger] s.found(
                samples,
                descriptor,
            )[m]).severity == s.severities(samples)[m],
    decreases samples.len(),
{
    if samples.len() > 0 {
        law_findings_have_their_severities(s, samples.drop_last(), descriptor);
    }
}

/// Among the findings from the `from`-th on there is one that begins at `start`.
pub open spec fn tells_from(list: Seq<DiagnosticView>, from: int, start: u64) -> bool {
    exists|m: int| from <= m < list.len() && (#[trigger] list[m]).timestamp_us == start
}

/// Among the findings from the `from`-th on there is a critical one that begins
/// at `start`.
pub open spec fn tells_critically_from(list: Seq<DiagnosticView>, from: int, start: u64) -> bool {
    exists|m: int|
        from <= m < list.len() && (#[trigger] list[m]).timestamp_us == start && list[m].severity
            == Severity::Critical
}

/// An exceedance that lasts is reported: once a finite ratio comes two seconds
/// or more after the first one above the threshold, and none was at or below it
/// meanwhile, there is a finding of this exceedance, and after five seconds a
/// critical one.
pub proof fn law_sustained_exceedance_is_reported(
    name: Seq<char>,
    field_name: Seq<char>,
    samples: Seq<(u64, Float32)>,
    k: int,
    descriptor: Seq<(Seq<char>, FieldUnit)>,
)
    requires
        exceedance_start(samples, k),
        samples.last().1.finite(),
    ensures
        ({
            let tracker = TrackerState::initial(name, field_name);
            let from = tracker.found(samples.take(k), descriptor).len() as int;
            let list = tracker.found(samples, descriptor);
            let lasted = samples.last().0 - samples[k].0;
            &&& lasted >= 2_000_000 ==> tells_from(list, from, samples[k].0)
            &&& lasted >= 5_000_000 ==> tells_critically_from(list, from, samples[k].0)
        }),
{
    lemma_exceedance_flags(name, field_name, samples, k, descriptor);
}

/// What the flags of a channel say of the findings of the present exceedance.
proof fn lemma_exceedance_flags(
    name: Seq<char>,
    field_name: Seq<char>,
    samples: Seq<(u64, Float32)>,
    k: int,
    descriptor: Seq<(Seq<char>, FieldUnit)>,
)
    requires
        exceedance_start(samples, k),
    ensures
        ({
            let tracker = TrackerState::initial(name, field_name);
            let after = tracker.after_samples(samples);
            let from = tracker.found(samples.take(k), descriptor).len() as int;
            let list = tracker.found(samples, descriptor);
            let start = samples[k].0;
            let lasted = samples.last().0 - start;
            &&& from <= list.len()
            &&& after.exceeded_since == Some(start)
            &&& after.warning_fired ==> tells_from(list, from, start)
            &&& after.critical_fired ==> tells_critically_from(list, from, start)
            &&& samples.last().1.finite() && lasted >= 2_000_000 ==> after.warning_fired
            &&& samples.last().1.finite() && lasted >= 5_000_000 ==> after.critical_fired
        }),
    decreases samples.len(),
{
    let tracker = TrackerState::initial(name, field_name);
    let earlier = samples.drop_last();
    let last = samples.len() - 1;
    let (ts, ratio) = samples.last();
    let before = tracker.after_samples(earlier);
    let start = samples[k].0;
    let from = tracker.found(samples.take(k), descriptor).len() as int;
    let old_list = tracker.found(earlier, descriptor);
    let list = tracker.found(samples, descriptor);
    assert(samples[last] == (ts, ratio));
    lemma_samples_keep_wf(tracker, earlier);
    if k == last {
        assert(samples.take(k) =~= earlier);
        law_exceedance_is_remembered(name, field_name, earlier);
        if before.exceeded_since is Some {
            let j = choose|j: int| #[trigger]
                exceedance_start(earlier, j) && earlier[j].0 == before.exceeded_since->0;
            assert(exceeding_from(samples, j)) by {
                assert(samples[j] == earlier[j]);
                assert forall|i: int|
                    j <= i < samples.len() && (
                    #[trigger] samples[i]).1.finite() implies samples[i].1.value() > pow2(149) by {
                    if i < last {
                        assert(earlier[i] == samples[i]);
                    }
                }
            }
            assert(false);
        }
    } else {
        assert(earlier.take(k) =~= samples.take(k));
        assert forall|j: int| 0 <= j < last implies exceeding_from(earlier, j) == exceeding_from(
            samples,
            j,
        ) by {
            assert(samples[j] == earlier[j]);
            assert(exceeding_from(samples, j) ==> forall|i: int|
                j <= i < earlier.len() ==> #[trigger] earlier[i] == samples[i]);
            assert(exceeding_from(earlier, j) ==> forall|i: int|
                j <= i < earlier.len() ==> earlier[i] == #[trigger] samples[i]);
        }
        assert(exceedance_start(earlier, k));
        lemma_exceedance_flags(name, field_name, earlier, k, descriptor);
        if tells_from(old_list, from, start) {
            let m = choose|m: int|
                from <= m < old_list.len() && (#[trigger] old_list[m]).timestamp_us == start;
            assert(list[m] == old_list[m]);
        }
        if tells_critically_from(old_list, from, start) {
            let m = choose|m: int|
                from <= m < old_list.len() && (#[trigger] old_list[m]).timestamp_us == start
                    && old_list[m].severity == Severity::Critical;
            assert(list[m] == old_list[m]);
        }
    }
    if before.due(ts, ratio) is Some {
        assert(list[old_list.len() as int].timestamp_us == start);
    }
}

/// Finding `d` tells of the sample `j` in an exceedance that began with sample
/// `k` and has lasted: from the time of the one to the time of the other.
pub open spec fn tells_of_samples(
    d: DiagnosticView,
    samples: Seq<(u64, Float32)>,
    k: int,
    j: int,
) -> bool {
    &&& 0 <= j < samples.len()
    &&& exceedance_start(samples.take(j + 1), k)
    &&& d.timestamp_us == samples[k].0
    &&& d.end_timestamp_us == Some(samples[j].0)
    &&& samples[j].0 - samples[k].0 >= 2_000_000
    &&& d.severity == if samples[j].0 - samples[k].0 >= 5_000_000 {
        Severity::Critical
    } else {
        Severity::Warning
    }
    &&& d.evidence matches EvidenceView::EkfFailure { test_ratio, .. } && test_ratio == samples[j].1
}

/// Every finding of a tracker tells of samples in an exceedance that had lasted
/// by then.
pub proof fn law_findings_tell_of_samples(
    name: Seq<char>,
    field_name: Seq<char>,
    samples: Seq<(u64, Float32)>,
    descriptor: Seq<(Seq<char>, FieldUnit)>,
    m: int,
)
    requires
        0 <= m < TrackerState::initial(name, field_name).found(samples, descriptor).len(),
    ensures
        exists|k: int, j: int| #[trigger]
            tells_of_samples(
                TrackerState::initial(name, field_name).found(samples, descriptor)[m],
                samples,
                k,
                j,
            ),
    decreases samples.len(),
{
    let tracker = TrackerState::initial(name, field_name);
    if samples.len() > 0 {
        let earlier = samples.drop_last();
        let old_list = tracker.found(earlier, descriptor);
        let list = tracker.found(samples, descriptor);
        let last = samples.len() - 1;
        if m < old_list.len() {
            law_findings_tell_of_samples(name, field_name, earlier, descriptor, m);
            let (k, j) = choose|k: int, j: int| #[trigger]
                tells_of_samples(old_list[m], earlier, k, j);
            assert(earlier.take(j + 1) =~= samples.take(j + 1));
            assert(tells_of_samples(list[m], samples, k, j));
        } else {
            let (ts, ratio) = samples.last();
            law_only_sustained_exceedance_is_reported(name, field_name, earlier, ts, ratio);
            assert(earlier.push((ts, ratio)) =~= samples);
            assert(samples.take(last + 1) =~= samples);
            law_exceedance_is_remembered(name, field_name, samples);
            let k = choose|k: int| #[trigger]
                exceedance_start(samples, k) && samples[k].0 == tracker.after_samples(
                    samples,
                ).exceeded_since->0;
            lemma_samples_keep_wf(tracker, earlier);
            assert(tells_of_samples(list[m], samples, k, last));
        }
    }
}

/// What a finding says of its channel: it stretches from the start of the
/// exceedance to the sample, is drawn on the channel's field, names the
/// innovation, and its summary shows how long the exceedance has lasted and when
/// it began.
pub proof fn law_finding_reads_as_its_channel(
    s: TrackerState,
    before: Seq<DiagnosticView>,
    ts: u64,
    ratio: Float32,
    descriptor: Seq<(Seq<char>, FieldUnit)>,
)
    ensures
        ({
            let list = s.reported(before, ts, ratio, descriptor);
            ||| list == before
            ||| {
                let d = list.last();
                &&& list.len() == before.len() + 1
                &&& list.drop_last() == before
                &&& d.id == "ekf_failure"@
                &&& d.kind == AnomalyKind::Region
                &&& d.anchor.topic == "estimator_status"@
                &&& d.anchor.field == s.field_name
                &&& d.descriptor == descriptor
                &&& d.evidence == (EvidenceView::EkfFailure {
                    innovation: s.name,
                    test_ratio: ratio,
                    threshold: Float32 { bits: 0x3F80_0000 },
                })
                &&& d.end_timestamp_us == Some(ts)
                &&& s.exceeded_since matches Some(start) && d.timestamp_us == start && d.summary
                    == "EKF "@ + s.name + " innovation exceeded threshold for "@ + seconds_text(
                    (ts - start) as nat,
                ) + "s starting at "@ + seconds_text(start as nat) + "s"@
            }
        }),
{
    let list = s.reported(before, ts, ratio, descriptor);
    if s.due(ts, ratio) is Some {
        assert(list.drop_last() =~= before);
    }
}

/// The channels of a fresh analyzer: three innovations, each with its field, and
/// nothing seen.
pub proof fn law_three_innovations_are_watched()
    ensures
        ({
            let s = EkfFailureState::initial();
            &&& s.detections.len() == 0
            &&& s.trackers.len() == 3
            &&& s.trackers[0].name == "velocity"@ && s.trackers[0].field_name == "vel_test_ratio"@
            &&& s.trackers[1].name == "position"@ && s.trackers[1].field_name == "pos_test_ratio"@
            &&& s.trackers[2].name == "height"@ && s.trackers[2].field_name == "hgt_test_ratio"@
            &&& forall|i: int|
                0 <= i < 3 ==> (#[trigger] s.trackers[i]).exceeded_since is None
                    && !s.trackers[i].warning_fired && !s.trackers[i].critical_fired
        }),
{
}

/// A message of another topic is taken in. One of this topic is taken in exactly
/// if its time and the ratio of every channel can be read.
pub proof fn law_what_is_read_decides(s: EkfFailureState, data: DataMessage<'_>)
    ensures
        s.readable(data) <==> (topic_of(data) == "estimator_status"@ ==> timestamp_readable(data)
            && forall|i: int|
            0 <= i < s.trackers.len() ==> float_readable(
                data,
                (#[trigger] s.trackers[i]).field_name,
            )),
{
}

/// A message is refused for a reason only: one that is whole is taken in.
pub proof fn law_whole_message_is_accepted(s: EkfFailureState, data: DataMessage<'_>)
    requires
        whole(data),
    ensures
        s.readable(data),
{
    law_whole_message_is_readable(data, "timestamp"@);
    assert forall|i: int| 0 <= i < s.trackers.len() implies float_readable(
        data,
        #[trigger] s.trackers[i].field_name,
    ) by {
        law_whole_message_is_readable(data, s.trackers[i].field_name);
    }
}

/// A message without any of the test ratios changes nothing.
pub proof fn law_missing_ratios_change_nothing(
    s: EkfFailureState,
    ts: u64,
    ratios: Seq<Option<Float32>>,
)
    requires
        forall|i: int| 0 <= i < s.trackers.len() ==> (#[trigger] ratios[i]) is None,
    ensures
        s.after_estimator_status(ts, ratios) == s,
{
    lemma_nothing_reported(s, ts, ratios, s.trackers.len());
    assert(s.trackers_after(ts, ratios) =~= s.trackers);
}

/// Channels without a ratio report nothing.
proof fn lemma_nothing_reported(s: EkfFailureState, ts: u64, ratios: Seq<Option<Float32>>, n: nat)
    requires
        n <= s.trackers.len(),
        forall|i: int| 0 <= i < s.trackers.len() ==> (#[trigger] ratios[i]) is None,
    ensures
        s.reported(ts, ratios, n) == s.detections,
    decreases n,
{
    if n > 0 {
        lemma_nothing_reported(s, ts, ratios, (n - 1) as nat);
        assert(ratios[n - 1] is None);
    }
}

/// Findings are kept, and a message adds one for each channel at most.
pub proof fn law_findings_are_kept(s: EkfFailureState, data: DataMessage<'_>)
    ensures
        s.detections.is_prefix_of(s.after_message(data).detections),
        s.after_message(data).detections.len() <= s.detections.len() + s.trackers.len(),
{
    lemma_reported(s, timestamp_us(data), s.ratios(data), s.trackers.len());
}

/// Only the required topic counts.
pub proof fn law_other_topics_are_ignored(s: EkfFailureState, data: DataMessage<'_>)
    requires
        topic_of(data) != "estimator_status"@,
    ensures
        s.after_message(data) == s,
{
}

} // verus!
