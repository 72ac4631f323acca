//! RC signal loss detection analyzer.
//!
//! Detects loss of the remote control signal during armed flight. Tracks the
//! `rc_lost` field of `input_rc` and the armed state from `vehicle_status`.
use crate::decimal::{append_seconds, seconds_text};
use crate::diagnostic::{
    findings, report, AnomalyKind, Diagnostic, DiagnosticView, Evidence, EvidenceView, FieldUnit,
    OutputDescriptor, PlotAnchor, PlotAnchorView, Severity,
};
use crate::message::{
    byte_field, byte_readable, is_byte_readable, is_timestamp_readable,
    law_whole_message_is_readable, read_byte, read_timestamp, same_text, timestamp_readable,
    timestamp_us, topic, topic_of, whole,
};
use crate::vehicle_status::{armed_after, next_armed};
use px4_ulog::stream_parser::model::DataMessage;
use vstd::prelude::*;
use vstd::string::StringExecFns;

verus! {

/// Minimum loss duration (microseconds) to report.
pub const MIN_LOSS_DURATION_US: u64 = 500_000;

/// Loss duration threshold for critical severity (5 seconds).
pub const CRITICAL_DURATION_US: u64 = 5_000_000;

/// Detects loss of the RC signal while the vehicle is armed.
pub struct RcLossAnalyzer {
    armed: bool,
    rc_lost: bool,
    loss_start_us: Option<u64>,
    last_signal_us: u64,
    last_seen_us: u64,
    detections: Vec<Diagnostic>,
}

/// What an [`RcLossAnalyzer`] has seen and reported.
pub struct RcLossState {
    /// The vehicle is armed.
    pub armed: bool,
    /// The signal is lost, and was lost while armed.
    pub rc_lost: bool,
    /// When the current loss began.
    pub loss_start_us: Option<u64>,
    /// When the signal was last there.
    pub last_signal_us: u64,
    /// The latest time that a message of a required topic had.
    pub last_seen_us: u64,
    /// The findings so far.
    pub detections: Seq<DiagnosticView>,
}

/// The later of two times.
pub open spec fn later(a: u64, b: u64) -> u64 {
    if a > b {
        a
    } else {
        b
    }
}

/// How long a loss lasted; a loss that ends before it starts lasts no time.
pub open spec fn loss_duration(start_us: u64, end_us: u64) -> nat {
    if end_us >= start_us {
        (end_us - start_us) as nat
    } else {
        0
    }
}

/// The fields of the analyzer's evidence.
pub open spec fn rc_loss_descriptor() -> Seq<(Seq<char>, FieldUnit)> {
    seq![
        ("last_signal_timestamp_us"@, FieldUnit::Microseconds),
        ("signal_lost_duration_ms"@, FieldUnit::Milliseconds),
    ]
}

/// The finding for a loss.
pub open spec fn loss_finding(last_signal_us: u64, start_us: u64, end_us: u64) -> DiagnosticView {
    let duration = loss_duration(start_us, end_us);
    DiagnosticView {
        id: "rc_loss"@,
        summary: "RC signal lost for "@ + seconds_text(duration) + "s starting at "@
            + seconds_text(start_us as nat) + "s while armed"@,
        severity: if duration >= CRITICAL_DURATION_US {
            Severity::Critical
        } else {
            Severity::Warning
        },
        kind: AnomalyKind::Region,
        timestamp_us: start_us,
        end_timestamp_us: Some(end_us),
        anchor: PlotAnchorView { topic: "input_rc"@, field: "rc_lost"@ },
        descriptor: rc_loss_descriptor(),
        evidence: EvidenceView::RcLoss {
            last_signal_timestamp_us: last_signal_us,
            signal_lost_duration_ms: (duration / 1_000) as u64,
        },
    }
}

/// The message tells of a lost signal.
pub open spec fn lost(rc_lost: Option<u8>) -> bool {
    rc_lost matches Some(flag) && flag != 0
}

/// A finding reports a loss that was long enough, and is critical exactly when
/// the loss was very long.
pub open spec fn sound(d: DiagnosticView) -> bool {
    &&& d.id == "rc_loss"@
    &&& d.kind == AnomalyKind::Region
    &&& d.end_timestamp_us matches Some(end) && {
        &&& loss_duration(d.timestamp_us, end) >= MIN_LOSS_DURATION_US
        &&& d.severity == Severity::Critical <==> loss_duration(d.timestamp_us, end)
            >= CRITICAL_DURATION_US
    }
}

impl RcLossState {
    /// A loss is under way exactly while its start is known, and only in armed
    /// flight; no time is later than the latest one; every finding is sound.
    pub open spec fn wf(self) -> bool {
        &&& self.rc_lost <==> self.loss_start_us is Some
        &&& self.rc_lost ==> self.armed
        &&& self.loss_start_us matches Some(start) ==> start <= self.last_seen_us
        &&& self.last_signal_us <= self.last_seen_us
        &&& forall|i: int| 0 <= i < self.detections.len() ==> sound(#[trigger] self.detections[i])
    }

    /// The state of an analyzer that has seen nothing.
    pub open spec fn initial() -> RcLossState {
        RcLossState {
            armed: false,
            rc_lost: false,
            loss_start_us: None,
            last_signal_us: 0,
            last_seen_us: 0,
            detections: seq![],
        }
    }

    /// The findings once a loss is over: one more, unless the loss was short.
    pub open spec fn with_loss(self, start_us: u64, end_us: u64) -> Seq<DiagnosticView> {
        if loss_duration(start_us, end_us) >= MIN_LOSS_DURATION_US {
            self.detections.push(loss_finding(self.last_signal_us, start_us, end_us))
        } else {
            self.detections
        }
    }

    /// The state after a `vehicle_status` message. Disarming ends a loss.
    pub open spec fn after_vehicle_status(self, ts: u64, arming_state: Option<u8>) -> RcLossState {
        let armed = armed_after(self.armed, arming_state);
        if self.armed && !armed {
            RcLossState {
                armed,
                rc_lost: false,
                loss_start_us: None,
                last_signal_us: self.last_signal_us,
                last_seen_us: later(self.last_seen_us, ts),
                detections: match self.loss_start_us {
                    Some(start) => self.with_loss(start, ts),
                    None => self.detections,
                },
            }
        } else {
            RcLossState { armed, last_seen_us: later(self.last_seen_us, ts), ..self }
        }
    }

    /// The state after an `input_rc` message. A message without the field
    /// counts as one with a signal.
    pub open spec fn after_input_rc(self, ts: u64, rc_lost: Option<u8>) -> RcLossState {
        if lost(rc_lost) {
            if self.armed && !self.rc_lost {
                RcLossState {
                    rc_lost: true,
                    loss_start_us: Some(ts),
                    last_seen_us: later(self.last_seen_us, ts),
                    ..self
                }
            } else {
                RcLossState { last_seen_us: later(self.last_seen_us, ts), ..self }
            }
        } else {
            RcLossState {
                armed: self.armed,
                rc_lost: false,
                loss_start_us: if self.rc_lost {
                    None
                } else {
                    self.loss_start_us
                },
                last_signal_us: ts,
                last_seen_us: later(self.last_seen_us, ts),
                detections: match self.loss_start_us {
                    Some(start) if self.rc_lost && self.armed => self.with_loss(start, ts),
                    _ => self.detections,
                },
            }
        }
    }

    /// The state after a message.
    pub open spec fn after_message(self, data: DataMessage<'_>) -> RcLossState {
        if topic_of(data) == "vehicle_status"@ {
            self.after_vehicle_status(timestamp_us(data), byte_field(data, "arming_state"@))
        } else if topic_of(data) == "input_rc"@ {
            self.after_input_rc(timestamp_us(data), byte_field(data, "rc_lost"@))
        } else {
            self
        }
    }

    /// The findings at the end of the log. A loss that is still under way ends
    /// at the latest time that is known.
    pub open spec fn finished(self) -> Seq<DiagnosticView> {
        match self.loss_start_us {
            Some(start) if self.rc_lost && self.armed => self.with_loss(
                start,
                later(self.last_seen_us, start),
            ),
            _ => self.detections,
        }
    }
}

/// What the analyzer reads of a message lies within the message.
pub open spec fn rc_loss_readable(data: DataMessage<'_>) -> bool {
    &&& timestamp_readable(data)
    &&& topic_of(data) == "vehicle_status"@ ==> byte_readable(data, "arming_state"@)
    &&& topic_of(data) != "vehicle_status"@ && topic_of(data) == "input_rc"@ ==> byte_readable(
        data,
        "rc_lost"@,
    )
}

impl View for RcLossAnalyzer {
    type V = RcLossState;

    closed spec fn view(&self) -> RcLossState {
        RcLossState {
            armed: self.armed,
            rc_lost: self.rc_lost,
            loss_start_us: self.loss_start_us,
            last_signal_us: self.last_signal_us,
            last_seen_us: self.last_seen_us,
            detections: findings(self.detections@),
        }
    }
}

impl Default for RcLossAnalyzer {
    fn default() -> (r: RcLossAnalyzer)
        ensures
            r@ == RcLossState::initial(),
            r@.wf(),
    {
        RcLossAnalyzer::new()
    }
}

impl RcLossAnalyzer {
    /// An analyzer that has seen nothing.
    pub fn new() -> (r: RcLossAnalyzer)
        ensures
            r@ == RcLossState::initial(),
            r@.wf(),
    {
        let r: RcLossAnalyzer = RcLossAnalyzer {
            armed: false,
            rc_lost: false,
            loss_start_us: None,
            last_signal_us: 0,
            last_seen_us: 0,
            detections: Vec::new(),
        };
        assert(r@.detections =~= seq![]);
        r
    }

    /// Reports a loss, unless it was short.
    fn emit_loss(&mut self, start_us: u64, end_us: u64)
        ensures
            final(self)@ == (RcLossState {
                detections: old(self)@.with_loss(start_us, end_us),
                ..old(self)@
            }),
    {
        let duration_us: u64 = end_us.saturating_sub(start_us);
        if duration_us < MIN_LOSS_DURATION_US {
            return;
        }
        let severity: Severity = if duration_us >= CRITICAL_DURATION_US {
            Severity::Critical
        } else {
            Severity::Warning
        };
        let duration_ms: u64 = duration_us / 1_000;
        let mut summary: String = "RC signal lost for ".to_owned();
        append_seconds(&mut summary, duration_us);
        summary.append("s starting at ");
        append_seconds(&mut summary, start_us);
        summary.append("s while armed");
        let descriptor: OutputDescriptor = self.output_descriptor();
        report(
            &mut self.detections,
            Diagnostic {
                id: "rc_loss".to_owned(),
                summary,
                severity,
                kind: AnomalyKind::Region,
                timestamp_us: start_us,
                end_timestamp_us: Some(end_us),
                anchor: PlotAnchor::new("input_rc", "rc_lost"),
                descriptor,
                evidence: Evidence::RcLoss {
                    last_signal_timestamp_us: self.last_signal_us,
                    signal_lost_duration_ms: duration_ms,
                },
            },
        );
    }

    /// The analyzer's identifier.
    pub fn id(&self) -> (r: &str)
        ensures
            r@ == "rc_loss"@,
    {
        "rc_loss"
    }

    /// What the analyzer detects.
    pub fn description(&self) -> (r: &str)
        ensures
            r@ == "RC signal loss during armed flight"@,
    {
        "RC signal loss during armed flight"
    }

    /// The topics that the analyzer reads.
    pub fn required_topics(&self) -> (r: &[&str])
        ensures
            r@.len() == 2,
            r@[0]@ == "input_rc"@,
            r@[1]@ == "vehicle_status"@,
    {
        &["input_rc", "vehicle_status"]
    }

    /// Takes note of the time of a message.
    fn note_time(&mut self, ts: u64)
        ensures
            final(self)@ == (RcLossState {
                last_seen_us: later(old(self)@.last_seen_us, ts),
                ..old(self)@
            }),
    {
        if ts > self.last_seen_us {
            self.last_seen_us = ts;
        }
    }

    /// Takes in what a `vehicle_status` message says.
    pub fn vehicle_status(&mut self, ts: u64, arming_state: Option<u8>)
        ensures
            final(self)@ == old(self)@.after_vehicle_status(ts, arming_state),
            old(self)@.wf() ==> final(self)@.wf(),
    {
        self.note_time(ts);
        let was_armed: bool = self.armed;
        self.armed = next_armed(self.armed, arming_state);
        // Disarming while the signal is lost closes the loss window.
        if was_armed && !self.armed {
            let start: Option<u64> = self.loss_start_us;
            self.loss_start_us = None;
            if let Some(start_us) = start {
                self.emit_loss(start_us, ts);
            }
            self.rc_lost = false;
        }
    }

    /// Takes in what an `input_rc` message says.
    pub fn input_rc(&mut self, ts: u64, rc_lost: Option<u8>)
        ensures
            final(self)@ == old(self)@.after_input_rc(ts, rc_lost),
            old(self)@.wf() ==> final(self)@.wf(),
    {
        self.note_time(ts);
        let lost: bool = match rc_lost {
            Some(flag) => flag != 0,
            None => false,
        };
        if lost && self.armed && !self.rc_lost {
            // The signal was just lost while armed.
            self.rc_lost = true;
            self.loss_start_us = Some(ts);
        } else if !lost && self.rc_lost {
            // The signal is back.
            self.rc_lost = false;
            let start: Option<u64> = self.loss_start_us;
            self.loss_start_us = None;
            if let Some(start_us) = start {
                if self.armed {
                    self.emit_loss(start_us, ts);
                }
            }
        }
        if !lost {
            self.last_signal_us = ts;
        }
    }

    /// Takes in a message. Topics other than the required ones are ignored.
    pub fn on_message(&mut self, data: &DataMessage<'_>)
        requires
            rc_loss_readable(*data),
        ensures
            final(self)@ == old(self)@.after_message(*data),
            old(self)@.wf() ==> final(self)@.wf(),
    {
        let name: &str = topic(data);
        let ts: u64 = read_timestamp(data);
        if same_text(name, "vehicle_status") {
            self.vehicle_status(ts, read_byte(data, "arming_state"));
        } else if same_text(name, "input_rc") {
            self.input_rc(ts, read_byte(data, "rc_lost"));
        }
    }

    /// Takes in a message, or leaves the analyzer as it is and returns `false`
    /// where a field that it reads runs past the end of the message.
    pub fn try_on_message(&mut self, data: &DataMessage<'_>) -> (taken: bool)
        ensures
            taken == rc_loss_readable(*data),
            taken ==> final(self)@ == old(self)@.after_message(*data),
            !taken ==> final(self)@ == old(self)@,
            old(self)@.wf() ==> final(self)@.wf(),
    {
        let name: &str = topic(data);
        let readable: bool = is_timestamp_readable(data) && if same_text(name, "vehicle_status") {
            is_byte_readable(data, "arming_state")
        } else if same_text(name, "input_rc") {
            is_byte_readable(data, "rc_lost")
        } else {
            true
        };
        if readable {
            self.on_message(data);
        }
        readable
    }

    /// The findings, once the log is over.
    pub fn finish(self: Box<Self>) -> (r: Vec<Diagnostic>)
        ensures
            findings(r@) == self@.finished(),
    {
        let mut this: RcLossAnalyzer = *self;
        // A loss that is still under way is closed at the last known time.
        if this.rc_lost && this.armed {
            let start: Option<u64> = this.loss_start_us;
            this.loss_start_us = None;
            if let Some(start_us) = start {
                let end: u64 = if this.last_seen_us > start_us {
                    this.last_seen_us
                } else {
                    start_us
                };
                this.emit_loss(start_us, end);
            }
        }
        this.detections
    }

    /// The fields of the analyzer's evidence.
    pub fn output_descriptor(&self) -> (r: OutputDescriptor)
        ensures
            r@ == rc_loss_descriptor(),
    {
        let r: OutputDescriptor = OutputDescriptor::new()
            .field("last_signal_timestamp_us", FieldUnit::Microseconds)
            .field("signal_lost_duration_ms", FieldUnit::Milliseconds);
        assert(r@ =~= rc_loss_descriptor());
        r
    }
}

/// Nothing is found while the vehicle is disarmed.
pub proof fn law_silent_while_disarmed(
    s: RcLossState,
    ts: u64,
    rc_lost: Option<u8>,
    arming_state: Option<u8>,
)
    requires
        s.wf(),
        !s.armed,
    ensures
        s.after_input_rc(ts, rc_lost).detections == s.detections,
        s.after_vehicle_status(ts, arming_state).detections == s.detections,
        s.finished() == s.detections,
{
}

/// What one of the required topics says.
pub enum RcEvent {
    /// A `vehicle_status` message.
    Status { ts: u64, arming_state: Option<u8> },
    /// An `input_rc` message.
    Input { ts: u64, rc_lost: Option<u8> },
}

impl RcLossState {
    /// The state after one event.
    pub open spec fn after_event(self, event: RcEvent) -> RcLossState {
        match event {
            RcEvent::Status { ts, arming_state } => self.after_vehicle_status(ts, arming_state),
            RcEvent::Input { ts, rc_lost } => self.after_input_rc(ts, rc_lost),
        }
    }

    /// The state after a series of events.
    pub open spec fn after_events(self, events: Seq<RcEvent>) -> RcLossState
        decreases events.len(),
    {
        if events.len() == 0 {
            self
        } else {
            self.after_events(events.drop_last()).after_event(events.last())
        }
    }
}

/// The signal stays lost and the vehicle armed.
pub open spec fn prolongs_loss(event: RcEvent) -> bool {
    match event {
        RcEvent::Status { arming_state, .. } => arming_state matches Some(state) ==> state == 2,
        RcEvent::Input { rc_lost, .. } => rc_lost matches Some(flag) && flag != 0,
    }
}

/// The time of an event.
pub open spec fn event_time(event: RcEvent) -> u64 {
    match event {
        RcEvent::Status { ts, .. } => ts,
        RcEvent::Input { ts, .. } => ts,
    }
}

/// The latest of some time and the times of a series of events.
pub open spec fn latest(seen: u64, events: Seq<RcEvent>) -> u64
    decreases events.len(),
{
    if events.len() == 0 {
        seen
    } else {
        later(latest(seen, events.drop_last()), event_time(events.last()))
    }
}

/// The analyzer knows the latest time of all that it has taken in.
pub proof fn law_latest_time_is_known(s: RcLossState, events: Seq<RcEvent>)
    ensures
        ({
            let known = s.after_events(events).last_seen_us;
            &&& known == latest(s.last_seen_us, events)
            &&& known >= s.last_seen_us
            &&& forall|i: int| 0 <= i < events.len() ==> known >= event_time(#[trigger] events[i])
            &&& known == s.last_seen_us || exists|i: int|
                0 <= i < events.len() && known == event_time(#[trigger] events[i])
        }),
    decreases events.len(),
{
    if events.len() > 0 {
        let earlier = events.drop_last();
        law_latest_time_is_known(s, earlier);
        let before = s.after_events(earlier).last_seen_us;
        assert(events[events.len() - 1] == events.last());
        assert forall|i: int| 0 <= i < events.len() implies s.after_events(events).last_seen_us
            >= event_time(#[trigger] events[i]) by {
            if i < earlier.len() {
                assert(earlier[i] == events[i]);
            }
        }
        if exists|i: int| 0 <= i < earlier.len() && before == event_time(#[trigger] earlier[i]) {
            let i = choose|i: int|
                0 <= i < earlier.len() && before == event_time(#[trigger] earlier[i]);
            assert(events[i] == earlier[i]);
        }
    }
}

/// A finding measures its loss: it is half a second long at least, critical
/// exactly from five seconds on, and its evidence and its summary give the time
/// from its start to its end.
pub open spec fn measured(d: DiagnosticView) -> bool {
    d.end_timestamp_us matches Some(end) && {
        let length = end - d.timestamp_us;
        &&& length >= 500_000
        &&& d.severity == if length >= 5_000_000 {
            Severity::Critical
        } else {
            Severity::Warning
        }
        &&& d.evidence matches EvidenceView::RcLoss { signal_lost_duration_ms, .. }
            && signal_lost_duration_ms == length / 1_000
        &&& d.id == "rc_loss"@
        &&& d.kind == AnomalyKind::Region
        &&& d.anchor.topic == "input_rc"@
        &&& d.anchor.field == "rc_lost"@
        &&& d.descriptor == rc_loss_descriptor()
        &&& d.summary == "RC signal lost for "@ + seconds_text(length as nat) + "s starting at "@
            + seconds_text(d.timestamp_us as nat) + "s while armed"@
    }
}

/// A loss from `start` to `end` is among the findings, behind all others, if it
/// is half a second long at least; else nothing is added.
pub open spec fn adds_loss(
    before: Seq<DiagnosticView>,
    after: Seq<DiagnosticView>,
    start: u64,
    end: u64,
    last_signal_us: u64,
) -> bool {
    if end - start >= 500_000 {
        &&& after.len() == before.len() + 1
        &&& after.drop_last() == before
        &&& measured(after.last())
        &&& after.last().timestamp_us == start
        &&& after.last().end_timestamp_us == Some(end)
        &&& after.last().evidence matches EvidenceView::RcLoss { last_signal_timestamp_us, .. }
            && last_signal_timestamp_us == last_signal_us
    } else {
        after == before
    }
}

/// Every loss that is reported in the end, whatever the messages were, is
/// measured by its own start and end.
pub proof fn law_losses_are_measured(events: Seq<RcEvent>, i: int)
    requires
        0 <= i < RcLossState::initial().after_events(events).finished().len(),
    ensures
        measured(RcLossState::initial().after_events(events).finished()[i]),
{
    lemma_all_measured(events);
}

/// The findings so far are measured.
proof fn lemma_all_measured(events: Seq<RcEvent>)
    ensures
        ({
            let list = RcLossState::initial().after_events(events).detections;
            forall|i: int| 0 <= i < list.len() ==> measured(#[trigger] list[i])
        }),
    decreases events.len(),
{
    if events.len() > 0 {
        lemma_all_measured(events.drop_last());
    }
}

/// What a message changes beside the findings. The vehicle is armed in state 2
/// alone, and a message without a state changes nothing of that. The signal is
/// lost from a message that says so in armed flight until one that does not, or
/// until the vehicle is disarmed; the time of the first such message is the
/// start. A message that does not tell of a loss is a signal.
pub proof fn law_state_follows_the_messages(s: RcLossState, ts: u64, value: Option<u8>)
    requires
        s.wf(),
    ensures
        ({
            let after = s.after_vehicle_status(ts, value);
            let armed = match value {
                Some(state) => state == 2,
                None => s.armed,
            };
            &&& after.armed == armed
            &&& after.rc_lost == (s.rc_lost && armed)
            &&& after.rc_lost ==> after.loss_start_us == s.loss_start_us
            &&& after.last_signal_us == s.last_signal_us
        }),
        ({
            let after = s.after_input_rc(ts, value);
            let gone = value matches Some(flag) && flag != 0;
            &&& after.armed == s.armed
            &&& after.rc_lost == (gone && s.armed)
            &&& after.rc_lost ==> after.loss_start_us == if s.rc_lost {
                s.loss_start_us
            } else {
                Some(ts)
            }
            &&& after.last_signal_us == if gone {
                s.last_signal_us
            } else {
                ts
            }
        }),
{
}

/// Only the end of a loss is reported: while the signal is there, and while a
/// loss goes on in armed flight, no message adds a finding.
pub proof fn law_only_the_end_of_a_loss_is_reported(s: RcLossState, event: RcEvent)
    requires
        s.wf(),
        !s.rc_lost || prolongs_loss(event),
    ensures
        s.after_event(event).detections == s.detections,
{
}

/// The messages of the two topics are the events, each at its own time.
pub proof fn law_messages_are_events(s: RcLossState, data: DataMessage<'_>)
    ensures
        topic_of(data) == "vehicle_status"@ ==> s.after_message(data) == s.after_event(
            RcEvent::Status {
                ts: timestamp_us(data),
                arming_state: byte_field(data, "arming_state"@),
            },
        ),
        topic_of(data) == "input_rc"@ ==> s.after_message(data) == s.after_event(
            RcEvent::Input { ts: timestamp_us(data), rc_lost: byte_field(data, "rc_lost"@) },
        ),
{
    reveal_strlit("vehicle_status");
    reveal_strlit("input_rc");
    assert("vehicle_status"@.len() != "input_rc"@.len());
}

/// A message is refused for a reason only: one that is whole is taken in.
pub proof fn law_whole_message_is_accepted(data: DataMessage<'_>)
    requires
        whole(data),
    ensures
        rc_loss_readable(data),
{
    law_whole_message_is_readable(data, "arming_state"@);
    law_whole_message_is_readable(data, "rc_lost"@);
}

/// A message is taken in exactly if its time, and the field that counts of its
/// topic, can be read.
pub proof fn law_what_is_read_decides(data: DataMessage<'_>)
    ensures
        rc_loss_readable(data) <==> timestamp_readable(data) && (topic_of(data)
            == "vehicle_status"@ ==> byte_readable(data, "arming_state"@)) && (topic_of(data)
            == "input_rc"@ ==> byte_readable(data, "rc_lost"@)),
{
    reveal_strlit("vehicle_status");
    reveal_strlit("input_rc");
    assert("vehicle_status"@.len() != "input_rc"@.len());
}

/// However often a loss is repeated, it starts with the first message that
/// tells of it.
pub proof fn law_loss_keeps_its_start(
    s: RcLossState,
    start: u64,
    flag: Option<u8>,
    meanwhile: Seq<RcEvent>,
)
    requires
        s.wf(),
        s.armed,
        !s.rc_lost,
        flag matches Some(f) && f != 0,
        forall|i: int| 0 <= i < meanwhile.len() ==> prolongs_loss(#[trigger] meanwhile[i]),
    ensures
        s.after_input_rc(start, flag).after_events(meanwhile) == (RcLossState {
            rc_lost: true,
            loss_start_us: Some(start),
            last_seen_us: latest(later(s.last_seen_us, start), meanwhile),
            ..s
        }),
    decreases meanwhile.len(),
{
    if meanwhile.len() > 0 {
        law_loss_keeps_its_start(s, start, flag, meanwhile.drop_last());
        assert(prolongs_loss(meanwhile[meanwhile.len() - 1]));
    }
}

/// A loss in armed flight that ends with the signal coming back is reported
/// from its start to its end, once, if it was long enough and not otherwise.
pub proof fn law_recovered_loss_is_reported_once(
    s: RcLossState,
    start: u64,
    flag: Option<u8>,
    meanwhile: Seq<RcEvent>,
    end: u64,
    back: Option<u8>,
)
    requires
        s.wf(),
        s.armed,
        !s.rc_lost,
        flag matches Some(f) && f != 0,
        forall|i: int| 0 <= i < meanwhile.len() ==> prolongs_loss(#[trigger] meanwhile[i]),
        back matches Some(f) ==> f == 0,
    ensures
        ({
            let during = s.after_input_rc(start, flag).after_events(meanwhile);
            let after = during.after_input_rc(end, back);
            &&& during.detections == s.detections
            &&& !after.rc_lost
            &&& adds_loss(s.detections, after.detections, start, end, s.last_signal_us)
            &&& after.detections == (if loss_duration(start, end) >= MIN_LOSS_DURATION_US {
                s.detections.push(loss_finding(s.last_signal_us, start, end))
            } else {
                s.detections
            })
        }),
{
    law_loss_keeps_its_start(s, start, flag, meanwhile);
    let after = s.after_input_rc(start, flag).after_events(meanwhile).after_input_rc(end, back);
    if after.detections.len() > s.detections.len() {
        assert(after.detections.drop_last() =~= s.detections);
    }
}

/// Disarming ends a loss, and reports it as the signal coming back would.
pub proof fn law_disarming_closes_the_loss(s: RcLossState, start: u64, ts: u64, arming_state: u8)
    requires
        s.wf(),
        s.loss_start_us == Some(start),
        arming_state != 2,
    ensures
        ({
            let after = s.after_vehicle_status(ts, Some(arming_state));
            &&& !after.rc_lost
            &&& adds_loss(s.detections, after.detections, start, ts, s.last_signal_us)
            &&& after.detections == s.after_input_rc(ts, Some(0)).detections
        }),
{
    let after = s.after_vehicle_status(ts, Some(arming_state));
    if after.detections.len() > s.detections.len() {
        assert(after.detections.drop_last() =~= s.detections);
    }
}

/// A loss that is still under way when the log ends is reported from its start
/// to the latest time that is known, if that is long enough and not otherwise.
pub proof fn law_open_loss_is_reported(s: RcLossState, start: u64)
    requires
        s.wf(),
        s.loss_start_us == Some(start),
    ensures
        adds_loss(s.detections, s.finished(), start, s.last_seen_us, s.last_signal_us),
        s.finished() == (if loss_duration(start, s.last_seen_us) >= MIN_LOSS_DURATION_US {
            s.detections.push(loss_finding(s.last_signal_us, start, s.last_seen_us))
        } else {
            s.detections
        }),
{
    if s.finished().len() > s.detections.len() {
        assert(s.finished().drop_last() =~= s.detections);
    }
}

/// Without a loss under way the end of the log adds nothing.
pub proof fn law_end_of_log_adds_open_losses_only(s: RcLossState)
    requires
        s.wf(),
        !s.rc_lost,
    ensures
        s.finished() == s.detections,
{
}

/// The events come in the order of their times.
pub open spec fn in_time_order(events: Seq<RcEvent>) -> bool {
    forall|i: int, j: int|
        0 <= i < j < events.len() ==> event_time(#[trigger] events[i]) <= event_time(
            #[trigger] events[j],
        )
}

/// Each loss is over before the next one begins.
pub open spec fn disjoint(list: Seq<DiagnosticView>) -> bool {
    forall|i: int, j: int|
        0 <= i < j < list.len() ==> ((#[trigger] list[i]).end_timestamp_us matches Some(end) && end
            <= (#[trigger] list[j]).timestamp_us)
}

/// Where the messages come in the order of their times, the reported losses are
/// in that order too, and no two of them overlap.
pub proof fn law_losses_are_disjoint(events: Seq<RcEvent>)
    requires
        in_time_order(events),
    ensures
        disjoint(RcLossState::initial().after_events(events).finished()),
{
    lemma_disjoint(events);
}

/// The findings after a series of events in order are over by the time of the
/// last one, and a loss that is under way began after them.
proof fn lemma_disjoint(events: Seq<RcEvent>)
    requires
        in_time_order(events),
    ensures
        ({
            let s = RcLossState::initial().after_events(events);
            &&& s.wf()
            &&& disjoint(s.detections)
            &&& events.len() > 0 ==> s.last_seen_us == event_time(events.last())
            &&& events.len() == 0 ==> s.last_seen_us == 0
            &&& forall|i: int|
                0 <= i < s.detections.len() ==> ((
                #[trigger] s.detections[i]).end_timestamp_us matches Some(end) && end
                    <= s.last_seen_us && (s.loss_start_us matches Some(start) ==> end <= start))
        }),
    decreases events.len(),
{
    if events.len() > 0 {
        let earlier = events.drop_last();
        assert(in_time_order(earlier)) by {
            assert forall|i: int, j: int| 0 <= i < j < earlier.len() implies event_time(
                #[trigger] earlier[i],
            ) <= event_time(#[trigger] earlier[j]) by {
                assert(earlier[i] == events[i] && earlier[j] == events[j]);
            }
        }
        lemma_disjoint(earlier);
        if earlier.len() > 0 {
            assert(earlier.last() == events[events.len() - 2]);
            assert(events.last() == events[events.len() - 1]);
        }
        let before = RcLossState::initial().after_events(earlier);
        assert(before.last_seen_us <= event_time(events.last()));
    }
}

/// Whatever is reported in the end lasted long enough, and is critical exactly
/// when it lasted very long.
pub proof fn law_findings_are_sound(s: RcLossState)
    requires
        s.wf(),
    ensures
        forall|i: int| 0 <= i < s.finished().len() ==> sound(#[trigger] s.finished()[i]),
{
}

/// Findings are kept, and a message adds one at most.
pub proof fn law_findings_are_kept(s: RcLossState, data: DataMessage<'_>)
    ensures
        s.detections.is_prefix_of(s.after_message(data).detections),
        s.after_message(data).detections.len() <= s.detections.len() + 1,
        s.detections.is_prefix_of(s.finished()),
        s.finished().len() <= s.detections.len() + 1,
{
}

/// Only the required topics count.
pub proof fn law_other_topics_are_ignored(s: RcLossState, data: DataMessage<'_>)
    requires
        topic_of(data) != "input_rc"@,
        topic_of(data) != "vehicle_status"@,
    ensures
        s.after_message(data) == s,
{
}

} // verus!
