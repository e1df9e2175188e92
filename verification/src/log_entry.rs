//! Log entries as they flow through the daemon.

use vstd::prelude::*;
use crate::string_map::StringMap;

verus! {

/// Severity levels of the Spotflow platform.
#[derive(Debug, Clone, Copy, PartialEq, Eq, PartialOrd, Ord, Structural)]
pub enum Severity {
    Debug,
    Info,
    Warning,
    Error,
    Critical,
}

/// The severity that a syslog severity code stands for: 0 to 2 (emergency, alert,
/// critical), 3 (error), 4 (warning), 5 and 6 (notice, informational), 7 (debug).
pub open spec fn syslog_severity(code: int) -> Severity {
    if code <= 2 {
        Severity::Critical
    } else if code == 3 {
        Severity::Error
    } else if code == 4 {
        Severity::Warning
    } else if code <= 6 {
        Severity::Info
    } else {
        Severity::Debug
    }
}

/// The number that stands for a severity on the wire (CBOR key 4).
pub open spec fn severity_code(severity: Severity) -> u64 {
    match severity {
        Severity::Debug => 30,
        Severity::Info => 40,
        Severity::Warning => 50,
        Severity::Error => 60,
        Severity::Critical => 70,
    }
}

impl Severity {
    /// The severity in the low three bits of a syslog priority.
    pub fn from_syslog_priority(priority: u8) -> (s: Severity)
        ensures
            s == syslog_severity(priority as int % 8),
    {
        assert(priority & 0x07 == priority % 8) by (bit_vector);
        match priority & 0x07 {
            0 | 1 | 2 => Severity::Critical,
            3 => Severity::Error,
            4 => Severity::Warning,
            5 | 6 => Severity::Info,
            _ => Severity::Debug,
        }
    }

    /// The number that stands for this severity on the wire.
    pub fn code(self) -> (n: u64)
        ensures
            n == severity_code(self),
    {
        match self {
            Severity::Debug => 30,
            Severity::Info => 40,
            Severity::Warning => 50,
            Severity::Error => 60,
            Severity::Critical => 70,
        }
    }
}

/// The value of a label.
#[derive(Debug, Clone, PartialEq)]
pub enum LabelValue {
    Str(String),
    Int(i64),
}

/// What a label value says.
pub enum LabelView {
    Str(Seq<char>),
    Int(i64),
}

impl View for LabelValue {
    type V = LabelView;

    open spec fn view(&self) -> LabelView {
        match self {
            LabelValue::Str(s) => LabelView::Str(s@),
            LabelValue::Int(n) => LabelView::Int(*n),
        }
    }
}

/// What a set of labels says.
pub open spec fn label_views(m: Map<Seq<char>, LabelValue>) -> Map<Seq<char>, LabelView> {
    m.map_values(|v: LabelValue| v@)
}

/// A single log entry.
#[derive(Debug, Clone)]
pub struct LogEntry {
    /// Human-readable log message.
    pub body: String,
    /// Severity, where the source carries one.
    pub severity: Option<Severity>,
    /// UNIX epoch milliseconds, where the source carries a wall-clock time.
    pub timestamp_ms: Option<u64>,
    /// Milliseconds since boot, where the source carries them.
    pub uptime_ms: Option<u64>,
    /// Which source the entry came from.
    pub source: String,
    /// Structured key/value labels.
    pub labels: StringMap<LabelValue>,
}

/// What a log entry says.
#[verifier::ext_equal]
pub struct LogEntryView {
    pub body: Seq<char>,
    pub severity: Option<Severity>,
    pub timestamp_ms: Option<u64>,
    pub uptime_ms: Option<u64>,
    pub source: Seq<char>,
    pub labels: Map<Seq<char>, LabelView>,
}

impl View for LogEntry {
    type V = LogEntryView;

    open spec fn view(&self) -> LogEntryView {
        LogEntryView {
            body: self.body@,
            severity: self.severity,
            timestamp_ms: self.timestamp_ms,
            uptime_ms: self.uptime_ms,
            source: self.source@,
            labels: label_views(self.labels@),
        }
    }
}

/// Sets the label `key`.
pub fn set_label(labels: &mut StringMap<LabelValue>, key: &str, value: LabelValue)
    ensures
        label_views(final(labels)@) == label_views(old(labels)@).insert(key@, value@),
{
    labels.insert(key.to_string(), value);
    assert(label_views(labels@) =~= label_views(old(labels)@).insert(key@, value@));
}

/// The labels that hold only the name of the source.
pub fn source_labels(source: &str) -> (labels: StringMap<LabelValue>)
    ensures
        label_views(labels@) == map!["source"@ => LabelView::Str(source@)],
{
    let mut labels: StringMap<LabelValue> = StringMap::new();
    assert(label_views(labels@) =~= Map::empty());
    set_label(&mut labels, "source", LabelValue::Str(source.to_string()));
    assert(label_views(labels@) =~= map!["source"@ => LabelView::Str(source@)]);
    labels
}

// ---------------------------------------------------------------------------
// Laws
// ---------------------------------------------------------------------------

/// The eight syslog severities: emergency, alert and critical are critical, error and
/// warning are what they are, notice and informational are informational, debug is debug.
pub proof fn law_syslog_severities(code: int)
    requires
        0 <= code <= 7,
    ensures
        code == 0 || code == 1 || code == 2 <==> syslog_severity(code) == Severity::Critical,
        code == 3 <==> syslog_severity(code) == Severity::Error,
        code == 4 <==> syslog_severity(code) == Severity::Warning,
        code == 5 || code == 6 <==> syslog_severity(code) == Severity::Info,
        code == 7 <==> syslog_severity(code) == Severity::Debug,
{
}

/// The codes on the wire go up in tens, from 30 for debug to 70 for critical, so that the
/// graver of two severities has the greater code.
pub proof fn law_severity_codes(s: Severity)
    ensures
        s == Severity::Debug <==> severity_code(s) == 30,
        s == Severity::Info <==> severity_code(s) == 40,
        s == Severity::Warning <==> severity_code(s) == 50,
        s == Severity::Error <==> severity_code(s) == 60,
        s == Severity::Critical <==> severity_code(s) == 70,
{
}

} // verus!
