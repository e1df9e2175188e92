//! Journal entries.

use vstd::prelude::*;
use crate::log_entry::{label_views, syslog_severity, LabelView, LogEntryView};
use crate::log_entry::{set_label, source_labels, LabelValue, LogEntry, Severity};
use crate::number::{decimal, lemma_decimal};
use crate::number::{parse_signed, parse_unsigned, read_i64, read_unsigned};
use crate::sources::{law_no_escape_survives, strip, strip_ansi, ESC};
use crate::string_map::StringMap;
use crate::text::{digit, to_chars};

verus! {

// ---------------------------------------------------------------------------
// What a journal entry says
// ---------------------------------------------------------------------------

/// The fields of a journal entry.
pub open spec fn journal_fields(m: Map<Seq<char>, String>) -> Map<Seq<char>, Seq<char>> {
    m.map_values(|v: String| v@)
}

/// The text of a field.
pub open spec fn field(m: Map<Seq<char>, Seq<char>>, key: Seq<char>) -> Option<Seq<char>> {
    if m.contains_key(key) {
        Some(m[key])
    } else {
        None
    }
}

/// The number of milliseconds in a field that counts microseconds.
pub open spec fn millis_of(m: Map<Seq<char>, Seq<char>>, key: Seq<char>) -> Option<u64> {
    match field(m, key) {
        Some(s) => match parse_unsigned(s, u64::MAX as nat) {
            Some(us) => Some((us / 1000) as u64),
            None => None,
        },
        None => None,
    }
}

/// `labels` with `key` set to a text, if there is one.
pub open spec fn with_some(
    labels: Map<Seq<char>, LabelView>,
    key: Seq<char>,
    text: Option<Seq<char>>,
) -> Map<Seq<char>, LabelView> {
    match text {
        Some(t) => labels.insert(key, LabelView::Str(t)),
        None => labels,
    }
}

/// The process name: the syslog identifier, or else the name of the executable.
pub open spec fn process_of(m: Map<Seq<char>, Seq<char>>) -> Option<Seq<char>> {
    match field(m, "SYSLOG_IDENTIFIER"@) {
        Some(t) => Some(t),
        None => field(m, "_COMM"@),
    }
}

/// The process id.
pub open spec fn pid_of(m: Map<Seq<char>, Seq<char>>) -> Option<int> {
    match field(m, "_PID"@) {
        Some(t) => parse_signed(t),
        None => None,
    }
}

/// The severity in the priority field.
pub open spec fn severity_of(m: Map<Seq<char>, Seq<char>>) -> Option<Severity> {
    match field(m, "PRIORITY"@) {
        Some(t) => match parse_unsigned(t, 255) {
            Some(n) => Some(syslog_severity(n as int % 8)),
            None => None,
        },
        None => None,
    }
}

/// The labels of a journal entry.
pub open spec fn journal_labels(m: Map<Seq<char>, Seq<char>>) -> Map<Seq<char>, LabelView> {
    let source = map!["source"@ => LabelView::Str("journald"@)];
    let host = with_some(source, "hostname"@, field(m, "_HOSTNAME"@));
    let process = with_some(host, "process"@, process_of(m));
    let pid = match pid_of(m) {
        Some(n) => process.insert("pid"@, LabelView::Int(n as i64)),
        None => process,
    };
    with_some(pid, "unit"@, field(m, "_SYSTEMD_UNIT"@))
}

/// The log entry for a journal entry. One without a message, or whose message is
/// nothing but escape sequences, gives none.
pub open spec fn journal_entry(m: Map<Seq<char>, Seq<char>>) -> Option<LogEntryView> {
    match field(m, "MESSAGE"@) {
        Some(text) if strip(text).len() > 0 => Some(
            LogEntryView {
                body: strip(text),
                severity: severity_of(m),
                timestamp_ms: millis_of(m, "__REALTIME_TIMESTAMP"@),
                uptime_ms: millis_of(m, "__MONOTONIC_TIMESTAMP"@),
                source: "journald"@,
                labels: journal_labels(m),
            },
        ),
        _ => None,
    }
}

// ---------------------------------------------------------------------------
// Reading journal entries
// ---------------------------------------------------------------------------

/// The text of a field.
fn text_of<'a>(entry: &'a StringMap<String>, key: &str) -> (r: Option<&'a String>)
    ensures
        match r {
            Some(t) => field(journal_fields(entry@), key@) == Some(t@),
            None => field(journal_fields(entry@), key@) is None,
        },
{
    entry.get(key)
}

/// The number in a field that counts microseconds, in milliseconds.
fn read_millis(entry: &StringMap<String>, key: &str) -> (r: Option<u64>)
    ensures
        r == millis_of(journal_fields(entry@), key@),
{
    match text_of(entry, key) {
        Some(t) => {
            let chars = to_chars(t.as_str());
            match read_unsigned(chars.as_slice(), u64::MAX) {
                Some(us) => Some(us / 1000),
                None => None,
            }
        },
        None => None,
    }
}

/// Sets the label `label` to the text of a field, if there is one.
fn copy_label(labels: &mut StringMap<LabelValue>, label: &str, text: Option<&String>)
    ensures
        label_views(final(labels)@) == with_some(
            label_views(old(labels)@),
            label@,
            match text {
                Some(t) => Some(t@),
                None => None,
            },
        ),
{
    if let Some(t) = text {
        set_label(labels, label, LabelValue::Str(t.clone()));
    }
}

/// Turns a journal entry, given by its fields, into a log entry.
pub fn entry_to_log(entry: &StringMap<String>) -> (r: Option<LogEntry>)
    ensures
        match r {
            Some(e) => journal_entry(journal_fields(entry@)) == Some(e@),
            None => journal_entry(journal_fields(entry@)) is None,
        },
{
    let body = match text_of(entry, "MESSAGE") {
        Some(text) => strip_ansi(text.as_str()),
        None => {
            return None;
        },
    };
    if body.as_str().is_empty() {
        return None;
    }
    let severity = match text_of(entry, "PRIORITY") {
        Some(t) => {
            let chars = to_chars(t.as_str());
            match read_unsigned(chars.as_slice(), 255) {
                Some(n) => Some(Severity::from_syslog_priority(n as u8)),
                None => None,
            }
        },
        None => None,
    };
    let timestamp_ms = read_millis(entry, "__REALTIME_TIMESTAMP");
    let uptime_ms = read_millis(entry, "__MONOTONIC_TIMESTAMP");

    let mut labels = source_labels("journald");
    copy_label(&mut labels, "hostname", text_of(entry, "_HOSTNAME"));
    let process = match text_of(entry, "SYSLOG_IDENTIFIER") {
        Some(t) => Some(t),
        None => text_of(entry, "_COMM"),
    };
    copy_label(&mut labels, "process", process);
    if let Some(t) = text_of(entry, "_PID") {
        let chars = to_chars(t.as_str());
        if let Some(n) = read_i64(chars.as_slice()) {
            set_label(&mut labels, "pid", LabelValue::Int(n));
        }
    }
    copy_label(&mut labels, "unit", text_of(entry, "_SYSTEMD_UNIT"));

    Some(
        LogEntry {
            body,
            severity,
            timestamp_ms,
            uptime_ms,
            source: "journald".to_string(),
            labels,
        },
    )
}

/// Every entry from the journal says where it comes from, has a body, and the body holds
/// no escape character.
pub proof fn law_journal_entry_is_sound(m: Map<Seq<char>, Seq<char>>)
    ensures
        journal_entry(m) matches Some(e) ==> {
            &&& e.source == "journald"@
            &&& e.labels.contains_key("source"@)
            &&& e.labels["source"@] == LabelView::Str("journald"@)
            &&& e.body.len() > 0
            &&& !e.body.contains(ESC)
        },
        journal_entry(m) is Some <==> m.contains_key("MESSAGE"@) && strip(m["MESSAGE"@]).len() > 0,
{
    reveal_strlit("source");
    reveal_strlit("hostname");
    reveal_strlit("process");
    reveal_strlit("pid");
    reveal_strlit("unit");
    assert("source"@.len() == 6 && "hostname"@.len() == 8 && "process"@.len() == 7 && "pid"@.len()
        == 3 && "unit"@.len() == 4);
    if let Some(text) = field(m, "MESSAGE"@) {
        law_no_escape_survives(text);
    }
}

/// The names of labels are all different.
proof fn lemma_label_names()
    ensures
        "source"@.len() == 6,
        "hostname"@.len() == 8,
        "process"@.len() == 7,
        "pid"@.len() == 3,
        "unit"@.len() == 4,
{
    reveal_strlit("source");
    reveal_strlit("hostname");
    reveal_strlit("process");
    reveal_strlit("pid");
    reveal_strlit("unit");
}

/// The process is the syslog identifier wherever there is one, whatever other fields
/// there are. It is the name of the executable where only that is there, and is missing
/// only where neither is.
pub proof fn law_process_is_named(m: Map<Seq<char>, Seq<char>>)
    ensures
        journal_entry(m) matches Some(e) ==> {
            &&& m.contains_key("SYSLOG_IDENTIFIER"@) ==> e.labels.contains_key("process"@)
                && e.labels["process"@] == LabelView::Str(m["SYSLOG_IDENTIFIER"@])
            &&& !m.contains_key("SYSLOG_IDENTIFIER"@) && m.contains_key("_COMM"@)
                ==> e.labels.contains_key("process"@) && e.labels["process"@] == LabelView::Str(
                m["_COMM"@],
            )
            &&& !m.contains_key("SYSLOG_IDENTIFIER"@) && !m.contains_key("_COMM"@)
                ==> !e.labels.contains_key("process"@)
        },
{
    lemma_label_names();
}

/// Host and unit are labels exactly where the journal has them, each with the text of its
/// own field, and there are no labels but source, hostname, process, pid and unit.
pub proof fn law_labels_come_from_their_fields(m: Map<Seq<char>, Seq<char>>)
    ensures
        journal_entry(m) matches Some(e) ==> {
            &&& e.labels.contains_key("hostname"@) <==> m.contains_key("_HOSTNAME"@)
            &&& m.contains_key("_HOSTNAME"@) ==> e.labels["hostname"@] == LabelView::Str(
                m["_HOSTNAME"@],
            )
            &&& e.labels.contains_key("unit"@) <==> m.contains_key("_SYSTEMD_UNIT"@)
            &&& m.contains_key("_SYSTEMD_UNIT"@) ==> e.labels["unit"@] == LabelView::Str(
                m["_SYSTEMD_UNIT"@],
            )
            &&& forall|k: Seq<char>| #[trigger]
                e.labels.contains_key(k) ==> k == "source"@ || k == "hostname"@ || k == "process"@
                    || k == "pid"@ || k == "unit"@
        },
{
    lemma_label_names();
}

/// A process id that is written out is a label, with its sign; where the field is missing,
/// or is not digits behind an optional sign, there is none.
pub proof fn law_process_id_is_read(m: Map<Seq<char>, Seq<char>>, n: nat)
    ensures
        journal_entry(m) matches Some(e) ==> {
            &&& m.contains_key("_PID"@) && m["_PID"@] == decimal(n) && n <= i64::MAX
                ==> e.labels.contains_key("pid"@) && e.labels["pid"@] == LabelView::Int(n as i64)
            &&& m.contains_key("_PID"@) && m["_PID"@] == seq!['-'] + decimal(n) && n <= i64::MAX
                ==> e.labels.contains_key("pid"@) && e.labels["pid"@] == LabelView::Int(
                (-n) as i64,
            )
            &&& !m.contains_key("_PID"@) ==> !e.labels.contains_key("pid"@)
            &&& m.contains_key("_PID"@) ==> match parse_signed(m["_PID"@]) {
                Some(k) => e.labels.contains_key("pid"@) && e.labels["pid"@] == LabelView::Int(
                    k as i64,
                ),
                None => !e.labels.contains_key("pid"@),
            }
            &&& m.contains_key("_PID"@) && m["_PID"@].len() == 0 ==> !e.labels.contains_key("pid"@)
            &&& m.contains_key("_PID"@) && (exists|i: int|
                1 <= i < m["_PID"@].len() && !digit(#[trigger] m["_PID"@][i]))
                ==> !e.labels.contains_key("pid"@)
        },
{
    lemma_label_names();
    lemma_decimal(n);
    assert(digit(decimal(n)[0]));
    assert((seq!['-'] + decimal(n)).skip(1) =~= decimal(n));
    if m.contains_key("_PID"@) {
        lemma_not_digits(m["_PID"@]);
    }
}

/// A text with something other than a digit behind its first character is no number.
proof fn lemma_not_digits(s: Seq<char>)
    ensures
        (exists|i: int| 1 <= i < s.len() && !digit(#[trigger] s[i])) ==> {
            &&& parse_signed(s) is None
            &&& forall|max: nat| #[trigger] parse_unsigned(s, max) is None
        },
{
    if exists|i: int| 1 <= i < s.len() && !digit(#[trigger] s[i]) {
        let i = choose|i: int| 1 <= i < s.len() && !digit(#[trigger] s[i]);
        assert(s.skip(1)[i - 1] == s[i]);
    }
}

/// The severity goes by the low three bits of the priority: 0 to 2 are critical, 3 is an
/// error, 4 a warning, 5 and 6 are informational, 7 is for debugging. Without a priority,
/// or with one that is no number of eight bits, there is no severity.
pub proof fn law_severity_goes_by_priority(m: Map<Seq<char>, Seq<char>>, n: nat)
    ensures
        journal_entry(m) matches Some(e) ==> {
            &&& m.contains_key("PRIORITY"@) && m["PRIORITY"@] == decimal(n) ==> e.severity == if n
                > 255 {
                None
            } else if n % 8 == 0 || n % 8 == 1 || n % 8 == 2 {
                Some(Severity::Critical)
            } else if n % 8 == 3 {
                Some(Severity::Error)
            } else if n % 8 == 4 {
                Some(Severity::Warning)
            } else if n % 8 == 5 || n % 8 == 6 {
                Some(Severity::Info)
            } else {
                Some(Severity::Debug)
            }
            &&& !m.contains_key("PRIORITY"@) ==> e.severity is None
            &&& m.contains_key("PRIORITY"@) && parse_unsigned(m["PRIORITY"@], 255) is None
                ==> e.severity is None
            &&& m.contains_key("PRIORITY"@) && parse_unsigned(m["PRIORITY"@], 255) == Some(n)
                ==> e.severity == if n % 8 == 0 || n % 8 == 1 || n % 8 == 2 {
                Some(Severity::Critical)
            } else if n % 8 == 3 {
                Some(Severity::Error)
            } else if n % 8 == 4 {
                Some(Severity::Warning)
            } else if n % 8 == 5 || n % 8 == 6 {
                Some(Severity::Info)
            } else {
                Some(Severity::Debug)
            }
            &&& m.contains_key("PRIORITY"@) && m["PRIORITY"@].len() == 0 ==> e.severity is None
            &&& m.contains_key("PRIORITY"@) && (exists|i: int|
                1 <= i < m["PRIORITY"@].len() && !digit(#[trigger] m["PRIORITY"@][i]))
                ==> e.severity is None
        },
{
    lemma_decimal(n);
    assert(digit(decimal(n)[0]));
    if m.contains_key("PRIORITY"@) {
        lemma_not_digits(m["PRIORITY"@]);
    }
}

/// The journal counts microseconds: the time and the uptime of an entry are its two
/// clocks in milliseconds, each where its own field is there and is a number.
pub proof fn law_clocks_are_read_in_milliseconds(m: Map<Seq<char>, Seq<char>>, us: u64)
    ensures
        journal_entry(m) matches Some(e) ==> {
            &&& m.contains_key("__REALTIME_TIMESTAMP"@) && m["__REALTIME_TIMESTAMP"@] == decimal(
                us as nat,
            ) ==> (e.timestamp_ms matches Some(ms) && ms * 1000 <= us < ms * 1000 + 1000)
            &&& m.contains_key("__MONOTONIC_TIMESTAMP"@) && m["__MONOTONIC_TIMESTAMP"@] == decimal(
                us as nat,
            ) ==> (e.uptime_ms matches Some(ms) && ms * 1000 <= us < ms * 1000 + 1000)
            &&& m.contains_key("__REALTIME_TIMESTAMP"@) ==> match parse_unsigned(
                m["__REALTIME_TIMESTAMP"@],
                u64::MAX as nat,
            ) {
                Some(k) => e.timestamp_ms matches Some(ms) && ms * 1000 <= k < ms * 1000 + 1000,
                None => e.timestamp_ms is None,
            }
            &&& m.contains_key("__MONOTONIC_TIMESTAMP"@) ==> match parse_unsigned(
                m["__MONOTONIC_TIMESTAMP"@],
                u64::MAX as nat,
            ) {
                Some(k) => e.uptime_ms matches Some(ms) && ms * 1000 <= k < ms * 1000 + 1000,
                None => e.uptime_ms is None,
            }
            &&& !m.contains_key("__REALTIME_TIMESTAMP"@) ==> e.timestamp_ms is None
            &&& !m.contains_key("__MONOTONIC_TIMESTAMP"@) ==> e.uptime_ms is None
            &&& m.contains_key("__REALTIME_TIMESTAMP"@) && (exists|i: int|
                1 <= i < m["__REALTIME_TIMESTAMP"@].len() && !digit(
                    #[trigger] m["__REALTIME_TIMESTAMP"@][i],
                )) ==> e.timestamp_ms is None
            &&& m.contains_key("__MONOTONIC_TIMESTAMP"@) && (exists|i: int|
                1 <= i < m["__MONOTONIC_TIMESTAMP"@].len() && !digit(
                    #[trigger] m["__MONOTONIC_TIMESTAMP"@][i],
                )) ==> e.uptime_ms is None
        },
{
    lemma_decimal(us as nat);
    assert(digit(decimal(us as nat)[0]));
    if m.contains_key("__REALTIME_TIMESTAMP"@) {
        lemma_not_digits(m["__REALTIME_TIMESTAMP"@]);
    }
    if m.contains_key("__MONOTONIC_TIMESTAMP"@) {
        lemma_not_digits(m["__MONOTONIC_TIMESTAMP"@]);
    }
}

/// The body is the message without its escape sequences: text without any stays whole,
/// and a message that has some other text gives an entry.
pub proof fn law_message_is_the_body(m: Map<Seq<char>, Seq<char>>)
    ensures
        m.contains_key("MESSAGE"@) && strip(m["MESSAGE"@]).len() > 0 ==> (
        journal_entry(m) matches Some(e) && e.body == strip(m["MESSAGE"@])),
        !m.contains_key("MESSAGE"@) ==> journal_entry(m) is None,
        m.contains_key("MESSAGE"@) && strip(m["MESSAGE"@]).len() == 0 ==> journal_entry(m) is None,
{
}

} // verus!
