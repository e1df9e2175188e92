//! Syslog lines.
//!
//! Three forms are told apart: RFC 5424, RFC 3164 and rsyslog's default file
//! format. A line in none of them becomes the message body as a whole.

use vstd::prelude::*;
use crate::log_entry::{label_views, syslog_severity, LabelView, LogEntryView};
use crate::log_entry::{set_label, source_labels, LabelValue, LogEntry, Severity};
use crate::number::{parse_signed, parse_unsigned, read_i64, read_unsigned};
use crate::sources::{strip, strip_ansi};
use crate::split::{fields, split_fields, split_words, texts, words};
use crate::string_map::StringMap;
use crate::text::{contains, find, from_chars, same, to_chars};
use crate::text::{position, trim_end_of, trim_start, trim_start_of};
use crate::text::{without_leading, without_leading_space, without_trailing};

verus! {

// ---------------------------------------------------------------------------
// What a line says
// ---------------------------------------------------------------------------

/// Milliseconds from the Unix epoch to the instant that an RFC 3339 text names, as
/// chrono reads it; `None` where it reads none.
pub uninterp spec fn rfc3339_millis(s: Seq<char>) -> Option<i64>;

/// The same, where the instant is not before the epoch.
pub open spec fn iso8601_ms(s: Seq<char>) -> Option<u64> {
    match rfc3339_millis(s) {
        Some(ms) if ms >= 0 => Some(ms as u64),
        _ => None,
    }
}

/// The priority that a text names: 13 unless it is a number of eight bits.
pub open spec fn priority(pri: Seq<char>) -> int {
    match parse_unsigned(pri, 255) {
        Some(n) => n as int,
        None => 13,
    }
}

/// A line `<PRI>rest` taken apart.
pub open spec fn pri_split(line: Seq<char>) -> Option<(Seq<char>, Seq<char>)> {
    if line.len() > 0 && line[0] == '<' {
        match position(line, '>') {
            Some(end) => Some((line.subrange(1, end), line.skip(end + 1))),
            None => None,
        }
    } else {
        None
    }
}

/// The process name and the process id in a tag such as `myapp[1234]`.
pub open spec fn tag_parts(tag: Seq<char>) -> (Seq<char>, Option<int>) {
    match position(tag, '[') {
        Some(i) => (tag.take(i), parse_signed(trim_end_of(tag.skip(i + 1), ']'))),
        None => (tag, None),
    }
}

/// `labels` with `key` set to a text.
pub open spec fn with_text(
    labels: Map<Seq<char>, LabelView>,
    key: Seq<char>,
    text: Seq<char>,
) -> Map<Seq<char>, LabelView> {
    labels.insert(key, LabelView::Str(text))
}

/// `labels` with the process id, if there is one.
pub open spec fn with_pid(
    labels: Map<Seq<char>, LabelView>,
    pid: Option<int>,
) -> Map<Seq<char>, LabelView> {
    match pid {
        Some(n) => labels.insert("pid"@, LabelView::Int(n as i64)),
        None => labels,
    }
}

/// `labels` with the process name, if it is not empty, and the process id of a tag.
pub open spec fn with_tag(labels: Map<Seq<char>, LabelView>, tag: Seq<char>) -> Map<
    Seq<char>,
    LabelView,
> {
    let (process, pid) = tag_parts(tag);
    with_pid(
        if process.len() > 0 {
            with_text(labels, "process"@, process)
        } else {
            labels
        },
        pid,
    )
}

/// The labels of every syslog entry.
pub open spec fn syslog_labels() -> Map<Seq<char>, LabelView> {
    map!["source"@ => LabelView::Str("syslog"@)]
}

/// The seven fields of an RFC 5424 line behind its version: timestamp, host name,
/// application, process id, message id, structured data, message.
pub open spec fn rfc5424_fields(line: Seq<char>) -> Option<Seq<Seq<char>>> {
    match pri_split(line) {
        Some((_, rest)) => if rest.len() > 0 && rest[0] == '1' && fields(
            trim_start(rest.skip(1)),
            7,
        ).len() == 7 {
            Some(fields(trim_start(rest.skip(1)), 7))
        } else {
            None
        },
        None => None,
    }
}

/// The text of an RFC 5424 line that is read as its timestamp.
pub open spec fn rfc5424_timestamp(line: Seq<char>) -> Option<Seq<char>> {
    match rfc5424_fields(line) {
        Some(f) => Some(f[0]),
        None => None,
    }
}

/// The entry for a line `<PRI>1 TIMESTAMP HOST APP PROCID MSGID SD MSG`, given what
/// its timestamp reads as. `-` stands for an absent host or application; byte order
/// marks in front of the message are dropped.
pub open spec fn rfc5424(line: Seq<char>, timestamp_ms: Option<u64>) -> Option<LogEntryView> {
    match (pri_split(line), rfc5424_fields(line)) {
        (Some((pri, _)), Some(f)) => {
            let base = syslog_labels();
            let host = if f[1] != "-"@ {
                with_text(base, "hostname"@, f[1])
            } else {
                base
            };
            let app = if f[2] != "-"@ {
                with_text(host, "process"@, f[2])
            } else {
                host
            };
            Some(
                LogEntryView {
                    body: trim_start_of(f[6], '\u{feff}'),
                    severity: Some(syslog_severity(priority(pri) % 8)),
                    timestamp_ms,
                    uptime_ms: None,
                    source: "syslog"@,
                    labels: with_pid(app, parse_signed(f[3])),
                },
            )
        },
        _ => None,
    }
}

/// Where a colon and a space first follow each other in `s`, from `from` on.
pub open spec fn colon_space(s: Seq<char>, from: int) -> Option<int>
    decreases s.len() - from,
{
    if from + 1 >= s.len() {
        None
    } else if s[from] == ':' && s[from + 1] == ' ' {
        Some(from)
    } else {
        colon_space(s, from + 1)
    }
}

/// What follows the first colon and space of `s`, or else all of it.
pub open spec fn behind_tag(s: Seq<char>) -> Seq<char> {
    match colon_space(s, 0) {
        Some(i) => s.skip(i + 2),
        None => s,
    }
}

/// What follows the fourth space of `s`, or else all of it.
pub open spec fn behind_header(s: Seq<char>) -> Seq<char> {
    if fields(s, 5).len() == 5 {
        fields(s, 5)[4]
    } else {
        s
    }
}

/// The entry for a line `<PRI>Mon DD HH:MM:SS host tag[pid]: message`. The date has
/// no year, so it gives no timestamp. An empty message gives no entry.
pub open spec fn rfc3164(line: Seq<char>) -> Option<LogEntryView> {
    match pri_split(line) {
        Some((pri, rest)) => {
            let tokens = words(rest);
            let body = behind_tag(behind_header(rest));
            let host = if tokens.len() > 3 {
                with_text(syslog_labels(), "hostname"@, tokens[3])
            } else {
                syslog_labels()
            };
            if body.len() > 0 {
                Some(
                    LogEntryView {
                        body,
                        severity: Some(syslog_severity(priority(pri) % 8)),
                        timestamp_ms: None,
                        uptime_ms: None,
                        source: "syslog"@,
                        labels: if tokens.len() > 4 {
                            with_tag(host, trim_end_of(tokens[4], ':'))
                        } else {
                            host
                        },
                    },
                )
            } else {
                None
            }
        },
        None => None,
    }
}

/// The text of an rsyslog line that must read as a timestamp.
pub open spec fn rsyslog_timestamp(line: Seq<char>) -> Seq<char> {
    fields(line, 4)[0]
}

/// The entry for a line `TIMESTAMP host tag[pid]: message`, given what its timestamp
/// reads as. A line that starts with `<`, has no readable timestamp or no message
/// gives no entry.
pub open spec fn rsyslog_default(line: Seq<char>, timestamp_ms: Option<u64>) -> Option<
    LogEntryView,
> {
    let f = fields(line, 4);
    if (line.len() > 0 && line[0] == '<') || f.len() < 4 || trim_start(f[3]).len() == 0
        || timestamp_ms is None {
        None
    } else {
        Some(
            LogEntryView {
                body: trim_start(f[3]),
                severity: None,
                timestamp_ms,
                uptime_ms: None,
                source: "syslog"@,
                labels: with_tag(
                    with_text(syslog_labels(), "hostname"@, f[1]),
                    trim_end_of(f[2], ':'),
                ),
            },
        )
    }
}

/// The severity of a body `TIMESTAMP LEVEL target: message` as tracing writes it.
pub open spec fn tracing_severity(body: Seq<char>) -> Option<Severity> {
    let w = words(body);
    if w.len() < 2 || !w[0].contains('T') || !w[0].contains(':') {
        None
    } else if w[1] == "ERROR"@ {
        Some(Severity::Error)
    } else if w[1] == "WARN"@ {
        Some(Severity::Warning)
    } else if w[1] == "INFO"@ {
        Some(Severity::Info)
    } else if w[1] == "DEBUG"@ || w[1] == "TRACE"@ {
        Some(Severity::Debug)
    } else {
        None
    }
}

/// The entry for a line in no known form.
pub open spec fn unparsed(line: Seq<char>) -> LogEntryView {
    LogEntryView {
        body: line,
        severity: None,
        timestamp_ms: None,
        uptime_ms: None,
        source: "syslog"@,
        labels: syslog_labels(),
    }
}

/// An entry whose body holds no escape sequences, and whose severity, if the form of
/// the line carries none, is the one that the body names.
pub open spec fn finished(e: LogEntryView) -> LogEntryView {
    LogEntryView {
        body: strip(e.body),
        severity: if e.severity is None {
            tracing_severity(strip(e.body))
        } else {
            e.severity
        },
        ..e
    }
}

/// The entry for a line, given what its timestamp reads as in the two forms that
/// have one. The forms are tried in order.
pub open spec fn line_entry(
    line: Seq<char>,
    rfc5424_ms: Option<u64>,
    rsyslog_ms: Option<u64>,
) -> LogEntryView {
    finished(
        match rfc5424(line, rfc5424_ms) {
            Some(e) => e,
            None => match rfc3164(line) {
                Some(e) => e,
                None => match rsyslog_default(line, rsyslog_ms) {
                    Some(e) => e,
                    None => unparsed(line),
                },
            },
        },
    )
}

// ---------------------------------------------------------------------------
// Reading lines
// ---------------------------------------------------------------------------

/// `chrono::DateTime::parse_from_rfc3339`, and `timestamp_millis` of what it gives:
/// the result, which depends on the text alone, is [`rfc3339_millis`].
#[verifier::external_body]
fn parse_rfc3339_millis(s: &str) -> (r: Option<i64>)
    ensures
        r == rfc3339_millis(s@),
{
    chrono::DateTime::parse_from_rfc3339(s).ok().map(|t| t.timestamp_millis())
}

/// Reads an RFC 3339 timestamp as Unix milliseconds; instants before the epoch give none.
pub fn parse_iso8601_ms(s: &str) -> (r: Option<u64>)
    ensures
        r == iso8601_ms(s@),
{
    match parse_rfc3339_millis(s) {
        Some(ms) => if ms >= 0 {
            Some(ms as u64)
        } else {
            None
        },
        None => None,
    }
}

/// The severity and the number that a priority text names.
pub fn parse_priority(pri: &str) -> (r: (Severity, u8))
    ensures
        r.1 == priority(pri@),
        r.0 == syslog_severity(priority(pri@) % 8),
{
    let chars = to_chars(pri);
    read_priority(chars.as_slice())
}

fn read_priority(pri: &[char]) -> (r: (Severity, u8))
    ensures
        r.1 == priority(pri@),
        r.0 == syslog_severity(priority(pri@) % 8),
{
    let n: u8 = match read_unsigned(pri, 255) {
        Some(n) => n as u8,
        None => 13,
    };
    (Severity::from_syslog_priority(n), n)
}

/// Takes a line `<PRI>rest` apart.
fn split_pri<'a>(line: &'a [char]) -> (r: Option<(&'a [char], &'a [char])>)
    ensures
        match r {
            Some((pri, rest)) => pri_split(line@) == Some((pri@, rest@)),
            None => pri_split(line@) is None,
        },
{
    if line.len() == 0 || line[0] != '<' {
        return None;
    }
    let len: usize = line.len();
    match find(line, '>') {
        Some(end) => {
            proof {
                crate::text::lemma_span_holds(line@, crate::text::other_than('>'));
            }
            let pri = &line[1..end];
            let rest = &line[end + 1..len];
            assert(rest@ =~= line@.skip(end + 1));
            Some((pri, rest))
        },
        None => None,
    }
}

/// Takes a tag such as `myapp[1234]` apart into the process name and the process id.
pub fn parse_tag(tag: &str) -> (r: (String, Option<i64>))
    ensures
        r.0@ == tag_parts(tag@).0,
        match r.1 {
            Some(n) => tag_parts(tag@).1 == Some(n as int),
            None => tag_parts(tag@).1 is None,
        },
{
    let chars = to_chars(tag);
    read_tag(chars.as_slice())
}

fn read_tag(tag: &[char]) -> (r: (String, Option<i64>))
    ensures
        r.0@ == tag_parts(tag@).0,
        match r.1 {
            Some(n) => tag_parts(tag@).1 == Some(n as int),
            None => tag_parts(tag@).1 is None,
        },
{
    let len: usize = tag.len();
    match find(tag, '[') {
        Some(i) => {
            let process = &tag[0..i];
            let behind = &tag[i + 1..len];
            assert(process@ =~= tag@.take(i as int));
            assert(behind@ =~= tag@.skip(i + 1));
            (from_chars(process), read_i64(without_trailing(behind, ']')))
        },
        None => (from_chars(tag), None),
    }
}

/// Sets the labels that a tag gives.
fn set_tag_labels(labels: &mut StringMap<LabelValue>, tag: &[char])
    ensures
        label_views(final(labels)@) == with_tag(label_views(old(labels)@), tag@),
{
    let (process, pid) = read_tag(tag);
    if !process.as_str().is_empty() {
        set_label(labels, "process", LabelValue::Str(process));
    }
    if let Some(n) = pid {
        set_label(labels, "pid", LabelValue::Int(n));
    }
}

/// The seven fields of an RFC 5424 line.
fn split_rfc5424<'a>(line: &'a [char]) -> (r: Option<Vec<&'a [char]>>)
    ensures
        match r {
            Some(f) => rfc5424_fields(line@) == Some(texts(f@)) && f@.len() == 7,
            None => rfc5424_fields(line@) is None,
        },
{
    match split_pri(line) {
        Some((_, rest)) => {
            if rest.len() == 0 || rest[0] != '1' {
                return None;
            }
            let version = &rest[1..rest.len()];
            assert(version@ =~= rest@.skip(1));
            let parts = split_fields(without_leading_space(version), 7);
            assert(texts(parts@).len() == parts@.len());
            if parts.len() == 7 {
                Some(parts)
            } else {
                proof {
                    lemma_field_count(trim_start(rest@.skip(1)), 7);
                }
                None
            }
        },
        None => None,
    }
}

/// There are never more fields than asked for.
proof fn lemma_field_count(s: Seq<char>, n: nat)
    ensures
        fields(s, n).len() <= n,
        n > 0 ==> fields(s, n).len() > 0,
    decreases n,
{
    if n > 1 {
        if let Some(i) = position(s, ' ') {
            lemma_field_count(s.skip(i + 1), (n - 1) as nat);
        }
    }
}

/// The entry for the fields of an RFC 5424 line.
fn build_rfc5424(line: &[char], f: &Vec<&[char]>, timestamp_ms: Option<u64>) -> (e: LogEntry)
    requires
        f@.len() == 7,
        rfc5424_fields(line@) == Some(texts(f@)),
    ensures
        rfc5424(line@, timestamp_ms) == Some(e@),
{
    let severity = match split_pri(line) {
        Some((pri, _)) => Some(read_priority(pri).0),
        None => None,
    };
    let body = from_chars(without_leading(f[6], '\u{feff}'));
    let mut labels = source_labels("syslog");
    if !same(f[1], "-") {
        set_label(&mut labels, "hostname", LabelValue::Str(from_chars(f[1])));
    }
    if !same(f[2], "-") {
        set_label(&mut labels, "process", LabelValue::Str(from_chars(f[2])));
    }
    if let Some(n) = read_i64(f[3]) {
        set_label(&mut labels, "pid", LabelValue::Int(n));
    }
    assert(texts(f@)[1] == f@[1]@ && texts(f@)[2] == f@[2]@ && texts(f@)[3] == f@[3]@
        && texts(f@)[6] == f@[6]@);
    LogEntry {
        body,
        severity,
        timestamp_ms,
        uptime_ms: None,
        source: "syslog".to_string(),
        labels,
    }
}

/// Reads an RFC 5424 line whose timestamp reads as `timestamp_ms`.
pub fn rfc5424_entry(line: &str, timestamp_ms: Option<u64>) -> (r: Option<LogEntry>)
    ensures
        match r {
            Some(e) => rfc5424(line@, timestamp_ms) == Some(e@),
            None => rfc5424(line@, timestamp_ms) is None,
        },
{
    let chars = to_chars(line);
    match split_rfc5424(chars.as_slice()) {
        Some(f) => Some(build_rfc5424(chars.as_slice(), &f, timestamp_ms)),
        None => None,
    }
}

/// Reads an RFC 5424 line.
pub fn try_rfc5424(line: &str) -> (r: Option<LogEntry>)
    ensures
        match (r, rfc5424_timestamp(line@)) {
            (Some(e), Some(t)) => rfc5424(line@, iso8601_ms(t)) == Some(e@),
            (None, None) => true,
            _ => false,
        },
{
    let chars = to_chars(line);
    match split_rfc5424(chars.as_slice()) {
        Some(f) => {
            assert(texts(f@)[0] == f@[0]@);
            let timestamp_ms = parse_iso8601_ms(from_chars(f[0]).as_str());
            Some(build_rfc5424(chars.as_slice(), &f, timestamp_ms))
        },
        None => None,
    }
}

/// Reads an RFC 3164 line.
pub fn try_rfc3164(line: &str) -> (r: Option<LogEntry>)
    ensures
        match r {
            Some(e) => rfc3164(line@) == Some(e@),
            None => rfc3164(line@) is None,
        },
{
    let chars = to_chars(line);
    match split_pri(chars.as_slice()) {
        Some((pri, rest)) => {
            let body = message_of(rest);
            if body.len() == 0 {
                return None;
            }
            let severity = Some(read_priority(pri).0);
            let mut labels = source_labels("syslog");
            let tokens = split_words(rest);
            assert(texts(tokens@).len() == tokens@.len());
            if tokens.len() > 3 {
                assert(texts(tokens@)[3] == tokens@[3]@);
                set_label(&mut labels, "hostname", LabelValue::Str(from_chars(tokens[3])));
            }
            if tokens.len() > 4 {
                assert(texts(tokens@)[4] == tokens@[4]@);
                set_tag_labels(&mut labels, without_trailing(tokens[4], ':'));
            }
            Some(
                LogEntry {
                    body: from_chars(body),
                    severity,
                    timestamp_ms: None,
                    uptime_ms: None,
                    source: "syslog".to_string(),
                    labels,
                },
            )
        },
        None => None,
    }
}

/// The message of an RFC 3164 line, given what follows its priority.
fn message_of<'a>(rest: &'a [char]) -> (r: &'a [char])
    ensures
        r@ == behind_tag(behind_header(rest@)),
{
    let parts = split_fields(rest, 5);
    assert(texts(parts@).len() == parts@.len());
    let tail: &'a [char] = if parts.len() == 5 {
        assert(texts(parts@)[4] == parts@[4]@);
        parts[4]
    } else {
        rest
    };
    assert(tail@ == behind_header(rest@));
    let len: usize = tail.len();
    let mut i: usize = 0;
    while i < len && len - i > 1
        invariant
            i <= len,
            len == tail@.len(),
            tail@ == behind_header(rest@),
            colon_space(tail@, 0) == colon_space(tail@, i as int),
        decreases len - i,
    {
        if tail[i] == ':' && tail[i + 1] == ' ' {
            let r = &tail[i + 2..len];
            assert(r@ =~= tail@.skip(i + 2));
            return r;
        }
        i += 1;
    }
    tail
}

/// Reads a line in rsyslog's default file format, given what its timestamp reads as.
pub fn rsyslog_entry(line: &str, timestamp_ms: Option<u64>) -> (r: Option<LogEntry>)
    ensures
        match r {
            Some(e) => rsyslog_default(line@, timestamp_ms) == Some(e@),
            None => rsyslog_default(line@, timestamp_ms) is None,
        },
{
    let chars = to_chars(line);
    let parts = split_fields(chars.as_slice(), 4);
    build_rsyslog(chars.as_slice(), &parts, timestamp_ms)
}

/// Reads a line in rsyslog's default file format.
pub fn try_rsyslog_default(line: &str) -> (r: Option<LogEntry>)
    ensures
        match r {
            Some(e) => rsyslog_default(line@, iso8601_ms(rsyslog_timestamp(line@))) == Some(e@),
            None => rsyslog_default(line@, iso8601_ms(rsyslog_timestamp(line@))) is None,
        },
{
    let chars = to_chars(line);
    let parts = split_fields(chars.as_slice(), 4);
    proof {
        lemma_field_count(line@, 4);
        assert(texts(parts@).len() == parts@.len());
        assert(texts(parts@)[0] == parts@[0]@);
    }
    let timestamp_ms = parse_iso8601_ms(from_chars(parts[0]).as_str());
    build_rsyslog(chars.as_slice(), &parts, timestamp_ms)
}

fn build_rsyslog(line: &[char], parts: &Vec<&[char]>, timestamp_ms: Option<u64>) -> (r: Option<
    LogEntry,
>)
    requires
        texts(parts@) == fields(line@, 4),
    ensures
        match r {
            Some(e) => rsyslog_default(line@, timestamp_ms) == Some(e@),
            None => rsyslog_default(line@, timestamp_ms) is None,
        },
{
    assert(texts(parts@).len() == parts@.len());
    if line.len() > 0 && line[0] == '<' {
        return None;
    }
    if parts.len() < 4 || timestamp_ms.is_none() {
        return None;
    }
    assert(texts(parts@)[1] == parts@[1]@ && texts(parts@)[2] == parts@[2]@ && texts(parts@)[3]
        == parts@[3]@);
    let message = without_leading_space(parts[3]);
    if message.len() == 0 {
        return None;
    }
    let mut labels = source_labels("syslog");
    set_label(&mut labels, "hostname", LabelValue::Str(from_chars(parts[1])));
    set_tag_labels(&mut labels, without_trailing(parts[2], ':'));
    Some(
        LogEntry {
            body: from_chars(message),
            severity: None,
            timestamp_ms,
            uptime_ms: None,
            source: "syslog".to_string(),
            labels,
        },
    )
}

/// The severity that a body written by tracing names.
pub fn infer_tracing_severity(body: &str) -> (r: Option<Severity>)
    ensures
        r == tracing_severity(body@),
{
    let chars = to_chars(body);
    let w = split_words(chars.as_slice());
    assert(texts(w@).len() == w@.len());
    if w.len() < 2 {
        return None;
    }
    assert(texts(w@)[0] == w@[0]@ && texts(w@)[1] == w@[1]@);
    if !contains(w[0], 'T') || !contains(w[0], ':') {
        return None;
    }
    if same(w[1], "ERROR") {
        Some(Severity::Error)
    } else if same(w[1], "WARN") {
        Some(Severity::Warning)
    } else if same(w[1], "INFO") {
        Some(Severity::Info)
    } else if same(w[1], "DEBUG") || same(w[1], "TRACE") {
        Some(Severity::Debug)
    } else {
        None
    }
}

/// Takes escape sequences out of an entry's body and fills in a missing severity.
fn finish(e: LogEntry) -> (r: LogEntry)
    ensures
        r@ == finished(e@),
{
    let body = strip_ansi(e.body.as_str());
    let severity = if e.severity.is_none() {
        infer_tracing_severity(body.as_str())
    } else {
        e.severity
    };
    LogEntry {
        body,
        severity,
        timestamp_ms: e.timestamp_ms,
        uptime_ms: e.uptime_ms,
        source: e.source,
        labels: e.labels,
    }
}

fn whole_line(line: &str) -> (e: LogEntry)
    ensures
        e@ == unparsed(line@),
{
    LogEntry {
        body: line.to_string(),
        severity: None,
        timestamp_ms: None,
        uptime_ms: None,
        source: "syslog".to_string(),
        labels: source_labels("syslog"),
    }
}

/// The entry for a line, given what its timestamp reads as in the two forms that have one.
pub fn parse_line_with(line: &str, rfc5424_ms: Option<u64>, rsyslog_ms: Option<u64>) -> (e:
    LogEntry)
    ensures
        e@ == line_entry(line@, rfc5424_ms, rsyslog_ms),
{
    let parsed = match rfc5424_entry(line, rfc5424_ms) {
        Some(e) => e,
        None => match try_rfc3164(line) {
            Some(e) => e,
            None => match rsyslog_entry(line, rsyslog_ms) {
                Some(e) => e,
                None => whole_line(line),
            },
        },
    };
    finish(parsed)
}

/// What the timestamp of `line` reads as where it is an RFC 5424 line.
pub open spec fn rfc5424_ms(line: Seq<char>) -> Option<u64> {
    match rfc5424_timestamp(line) {
        Some(t) => iso8601_ms(t),
        None => None,
    }
}

/// A line as it is read, with its timestamp read too.
pub open spec fn as_read(line: Seq<char>) -> LogEntryView {
    line_entry(line, rfc5424_ms(line), iso8601_ms(rsyslog_timestamp(line)))
}

/// Reads a syslog line.
pub fn parse_line(line: &str) -> (e: LogEntry)
    ensures
        e@ == as_read(line@),
{
    let parsed = match try_rfc5424(line) {
        Some(e) => e,
        None => match try_rfc3164(line) {
            Some(e) => e,
            None => match try_rsyslog_default(line) {
                Some(e) => e,
                None => whole_line(line),
            },
        },
    };
    finish(parsed)
}

} // verus!
