use spotflowd::log_entry::{LabelValue, LogEntry, Severity};
use spotflowd::sources::syslog::{
    parse_line, parse_tag, try_rfc3164, try_rfc5424, try_rsyslog_default,
};

fn label_str(entry: &LogEntry, key: &str) -> Option<String> {
    match entry.labels.get(key) {
        Some(LabelValue::Str(s)) => Some(s.clone()),
        _ => None,
    }
}

fn label_int(entry: &LogEntry, key: &str) -> Option<i64> {
    match entry.labels.get(key) {
        Some(LabelValue::Int(i)) => Some(*i),
        _ => None,
    }
}

// --- parse_tag ---

#[test]
fn parse_tag_with_pid() {
    assert_eq!(parse_tag("myapp[1234]"), ("myapp".into(), Some(1234)));
}

#[test]
fn parse_tag_without_pid() {
    assert_eq!(parse_tag("kernel"), ("kernel".into(), None));
}

#[test]
fn parse_tag_empty() {
    assert_eq!(parse_tag(""), ("".into(), None));
}

// --- RFC 5424 ---

#[test]
fn rfc5424_full_line() {
    let line = "<34>1 2026-06-12T15:30:00Z myhost myapp 1234 - - test message";
    let e = try_rfc5424(line).unwrap();
    assert_eq!(e.body, "test message");
    // PRI=34: facility=4, severity=2 (Critical)
    assert_eq!(e.severity, Some(Severity::Critical));
    assert_eq!(label_str(&e, "hostname").as_deref(), Some("myhost"));
    assert_eq!(label_str(&e, "process").as_deref(), Some("myapp"));
    assert_eq!(label_int(&e, "pid"), Some(1234));
    assert!(e.timestamp_ms.is_some());
}

#[test]
fn rfc5424_nil_fields_omitted_from_labels() {
    let line = "<13>1 2026-06-12T10:00:00Z - - - - - hello";
    let e = try_rfc5424(line).unwrap();
    assert_eq!(e.body, "hello");
    assert!(!e.labels.contains_key("hostname"));
    assert!(!e.labels.contains_key("process"));
}

#[test]
fn rfc5424_rejects_non_pri_line() {
    assert!(try_rfc5424("plain text").is_none());
}

// --- RFC 3164 ---

#[test]
fn rfc3164_body_excludes_tag() {
    // B3: body must not include "TAG[PID]: "
    let line = "<13>Jun 12 15:30:00 myhost myapp[999]: actual message";
    let e = try_rfc3164(line).unwrap();
    assert_eq!(e.body, "actual message");
    assert_eq!(label_str(&e, "hostname").as_deref(), Some("myhost"));
    assert_eq!(label_str(&e, "process").as_deref(), Some("myapp"));
    assert_eq!(label_int(&e, "pid"), Some(999));
}

#[test]
fn rfc3164_tag_without_pid() {
    let line = "<13>Jun 12 15:30:00 myhost kernel: oops";
    let e = try_rfc3164(line).unwrap();
    assert_eq!(e.body, "oops");
    assert_eq!(label_str(&e, "process").as_deref(), Some("kernel"));
    assert!(label_int(&e, "pid").is_none());
}

// --- rsyslog default ---

#[test]
fn rsyslog_default_parsed() {
    let line = "2026-06-12T15:26:45+02:00 debian myapp[999]: hello world";
    let e = try_rsyslog_default(line).unwrap();
    assert_eq!(e.body, "hello world");
    assert!(e.timestamp_ms.is_some());
    assert_eq!(label_str(&e, "hostname").as_deref(), Some("debian"));
    assert_eq!(label_str(&e, "process").as_deref(), Some("myapp"));
    assert_eq!(label_int(&e, "pid"), Some(999));
    assert_eq!(e.severity, None);
}

#[test]
fn rsyslog_default_rejects_invalid_timestamp() {
    // I2: non-ISO8601 first token → None
    assert!(try_rsyslog_default("not-a-ts hostname app: msg").is_none());
}

#[test]
fn rsyslog_default_rejects_empty_message() {
    // I3: no message after tag → None
    let line = "2026-06-12T15:26:45+02:00 debian myapp:";
    assert!(try_rsyslog_default(line).is_none());
}

#[test]
fn rsyslog_default_ignores_pri_lines() {
    assert!(try_rsyslog_default("<13>Jun 12 15:30:00 host tag: msg").is_none());
}

// --- parse_line fallback ---

#[test]
fn fallback_uses_whole_line_as_body() {
    let e = parse_line("some unrecognised log line here");
    assert_eq!(e.body, "some unrecognised log line here");
    assert_eq!(e.severity, None);
    assert_eq!(label_str(&e, "source").as_deref(), Some("syslog"));
}

// --- ANSI stripping ---

#[test]
fn ansi_codes_stripped_from_body() {
    // Simulate a tracing-subscriber coloured line reaching syslog (real ESC bytes).
    let line = "2026-06-13T19:26:55+00:00 debian spotflowd[2016]: \
        \x1b[2m2026-06-13T19:26:54Z\x1b[0m \x1b[33m WARN\x1b[0m \
        \x1b[2mspotflowd::mqtt\x1b[0m\x1b[2m:\x1b[0m MQTT connection lost";
    let e = parse_line(line);
    assert!(!e.body.contains('\x1b'), "body must not contain ESC");
    assert!(!e.body.contains("[33m"), "body must not contain raw ANSI params");
    assert!(e.body.contains("MQTT connection lost"));
}

#[test]
fn rsyslog_octal_escaped_ansi_stripped() {
    // rsyslog encodes ESC (0x1b) as the literal four chars "#033" in syslog files.
    let line = "2026-06-13T19:26:55+00:00 debian spotflowd[2016]: \
        #033[2m2026-06-13T19:26:54Z#033[0m #033[33m WARN#033[0m \
        #033[2mspotflowd::mqtt#033[0m#033[2m:#033[0m MQTT connection lost";
    let e = parse_line(line);
    assert!(!e.body.contains("#033"), "body must not contain rsyslog-escaped ESC");
    assert!(e.body.contains("MQTT connection lost"));
}

#[test]
fn tracing_severity_inferred_from_body() {
    // rsyslog default format carries no PRI; severity must be inferred.
    let line = "2026-06-13T19:26:55+00:00 debian spotflowd[2016]: \
        2026-06-13T19:26:54Z  WARN spotflowd::mqtt: connection lost";
    let e = parse_line(line);
    assert_eq!(e.severity, Some(Severity::Warning));
}

#[test]
fn tracing_severity_error_inferred() {
    let line = "2026-06-13T19:26:55+00:00 debian spotflowd[2016]: \
        2026-06-13T19:26:54Z ERROR spotflowd::buf: write failed";
    let e = parse_line(line);
    assert_eq!(e.severity, Some(Severity::Error));
}

#[test]
fn non_tracing_body_leaves_severity_none() {
    // rsyslog default line whose body is a plain message, not tracing format.
    let line = "2026-06-13T19:26:55+00:00 debian nginx[100]: GET / HTTP/1.1 200";
    let e = parse_line(line);
    assert_eq!(e.severity, None);
}

// --- B2: BOM stripping ---

#[test]
fn rfc5424_utf8_bom_stripped() {
    // B2: the real UTF-8 BOM (U+FEFF) must be removed from the body.
    let line = "<13>1 2026-06-12T10:00:00Z - - - - - \u{FEFF}hello";
    let e = try_rfc5424(line).unwrap();
    assert_eq!(e.body, "hello");
}

#[test]
fn rfc5424_text_bom_not_stripped() {
    // B2: a message that literally starts with "BOM" must not be truncated.
    let line = "<13>1 2026-06-12T10:00:00Z - - - - - BOMber command";
    let e = try_rfc5424(line).unwrap();
    assert_eq!(e.body, "BOMber command");
}

// --- B3: RFC 3164 space-padded single-digit days ---

#[test]
fn rfc3164_space_padded_day_labels_correct() {
    // B3: "Jun  1" (two spaces) must not shift hostname/process/pid tokens.
    let line = "<13>Jun  1 10:00:00 myhost myapp[999]: actual message";
    let e = try_rfc3164(line).unwrap();
    assert_eq!(e.body, "actual message");
    assert_eq!(label_str(&e, "hostname").as_deref(), Some("myhost"));
    assert_eq!(label_str(&e, "process").as_deref(), Some("myapp"));
    assert_eq!(label_int(&e, "pid"), Some(999));
}
