use spotflowd::log_entry::{LabelValue, LogEntry, Severity};
use spotflowd::sources::journald::entry_to_log;
use spotflowd::sources::strip_ansi;
use spotflowd::sources::syslog::{
    infer_tracing_severity, parse_iso8601_ms, parse_line, parse_line_with, parse_priority,
    rfc5424_entry, rsyslog_entry,
};
use spotflowd::sources::tail::{
    on_journal_event, read_syslog_line, JournalAction, JournalEvent, Tail, TailAction, TailEvent,
};
use spotflowd::string_map::StringMap;

fn fields(list: &[(&str, &str)]) -> StringMap<String> {
    StringMap::from_pairs(list.iter().map(|(k, v)| (k.to_string(), v.to_string())).collect())
}

fn text<'a>(entry: &'a LogEntry, key: &str) -> Option<&'a str> {
    match entry.labels.get(key) {
        Some(LabelValue::Str(s)) => Some(s),
        _ => None,
    }
}

// --- escape sequences ---

#[test]
fn escape_sequences_are_stripped() {
    assert_eq!(strip_ansi("\x1b[33mWARN\x1b[0m text"), "WARN text");
    assert_eq!(strip_ansi("#033[2mdim#033[0m"), "dim");
    assert_eq!(strip_ansi("a\x1bMb"), "ab");
    assert_eq!(strip_ansi("a\x1b"), "a");
    assert_eq!(strip_ansi("a\x1b[12;3"), "a");
    assert_eq!(strip_ansi("plain #03 text"), "plain #03 text");
    assert_eq!(strip_ansi("é\x1b[1;31mü\x1b[0m"), "éü");
    // What is left can spell an escaped escape character again.
    assert_eq!(strip_ansi("#0\x1bM33"), "#033");
    // An escape takes the character behind it along, whatever it is; the rest stays.
    assert_eq!(strip_ansi("a\x1béb"), "ab");
    assert_eq!(strip_ansi("ok \x1bé done"), "ok  done");
    assert_eq!(strip_ansi("ok #033\u{1F600} done"), "ok  done");
}

// --- priorities and timestamps ---

#[test]
fn priorities() {
    assert_eq!(parse_priority("34").0, Severity::Critical);
    assert_eq!(parse_priority("3").0, Severity::Error);
    assert_eq!(parse_priority("12").0, Severity::Warning);
    assert_eq!(parse_priority("13").0, Severity::Info);
    assert_eq!(parse_priority("14").0, Severity::Info);
    assert_eq!(parse_priority("15").0, Severity::Debug);
    assert_eq!(parse_priority("256"), (Severity::Info, 13));
    assert_eq!(parse_priority("x"), (Severity::Info, 13));
}

#[test]
fn severity_codes() {
    let codes: Vec<u64> = [
        Severity::Debug,
        Severity::Info,
        Severity::Warning,
        Severity::Error,
        Severity::Critical,
    ]
    .iter()
    .map(|s| s.code())
    .collect();
    assert_eq!(codes, vec![30, 40, 50, 60, 70]);
}

#[test]
fn timestamps() {
    assert_eq!(parse_iso8601_ms("1970-01-01T00:00:01.234Z"), Some(1234));
    assert_eq!(parse_iso8601_ms("2026-06-12T15:26:45+02:00"), Some(1781270805000));
    assert_eq!(parse_iso8601_ms("1969-12-31T23:59:59Z"), None);
    assert_eq!(parse_iso8601_ms("2026-06-12"), None);
}

#[test]
fn severity_in_the_body() {
    assert_eq!(infer_tracing_severity("2026-01-01T00:00:00Z TRACE x: y"), Some(Severity::Debug));
    assert_eq!(infer_tracing_severity("2026-01-01T00:00:00Z  INFO x: y"), Some(Severity::Info));
    assert_eq!(infer_tracing_severity("today INFO x"), None);
    assert_eq!(infer_tracing_severity("2026-01-01T00:00:00Z NOTICE x"), None);
    assert_eq!(infer_tracing_severity(""), None);
}

/// The entry goes by the timestamp it is given.
#[test]
fn given_timestamps_are_used() {
    let line = "<34>1 TS host app 12 - - msg";
    assert_eq!(rfc5424_entry(line, Some(5)).unwrap().timestamp_ms, Some(5));
    assert_eq!(rfc5424_entry(line, None).unwrap().timestamp_ms, None);
    assert!(rsyslog_entry("TS host app: msg", None).is_none());
    let e = rsyslog_entry("TS host app[1]: msg", Some(9)).unwrap();
    assert_eq!((e.timestamp_ms, e.body.as_str()), (Some(9), "msg"));
    let e = parse_line_with("TS host app[1]: msg", None, Some(9));
    assert_eq!(text(&e, "process"), Some("app"));
    let e = parse_line_with("TS host app[1]: msg", None, None);
    assert_eq!(e.body, "TS host app[1]: msg");
}

/// A line put together from parts reads back as the parts.
#[test]
fn lines_read_back() {
    let e = parse_line("<165>1 2026-06-12T15:30:00Z h a 77 id sd a message  with spaces");
    assert_eq!(e.body, "a message  with spaces");
    assert_eq!(e.severity, Some(Severity::Info));
    assert_eq!((text(&e, "hostname"), text(&e, "process")), (Some("h"), Some("a")));
    let e = parse_line("<x>Jun 12 15:30:00 h p[-5]: text");
    assert_eq!(e.severity, Some(Severity::Info));
    assert!(matches!(e.labels.get("pid"), Some(LabelValue::Int(-5))));
    let e = parse_line("<11>Jun 12 15:30:00 h p[5]: key: value");
    assert_eq!(e.body, "key: value");
    assert_eq!(e.severity, Some(Severity::Error));
    let e = parse_line("2026-06-12T15:26:45+02:00 h p[5]: m n");
    assert_eq!(e.body, "m n");
    assert_eq!(text(&e, "source"), Some("syslog"));
}

// --- journal ---

#[test]
fn journal_entry_is_converted() {
    let e = entry_to_log(&fields(&[
        ("MESSAGE", "\x1b[1mhello\x1b[0m"),
        ("PRIORITY", "4"),
        ("__REALTIME_TIMESTAMP", "1700000000123456"),
        ("__MONOTONIC_TIMESTAMP", "5999"),
        ("_HOSTNAME", "box"),
        ("SYSLOG_IDENTIFIER", "kernel"),
        ("_COMM", "comm"),
        ("_PID", "42"),
        ("_SYSTEMD_UNIT", "x.service"),
    ]))
    .unwrap();
    assert_eq!(e.body, "hello");
    assert_eq!(e.severity, Some(Severity::Warning));
    assert_eq!((e.timestamp_ms, e.uptime_ms), (Some(1700000000123), Some(5)));
    assert_eq!(e.source, "journald");
    assert_eq!(text(&e, "source"), Some("journald"));
    assert_eq!(text(&e, "hostname"), Some("box"));
    assert_eq!(text(&e, "process"), Some("kernel"));
    assert_eq!(text(&e, "unit"), Some("x.service"));
    assert!(matches!(e.labels.get("pid"), Some(LabelValue::Int(42))));
}

#[test]
fn journal_entry_needs_a_message() {
    assert!(entry_to_log(&fields(&[("PRIORITY", "4")])).is_none());
    assert!(entry_to_log(&fields(&[("MESSAGE", "\x1b[0m")])).is_none());
    let e = entry_to_log(&fields(&[("MESSAGE", "m"), ("_COMM", "sh"), ("PRIORITY", "x")])).unwrap();
    assert_eq!(text(&e, "process"), Some("sh"));
    assert_eq!(e.severity, None);
    assert_eq!(e.timestamp_ms, None);
}

#[test]
fn journal_loop() {
    let next = |shutdown| on_journal_event(JournalEvent::Next { shutdown });
    assert!(matches!(next(false), JournalAction::Read));
    assert!(matches!(next(true), JournalAction::Stop));
    let entry = JournalEvent::Entry(fields(&[("MESSAGE", "m")]));
    assert!(matches!(on_journal_event(entry), JournalAction::Send(e) if e.body == "m"));
    let entry = JournalEvent::Entry(fields(&[]));
    assert!(matches!(on_journal_event(entry), JournalAction::Continue));
    assert!(matches!(on_journal_event(JournalEvent::End), JournalAction::AwaitChange(200)));
    assert!(matches!(on_journal_event(JournalEvent::ReadFailed), JournalAction::Pause(1000)));
    assert!(matches!(on_journal_event(JournalEvent::Sent), JournalAction::Continue));
    assert!(matches!(on_journal_event(JournalEvent::SendFailed), JournalAction::Stop));
}

// --- following a file ---

#[test]
fn line_ends_are_cut_off() {
    assert_eq!(read_syslog_line("some text\r\n").unwrap().body, "some text");
    assert_eq!(read_syslog_line("some text\n").unwrap().body, "some text");
    assert!(read_syslog_line("\r\n").is_none());
    assert!(read_syslog_line("\n").is_none());
}

#[test]
fn rotated_file_is_reopened() {
    let mut tail = Tail { inode: Some(1) };
    assert!(matches!(tail.step(TailEvent::Next { shutdown: false }), TailAction::Read));
    assert!(matches!(tail.step(TailEvent::End), TailAction::PauseAndLook(200)));
    assert!(matches!(tail.step(TailEvent::Inode(Some(1))), TailAction::Continue));
    assert!(matches!(tail.step(TailEvent::Inode(Some(2))), TailAction::Reopen));
    // As long as opening fails, it is tried again.
    assert!(matches!(tail.step(TailEvent::ReopenFailed), TailAction::Continue));
    assert!(matches!(tail.step(TailEvent::Inode(Some(2))), TailAction::Reopen));
    assert!(matches!(tail.step(TailEvent::Reopened(Some(2))), TailAction::Continue));
    assert!(matches!(tail.step(TailEvent::Inode(Some(2))), TailAction::Continue));
    assert!(matches!(tail.step(TailEvent::Inode(None)), TailAction::Reopen));
}

#[test]
fn lines_are_handed_on() {
    let mut tail = Tail { inode: None };
    let line = TailEvent::Line("<13>Jun 12 15:30:00 h p: text\n".to_string());
    assert!(matches!(tail.step(line), TailAction::Send(e) if e.body == "text"));
    assert!(matches!(tail.step(TailEvent::Line("\n".to_string())), TailAction::Continue));
    assert!(matches!(tail.step(TailEvent::Sent), TailAction::Continue));
    assert!(matches!(tail.step(TailEvent::SendFailed), TailAction::Stop));
    assert!(matches!(tail.step(TailEvent::ReadFailed), TailAction::Pause(1000)));
    assert!(matches!(tail.step(TailEvent::Next { shutdown: true }), TailAction::Stop));
}
