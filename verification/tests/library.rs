use ciborium::value::Value as V;
use spotflowd::cbor::{encode_map, CborItem};
use spotflowd::config::{Config, ConfigError, DeviceConfig};
use spotflowd::log_entry::{LabelValue, LogEntry, Severity};
use spotflowd::mqtt::{encode_entry, on_mqtt_event, MqttEvent, MqttReaction, INGEST_TOPIC};
use spotflowd::number::{digits_of, padded_digits_of, read_i64, read_unsigned};
use spotflowd::order::is_before;
use spotflowd::split::{split_fields, split_lines, split_words};
use spotflowd::string_map::StringMap;
use spotflowd::text::{
    from_chars, is_ascii_space, is_space, starts_with, to_chars, trimmed, without_leading_space,
};

fn chars(s: &str) -> Vec<char> {
    s.chars().collect()
}

fn strings(v: Vec<&[char]>) -> Vec<String> {
    v.into_iter().map(|s| s.iter().collect()).collect()
}

// --- text ---

#[test]
fn texts_to_characters_and_back() {
    for s in ["", "abc", "é\u{1F600}ß\n"] {
        assert_eq!(to_chars(s), chars(s));
        assert_eq!(from_chars(&chars(s)), s);
    }
}

#[test]
fn whitespace_is_that_of_the_standard_library() {
    for n in 0..=0x10ffffu32 {
        if let Some(c) = char::from_u32(n) {
            assert_eq!(is_space(c), c.is_whitespace(), "{n:x}");
            assert_eq!(is_ascii_space(c), c.is_ascii_whitespace(), "{n:x}");
        }
    }
}

#[test]
fn trimming_is_that_of_the_standard_library() {
    for s in ["", " a ", "\u{a0}x\u{3000}", "no", "\n\t", "  two words "] {
        assert_eq!(from_chars(trimmed(&chars(s))), s.trim());
        assert_eq!(from_chars(without_leading_space(&chars(s))), s.trim_start());
    }
    assert!(starts_with(&chars("thermal_zone0"), "thermal_zone"));
    assert!(!starts_with(&chars("therm"), "thermal_zone"));
}

#[test]
fn splitting_is_that_of_the_standard_library() {
    for s in ["", " ", "a b  c", "\ta\nb\u{c}c\r", "x\u{a0}y z", " lead", "trail ", "a\r\nb\n\nc\r"] {
        let c = chars(s);
        let words: Vec<&str> = s.split_ascii_whitespace().collect();
        assert_eq!(strings(split_words(&c)), words);
        let lines: Vec<&str> = s.lines().collect();
        assert_eq!(strings(split_lines(&c)), lines);
        for n in 1..5 {
            let fields: Vec<&str> = s.splitn(n, ' ').collect();
            assert_eq!(strings(split_fields(&c, n)), fields);
        }
    }
}

#[test]
fn numbers_are_those_of_the_standard_library() {
    for s in [
        "", "0", "+", "-", "+7", "-7", "--1", "007", "18446744073709551615",
        "18446744073709551616", "255", "256", "9223372036854775807", "9223372036854775808",
        "-9223372036854775808", "-9223372036854775809", "1a", " 1", "１",
    ] {
        let c = chars(s);
        assert_eq!(read_unsigned(&c, u64::MAX), s.parse::<u64>().ok(), "{s}");
        assert_eq!(read_unsigned(&c, 255).map(|n| n as u8), s.parse::<u8>().ok(), "{s}");
        assert_eq!(read_i64(&c), s.parse::<i64>().ok(), "{s}");
    }
    for n in [0, 7, 10, 99, 1234567890, u64::MAX] {
        assert_eq!(from_chars(&digits_of(n)), n.to_string());
        assert_eq!(from_chars(&padded_digits_of(n, 10)), format!("{n:010}"));
    }
}

#[test]
fn order_is_that_of_the_standard_library() {
    let words = ["", "a", "ab", "b", "B", "é", "\u{ffff}", "\u{10000}", "aé"];
    for a in words {
        for b in words {
            assert_eq!(is_before(a, b), a < b, "{a} {b}");
        }
    }
}

#[test]
fn string_map_works_as_a_map() {
    let mut m: StringMap<u32> = StringMap::new();
    for (i, k) in ["m", "c", "x", "c", "a"].iter().enumerate() {
        m.insert(k.to_string(), i as u32);
    }
    assert_eq!(m.len(), 4);
    assert_eq!(m.get("c"), Some(&3));
    assert_eq!(m.get("b"), None);
    assert!(m.contains_key("x"));
    assert_eq!(m.remove("m"), Some(0));
    assert_eq!(m.remove("m"), None);
    assert_eq!(m.key_at(0), "a");
    assert_eq!(*m.value_at(2), 2);
    let copy = m.clone();
    let pairs = m.into_pairs();
    assert_eq!(pairs, vec![("a".to_string(), 4), ("c".to_string(), 3), ("x".to_string(), 2)]);
    assert_eq!(copy.into_pairs(), pairs);
}

// --- configuration ---

fn config() -> Config {
    let device = DeviceConfig { id: "my-device-001".to_string(), ingest_key: "sk_x".to_string() };
    Config::for_device(device, true)
}

#[test]
fn minimal_configuration_has_defaults() {
    let c = config();
    assert!(c.validate().is_ok());
    assert_eq!((c.mqtt.broker.as_str(), c.mqtt.port, c.mqtt.keepalive_secs), ("mqtt.spotflow.io", 8883, 60));
    assert!(c.sources.journald && c.sources.syslog);
    assert_eq!(c.sources.syslog_path, "/var/log/syslog");
    assert_eq!(c.buffer.memory_max_entries, 1000);
    assert_eq!(c.buffer.disk_path, "/var/lib/spotflow/spool");
    assert_eq!((c.buffer.disk_max_size_mb, c.buffer.disk_chunk_max_entries), (64, 200));
    let device = DeviceConfig { id: "d".to_string(), ingest_key: "k".to_string() };
    assert_eq!(Config::for_device(device, false).sources.syslog_path, "/var/log/messages");
}

#[test]
fn bad_configurations_are_refused() {
    let mut c = config();
    c.buffer.disk_chunk_max_entries = 0;
    assert_eq!(c.validate(), Err(ConfigError::NoChunkEntries));
    c.buffer.memory_max_entries = 0;
    assert_eq!(c.validate(), Err(ConfigError::NoMemoryEntries));
    c.device.ingest_key = String::new();
    assert_eq!(c.validate(), Err(ConfigError::EmptyIngestKey));
    c.device.id = String::new();
    assert_eq!(c.validate(), Err(ConfigError::EmptyDeviceId));
    assert_eq!(ConfigError::EmptyDeviceId.message(), "device.id must not be empty");
    assert_eq!(ConfigError::EmptyIngestKey.message(), "device.ingest_key must not be empty");
    assert_eq!(ConfigError::NoMemoryEntries.message(), "buffer.memory_max_entries must be > 0");
    assert_eq!(ConfigError::NoChunkEntries.message(), "buffer.disk_chunk_max_entries must be > 0");
}

// --- messages ---

fn decoded(bytes: &[u8]) -> Vec<(V, V)> {
    match ciborium::from_reader(bytes).unwrap() {
        V::Map(m) => m,
        _ => panic!("expected map"),
    }
}

fn uint(n: u64) -> V {
    V::Integer(n.into())
}

#[test]
fn log_entry_is_encoded() {
    let mut e = LogEntry {
        body: "hello".to_string(),
        severity: Some(Severity::Error),
        timestamp_ms: Some(1_700_000_000_000),
        uptime_ms: Some(5),
        source: "test".to_string(),
        labels: StringMap::new(),
    };
    e.labels.insert("source".to_string(), LabelValue::Str("test".to_string()));
    assert_eq!(
        decoded(&encode_entry(&e).unwrap()),
        vec![
            (uint(1), V::Text("hello".to_string())),
            (uint(4), uint(60)),
            (uint(6), uint(5)),
            (uint(7), uint(1_700_000_000_000)),
        ]
    );
    e.severity = None;
    e.uptime_ms = None;
    e.timestamp_ms = None;
    let map = decoded(&encode_entry(&e).unwrap());
    assert_eq!(map, vec![(uint(1), V::Text("hello".to_string()))]);
    assert_eq!(INGEST_TOPIC, "ingest-cbor");
}

#[test]
fn every_kind_of_item_is_encoded() {
    let entries = vec![
        (CborItem::Text("k".to_string()), CborItem::Uint(u64::MAX)),
        (CborItem::Bytes(vec![1, 2]), CborItem::Bool(false)),
    ];
    assert_eq!(
        decoded(&encode_map(&entries).unwrap()),
        vec![
            (V::Text("k".to_string()), uint(u64::MAX)),
            (V::Bytes(vec![1, 2]), V::Bool(false)),
        ]
    );
}

#[test]
fn connection_is_tracked() {
    let on = on_mqtt_event;
    assert_eq!(on(false, MqttEvent::Accepted), (true, MqttReaction::ReportConnected));
    assert_eq!(on(true, MqttEvent::Other), (true, MqttReaction::Continue));
    assert_eq!(on(false, MqttEvent::Other), (false, MqttReaction::Continue));
    assert_eq!(on(true, MqttEvent::Failed), (false, MqttReaction::ReportLost));
    assert_eq!(on(false, MqttEvent::Failed), (false, MqttReaction::KeepTrying));
}
