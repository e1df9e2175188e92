use ciborium::value::Value as V;
use spotflowd::config::CrashdumpConfig;
use spotflowd::sources::crashdump::{
    chunk_fields, core_dump_id, encode_chunk, kernel_build_id, matches_kind,
    Scan, ScanAction, ScanEvent, State, STATE_RETENTION_SECS,
};

// --- core_dump_id ---

#[test]
fn core_dump_id_is_deterministic() {
    // Same record identity → same id (so retries are idempotent).
    assert_eq!(
        core_dump_id("dmesg-ramoops-0", 1_700_000_000),
        core_dump_id("dmesg-ramoops-0", 1_700_000_000)
    );
}

#[test]
fn core_dump_id_varies_by_name_and_mtime() {
    let base = core_dump_id("dmesg-ramoops-0", 1_700_000_000);
    assert_ne!(base, core_dump_id("dmesg-ramoops-1", 1_700_000_000));
    assert_ne!(base, core_dump_id("dmesg-ramoops-0", 1_700_000_001));
}

#[test]
fn core_dump_id_is_always_positive_uint() {
    // Top bit masked off — safe as a signed or unsigned integer on the wire.
    assert_eq!(core_dump_id("console-efi-0", u64::MAX) >> 63, 0);
}

/// The id against FNV-1a written out over name and little-endian time.
#[test]
fn core_dump_id_is_masked_fnv() {
    for (name, mtime) in [("dmesg-ramoops-0", 1_700_000_000u64), ("", 0), ("ä-0", u64::MAX)] {
        let mut h: u64 = 0xcbf2_9ce4_8422_2325;
        for b in name.bytes().chain(mtime.to_le_bytes()) {
            h ^= b as u64;
            h = h.wrapping_mul(0x0000_0100_0000_01b3);
        }
        assert_eq!(core_dump_id(name, mtime), h & 0x7fff_ffff_ffff_ffff);
    }
}

// --- matches_kind ---

#[test]
fn matches_kind_by_prefix() {
    let kinds = vec!["dmesg".to_string(), "console".to_string()];
    assert!(matches_kind("dmesg-ramoops-0", &kinds));
    assert!(matches_kind("dmesg-efi-140000000000000", &kinds));
    assert!(matches_kind("console-ramoops-0", &kinds));
    assert!(!matches_kind("pmsg-ramoops-0", &kinds));
    assert!(!matches_kind("ftrace-ramoops-0", &kinds));
}

#[test]
fn kernel_build_id_is_trimmed() {
    assert_eq!(kernel_build_id("6.1.0-13-amd64\n"), Some("6.1.0-13-amd64".to_string()));
    assert_eq!(kernel_build_id(" \n"), None);
}

// --- encode_chunk ---

fn get(map: &[(V, V)], key: u64) -> Option<&V> {
    map.iter().find_map(|(k, v)| match k {
        V::Integer(i) if u64::try_from(*i).ok() == Some(key) => Some(v),
        _ => None,
    })
}

#[test]
fn encode_chunk_has_required_keys() {
    let payload = encode_chunk(42, 0, b"panic backtrace", false, Some("6.1.0")).unwrap();
    let val: V = ciborium::from_reader(&payload[..]).unwrap();
    let map = match &val {
        V::Map(m) => m,
        _ => panic!("expected map"),
    };
    // messageType = 2 (CORE_DUMP_CHUNK)
    assert_eq!(get(map, 0), Some(&V::Integer(2.into())));
    // coreDumpId, chunkOrdinal
    assert_eq!(get(map, 9), Some(&V::Integer(42.into())));
    assert_eq!(get(map, 10), Some(&V::Integer(0.into())));
    // content is raw bytes (bstr), not text
    assert_eq!(get(map, 11), Some(&V::Bytes(b"panic backtrace".to_vec())));
    // os = "Linux"
    assert_eq!(get(map, 15), Some(&V::Text("Linux".to_string())));
    // buildId present
    assert_eq!(get(map, 14), Some(&V::Text("6.1.0".to_string())));
    // isLastChunk omitted on non-final chunk
    assert_eq!(get(map, 12), None);
}

#[test]
fn encode_chunk_last_sets_is_last_and_omits_buildid_when_none() {
    let payload = encode_chunk(1, 3, b"x", true, None).unwrap();
    let val: V = ciborium::from_reader(&payload[..]).unwrap();
    let map = match &val {
        V::Map(m) => m,
        _ => panic!("expected map"),
    };
    assert_eq!(get(map, 12), Some(&V::Bool(true)));
    assert_eq!(get(map, 14), None);
}

/// Whatever the length of the content, a chunk reads back as what was put in.
#[test]
fn chunk_reads_back() {
    for len in [0usize, 1, 23, 24, 4095, 4096, 4097, 70_000] {
        let content: Vec<u8> = (0..len).map(|i| (i * 7 % 256) as u8).collect();
        for is_last in [false, true] {
            let payload = encode_chunk(u64::MAX, 5, &content, is_last, Some("")).unwrap();
            let V::Map(map) = ciborium::from_reader(&payload[..]).unwrap() else {
                panic!("expected map")
            };
            assert_eq!(get(&map, 9), Some(&V::Integer(u64::MAX.into())));
            assert_eq!(get(&map, 11), Some(&V::Bytes(content.clone())));
            assert_eq!(get(&map, 12), if is_last { Some(&V::Bool(true)) } else { None });
            assert_eq!(get(&map, 14), Some(&V::Text(String::new())));
            assert_eq!(map.len(), if is_last { 7 } else { 6 });
        }
    }
}

#[test]
fn chunk_has_five_fields_at_least() {
    assert_eq!(chunk_fields(9, 0, b"ab", false, None).len(), 5);
}

// --- State ---

#[test]
fn state_dedup_and_prune() {
    let mut s = State::default();
    s.insert(100, 1000);
    s.insert(100, 2000); // duplicate id ignored
    s.insert(200, 1000);
    assert!(s.contains(100));
    assert!(s.contains(200));
    assert_eq!(s.delivered.len(), 2);

    // prune drops anything older than the retention window.
    let now = 1000 + STATE_RETENTION_SECS + 1;
    s.prune(now);
    assert!(s.delivered.is_empty());
}

#[test]
fn prune_keeps_what_is_at_the_limit() {
    let mut s = State::default();
    s.insert(1, 1000);
    s.insert(2, 1001);
    s.prune(1001 + STATE_RETENTION_SECS);
    assert!(!s.contains(1));
    assert!(s.contains(2));
    s.prune(0);
    assert!(s.contains(2));
}

// --- Scan ---

fn config(delete: bool) -> CrashdumpConfig {
    CrashdumpConfig {
        paths: vec!["/sys/fs/pstore".to_string()],
        kinds: vec!["dmesg".to_string()],
        max_bytes: 5,
        chunk_bytes: 2,
        poll_interval_secs: 60,
        delete_after_capture: delete,
    }
}

fn found(name: &str, is_file: bool) -> ScanEvent {
    ScanEvent::Found { name: name.to_string(), is_file, mtime: 7 }
}

#[test]
fn scan_delivers_a_record_once() {
    let cfg = config(true);
    let mut state = State::default();
    let build = Some("6.1.0");
    let (scan, action) = Scan::new().step(&cfg, build, &mut state, found("pmsg-0", true));
    assert!(matches!(action, ScanAction::Next));
    let (scan, action) = scan.step(&cfg, build, &mut state, found("dmesg-0", false));
    assert!(matches!(action, ScanAction::Next));
    let (scan, action) = scan.step(&cfg, build, &mut state, found("dmesg-0", true));
    assert!(matches!(action, ScanAction::Read));
    let id = core_dump_id("dmesg-0", 7);
    let mut event = ScanEvent::Content(b"abcdefg".to_vec());
    let mut scan = scan;
    // Five of seven bytes, in chunks of two.
    for (i, content) in [&b"ab"[..], b"cd", b"e"].iter().enumerate() {
        assert!(!state.contains(id));
        let (next, action) = scan.step(&cfg, build, &mut state, event);
        let expected = encode_chunk(id, i as u64, content, i == 2, build).unwrap();
        assert!(matches!(action, ScanAction::Publish(payload) if payload == expected));
        scan = next;
        event = ScanEvent::Published(1000);
    }
    let (scan, action) = scan.step(&cfg, build, &mut state, event);
    assert!(matches!(action, ScanAction::Save { delete: true }));
    assert!(state.contains(id));
    assert_eq!(state.delivered[0].ts, 1000);
    // Seen again: it is deleted, not sent.
    let (scan, action) = scan.step(&cfg, build, &mut state, found("dmesg-0", true));
    assert!(matches!(action, ScanAction::Delete));
    let (_, action) = scan.step(&config(false), build, &mut state, found("dmesg-0", true));
    assert!(matches!(action, ScanAction::Next));
}

#[test]
fn scan_stops_where_publishing_fails() {
    let cfg = config(true);
    let mut state = State::default();
    let (scan, _) = Scan::new().step(&cfg, None, &mut state, found("dmesg-1", true));
    let (scan, _) = scan.step(&cfg, None, &mut state, ScanEvent::Content(b"abc".to_vec()));
    let (scan, _) = scan.step(&cfg, None, &mut state, ScanEvent::Published(5));
    let (scan, action) = scan.step(&cfg, None, &mut state, ScanEvent::PublishFailed);
    assert!(matches!(action, ScanAction::Stop));
    assert!(state.delivered.is_empty());
    // The next pass starts the record anew.
    let (scan, action) = scan.step(&cfg, None, &mut state, found("dmesg-1", true));
    assert!(matches!(action, ScanAction::Read));
    let (scan, action) = scan.step(&cfg, None, &mut state, ScanEvent::Unreadable);
    assert!(matches!(action, ScanAction::Next));
    let (scan, _) = scan.step(&cfg, None, &mut state, found("dmesg-1", true));
    let (_, action) = scan.step(&cfg, None, &mut state, ScanEvent::Content(vec![]));
    assert!(matches!(action, ScanAction::Next));
}
