use spotflowd::buffer::Buffer;
use spotflowd::config::{
    BufferConfig, Config, CrashdumpConfig, DeviceConfig, MetricsCustomConfig,
};
use spotflowd::log_entry::LogEntry;
use spotflowd::orchestrator::{
    tasks_of, Tasks, Tick, TickAction, TickEvent, CHANNEL_CAPACITY, IDLE_SLEEP_MS,
    PUBLISH_BATCH_SIZE,
};
use spotflowd::string_map::StringMap;

fn buffer(spool: &[&str]) -> Buffer {
    let cfg = BufferConfig {
        memory_max_entries: 1000,
        disk_path: "/tmp/spool".to_string(),
        disk_max_size_mb: 64,
        disk_chunk_max_entries: 200,
    };
    Buffer::new(cfg, &names(spool))
}

fn names(list: &[&str]) -> Vec<String> {
    list.iter().map(|s| s.to_string()).collect()
}

fn entry(n: usize) -> LogEntry {
    LogEntry {
        body: format!("msg{n}"),
        severity: None,
        timestamp_ms: None,
        uptime_ms: None,
        source: "test".to_string(),
        labels: StringMap::new(),
    }
}

fn entries(range: std::ops::Range<usize>) -> Vec<LogEntry> {
    range.map(entry).collect()
}

fn is_sleep(action: &TickAction) -> bool {
    matches!(action, TickAction::Sleep(ms) if *ms == IDLE_SLEEP_MS)
}

#[test]
fn waits_while_not_connected() {
    let mut buf = buffer(&["0000000001.cbor"]);
    buf.push(entry(0));
    let (_, action) = Tick::new().step(&mut buf, TickEvent::NotConnected);
    assert!(is_sleep(&action));
    assert_eq!(buf.memory_len(), 1);
    assert_eq!((IDLE_SLEEP_MS, PUBLISH_BATCH_SIZE, CHANNEL_CAPACITY), (200, 200, 4096));
}

#[test]
fn memory_is_published_in_batches() {
    let mut buf = buffer(&["0000000001.cbor"]);
    for e in entries(0..450) {
        buf.push(e);
    }
    let (mut tick, mut action) = Tick::new().step(&mut buf, TickEvent::Connected);
    assert_eq!(buf.memory_len(), 0);
    let mut sent: Vec<String> = vec![];
    let mut lengths = vec![];
    while let TickAction::Publish = action {
        let batch = tick.batch().unwrap();
        lengths.push(batch.len());
        sent.extend(batch.iter().map(|e| e.body.clone()));
        (tick, action) = tick.step(&mut buf, TickEvent::Published);
    }
    assert!(matches!(action, TickAction::Done));
    assert_eq!(lengths, vec![200, 200, 50]);
    let expected: Vec<String> = (0..450).map(|n| format!("msg{n}")).collect();
    assert_eq!(sent, expected);
    assert!(tick.batch().is_none());
}

#[test]
fn failed_batch_from_memory_is_put_back() {
    let mut buf = buffer(&[]);
    for e in entries(0..450) {
        buf.push(e);
    }
    let (tick, _) = Tick::new().step(&mut buf, TickEvent::Connected);
    let (tick, _) = tick.step(&mut buf, TickEvent::Published);
    let (_, action) = tick.step(&mut buf, TickEvent::PublishFailed);
    match action {
        TickAction::PutBack(back, ms) => {
            assert_eq!(back.len(), 200);
            assert_eq!(back[0].body, "msg200");
            assert_eq!(back[199].body, "msg399");
            assert_eq!(ms, IDLE_SLEEP_MS);
        }
        _ => panic!("the batch is put back"),
    }
}

#[test]
fn newest_chunk_is_published_and_deleted() {
    let mut buf = buffer(&["0000000001.cbor", "0000000002.cbor"]);
    let (tick, action) = Tick::new().step(&mut buf, TickEvent::Connected);
    assert!(matches!(action, TickAction::ListSpool));
    let files = names(&["0000000001.cbor", "metrics_seq.cbor", "0000000002.cbor"]);
    let (tick, action) = tick.step(&mut buf, TickEvent::Listed(files));
    assert!(matches!(&action, TickAction::ReadChunk(name) if name == "0000000002.cbor"));
    let (tick, action) = tick.step(&mut buf, TickEvent::Read(entries(0..201)));
    assert!(matches!(action, TickAction::Publish));
    assert_eq!(tick.batch().unwrap().len(), 200);
    let (tick, action) = tick.step(&mut buf, TickEvent::Published);
    assert!(matches!(action, TickAction::Publish));
    assert_eq!(tick.batch().unwrap()[0].body, "msg200");
    let (_, action) = tick.step(&mut buf, TickEvent::Published);
    assert!(matches!(&action, TickAction::DeleteChunk(name) if name == "0000000002.cbor"));
}

#[test]
fn chunk_stays_where_publishing_fails() {
    let mut buf = buffer(&["0000000001.cbor"]);
    let (tick, _) = Tick::new().step(&mut buf, TickEvent::Connected);
    let (tick, _) = tick.step(&mut buf, TickEvent::Listed(names(&["0000000001.cbor"])));
    let (tick, _) = tick.step(&mut buf, TickEvent::Read(entries(0..5)));
    let (_, action) = tick.step(&mut buf, TickEvent::PublishFailed);
    assert!(matches!(action, TickAction::Done));
    assert!(buf.should_look_for_chunks());
}

#[test]
fn unreadable_and_empty_chunks_are_deleted() {
    for event in [TickEvent::Unreadable, TickEvent::Read(vec![])] {
        let mut buf = buffer(&["0000000001.cbor"]);
        let (tick, _) = Tick::new().step(&mut buf, TickEvent::Connected);
        let (tick, _) = tick.step(&mut buf, TickEvent::Listed(names(&["0000000001.cbor"])));
        let (_, action) = tick.step(&mut buf, event);
        assert!(matches!(&action, TickAction::DeleteChunk(name) if name == "0000000001.cbor"));
    }
}

#[test]
fn waits_where_there_is_nothing() {
    let mut buf = buffer(&[]);
    let (_, action) = Tick::new().step(&mut buf, TickEvent::Connected);
    assert!(is_sleep(&action));
    // The last chunk is gone.
    let mut buf = buffer(&["0000000001.cbor"]);
    let (tick, _) = Tick::new().step(&mut buf, TickEvent::Connected);
    let (_, action) = tick.step(&mut buf, TickEvent::Listed(vec![]));
    assert!(is_sleep(&action));
    assert!(!buf.should_look_for_chunks());
    // The directory cannot be listed.
    let mut buf = buffer(&["0000000001.cbor"]);
    let (tick, _) = Tick::new().step(&mut buf, TickEvent::Connected);
    let (_, action) = tick.step(&mut buf, TickEvent::ListFailed);
    assert!(is_sleep(&action));
    assert!(buf.should_look_for_chunks());
}

#[test]
fn tasks_follow_the_configuration() {
    let device = DeviceConfig { id: "d".to_string(), ingest_key: "k".to_string() };
    let mut cfg = Config::for_device(device, true);
    cfg.metrics.custom = Some(MetricsCustomConfig { socket_path: "/run/m.sock".to_string() });
    let quiet = Tasks {
        journald: true,
        syslog: true,
        metrics: false,
        metrics_socket: false,
        crashdump: false,
    };
    assert_eq!(tasks_of(&cfg), quiet);
    cfg.sources.journald = false;
    cfg.metrics.enabled = true;
    cfg.crashdump = Some(CrashdumpConfig {
        paths: vec![],
        kinds: vec![],
        max_bytes: 1,
        chunk_bytes: 1,
        poll_interval_secs: 1,
        delete_after_capture: false,
    });
    let busy = Tasks {
        journald: false,
        syslog: true,
        metrics: true,
        metrics_socket: true,
        crashdump: true,
    };
    assert_eq!(tasks_of(&cfg), busy);
}
