use spotflowd::buffer::{Buffer, Flush, FlushStep};
use spotflowd::chunks::split_chunks;
use spotflowd::config::BufferConfig;
use spotflowd::log_entry::{LogEntry, Severity};
use spotflowd::spool::{
    highest_sequence, is_chunk_file, newest_chunk, next_chunk_path, oldest_chunk,
    spool_files_newest_first, total_spool_bytes, write_chunk_step, SpoolStep,
};
use spotflowd::string_map::StringMap;

fn make_cfg(memory_max: usize, chunk_max: usize) -> BufferConfig {
    BufferConfig {
        memory_max_entries: memory_max,
        disk_path: "/tmp/spool".to_string(),
        disk_max_size_mb: 64,
        disk_chunk_max_entries: chunk_max,
    }
}

fn entry(body: &str) -> LogEntry {
    LogEntry {
        body: body.to_string(),
        severity: None,
        timestamp_ms: None,
        uptime_ms: None,
        source: "test".to_string(),
        labels: StringMap::new(),
    }
}

fn names(list: &[&str]) -> Vec<String> {
    list.iter().map(|s| s.to_string()).collect()
}

fn bodies(entries: &[LogEntry]) -> Vec<String> {
    entries.iter().map(|e| e.body.clone()).collect()
}

/// A spool directory in memory: names and the bodies of the entries in each chunk.
struct Disk {
    files: Vec<(String, Vec<String>, Option<Severity>)>,
}

impl Disk {
    fn names(&self) -> Vec<String> {
        self.files.iter().map(|f| f.0.clone()).collect()
    }

    fn write_all(&mut self, buf: &mut Buffer, mut step: FlushStep) {
        while let FlushStep::Write(flush) = step {
            let name = next_chunk_path(&self.names());
            let chunk = flush.chunk();
            self.files.push((name, bodies(chunk), chunk[0].severity));
            step = buf.chunk_written(flush);
        }
    }
}

/// Sequence number must not reuse a number that was deleted.
#[test]
fn chunk_path_no_collision_after_delete() {
    let mut files = names(&["0000000001.cbor", "0000000002.cbor"]);
    files.remove(0);
    // Highest remaining = 2, so next must be 3.
    assert_eq!(next_chunk_path(&files), "0000000003.cbor");
}

/// Flush must honour disk_chunk_max_entries.
#[test]
fn flush_splits_into_chunks() {
    let mut disk = Disk { files: vec![] };
    let mut buf = Buffer::new(make_cfg(100, 3), &disk.names());
    for i in 0..7 {
        let step = buf.push(entry(&format!("msg{i}")));
        assert!(matches!(step, FlushStep::Done));
    }
    let step = buf.flush_memory_to_disk();
    disk.write_all(&mut buf, step);
    assert_eq!(buf.memory_len(), 0);

    let chunks = spool_files_newest_first(&disk.names());
    // ceil(7/3) = 3 chunks
    assert_eq!(chunks.len(), 3);
    assert_eq!(disk.files[0].0, "0000000001.cbor");
    assert_eq!(disk.files[0].1.len(), 3);
    assert_eq!(disk.files[1].0, "0000000002.cbor");
    assert_eq!(disk.files[1].1.len(), 3);
    assert_eq!(disk.files[2].0, "0000000003.cbor");
    assert_eq!(disk.files[2].1.len(), 1);
}

/// Memory overflow triggers a flush and new entries continue to accumulate.
#[test]
fn memory_overflow_flushes_to_disk() {
    let mut disk = Disk { files: vec![] };
    let mut buf = Buffer::new(make_cfg(3, 10), &disk.names());
    for body in ["a", "b", "c", "d"] {
        // len == memory_max == 3 before the last one; that push triggers a flush
        let step = buf.push(entry(body));
        disk.write_all(&mut buf, step);
    }

    assert_eq!(buf.memory_len(), 1); // only "d" in memory
    let chunk = buf.next_disk_chunk(&disk.names()).unwrap();
    let file = disk.files.iter().find(|f| f.0 == chunk).unwrap();
    assert_eq!(file.1.len(), 3);
    assert_eq!(file.1[0], "a");
    assert_eq!(file.1[2], "c");
}

/// Drain memory returns all entries and leaves memory empty.
#[test]
fn drain_memory_empties_buffer() {
    let mut buf = Buffer::new(make_cfg(100, 10), &vec![]);
    buf.push(entry("x"));
    buf.push(entry("y"));
    let drained = buf.drain_memory();
    assert_eq!(drained.len(), 2);
    assert_eq!(buf.memory_len(), 0);
    assert_eq!(bodies(&drained), vec!["x", "y"]);
}

/// The severity of an entry goes into its chunk.
#[test]
fn chunk_keeps_severity() {
    let mut disk = Disk { files: vec![] };
    let mut buf = Buffer::new(make_cfg(100, 10), &disk.names());
    let mut e = entry("hello");
    e.severity = Some(Severity::Error);
    buf.push(e);
    let step = buf.flush_memory_to_disk();
    disk.write_all(&mut buf, step);
    let chunk = buf.next_disk_chunk(&disk.names()).unwrap();
    let file = disk.files.iter().find(|f| f.0 == chunk).unwrap();
    assert_eq!(file.2, Some(Severity::Error));
}

#[test]
fn flush_of_empty_memory_does_nothing() {
    let mut buf = Buffer::new(make_cfg(100, 10), &vec![]);
    assert!(matches!(buf.flush_memory_to_disk(), FlushStep::Done));
    assert!(!buf.should_look_for_chunks());
}

/// Where a write fails, what was not written is gone, the waiting entry too.
#[test]
fn failed_write_loses_the_flush() {
    let mut buf = Buffer::new(make_cfg(2, 1), &vec![]);
    buf.push(entry("a"));
    buf.push(entry("b"));
    let step = buf.push(entry("c"));
    let flush: Flush = match step {
        FlushStep::Write(flush) => flush,
        FlushStep::Done => panic!("memory was full"),
    };
    assert_eq!(bodies(flush.chunk()), vec!["a"]);
    drop(flush);
    assert_eq!(buf.memory_len(), 0);
    assert!(!buf.should_look_for_chunks());
}

/// No directory is listed until a chunk was written or found.
#[test]
fn chunks_are_expected_only_where_there_may_be_some() {
    let mut buf = Buffer::new(make_cfg(2, 1), &names(&["metrics_seq.cbor", "12.txt"]));
    assert!(!buf.should_look_for_chunks());
    assert_eq!(buf.next_disk_chunk(&names(&["0000000001.cbor"])), None);

    let mut buf = Buffer::new(make_cfg(2, 1), &names(&["0000000009.cbor", "0000000010.cbor"]));
    assert!(buf.should_look_for_chunks());
    let files = names(&["0000000009.cbor", "0000000010.cbor"]);
    assert_eq!(buf.next_disk_chunk(&files), Some("0000000010.cbor".to_string()));
    assert_eq!(buf.next_disk_chunk(&vec![]), None);
    assert!(!buf.should_look_for_chunks());
    assert_eq!(buf.cfg().disk_max_size_mb, 64);
}

#[test]
fn chunk_files_have_a_numeric_stem() {
    assert!(is_chunk_file("0000000001.cbor"));
    assert!(is_chunk_file("7.cbor"));
    assert!(!is_chunk_file("metrics_seq.cbor"));
    assert!(!is_chunk_file("0000000001.cbor.tmp"));
    assert!(!is_chunk_file("0000000001"));
    assert!(!is_chunk_file("00x.cbor"));
    assert!(!is_chunk_file(".cbor"));
}

#[test]
fn next_number_is_behind_the_highest() {
    assert_eq!(next_chunk_path(&vec![]), "0000000001.cbor");
    assert_eq!(highest_sequence(&names(&["0000000041.cbor", "5.cbor", "x.cbor", "99.tmp"])), 41);
    assert_eq!(next_chunk_path(&names(&["0000000041.cbor"])), "0000000042.cbor");
    assert_eq!(next_chunk_path(&names(&["9999999999.cbor"])), "10000000000.cbor");
}

#[test]
fn spool_is_listed_newest_first() {
    let files = names(&["0000000002.cbor", "metrics_seq.cbor", "0000000010.cbor", "0000000001.cbor"]);
    assert_eq!(
        spool_files_newest_first(&files),
        names(&["0000000010.cbor", "0000000002.cbor", "0000000001.cbor"])
    );
    assert_eq!(newest_chunk(&files), Some("0000000010.cbor".to_string()));
    assert_eq!(oldest_chunk(&files), Some("0000000001.cbor".to_string()));
    assert_eq!(newest_chunk(&names(&["a"])), None);
    assert_eq!(oldest_chunk(&vec![]), None);
}

#[test]
fn full_spool_drops_the_oldest_chunk() {
    let files = names(&["0000000002.cbor", "0000000001.cbor", "metrics_seq.cbor"]);
    let mib = 1024 * 1024;
    assert_eq!(total_spool_bytes(&vec![1, 2, 3]), 6);
    let step = |sizes: Vec<u64>, new_bytes: u64| write_chunk_step(&files, &sizes, new_bytes, 2);
    match step(vec![mib, mib, 1], 1) {
        SpoolStep::Drop(name) => assert_eq!(name, "0000000001.cbor"),
        SpoolStep::Write(_) => panic!("the spool is over its limit"),
    }
    // At the limit there is no room for another chunk.
    match step(vec![mib, mib, 0], 1) {
        SpoolStep::Drop(name) => assert_eq!(name, "0000000001.cbor"),
        SpoolStep::Write(_) => panic!("the new chunk goes beyond the limit"),
    }
    // A chunk that just fits is written.
    match step(vec![mib, mib - 10, 0], 10) {
        SpoolStep::Write(name) => assert_eq!(name, "0000000003.cbor"),
        SpoolStep::Drop(_) => panic!("the new chunk fits"),
    }
    // No sum is too great to be told.
    assert!(matches!(step(vec![mib, mib, 0], u64::MAX), SpoolStep::Drop(_)));
    // Where there is no chunk to drop, the chunk is written all the same.
    match write_chunk_step(&names(&["other"]), &vec![5 * mib], 1, 2) {
        SpoolStep::Write(name) => assert_eq!(name, "0000000001.cbor"),
        SpoolStep::Drop(_) => panic!("there is nothing to drop"),
    }
}

/// However many chunks are written, the spool stays within its limit, and the newest
/// ones are left.
#[test]
fn spool_stays_within_its_limit() {
    let mib: u64 = 1024 * 1024;
    let mut files: Vec<(String, u64)> = vec![];
    for n in 0..20u64 {
        let new_bytes = mib / 4 + n;
        loop {
            let names: Vec<String> = files.iter().map(|f| f.0.clone()).collect();
            let sizes: Vec<u64> = files.iter().map(|f| f.1).collect();
            match write_chunk_step(&names, &sizes, new_bytes, 1) {
                SpoolStep::Drop(name) => files.retain(|f| f.0 != name),
                SpoolStep::Write(name) => {
                    files.push((name, new_bytes));
                    break;
                }
            }
        }
        assert!(files.iter().map(|f| f.1).sum::<u64>() <= mib);
    }
    let left: Vec<&str> = files.iter().map(|f| f.0.as_str()).collect();
    assert_eq!(left, vec!["0000000018.cbor", "0000000019.cbor", "0000000020.cbor"]);
}

/// Chunks go by their numbers, also where these have more than ten digits.
#[test]
fn chunks_go_by_number() {
    let files = names(&["9999999999.cbor", "10000000000.cbor", "metrics_seq.cbor"]);
    assert_eq!(
        spool_files_newest_first(&files),
        names(&["10000000000.cbor", "9999999999.cbor"])
    );
    assert_eq!(newest_chunk(&files), Some("10000000000.cbor".to_string()));
    assert_eq!(oldest_chunk(&files), Some("9999999999.cbor".to_string()));
    let files = names(&["2.cbor", "0000000001.cbor", "123456789012345678901234567890.cbor"]);
    assert_eq!(
        spool_files_newest_first(&files),
        names(&["123456789012345678901234567890.cbor", "2.cbor", "0000000001.cbor"])
    );
}

/// A chunk on disk is never overlooked while only the buffer writes chunks.
#[test]
fn chunks_on_disk_are_expected() {
    let mut disk = Disk { files: vec![] };
    let mut buf = Buffer::new(make_cfg(1, 1), &disk.names());
    for round in 0..3 {
        assert_eq!(buf.next_disk_chunk(&disk.names()), None);
        for i in 0..3 {
            let step = buf.push(entry(&format!("{round}-{i}")));
            disk.write_all(&mut buf, step);
        }
        while let Some(name) = buf.next_disk_chunk(&disk.names()) {
            assert_eq!(buf.next_disk_chunk(&disk.names()), Some(name.clone()));
            disk.files.retain(|f| f.0 != name);
        }
        assert!(disk.files.is_empty());
    }
}

#[test]
fn pieces_keep_order_and_length() {
    assert_eq!(split_chunks(vec![1, 2, 3, 4, 5], 2), vec![vec![1, 2], vec![3, 4], vec![5]]);
    assert_eq!(split_chunks(Vec::<u8>::new(), 2), Vec::<Vec<u8>>::new());
    assert_eq!(split_chunks(vec![1, 2], 5), vec![vec![1, 2]]);
}
