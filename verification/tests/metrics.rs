use ciborium::value::Value as V;
use spotflowd::cbor::Decoded;
use spotflowd::config::{Config, DeviceConfig, MetricGroups, MetricsConfig};
use spotflowd::metrics::aggregator::{load_seq, numbers_from, Aggregator, MAX_STREAMS};
use spotflowd::metrics::collector::{Collector, MountSpace, Snapshot};
use spotflowd::metrics::labels::{sort_labels, stream_key};
use spotflowd::metrics::proc_files::{
    load_words, read_cpu_fields, read_diskstats, read_meminfo, read_net_dev, read_process_count,
    read_thermal_zone, uptime_word, DiskCounters, MemInfo, NetCounters, ThermalEntry,
};
use spotflowd::metrics::publisher::{cbor_number, metric_fields, MetricItem};
use spotflowd::metrics::socket::{incoming_sample, message_on};
use spotflowd::metrics::totals::accumulate;
use spotflowd::metrics::{
    after_tick, MetricSample, MetricValue, ReadyMetric, TickDecision, AGG_1DAY, AGG_1HOUR,
    AGG_1MIN, AGG_NONE,
};
use spotflowd::string_map::StringMap;

const SECOND: u64 = 1_000_000_000;

fn metrics_config(interval: &str) -> MetricsConfig {
    let device = DeviceConfig { id: "d".to_string(), ingest_key: "k".to_string() };
    let mut cfg = Config::for_device(device, true).metrics;
    cfg.aggregation_interval = interval.to_string();
    cfg
}

fn labels(list: &[(&str, &str)]) -> Vec<(String, String)> {
    list.iter().map(|(k, v)| (k.to_string(), v.to_string())).collect()
}

fn sample(name: &str, value: i64, list: &[(&str, &str)]) -> MetricSample {
    MetricSample {
        name: name.to_string(),
        value: MetricValue::Int(value),
        labels: labels(list),
        counter: false,
    }
}

fn double(value: MetricValue) -> u64 {
    let v = match value {
        MetricValue::Int(n) => n as f64,
        MetricValue::Float(bits) => f64::from_bits(bits),
        MetricValue::Percent { part, whole } => part as f64 / whole as f64 * 100.0,
        MetricValue::Thousandths(n) => n as f64 / 1000.0,
    };
    v.to_bits()
}

fn plus(a: u64, b: u64) -> u64 {
    (f64::from_bits(a) + f64::from_bits(b)).to_bits()
}

fn less(a: u64, b: u64) -> bool {
    f64::from_bits(a) < f64::from_bits(b)
}

fn ingest(
    agg: &mut Aggregator,
    samples: Vec<MetricSample>,
    uptime_ms: u64,
    now: u64,
) -> Vec<ReadyMetric> {
    agg.ingest(samples, uptime_ms, now, double, plus, less)
}

fn value(bits: u64) -> f64 {
    f64::from_bits(bits)
}

/// The totals are the sum in order, the least and the greatest; equal values stay.
#[test]
fn totals_are_sum_least_and_greatest() {
    let all = |values: &[f64]| {
        let mut t = None;
        for v in values {
            let bits = MetricValue::Float(v.to_bits());
            t = Some(accumulate(t, bits, &double, &plus, &less));
        }
        let t = t.unwrap();
        (value(t.sum), value(t.min), value(t.max))
    };
    assert_eq!(all(&[2.5]), (2.5, 2.5, 2.5));
    assert_eq!(all(&[2.5, -1.0, 7.25, 7.0]), (15.75, -1.0, 7.25));
    assert_eq!(all(&[1e16, 1.0, 1.0]), (1e16, 1.0, 1e16));
    assert_eq!(all(&[1.0, 1.0, 1e16]), (1e16 + 2.0, 1.0, 1e16));
    // What compares with nothing changes neither least nor greatest.
    let (sum, min, max) = all(&[3.0, f64::NAN, 2.0]);
    assert!(sum.is_nan());
    assert_eq!((min, max), (2.0, 3.0));
}

// --- stream keys ---

#[test]
fn stream_key_without_labels_is_the_name() {
    assert_eq!(stream_key("cpu", &vec![]), "cpu");
}

#[test]
fn stream_key_ignores_label_order() {
    let a = stream_key("m", &labels(&[("b", "2"), ("a", "1")]));
    let b = stream_key("m", &labels(&[("a", "1"), ("b", "2")]));
    assert_eq!(a, "m|a=1|b=2");
    assert_eq!(a, b);
}

#[test]
fn sorting_labels_is_stable() {
    let sorted = sort_labels(&labels(&[("b", "1"), ("a", "2"), ("b", "0"), ("a", "1")]));
    assert_eq!(sorted, labels(&[("a", "2"), ("a", "1"), ("b", "1"), ("b", "0")]));
    // With one key given twice the order of the labels does show in the key.
    assert_ne!(
        stream_key("m", &labels(&[("a", "1"), ("a", "2")])),
        stream_key("m", &labels(&[("a", "2"), ("a", "1")]))
    );
}

/// Keys go by their code points, as strings do.
#[test]
fn labels_sort_as_strings_do() {
    let list = labels(&[("é", ""), ("z", ""), ("a", ""), ("ab", ""), ("", ""), ("\u{10000}", "")]);
    let mut expected = list.clone();
    expected.sort_by(|x, y| x.0.cmp(&y.0));
    assert_eq!(sort_labels(&list), expected);
}

// --- aggregator ---

#[test]
fn interval_names() {
    for name in ["none", "1m", "1h", "1d"] {
        assert!(Aggregator::new(&metrics_config(name), None).is_ok());
    }
    let err = Aggregator::new(&metrics_config("2m"), None).unwrap_err();
    assert_eq!(err.message(), "unknown aggregation_interval: 2m");
}

#[test]
fn raw_samples_are_passed_on_and_numbered() {
    let mut agg = Aggregator::new(&metrics_config("none"), None).unwrap();
    let samples = vec![sample("a", 1, &[]), sample("b", 2, &[("x", "y")]), sample("a", 3, &[])];
    let ready = ingest(&mut agg, samples, 77, 0);
    let got: Vec<_> = ready.iter().map(|r| (r.name.as_str(), value(r.sum), r.seq)).collect();
    assert_eq!(got, vec![("a", 1.0, 1), ("b", 2.0, 1), ("a", 3.0, 2)]);
    assert!(ready.iter().all(|r| r.agg_cbor == AGG_NONE && r.uptime_ms == 77));
    assert!(ready.iter().all(|r| r.count.is_none() && r.min.is_none() && r.max.is_none()));
    assert_eq!(ready[1].labels, labels(&[("x", "y")]));
    assert_eq!(agg.stream_count(), 0);
}

#[test]
fn window_adds_up_and_is_published_when_over() {
    for (name, code, secs) in [("1m", AGG_1MIN, 60), ("1h", AGG_1HOUR, 3600), ("1d", AGG_1DAY, 86400)]
    {
        let mut agg = Aggregator::new(&metrics_config(name), None).unwrap();
        let start = 5 * SECOND;
        assert!(ingest(&mut agg, vec![sample("a", 4, &[])], 1, start).is_empty());
        assert!(ingest(&mut agg, vec![sample("a", -2, &[])], 2, start + SECOND).is_empty());
        let almost = start + secs * SECOND - 1;
        assert!(ingest(&mut agg, vec![], 3, almost).is_empty());
        let ready = ingest(&mut agg, vec![sample("a", 10, &[])], 4, almost + 1);
        assert_eq!(ready.len(), 1);
        let r = &ready[0];
        assert_eq!((r.agg_cbor, r.seq, r.uptime_ms), (code, 1, 4));
        assert_eq!(value(r.sum), 12.0);
        assert_eq!(r.count, Some(3));
        assert_eq!(r.min.map(value), Some(-2.0));
        assert_eq!(r.max.map(value), Some(10.0));
        assert_eq!(agg.stream_count(), 0);
    }
}

/// A window over several calls gives one reading, and the next sample a new window.
#[test]
fn window_is_published_once() {
    let mut agg = Aggregator::new(&metrics_config("1m"), None).unwrap();
    let mut published = vec![];
    for tick in 0..15u64 {
        let samples = vec![sample("a", tick as i64, &[]), sample("b", 1, &[])];
        for r in ingest(&mut agg, samples, tick, tick * 10 * SECOND) {
            if r.name == "a" {
                published.push((tick, r.seq, r.count, value(r.sum), r.uptime_ms));
            }
        }
    }
    assert_eq!(
        published,
        vec![(6, 1, Some(7), 21.0, 6), (13, 2, Some(7), 70.0, 13)]
    );
}

#[test]
fn counters_are_never_added_up() {
    let mut agg = Aggregator::new(&metrics_config("1m"), None).unwrap();
    let mut s = sample("total", 100, &[]);
    s.counter = true;
    let ready = ingest(&mut agg, vec![s], 9, 0);
    assert_eq!(ready.len(), 1);
    assert_eq!((ready[0].agg_cbor, ready[0].count, value(ready[0].sum)), (AGG_NONE, None, 100.0));
}

#[test]
fn expired_streams_come_in_order_of_their_keys() {
    let mut agg = Aggregator::new(&metrics_config("1m"), None).unwrap();
    let samples = vec![sample("b", 1, &[]), sample("a", 1, &[("k", "2")]), sample("a", 1, &[("k", "1")])];
    ingest(&mut agg, samples, 0, 0);
    let ready = ingest(&mut agg, vec![], 0, 60 * SECOND);
    let keys: Vec<String> = ready.iter().map(|r| stream_key(&r.name, &r.labels)).collect();
    assert_eq!(keys, vec!["a|k=1", "a|k=2", "b"]);
}

#[test]
fn streams_are_limited() {
    let mut agg = Aggregator::new(&metrics_config("1d"), None).unwrap();
    let samples: Vec<MetricSample> =
        (0..MAX_STREAMS + 5).map(|i| sample("m", 1, &[("id", &i.to_string())])).collect();
    ingest(&mut agg, samples, 0, 0);
    assert_eq!(MAX_STREAMS, 10_000);
    assert_eq!(agg.stream_count(), MAX_STREAMS);
    // A stream that is known still takes samples.
    ingest(&mut agg, vec![sample("m", 1, &[("id", "0")]), sample("new", 1, &[])], 0, 1);
    assert_eq!(agg.stream_count(), MAX_STREAMS);
    let ready = ingest(&mut agg, vec![], 0, 86400 * SECOND);
    assert_eq!(ready[0].count, Some(2));
}

#[test]
fn sequence_numbers_survive_a_restart() {
    let mut agg = Aggregator::new(&metrics_config("none"), None).unwrap();
    ingest(&mut agg, vec![sample("a", 1, &[]), sample("a", 1, &[]), sample("b", 1, &[])], 0, 0);
    let saved = agg.save_seq().unwrap();
    let mut again = Aggregator::new(&metrics_config("none"), Some(&saved)).unwrap();
    assert_eq!(again.next_seq("a"), 3);
    assert_eq!(again.next_seq("b"), 2);
    assert_eq!(again.next_seq("c"), 1);
    // What was saved is a CBOR map from text to integers.
    let map: V = ciborium::from_reader(&saved[..]).unwrap();
    assert_eq!(
        map,
        V::Map(vec![
            (V::Text("a".to_string()), V::Integer(2.into())),
            (V::Text("b".to_string()), V::Integer(1.into())),
        ])
    );
}

#[test]
fn unreadable_sequence_file_starts_afresh() {
    assert_eq!(load_seq(None).len(), 0);
    assert_eq!(load_seq(Some(b"\xff\xff")).len(), 0);
    let mut list = Vec::new();
    ciborium::into_writer(&V::Array(vec![V::Integer(1.into())]), &mut list).unwrap();
    assert_eq!(load_seq(Some(&list)).len(), 0);
}

#[test]
fn only_sound_sequence_numbers_are_loaded() {
    let mut bytes = Vec::new();
    let map = V::Map(vec![
        (V::Text("a".to_string()), V::Integer(5.into())),
        (V::Text("neg".to_string()), V::Integer((-1).into())),
        (V::Integer(3.into()), V::Integer(4.into())),
        (V::Text("t".to_string()), V::Text("x".to_string())),
        (V::Text("bytes".to_string()), V::Bytes(vec![1])),
        (V::Bool(true), V::Integer(1.into())),
        (V::Text("a".to_string()), V::Integer(7.into())),
        (V::Text("max".to_string()), V::Integer(u64::MAX.into())),
    ]);
    ciborium::into_writer(&map, &mut bytes).unwrap();
    let loaded = load_seq(Some(&bytes));
    assert_eq!(loaded.len(), 2);
    assert_eq!(loaded.get("a"), Some(&7));
    assert_eq!(loaded.get("max"), Some(&u64::MAX));
    let plain = numbers_from(vec![
        (Decoded::Text("a".to_string()), Decoded::Integer(1 << 64)),
        (Decoded::Text("b".to_string()), Decoded::Integer(1)),
        (Decoded::Text("c".to_string()), Decoded::Bytes(vec![1])),
        (Decoded::Bool(true), Decoded::Integer(1)),
        (Decoded::Other, Decoded::Other),
    ]);
    assert_eq!(plain.len(), 1);
    assert_eq!(plain.get("b"), Some(&1));
}

#[test]
fn room_ends_with_the_numbers() {
    let mut bytes = Vec::new();
    let map = V::Map(vec![(V::Text("a".to_string()), V::Integer((u64::MAX - 2).into()))]);
    ciborium::into_writer(&map, &mut bytes).unwrap();
    let agg = Aggregator::new(&metrics_config("none"), Some(&bytes)).unwrap();
    assert!(agg.has_room(1));
    assert!(!agg.has_room(2));
}

// --- /proc ---

#[test]
fn cpu_line_is_found_and_read() {
    let stat = "cpu0 1 2 3 4\ncpu  10 20 30 40 50 x 60\nintr 5\n";
    assert_eq!(read_cpu_fields(stat), Some(vec![10, 20, 30, 40, 50, 60]));
    assert_eq!(read_cpu_fields("cpu  1 2 3\n"), None);
    assert_eq!(read_cpu_fields("cpu0 1 2 3 4\n"), None);
    assert_eq!(read_cpu_fields(""), None);
}

#[test]
fn meminfo_is_read() {
    let text = "MemTotal:       16000 kB\nMemFree: 1 kB\nMemAvailable: 4000 kB\nSwapTotal: x kB\nSwapFree: 7\nBroken\n";
    let expected = MemInfo { total: 16000, available: 4000, swap_total: 0, swap_free: 7 };
    assert_eq!(read_meminfo(text), expected);
}

#[test]
fn diskstats_leaves_out_pseudo_devices() {
    let text = "   8       0 sda 1 2 100 4 5 6 200 8 9 10\n   7 0 loop0 1 2 3 4 5 6 7\n 1 0 ram0 1 2 3 4 5 6 7\n 11 0 sr0 1 2 3 4 5 6 7\n 8 1 sda1 1 2 x 4 5 6 300\n short line\n";
    let m = read_diskstats(text);
    assert_eq!(m.len(), 2);
    assert_eq!(m.get("sda"), Some(&DiskCounters { read_sectors: 100, write_sectors: 200 }));
    assert_eq!(m.get("sda1"), Some(&DiskCounters { read_sectors: 0, write_sectors: 300 }));
}

#[test]
fn net_dev_leaves_out_the_loopback() {
    let text = "Inter-| Receive\n face |bytes\n    lo: 1 2 3 4 5 6 7 8 9 10 11 12\n  eth0: 100 2 3 4 5 6 7 8 900 10 11 12\n bad0: 1 2 3\nno colon here\n";
    let m = read_net_dev(text);
    assert_eq!(m.len(), 1);
    assert_eq!(
        m.get("eth0"),
        Some(&NetCounters { rx_bytes: 100, tx_bytes: 900, rx_errors: 3, tx_errors: 11 })
    );
    assert_eq!(read_net_dev("one line").len(), 0);
}

#[test]
fn load_and_uptime_words() {
    assert_eq!(uptime_word("12345.67 54321.00\n"), Some("12345.67".to_string()));
    assert_eq!(uptime_word(" \n"), None);
    let text = "0.01 0.05 0.10 2/345 6789\n";
    let words = load_words(text).unwrap();
    assert_eq!((words.0.as_str(), words.1.as_str(), words.2.as_str()), ("0.01", "0.05", "0.10"));
    assert_eq!(load_words("0.01 0.05"), None);
    assert_eq!(read_process_count(text), Some(345));
    assert_eq!(read_process_count("a b c 345 d"), None);
    assert_eq!(read_process_count("a b c 1/2/3 d"), Some(2));
    assert_eq!(read_process_count("a b c 1/x d"), None);
    assert_eq!(read_process_count("a b c"), None);
    assert_eq!(read_process_count("a b c 1/4294967296"), None);
}

fn thermal(name: &str, temp: Option<&str>, kind: Option<&str>) -> ThermalEntry {
    ThermalEntry {
        name: name.to_string(),
        temp: temp.map(|s| s.to_string()),
        kind: kind.map(|s| s.to_string()),
    }
}

#[test]
fn thermal_zones_are_read() {
    let zone = read_thermal_zone(&thermal("thermal_zone0", Some("42500\n"), Some("x86_pkg_temp\n")));
    assert_eq!(zone, Some(("x86_pkg_temp".to_string(), 42500)));
    let zone = read_thermal_zone(&thermal("thermal_zone1", Some("hot"), None));
    assert_eq!(zone, Some(("thermal_zone1".to_string(), 0)));
    let zone = read_thermal_zone(&thermal("thermal_zone2", Some("-5000"), None));
    assert_eq!(zone, Some(("thermal_zone2".to_string(), -5000)));
    assert_eq!(read_thermal_zone(&thermal("cooling_device0", Some("1"), None)), None);
    assert_eq!(read_thermal_zone(&thermal("thermal_zone0", None, Some("t"))), None);
}

// --- collector ---

fn empty_snapshot() -> Snapshot {
    Snapshot {
        uptime_ms: 0,
        cpu: None,
        load: None,
        thermal: vec![],
        memory: None,
        disks: StringMap::new(),
        mounts: vec![],
        nets: StringMap::new(),
        processes: None,
    }
}

fn groups(cpu: bool, memory: bool, disk: bool, network: bool, system: bool) -> MetricGroups {
    MetricGroups { cpu, memory, disk, network, system }
}

fn collected(c: &mut Collector, cfg: &MetricsConfig, s: Snapshot) -> Vec<(String, MetricValue)> {
    assert!(c.can_collect(cfg, &s));
    let (samples, _) = c.collect(cfg, s);
    samples.into_iter().map(|s| (stream_key(&s.name, &s.labels), s.value)).collect()
}

fn named(key: &str, value: MetricValue) -> (String, MetricValue) {
    (key.to_string(), value)
}

#[test]
fn cpu_usage_is_reported_every_time() {
    let mut cfg = metrics_config("none");
    cfg.groups = groups(true, false, false, false, false);
    let mut c = Collector::new();
    let mut first = empty_snapshot();
    first.cpu = Some(vec![10, 0, 10, 80]);
    // The first reading is since the machine started.
    assert_eq!(
        collected(&mut c, &cfg, first),
        vec![named("cpu_usage_percent", MetricValue::Percent { part: 20, whole: 100 })]
    );
    let mut second = empty_snapshot();
    second.cpu = Some(vec![40, 0, 20, 130, 10]);
    second.load = Some((1, 2, 3));
    second.thermal = vec![thermal("thermal_zone0", Some("1500"), Some("soc"))];
    assert_eq!(
        collected(&mut c, &cfg, second),
        vec![
            named("cpu_usage_percent", MetricValue::Percent { part: 40, whole: 100 }),
            named("cpu_load_avg_1m", MetricValue::Float(1)),
            named("cpu_load_avg_5m", MetricValue::Float(2)),
            named("cpu_load_avg_15m", MetricValue::Float(3)),
            named("cpu_temperature|zone=soc", MetricValue::Thousandths(1500)),
        ]
    );
    // No time has passed: no usage.
    let mut third = empty_snapshot();
    third.cpu = Some(vec![40, 0, 20, 130, 10]);
    assert!(collected(&mut c, &cfg, third).is_empty());
}

#[test]
fn memory_and_swap() {
    let mut cfg = metrics_config("none");
    cfg.groups = groups(false, true, false, false, false);
    let mut c = Collector::new();
    let mut s = empty_snapshot();
    s.memory = Some(MemInfo { total: 100, available: 25, swap_total: 0, swap_free: 0 });
    assert_eq!(
        collected(&mut c, &cfg, s),
        vec![
            named("mem_total_bytes", MetricValue::Int(102400)),
            named("mem_available_bytes", MetricValue::Int(25600)),
            named("mem_used_percent", MetricValue::Percent { part: 76800, whole: 102400 }),
        ]
    );
    let mut s = empty_snapshot();
    s.memory = Some(MemInfo { total: 1, available: 2, swap_total: 0, swap_free: 0 });
    assert!(!c.can_collect(&cfg, &s));
    s.memory = Some(MemInfo { total: 0, available: 0, swap_total: 4, swap_free: 1 });
    let got = collected(&mut c, &cfg, s);
    assert_eq!(
        got[2],
        named("swap_used_percent", MetricValue::Percent { part: 3072, whole: 4096 })
    );
}

#[test]
fn disk_deltas_are_in_bytes() {
    let mut cfg = metrics_config("none");
    cfg.groups = groups(false, false, true, false, false);
    let mut c = Collector::new();
    let disk = |r: u64, w: u64| DiskCounters { read_sectors: r, write_sectors: w };
    let mut first = empty_snapshot();
    first.disks.insert("sda".to_string(), disk(10, 20));
    assert!(collected(&mut c, &cfg, first).is_empty());
    let mut second = empty_snapshot();
    second.disks.insert("sdb".to_string(), disk(5, 5));
    second.disks.insert("sda".to_string(), disk(13, 19));
    second.mounts = vec![MountSpace {
        mount: "/".to_string(),
        available: 30,
        blocks: 120,
        block_size: 4096,
    }];
    assert_eq!(
        collected(&mut c, &cfg, second),
        vec![
            named("disk_read_bytes|device=sda", MetricValue::Int(3 * 512)),
            named("disk_write_bytes|device=sda", MetricValue::Int(0)),
            named("disk_free_bytes|mount=/", MetricValue::Int(122880)),
            named(
                "disk_used_percent|mount=/",
                MetricValue::Percent { part: 90 * 4096, whole: 120 * 4096 }
            ),
        ]
    );
}

/// Over several readings the differences add up to what was counted.
#[test]
fn deltas_add_up() {
    let mut cfg = metrics_config("none");
    cfg.groups = groups(false, false, false, true, false);
    let mut c = Collector::new();
    let mut sum = 0;
    for n in [100u64, 130, 130, 1000, 1001] {
        let mut s = empty_snapshot();
        let net = NetCounters { rx_bytes: n, tx_bytes: 0, rx_errors: 0, tx_errors: 0 };
        s.nets.insert("eth0".to_string(), net);
        if let Some((_, MetricValue::Int(d))) = collected(&mut c, &cfg, s).first() {
            sum += d;
        }
    }
    assert_eq!(sum, 901);
}

#[test]
fn network_is_filtered_by_interface() {
    let mut cfg = metrics_config("none");
    cfg.groups = groups(false, false, false, true, false);
    let mut c = Collector::new();
    let net = |n: u64| NetCounters { rx_bytes: n, tx_bytes: 2 * n, rx_errors: 0, tx_errors: n };
    for n in [1, 11] {
        cfg.network.interfaces = if n == 1 { vec![] } else { vec!["wlan0".to_string()] };
        let mut s = empty_snapshot();
        s.nets.insert("eth0".to_string(), net(n));
        s.nets.insert("wlan0".to_string(), net(n));
        let got = collected(&mut c, &cfg, s);
        if n == 1 {
            assert!(got.is_empty());
        } else {
            assert_eq!(
                got,
                vec![
                    named("net_rx_bytes|interface=wlan0", MetricValue::Int(10)),
                    named("net_tx_bytes|interface=wlan0", MetricValue::Int(20)),
                    named("net_rx_errors|interface=wlan0", MetricValue::Int(0)),
                    named("net_tx_errors|interface=wlan0", MetricValue::Int(10)),
                ]
            );
        }
    }
    cfg.network.interfaces = vec![];
    let mut s = empty_snapshot();
    s.nets.insert("eth0".to_string(), net(12));
    s.nets.insert("wlan0".to_string(), net(12));
    assert_eq!(collected(&mut c, &cfg, s).len(), 8);
}

/// A filter lets only the named interfaces pass; none at all where it names none.
#[test]
fn network_filter_may_be_empty() {
    let wlan0 = vec!["wlan0".to_string()];
    let nothing = vec![];
    for (filter, names) in
        [(None, vec!["eth0", "wlan0"]), (Some(&wlan0), vec!["wlan0"]), (Some(&nothing), vec![])]
    {
        let mut c = Collector::new();
        let mut out = vec![sample("old", 1, &[])];
        for n in [5u64, 3, 10] {
            let mut nets = StringMap::new();
            let net = NetCounters { rx_bytes: n, tx_bytes: n, rx_errors: 0, tx_errors: n };
            nets.insert("eth0".to_string(), net);
            nets.insert("wlan0".to_string(), net);
            c.collect_network(&mut out, filter, nets);
        }
        assert_eq!(out.len(), 1 + 8 * names.len());
        assert_eq!(out[0].name, "old");
        for name in names {
            let of_it = |m: &str| -> Vec<MetricValue> {
                let l = labels(&[("interface", name)]);
                out.iter().filter(|s| s.labels == l && s.name == m).map(|s| s.value).collect()
            };
            // A counter that went back counts as zero.
            assert_eq!(of_it("net_rx_bytes"), vec![MetricValue::Int(0), MetricValue::Int(7)]);
            assert_eq!(of_it("net_rx_errors"), vec![MetricValue::Int(0), MetricValue::Int(0)]);
            assert_eq!(of_it("net_tx_errors"), vec![MetricValue::Int(0), MetricValue::Int(7)]);
        }
    }
}

#[test]
fn system_group() {
    let mut cfg = metrics_config("none");
    cfg.groups = groups(false, false, false, false, true);
    let mut c = Collector::new();
    let mut s = empty_snapshot();
    s.uptime_ms = 12_999;
    s.processes = Some(345);
    let (samples, uptime_ms) = c.collect(&cfg, s);
    assert_eq!(uptime_ms, 12_999);
    assert_eq!(samples.len(), 2);
    assert_eq!((samples[0].name.as_str(), samples[0].value), ("uptime_seconds", MetricValue::Int(12)));
    assert_eq!((samples[1].name.as_str(), samples[1].value), ("process_count", MetricValue::Int(345)));
    assert!(samples.iter().all(|s| !s.counter));
}

#[test]
fn readings_that_overflow_are_told() {
    let mut cfg = metrics_config("none");
    cfg.groups = groups(true, false, true, false, false);
    let c = Collector::new();
    let mut s = empty_snapshot();
    s.cpu = Some(vec![u64::MAX, 1, 0, 0]);
    assert!(!c.can_collect(&cfg, &s));
    s.cpu = Some(vec![1, 1, 1]);
    assert!(!c.can_collect(&cfg, &s));
    s.cpu = None;
    s.mounts =
        vec![MountSpace { mount: "/".to_string(), available: 0, blocks: u64::MAX, block_size: 2 }];
    assert!(!c.can_collect(&cfg, &s));
}

// --- messages ---

/// The integer that a double is written as, or the bits of the double.
fn item(bits: u64) -> (Option<i128>, Option<u64>) {
    match cbor_number(bits) {
        MetricItem::Int(n) => (Some(n as i128), None),
        MetricItem::Uint(n) => (Some(n as i128), None),
        MetricItem::Double(d) => (None, Some(d)),
        _ => panic!("a number is an integer or a double"),
    }
}

/// Doubles that are whole numbers in range become integers; others stay.
#[test]
fn whole_doubles_become_integers() {
    let two63 = 9_223_372_036_854_775_808.0f64;
    let cases = [
        0.0, -0.0, 1.0, -1.0, 0.5, 1.5, 100.25, 1e15, 1e18, -1e18, 4503599627370496.0,
        4503599627370497.0, 4503599627370496.5, 9007199254740993.0, two63, -two63, 2.0 * two63,
        -2.0 * two63, 9_223_372_036_854_774_784.0, 1e300, f64::MIN_POSITIVE, 5e-324, f64::NAN,
        f64::INFINITY, f64::NEG_INFINITY, f64::MAX, 0.1, -42.0, 123456789.0, 2.5e-10,
    ];
    for v in cases {
        let whole = v.is_finite() && v.fract() == 0.0 && v >= -two63 && v <= two63;
        let expected =
            if whole { (Some(v as i128), None) } else { (None, Some(v.to_bits())) };
        assert_eq!(item(v.to_bits()), expected, "{v}");
    }
    for shift in 0..64 {
        for low in [0u64, 1, 3] {
            let v = ((1u64 << shift) | low) as f64;
            let expected =
                if v <= two63 { (Some(v as i128), None) } else { (None, Some(v.to_bits())) };
            assert_eq!(item(v.to_bits()), expected, "{v}");
        }
    }
    // 2^63 is the number that it is.
    assert!(matches!(cbor_number(two63.to_bits()), MetricItem::Uint(0x8000_0000_0000_0000)));
}

fn shown(m: &ReadyMetric) -> Vec<String> {
    metric_fields(m)
        .iter()
        .map(|(key, item)| match item {
            MetricItem::Uint(n) => format!("{key}={n}"),
            MetricItem::Int(n) => format!("{key}={n}"),
            MetricItem::Double(bits) => format!("{key}={}", f64::from_bits(*bits)),
            MetricItem::Text(s) => format!("{key}={s}"),
            MetricItem::Labels(l) => format!("{key}={l:?}"),
        })
        .collect()
}

#[test]
fn metric_message_fields() {
    let mut m = ReadyMetric {
        name: "latency".to_string(),
        agg_cbor: AGG_NONE,
        labels: vec![],
        sum: 2.5f64.to_bits(),
        count: None,
        min: None,
        max: None,
        seq: 7,
        uptime_ms: 1000,
    };
    assert_eq!(shown(&m), vec!["0=5", "21=latency", "22=0", "6=1000", "13=7", "24=2.5"]);
    m.agg_cbor = AGG_1MIN;
    m.labels = labels(&[("w", "main")]);
    m.count = Some(3);
    m.min = Some(0.5f64.to_bits());
    m.max = Some(1.0f64.to_bits());
    assert_eq!(
        shown(&m),
        vec![
            "0=5",
            "21=latency",
            "22=1",
            "5=[(\"w\", \"main\")]",
            "6=1000",
            "13=7",
            "24=2.5",
            "26=3",
            "27=0.5",
            "28=1"
        ]
    );
    m.min = None;
    m.max = None;
    let fields = shown(&m);
    assert_eq!(&fields[8..], &["27=2.5", "28=2.5"]);
}

// --- socket ---

#[test]
fn socket_lines_are_trimmed() {
    assert_eq!(message_on("  {\"name\":\"x\"} \r"), Some("{\"name\":\"x\"}".to_string()));
    assert_eq!(message_on(" \t\u{a0}"), None);
    assert_eq!(message_on(""), None);
}

#[test]
fn socket_labels_are_sorted() {
    let given = labels(&[("worker", "main"), ("app", "x")]);
    let s = incoming_sample("q".to_string(), 8.5f64.to_bits(), &given);
    assert_eq!(s.labels, labels(&[("app", "x"), ("worker", "main")]));
    assert_eq!(value(double(s.value)), 8.5);
    assert!(!s.counter);
    assert_eq!(stream_key(&s.name, &s.labels), stream_key("q", &given));
}

// --- ticks ---

#[test]
fn readings_are_dropped_without_a_connection() {
    assert_eq!(after_tick(0, true), TickDecision::Nothing);
    assert_eq!(after_tick(0, false), TickDecision::Nothing);
    assert_eq!(after_tick(3, false), TickDecision::Discard);
    assert_eq!(after_tick(3, true), TickDecision::Publish);
}
