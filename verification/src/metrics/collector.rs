//! Samples of the machine's state.
//!
//! Counters (disk and network) are reported as the difference between two readings, so
//! that the sum over a window is what was transferred in it. The first reading has none
//! to compare with and reports no such sample. The usage of the processors is that since
//! the last reading; the first reading reports it since the machine started.

use vstd::prelude::*;
use crate::config::{MetricGroups, MetricsConfig};
use crate::metrics::aggregator::sample_views;
use crate::metrics::labels::label_texts;
use crate::metrics::proc_files::{read_thermal_zone, thermal_zone, DiskCounters, MemInfo};
use crate::metrics::proc_files::{NetCounters, ThermalEntry, ThermalView};
use crate::metrics::{MetricSample, MetricValue, SampleView};
use crate::order::{before, lemma_before_asymmetric};
use crate::string_map::{ascending, lemma_pairs_map, pairs_map, StringMap};
use crate::text::{same, to_chars};

verus! {

/// Ticks of all processors, in all and idle.
#[derive(Debug, Clone, Copy, PartialEq, Eq, Structural)]
pub struct CpuTicks {
    pub total: u64,
    pub idle: u64,
}

/// A mounted file system: free and all blocks, and the size of one.
#[derive(Debug)]
pub struct MountSpace {
    pub mount: String,
    pub available: u64,
    pub blocks: u64,
    pub block_size: u64,
}

/// What such a file system says.
pub struct MountView {
    pub mount: Seq<char>,
    pub available: u64,
    pub blocks: u64,
    pub block_size: u64,
}

impl View for MountSpace {
    type V = MountView;

    open spec fn view(&self) -> MountView {
        MountView {
            mount: self.mount@,
            available: self.available,
            blocks: self.blocks,
            block_size: self.block_size,
        }
    }
}

/// One reading of the machine's state. What could not be read is missing.
#[derive(Debug)]
pub struct Snapshot {
    pub uptime_ms: u64,
    /// Tick counts, of which there are four at least.
    pub cpu: Option<Vec<u64>>,
    /// Load over one, five and fifteen minutes, as the bits of doubles.
    pub load: Option<(u64, u64, u64)>,
    pub thermal: Vec<ThermalEntry>,
    pub memory: Option<MemInfo>,
    pub disks: StringMap<DiskCounters>,
    pub mounts: Vec<MountSpace>,
    pub nets: StringMap<NetCounters>,
    pub processes: Option<u32>,
}

// ---------------------------------------------------------------------------
// Samples
// ---------------------------------------------------------------------------

/// A sample without labels.
pub open spec fn plain(name: Seq<char>, value: MetricValue) -> SampleView {
    SampleView { name, value, labels: Seq::empty(), counter: false }
}

/// A sample with one label.
pub open spec fn labelled(
    name: Seq<char>,
    value: MetricValue,
    key: Seq<char>,
    text: Seq<char>,
) -> SampleView {
    SampleView { name, value, labels: seq![(key, text)], counter: false }
}

/// `n` as a signed number, the upper half taken as negative.
pub open spec fn signed(n: int) -> i64 {
    if n <= i64::MAX {
        n as i64
    } else {
        (n - 0x1_0000_0000_0000_0000) as i64
    }
}

/// How far a counter has come; zero where it has gone back.
pub open spec fn delta(now: u64, then: u64) -> int {
    if now >= then {
        now - then
    } else {
        0
    }
}

/// The sum of some numbers.
pub open spec fn sum(s: Seq<u64>) -> int
    decreases s.len(),
{
    if s.len() == 0 {
        0
    } else {
        sum(s.drop_last()) + s.last()
    }
}

/// Idle ticks: idle, and waiting for input or output where that is counted.
pub open spec fn idle(fields: Seq<u64>) -> int {
    fields[3] + if fields.len() > 4 {
        fields[4] as int
    } else {
        0
    }
}

/// The ticks that some fields stand for.
pub open spec fn ticks(fields: Seq<u64>) -> CpuTicks {
    CpuTicks { total: sum(fields) as u64, idle: idle(fields) as u64 }
}

/// The ticks since the last reading, or, where there was none, since the machine started.
pub open spec fn ticks_since(prev: Option<CpuTicks>, now: CpuTicks) -> CpuTicks {
    match prev {
        Some(p) => CpuTicks {
            total: delta(now.total, p.total) as u64,
            idle: delta(now.idle, p.idle) as u64,
        },
        None => now,
    }
}

/// Usage of the processors since the last reading.
pub open spec fn cpu_usage(prev: Option<CpuTicks>, now: CpuTicks) -> Seq<SampleView> {
    let since = ticks_since(prev, now);
    if since.total > 0 {
        seq![
            plain(
                "cpu_usage_percent"@,
                MetricValue::Percent {
                    part: (since.total - since.idle) as u64,
                    whole: since.total,
                },
            ),
        ]
    } else {
        Seq::empty()
    }
}

/// The load averages.
pub open spec fn load_samples(load: Option<(u64, u64, u64)>) -> Seq<SampleView> {
    match load {
        Some((a, b, c)) => seq![
            plain("cpu_load_avg_1m"@, MetricValue::Float(a)),
            plain("cpu_load_avg_5m"@, MetricValue::Float(b)),
            plain("cpu_load_avg_15m"@, MetricValue::Float(c)),
        ],
        None => Seq::empty(),
    }
}

/// The temperatures of the thermal zones.
pub open spec fn thermal_samples(entries: Seq<ThermalView>) -> Seq<SampleView>
    decreases entries.len(),
{
    if entries.len() == 0 {
        Seq::empty()
    } else {
        let rest = thermal_samples(entries.drop_last());
        match thermal_zone(entries.last()) {
            Some((zone, t)) => rest.push(
                labelled("cpu_temperature"@, MetricValue::Thousandths(t), "zone"@, zone),
            ),
            None => rest,
        }
    }
}

/// The part of a whole that is not free, if there is a whole.
pub open spec fn used(name: Seq<char>, whole: int, free: int) -> Seq<SampleView> {
    if whole > 0 {
        seq![
            plain(name, MetricValue::Percent { part: (whole - free) as u64, whole: whole as u64 }),
        ]
    } else {
        Seq::empty()
    }
}

/// Sizes and usage of the memory.
pub open spec fn memory_samples(memory: Option<MemInfo>) -> Seq<SampleView> {
    match memory {
        Some(m) => seq![
            plain("mem_total_bytes"@, MetricValue::Int(signed(m.total * 1024))),
            plain("mem_available_bytes"@, MetricValue::Int(signed(m.available * 1024))),
        ] + used("mem_used_percent"@, m.total * 1024, m.available * 1024) + used(
            "swap_used_percent"@,
            m.swap_total * 1024,
            m.swap_free * 1024,
        ),
        None => Seq::empty(),
    }
}

/// What was read from and written to a disk between two readings, in bytes. A sector
/// has 512.
pub open spec fn disk_pair(dev: Seq<char>, now: DiskCounters, then: DiskCounters) -> Seq<
    SampleView,
> {
    let read = delta(now.read_sectors, then.read_sectors) * 512;
    let written = delta(now.write_sectors, then.write_sectors) * 512;
    seq![
        labelled("disk_read_bytes"@, MetricValue::Int(signed(read)), "device"@, dev),
        labelled("disk_write_bytes"@, MetricValue::Int(signed(written)), "device"@, dev),
    ]
}

/// What was read from and written to each disk since the last reading.
pub open spec fn disk_samples(
    prev: Map<Seq<char>, DiskCounters>,
    disks: Seq<(Seq<char>, DiskCounters)>,
) -> Seq<SampleView>
    decreases disks.len(),
{
    if disks.len() == 0 {
        Seq::empty()
    } else {
        let rest = disk_samples(prev, disks.drop_last());
        let (dev, now) = disks.last();
        if prev.contains_key(dev) {
            rest + disk_pair(dev, now, prev[dev])
        } else {
            rest
        }
    }
}

/// Free space and usage of a file system.
pub open spec fn mount_sample(m: MountView) -> Seq<SampleView> {
    let free = m.available * m.block_size;
    let total = m.blocks * m.block_size;
    let first = seq![
        labelled("disk_free_bytes"@, MetricValue::Int(signed(free)), "mount"@, m.mount),
    ];
    if total > 0 {
        first.push(
            labelled(
                "disk_used_percent"@,
                MetricValue::Percent { part: (total - free) as u64, whole: total as u64 },
                "mount"@,
                m.mount,
            ),
        )
    } else {
        first
    }
}

/// Free space and usage of some file systems.
pub open spec fn mount_samples(mounts: Seq<MountView>) -> Seq<SampleView>
    decreases mounts.len(),
{
    if mounts.len() == 0 {
        Seq::empty()
    } else {
        mount_samples(mounts.drop_last()) + mount_sample(mounts.last())
    }
}

/// The interfaces to report: all where none is named.
pub open spec fn filter_of(wanted: Seq<Seq<char>>) -> Option<Seq<Seq<char>>> {
    if wanted.len() == 0 {
        None
    } else {
        Some(wanted)
    }
}

/// An interface is reported: it is in the filter, if there is one.
pub open spec fn reported(filter: Option<Seq<Seq<char>>>, iface: Seq<char>) -> bool {
    filter matches Some(names) ==> names.contains(iface)
}

/// The traffic of an interface between two readings.
pub open spec fn net_four(iface: Seq<char>, now: NetCounters, then: NetCounters) -> Seq<
    SampleView,
> {
    let rx = signed(delta(now.rx_bytes, then.rx_bytes));
    let tx = signed(delta(now.tx_bytes, then.tx_bytes));
    let rx_errors = signed(delta(now.rx_errors, then.rx_errors));
    let tx_errors = signed(delta(now.tx_errors, then.tx_errors));
    seq![
        labelled("net_rx_bytes"@, MetricValue::Int(rx), "interface"@, iface),
        labelled("net_tx_bytes"@, MetricValue::Int(tx), "interface"@, iface),
        labelled("net_rx_errors"@, MetricValue::Int(rx_errors), "interface"@, iface),
        labelled("net_tx_errors"@, MetricValue::Int(tx_errors), "interface"@, iface),
    ]
}

/// The traffic of each interface since the last reading.
pub open spec fn net_samples(
    prev: Map<Seq<char>, NetCounters>,
    filter: Option<Seq<Seq<char>>>,
    nets: Seq<(Seq<char>, NetCounters)>,
) -> Seq<SampleView>
    decreases nets.len(),
{
    if nets.len() == 0 {
        Seq::empty()
    } else {
        let rest = net_samples(prev, filter, nets.drop_last());
        let (iface, now) = nets.last();
        if reported(filter, iface) && prev.contains_key(iface) {
            rest + net_four(iface, now, prev[iface])
        } else {
            rest
        }
    }
}

/// Uptime and processes.
pub open spec fn system_samples(uptime_ms: u64, processes: Option<u32>) -> Seq<SampleView> {
    let uptime = seq![plain("uptime_seconds"@, MetricValue::Int((uptime_ms / 1000) as i64))];
    match processes {
        Some(n) => uptime.push(plain("process_count"@, MetricValue::Int(n as i64))),
        None => uptime,
    }
}

// ---------------------------------------------------------------------------
// The whole collection
// ---------------------------------------------------------------------------

/// What some thermal entries say.
pub open spec fn thermal_views(entries: Seq<ThermalEntry>) -> Seq<ThermalView> {
    entries.map_values(|e: ThermalEntry| e@)
}

/// What some file systems say.
pub open spec fn mount_views(mounts: Seq<MountSpace>) -> Seq<MountView> {
    mounts.map_values(|m: MountSpace| m@)
}

/// What some texts say.
pub open spec fn string_views(v: Seq<String>) -> Seq<Seq<char>> {
    v.map_values(|s: String| s@)
}

/// What a filter says.
pub open spec fn filter_views(filter: Option<&Vec<String>>) -> Option<Seq<Seq<char>>> {
    match filter {
        Some(wanted) => Some(string_views(wanted@)),
        None => None,
    }
}

/// What is known of the previous reading.
#[derive(Debug)]
pub struct Collector {
    prev_cpu: Option<CpuTicks>,
    prev_disks: StringMap<DiskCounters>,
    prev_nets: StringMap<NetCounters>,
}

/// What a collector remembers.
#[verifier::ext_equal]
pub struct CollectorView {
    pub cpu: Option<CpuTicks>,
    pub disks: Map<Seq<char>, DiskCounters>,
    pub nets: Map<Seq<char>, NetCounters>,
}

impl View for Collector {
    type V = CollectorView;

    closed spec fn view(&self) -> CollectorView {
        CollectorView { cpu: self.prev_cpu, disks: self.prev_disks@, nets: self.prev_nets@ }
    }
}

impl CollectorView {
    /// The samples of a snapshot.
    pub open spec fn samples(self, groups: MetricGroups, wanted: Seq<Seq<char>>, s: Snapshot) -> Seq<
        SampleView,
    > {
        let usage = match s.cpu {
            Some(fields) => cpu_usage(self.cpu, ticks(fields@)),
            None => Seq::empty(),
        };
        let cpu = if groups.cpu {
            usage + load_samples(s.load) + thermal_samples(thermal_views(s.thermal@))
        } else {
            Seq::empty()
        };
        let memory = if groups.memory {
            memory_samples(s.memory)
        } else {
            Seq::empty()
        };
        let disk = if groups.disk {
            disk_samples(self.disks, s.disks.pairs()) + mount_samples(mount_views(s.mounts@))
        } else {
            Seq::empty()
        };
        let network = if groups.network {
            net_samples(self.nets, filter_of(wanted), s.nets.pairs())
        } else {
            Seq::empty()
        };
        let system = if groups.system {
            system_samples(s.uptime_ms, s.processes)
        } else {
            Seq::empty()
        };
        cpu + memory + disk + network + system
    }

    /// What is remembered of a snapshot.
    pub open spec fn after(self, groups: MetricGroups, s: Snapshot) -> CollectorView {
        CollectorView {
            cpu: match s.cpu {
                Some(fields) if groups.cpu => Some(ticks(fields@)),
                _ => self.cpu,
            },
            disks: if groups.disk {
                s.disks@
            } else {
                self.disks
            },
            nets: if groups.network {
                s.nets@
            } else {
                self.nets
            },
        }
    }

    /// No count of ticks overflows, and the processors were not idle for longer than the
    /// time between the readings.
    pub open spec fn cpu_fits(self, cpu: Option<Vec<u64>>) -> bool {
        match cpu {
            Some(fields) => {
                let now = ticks(fields@);
                &&& fields@.len() >= 4
                &&& sum(fields@) <= u64::MAX
                &&& idle(fields@) <= u64::MAX
                &&& self.cpu is Some ==> ticks_since(self.cpu, now).total > 0 ==> ticks_since(
                    self.cpu,
                    now,
                ).idle <= ticks_since(self.cpu, now).total
            },
            None => true,
        }
    }

    /// No number of bytes overflows.
    pub open spec fn disks_fit(self, disks: Seq<(Seq<char>, DiskCounters)>) -> bool {
        forall|i: int|
            0 <= i < disks.len() && self.disks.contains_key((#[trigger] disks[i]).0) ==> ({
                let then = self.disks[disks[i].0];
                &&& delta(disks[i].1.read_sectors, then.read_sectors) * 512 <= u64::MAX
                &&& delta(disks[i].1.write_sectors, then.write_sectors) * 512 <= u64::MAX
            })
    }

    /// The samples of a snapshot can be computed.
    pub open spec fn fits(self, groups: MetricGroups, s: Snapshot) -> bool {
        &&& groups.cpu ==> self.cpu_fits(s.cpu)
        &&& groups.memory ==> (s.memory matches Some(m) ==> memory_fits(m))
        &&& groups.disk ==> self.disks_fit(s.disks.pairs())
        &&& groups.disk ==> forall|i: int|
            0 <= i < s.mounts@.len() ==> mount_fits((#[trigger] s.mounts@[i])@)
    }
}

/// No size overflows, and no more is free than there is.
pub open spec fn memory_fits(m: MemInfo) -> bool {
    &&& m.total * 1024 <= u64::MAX
    &&& m.available * 1024 <= u64::MAX
    &&& m.swap_total * 1024 <= u64::MAX
    &&& m.swap_free * 1024 <= u64::MAX
    &&& m.total > 0 ==> m.available <= m.total
    &&& m.swap_total > 0 ==> m.swap_free <= m.swap_total
}

/// No size overflows, and no more is free than there is.
pub open spec fn mount_fits(m: MountView) -> bool {
    &&& m.available * m.block_size <= u64::MAX
    &&& m.blocks * m.block_size <= u64::MAX
    &&& m.blocks * m.block_size > 0 ==> m.available * m.block_size <= m.blocks * m.block_size
}

// ---------------------------------------------------------------------------
// Code
// ---------------------------------------------------------------------------

fn to_signed(n: u64) -> (r: i64)
    ensures
        r == signed(n as int),
{
    if n <= i64::MAX as u64 {
        n as i64
    } else {
        -((u64::MAX - n) as i64) - 1
    }
}

/// A sample.
fn sample(name: &str, value: MetricValue, labels: Vec<(String, String)>) -> (s: MetricSample)
    ensures
        s@ == (SampleView { name: name@, value, labels: label_texts(labels@), counter: false }),
{
    MetricSample { name: name.to_string(), value, labels, counter: false }
}

/// Appends a sample without labels.
fn put(out: &mut Vec<MetricSample>, name: &str, value: MetricValue)
    ensures
        sample_views(final(out)@) == sample_views(old(out)@).push(plain(name@, value)),
{
    let labels: Vec<(String, String)> = Vec::new();
    assert(label_texts(labels@) =~= Seq::empty());
    let s = sample(name, value, labels);
    out.push(s);
    assert(sample_views(out@) =~= sample_views(old(out)@).push(s@));
}

/// Appends a sample with one label.
fn put_labelled(
    out: &mut Vec<MetricSample>,
    name: &str,
    value: MetricValue,
    key: &str,
    text: &String,
)
    ensures
        sample_views(final(out)@) == sample_views(old(out)@).push(
            labelled(name@, value, key@, text@),
        ),
{
    let labels: Vec<(String, String)> = vec![(key.to_string(), text.clone())];
    assert(label_texts(labels@) =~= seq![(key@, text@)]);
    let s = sample(name, value, labels);
    out.push(s);
    assert(sample_views(out@) =~= sample_views(old(out)@).push(s@));
}

/// Appends the share that is not free.
fn put_used(out: &mut Vec<MetricSample>, name: &str, whole: u64, free: u64)
    requires
        whole > 0 ==> free <= whole,
    ensures
        sample_views(final(out)@) == sample_views(old(out)@) + used(
            name@,
            whole as int,
            free as int,
        ),
{
    let ghost had = sample_views(out@);
    if whole > 0 {
        put(out, name, MetricValue::Percent { part: whole - free, whole });
    }
    assert(sample_views(out@) =~= had + used(name@, whole as int, free as int));
}

fn collect_load_avg(out: &mut Vec<MetricSample>, load: Option<(u64, u64, u64)>)
    ensures
        sample_views(final(out)@) == sample_views(old(out)@) + load_samples(load),
{
    let ghost had = sample_views(out@);
    if let Some((a, b, c)) = load {
        put(out, "cpu_load_avg_1m", MetricValue::Float(a));
        put(out, "cpu_load_avg_5m", MetricValue::Float(b));
        put(out, "cpu_load_avg_15m", MetricValue::Float(c));
    }
    assert(sample_views(out@) =~= had + load_samples(load));
}

fn collect_cpu_temp(out: &mut Vec<MetricSample>, entries: &Vec<ThermalEntry>)
    ensures
        sample_views(final(out)@) == sample_views(old(out)@) + thermal_samples(
            thermal_views(entries@),
        ),
{
    let ghost had = sample_views(out@);
    let ghost all = thermal_views(entries@);
    assert(all.take(0) =~= Seq::empty());
    assert(had + thermal_samples(all.take(0)) =~= had);
    for i in 0..entries.len()
        invariant
            all == thermal_views(entries@),
            sample_views(out@) == had + thermal_samples(all.take(i as int)),
    {
        proof {
            assert(all.take(i + 1).drop_last() =~= all.take(i as int));
            assert(all.take(i + 1).last() == entries@[i as int]@);
        }
        if let Some((zone, t)) = read_thermal_zone(&entries[i]) {
            put_labelled(out, "cpu_temperature", MetricValue::Thousandths(t), "zone", &zone);
        }
        assert(sample_views(out@) =~= had + thermal_samples(all.take(i + 1)));
    }
    assert(all.take(all.len() as int) =~= all);
}

fn collect_memory(out: &mut Vec<MetricSample>, memory: Option<MemInfo>)
    requires
        memory matches Some(m) ==> memory_fits(m),
    ensures
        sample_views(final(out)@) == sample_views(old(out)@) + memory_samples(memory),
{
    let ghost had = sample_views(out@);
    if let Some(m) = memory {
        let total: u64 = m.total * 1024;
        let available: u64 = m.available * 1024;
        put(out, "mem_total_bytes", MetricValue::Int(to_signed(total)));
        put(out, "mem_available_bytes", MetricValue::Int(to_signed(available)));
        put_used(out, "mem_used_percent", total, available);
        put_used(out, "swap_used_percent", m.swap_total * 1024, m.swap_free * 1024);
    }
    assert(sample_views(out@) =~= had + memory_samples(memory));
}

fn collect_mount(out: &mut Vec<MetricSample>, m: &MountSpace)
    requires
        mount_fits(m@),
    ensures
        sample_views(final(out)@) == sample_views(old(out)@) + mount_sample(m@),
{
    let ghost had = sample_views(out@);
    let free: u64 = m.available * m.block_size;
    let total: u64 = m.blocks * m.block_size;
    put_labelled(out, "disk_free_bytes", MetricValue::Int(to_signed(free)), "mount", &m.mount);
    if total > 0 {
        let share = MetricValue::Percent { part: total - free, whole: total };
        put_labelled(out, "disk_used_percent", share, "mount", &m.mount);
    }
    assert(sample_views(out@) =~= had + mount_sample(m@));
}

fn collect_disk_space(out: &mut Vec<MetricSample>, mounts: &Vec<MountSpace>)
    requires
        forall|i: int| 0 <= i < mounts@.len() ==> mount_fits((#[trigger] mounts@[i])@),
    ensures
        sample_views(final(out)@) == sample_views(old(out)@) + mount_samples(mount_views(mounts@)),
{
    let ghost had = sample_views(out@);
    let ghost all = mount_views(mounts@);
    assert(all.take(0) =~= Seq::empty());
    assert(had + mount_samples(all.take(0)) =~= had);
    for i in 0..mounts.len()
        invariant
            all == mount_views(mounts@),
            forall|i: int| 0 <= i < mounts@.len() ==> mount_fits((#[trigger] mounts@[i])@),
            sample_views(out@) == had + mount_samples(all.take(i as int)),
    {
        proof {
            assert(all.take(i + 1).drop_last() =~= all.take(i as int));
            assert(all.take(i + 1).last() == mounts@[i as int]@);
        }
        collect_mount(out, &mounts[i]);
        assert(sample_views(out@) =~= had + mount_samples(all.take(i + 1)));
    }
    assert(all.take(all.len() as int) =~= all);
}

fn collect_system(out: &mut Vec<MetricSample>, uptime_ms: u64, processes: Option<u32>)
    ensures
        sample_views(final(out)@) == sample_views(old(out)@) + system_samples(uptime_ms, processes),
{
    let ghost had = sample_views(out@);
    put(out, "uptime_seconds", MetricValue::Int((uptime_ms / 1000) as i64));
    if let Some(n) = processes {
        put(out, "process_count", MetricValue::Int(n as i64));
    }
    assert(sample_views(out@) =~= had + system_samples(uptime_ms, processes));
}

/// Is an interface reported?
fn is_reported(filter: Option<&Vec<String>>, iface: &String) -> (b: bool)
    ensures
        b == reported(filter_views(filter), iface@),
{
    match filter {
        None => true,
        Some(wanted) => {
            let name = to_chars(iface.as_str());
            let ghost names = string_views(wanted@);
            for i in 0..wanted.len()
                invariant
                    name@ == iface@,
                    names == string_views(wanted@),
                    filter_views(filter) == Some(names),
                    forall|j: int| 0 <= j < i ==> #[trigger] names[j] != iface@,
            {
                if same(name.as_slice(), wanted[i].as_str()) {
                    assert(names[i as int] == iface@);
                    return true;
                }
            }
            false
        },
    }
}

/// The sum of some ticks, as long as it fits.
fn total_ticks(fields: &Vec<u64>) -> (r: Option<u64>)
    ensures
        match r {
            Some(n) => sum(fields@) == n,
            None => sum(fields@) > u64::MAX,
        },
{
    let mut n: u64 = 0;
    for i in 0..fields.len()
        invariant
            n == sum(fields@.take(i as int)),
    {
        proof {
            assert(fields@.take(i + 1).drop_last() =~= fields@.take(i as int));
            assert(fields@.take(i + 1).last() == fields@[i as int]);
            lemma_sum_grows(fields@, i + 1);
        }
        n = match n.checked_add(fields[i]) {
            Some(m) => m,
            None => {
                return None;
            },
        };
    }
    assert(fields@.take(fields@.len() as int) =~= fields@);
    Some(n)
}

/// The sum of the first numbers is no greater than that of all.
proof fn lemma_sum_grows(s: Seq<u64>, n: int)
    requires
        0 <= n <= s.len(),
    ensures
        sum(s.take(n)) <= sum(s),
    decreases s.len() - n,
{
    if n < s.len() {
        lemma_sum_grows(s, n + 1);
        assert(s.take(n + 1).drop_last() =~= s.take(n));
    } else {
        assert(s.take(n) =~= s);
    }
}

/// Ticks, in all and idle, as long as they fit.
fn cpu_ticks(fields: &Vec<u64>) -> (r: Option<CpuTicks>)
    requires
        fields@.len() >= 4,
    ensures
        match r {
            Some(t) => t == ticks(fields@) && sum(fields@) <= u64::MAX && idle(fields@) <= u64::MAX,
            None => sum(fields@) > u64::MAX || idle(fields@) > u64::MAX,
        },
{
    let waiting: u64 = if fields.len() > 4 {
        fields[4]
    } else {
        0
    };
    match (total_ticks(fields), fields[3].checked_add(waiting)) {
        (Some(total), Some(idle)) => Some(CpuTicks { total, idle }),
        _ => None,
    }
}

/// The ticks since the last reading, or, where there was none, since the machine started.
fn since_last(prev: Option<CpuTicks>, now: CpuTicks) -> (r: CpuTicks)
    ensures
        r == ticks_since(prev, now),
{
    match prev {
        Some(then) => CpuTicks {
            total: now.total.saturating_sub(then.total),
            idle: now.idle.saturating_sub(then.idle),
        },
        None => now,
    }
}

/// The idle ticks are a part of all ticks.
proof fn lemma_idle_is_part(fields: Seq<u64>)
    requires
        fields.len() >= 4,
    ensures
        idle(fields) <= sum(fields),
{
    let four = fields.take(4);
    assert(four.drop_last() =~= fields.take(3));
    lemma_sum_grows(fields, 4);
    lemma_sum_is_positive(fields.take(3));
    if fields.len() > 4 {
        assert(fields.take(5).drop_last() =~= four);
        lemma_sum_grows(fields, 5);
    }
}

/// A sum is not below zero.
proof fn lemma_sum_is_positive(s: Seq<u64>)
    ensures
        sum(s) >= 0,
    decreases s.len(),
{
    if s.len() > 0 {
        lemma_sum_is_positive(s.drop_last());
    }
}

impl Collector {
    /// A collector that has read nothing yet.
    pub fn new() -> (c: Self)
        ensures
            c@ == (CollectorView { cpu: None, disks: Map::empty(), nets: Map::empty() }),
    {
        Collector { prev_cpu: None, prev_disks: StringMap::new(), prev_nets: StringMap::new() }
    }

    /// The samples of a snapshot, and the machine's uptime in milliseconds.
    pub fn collect(&mut self, cfg: &MetricsConfig, s: Snapshot) -> (r: (Vec<MetricSample>, u64))
        requires
            old(self)@.fits(cfg.groups, s),
        ensures
            sample_views(r.0@) == old(self)@.samples(
                cfg.groups,
                string_views(cfg.network.interfaces@),
                s,
            ),
            r.1 == s.uptime_ms,
            final(self)@ == old(self)@.after(cfg.groups, s),
    {
        let uptime_ms: u64 = s.uptime_ms;
        let ghost prev = self@;
        let mut out: Vec<MetricSample> = Vec::new();
        assert(sample_views(out@) =~= Seq::empty());
        if cfg.groups.cpu {
            self.collect_cpu(&mut out, &s.cpu);
            collect_load_avg(&mut out, s.load);
            collect_cpu_temp(&mut out, &s.thermal);
        }
        let ghost after_cpu = sample_views(out@);
        if cfg.groups.memory {
            collect_memory(&mut out, s.memory);
        }
        let ghost after_memory = sample_views(out@);
        if cfg.groups.disk {
            self.collect_disk_io(&mut out, s.disks);
            collect_disk_space(&mut out, &s.mounts);
        }
        let ghost after_disk = sample_views(out@);
        if cfg.groups.network {
            let filter = if cfg.network.interfaces.len() == 0 {
                None
            } else {
                Some(&cfg.network.interfaces)
            };
            self.collect_network(&mut out, filter, s.nets);
        }
        let ghost after_network = sample_views(out@);
        if cfg.groups.system {
            collect_system(&mut out, uptime_ms, s.processes);
        }
        proof {
            let wanted = string_views(cfg.network.interfaces@);
            assert(sample_views(out@) =~= prev.samples(cfg.groups, wanted, s));
        }
        (out, uptime_ms)
    }

    fn collect_cpu(&mut self, out: &mut Vec<MetricSample>, cpu: &Option<Vec<u64>>)
        requires
            old(self)@.cpu_fits(*cpu),
        ensures
            sample_views(final(out)@) == sample_views(old(out)@) + match *cpu {
                Some(fields) => cpu_usage(old(self)@.cpu, ticks(fields@)),
                None => Seq::empty(),
            },
            final(self)@ == (CollectorView {
                cpu: match *cpu {
                    Some(fields) => Some(ticks(fields@)),
                    None => old(self)@.cpu,
                },
                ..old(self)@
            }),
    {
        let ghost had = sample_views(out@);
        let ghost prev = self@.cpu;
        if let Some(fields) = cpu {
            if let Some(now) = cpu_ticks(fields) {
                proof {
                    lemma_idle_is_part(fields@);
                }
                let since = since_last(self.prev_cpu, now);
                if since.total > 0 {
                    let usage = MetricValue::Percent {
                        part: since.total - since.idle,
                        whole: since.total,
                    };
                    put(out, "cpu_usage_percent", usage);
                }
                self.prev_cpu = Some(now);
                assert(sample_views(out@) =~= had + cpu_usage(prev, now));
            }
        } else {
            assert(sample_views(out@) =~= had + Seq::empty());
        }
    }

    fn collect_disk_io(&mut self, out: &mut Vec<MetricSample>, disks: StringMap<DiskCounters>)
        requires
            old(self)@.disks_fit(disks.pairs()),
        ensures
            sample_views(final(out)@) == sample_views(old(out)@) + disk_samples(
                old(self)@.disks,
                disks.pairs(),
            ),
            final(self)@ == (CollectorView { disks: disks@, ..old(self)@ }),
    {
        let ghost had = sample_views(out@);
        let ghost prev = self@.disks;
        let ghost pairs = disks.pairs();
        let n: usize = disks.len();
        assert(pairs.take(0) =~= Seq::empty());
        assert(had + disk_samples(prev, pairs.take(0)) =~= had);
        for i in 0..n
            invariant
                pairs == disks.pairs(),
                n == pairs.len(),
                *self == *old(self),
                prev == self@.disks,
                prev == self.prev_disks@,
                self@.disks_fit(pairs),
                sample_views(out@) == had + disk_samples(prev, pairs.take(i as int)),
        {
            proof {
                assert(pairs.take(i + 1).drop_last() =~= pairs.take(i as int));
                assert(pairs.take(i + 1).last() == pairs[i as int]);
            }
            let dev = disks.key_at(i);
            let now = disks.value_at(i);
            if let Some(then) = self.prev_disks.get(dev.as_str()) {
                let read: u64 = now.read_sectors.saturating_sub(then.read_sectors) * 512;
                let written: u64 = now.write_sectors.saturating_sub(then.write_sectors) * 512;
                let read = MetricValue::Int(to_signed(read));
                let written = MetricValue::Int(to_signed(written));
                put_labelled(out, "disk_read_bytes", read, "device", dev);
                put_labelled(out, "disk_write_bytes", written, "device", dev);
            }
            assert(sample_views(out@) =~= had + disk_samples(prev, pairs.take(i + 1)));
        }
        assert(pairs.take(pairs.len() as int) =~= pairs);
        self.prev_disks = disks;
    }

    /// Appends the traffic of each interface since the last reading, and remembers this
    /// one. Every interface that the filter lets pass and that was there at the last
    /// reading gives four samples, and no other gives any.
    pub fn collect_network(
        &mut self,
        out: &mut Vec<MetricSample>,
        filter: Option<&Vec<String>>,
        nets: StringMap<NetCounters>,
    )
        ensures
            sample_views(final(out)@) == sample_views(old(out)@) + net_samples(
                old(self)@.nets,
                filter_views(filter),
                nets.pairs(),
            ),
            final(self)@ == (CollectorView { nets: nets@, ..old(self)@ }),
            four_per_interface(
                old(self)@.nets,
                filter_views(filter),
                nets@,
                net_samples(old(self)@.nets, filter_views(filter), nets.pairs()),
            ),
    {
        let ghost had = sample_views(out@);
        let ghost prev = self@.nets;
        let ghost names = filter_views(filter);
        let ghost pairs = nets.pairs();
        let n: usize = nets.len();
        assert(pairs.take(0) =~= Seq::empty());
        assert(had + net_samples(prev, names, pairs.take(0)) =~= had);
        for i in 0..n
            invariant
                pairs == nets.pairs(),
                n == pairs.len(),
                names == filter_views(filter),
                *self == *old(self),
                prev == self@.nets,
                prev == self.prev_nets@,
                sample_views(out@) == had + net_samples(prev, names, pairs.take(i as int)),
        {
            proof {
                assert(pairs.take(i + 1).drop_last() =~= pairs.take(i as int));
                assert(pairs.take(i + 1).last() == pairs[i as int]);
            }
            let iface = nets.key_at(i);
            let now = nets.value_at(i);
            if is_reported(filter, iface) {
                if let Some(then) = self.prev_nets.get(iface.as_str()) {
                    let rx = MetricValue::Int(to_signed(now.rx_bytes.saturating_sub(then.rx_bytes)));
                    let tx = MetricValue::Int(to_signed(now.tx_bytes.saturating_sub(then.tx_bytes)));
                    let rx_errors = MetricValue::Int(
                        to_signed(now.rx_errors.saturating_sub(then.rx_errors)),
                    );
                    let tx_errors = MetricValue::Int(
                        to_signed(now.tx_errors.saturating_sub(then.tx_errors)),
                    );
                    put_labelled(out, "net_rx_bytes", rx, "interface", iface);
                    put_labelled(out, "net_tx_bytes", tx, "interface", iface);
                    put_labelled(out, "net_rx_errors", rx_errors, "interface", iface);
                    put_labelled(out, "net_tx_errors", tx_errors, "interface", iface);
                }
            }
            assert(sample_views(out@) =~= had + net_samples(prev, names, pairs.take(i + 1)));
        }
        proof {
            assert(pairs.take(pairs.len() as int) =~= pairs);
            lemma_four_per_interface(prev, names, pairs);
        }
        self.prev_nets = nets;
    }

    /// Can the samples of a snapshot be computed?
    pub fn can_collect(&self, cfg: &MetricsConfig, s: &Snapshot) -> (b: bool)
        ensures
            b == self@.fits(cfg.groups, *s),
    {
        if cfg.groups.cpu && !self.can_collect_cpu(&s.cpu) {
            return false;
        }
        if cfg.groups.memory {
            if let Some(m) = s.memory {
                if m.total.checked_mul(1024).is_none() || m.available.checked_mul(1024).is_none()
                    || m.swap_total.checked_mul(1024).is_none() || m.swap_free.checked_mul(
                    1024,
                ).is_none() || (m.total > 0 && m.available > m.total) || (m.swap_total > 0
                    && m.swap_free > m.swap_total) {
                    return false;
                }
            }
        }
        if cfg.groups.disk {
            if !self.can_collect_disks(&s.disks) {
                return false;
            }
            for i in 0..s.mounts.len()
                invariant
                    cfg.groups.disk,
                    forall|j: int| 0 <= j < i ==> mount_fits((#[trigger] s.mounts@[j])@),
            {
                if !mount_is_sound(&s.mounts[i]) {
                    return false;
                }
            }
        }
        true
    }

    fn can_collect_cpu(&self, cpu: &Option<Vec<u64>>) -> (b: bool)
        ensures
            b == self@.cpu_fits(*cpu),
    {
        match cpu {
            Some(fields) => {
                if fields.len() < 4 {
                    return false;
                }
                match cpu_ticks(fields) {
                    Some(now) => {
                        let since = since_last(self.prev_cpu, now);
                        self.prev_cpu.is_none() || since.total == 0 || since.idle <= since.total
                    },
                    None => false,
                }
            },
            None => true,
        }
    }

    fn can_collect_disks(&self, disks: &StringMap<DiskCounters>) -> (b: bool)
        ensures
            b == self@.disks_fit(disks.pairs()),
    {
        let n: usize = disks.len();
        for i in 0..n
            invariant
                n == disks.pairs().len(),
                self@.disks == self.prev_disks@,
                forall|j: int|
                    0 <= j < i && self@.disks.contains_key((#[trigger] disks.pairs()[j]).0) ==> ({
                        let then = self@.disks[disks.pairs()[j].0];
                        &&& delta(disks.pairs()[j].1.read_sectors, then.read_sectors) * 512
                            <= u64::MAX
                        &&& delta(disks.pairs()[j].1.write_sectors, then.write_sectors) * 512
                            <= u64::MAX
                    }),
        {
            let now = disks.value_at(i);
            if let Some(then) = self.prev_disks.get(disks.key_at(i).as_str()) {
                let read: u64 = now.read_sectors.saturating_sub(then.read_sectors);
                let written: u64 = now.write_sectors.saturating_sub(then.write_sectors);
                if read.checked_mul(512).is_none() || written.checked_mul(512).is_none() {
                    assert(self@.disks.contains_key(disks.pairs()[i as int].0));
                    return false;
                }
            }
        }
        true
    }
}

fn mount_is_sound(m: &MountSpace) -> (b: bool)
    ensures
        b == mount_fits(m@),
{
    match (m.available.checked_mul(m.block_size), m.blocks.checked_mul(m.block_size)) {
        (Some(free), Some(total)) => total == 0 || free <= total,
        _ => false,
    }
}

// ---------------------------------------------------------------------------
// Laws
// ---------------------------------------------------------------------------

/// The first reading reports no difference: nothing of disks and nothing of interfaces.
pub proof fn law_first_reading_has_no_deltas(
    disks: Seq<(Seq<char>, DiskCounters)>,
    filter: Option<Seq<Seq<char>>>,
    nets: Seq<(Seq<char>, NetCounters)>,
)
    ensures
        disk_samples(Map::empty(), disks) == Seq::<SampleView>::empty(),
        net_samples(Map::empty(), filter, nets) == Seq::<SampleView>::empty(),
    decreases disks.len() + nets.len(),
{
    if disks.len() > 0 {
        law_first_reading_has_no_deltas(disks.drop_last(), filter, nets);
    } else if nets.len() > 0 {
        law_first_reading_has_no_deltas(disks, filter, nets.drop_last());
    }
}

/// The usage of the processors is reported at every reading, the first one too, as long
/// as any time has passed.
pub proof fn law_usage_is_reported_every_time(prev: Option<CpuTicks>, now: CpuTicks)
    requires
        ticks_since(prev, now).total > 0,
    ensures
        cpu_usage(prev, now).len() == 1,
        cpu_usage(prev, now)[0].name == "cpu_usage_percent"@,
{
}

/// The samples with the label `key` set to `text`, and no other label, in their order.
pub open spec fn samples_with(samples: Seq<SampleView>, key: Seq<char>, text: Seq<char>) -> Seq<
    SampleView,
>
    decreases samples.len(),
{
    if samples.len() == 0 {
        samples
    } else {
        let rest = samples_with(samples.drop_last(), key, text);
        if samples.last().labels == seq![(key, text)] {
            rest.push(samples.last())
        } else {
            rest
        }
    }
}

/// Every one of some samples has the label `key` set to `text`, and no other.
spec fn all_with(samples: Seq<SampleView>, key: Seq<char>, text: Seq<char>) -> bool {
    forall|i: int| 0 <= i < samples.len() ==> (#[trigger] samples[i]).labels == seq![(key, text)]
}

/// Samples of one text, put behind others, are found or left out as a whole.
proof fn lemma_samples_with(
    front: Seq<SampleView>,
    back: Seq<SampleView>,
    key: Seq<char>,
    text: Seq<char>,
    wanted: Seq<char>,
)
    requires
        all_with(back, key, text),
    ensures
        samples_with(front + back, key, wanted) == if text == wanted {
            samples_with(front, key, wanted) + back
        } else {
            samples_with(front, key, wanted)
        },
    decreases back.len(),
{
    if back.len() == 0 {
        assert(front + back =~= front);
        assert(samples_with(front, key, wanted) + back =~= samples_with(front, key, wanted));
    } else {
        let less = back.drop_last();
        assert(all_with(less, key, text)) by {
            assert forall|i: int| 0 <= i < less.len() implies (#[trigger] less[i]).labels == seq![
                (key, text),
            ] by {
                assert(less[i] == back[i]);
            }
        }
        lemma_samples_with(front, less, key, text, wanted);
        assert((front + back).drop_last() =~= front + less);
        assert((front + back).last() == back.last());
        assert(back[back.len() - 1].labels == seq![(key, text)]);
        if text == wanted {
            assert((samples_with(front, key, wanted) + less).push(back.last())
                =~= samples_with(front, key, wanted) + back);
        } else {
            assert(seq![(key, text)][0] != seq![(key, wanted)][0]);
        }
    }
}

/// How many of some interfaces are reported and were there at the last reading.
pub open spec fn compared(
    prev: Map<Seq<char>, NetCounters>,
    filter: Option<Seq<Seq<char>>>,
    nets: Seq<(Seq<char>, NetCounters)>,
) -> nat
    decreases nets.len(),
{
    if nets.len() == 0 {
        0
    } else {
        compared(prev, filter, nets.drop_last()) + if reported(filter, nets.last().0)
            && prev.contains_key(nets.last().0) {
            1nat
        } else {
            0nat
        }
    }
}

/// Each interface that is reported and was there at the last reading gives exactly four
/// samples, each the difference of one counter; every other interface gives none; and
/// there are no other samples.
pub proof fn law_interface_gives_four_deltas(
    prev: Map<Seq<char>, NetCounters>,
    filter: Option<Seq<Seq<char>>>,
    nets: Seq<(Seq<char>, NetCounters)>,
    iface: Seq<char>,
)
    requires
        ascending(nets),
    ensures
        forall|i: int|
            0 <= i < nets.len() && (#[trigger] nets[i]).0 == iface && reported(filter, iface)
                && prev.contains_key(iface) ==> samples_with(
                net_samples(prev, filter, nets),
                "interface"@,
                iface,
            ) == net_four(iface, nets[i].1, prev[iface]),
        (!reported(filter, iface) || !prev.contains_key(iface) || forall|i: int|
            0 <= i < nets.len() ==> (#[trigger] nets[i]).0 != iface) ==> samples_with(
            net_samples(prev, filter, nets),
            "interface"@,
            iface,
        ).len() == 0,
        net_samples(prev, filter, nets).len() == 4 * compared(prev, filter, nets),
    decreases nets.len(),
{
    if nets.len() > 0 {
        let rest = nets.drop_last();
        let (last, now) = nets.last();
        assert(ascending(rest)) by {
            assert forall|i: int, j: int| 0 <= i < j < rest.len() implies before(
                (#[trigger] rest[i]).0,
                (#[trigger] rest[j]).0,
            ) by {
                assert(rest[i] == nets[i] && rest[j] == nets[j]);
            }
        }
        law_interface_gives_four_deltas(prev, filter, rest, iface);
        assert(nets[nets.len() - 1].0 == last);
        assert forall|i: int| 0 <= i < rest.len() implies (#[trigger] nets[i]).0 != last && nets[i]
            == rest[i] by {
            assert(before(nets[i].0, nets[nets.len() - 1].0));
            lemma_before_asymmetric(last, last);
        }
        let front = net_samples(prev, filter, rest);
        if reported(filter, last) && prev.contains_key(last) {
            let back = net_four(last, now, prev[last]);
            lemma_samples_with(front, back, "interface"@, last, iface);
            if last == iface {
                assert forall|i: int| 0 <= i < rest.len() implies (#[trigger] rest[i]).0 != iface by {
                    assert(nets[i].0 != last);
                }
                assert(samples_with(front, "interface"@, iface) =~= Seq::empty());
                assert(Seq::<SampleView>::empty() + back =~= back);
            }
        }
    }
}

/// The samples `out` are those of the interfaces `nets`, against the last reading `prev`:
/// those with the label of an interface are its four differences where it is reported and
/// was there at the last reading, and none otherwise; and each one has such a label.
pub open spec fn four_per_interface(
    prev: Map<Seq<char>, NetCounters>,
    filter: Option<Seq<Seq<char>>>,
    nets: Map<Seq<char>, NetCounters>,
    out: Seq<SampleView>,
) -> bool {
    &&& forall|iface: Seq<char>| #[trigger]
        samples_with(out, "interface"@, iface) == if nets.contains_key(iface) && reported(
            filter,
            iface,
        ) && prev.contains_key(iface) {
            net_four(iface, nets[iface], prev[iface])
        } else {
            Seq::empty()
        }
    &&& forall|i: int|
        0 <= i < out.len() ==> exists|iface: Seq<char>|
            nets.contains_key(iface) && (#[trigger] out[i]).labels == seq![("interface"@, iface)]
}

proof fn lemma_four_per_interface(
    prev: Map<Seq<char>, NetCounters>,
    filter: Option<Seq<Seq<char>>>,
    nets: Seq<(Seq<char>, NetCounters)>,
)
    requires
        ascending(nets),
    ensures
        four_per_interface(prev, filter, pairs_map(nets), net_samples(prev, filter, nets)),
{
    let out = net_samples(prev, filter, nets);
    let map = pairs_map(nets);
    lemma_pairs_map(nets);
    assert forall|iface: Seq<char>| #[trigger]
        samples_with(out, "interface"@, iface) == if map.contains_key(iface) && reported(
            filter,
            iface,
        ) && prev.contains_key(iface) {
            net_four(iface, map[iface], prev[iface])
        } else {
            Seq::empty()
        } by {
        law_interface_gives_four_deltas(prev, filter, nets, iface);
        if map.contains_key(iface) {
            let i = choose|i: int| 0 <= i < nets.len() && (#[trigger] nets[i]).0 == iface;
            assert(nets[i].0 == iface);
        } else {
            assert forall|i: int| 0 <= i < nets.len() implies (#[trigger] nets[i]).0 != iface by {
                assert(map.contains_key(nets[i].0));
            }
        }
    }
    assert forall|i: int| 0 <= i < out.len() implies exists|iface: Seq<char>|
        map.contains_key(iface) && (#[trigger] out[i]).labels == seq![("interface"@, iface)] by {
        let j = lemma_net_label(prev, filter, nets, i);
        assert(map.contains_key(nets[j].0));
    }
}

/// A sample of some interfaces has the label of one of them.
proof fn lemma_net_label(
    prev: Map<Seq<char>, NetCounters>,
    filter: Option<Seq<Seq<char>>>,
    nets: Seq<(Seq<char>, NetCounters)>,
    i: int,
) -> (j: int)
    requires
        0 <= i < net_samples(prev, filter, nets).len(),
    ensures
        0 <= j < nets.len(),
        net_samples(prev, filter, nets)[i].labels == seq![("interface"@, nets[j].0)],
    decreases nets.len(),
{
    let rest = nets.drop_last();
    if i < net_samples(prev, filter, rest).len() {
        let j = lemma_net_label(prev, filter, rest, i);
        assert(rest[j] == nets[j]);
        j
    } else {
        nets.len() - 1
    }
}

/// How many of some disks were there at the last reading.
pub open spec fn compared_disks(
    prev: Map<Seq<char>, DiskCounters>,
    disks: Seq<(Seq<char>, DiskCounters)>,
) -> nat
    decreases disks.len(),
{
    if disks.len() == 0 {
        0
    } else {
        compared_disks(prev, disks.drop_last()) + if prev.contains_key(disks.last().0) {
            1nat
        } else {
            0nat
        }
    }
}

/// Each disk that was there at the last reading gives exactly two samples, each the
/// difference of one counter; every other disk gives none; and there are no other
/// samples.
pub proof fn law_disk_gives_two_deltas(
    prev: Map<Seq<char>, DiskCounters>,
    disks: Seq<(Seq<char>, DiskCounters)>,
    dev: Seq<char>,
)
    requires
        ascending(disks),
    ensures
        forall|i: int|
            0 <= i < disks.len() && (#[trigger] disks[i]).0 == dev && prev.contains_key(dev)
                ==> samples_with(disk_samples(prev, disks), "device"@, dev) == disk_pair(
                dev,
                disks[i].1,
                prev[dev],
            ),
        (!prev.contains_key(dev) || forall|i: int|
            0 <= i < disks.len() ==> (#[trigger] disks[i]).0 != dev) ==> samples_with(
            disk_samples(prev, disks),
            "device"@,
            dev,
        ).len() == 0,
        disk_samples(prev, disks).len() == 2 * compared_disks(prev, disks),
    decreases disks.len(),
{
    if disks.len() > 0 {
        let rest = disks.drop_last();
        let (last, now) = disks.last();
        assert(ascending(rest)) by {
            assert forall|i: int, j: int| 0 <= i < j < rest.len() implies before(
                (#[trigger] rest[i]).0,
                (#[trigger] rest[j]).0,
            ) by {
                assert(rest[i] == disks[i] && rest[j] == disks[j]);
            }
        }
        law_disk_gives_two_deltas(prev, rest, dev);
        assert(disks[disks.len() - 1].0 == last);
        assert forall|i: int| 0 <= i < rest.len() implies (#[trigger] disks[i]).0 != last && disks[i]
            == rest[i] by {
            assert(before(disks[i].0, disks[disks.len() - 1].0));
            lemma_before_asymmetric(last, last);
        }
        let front = disk_samples(prev, rest);
        if prev.contains_key(last) {
            let back = disk_pair(last, now, prev[last]);
            lemma_samples_with(front, back, "device"@, last, dev);
            if last == dev {
                assert forall|i: int| 0 <= i < rest.len() implies (#[trigger] rest[i]).0 != dev by {
                    assert(disks[i].0 != last);
                }
                assert(samples_with(front, "device"@, dev) =~= Seq::empty());
                assert(Seq::<SampleView>::empty() + back =~= back);
            }
        }
    }
}

/// The next reading is compared with all that this one read: interfaces that are not
/// reported are remembered too.
pub proof fn law_whole_reading_is_remembered(
    c: CollectorView,
    groups: MetricGroups,
    s: Snapshot,
)
    ensures
        groups.network ==> c.after(groups, s).nets == s.nets@,
        groups.disk ==> c.after(groups, s).disks == s.disks@,
        groups.cpu ==> (s.cpu matches Some(fields) ==> c.after(groups, s).cpu == Some(
            ticks(fields@),
        )),
{
}

/// The differences between consecutive readings of a counter, added up.
pub open spec fn deltas(readings: Seq<u64>) -> int
    decreases readings.len(),
{
    if readings.len() < 2 {
        0
    } else {
        deltas(readings.drop_last()) + delta(readings.last(), readings[readings.len() - 2])
    }
}

/// As long as a counter does not go back, the differences over a window add up to what
/// was counted in it.
pub proof fn law_deltas_add_up(readings: Seq<u64>)
    requires
        readings.len() > 0,
        forall|i: int, j: int| 0 <= i <= j < readings.len() ==> readings[i] <= readings[j],
    ensures
        deltas(readings) == readings.last() - readings[0],
    decreases readings.len(),
{
    if readings.len() >= 2 {
        law_deltas_add_up(readings.drop_last());
    }
}

/// A sample is a proper share, if it is one: the part is no greater than the whole, and
/// the whole is not zero.
pub open spec fn proper_share(s: SampleView) -> bool {
    s.value matches MetricValue::Percent { part, whole } ==> part <= whole && 0 < whole
}

/// All samples are proper shares, if they are shares.
pub open spec fn proper_shares(samples: Seq<SampleView>) -> bool {
    forall|i: int| 0 <= i < samples.len() ==> proper_share(#[trigger] samples[i])
}

/// Every percentage lies between zero and a hundred.
pub proof fn law_percentages_are_proper(
    c: CollectorView,
    groups: MetricGroups,
    wanted: Seq<Seq<char>>,
    s: Snapshot,
)
    requires
        c.fits(groups, s),
    ensures
        proper_shares(c.samples(groups, wanted, s)),
{
    let none = Seq::<SampleView>::empty();
    let usage = match s.cpu {
        Some(fields) => cpu_usage(c.cpu, ticks(fields@)),
        None => Seq::empty(),
    };
    let thermal = thermal_samples(thermal_views(s.thermal@));
    let cpu = if groups.cpu {
        usage + load_samples(s.load) + thermal
    } else {
        none
    };
    lemma_thermal_shares(thermal_views(s.thermal@));
    assert(proper_shares(load_samples(s.load)));
    if groups.cpu {
        if let Some(fields) = s.cpu {
            lemma_idle_is_part(fields@);
        }
        assert(proper_shares(usage));
        lemma_joined_shares(usage, load_samples(s.load));
        lemma_joined_shares(usage + load_samples(s.load), thermal);
    }
    let memory = if groups.memory {
        memory_samples(s.memory)
    } else {
        none
    };
    if groups.memory {
        lemma_memory_shares(s.memory);
    }
    let disks = disk_samples(c.disks, s.disks.pairs());
    let mounts = mount_samples(mount_views(s.mounts@));
    let disk = if groups.disk {
        disks + mounts
    } else {
        none
    };
    if groups.disk {
        assert forall|i: int| 0 <= i < mount_views(s.mounts@).len() implies mount_fits(
            #[trigger] mount_views(s.mounts@)[i],
        ) by {
            assert(mount_fits(s.mounts@[i]@));
        }
        lemma_disk_shares(c.disks, s.disks.pairs());
        lemma_mount_shares(mount_views(s.mounts@));
        lemma_joined_shares(disks, mounts);
    }
    let network = if groups.network {
        net_samples(c.nets, filter_of(wanted), s.nets.pairs())
    } else {
        none
    };
    lemma_net_shares(c.nets, filter_of(wanted), s.nets.pairs());
    let system = if groups.system {
        system_samples(s.uptime_ms, s.processes)
    } else {
        none
    };
    assert(proper_shares(system));
    lemma_joined_shares(cpu, memory);
    lemma_joined_shares(cpu + memory, disk);
    lemma_joined_shares(cpu + memory + disk, network);
    lemma_joined_shares(cpu + memory + disk + network, system);
}

proof fn lemma_joined_shares(a: Seq<SampleView>, b: Seq<SampleView>)
    requires
        proper_shares(a),
        proper_shares(b),
    ensures
        proper_shares(a + b),
{
    assert forall|i: int| 0 <= i < (a + b).len() implies proper_share(#[trigger] (a + b)[i]) by {
        if i < a.len() {
            assert(proper_share(a[i]));
        } else {
            assert(proper_share(b[i - a.len()]));
        }
    }
}

proof fn lemma_memory_shares(memory: Option<MemInfo>)
    requires
        memory matches Some(m) ==> memory_fits(m),
    ensures
        proper_shares(memory_samples(memory)),
{
    if let Some(m) = memory {
        let sizes = seq![
            plain("mem_total_bytes"@, MetricValue::Int(signed(m.total * 1024))),
            plain("mem_available_bytes"@, MetricValue::Int(signed(m.available * 1024))),
        ];
        let mem = used("mem_used_percent"@, m.total * 1024, m.available * 1024);
        let swap = used("swap_used_percent"@, m.swap_total * 1024, m.swap_free * 1024);
        lemma_joined_shares(sizes, mem);
        lemma_joined_shares(sizes + mem, swap);
    }
}

proof fn lemma_thermal_shares(entries: Seq<ThermalView>)
    ensures
        proper_shares(thermal_samples(entries)),
    decreases entries.len(),
{
    if entries.len() > 0 {
        lemma_thermal_shares(entries.drop_last());
    }
}

proof fn lemma_disk_shares(
    prev: Map<Seq<char>, DiskCounters>,
    disks: Seq<(Seq<char>, DiskCounters)>,
)
    ensures
        proper_shares(disk_samples(prev, disks)),
    decreases disks.len(),
{
    if disks.len() > 0 {
        lemma_disk_shares(prev, disks.drop_last());
    }
}

proof fn lemma_mount_shares(mounts: Seq<MountView>)
    requires
        forall|i: int| 0 <= i < mounts.len() ==> mount_fits(#[trigger] mounts[i]),
    ensures
        proper_shares(mount_samples(mounts)),
    decreases mounts.len(),
{
    if mounts.len() > 0 {
        let rest = mounts.drop_last();
        assert forall|i: int| 0 <= i < rest.len() implies mount_fits(#[trigger] rest[i]) by {
            assert(rest[i] == mounts[i]);
        }
        lemma_mount_shares(rest);
        let m = mounts.last();
        assert(mount_fits(mounts[mounts.len() - 1]));
        assert(m.available * m.block_size >= 0) by (nonlinear_arith);
        assert(proper_shares(mount_sample(m)));
    }
}

proof fn lemma_net_shares(
    prev: Map<Seq<char>, NetCounters>,
    filter: Option<Seq<Seq<char>>>,
    nets: Seq<(Seq<char>, NetCounters)>,
)
    ensures
        proper_shares(net_samples(prev, filter, nets)),
    decreases nets.len(),
{
    if nets.len() > 0 {
        lemma_net_shares(prev, filter, nets.drop_last());
    }
}

} // verus!
