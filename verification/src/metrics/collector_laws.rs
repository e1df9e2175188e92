//! What the samples of a snapshot are, in numbers: sizes in bytes, shares of a whole,
//! differences between two readings.

use vstd::prelude::*;
use crate::config::MetricGroups;
use crate::metrics::collector::{compared, compared_disks, cpu_usage, disk_samples, filter_of};
use crate::metrics::collector::{law_disk_gives_two_deltas, law_interface_gives_four_deltas};
use crate::metrics::collector::{load_samples, memory_samples, mount_sample, mount_samples};
use crate::metrics::collector::{mount_views, net_samples, samples_with, sum, system_samples};
use crate::metrics::collector::{thermal_samples, thermal_views, ticks, CollectorView};
use crate::metrics::collector::{CpuTicks, MountView, Snapshot};
use crate::metrics::proc_files::{thermal_zone, DiskCounters, MemInfo, NetCounters, ThermalView};
use crate::metrics::{MetricValue, SampleView};
use crate::string_map::ascending;

verus! {

/// The sample of this name and value, without labels; it is no running total.
pub open spec fn gauge(name: Seq<char>, value: MetricValue) -> SampleView {
    SampleView { name, value, labels: Seq::empty(), counter: false }
}

/// The same with one label.
pub open spec fn gauge_of(
    name: Seq<char>,
    value: MetricValue,
    key: Seq<char>,
    text: Seq<char>,
) -> SampleView {
    SampleView { name, value, labels: seq![(key, text)], counter: false }
}

// ---------------------------------------------------------------------------
// Disks and interfaces
// ---------------------------------------------------------------------------

/// How far a counter has come between two readings, by `n`; where it has gone back, that
/// counts as nothing.
pub open spec fn came_by(then: u64, now: u64, n: nat) -> bool {
    now == then + n || (now < then && n == 0)
}

/// A disk that was there at the last reading has two samples: the bytes read and the bytes
/// written since, 512 for each sector.
pub proof fn law_disk_traffic_is_in_bytes(
    prev: Map<Seq<char>, DiskCounters>,
    disks: Seq<(Seq<char>, DiskCounters)>,
    i: int,
    read: nat,
    written: nat,
)
    requires
        ascending(disks),
        0 <= i < disks.len(),
        prev.contains_key(disks[i].0),
        came_by(prev[disks[i].0].read_sectors, disks[i].1.read_sectors, read),
        came_by(prev[disks[i].0].write_sectors, disks[i].1.write_sectors, written),
        512 * read <= i64::MAX,
        512 * written <= i64::MAX,
    ensures
        samples_with(disk_samples(prev, disks), "device"@, disks[i].0) == seq![
            gauge_of(
                "disk_read_bytes"@,
                MetricValue::Int((512 * read) as i64),
                "device"@,
                disks[i].0,
            ),
            gauge_of(
                "disk_write_bytes"@,
                MetricValue::Int((512 * written) as i64),
                "device"@,
                disks[i].0,
            ),
        ],
{
    law_disk_gives_two_deltas(prev, disks, disks[i].0);
}

/// An interface that is reported and was there at the last reading has four samples: the
/// bytes received and sent since, and the errors in both directions.
pub proof fn law_interface_traffic_is_counted(
    prev: Map<Seq<char>, NetCounters>,
    filter: Option<Seq<Seq<char>>>,
    nets: Seq<(Seq<char>, NetCounters)>,
    i: int,
    received: nat,
    sent: nat,
    bad_received: nat,
    bad_sent: nat,
)
    requires
        ascending(nets),
        0 <= i < nets.len(),
        prev.contains_key(nets[i].0),
        filter is None || filter->0.contains(nets[i].0),
        came_by(prev[nets[i].0].rx_bytes, nets[i].1.rx_bytes, received),
        came_by(prev[nets[i].0].tx_bytes, nets[i].1.tx_bytes, sent),
        came_by(prev[nets[i].0].rx_errors, nets[i].1.rx_errors, bad_received),
        came_by(prev[nets[i].0].tx_errors, nets[i].1.tx_errors, bad_sent),
        received <= i64::MAX,
        sent <= i64::MAX,
        bad_received <= i64::MAX,
        bad_sent <= i64::MAX,
    ensures
        samples_with(net_samples(prev, filter, nets), "interface"@, nets[i].0) == seq![
            gauge_of("net_rx_bytes"@, MetricValue::Int(received as i64), "interface"@, nets[i].0),
            gauge_of("net_tx_bytes"@, MetricValue::Int(sent as i64), "interface"@, nets[i].0),
            gauge_of(
                "net_rx_errors"@,
                MetricValue::Int(bad_received as i64),
                "interface"@,
                nets[i].0,
            ),
            gauge_of("net_tx_errors"@, MetricValue::Int(bad_sent as i64), "interface"@, nets[i].0),
        ],
{
    law_interface_gives_four_deltas(prev, filter, nets, nets[i].0);
}

/// What is not there at both readings has no samples, nor has an interface that is named by
/// no filter where there is one.
pub proof fn law_no_difference_without_two_readings(
    disks_before: Map<Seq<char>, DiskCounters>,
    disks: Seq<(Seq<char>, DiskCounters)>,
    nets_before: Map<Seq<char>, NetCounters>,
    filter: Option<Seq<Seq<char>>>,
    nets: Seq<(Seq<char>, NetCounters)>,
    name: Seq<char>,
)
    requires
        ascending(disks),
        ascending(nets),
    ensures
        !disks_before.contains_key(name) ==> samples_with(
            disk_samples(disks_before, disks),
            "device"@,
            name,
        ).len() == 0,
        (forall|i: int| 0 <= i < disks.len() ==> (#[trigger] disks[i]).0 != name) ==> samples_with(
            disk_samples(disks_before, disks),
            "device"@,
            name,
        ).len() == 0,
        !nets_before.contains_key(name) ==> samples_with(
            net_samples(nets_before, filter, nets),
            "interface"@,
            name,
        ).len() == 0,
        filter is Some && !filter->0.contains(name) ==> samples_with(
            net_samples(nets_before, filter, nets),
            "interface"@,
            name,
        ).len() == 0,
        (forall|i: int| 0 <= i < nets.len() ==> (#[trigger] nets[i]).0 != name) ==> samples_with(
            net_samples(nets_before, filter, nets),
            "interface"@,
            name,
        ).len() == 0,
{
    law_disk_gives_two_deltas(disks_before, disks, name);
    law_interface_gives_four_deltas(nets_before, filter, nets, name);
}

/// Every sample of a disk has its device as its label, and every sample of an interface
/// its interface.
pub proof fn law_differences_are_labelled(
    disks_before: Map<Seq<char>, DiskCounters>,
    disks: Seq<(Seq<char>, DiskCounters)>,
    nets_before: Map<Seq<char>, NetCounters>,
    filter: Option<Seq<Seq<char>>>,
    nets: Seq<(Seq<char>, NetCounters)>,
    i: int,
)
    ensures
        0 <= i < disk_samples(disks_before, disks).len() ==> exists|j: int|
            0 <= j < disks.len() && disk_samples(disks_before, disks)[i].labels == seq![
                ("device"@, (#[trigger] disks[j]).0),
            ],
        0 <= i < net_samples(nets_before, filter, nets).len() ==> exists|j: int|
            0 <= j < nets.len() && net_samples(nets_before, filter, nets)[i].labels == seq![
                ("interface"@, (#[trigger] nets[j]).0),
            ],
    decreases disks.len() + nets.len(),
{
    if 0 <= i < disk_samples(disks_before, disks).len() {
        let rest = disks.drop_last();
        law_differences_are_labelled(disks_before, rest, nets_before, filter, Seq::empty(), i);
        if i < disk_samples(disks_before, rest).len() {
            let j = choose|j: int|
                0 <= j < rest.len() && disk_samples(disks_before, rest)[i].labels == seq![
                    ("device"@, (#[trigger] rest[j]).0),
                ];
            assert(disks[j] == rest[j]);
        } else {
            assert(disks[disks.len() - 1] == disks.last());
        }
    }
    if 0 <= i < net_samples(nets_before, filter, nets).len() {
        let rest = nets.drop_last();
        law_differences_are_labelled(disks_before, Seq::empty(), nets_before, filter, rest, i);
        if i < net_samples(nets_before, filter, rest).len() {
            let j = choose|j: int|
                0 <= j < rest.len() && net_samples(nets_before, filter, rest)[i].labels == seq![
                    ("interface"@, (#[trigger] rest[j]).0),
                ];
            assert(nets[j] == rest[j]);
        } else {
            assert(nets[nets.len() - 1] == nets.last());
        }
    }
}

// ---------------------------------------------------------------------------
// Processors
// ---------------------------------------------------------------------------

/// Addition of a count.
pub open spec fn adding() -> spec_fn(int, u64) -> int {
    |a: int, x: u64| a + x
}

/// All counts together.
pub open spec fn all_ticks(fields: Seq<u64>) -> int {
    fields.fold_left(0, adding())
}

/// Time spent idle and waiting: the fourth count, and the fifth where there is one.
pub open spec fn spare_ticks(fields: Seq<u64>) -> int {
    if fields.len() >= 5 {
        fields[3] + fields[4]
    } else {
        fields[3] as int
    }
}

proof fn lemma_sum(s: Seq<u64>)
    ensures
        sum(s) == all_ticks(s),
    decreases s.len(),
{
    reveal(Seq::fold_left);
    if s.len() > 0 {
        lemma_sum(s.drop_last());
    }
}

/// The usage of the processors between two readings is the share of all ticks between them
/// that was neither idle nor waiting; where no time has passed there is none. A count that
/// has gone back counts as nothing.
pub proof fn law_usage_is_the_busy_share(before: Seq<u64>, now: Seq<u64>, all: nat, spare: nat)
    requires
        before.len() >= 4,
        now.len() >= 4,
        all_ticks(before) <= u64::MAX,
        all_ticks(now) <= u64::MAX,
        spare_ticks(before) <= u64::MAX,
        spare_ticks(now) <= u64::MAX,
        came_by(all_ticks(before) as u64, all_ticks(now) as u64, all),
        came_by(spare_ticks(before) as u64, spare_ticks(now) as u64, spare),
        spare <= all,
    ensures
        all > 0 ==> cpu_usage(Some(ticks(before)), ticks(now)) == seq![
            gauge(
                "cpu_usage_percent"@,
                MetricValue::Percent { part: (all - spare) as u64, whole: all as u64 },
            ),
        ],
        all == 0 ==> cpu_usage(Some(ticks(before)), ticks(now)).len() == 0,
{
    lemma_sum(before);
    lemma_sum(now);
    lemma_ticks_positive(before);
    lemma_ticks_positive(now);
}

/// The first reading gives the share since the machine started.
pub proof fn law_first_usage_is_since_the_start(now: Seq<u64>)
    requires
        now.len() >= 4,
        all_ticks(now) <= u64::MAX,
        0 <= spare_ticks(now) <= all_ticks(now),
    ensures
        all_ticks(now) > 0 ==> cpu_usage(None, ticks(now)) == seq![
            gauge(
                "cpu_usage_percent"@,
                MetricValue::Percent {
                    part: (all_ticks(now) - spare_ticks(now)) as u64,
                    whole: all_ticks(now) as u64,
                },
            ),
        ],
        all_ticks(now) == 0 ==> cpu_usage(None, ticks(now)).len() == 0,
{
    lemma_sum(now);
}

/// The load averages over one, five and fifteen minutes are three samples, or none.
pub proof fn law_load_has_three_samples(load: Option<(u64, u64, u64)>)
    ensures
        load is None ==> load_samples(load).len() == 0,
        load matches Some((one, five, fifteen)) ==> load_samples(load) == seq![
            gauge("cpu_load_avg_1m"@, MetricValue::Float(one)),
            gauge("cpu_load_avg_5m"@, MetricValue::Float(five)),
            gauge("cpu_load_avg_15m"@, MetricValue::Float(fifteen)),
        ],
{
}

/// A thermal zone that can be read has one sample, its temperature, labelled with the zone;
/// anything else has none. The order is that of the entries.
pub proof fn law_temperature_of_each_zone(entries: Seq<ThermalView>, entry: ThermalView)
    ensures
        thermal_samples(Seq::empty()).len() == 0,
        thermal_zone(entry) is None ==> thermal_samples(entries.push(entry)) == thermal_samples(
            entries,
        ),
        thermal_zone(entry) matches Some((zone, t)) ==> thermal_samples(entries.push(entry))
            == thermal_samples(entries).push(
            gauge_of("cpu_temperature"@, MetricValue::Thousandths(t), "zone"@, zone),
        ),
{
    assert(entries.push(entry).drop_last() =~= entries);
}

// ---------------------------------------------------------------------------
// Memory, file systems, system
// ---------------------------------------------------------------------------

/// The sizes of the memory are reported in bytes, and the shares of memory and of swap
/// space that are not free, each where there is any. What is read is in units of 1024.
pub proof fn law_memory_is_reported_in_bytes(m: MemInfo)
    requires
        m.total * 1024 <= i64::MAX,
        m.swap_total * 1024 <= i64::MAX,
        m.available <= m.total,
        m.swap_free <= m.swap_total,
    ensures
        ({
            let out = memory_samples(Some(m));
            let used = gauge(
                "mem_used_percent"@,
                MetricValue::Percent {
                    part: ((m.total - m.available) * 1024) as u64,
                    whole: (m.total * 1024) as u64,
                },
            );
            let swapped = gauge(
                "swap_used_percent"@,
                MetricValue::Percent {
                    part: ((m.swap_total - m.swap_free) * 1024) as u64,
                    whole: (m.swap_total * 1024) as u64,
                },
            );
            &&& out.len() >= 2
            &&& out[0] == gauge("mem_total_bytes"@, MetricValue::Int((m.total * 1024) as i64))
            &&& out[1] == gauge(
                "mem_available_bytes"@,
                MetricValue::Int((m.available * 1024) as i64),
            )
            &&& m.total > 0 && m.swap_total > 0 ==> out.skip(2) == seq![used, swapped]
            &&& m.total > 0 && m.swap_total == 0 ==> out.skip(2) == seq![used]
            &&& m.total == 0 && m.swap_total > 0 ==> out.skip(2) == seq![swapped]
            &&& m.total == 0 && m.swap_total == 0 ==> out.len() == 2
        }),
        memory_samples(None).len() == 0,
{
}

/// A file system has its free space in bytes and, where it has any blocks at all, the share
/// of them that is not free, both labelled with where it is mounted.
pub proof fn law_file_system_is_reported_in_bytes(m: MountView, free: u64, size: u64)
    requires
        free == m.available * m.block_size,
        size == m.blocks * m.block_size,
        free <= size,
        free <= i64::MAX,
    ensures
        size > 0 ==> mount_sample(m) == seq![
            gauge_of("disk_free_bytes"@, MetricValue::Int(free as i64), "mount"@, m.mount),
            gauge_of(
                "disk_used_percent"@,
                MetricValue::Percent { part: (size - free) as u64, whole: size },
                "mount"@,
                m.mount,
            ),
        ],
        size == 0 ==> mount_sample(m) == seq![
            gauge_of("disk_free_bytes"@, MetricValue::Int(free as i64), "mount"@, m.mount),
        ],
{
}

/// Each file system adds its samples, in order.
pub proof fn law_every_file_system_is_reported(mounts: Seq<MountView>, m: MountView)
    ensures
        mount_samples(Seq::empty()).len() == 0,
        mount_samples(mounts.push(m)) == mount_samples(mounts) + mount_sample(m),
{
    assert(mounts.push(m).drop_last() =~= mounts);
}

/// The uptime is reported in whole seconds, and the number of processes where it is known.
pub proof fn law_uptime_is_reported_in_seconds(uptime_ms: u64, processes: Option<u32>)
    ensures
        ({
            let out = system_samples(uptime_ms, processes);
            &&& out.len() >= 1
            &&& out[0].name == "uptime_seconds"@
            &&& out[0].labels.len() == 0 && !out[0].counter
            &&& (out[0].value matches MetricValue::Int(secs) && secs * 1000 <= uptime_ms < secs
                * 1000 + 1000)
            &&& processes is None ==> out.len() == 1
            &&& processes matches Some(n) ==> out.skip(1) == seq![
                gauge("process_count"@, MetricValue::Int(n as i64)),
            ]
        }),
{
}

// ---------------------------------------------------------------------------
// The whole
// ---------------------------------------------------------------------------

/// The usage of the processors in a snapshot.
spec fn usage_of(c: CollectorView, s: Snapshot) -> Seq<SampleView> {
    match s.cpu {
        Some(fields) => cpu_usage(c.cpu, ticks(fields@)),
        None => Seq::empty(),
    }
}

/// Every group that is on reports all of its samples: those of the processors, the memory,
/// the disks and file systems, the interfaces, and the system. Where no interface is named
/// all are reported.
pub proof fn law_groups_report_all_they_have(
    c: CollectorView,
    groups: MetricGroups,
    interfaces: Seq<Seq<char>>,
    s: Snapshot,
    x: SampleView,
)
    ensures
        ({
            let all = c.samples(groups, interfaces, s);
            let filter = if interfaces.len() == 0 {
                None
            } else {
                Some(interfaces)
            };
            &&& groups.cpu && (s.cpu matches Some(fields) && cpu_usage(
                c.cpu,
                ticks(fields@),
            ).contains(x)) ==> all.contains(x)
            &&& groups.cpu && load_samples(s.load).contains(x) ==> all.contains(x)
            &&& groups.cpu && thermal_samples(thermal_views(s.thermal@)).contains(x)
                ==> all.contains(x)
            &&& groups.memory && memory_samples(s.memory).contains(x) ==> all.contains(x)
            &&& groups.disk && disk_samples(c.disks, s.disks.pairs()).contains(x) ==> all.contains(
                x,
            )
            &&& groups.disk && mount_samples(mount_views(s.mounts@)).contains(x) ==> all.contains(x)
            &&& groups.network && net_samples(c.nets, filter, s.nets.pairs()).contains(x)
                ==> all.contains(x)
            &&& groups.system && system_samples(s.uptime_ms, s.processes).contains(x)
                ==> all.contains(x)
        }),
{
    let none = Seq::<SampleView>::empty();
    let usage = usage_of(c, s);
    let load = load_samples(s.load);
    let thermal = thermal_samples(thermal_views(s.thermal@));
    let cpu = if groups.cpu {
        usage + load + thermal
    } else {
        none
    };
    let memory = if groups.memory {
        memory_samples(s.memory)
    } else {
        none
    };
    let disks = disk_samples(c.disks, s.disks.pairs());
    let mounts = mount_samples(mount_views(s.mounts@));
    let disk = if groups.disk {
        disks + mounts
    } else {
        none
    };
    let network = if groups.network {
        net_samples(c.nets, filter_of(interfaces), s.nets.pairs())
    } else {
        none
    };
    let system = if groups.system {
        system_samples(s.uptime_ms, s.processes)
    } else {
        none
    };
    lemma_contained(usage + load, thermal, x);
    lemma_contained(usage, load, x);
    lemma_contained(disks, mounts, x);
    lemma_contained(cpu, memory, x);
    lemma_contained(cpu + memory, disk, x);
    lemma_contained(cpu + memory + disk, network, x);
    lemma_contained(cpu + memory + disk + network, system, x);
}

proof fn lemma_contained(a: Seq<SampleView>, b: Seq<SampleView>, x: SampleView)
    ensures
        a.contains(x) || b.contains(x) ==> (a + b).contains(x),
{
    if a.contains(x) {
        let i = choose|i: int| 0 <= i < a.len() && a[i] == x;
        assert((a + b)[i] == x);
    } else if b.contains(x) {
        let i = choose|i: int| 0 <= i < b.len() && b[i] == x;
        assert((a + b)[a.len() + i] == x);
    }
}

/// A group that is off reports nothing: there are as many samples as the groups that are on
/// have, and no more. Of a snapshot, what a group that is off would have looked at is not
/// remembered.
pub proof fn law_groups_that_are_off_report_nothing(
    c: CollectorView,
    groups: MetricGroups,
    interfaces: Seq<Seq<char>>,
    s: Snapshot,
)
    requires
        ascending(s.disks.pairs()),
        ascending(s.nets.pairs()),
    ensures
        c.samples(groups, interfaces, s).len() == (if groups.cpu {
            (match s.cpu {
                Some(fields) => cpu_usage(c.cpu, ticks(fields@)).len(),
                None => 0,
            }) + load_samples(s.load).len() + thermal_samples(thermal_views(s.thermal@)).len()
        } else {
            0
        }) + (if groups.memory {
            memory_samples(s.memory).len()
        } else {
            0
        }) + (if groups.disk {
            2 * compared_disks(c.disks, s.disks.pairs()) + mount_samples(
                mount_views(s.mounts@),
            ).len()
        } else {
            0
        }) + (if groups.network {
            4 * compared(
                c.nets,
                if interfaces.len() == 0 {
                    None
                } else {
                    Some(interfaces)
                },
                s.nets.pairs(),
            )
        } else {
            0
        }) + (if groups.system {
            system_samples(s.uptime_ms, s.processes).len()
        } else {
            0
        }),
        !groups.cpu || s.cpu is None ==> c.after(groups, s).cpu == c.cpu,
        !groups.disk ==> c.after(groups, s).disks == c.disks,
        !groups.network ==> c.after(groups, s).nets == c.nets,
{
    law_disk_gives_two_deltas(c.disks, s.disks.pairs(), Seq::empty());
    law_interface_gives_four_deltas(
        c.nets,
        filter_of(interfaces),
        s.nets.pairs(),
        Seq::empty(),
    );
}

/// What is remembered of the processors is what the next usage is measured from.
pub proof fn law_next_usage_goes_on_from_here(
    c: CollectorView,
    groups: MetricGroups,
    s: Snapshot,
    fields: Vec<u64>,
)
    requires
        groups.cpu,
        s.cpu == Some(fields),
        fields@.len() >= 4,
        all_ticks(fields@) <= u64::MAX,
        spare_ticks(fields@) <= u64::MAX,
    ensures
        c.after(groups, s).cpu matches Some(CpuTicks { total, idle }) && total == all_ticks(
            fields@,
        ) && idle == spare_ticks(fields@),
{
    lemma_sum(fields@);
    lemma_ticks_positive(fields@);
}

proof fn lemma_ticks_positive(s: Seq<u64>)
    ensures
        all_ticks(s) >= 0,
    decreases s.len(),
{
    reveal(Seq::fold_left);
    if s.len() > 0 {
        lemma_ticks_positive(s.drop_last());
    }
}

// ---------------------------------------------------------------------------
// What can be collected
// ---------------------------------------------------------------------------

/// Where no size and no count goes beyond 64 bits, and no more is free than there is, a
/// snapshot can be collected; groups that are off do not matter.
pub proof fn law_sound_readings_can_be_collected(
    c: CollectorView,
    groups: MetricGroups,
    s: Snapshot,
)
    requires
        groups.cpu ==> (s.cpu matches Some(fields) ==> {
            &&& fields@.len() >= 4
            &&& all_ticks(fields@) <= u64::MAX
            &&& spare_ticks(fields@) <= u64::MAX
            &&& c.cpu matches Some(before) ==> before.total <= all_ticks(fields@) && before.idle
                <= spare_ticks(fields@) && spare_ticks(fields@) - before.idle <= all_ticks(fields@)
                - before.total
        }),
        groups.memory ==> (s.memory matches Some(m) ==> {
            &&& m.total * 1024 <= u64::MAX
            &&& m.swap_total * 1024 <= u64::MAX
            &&& m.available <= m.total
            &&& m.swap_free <= m.swap_total
        }),
        groups.disk ==> forall|i: int|
            0 <= i < s.disks.pairs().len() ==> (#[trigger] s.disks.pairs()[i]).1.read_sectors * 512
                <= u64::MAX && s.disks.pairs()[i].1.write_sectors * 512 <= u64::MAX,
        groups.disk ==> forall|i: int|
            0 <= i < s.mounts@.len() ==> {
                let m = (#[trigger] s.mounts@[i])@;
                &&& m.blocks * m.block_size <= u64::MAX
                &&& m.available <= m.blocks
            },
    ensures
        c.fits(groups, s),
{
    if let Some(fields) = s.cpu {
        lemma_sum(fields@);
        lemma_ticks_positive(fields@);
    }
    if groups.disk {
        assert forall|i: int| 0 <= i < s.mounts@.len() implies crate::metrics::collector::mount_fits(
            (#[trigger] s.mounts@[i])@,
        ) by {
            let m = s.mounts@[i]@;
            assert(m.available * m.block_size <= m.blocks * m.block_size) by (nonlinear_arith)
                requires
                    m.available <= m.blocks,
            ;
        }
    }
}

/// A count of 2^63 or more does not fit into a signed number and is reported as the negative
/// number with the same bits.
pub proof fn law_great_counts_keep_their_bits(
    prev: Map<Seq<char>, NetCounters>,
    nets: Seq<(Seq<char>, NetCounters)>,
    i: int,
)
    requires
        ascending(nets),
        0 <= i < nets.len(),
        prev.contains_key(nets[i].0),
        nets[i].1.rx_bytes - prev[nets[i].0].rx_bytes >= 9223372036854775808,
    ensures
        samples_with(net_samples(prev, None, nets), "interface"@, nets[i].0).len() == 4,
        samples_with(net_samples(prev, None, nets), "interface"@, nets[i].0)[0].value
            == MetricValue::Int(
            (nets[i].1.rx_bytes - prev[nets[i].0].rx_bytes - 18446744073709551616) as i64,
        ),
{
    law_interface_gives_four_deltas(prev, None, nets, nets[i].0);
}

} // verus!
