//! What the files under `/proc` and `/sys` say.

use vstd::prelude::*;
use crate::number::{parse_signed, parse_unsigned, read_i64, read_unsigned};
use crate::split::{lines, split_lines, split_words, texts, words};
use crate::string_map::StringMap;
use crate::text::{find, from_chars, lemma_span_holds, other_than, position, same, span};
use crate::text::{starts_with, to_chars, trim, trimmed};

verus! {

/// Sectors read and written since the machine started.
#[derive(Debug, Clone, Copy, PartialEq, Eq, Structural)]
pub struct DiskCounters {
    pub read_sectors: u64,
    pub write_sectors: u64,
}

/// Traffic of a network interface since the machine started.
#[derive(Debug, Clone, Copy, PartialEq, Eq, Structural)]
pub struct NetCounters {
    pub rx_bytes: u64,
    pub tx_bytes: u64,
    pub rx_errors: u64,
    pub tx_errors: u64,
}

/// Sizes in `/proc/meminfo`, in KiB.
#[derive(Debug, Clone, Copy, PartialEq, Eq, Structural)]
pub struct MemInfo {
    pub total: u64,
    pub available: u64,
    pub swap_total: u64,
    pub swap_free: u64,
}

// ---------------------------------------------------------------------------
// Shared pieces
// ---------------------------------------------------------------------------

/// The number that a word writes down, if it does.
pub open spec fn word_number(word: Seq<char>) -> Option<u64> {
    match parse_unsigned(word, u64::MAX as nat) {
        Some(n) => Some(n as u64),
        None => None,
    }
}

/// The number that a word writes down; zero if it does not.
pub open spec fn number_or_zero(word: Seq<char>) -> u64 {
    match word_number(word) {
        Some(n) => n,
        None => 0,
    }
}

/// The numbers among some words.
pub open spec fn word_numbers(words: Seq<Seq<char>>) -> Seq<u64>
    decreases words.len(),
{
    if words.len() == 0 {
        Seq::empty()
    } else {
        match word_number(words.last()) {
            Some(n) => word_numbers(words.drop_last()).push(n),
            None => word_numbers(words.drop_last()),
        }
    }
}

fn read_number(word: &[char]) -> (r: Option<u64>)
    ensures
        r == word_number(word@),
{
    read_unsigned(word, u64::MAX)
}

fn read_number_or_zero(word: &[char]) -> (n: u64)
    ensures
        n == number_or_zero(word@),
{
    match read_number(word) {
        Some(n) => n,
        None => 0,
    }
}

/// The numbers among the words from `from` on.
fn read_numbers(words: &Vec<&[char]>, from: usize) -> (r: Vec<u64>)
    requires
        from <= words@.len(),
    ensures
        r@ == word_numbers(texts(words@).skip(from as int)),
{
    let ghost all = texts(words@).skip(from as int);
    let mut r: Vec<u64> = Vec::new();
    assert(all.take(0) =~= Seq::empty());
    for i in from..words.len()
        invariant
            from <= words@.len(),
            all == texts(words@).skip(from as int),
            r@ == word_numbers(all.take(i - from)),
    {
        proof {
            assert(all.take(i - from + 1).drop_last() =~= all.take(i - from));
            assert(all.take(i - from + 1).last() == words@[i as int]@);
        }
        if let Some(n) = read_number(words[i]) {
            r.push(n);
        }
    }
    assert(all.take(all.len() as int) =~= all);
    r
}

// ---------------------------------------------------------------------------
// /proc/uptime, /proc/loadavg
// ---------------------------------------------------------------------------

/// The first word of `/proc/uptime`.
pub open spec fn uptime_text(content: Seq<char>) -> Option<Seq<char>> {
    if words(content).len() == 0 {
        None
    } else {
        Some(words(content)[0])
    }
}

/// The first three words of `/proc/loadavg`.
pub open spec fn load_texts(content: Seq<char>) -> Option<(Seq<char>, Seq<char>, Seq<char>)> {
    if words(content).len() < 3 {
        None
    } else {
        Some((words(content)[0], words(content)[1], words(content)[2]))
    }
}

/// The first word of `/proc/uptime`: seconds since the machine started.
pub fn uptime_word(content: &str) -> (r: Option<String>)
    ensures
        match r {
            Some(w) => uptime_text(content@) == Some(w@),
            None => uptime_text(content@) is None,
        },
{
    let chars = to_chars(content);
    let w = split_words(chars.as_slice());
    if w.len() == 0 {
        return None;
    }
    assert(texts(w@)[0] == w@[0]@);
    Some(from_chars(w[0]))
}

/// The first three words of `/proc/loadavg`: the load over one, five and fifteen minutes.
pub fn load_words(content: &str) -> (r: Option<(String, String, String)>)
    ensures
        match r {
            Some((a, b, c)) => load_texts(content@) == Some((a@, b@, c@)),
            None => load_texts(content@) is None,
        },
{
    let chars = to_chars(content);
    let w = split_words(chars.as_slice());
    if w.len() < 3 {
        return None;
    }
    proof {
        assert(texts(w@)[0] == w@[0]@);
        assert(texts(w@)[1] == w@[1]@);
        assert(texts(w@)[2] == w@[2]@);
    }
    Some((from_chars(w[0]), from_chars(w[1]), from_chars(w[2])))
}

/// The number of processes in the fourth word of `/proc/loadavg`, which reads
/// `running/total`.
pub open spec fn process_count(content: Seq<char>) -> Option<nat> {
    if words(content).len() < 4 {
        None
    } else {
        let word = words(content)[3];
        match position(word, '/') {
            Some(i) => {
                let rest = word.skip(i + 1);
                parse_unsigned(rest.take(span(rest, other_than('/')) as int), u32::MAX as nat)
            },
            None => None,
        }
    }
}

/// Reads the number of processes.
pub fn read_process_count(content: &str) -> (r: Option<u32>)
    ensures
        match r {
            Some(n) => process_count(content@) == Some(n as nat),
            None => process_count(content@) is None,
        },
{
    let chars = to_chars(content);
    let w = split_words(chars.as_slice());
    if w.len() < 4 {
        return None;
    }
    assert(texts(w@)[3] == w@[3]@);
    let word: &[char] = w[3];
    match find(word, '/') {
        Some(i) => {
            let len: usize = word.len();
            let rest: &[char] = &word[i + 1..len];
            assert(rest@ =~= word@.skip(i + 1));
            let end: usize = match find(rest, '/') {
                Some(j) => j,
                None => rest.len(),
            };
            proof {
                lemma_span_holds(rest@, other_than('/'));
            }
            let total: &[char] = &rest[0..end];
            assert(total@ =~= rest@.take(span(rest@, other_than('/')) as int));
            match read_unsigned(total, u32::MAX as u64) {
                Some(n) => Some(n as u32),
                None => None,
            }
        },
        None => None,
    }
}

// ---------------------------------------------------------------------------
// /proc/stat
// ---------------------------------------------------------------------------

/// The first line that starts with `prefix`.
pub open spec fn first_with(lines: Seq<Seq<char>>, prefix: Seq<char>) -> Option<Seq<char>>
    decreases lines.len(),
{
    if lines.len() == 0 {
        None
    } else if prefix.is_prefix_of(lines[0]) {
        Some(lines[0])
    } else {
        first_with(lines.skip(1), prefix)
    }
}

/// The tick counts of all processors together, of which there are four at least: user,
/// nice, system, idle, and on newer systems iowait and others.
pub open spec fn cpu_fields(content: Seq<char>) -> Option<Seq<u64>> {
    match first_with(lines(content), "cpu "@) {
        Some(line) => {
            let fields = word_numbers(words(line).skip(1));
            if fields.len() < 4 {
                None
            } else {
                Some(fields)
            }
        },
        None => None,
    }
}

/// Reads the tick counts.
pub fn read_cpu_fields(content: &str) -> (r: Option<Vec<u64>>)
    ensures
        match r {
            Some(f) => cpu_fields(content@) == Some(f@),
            None => cpu_fields(content@) is None,
        },
{
    let chars = to_chars(content);
    let all = split_lines(chars.as_slice());
    let ghost rows = texts(all@);
    let mut i: usize = 0;
    assert(rows.skip(0) =~= rows);
    while i < all.len() && !starts_with(all[i], "cpu ")
        invariant
            i <= all@.len(),
            rows == texts(all@),
            first_with(rows, "cpu "@) == first_with(rows.skip(i as int), "cpu "@),
        decreases all@.len() - i,
    {
        proof {
            assert(rows.skip(i as int)[0] == all@[i as int]@);
            assert(rows.skip(i as int).skip(1) =~= rows.skip(i + 1));
        }
        i += 1;
    }
    if i == all.len() {
        return None;
    }
    assert(rows.skip(i as int)[0] == all@[i as int]@);
    let w = split_words(all[i]);
    proof {
        // The line starts with a letter, so it has a word.
        reveal_strlit("cpu ");
        let line = all@[i as int]@;
        assert("cpu "@[0] == line.subrange(0, 4)[0]);
        assert(span(line, crate::text::ascii_spaces()) == 0);
        assert(line.skip(0) =~= line);
        assert(span(line, crate::text::ink()) > 0);
    }
    let fields = read_numbers(&w, 1);
    if fields.len() < 4 {
        None
    } else {
        Some(fields)
    }
}

// ---------------------------------------------------------------------------
// /proc/meminfo
// ---------------------------------------------------------------------------

/// What the sizes are after some lines. A later line stands over an earlier one.
pub open spec fn meminfo_after(rows: Seq<Seq<char>>) -> MemInfo
    decreases rows.len(),
{
    if rows.len() == 0 {
        MemInfo { total: 0, available: 0, swap_total: 0, swap_free: 0 }
    } else {
        let m = meminfo_after(rows.drop_last());
        let w = words(rows.last());
        if w.len() < 2 {
            m
        } else if w[0] == "MemTotal:"@ {
            MemInfo { total: number_or_zero(w[1]), ..m }
        } else if w[0] == "MemAvailable:"@ {
            MemInfo { available: number_or_zero(w[1]), ..m }
        } else if w[0] == "SwapTotal:"@ {
            MemInfo { swap_total: number_or_zero(w[1]), ..m }
        } else if w[0] == "SwapFree:"@ {
            MemInfo { swap_free: number_or_zero(w[1]), ..m }
        } else {
            m
        }
    }
}

/// Reads the sizes.
pub fn read_meminfo(content: &str) -> (m: MemInfo)
    ensures
        m == meminfo_after(lines(content@)),
{
    let chars = to_chars(content);
    let all = split_lines(chars.as_slice());
    let ghost rows = texts(all@);
    let mut m = MemInfo { total: 0, available: 0, swap_total: 0, swap_free: 0 };
    for i in 0..all.len()
        invariant
            rows == texts(all@),
            m == meminfo_after(rows.take(i as int)),
    {
        proof {
            assert(rows.take(i + 1).drop_last() =~= rows.take(i as int));
            assert(rows.take(i + 1).last() == all@[i as int]@);
        }
        let w = split_words(all[i]);
        if w.len() >= 2 {
            assert(texts(w@)[0] == w@[0]@);
            assert(texts(w@)[1] == w@[1]@);
            let kib: u64 = read_number_or_zero(w[1]);
            if same(w[0], "MemTotal:") {
                m.total = kib;
            } else if same(w[0], "MemAvailable:") {
                m.available = kib;
            } else if same(w[0], "SwapTotal:") {
                m.swap_total = kib;
            } else if same(w[0], "SwapFree:") {
                m.swap_free = kib;
            }
        }
    }
    assert(rows.take(rows.len() as int) =~= rows);
    m
}

// ---------------------------------------------------------------------------
// /proc/diskstats
// ---------------------------------------------------------------------------

/// A device that is no disk.
pub open spec fn pseudo_device(dev: Seq<char>) -> bool {
    "loop"@.is_prefix_of(dev) || "ram"@.is_prefix_of(dev) || "sr"@.is_prefix_of(dev)
}

/// The counters after some lines.
pub open spec fn disks_after(rows: Seq<Seq<char>>) -> Map<Seq<char>, DiskCounters>
    decreases rows.len(),
{
    if rows.len() == 0 {
        Map::empty()
    } else {
        let m = disks_after(rows.drop_last());
        let w = words(rows.last());
        if w.len() < 10 || pseudo_device(w[2]) {
            m
        } else {
            m.insert(
                w[2],
                DiskCounters {
                    read_sectors: number_or_zero(w[5]),
                    write_sectors: number_or_zero(w[9]),
                },
            )
        }
    }
}

/// Reads the counters of the disks.
pub fn read_diskstats(content: &str) -> (m: StringMap<DiskCounters>)
    ensures
        m@ == disks_after(lines(content@)),
{
    let chars = to_chars(content);
    let all = split_lines(chars.as_slice());
    let ghost rows = texts(all@);
    let mut m: StringMap<DiskCounters> = StringMap::new();
    for i in 0..all.len()
        invariant
            rows == texts(all@),
            m@ == disks_after(rows.take(i as int)),
    {
        proof {
            assert(rows.take(i + 1).drop_last() =~= rows.take(i as int));
            assert(rows.take(i + 1).last() == all@[i as int]@);
        }
        let w = split_words(all[i]);
        if w.len() >= 10 {
            assert(texts(w@)[2] == w@[2]@);
            assert(texts(w@)[5] == w@[5]@);
            assert(texts(w@)[9] == w@[9]@);
            let dev: &[char] = w[2];
            if !(starts_with(dev, "loop") || starts_with(dev, "ram") || starts_with(dev, "sr")) {
                m.insert(
                    from_chars(dev),
                    DiskCounters {
                        read_sectors: read_number_or_zero(w[5]),
                        write_sectors: read_number_or_zero(w[9]),
                    },
                );
            }
        }
    }
    assert(rows.take(rows.len() as int) =~= rows);
    m
}

// ---------------------------------------------------------------------------
// /proc/net/dev
// ---------------------------------------------------------------------------

/// The interface of a line and its counters: `iface: rx_bytes rx_packets rx_errors ...`,
/// with the transmitted side from the ninth number on. The loopback is left out.
pub open spec fn net_line(row: Seq<char>) -> Option<(Seq<char>, NetCounters)> {
    match position(row, ':') {
        Some(colon) => {
            let iface = trim(row.take(colon));
            let f = word_numbers(words(row.skip(colon + 1)));
            if iface == "lo"@ || f.len() < 11 {
                None
            } else {
                Some(
                    (
                        iface,
                        NetCounters {
                            rx_bytes: f[0],
                            tx_bytes: f[8],
                            rx_errors: f[2],
                            tx_errors: f[10],
                        },
                    ),
                )
            }
        },
        None => None,
    }
}

/// The counters after some lines.
pub open spec fn nets_after(rows: Seq<Seq<char>>) -> Map<Seq<char>, NetCounters>
    decreases rows.len(),
{
    if rows.len() == 0 {
        Map::empty()
    } else {
        match net_line(rows.last()) {
            Some((iface, c)) => nets_after(rows.drop_last()).insert(iface, c),
            None => nets_after(rows.drop_last()),
        }
    }
}

/// The counters of the interfaces: two lines of headings come first.
pub open spec fn net_dev(content: Seq<char>) -> Map<Seq<char>, NetCounters> {
    let rows = lines(content);
    if rows.len() < 2 {
        Map::empty()
    } else {
        nets_after(rows.skip(2))
    }
}

fn read_net_line(row: &[char]) -> (r: Option<(String, NetCounters)>)
    ensures
        match r {
            Some((iface, c)) => net_line(row@) == Some((iface@, c)),
            None => net_line(row@) is None,
        },
{
    match find(row, ':') {
        Some(colon) => {
            let len: usize = row.len();
            let name: &[char] = &row[0..colon];
            let counts: &[char] = &row[colon + 1..len];
            assert(name@ =~= row@.take(colon as int));
            assert(counts@ =~= row@.skip(colon + 1));
            let iface = trimmed(name);
            if same(iface, "lo") {
                return None;
            }
            let w = split_words(counts);
            assert(texts(w@).skip(0) =~= texts(w@));
            let f = read_numbers(&w, 0);
            if f.len() < 11 {
                return None;
            }
            Some(
                (
                    from_chars(iface),
                    NetCounters {
                        rx_bytes: f[0],
                        tx_bytes: f[8],
                        rx_errors: f[2],
                        tx_errors: f[10],
                    },
                ),
            )
        },
        None => None,
    }
}

/// Reads the counters of the network interfaces.
pub fn read_net_dev(content: &str) -> (m: StringMap<NetCounters>)
    ensures
        m@ == net_dev(content@),
{
    let chars = to_chars(content);
    let all = split_lines(chars.as_slice());
    let ghost rows = texts(all@);
    let mut m: StringMap<NetCounters> = StringMap::new();
    if all.len() < 2 {
        return m;
    }
    assert(rows.skip(2).take(0) =~= Seq::empty());
    for i in 2..all.len()
        invariant
            rows == texts(all@),
            all@.len() >= 2,
            m@ == nets_after(rows.skip(2).take(i - 2)),
    {
        proof {
            let body = rows.skip(2);
            assert(body.take(i - 1).drop_last() =~= body.take(i - 2));
            assert(body.take(i - 1).last() == all@[i as int]@);
        }
        if let Some((iface, c)) = read_net_line(all[i]) {
            m.insert(iface, c);
        }
    }
    assert(rows.skip(2).take(rows.len() - 2) =~= rows.skip(2));
    m
}

// ---------------------------------------------------------------------------
// /sys/class/thermal
// ---------------------------------------------------------------------------

/// An entry of `/sys/class/thermal`: its name, and its files `temp` and `type` as far as
/// they could be read.
#[derive(Debug)]
pub struct ThermalEntry {
    pub name: String,
    pub temp: Option<String>,
    pub kind: Option<String>,
}

/// What such an entry says.
pub struct ThermalView {
    pub name: Seq<char>,
    pub temp: Option<Seq<char>>,
    pub kind: Option<Seq<char>>,
}

/// A text that may be missing.
pub open spec fn optional_text(s: Option<String>) -> Option<Seq<char>> {
    match s {
        Some(s) => Some(s@),
        None => None,
    }
}

impl View for ThermalEntry {
    type V = ThermalView;

    open spec fn view(&self) -> ThermalView {
        ThermalView {
            name: self.name@,
            temp: optional_text(self.temp),
            kind: optional_text(self.kind),
        }
    }
}

/// The type of a thermal zone, or its name where it has none, and its temperature in
/// thousandths of a degree, zero where it is no number.
pub open spec fn thermal_zone(entry: ThermalView) -> Option<(Seq<char>, i64)> {
    match entry.temp {
        Some(temp) if "thermal_zone"@.is_prefix_of(entry.name) => Some(
            (
                match entry.kind {
                    Some(kind) => trim(kind),
                    None => entry.name,
                },
                match parse_signed(trim(temp)) {
                    Some(n) => n as i64,
                    None => 0,
                },
            ),
        ),
        _ => None,
    }
}

/// Reads a thermal zone.
pub fn read_thermal_zone(entry: &ThermalEntry) -> (r: Option<(String, i64)>)
    ensures
        match r {
            Some((zone, t)) => thermal_zone(entry@) == Some((zone@, t)),
            None => thermal_zone(entry@) is None,
        },
{
    let name = to_chars(entry.name.as_str());
    if !starts_with(name.as_slice(), "thermal_zone") {
        return None;
    }
    match &entry.temp {
        Some(temp) => {
            let temp = to_chars(temp.as_str());
            let thousandths: i64 = match read_i64(trimmed(temp.as_slice())) {
                Some(n) => n,
                None => 0,
            };
            let zone = match &entry.kind {
                Some(kind) => {
                    let kind = to_chars(kind.as_str());
                    from_chars(trimmed(kind.as_slice()))
                },
                None => entry.name.clone(),
            };
            Some((zone, thousandths))
        },
        None => None,
    }
}

} // verus!
