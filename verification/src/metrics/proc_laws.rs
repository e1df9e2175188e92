//! What is read from the files under `/proc` and `/sys`, for lines put together from words
//! and numbers.

use vstd::prelude::*;
use crate::metrics::proc_files::{cpu_fields, disks_after, first_with, meminfo_after, net_dev};
use crate::metrics::proc_files::{net_line, nets_after, number_or_zero, process_count};
use crate::metrics::proc_files::{pseudo_device, thermal_zone, word_number, word_numbers};
use crate::metrics::proc_files::{load_texts, uptime_text};
use crate::metrics::proc_files::{DiskCounters, MemInfo, NetCounters, ThermalView};
use crate::number::{decimal, lemma_decimal};
use crate::sources::line_laws::{gap, lemma_no_number, lemma_two_words, lemma_words_behind_gap};
use crate::sources::line_laws::{no_number, white_run};
use crate::sources::syslog_laws::{joined, law_number_reads_back, law_words_read_back};
use crate::sources::syslog_laws::{lemma_first_word, lemma_position, one_word, signed_decimal};
use crate::split::{law_lines_read_back, lined, one_line, words};
use crate::text::{ascii_space, blank, digit, law_trim_leaves_the_text, lemma_span, other_than};
use crate::text::space;

verus! {

// ---------------------------------------------------------------------------
// Numbers among words
// ---------------------------------------------------------------------------

/// Numbers, written out.
pub open spec fn decimals(ns: Seq<u64>) -> Seq<Seq<char>> {
    ns.map_values(|n: u64| decimal(n as nat))
}

/// A number that is written out is a word, and is read.
pub proof fn lemma_decimal_word(n: u64)
    ensures
        one_word(decimal(n as nat)),
        word_number(decimal(n as nat)) == Some(n),
        number_or_zero(decimal(n as nat)) == n,
{
    let d = decimal(n as nat);
    lemma_decimal(n as nat);
    assert(digit(d[0]));
    assert forall|i: int| 0 <= i < d.len() implies !ascii_space(#[trigger] d[i]) by {
        assert(digit(d[i]));
    }
}

/// Numbers that are written out are all read, in order, and words that are no numbers are
/// passed over.
pub proof fn law_numbers_among_words(ns: Seq<u64>, word: Seq<char>)
    ensures
        word_numbers(decimals(ns)) == ns,
        no_number(word) ==> word_numbers(decimals(ns).push(word)) == ns,
        no_number(word) ==> number_or_zero(word) == 0,
    decreases ns.len(),
{
    let ws = decimals(ns);
    if ns.len() > 0 {
        law_numbers_among_words(ns.drop_last(), word);
        lemma_decimal_word(ns.last());
        assert(ws.drop_last() =~= decimals(ns.drop_last()));
        assert(word_numbers(ws) =~= ns);
    } else {
        assert(word_numbers(ws) =~= ns);
    }
    if no_number(word) {
        lemma_no_number(word);
        assert(ws.push(word).drop_last() =~= ws);
    }
}

/// Words that are joined by spaces, with spaces in front, read back.
proof fn lemma_row_of_words(front: Seq<char>, parts: Seq<Seq<char>>)
    requires
        parts.len() > 0,
        white_run(front),
        forall|i: int| 0 <= i < parts.len() ==> one_word(#[trigger] parts[i]),
    ensures
        words(front + joined(parts)) == parts,
{
    law_words_read_back(parts);
    lemma_words_behind_gap(front, joined(parts));
    let none = Seq::<char>::empty();
    let last = parts[parts.len() - 1];
    assert(one_word(last));
    lemma_first_word(last, none);
    assert(last + none =~= last);
    assert(words(none) =~= Seq::empty());
    assert(seq![last] + words(none) =~= seq![last]);
    assert(parts.drop_last() + seq![last] =~= parts);
}

// ---------------------------------------------------------------------------
// /proc/meminfo
// ---------------------------------------------------------------------------

proof fn lemma_memory_names()
    ensures
        one_word("MemTotal:"@),
        one_word("MemAvailable:"@),
        one_word("SwapTotal:"@),
        one_word("SwapFree:"@),
        "MemTotal:"@ != "MemAvailable:"@,
        "MemTotal:"@ != "SwapTotal:"@,
        "MemTotal:"@ != "SwapFree:"@,
        "MemAvailable:"@ != "SwapTotal:"@,
        "MemAvailable:"@ != "SwapFree:"@,
        "SwapTotal:"@ != "SwapFree:"@,
{
    reveal_strlit("MemTotal:");
    reveal_strlit("MemAvailable:");
    reveal_strlit("SwapTotal:");
    reveal_strlit("SwapFree:");
    assert("MemTotal:"@.len() == 9 && "MemAvailable:"@.len() == 13);
    assert("SwapTotal:"@.len() == 10 && "SwapFree:"@.len() == 9);
    assert("MemTotal:"@[0] == 'M' && "SwapFree:"@[0] == 'S');
}

/// A line of `/proc/meminfo`, a name, spaces, a number and whatever follows, sets the size of
/// that name and no other, to zero where there is no number; a line of another name sets none. Before the first line all are
/// zero.
pub proof fn law_memory_line_sets_its_size(
    rows: Seq<Seq<char>>,
    name: Seq<char>,
    g: Seq<char>,
    word: Seq<char>,
    n: u64,
    rest: Seq<char>,
)
    requires
        one_word(name),
        gap(g),
        one_word(word),
        counts_as(word, n),
        rest.len() > 0 ==> ascii_space(rest[0]),
    ensures
        meminfo_after(Seq::empty()) == (MemInfo {
            total: 0,
            available: 0,
            swap_total: 0,
            swap_free: 0,
        }),
        ({
            let had = meminfo_after(rows);
            let m = meminfo_after(rows.push(name + g + word + rest));
            &&& m.total == if name == "MemTotal:"@ {
                n
            } else {
                had.total
            }
            &&& m.available == if name == "MemAvailable:"@ {
                n
            } else {
                had.available
            }
            &&& m.swap_total == if name == "SwapTotal:"@ {
                n
            } else {
                had.swap_total
            }
            &&& m.swap_free == if name == "SwapFree:"@ {
                n
            } else {
                had.swap_free
            }
        }),
{
    lemma_memory_names();
    lemma_counts_as(seq![word], n);
    assert(counts_as(seq![word][0], n));
    let row = name + g + word + rest;
    lemma_two_words(name, g, word, rest);
    assert(rows.push(row).drop_last() =~= rows);
}

/// A line of one word sets no size.
pub proof fn law_bare_memory_line_sets_nothing(rows: Seq<Seq<char>>, name: Seq<char>)
    requires
        one_word(name),
    ensures
        meminfo_after(rows.push(name)) == meminfo_after(rows),
{
    lemma_row_of_words(Seq::empty(), seq![name]);
    assert(Seq::<char>::empty() + joined(seq![name]) =~= name);
    assert(rows.push(name).drop_last() =~= rows);
}

// ---------------------------------------------------------------------------
// /proc/diskstats
// ---------------------------------------------------------------------------

/// A line of `/proc/diskstats` gives the counters of the device in its third word: sectors
/// read in the sixth and sectors written in the tenth. Loop devices, RAM disks and optical
/// drives are left out, as are lines of fewer than ten words. Other devices stay as they are.
pub proof fn law_disk_line_sets_its_counters(
    rows: Seq<Seq<char>>,
    front: Seq<char>,
    parts: Seq<Seq<char>>,
    read: u64,
    written: u64,
    kind: Seq<char>,
)
    requires
        parts.len() > 0,
        white_run(front),
        forall|i: int| 0 <= i < parts.len() ==> one_word(#[trigger] parts[i]),
    ensures
        ({
            let after = disks_after(rows.push(front + joined(parts)));
            &&& parts.len() < 10 ==> after == disks_after(rows)
            &&& parts.len() >= 10 && (parts[2] == "loop"@ + kind || parts[2] == "ram"@ + kind
                || parts[2] == "sr"@ + kind) ==> after == disks_after(rows)
            &&& parts.len() >= 10 && counts_as(parts[5], read) && counts_as(parts[9], written)
                && !starts_so(parts[2], "loop"@) && !starts_so(parts[2], "ram"@) && !starts_so(
                parts[2],
                "sr"@,
            ) ==> after == disks_after(rows).insert(
                parts[2],
                DiskCounters { read_sectors: read, write_sectors: written },
            )
        }),
        disks_after(Seq::empty()) == Map::<Seq<char>, DiskCounters>::empty(),
{
    let row = front + joined(parts);
    lemma_row_of_words(front, parts);
    lemma_counts_as(parts, read);
    lemma_counts_as(parts, written);
    assert(rows.push(row).drop_last() =~= rows);
    reveal_strlit("loop");
    reveal_strlit("ram");
    reveal_strlit("sr");
    if parts.len() >= 10 {
        let dev = parts[2];
        assert(one_word(dev));
        if dev == "loop"@ + kind {
            assert(dev.subrange(0, 4) =~= "loop"@);
        }
        if dev == "ram"@ + kind {
            assert(dev.subrange(0, 3) =~= "ram"@);
        }
        if dev == "sr"@ + kind {
            assert(dev.subrange(0, 2) =~= "sr"@);
        }
        if pseudo_device(dev) {
            law_other_devices_are_disks(dev);
        }
    }
}

/// The name starts with this text.
pub open spec fn starts_so(name: Seq<char>, start: Seq<char>) -> bool {
    exists|rest: Seq<char>| name == #[trigger] (start + rest)
}

/// The word stands for this count: it is the number, or no number and the count is zero.
pub open spec fn counts_as(word: Seq<char>, n: u64) -> bool {
    word == decimal(n as nat) || (n == 0 && no_number(word))
}

proof fn lemma_counts_as(parts: Seq<Seq<char>>, n: u64)
    ensures
        forall|i: int|
            0 <= i < parts.len() && counts_as(#[trigger] parts[i], n) ==> number_or_zero(parts[i])
                == n,
{
    lemma_decimal_word(n);
    assert forall|i: int|
        0 <= i < parts.len() && counts_as(#[trigger] parts[i], n) implies number_or_zero(parts[i])
        == n by {
        if parts[i] != decimal(n as nat) {
            lemma_no_number(parts[i]);
        }
    }
}

/// Only names that start with `loop`, `ram` or `sr` are those of no disk.
pub proof fn law_other_devices_are_disks(dev: Seq<char>)
    requires
        pseudo_device(dev),
    ensures
        starts_so(dev, "loop"@) || starts_so(dev, "ram"@) || starts_so(dev, "sr"@),
{
    reveal_strlit("loop");
    reveal_strlit("ram");
    reveal_strlit("sr");
    if "loop"@.is_prefix_of(dev) {
        let kind = dev.skip(4);
        assert(dev =~= "loop"@ + kind);
    } else if "ram"@.is_prefix_of(dev) {
        let kind = dev.skip(3);
        assert(dev =~= "ram"@ + kind);
    } else {
        let kind = dev.skip(2);
        assert(dev =~= "sr"@ + kind);
    }
}

// ---------------------------------------------------------------------------
// /proc/net/dev
// ---------------------------------------------------------------------------

/// A line of `/proc/net/dev`, whitespace, an interface, a colon, spaces and numbers, gives
/// the counters of that interface: bytes received first, errors received third, bytes sent
/// ninth, errors sent eleventh. The loopback is left out, and a line of fewer numbers too.
pub proof fn law_network_line_is_read(
    front: Seq<char>,
    iface: Seq<char>,
    g: Seq<char>,
    ns: Seq<u64>,
)
    requires
        blank(front),
        iface.len() > 0,
        !space(iface[0]),
        !space(iface.last()),
        !iface.contains(':'),
        gap(g),
        ns.len() > 0,
    ensures
        ({
            let r = net_line(front + iface + seq![':'] + (g + joined(decimals(ns))));
            &&& iface == "lo"@ || ns.len() < 11 ==> r is None
            &&& iface != "lo"@ && ns.len() >= 11 ==> r == Some(
                (
                    iface,
                    NetCounters {
                        rx_bytes: ns[0],
                        tx_bytes: ns[8],
                        rx_errors: ns[2],
                        tx_errors: ns[10],
                    },
                ),
            )
        }),
{
    let head = front + iface;
    let counts = g + joined(decimals(ns));
    let row = head + seq![':'] + counts;
    if head.contains(':') {
        let i = choose|i: int| 0 <= i < head.len() && head[i] == ':';
        if i < front.len() {
            assert(space(front[i]));
        } else {
            assert(iface[i - front.len()] == ':');
        }
    }
    lemma_position(head, ':', counts);
    assert(row.take(head.len() as int) =~= head);
    assert(row.skip(head.len() as int + 1) =~= counts);
    law_trim_leaves_the_text(front, iface, Seq::empty());
    assert(front + iface + Seq::<char>::empty() =~= head);
    let ws = decimals(ns);
    assert forall|i: int| 0 <= i < ws.len() implies one_word(#[trigger] ws[i]) by {
        lemma_decimal_word(ns[i]);
    }
    lemma_row_of_words(g, ws);
    law_numbers_among_words(ns, Seq::empty());
}

/// A line without a colon is that of no interface.
pub proof fn law_line_without_colon_is_no_interface(row: Seq<char>)
    requires
        !row.contains(':'),
    ensures
        net_line(row) is None,
{
    crate::text::lemma_span_holds(row, other_than(':'));
    let n = crate::text::span(row, other_than(':'));
    if n < row.len() {
        assert(row[n as int] == ':');
    }
}

/// The two lines of headings are no interfaces, whatever they hold; every line behind them
/// is read, and a later one of an interface stands over an earlier one.
pub proof fn law_headings_are_no_interfaces(
    first: Seq<char>,
    second: Seq<char>,
    rows: Seq<Seq<char>>,
    row: Seq<char>,
)
    requires
        one_line(first),
        one_line(second),
        forall|i: int| 0 <= i < rows.len() ==> one_line(#[trigger] rows[i]),
    ensures
        net_dev(lined(seq![first, second] + rows)) == nets_after(rows),
        nets_after(Seq::empty()) == Map::<Seq<char>, NetCounters>::empty(),
        net_line(row) is None ==> nets_after(rows.push(row)) == nets_after(rows),
        net_line(row) matches Some((iface, c)) ==> nets_after(rows.push(row)) == nets_after(
            rows,
        ).insert(iface, c),
{
    let all = seq![first, second] + rows;
    assert forall|i: int| 0 <= i < all.len() implies one_line(#[trigger] all[i]) by {
        if i >= 2 {
            assert(all[i] == rows[i - 2]);
        }
    }
    law_lines_read_back(all, Seq::empty());
    assert(all.skip(2) =~= rows);
    assert(rows.push(row).drop_last() =~= rows);
}

// ---------------------------------------------------------------------------
// /proc/stat, /proc/loadavg
// ---------------------------------------------------------------------------

/// The counts of all processors are on the first line that starts with `cpu` and a space:
/// all of its numbers, of which there must be four.
pub proof fn law_processor_line_is_read(
    before: Seq<Seq<char>>,
    g: Seq<char>,
    ns: Seq<u64>,
    behind: Seq<Seq<char>>,
)
    requires
        forall|i: int|
            0 <= i < before.len() ==> one_line(#[trigger] before[i]) && !"cpu "@.is_prefix_of(
                before[i],
            ),
        g.len() > 0,
        forall|i: int| 0 <= i < g.len() ==> #[trigger] g[i] == ' ',
        ns.len() > 0,
        forall|i: int| 0 <= i < behind.len() ==> one_line(#[trigger] behind[i]),
    ensures
        ({
            let row = "cpu"@ + (g + joined(decimals(ns)));
            let r = cpu_fields(lined(before.push(row) + behind));
            &&& ns.len() >= 4 ==> r == Some(ns)
            &&& ns.len() < 4 ==> r is None
        }),
        cpu_fields(lined(before)) is None,
{
    reveal_strlit("cpu");
    reveal_strlit("cpu ");
    let ws = decimals(ns);
    let counts = g + joined(ws);
    let row = "cpu"@ + counts;
    assert forall|i: int| 0 <= i < ws.len() implies one_word(#[trigger] ws[i]) by {
        lemma_decimal_word(ns[i]);
    }
    assert(white_run(g));
    lemma_row_of_words(g, ws);
    assert(counts[0] == g[0]);
    lemma_first_word("cpu"@, counts);
    assert((seq!["cpu"@] + ws).skip(1) =~= ws);
    law_numbers_among_words(ns, Seq::empty());
    assert(row.subrange(0, 4) =~= "cpu "@);
    lemma_numbers_on_one_line(g, ns);
    let all = before.push(row) + behind;
    assert forall|i: int| 0 <= i < all.len() implies one_line(#[trigger] all[i]) by {
        if i < before.len() {
            assert(all[i] == before[i]);
        } else if i > before.len() {
            assert(all[i] == behind[i - before.len() - 1]);
        }
    }
    law_lines_read_back(all, Seq::empty());
    law_lines_read_back(before, Seq::empty());
    lemma_first_with(before, row, behind);
}

/// A row of numbers is one line.
proof fn lemma_numbers_on_one_line(g: Seq<char>, ns: Seq<u64>)
    requires
        g.len() > 0,
        forall|i: int| 0 <= i < g.len() ==> #[trigger] g[i] == ' ',
        ns.len() > 0,
    ensures
        one_line("cpu"@ + (g + joined(decimals(ns)))),
{
    reveal_strlit("cpu");
    lemma_joined_digits(decimals(ns), ns);
    let t = joined(decimals(ns));
    let row = "cpu"@ + (g + t);
    assert forall|i: int| 0 <= i < row.len() implies #[trigger] row[i] != '\n' by {
        if i >= 3 + g.len() {
            assert(row[i] == t[i - 3 - g.len()]);
        } else if i >= 3 {
            assert(row[i] == g[i - 3]);
        }
    }
    if t.len() > 0 {
        assert(row.last() == t.last());
    } else {
        assert(row.last() == g.last());
        assert(g[g.len() - 1] == ' ');
    }
}

/// Numbers that are joined are digits and spaces.
proof fn lemma_joined_digits(ws: Seq<Seq<char>>, ns: Seq<u64>)
    requires
        ws == decimals(ns),
    ensures
        forall|i: int|
            0 <= i < joined(ws).len() ==> (#[trigger] joined(ws)[i]) == ' ' || digit(joined(ws)[i]),
    decreases ns.len(),
{
    if ns.len() > 0 {
        let first = decimal(ns[0] as nat);
        lemma_decimal(ns[0] as nat);
        assert(ws[0] == first);
        let rest = ws.skip(1);
        assert(rest =~= decimals(ns.skip(1)));
        lemma_joined_digits(rest, ns.skip(1));
        let t = joined(ws);
        assert forall|i: int| 0 <= i < t.len() implies (#[trigger] t[i]) == ' ' || digit(t[i]) by {
            if i < first.len() {
                assert(t[i] == first[i]);
                assert(digit(first[i]));
            } else if i > first.len() {
                assert(t[i] == joined(rest)[i - first.len() - 1]);
            }
        }
    }
}

/// The first line with a prefix, behind lines without it.
proof fn lemma_first_with(before: Seq<Seq<char>>, row: Seq<char>, behind: Seq<Seq<char>>)
    requires
        forall|i: int| 0 <= i < before.len() ==> !"cpu "@.is_prefix_of(#[trigger] before[i]),
        "cpu "@.is_prefix_of(row),
    ensures
        first_with(before.push(row) + behind, "cpu "@) == Some(row),
        first_with(before, "cpu "@) is None,
    decreases before.len(),
{
    let all = before.push(row) + behind;
    if before.len() == 0 {
        assert(all[0] == row);
    } else {
        assert(all[0] == before[0]);
        let rest = before.skip(1);
        assert forall|i: int| 0 <= i < rest.len() implies !"cpu "@.is_prefix_of(
            #[trigger] rest[i],
        ) by {
            assert(rest[i] == before[i + 1]);
        }
        lemma_first_with(rest, row, behind);
        assert(all.skip(1) =~= rest.push(row) + behind);
    }
}

/// The uptime is the first word of `/proc/uptime`, and the loads over one, five and fifteen
/// minutes are the first three of `/proc/loadavg`, in this order, whatever follows them.
pub proof fn law_uptime_and_load_come_first(front: Seq<char>, parts: Seq<Seq<char>>)
    requires
        white_run(front),
        parts.len() > 0,
        forall|i: int| 0 <= i < parts.len() ==> one_word(#[trigger] parts[i]),
    ensures
        uptime_text(front + joined(parts)) == Some(parts[0]),
        parts.len() >= 3 ==> load_texts(front + joined(parts)) == Some(
            (parts[0], parts[1], parts[2]),
        ),
        parts.len() < 3 ==> load_texts(front + joined(parts)) is None,
        uptime_text(front) is None,
        load_texts(front) is None,
{
    lemma_row_of_words(front, parts);
    lemma_words_behind_gap(front, Seq::empty());
    assert(front + Seq::<char>::empty() =~= front);
    assert(words(Seq::<char>::empty()) =~= Seq::empty());
}

/// The number of processes is what follows the slash in the fourth word of `/proc/loadavg`;
/// where there are fewer words there is none.
pub proof fn law_processes_are_behind_the_slash(
    head: Seq<Seq<char>>,
    running: u64,
    total: u32,
    rest: Seq<Seq<char>>,
)
    requires
        head.len() == 3,
        forall|i: int| 0 <= i < 3 ==> one_word(#[trigger] head[i]),
        forall|i: int| 0 <= i < rest.len() ==> one_word(#[trigger] rest[i]),
    ensures
        process_count(
            joined(
                head.push(decimal(running as nat) + seq!['/'] + decimal(total as nat)) + rest,
            ),
        ) == Some(total as nat),
        process_count(joined(head)) is None,
{
    let a = decimal(running as nat);
    let b = decimal(total as nat);
    let word = a + seq!['/'] + b;
    lemma_decimal_word(running);
    lemma_decimal_word(total as u64);
    lemma_decimal(running as nat);
    lemma_decimal(total as nat);
    assert forall|i: int| 0 <= i < word.len() implies !ascii_space(#[trigger] word[i]) by {
        if i < a.len() {
            assert(word[i] == a[i]);
        } else if i > a.len() {
            assert(word[i] == b[i - a.len() - 1]);
        }
    }
    let parts = head.push(word) + rest;
    assert forall|i: int| 0 <= i < parts.len() implies one_word(#[trigger] parts[i]) by {
        if i < 3 {
            assert(parts[i] == head[i]);
        } else if i > 3 {
            assert(parts[i] == rest[i - 4]);
        }
    }
    lemma_row_of_words(Seq::empty(), parts);
    assert(Seq::<char>::empty() + joined(parts) =~= joined(parts));
    lemma_row_of_words(Seq::empty(), head);
    assert(Seq::<char>::empty() + joined(head) =~= joined(head));
    if a.contains('/') {
        let i = choose|i: int| 0 <= i < a.len() && a[i] == '/';
        assert(digit(a[i]));
    }
    lemma_position(a, '/', b);
    assert(word.skip(a.len() as int + 1) =~= b);
    assert forall|i: int| 0 <= i < b.len() implies other_than('/')(#[trigger] b[i]) by {
        assert(digit(b[i]));
    }
    lemma_span(b, other_than('/'), b.len());
    assert(b.take(b.len() as int) =~= b);
    assert(digit(b[0]));
}

// ---------------------------------------------------------------------------
// /sys/class/thermal
// ---------------------------------------------------------------------------

/// A thermal zone whose temperature can be read has the type as its name, without the
/// whitespace around it, or, where that is missing, the name of its entry; and the
/// temperature that is written there, in thousandths of a degree. What does not start with
/// `thermal_zone`, or has no temperature, is no zone. A temperature that is no number
/// counts as zero.
pub proof fn law_thermal_zone_is_read(
    number: Seq<char>,
    a: Seq<char>,
    t: i64,
    b: Seq<char>,
    kind: Seq<char>,
    odd: Seq<char>,
)
    requires
        blank(a),
        blank(b),
        kind.len() > 0 ==> !space(kind[0]) && !space(kind.last()),
        odd.len() > 0 ==> !space(odd[0]) && !space(odd.last()),
        no_number(odd),
    ensures
        ({
            let name = "thermal_zone"@ + number;
            let temp = a + signed_decimal(t as int) + b;
            &&& thermal_zone(
                ThermalView { name, temp: Some(temp), kind: Some(a + kind + b) },
            ) == Some((kind, t))
            &&& thermal_zone(ThermalView { name, temp: Some(temp), kind: None }) == Some((name, t))
            &&& thermal_zone(ThermalView { name, temp: Some(a + odd + b), kind: None }) == Some(
                (name, 0i64),
            )
            &&& thermal_zone(ThermalView { name, temp: None, kind: Some(kind) }) is None
        }),
{
    reveal_strlit("thermal_zone");
    let name = "thermal_zone"@ + number;
    assert(name.subrange(0, "thermal_zone"@.len() as int) =~= "thermal_zone"@);
    let digits = signed_decimal(t as int);
    law_number_reads_back(t);
    lemma_decimal(if t < 0 {
        (-t) as nat
    } else {
        t as nat
    });
    assert(digit(digits.last()));
    if t >= 0 {
        assert(digit(digits[0]));
    }
    law_trim_leaves_the_text(a, digits, b);
    law_trim_leaves_the_text(a, kind, b);
    law_trim_leaves_the_text(a, odd, b);
    lemma_no_number(odd);
}

/// An entry whose name does not start with `thermal_zone` is no zone.
pub proof fn law_other_entries_are_no_zones(entry: ThermalView)
    requires
        entry.name.len() == 0 || entry.name[0] != 't' || entry.name.len() < 12
            || entry.name.subrange(0, 12) != "thermal_zone"@,
    ensures
        thermal_zone(entry) is None,
{
    reveal_strlit("thermal_zone");
    if "thermal_zone"@.is_prefix_of(entry.name) {
        assert(entry.name.subrange(0, 12)[0] == "thermal_zone"@[0]);
    }
}

} // verus!
