//! What an aggregator does with each sample, and what it loads and publishes.

use vstd::prelude::*;
use crate::cbor::{map_entries, DecodedView};
use crate::metrics::aggregator::{interval_of, loaded, room, saved_numbers, AggregatorView};
use crate::metrics::labels::key_of;
use crate::metrics::totals::Arithmetic;
use crate::metrics::{MetricValue, ReadyView, SampleView, Totals};

verus! {

/// The four intervals: none at all, a minute, an hour and a day, with the codes 0, 1, 3 and
/// 4, and windows in nanoseconds. No other name is known.
pub proof fn law_intervals(name: Seq<char>)
    ensures
        name == "none"@ ==> interval_of(name) == Some((0u8, None::<u64>)),
        name == "1m"@ ==> interval_of(name) == Some((1u8, Some(60_000_000_000u64))),
        name == "1h"@ ==> interval_of(name) == Some((3u8, Some(3_600_000_000_000u64))),
        name == "1d"@ ==> interval_of(name) == Some((4u8, Some(86_400_000_000_000u64))),
        name != "none"@ && name != "1m"@ && name != "1h"@ && name != "1d"@ ==> interval_of(
            name,
        ) is None,
{
    reveal_strlit("none");
    reveal_strlit("1m");
    reveal_strlit("1h");
    reveal_strlit("1d");
    assert("none"@[0] == 'n' && "1m"@[1] == 'm' && "1h"@[1] == 'h' && "1d"@[1] == 'd');
    assert("1m"@[0] == '1' && "1h"@[0] == '1' && "1d"@[0] == '1');
}

/// Where there is no window, and of every running total, a sample is passed on at once as
/// it is: with the code 0, its own name, labels and uptime, no count and no least and
/// greatest value, and the next number of its stream. Nothing is accumulated, and no other
/// stream gets a number.
pub proof fn law_raw_samples_are_passed_on(
    agg: AggregatorView,
    s: SampleView,
    totals: Totals,
    uptime_ms: u64,
    now: u64,
    other: Seq<char>,
)
    requires
        agg.window is None || s.counter,
        agg.last_seq(key_of(s.name, s.labels)) < u64::MAX,
    ensures
        agg.passed_on(s, totals, uptime_ms) == Some(
            ReadyView {
                name: s.name,
                agg_cbor: 0,
                labels: s.labels,
                sum: totals.sum,
                count: None,
                min: None,
                max: None,
                seq: (agg.last_seq(key_of(s.name, s.labels)) + 1) as u64,
                uptime_ms,
            },
        ),
        agg.taken(s, totals, uptime_ms, now).streams == agg.streams,
        agg.taken(s, totals, uptime_ms, now).window == agg.window,
        agg.taken(s, totals, uptime_ms, now).agg_cbor == agg.agg_cbor,
        agg.taken(s, totals, uptime_ms, now).last_seq(key_of(s.name, s.labels)) == agg.last_seq(
            key_of(s.name, s.labels),
        ) + 1,
        other != key_of(s.name, s.labels) ==> agg.taken(s, totals, uptime_ms, now).last_seq(other)
            == agg.last_seq(other),
        agg.open_totals(s) is None,
{
}

/// The value of a sample that is passed on is the double that it stands for.
pub proof fn law_raw_value_is_the_samples(
    agg: AggregatorView,
    s: SampleView,
    totals: Totals,
    uptime_ms: u64,
    adds: spec_fn(Option<Totals>, MetricValue, Totals) -> bool,
    a: Arithmetic,
)
    requires
        agg.window is None || s.counter,
        adds(agg.open_totals(s), s.value, totals),
        a.governs(adds),
    ensures
        agg.passed_on(s, totals, uptime_ms) matches Some(r) && r.sum == (a.double)(s.value),
{
}

/// Where there is a window, a sample that is no running total is not passed on. One of a
/// stream that is open is counted, and its uptime noted; name, labels and start of the
/// window stay. One of another stream opens it, unless ten thousand are open: then it is
/// dropped. No number is given, and no other stream changes.
pub proof fn law_samples_are_accumulated(
    agg: AggregatorView,
    s: SampleView,
    totals: Totals,
    uptime_ms: u64,
    now: u64,
    other: Seq<char>,
)
    requires
        agg.window is Some,
        !s.counter,
    ensures
        ({
            let key = key_of(s.name, s.labels);
            let after = agg.taken(s, totals, uptime_ms, now);
            &&& agg.passed_on(s, totals, uptime_ms) is None
            &&& after.seq == agg.seq && after.window == agg.window && after.agg_cbor
                == agg.agg_cbor
            &&& other != key ==> (after.streams.contains_key(other) <==> agg.streams.contains_key(
                other,
            ))
            &&& other != key && agg.streams.contains_key(other) ==> after.streams[other]
                == agg.streams[other]
            &&& agg.streams.contains_key(key) && agg.streams[key].count < u64::MAX ==> {
                &&& agg.open_totals(s) == Some(agg.streams[key].totals)
                &&& after.streams.contains_key(key)
                &&& after.streams[key].totals == totals
                &&& after.streams[key].count == agg.streams[key].count + 1
                &&& after.streams[key].uptime_ms == uptime_ms
                &&& after.streams[key].window_start == agg.streams[key].window_start
                &&& after.streams[key].name == agg.streams[key].name
                &&& after.streams[key].labels == agg.streams[key].labels
            }
            &&& !agg.streams.contains_key(key) ==> agg.open_totals(s) is None
            &&& !agg.streams.contains_key(key) && agg.streams.len() < 10_000 ==> {
                &&& after.streams.contains_key(key)
                &&& after.streams[key].totals == totals
                &&& after.streams[key].count == 1
                &&& after.streams[key].uptime_ms == uptime_ms
                &&& after.streams[key].window_start == now
                &&& after.streams[key].name == s.name
                &&& after.streams[key].labels == s.labels
            }
            &&& !agg.streams.contains_key(key) && agg.streams.len() >= 10_000 ==> after == agg
        }),
{
}

/// The window of a stream is over once as much time has passed since it opened as a window
/// is long, and not before.
pub proof fn law_window_ends_on_time(agg: AggregatorView, key: Seq<char>, now: u64, length: u64)
    requires
        agg.window == Some(length),
    ensures
        agg.due(key, now) <==> agg.streams.contains_key(key) && now
            >= agg.streams[key].window_start + length,
{
}

/// A stream is published under its own name and labels, with the code of the interval, the
/// count, sum, least and greatest of what was accumulated, the uptime at its last sample
/// and its next number. Then it is closed.
pub proof fn law_stream_is_published_as_it_is(agg: AggregatorView, key: Seq<char>)
    requires
        agg.streams.contains_key(key),
        agg.last_seq(key) < u64::MAX,
    ensures
        ({
            let r = agg.published(key);
            let st = agg.streams[key];
            let after = agg.flushed(seq![key]);
            &&& r.name == st.name && r.labels == st.labels
            &&& r.agg_cbor == agg.agg_cbor
            &&& r.count == Some(st.count)
            &&& r.sum == st.totals.sum
            &&& r.min == Some(st.totals.min)
            &&& r.max == Some(st.totals.max)
            &&& r.uptime_ms == st.uptime_ms
            &&& r.seq == agg.last_seq(key) + 1
            &&& after.streams == agg.streams.remove(key)
            &&& after.last_seq(key) == agg.last_seq(key) + 1
        }),
{
    assert(seq![key].drop_last() =~= Seq::empty());
    reveal_with_fuel(AggregatorView::flushed, 2);
}

/// A saved number counts if its key is a text and it is from 0 to 2^64 - 1; what comes later
/// stands over what came earlier, and everything else is passed over.
pub proof fn law_sound_numbers_are_loaded(
    entries: Seq<(DecodedView, DecodedView)>,
    k: DecodedView,
    v: DecodedView,
)
    ensures
        saved_numbers(Seq::empty()) == Map::<Seq<char>, u64>::empty(),
        k matches DecodedView::Text(key) ==> (v matches DecodedView::Integer(n) ==> 0 <= n
            <= 18446744073709551615 ==> saved_numbers(entries.push((k, v))) == saved_numbers(
            entries,
        ).insert(key, n as u64)),
        v matches DecodedView::Integer(n) ==> n < 0 || n > 18446744073709551615 ==> saved_numbers(
            entries.push((k, v)),
        ) == saved_numbers(entries),
        !(k is Text) || !(v is Integer) ==> saved_numbers(entries.push((k, v))) == saved_numbers(
            entries,
        ),
{
    assert(entries.push((k, v)).drop_last() =~= entries);
}

/// Without a file, or with one that holds no map, numbering starts afresh; else it goes on
/// from the numbers in the map.
pub proof fn law_numbering_goes_on_from_the_file(bytes: Seq<u8>)
    ensures
        loaded(None) == Map::<Seq<char>, u64>::empty(),
        map_entries(bytes) is None ==> loaded(Some(bytes)) == Map::<Seq<char>, u64>::empty(),
        map_entries(bytes) matches Some(entries) ==> loaded(Some(bytes)) == saved_numbers(entries),
{
}

/// There is room for `n` samples exactly where every number that was given is more than `n`
/// below the greatest, and every count is at least `n` below it.
pub proof fn law_room_is_what_is_left(agg: AggregatorView, n: nat)
    requires
        n < u64::MAX,
    ensures
        room(agg, n) <==> (forall|k: Seq<char>| #[trigger]
            agg.seq.contains_key(k) ==> u64::MAX - agg.seq[k] > n) && (forall|k: Seq<char>|
         #[trigger]
            agg.streams.contains_key(k) ==> u64::MAX - agg.streams[k].count >= n),
{
    if forall|k: Seq<char>| #[trigger] agg.seq.contains_key(k) ==> u64::MAX - agg.seq[k] > n {
        assert forall|k: Seq<char>| #[trigger] agg.seq.contains_key(k) implies agg.seq[k] + n
            < u64::MAX by {
            assert(u64::MAX - agg.seq[k] > n);
        }
    }
    if room(agg, n) {
        assert forall|k: Seq<char>| #[trigger] agg.seq.contains_key(k) implies u64::MAX - agg.seq[k]
            > n by {
            assert(agg.seq[k] + n < u64::MAX);
        }
        assert forall|k: Seq<char>| #[trigger] agg.streams.contains_key(k) implies u64::MAX
            - agg.streams[k].count >= n by {
            assert(agg.streams[k].count + n <= u64::MAX);
        }
    }
}

} // verus!
