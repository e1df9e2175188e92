//! What holds over many calls of an aggregator: the window of a stream, from the sample
//! that opens it to the reading that is published of it.

use vstd::prelude::*;
use crate::metrics::aggregator::{added_up, can_ingest, ingested, lemma_flushed, lists_due};
use crate::metrics::aggregator::{AggregatorView, MAX_STREAMS};
use crate::metrics::labels::key_of;
use crate::metrics::totals::{added_at, added_in_order, doubles_of, Arithmetic};
use crate::metrics::totals::law_totals_are_sum_least_and_greatest;
use crate::metrics::{MetricValue, ReadyView, SampleView, Totals};
use crate::order::{before, lemma_before_asymmetric};

verus! {

/// One call of `Aggregator::ingest`: what it was given, the totals that came out of
/// adding each sample up, and the streams that it published.
pub struct Call {
    pub samples: Seq<SampleView>,
    pub totals: Seq<Totals>,
    pub uptime_ms: u64,
    pub now: u64,
    pub keys: Seq<Seq<char>>,
}

/// The state when the samples of a call were taken.
pub open spec fn during(agg: AggregatorView, c: Call) -> AggregatorView {
    agg.taken_all(c.samples, c.totals, c.uptime_ms, c.now)
}

/// What a call hands out.
pub open spec fn handed_out(agg: AggregatorView, c: Call) -> Seq<ReadyView> {
    agg.passed_on_all(c.samples, c.totals, c.uptime_ms, c.now) + c.keys.map_values(
        |k: Seq<char>| during(agg, c).published(k),
    )
}

/// The state after some calls.
pub open spec fn after_calls(agg: AggregatorView, run: Seq<Call>) -> AggregatorView
    decreases run.len(),
{
    if run.len() == 0 {
        agg
    } else {
        during(after_calls(agg, run.drop_last()), run.last()).flushed(run.last().keys)
    }
}

/// The calls are such as `ingested` describes, and no number and no count overflows.
pub open spec fn proper_calls(
    agg: AggregatorView,
    run: Seq<Call>,
    adds: spec_fn(Option<Totals>, MetricValue, Totals) -> bool,
) -> bool
    decreases run.len(),
{
    run.len() == 0 || {
        let before_it = after_calls(agg, run.drop_last());
        let c = run.last();
        &&& proper_calls(agg, run.drop_last(), adds)
        &&& added_up(before_it, c.samples, c.totals, c.uptime_ms, c.now, adds)
        &&& can_ingest(before_it, c.samples, c.uptime_ms, c.now)
        &&& lists_due(during(before_it, c), c.now, c.keys)
    }
}

/// What `Aggregator::ingest` ensures is one more call of a run: it goes on from the state
/// after the calls before it, and returns what the call hands out.
pub proof fn law_ingesting_is_one_more_call(
    agg: AggregatorView,
    run: Seq<Call>,
    samples: Seq<SampleView>,
    uptime_ms: u64,
    now: u64,
    adds: spec_fn(Option<Totals>, MetricValue, Totals) -> bool,
    after: AggregatorView,
    ready: Seq<ReadyView>,
) -> (c: Call)
    requires
        proper_calls(agg, run, adds),
        can_ingest(after_calls(agg, run), samples, uptime_ms, now),
        ingested(after_calls(agg, run), samples, uptime_ms, now, adds, after, ready),
    ensures
        c.samples == samples,
        c.uptime_ms == uptime_ms,
        c.now == now,
        proper_calls(agg, run.push(c), adds),
        after_calls(agg, run.push(c)) == after,
        handed_out(after_calls(agg, run), c) == ready,
{
    let had = after_calls(agg, run);
    let (totals, keys) = choose|totals: Seq<Totals>, keys: Seq<Seq<char>>|
        #![trigger had.taken_all(samples, totals, uptime_ms, now).flushed(keys)]
        {
            let mid = had.taken_all(samples, totals, uptime_ms, now);
            &&& added_up(had, samples, totals, uptime_ms, now, adds)
            &&& lists_due(mid, now, keys)
            &&& after == mid.flushed(keys)
            &&& ready == had.passed_on_all(samples, totals, uptime_ms, now) + keys.map_values(
                |k: Seq<char>| mid.published(k),
            )
        };
    let c = Call { samples, totals, uptime_ms, now, keys };
    assert(run.push(c).drop_last() =~= run);
    assert(keys.map_values(|k: Seq<char>| during(had, c).published(k)) =~= keys.map_values(
        |k: Seq<char>| had.taken_all(samples, totals, uptime_ms, now).published(k),
    ));
    c
}

/// A sample belongs to a stream and is accumulated.
pub open spec fn feeds(s: SampleView, key: Seq<char>) -> bool {
    !s.counter && key_of(s.name, s.labels) == key
}

/// The values of a stream among some samples, each with the totals that it led to.
pub open spec fn fed(
    samples: Seq<SampleView>,
    totals: Seq<Totals>,
    key: Seq<char>,
) -> Seq<(MetricValue, Totals)>
    decreases samples.len(),
{
    if samples.len() == 0 {
        Seq::empty()
    } else {
        let earlier = fed(samples.drop_last(), totals.drop_last(), key);
        if feeds(samples.last(), key) {
            earlier.push((samples.last().value, totals.last()))
        } else {
            earlier
        }
    }
}

/// The values of a stream in some calls, each with the totals that it led to.
pub open spec fn history(run: Seq<Call>, key: Seq<char>) -> Seq<(MetricValue, Totals)>
    decreases run.len(),
{
    if run.len() == 0 {
        Seq::empty()
    } else {
        history(run.drop_last(), key) + fed(run.last().samples, run.last().totals, key)
    }
}

/// The uptime at the last of some calls that fed a stream.
pub open spec fn last_uptime(run: Seq<Call>, key: Seq<char>) -> u64
    decreases run.len(),
{
    if run.len() == 0 {
        0
    } else if fed(run.last().samples, run.last().totals, key).len() > 0 {
        run.last().uptime_ms
    } else {
        last_uptime(run.drop_last(), key)
    }
}

/// What a stream has accumulated is what a history led to, in a window that opened at
/// `start`.
spec fn holds(
    agg: AggregatorView,
    key: Seq<char>,
    h: Seq<(MetricValue, Totals)>,
    start: u64,
    uptime_ms: u64,
) -> bool {
    &&& h.len() > 0
    &&& agg.streams.contains_key(key)
    &&& agg.streams[key].count == h.len()
    &&& agg.streams[key].totals == h.last().1
    &&& agg.streams[key].window_start == start
    &&& agg.streams[key].uptime_ms == uptime_ms
}

/// A stream is not open, and either nothing came of it or there was no room.
spec fn closed_out(agg: AggregatorView, key: Seq<char>, h: Seq<(MetricValue, Totals)>) -> bool {
    !agg.streams.contains_key(key) && (h.len() == 0 || agg.streams.len() >= MAX_STREAMS)
}

/// Appending what follows to a history.
proof fn lemma_added_in_order(
    h: Seq<(MetricValue, Totals)>,
    e: (MetricValue, Totals),
    adds: spec_fn(Option<Totals>, MetricValue, Totals) -> bool,
)
    requires
        added_in_order(h, adds),
        adds(
            if h.len() == 0 {
                None
            } else {
                Some(h.last().1)
            },
            e.0,
            e.1,
        ),
    ensures
        added_in_order(h.push(e), adds),
{
    let g = h.push(e);
    assert forall|i: int| 0 <= i < g.len() implies #[trigger] added_at(g, i, adds) by {
        if i < h.len() {
            assert(added_at(h, i, adds));
        }
    }
}

/// What the first `n` samples of a call do to a stream.
proof fn lemma_call_feeds(
    agg: AggregatorView,
    c: Call,
    n: nat,
    adds: spec_fn(Option<Totals>, MetricValue, Totals) -> bool,
    key: Seq<char>,
    h: Seq<(MetricValue, Totals)>,
    start: u64,
    uptime_ms: u64,
)
    requires
        agg.wf(),
        agg.window is Some,
        n <= c.samples.len(),
        added_up(agg, c.samples, c.totals, c.uptime_ms, c.now, adds),
        can_ingest(agg, c.samples, c.uptime_ms, c.now),
        added_in_order(h, adds),
        holds(agg, key, h, start, uptime_ms) || (h.len() == 0 && !agg.streams.contains_key(key)
            && start == c.now),
    ensures
        ({
            let part = c.samples.take(n as int);
            let sums = c.totals.take(n as int);
            let mid = agg.taken_all(part, sums, c.uptime_ms, c.now);
            let more = fed(part, sums, key);
            let uptime = if more.len() > 0 {
                c.uptime_ms
            } else {
                uptime_ms
            };
            &&& mid.wf()
            &&& mid.window == agg.window
            &&& mid.agg_cbor == agg.agg_cbor
            &&& holds(mid, key, h + more, start, uptime) || (h.len() == 0 && closed_out(
                mid,
                key,
                more,
            ))
            &&& mid.streams.contains_key(key) ==> added_in_order(h + more, adds)
        }),
    decreases n,
{
    let part = c.samples.take(n as int);
    let sums = c.totals.take(n as int);
    if n == 0 {
        assert(h + fed(part, sums, key) =~= h);
    } else {
        let i = n - 1;
        lemma_call_feeds(agg, c, (n - 1) as nat, adds, key, h, start, uptime_ms);
        let before_part = c.samples.take(i);
        let before_sums = c.totals.take(i);
        assert(part.drop_last() =~= before_part);
        assert(sums.drop_last() =~= before_sums);
        let mid = agg.taken_all(before_part, before_sums, c.uptime_ms, c.now);
        let more = fed(before_part, before_sums, key);
        let s = c.samples[i];
        let t = c.totals[i];
        assert(part.last() == s && sums.last() == t);
        assert(mid.can_take(s));
        assert(adds(mid.open_totals(s), s.value, t));
        let after = mid.taken(s, t, c.uptime_ms, c.now);
        if feeds(s, key) {
            let e = (s.value, t);
            assert((h + more).push(e) =~= h + more.push(e));
            if mid.streams.contains_key(key) {
                assert((h + more).last().1 == mid.streams[key].totals);
                lemma_added_in_order(h + more, e, adds);
            } else if mid.streams.len() < MAX_STREAMS {
                assert(h + more =~= Seq::empty());
                lemma_added_in_order(h + more, e, adds);
            }
        } else {
            assert(mid.streams.contains_key(key) == after.streams.contains_key(key));
            if !mid.streams.contains_key(key) {
                lemma_taking_keeps_streams(mid, s, t, c.uptime_ms, c.now);
            }
        }
    }
}

/// Taking a sample closes no stream.
proof fn lemma_taking_keeps_streams(
    agg: AggregatorView,
    s: SampleView,
    totals: Totals,
    uptime_ms: u64,
    now: u64,
)
    requires
        agg.wf(),
    ensures
        agg.taken(s, totals, uptime_ms, now).streams.len() >= agg.streams.len(),
        agg.taken(s, totals, uptime_ms, now).wf(),
{
    let key = key_of(s.name, s.labels);
    let after = agg.taken(s, totals, uptime_ms, now);
    if !agg.raw(s) {
        if agg.streams.contains_key(key) {
            assert(after.streams.dom() =~= agg.streams.dom());
        } else if agg.streams.len() < MAX_STREAMS {
            assert(after.streams.dom() =~= agg.streams.dom().insert(key));
        }
    }
}

/// A sample opens a stream, unless as many are open as there may be.
pub proof fn law_stream_opens_unless_full(
    agg: AggregatorView,
    c: Call,
    adds: spec_fn(Option<Totals>, MetricValue, Totals) -> bool,
    key: Seq<char>,
)
    requires
        agg.wf(),
        agg.window is Some,
        proper_calls(agg, seq![c], adds),
        fed(c.samples, c.totals, key).len() > 0,
        during(agg, c).streams.len() < MAX_STREAMS,
    ensures
        during(agg, c).streams.contains_key(key),
{
    assert(seq![c].drop_last() =~= Seq::empty());
    assert(c.samples.take(c.samples.len() as int) =~= c.samples);
    assert(c.totals.take(c.totals.len() as int) =~= c.totals);
    if !agg.streams.contains_key(key) {
        lemma_call_feeds(agg, c, c.samples.len(), adds, key, Seq::empty(), c.now, 0);
    } else {
        lemma_streams_stay_open(agg, c.samples, c.totals, c.uptime_ms, c.now, key);
    }
}

/// Taking samples closes no stream.
proof fn lemma_streams_stay_open(
    agg: AggregatorView,
    samples: Seq<SampleView>,
    totals: Seq<Totals>,
    uptime_ms: u64,
    now: u64,
    key: Seq<char>,
)
    requires
        agg.streams.contains_key(key),
    ensures
        agg.taken_all(samples, totals, uptime_ms, now).streams.contains_key(key),
    decreases samples.len(),
{
    if samples.len() > 0 {
        lemma_streams_stay_open(
            agg,
            samples.drop_last(),
            totals.drop_last(),
            uptime_ms,
            now,
            key,
        );
    }
}

/// A sample of a stream that is not open opens a window at that time, unless as many
/// streams are open as there may be. It is the first one counted.
pub proof fn law_sample_opens_a_window(
    agg: AggregatorView,
    s: SampleView,
    totals: Totals,
    uptime_ms: u64,
    now: u64,
)
    requires
        agg.window is Some,
        !s.counter,
        !agg.streams.contains_key(key_of(s.name, s.labels)),
        agg.streams.len() < MAX_STREAMS,
    ensures
        ({
            let after = agg.taken(s, totals, uptime_ms, now);
            let st = after.streams[key_of(s.name, s.labels)];
            &&& after.streams.contains_key(key_of(s.name, s.labels))
            &&& st.count == 1
            &&& st.totals == totals
            &&& st.window_start == now
            &&& st.uptime_ms == uptime_ms
        }),
{
}

/// A whole window of a stream, over as many calls as it lasts.
///
/// The first of some calls opens the stream, and none but the last comes as late as the
/// window is long. Then the stream is published by none of the calls before the last,
/// and by the last exactly where the window is over. What it has accumulated by then is
/// every value that was fed to it, each counted once and added to the totals before it,
/// in order. It is published in one reading, with the next number of the stream and the
/// uptime at the last call that fed it. Then it is no longer open: the next sample opens
/// a new window.
pub proof fn law_window_is_published_once(
    agg: AggregatorView,
    run: Seq<Call>,
    adds: spec_fn(Option<Totals>, MetricValue, Totals) -> bool,
    key: Seq<char>,
)
    requires
        agg.wf(),
        agg.window is Some,
        run.len() > 0,
        proper_calls(agg, run, adds),
        !agg.streams.contains_key(key),
        during(agg, run[0]).streams.contains_key(key),
        forall|i: int|
            0 <= i < run.len() - 1 ==> (#[trigger] run[i]).now - run[0].now < agg.window->0,
    ensures
        ({
            let last = run.last();
            let before_it = after_calls(agg, run.drop_last());
            let mid = during(before_it, last);
            let h = history(run, key);
            let r = mid.published(key);
            &&& forall|i: int| 0 <= i < run.len() - 1 ==> !(#[trigger] run[i]).keys.contains(key)
            &&& h.len() > 0
            &&& added_in_order(h, adds)
            &&& mid.streams.contains_key(key)
            &&& mid.streams[key].window_start == run[0].now
            &&& last.keys.contains(key) <==> last.now - run[0].now >= agg.window->0
            &&& aggregates_of(handed_out(before_it, last), key) == if last.keys.contains(key) {
                1nat
            } else {
                0nat
            }
            &&& last.keys.contains(key) ==> {
                &&& handed_out(before_it, last).contains(r)
                &&& r.agg_cbor == agg.agg_cbor
                &&& key_of(r.name, r.labels) == key
                &&& r.count == Some(h.len() as u64)
                &&& r.sum == h.last().1.sum
                &&& r.min == Some(h.last().1.min)
                &&& r.max == Some(h.last().1.max)
                &&& r.uptime_ms == last_uptime(run, key)
                &&& r.seq == mid.last_seq(key) + 1
                &&& !after_calls(agg, run).streams.contains_key(key)
            }
        }),
{
    lemma_window(agg, run, adds, key);
    let last = run.last();
    let before_it = after_calls(agg, run.drop_last());
    let mid = during(before_it, last);
    law_call_publishes_a_stream_once(before_it, last, key);
    assert(last.keys.contains(key) <==> mid.due(key, last.now));
    if last.keys.contains(key) {
        let out = last.keys.map_values(|k: Seq<char>| mid.published(k));
        let first = before_it.passed_on_all(last.samples, last.totals, last.uptime_ms, last.now);
        let i = choose|i: int| 0 <= i < last.keys.len() && last.keys[i] == key;
        assert(out[i] == mid.published(key));
        assert((first + out)[first.len() + i] == out[i]);
        assert(mid.last_seq(key) < u64::MAX) by {
            assert(before_it.taken_all(
                last.samples,
                last.totals,
                last.uptime_ms,
                last.now,
            ).due(key, last.now));
        }
        lemma_flushed_is_closed(mid, last.keys, key);
    }
}

/// The reading that is published of a window holds the sum of all values that were fed to
/// the stream in it, added in their order, the least of them and the greatest, by the
/// arithmetic with which each was added.
pub proof fn law_reading_has_sum_least_and_greatest(
    agg: AggregatorView,
    run: Seq<Call>,
    adds: spec_fn(Option<Totals>, MetricValue, Totals) -> bool,
    key: Seq<char>,
    a: Arithmetic,
)
    requires
        agg.wf(),
        agg.window is Some,
        run.len() > 0,
        proper_calls(agg, run, adds),
        a.governs(adds),
        a.strict(),
        !agg.streams.contains_key(key),
        during(agg, run[0]).streams.contains_key(key),
        forall|i: int|
            0 <= i < run.len() - 1 ==> (#[trigger] run[i]).now - run[0].now < agg.window->0,
        run.last().now - run[0].now >= agg.window->0,
    ensures
        ({
            let before_it = after_calls(agg, run.drop_last());
            let r = during(before_it, run.last()).published(key);
            let values = doubles_of(history(run, key), a);
            &&& handed_out(before_it, run.last()).contains(r)
            &&& aggregates_of(handed_out(before_it, run.last()), key) == 1
            &&& key_of(r.name, r.labels) == key
            &&& values.len() > 0
            &&& r.count == Some(values.len() as u64)
            &&& r.sum == a.sum_of(values)
            &&& r.min is Some && a.least(values, r.min->0)
            &&& r.max is Some && a.greatest(values, r.max->0)
        }),
{
    law_window_is_published_once(agg, run, adds, key);
    law_totals_are_sum_least_and_greatest(history(run, key), adds, a);
}

/// When the reading of a window has been published, the next sample of the stream opens a
/// new window at that time, in which it is the first one counted, unless as many streams
/// are open as there may be.
pub proof fn law_next_sample_opens_a_new_window(
    agg: AggregatorView,
    run: Seq<Call>,
    adds: spec_fn(Option<Totals>, MetricValue, Totals) -> bool,
    key: Seq<char>,
    s: SampleView,
    totals: Totals,
    uptime_ms: u64,
    now: u64,
)
    requires
        agg.wf(),
        agg.window is Some,
        run.len() > 0,
        proper_calls(agg, run, adds),
        !agg.streams.contains_key(key),
        during(agg, run[0]).streams.contains_key(key),
        forall|i: int|
            0 <= i < run.len() - 1 ==> (#[trigger] run[i]).now - run[0].now < agg.window->0,
        run.last().now - run[0].now >= agg.window->0,
        feeds(s, key),
        after_calls(agg, run).streams.len() < MAX_STREAMS,
    ensures
        ({
            let after = after_calls(agg, run).taken(s, totals, uptime_ms, now);
            &&& after.streams.contains_key(key)
            &&& after.streams[key].count == 1
            &&& after.streams[key].totals == totals
            &&& after.streams[key].window_start == now
            &&& after.streams[key].uptime_ms == uptime_ms
        }),
{
    law_window_is_published_once(agg, run, adds, key);
    lemma_window(agg, run, adds, key);
    lemma_flushed(during(after_calls(agg, run.drop_last()), run.last()), run.last().keys, key);
    law_sample_opens_a_window(after_calls(agg, run), s, totals, uptime_ms, now);
}

/// How many aggregated readings of a stream are in a list.
pub open spec fn aggregates_of(ready: Seq<ReadyView>, key: Seq<char>) -> nat
    decreases ready.len(),
{
    if ready.len() == 0 {
        0
    } else {
        let r = ready.last();
        aggregates_of(ready.drop_last(), key) + if r.count is Some && key_of(r.name, r.labels)
            == key {
            1nat
        } else {
            0nat
        }
    }
}

/// A call hands out one aggregated reading of each stream whose window is over, and none
/// of any other.
pub proof fn law_call_publishes_a_stream_once(agg: AggregatorView, c: Call, key: Seq<char>)
    requires
        during(agg, c).wf(),
        lists_due(during(agg, c), c.now, c.keys),
    ensures
        aggregates_of(handed_out(agg, c), key) == if during(agg, c).due(key, c.now) {
            1nat
        } else {
            0nat
        },
{
    let mid = during(agg, c);
    let first = agg.passed_on_all(c.samples, c.totals, c.uptime_ms, c.now);
    lemma_passed_on_is_raw(agg, c.samples, c.totals, c.uptime_ms, c.now, key);
    assert forall|i: int| 0 <= i < c.keys.len() implies mid.streams.contains_key(
        #[trigger] c.keys[i],
    ) by {
        assert(c.keys.contains(c.keys[i]));
    }
    lemma_aggregates(mid, first, c.keys, key);
    assert(c.keys.contains(key) <==> mid.due(key, c.now));
}

/// What is passed on at once is not aggregated.
proof fn lemma_passed_on_is_raw(
    agg: AggregatorView,
    samples: Seq<SampleView>,
    totals: Seq<Totals>,
    uptime_ms: u64,
    now: u64,
    key: Seq<char>,
)
    ensures
        aggregates_of(agg.passed_on_all(samples, totals, uptime_ms, now), key) == 0,
    decreases samples.len(),
{
    if samples.len() > 0 {
        let earlier = agg.passed_on_all(samples.drop_last(), totals.drop_last(), uptime_ms, now);
        lemma_passed_on_is_raw(
            agg,
            samples.drop_last(),
            totals.drop_last(),
            uptime_ms,
            now,
            key,
        );
        let mid = agg.taken_all(samples.drop_last(), totals.drop_last(), uptime_ms, now);
        if let Some(r) = mid.passed_on(samples.last(), totals.last(), uptime_ms) {
            assert(earlier.push(r).drop_last() =~= earlier);
        }
    }
}

/// Streams that are published, one reading each.
proof fn lemma_aggregates(
    mid: AggregatorView,
    first: Seq<ReadyView>,
    keys: Seq<Seq<char>>,
    key: Seq<char>,
)
    requires
        mid.wf(),
        aggregates_of(first, key) == 0,
        forall|i: int| 0 <= i < keys.len() ==> mid.streams.contains_key(#[trigger] keys[i]),
        forall|i: int, j: int|
            0 <= i < j < keys.len() ==> before(#[trigger] keys[i], #[trigger] keys[j]),
    ensures
        aggregates_of(first + keys.map_values(|k: Seq<char>| mid.published(k)), key)
            == if keys.contains(key) {
            1nat
        } else {
            0nat
        },
    decreases keys.len(),
{
    let out = keys.map_values(|k: Seq<char>| mid.published(k));
    if keys.len() == 0 {
        assert(first + out =~= first);
    } else {
        let rest = keys.drop_last();
        let last = keys.last();
        assert forall|i: int| 0 <= i < rest.len() implies mid.streams.contains_key(
            #[trigger] rest[i],
        ) by {
            assert(rest[i] == keys[i]);
        }
        assert forall|i: int, j: int| 0 <= i < j < rest.len() implies before(
            #[trigger] rest[i],
            #[trigger] rest[j],
        ) by {
            assert(rest[i] == keys[i] && rest[j] == keys[j]);
        }
        lemma_aggregates(mid, first, rest, key);
        let less = rest.map_values(|k: Seq<char>| mid.published(k));
        assert((first + out).drop_last() =~= first + less);
        assert((first + out).last() == mid.published(last));
        assert(mid.streams.contains_key(keys[keys.len() - 1]));
        if rest.contains(last) {
            let i = choose|i: int| 0 <= i < rest.len() && rest[i] == last;
            assert(before(keys[i], keys[keys.len() - 1]));
            lemma_before_asymmetric(last, last);
        }
        if keys.contains(key) && key != last {
            let i = choose|i: int| 0 <= i < keys.len() && keys[i] == key;
            assert(rest[i] == key);
        }
        if rest.contains(key) {
            let i = choose|i: int| 0 <= i < rest.len() && rest[i] == key;
            assert(keys[i] == key);
        }
        assert(keys[keys.len() - 1] == last);
    }
}

/// What is flushed is closed.
proof fn lemma_flushed_is_closed(agg: AggregatorView, keys: Seq<Seq<char>>, key: Seq<char>)
    requires
        keys.contains(key) || !agg.streams.contains_key(key),
    ensures
        !agg.flushed(keys).streams.contains_key(key),
    decreases keys.len(),
{
    if keys.len() > 0 {
        let rest = keys.drop_last();
        if keys.contains(key) && keys.last() != key {
            let i = choose|i: int| 0 <= i < keys.len() && keys[i] == key;
            assert(rest[i] == key);
        }
        if rest.contains(key) || !agg.streams.contains_key(key) {
            lemma_flushed_is_closed(agg, rest, key);
        }
    }
}

/// What a stream has accumulated, and that it was not published, as long as its window
/// lasts.
proof fn lemma_window(
    agg: AggregatorView,
    run: Seq<Call>,
    adds: spec_fn(Option<Totals>, MetricValue, Totals) -> bool,
    key: Seq<char>,
)
    requires
        agg.wf(),
        agg.window is Some,
        run.len() > 0,
        proper_calls(agg, run, adds),
        !agg.streams.contains_key(key),
        during(agg, run[0]).streams.contains_key(key),
        forall|i: int|
            0 <= i < run.len() - 1 ==> (#[trigger] run[i]).now - run[0].now < agg.window->0,
    ensures
        ({
            let mid = during(after_calls(agg, run.drop_last()), run.last());
            &&& mid.wf()
            &&& mid.window == agg.window
            &&& mid.agg_cbor == agg.agg_cbor
            &&& holds(mid, key, history(run, key), run[0].now, last_uptime(run, key))
            &&& added_in_order(history(run, key), adds)
            &&& forall|i: int| 0 <= i < run.len() - 1 ==> !(#[trigger] run[i]).keys.contains(key)
        }),
    decreases run.len(),
{
    let c = run.last();
    let earlier = run.drop_last();
    let before_it = after_calls(agg, earlier);
    assert(c.samples.take(c.samples.len() as int) =~= c.samples);
    assert(c.totals.take(c.totals.len() as int) =~= c.totals);
    if run.len() == 1 {
        assert(earlier =~= Seq::empty());
        assert(history(earlier, key) =~= Seq::empty());
        assert(c == run[0]);
        lemma_call_feeds(agg, c, c.samples.len(), adds, key, Seq::empty(), c.now, 0);
        let more = fed(c.samples, c.totals, key);
        assert(Seq::<(MetricValue, Totals)>::empty() + more =~= more);
        assert(history(run, key) =~= more);
    } else {
        assert(earlier[0] == run[0]);
        assert forall|i: int| 0 <= i < earlier.len() - 1 implies (#[trigger] earlier[i]).now
            - earlier[0].now < agg.window->0 by {
            assert(earlier[i] == run[i]);
        }
        lemma_window(agg, earlier, adds, key);
        let prev = earlier.last();
        assert(prev == run[run.len() - 2]);
        let mid = during(after_calls(agg, earlier.drop_last()), prev);
        reveal_with_fuel(proper_calls, 2);
        assert(lists_due(mid, prev.now, prev.keys));
        assert(!mid.due(key, prev.now));
        assert(prev.keys.contains(key) <==> mid.due(key, prev.now));
        lemma_flushed(mid, prev.keys, key);
        assert forall|i: int| 0 <= i < run.len() - 1 implies !(#[trigger] run[i]).keys.contains(
            key,
        ) by {
            assert(run[i] == earlier[i]);
        }
        lemma_call_feeds(
            before_it,
            c,
            c.samples.len(),
            adds,
            key,
            history(earlier, key),
            run[0].now,
            last_uptime(earlier, key),
        );
    }
}

} // verus!
