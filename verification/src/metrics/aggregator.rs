//! Per-stream aggregation with persistent sequence numbers.
//!
//! A stream is known by the key that [`stream_key`] makes of name and labels. Readings
//! are either passed on at once, or accumulated until the window of their stream is over.
//! Points in time are nanoseconds of a clock that never goes back.

use vstd::prelude::*;
use crate::cbor::{decoded_view, encode_map, entries_read_back, entries_view, map_bytes};
use crate::cbor::{map_entries, read_back, read_map, CborItem, CborView, Decoded, DecodedView};
use crate::cbor::EncodeError;
use crate::config::MetricsConfig;
use crate::metrics::labels::{key_of, label_texts, stream_key};
use crate::metrics::totals::{accumulate, adds_by};
use crate::metrics::{MetricSample, MetricValue, ReadyMetric, ReadyView, SampleView, Totals};
use crate::metrics::{AGG_1DAY, AGG_1HOUR, AGG_1MIN, AGG_NONE};
use crate::order::{before, lemma_before_asymmetric};
use crate::string_map::{ascending, lemma_pairs_map, pairs_map, StringMap};
use crate::text::{same, to_chars};

verus! {

/// How many streams are accumulated at one time. Labels that never repeat would
/// otherwise fill the memory during a long window.
pub const MAX_STREAMS: usize = 10_000;

/// Name of the file that keeps the sequence numbers.
pub const SEQ_FILE_NAME: &'static str = "metrics_seq.cbor";

/// What has been accumulated of a stream.
#[derive(Debug)]
struct StreamState {
    name: String,
    labels: Vec<(String, String)>,
    totals: Totals,
    count: u64,
    window_start: u64,
    uptime_ms: u64,
}

/// What such a state says.
#[verifier::ext_equal]
pub struct StreamView {
    pub name: Seq<char>,
    pub labels: Seq<(Seq<char>, Seq<char>)>,
    pub totals: Totals,
    pub count: u64,
    pub window_start: u64,
    pub uptime_ms: u64,
}

impl View for StreamState {
    type V = StreamView;

    closed spec fn view(&self) -> StreamView {
        StreamView {
            name: self.name@,
            labels: label_texts(self.labels@),
            totals: self.totals,
            count: self.count,
            window_start: self.window_start,
            uptime_ms: self.uptime_ms,
        }
    }
}

/// Accumulates readings and numbers what is published.
#[derive(Debug)]
pub struct Aggregator {
    agg_cbor: u8,
    window: Option<u64>,
    states: StringMap<StreamState>,
    seq: StringMap<u64>,
}

/// What an aggregator holds: the interval code, the length of a window if there is one,
/// the accumulated streams, and the last number given to each stream.
#[verifier::ext_equal]
pub struct AggregatorView {
    pub agg_cbor: u8,
    pub window: Option<u64>,
    pub streams: Map<Seq<char>, StreamView>,
    pub seq: Map<Seq<char>, u64>,
}

impl View for Aggregator {
    type V = AggregatorView;

    closed spec fn view(&self) -> AggregatorView {
        AggregatorView {
            agg_cbor: self.agg_cbor,
            window: self.window,
            streams: self.states@.map_values(|st: StreamState| st@),
            seq: self.seq@,
        }
    }
}

impl AggregatorView {
    /// There are no more streams than allowed, and each stands at its own key.
    pub open spec fn wf(self) -> bool {
        &&& self.streams.dom().finite()
        &&& self.streams.len() <= MAX_STREAMS
        &&& forall|k: Seq<char>| #[trigger]
            self.streams.contains_key(k) ==> k == key_of(
                self.streams[k].name,
                self.streams[k].labels,
            )
    }

    /// The last number given to a stream; zero before the first.
    pub open spec fn last_seq(self, key: Seq<char>) -> u64 {
        if self.seq.contains_key(key) {
            self.seq[key]
        } else {
            0
        }
    }

    /// The next number has been given to a stream.
    pub open spec fn numbered(self, key: Seq<char>) -> AggregatorView {
        AggregatorView {
            seq: self.seq.insert(key, (self.last_seq(key) + 1) as u64),
            ..self
        }
    }

    /// A sample is passed on as it is: there is no window, or it is a running total.
    pub open spec fn raw(self, s: SampleView) -> bool {
        self.window is None || s.counter
    }

    /// The totals that a sample is to be added to.
    pub open spec fn open_totals(self, s: SampleView) -> Option<Totals> {
        let key = key_of(s.name, s.labels);
        if !self.raw(s) && self.streams.contains_key(key) {
            Some(self.streams[key].totals)
        } else {
            None
        }
    }

    /// Taking a sample overflows no number and no count.
    pub open spec fn can_take(self, s: SampleView) -> bool {
        let key = key_of(s.name, s.labels);
        if self.raw(s) {
            self.last_seq(key) < u64::MAX
        } else {
            self.streams.contains_key(key) ==> self.streams[key].count < u64::MAX
        }
    }

    /// The state after a sample, where `totals` are those with the sample added.
    pub open spec fn taken(
        self,
        s: SampleView,
        totals: Totals,
        uptime_ms: u64,
        now: u64,
    ) -> AggregatorView {
        let key = key_of(s.name, s.labels);
        if self.raw(s) {
            self.numbered(key)
        } else if self.streams.contains_key(key) {
            let st = self.streams[key];
            AggregatorView {
                streams: self.streams.insert(
                    key,
                    StreamView { totals, count: (st.count + 1) as u64, uptime_ms, ..st },
                ),
                ..self
            }
        } else if self.streams.len() < MAX_STREAMS {
            AggregatorView {
                streams: self.streams.insert(
                    key,
                    StreamView {
                        name: s.name,
                        labels: s.labels,
                        totals,
                        count: 1,
                        window_start: now,
                        uptime_ms,
                    },
                ),
                ..self
            }
        } else {
            self
        }
    }

    /// What is published of a sample at once.
    pub open spec fn passed_on(
        self,
        s: SampleView,
        totals: Totals,
        uptime_ms: u64,
    ) -> Option<ReadyView> {
        if self.raw(s) {
            Some(
                ReadyView {
                    name: s.name,
                    agg_cbor: AGG_NONE,
                    labels: s.labels,
                    sum: totals.sum,
                    count: None,
                    min: None,
                    max: None,
                    seq: (self.last_seq(key_of(s.name, s.labels)) + 1) as u64,
                    uptime_ms,
                },
            )
        } else {
            None
        }
    }

    /// The state after some samples.
    pub open spec fn taken_all(
        self,
        samples: Seq<SampleView>,
        totals: Seq<Totals>,
        uptime_ms: u64,
        now: u64,
    ) -> AggregatorView
        decreases samples.len(),
    {
        if samples.len() == 0 {
            self
        } else {
            self.taken_all(samples.drop_last(), totals.drop_last(), uptime_ms, now).taken(
                samples.last(),
                totals.last(),
                uptime_ms,
                now,
            )
        }
    }

    /// What is published of some samples at once.
    pub open spec fn passed_on_all(
        self,
        samples: Seq<SampleView>,
        totals: Seq<Totals>,
        uptime_ms: u64,
        now: u64,
    ) -> Seq<ReadyView>
        decreases samples.len(),
    {
        if samples.len() == 0 {
            Seq::empty()
        } else {
            let earlier = self.passed_on_all(
                samples.drop_last(),
                totals.drop_last(),
                uptime_ms,
                now,
            );
            let agg = self.taken_all(samples.drop_last(), totals.drop_last(), uptime_ms, now);
            match agg.passed_on(samples.last(), totals.last(), uptime_ms) {
                Some(r) => earlier.push(r),
                None => earlier,
            }
        }
    }

    /// The window of a stream is over.
    pub open spec fn due(self, key: Seq<char>, now: u64) -> bool {
        &&& self.window is Some
        &&& self.streams.contains_key(key)
        &&& now >= self.streams[key].window_start
        &&& now - self.streams[key].window_start >= self.window->0
    }

    /// The state after streams have been published.
    pub open spec fn flushed(self, keys: Seq<Seq<char>>) -> AggregatorView
        decreases keys.len(),
    {
        if keys.len() == 0 {
            self
        } else {
            let agg = self.flushed(keys.drop_last());
            AggregatorView { streams: agg.streams.remove(keys.last()), ..agg }.numbered(keys.last())
        }
    }

    /// What is published of an accumulated stream.
    pub open spec fn published(self, key: Seq<char>) -> ReadyView {
        let st = self.streams[key];
        ReadyView {
            name: st.name,
            agg_cbor: self.agg_cbor,
            labels: st.labels,
            sum: st.totals.sum,
            count: Some(st.count),
            min: Some(st.totals.min),
            max: Some(st.totals.max),
            seq: (self.last_seq(key) + 1) as u64,
            uptime_ms: st.uptime_ms,
        }
    }
}

/// `keys` lists the streams whose window is over, in ascending order.
pub open spec fn lists_due(agg: AggregatorView, now: u64, keys: Seq<Seq<char>>) -> bool {
    &&& forall|i: int, j: int|
        0 <= i < j < keys.len() ==> before(#[trigger] keys[i], #[trigger] keys[j])
    &&& forall|k: Seq<char>| #[trigger] keys.contains(k) <==> agg.due(k, now)
}

/// `totals` come from adding each sample to what its stream had accumulated by then,
/// where `adds(had, value, sum)` says that `sum` may come out of adding `value` to `had`.
pub open spec fn added_up(
    agg: AggregatorView,
    samples: Seq<SampleView>,
    totals: Seq<Totals>,
    uptime_ms: u64,
    now: u64,
    adds: spec_fn(Option<Totals>, MetricValue, Totals) -> bool,
) -> bool {
    &&& totals.len() == samples.len()
    &&& forall|i: int|
        0 <= i < samples.len() ==> adds(
            agg.taken_all(samples.take(i), totals.take(i), uptime_ms, now).open_totals(samples[i]),
            samples[i].value,
            #[trigger] totals[i],
        )
}

/// No number and no count overflows when samples are taken and what is due is
/// published, whatever the totals are.
pub open spec fn can_ingest(
    agg: AggregatorView,
    samples: Seq<SampleView>,
    uptime_ms: u64,
    now: u64,
) -> bool {
    &&& forall|i: int, totals: Seq<Totals>|
        #![trigger agg.taken_all(samples.take(i), totals, uptime_ms, now)]
        0 <= i < samples.len() && totals.len() == i ==> agg.taken_all(
            samples.take(i),
            totals,
            uptime_ms,
            now,
        ).can_take(samples[i])
    &&& forall|k: Seq<char>, totals: Seq<Totals>|
        #![trigger agg.taken_all(samples, totals, uptime_ms, now).due(k, now)]
        totals.len() == samples.len() && agg.taken_all(samples, totals, uptime_ms, now).due(k, now)
            ==> agg.taken_all(samples, totals, uptime_ms, now).last_seq(k) < u64::MAX
}

/// `agg` has become `after`, and `ready` is to be published, when `samples` were taken
/// and then the streams flushed whose window is over.
pub open spec fn ingested(
    agg: AggregatorView,
    samples: Seq<SampleView>,
    uptime_ms: u64,
    now: u64,
    adds: spec_fn(Option<Totals>, MetricValue, Totals) -> bool,
    after: AggregatorView,
    ready: Seq<ReadyView>,
) -> bool {
    exists|totals: Seq<Totals>, keys: Seq<Seq<char>>|
        #![trigger agg.taken_all(samples, totals, uptime_ms, now).flushed(keys)]
        {
            let mid = agg.taken_all(samples, totals, uptime_ms, now);
            &&& added_up(agg, samples, totals, uptime_ms, now, adds)
            &&& lists_due(mid, now, keys)
            &&& after == mid.flushed(keys)
            &&& ready == agg.passed_on_all(samples, totals, uptime_ms, now) + keys.map_values(
                |k: Seq<char>| mid.published(k),
            )
        }
}

/// What some samples say.
pub open spec fn sample_views(samples: Seq<MetricSample>) -> Seq<SampleView> {
    samples.map_values(|s: MetricSample| s@)
}

/// What some metrics say that are ready.
pub open spec fn ready_views(ready: Seq<ReadyMetric>) -> Seq<ReadyView> {
    ready.map_values(|r: ReadyMetric| r@)
}

/// Interval code and window in nanoseconds for a configured interval.
pub open spec fn interval_of(name: Seq<char>) -> Option<(u8, Option<u64>)> {
    if name == "none"@ {
        Some((AGG_NONE, None))
    } else if name == "1m"@ {
        Some((AGG_1MIN, Some(60_000_000_000)))
    } else if name == "1h"@ {
        Some((AGG_1HOUR, Some(3_600_000_000_000)))
    } else if name == "1d"@ {
        Some((AGG_1DAY, Some(86_400_000_000_000)))
    } else {
        None
    }
}

/// The sequence numbers among the entries of a saved map: those with a text as key and
/// an integer as value that is in range. Of equal keys the last one counts.
pub open spec fn saved_numbers(entries: Seq<(DecodedView, DecodedView)>) -> Map<Seq<char>, u64>
    decreases entries.len(),
{
    if entries.len() == 0 {
        Map::empty()
    } else {
        let earlier = saved_numbers(entries.drop_last());
        match entries.last() {
            (DecodedView::Text(key), DecodedView::Integer(n)) => if 0 <= n <= u64::MAX {
                earlier.insert(key, n as u64)
            } else {
                earlier
            },
            _ => earlier,
        }
    }
}

/// The sequence numbers that a saved file holds; none where it cannot be read.
pub open spec fn loaded(file: Option<Seq<u8>>) -> Map<Seq<char>, u64> {
    match file {
        Some(bytes) => match map_entries(bytes) {
            Some(entries) => saved_numbers(entries),
            None => Map::empty(),
        },
        None => Map::empty(),
    }
}

/// The entries of the map in which sequence numbers are saved.
pub open spec fn number_entries(pairs: Seq<(Seq<char>, u64)>) -> Seq<(CborView, CborView)> {
    pairs.map_values(|p: (Seq<char>, u64)| (CborView::Text(p.0), CborView::Uint(p.1)))
}

/// The configured interval is not one of those known.
#[derive(Debug)]
pub struct UnknownInterval {
    pub interval: String,
}

impl UnknownInterval {
    /// The error in words.
    pub fn message(&self) -> (m: String)
        ensures
            m@ == "unknown aggregation_interval: "@ + self.interval@,
    {
        let mut m = "unknown aggregation_interval: ".to_string();
        m.append(self.interval.as_str());
        m
    }
}

/// Picks the sequence numbers from the entries of a saved map.
pub fn numbers_from(entries: Vec<(Decoded, Decoded)>) -> (m: StringMap<u64>)
    ensures
        m@ == saved_numbers(decoded_view(entries@)),
{
    let mut m: StringMap<u64> = StringMap::new();
    let ghost all = decoded_view(entries@);
    assert(all.take(0) =~= Seq::empty());
    for entry in it: entries
        invariant
            all == decoded_view(it.seq()),
            m@ == saved_numbers(all.take(it.index() as int)),
    {
        let ghost i = it.index() as int;
        proof {
            assert(all[i] == (entry.0@, entry.1@));
            assert(all.take(i + 1).drop_last() =~= all.take(i));
            assert(all.take(i + 1).last() == all[i]);
        }
        match entry {
            (Decoded::Text(key), Decoded::Integer(n)) => {
                if 0 <= n && n <= u64::MAX as i128 {
                    m.insert(key, n as u64);
                }
            },
            _ => {},
        }
    }
    assert(all.take(all.len() as int) =~= all);
    m
}

/// Reads the sequence numbers from what the file holds, if it could be read.
pub fn load_seq(file: Option<&[u8]>) -> (m: StringMap<u64>)
    ensures
        m@ == loaded(match file {
            Some(bytes) => Some(bytes@),
            None => None,
        }),
{
    match file {
        Some(bytes) => match read_map(bytes) {
            Some(entries) => numbers_from(entries),
            None => StringMap::new(),
        },
        None => StringMap::new(),
    }
}

impl Aggregator {
    /// An aggregator for the configured interval, which goes on numbering from what the
    /// file holds, if it could be read.
    pub fn new(cfg: &MetricsConfig, file: Option<&[u8]>) -> (r: Result<Self, UnknownInterval>)
        ensures
            match (r, interval_of(cfg.aggregation_interval@)) {
                (Ok(agg), Some((code, window))) => agg@.wf() && agg@ == (AggregatorView {
                    agg_cbor: code,
                    window,
                    streams: Map::empty(),
                    seq: loaded(match file {
                        Some(bytes) => Some(bytes@),
                        None => None,
                    }),
                }),
                (Err(e), None) => e.interval@ == cfg.aggregation_interval@,
                _ => false,
            },
    {
        let name = to_chars(cfg.aggregation_interval.as_str());
        let (agg_cbor, window): (u8, Option<u64>) = if same(name.as_slice(), "none") {
            (AGG_NONE, None)
        } else if same(name.as_slice(), "1m") {
            (AGG_1MIN, Some(60_000_000_000))
        } else if same(name.as_slice(), "1h") {
            (AGG_1HOUR, Some(3_600_000_000_000))
        } else if same(name.as_slice(), "1d") {
            (AGG_1DAY, Some(86_400_000_000_000))
        } else {
            return Err(UnknownInterval { interval: cfg.aggregation_interval.clone() });
        };
        let agg = Aggregator { agg_cbor, window, states: StringMap::new(), seq: load_seq(file) };
        assert(agg@.streams =~= Map::empty());
        Ok(agg)
    }

    /// How many streams are accumulated.
    pub fn stream_count(&self) -> (n: usize)
        ensures
            n == self@.streams.len(),
    {
        assert(self@.streams.dom() =~= self.states@.dom());
        self.states.len()
    }

    /// Gives the next number to a stream.
    pub fn next_seq(&mut self, key: &str) -> (n: u64)
        requires
            old(self)@.last_seq(key@) < u64::MAX,
        ensures
            n == old(self)@.last_seq(key@) + 1,
            final(self)@ == old(self)@.numbered(key@),
    {
        let n: u64 = match self.seq.get(key) {
            Some(last) => *last,
            None => 0,
        } + 1;
        self.seq.insert(key.to_string(), n);
        n
    }

    /// Takes one sample, where `totals` are those with the sample added.
    fn take_sample(&mut self, s: MetricSample, totals: Totals, uptime_ms: u64, now: u64) -> (r:
        Option<ReadyMetric>)
        requires
            old(self)@.wf(),
            old(self)@.can_take(s@),
        ensures
            final(self)@.wf(),
            final(self)@ == old(self)@.taken(s@, totals, uptime_ms, now),
            match r {
                Some(m) => old(self)@.passed_on(s@, totals, uptime_ms) == Some(m@),
                None => old(self)@.passed_on(s@, totals, uptime_ms) is None,
            },
    {
        let key = stream_key(s.name.as_str(), &s.labels);
        let ghost had = self@;
        if self.window.is_none() || s.counter {
            let seq: u64 = self.next_seq(key.as_str());
            return Some(
                ReadyMetric {
                    name: s.name,
                    agg_cbor: AGG_NONE,
                    labels: s.labels,
                    sum: totals.sum,
                    count: None,
                    min: None,
                    max: None,
                    seq,
                    uptime_ms,
                },
            );
        }
        assert(had.streams.dom() =~= self.states@.dom());
        if let Some(st) = self.states.remove(key.as_str()) {
            let count: u64 = st.count + 1;
            let updated = StreamState { totals, count, uptime_ms, ..st };
            self.states.insert(key, updated);
            proof {
                let view = had.taken(s@, totals, uptime_ms, now);
                assert(self@.streams =~= view.streams);
                assert(self@.streams.dom() =~= had.streams.dom());
            }
        } else {
            assert(self.states@ =~= old(self).states@);
            if self.states.len() < MAX_STREAMS {
                let started = StreamState {
                    name: s.name,
                    labels: s.labels,
                    totals,
                    count: 1,
                    window_start: now,
                    uptime_ms,
                };
                self.states.insert(key, started);
                proof {
                    let view = had.taken(s@, totals, uptime_ms, now);
                    assert(self@.streams =~= view.streams);
                    assert(self@.streams.dom() =~= had.streams.dom().insert(key@));
                }
            }
        }
        None
    }

    /// The keys of the streams whose window is over, in ascending order.
    fn due_keys(&self, window: u64, now: u64) -> (r: Vec<String>)
        requires
            self@.window == Some(window),
        ensures
            lists_due(self@, now, r@.map_values(|k: String| k@)),
    {
        let n: usize = self.states.len();
        let ghost pairs = self.states.pairs();
        proof {
            lemma_pairs_map(pairs);
        }
        let mut r: Vec<String> = Vec::new();
        let ghost mut at: Seq<int> = Seq::empty();
        for i in 0..n
            invariant
                n == pairs.len(),
                pairs == self.states.pairs(),
                self@.window == Some(window),
                forall|l: int|
                    0 <= l < pairs.len() ==> pairs_map(pairs).contains_key((#[trigger] pairs[l]).0)
                        && pairs_map(pairs)[pairs[l].0] == pairs[l].1,
                at.len() == r@.len(),
                forall|j: int|
                    #![trigger at[j]]
                    #![trigger r@[j]]
                    0 <= j < at.len() ==> 0 <= at[j] < i && r@[j]@ == pairs[at[j]].0 && self@.due(
                        pairs[at[j]].0,
                        now,
                    ),
                forall|j: int, l: int| 0 <= j < l < at.len() ==> at[j] < at[l],
                forall|l: int|
                    0 <= l < i && self@.due((#[trigger] pairs[l]).0, now) ==> at.contains(l),
        {
            let st = self.states.value_at(i);
            let ghost had = at;
            assert(self@.streams.contains_key(pairs[i as int].0));
            assert(self@.streams[pairs[i as int].0] == st@);
            if now >= st.window_start && now - st.window_start >= window {
                r.push(self.states.key_at(i).clone());
                proof {
                    at = at.push(i as int);
                    assert forall|l: int|
                        0 <= l < i + 1 && self@.due((#[trigger] pairs[l]).0, now) implies at.contains(
                        l,
                    ) by {
                        if l < i {
                            assert(had.contains(l));
                            let j = choose|j: int| 0 <= j < had.len() && had[j] == l;
                            assert(at[j] == l);
                        } else {
                            assert(at[had.len() as int] == l);
                        }
                    }
                }
            }
        }
        proof {
            let keys = r@.map_values(|k: String| k@);
            assert forall|k: Seq<char>| #[trigger] keys.contains(k) <==> self@.due(k, now) by {
                if keys.contains(k) {
                    let j = choose|j: int| 0 <= j < keys.len() && keys[j] == k;
                    assert(self@.due(pairs[at[j]].0, now));
                }
                if self@.due(k, now) {
                    assert(pairs_map(pairs).contains_key(k));
                    let l = choose|l: int| 0 <= l < pairs.len() && (#[trigger] pairs[l]).0 == k;
                    assert(at.contains(l));
                    let j = choose|j: int| 0 <= j < at.len() && at[j] == l;
                    assert(keys[j] == k);
                }
            }
            assert forall|j: int, l: int| 0 <= j < l < keys.len() implies before(
                #[trigger] keys[j],
                #[trigger] keys[l],
            ) by {
                assert(at[j] < at[l]);
                assert(before(pairs[at[j]].0, pairs[at[l]].0));
            }
        }
        r
    }

    /// Publishes accumulated streams.
    fn flush(&mut self, keys: Vec<String>, ready: &mut Vec<ReadyMetric>)
        requires
            old(self)@.wf(),
            ({
                let keys = keys@.map_values(|k: String| k@);
                &&& keys.no_duplicates()
                &&& forall|k: Seq<char>| #[trigger]
                    keys.contains(k) ==> old(self)@.streams.contains_key(k) && old(self)@.last_seq(
                        k,
                    ) < u64::MAX
            }),
        ensures
            final(self)@.wf(),
            ({
                let keys = keys@.map_values(|k: String| k@);
                &&& final(self)@ == old(self)@.flushed(keys)
                &&& ready_views(final(ready)@) == ready_views(old(ready)@) + keys.map_values(
                    |k: Seq<char>| old(self)@.published(k),
                )
            }),
    {
        let ghost had = self@;
        let ghost first = ready_views(ready@);
        let ghost all = keys@.map_values(|k: String| k@);
        let ghost out = all.map_values(|k: Seq<char>| had.published(k));
        assert(all.take(0) =~= Seq::empty());
        assert(first + out.take(0) =~= first);
        for key in it: keys
            invariant
                all == it.seq().map_values(|k: String| k@),
                out == all.map_values(|k: Seq<char>| had.published(k)),
                all.no_duplicates(),
                forall|k: Seq<char>| #[trigger]
                    all.contains(k) ==> had.streams.contains_key(k) && had.last_seq(k) < u64::MAX,
                had.wf(),
                self@ == had.flushed(all.take(it.index() as int)),
                ready_views(ready@) == first + out.take(it.index() as int),
        {
            let ghost i = it.index() as int;
            let ghost k = all[i];
            let ghost agg = self@;
            let ghost done = all.take(i);
            proof {
                assert(k == key@);
                assert(all.contains(k));
                if done.contains(k) {
                    let j = choose|j: int| 0 <= j < done.len() && done[j] == k;
                    assert(all[j] == k);
                }
                lemma_flushed(had, done, k);
                assert(all.take(i + 1).drop_last() =~= done);
                assert(all.take(i + 1).last() == k);
                assert(out.take(i + 1) =~= out.take(i).push(out[i]));
                assert(self@.streams.dom() =~= self.states@.dom());
            }
            if let Some(st) = self.states.remove(key.as_str()) {
                assert(self@.streams =~= agg.streams.remove(k));
                let seq: u64 = self.next_seq(key.as_str());
                let ghost listed = ready_views(ready@);
                let ghost value = st@;
                ready.push(
                    ReadyMetric {
                        name: st.name,
                        agg_cbor: self.agg_cbor,
                        labels: st.labels,
                        sum: st.totals.sum,
                        count: Some(st.count),
                        min: Some(st.totals.min),
                        max: Some(st.totals.max),
                        seq,
                        uptime_ms: st.uptime_ms,
                    },
                );
                assert(ready_views(ready@) =~= listed.push(had.published(k)));
                assert(ready_views(ready@) =~= first + out.take(i + 1));
            }
        }
        proof {
            assert(all.take(all.len() as int) =~= all);
            assert(out.take(out.len() as int) =~= out);
            lemma_flushed(had, all, Seq::empty());
        }
    }

    /// Takes the samples of one collection, and publishes the streams whose window is
    /// over. What is ready to be published comes back: first what is passed on at once,
    /// in the order of the samples, then the streams, in ascending order of their keys.
    ///
    /// `double` gives the double that a value stands for, `plus` adds two doubles, and
    /// `less` compares them.
    pub fn ingest<
        D: Fn(MetricValue) -> u64,
        P: Fn(u64, u64) -> u64,
        L: Fn(u64, u64) -> bool,
    >(
        &mut self,
        samples: Vec<MetricSample>,
        uptime_ms: u64,
        now: u64,
        double: D,
        plus: P,
        less: L,
    ) -> (ready: Vec<ReadyMetric>)
        requires
            old(self)@.wf(),
            can_ingest(old(self)@, sample_views(samples@), uptime_ms, now),
            forall|value: MetricValue| call_requires(double, (value,)),
            forall|a: u64, b: u64| call_requires(plus, (a, b)),
            forall|a: u64, b: u64| call_requires(less, (a, b)),
        ensures
            final(self)@.wf(),
            ingested(
                old(self)@,
                sample_views(samples@),
                uptime_ms,
                now,
                adds_by(double, plus, less),
                final(self)@,
                ready_views(ready@),
            ),
    {
        let ghost adds = adds_by(double, plus, less);
        let ghost agg = self@;
        let ghost all = sample_views(samples@);
        let ghost mut totals: Seq<Totals> = Seq::empty();
        let mut ready: Vec<ReadyMetric> = Vec::new();
        assert(ready_views(ready@) =~= Seq::empty());
        for s in it: samples
            invariant
                all == sample_views(it.seq()),
                agg.wf(),
                self@.wf(),
                can_ingest(agg, all, uptime_ms, now),
                forall|value: MetricValue| call_requires(double, (value,)),
                forall|a: u64, b: u64| call_requires(plus, (a, b)),
                forall|a: u64, b: u64| call_requires(less, (a, b)),
                adds == adds_by(double, plus, less),
                totals.len() == it.index(),
                self@ == agg.taken_all(all.take(it.index() as int), totals, uptime_ms, now),
                added_up(agg, all.take(it.index() as int), totals, uptime_ms, now, adds),
                ready_views(ready@) == agg.passed_on_all(
                    all.take(it.index() as int),
                    totals,
                    uptime_ms,
                    now,
                ),
        {
            let ghost i = it.index() as int;
            let ghost before_it = self@;
            assert(all[i] == s@);
            let had: Option<Totals> = self.totals_for(&s);
            let sum = accumulate(had, s.value, &double, &plus, &less);
            proof {
                assert(before_it.can_take(all[i]));
                let ghost longer = totals.push(sum);
                lemma_one_more(agg, all, totals, sum, uptime_ms, now, adds);
                totals = longer;
            }
            let ghost listed = ready@;
            match self.take_sample(s, sum, uptime_ms, now) {
                Some(r) => {
                    ready.push(r);
                    assert(ready_views(ready@) =~= ready_views(listed).push(r@));
                },
                None => {},
            }
        }
        assert(all.take(all.len() as int) =~= all);
        let ghost mid = self@;
        if let Some(window) = self.window {
            let keys = self.due_keys(window, now);
            proof {
                let listed = keys@.map_values(|k: String| k@);
                assert forall|i: int, j: int|
                    0 <= i < listed.len() && 0 <= j < listed.len() && i != j implies listed[i]
                    != listed[j] by {
                    lemma_before_asymmetric(listed[i], listed[i]);
                    if i < j {
                        assert(before(listed[i], listed[j]));
                    } else {
                        assert(before(listed[j], listed[i]));
                    }
                }
                assert forall|k: Seq<char>| #[trigger] listed.contains(k) implies mid.last_seq(k)
                    < u64::MAX by {
                    assert(agg.taken_all(all, totals, uptime_ms, now).due(k, now));
                }
            }
            self.flush(keys, &mut ready);
            assert(self@ == agg.taken_all(all, totals, uptime_ms, now).flushed(
                keys@.map_values(|k: String| k@),
            ));
        } else {
            proof {
                let none: Seq<Seq<char>> = Seq::empty();
                assert(lists_due(mid, now, none));
                assert(self@ == agg.taken_all(all, totals, uptime_ms, now).flushed(none));
                assert(ready_views(ready@) =~= ready_views(ready@) + none.map_values(
                    |k: Seq<char>| mid.published(k),
                ));
            }
        }
        ready
    }

    /// The totals that a sample is to be added to.
    fn totals_for(&self, s: &MetricSample) -> (r: Option<Totals>)
        ensures
            r == self@.open_totals(s@),
    {
        if self.window.is_none() || s.counter {
            return None;
        }
        let key = stream_key(s.name.as_str(), &s.labels);
        match self.states.get(key.as_str()) {
            Some(st) => Some(st.totals),
            None => None,
        }
    }

    /// The sequence numbers as they are saved.
    pub fn save_seq(&self) -> (r: Result<Vec<u8>, EncodeError>)
        ensures
            exists|pairs: Seq<(Seq<char>, u64)>|
                {
                    &&& ascending(pairs)
                    &&& #[trigger] pairs_map(pairs) == self@.seq
                    &&& match r {
                        Ok(bytes) => map_bytes(number_entries(pairs)) == Some(bytes@),
                        Err(_) => map_bytes(number_entries(pairs)) is None,
                    }
                },
            r matches Ok(bytes) ==> loaded(Some(bytes@)) == self@.seq,
    {
        let n: usize = self.seq.len();
        let ghost pairs = self.seq.pairs();
        let mut entries: Vec<(CborItem, CborItem)> = Vec::new();
        for i in 0..n
            invariant
                n == pairs.len(),
                pairs == self.seq.pairs(),
                entries_view(entries@) == number_entries(pairs.take(i as int)),
        {
            let ghost had = entries_view(entries@);
            entries.push(
                (
                    CborItem::Text(self.seq.key_at(i).clone()),
                    CborItem::Uint(*self.seq.value_at(i)),
                ),
            );
            proof {
                let p = pairs[i as int];
                assert(entries_view(entries@) =~= had.push(
                    (CborView::Text(p.0), CborView::Uint(p.1)),
                ));
                assert(pairs.take(i + 1) =~= pairs.take(i as int).push(p));
                assert(number_entries(pairs.take(i + 1)) =~= number_entries(
                    pairs.take(i as int),
                ).push((CborView::Text(p.0), CborView::Uint(p.1))));
            }
        }
        proof {
            assert(pairs.take(pairs.len() as int) =~= pairs);
            lemma_numbers_read_back(pairs);
            assert(pairs_map(pairs) == self@.seq);
        }
        encode_map(&entries)
    }
}

/// What is flushed leaves the rest alone.
pub(crate) proof fn lemma_flushed(agg: AggregatorView, keys: Seq<Seq<char>>, k: Seq<char>)
    requires
        agg.wf(),
    ensures
        agg.flushed(keys).wf(),
        agg.flushed(keys).window == agg.window,
        agg.flushed(keys).agg_cbor == agg.agg_cbor,
        !keys.contains(k) ==> agg.flushed(keys).last_seq(k) == agg.last_seq(k),
        !keys.contains(k) && agg.streams.contains_key(k) ==> agg.flushed(keys).streams.contains_key(
            k,
        ) && agg.flushed(keys).streams[k] == agg.streams[k],
    decreases keys.len(),
{
    if keys.len() > 0 {
        let rest = keys.drop_last();
        lemma_flushed(agg, rest, k);
        assert(keys[keys.len() - 1] == keys.last());
        if rest.contains(k) {
            let i = choose|i: int| 0 <= i < rest.len() && rest[i] == k;
            assert(keys[i] == k);
        }
    }
}

/// Taking one more sample.
proof fn lemma_one_more(
    agg: AggregatorView,
    samples: Seq<SampleView>,
    totals: Seq<Totals>,
    sum: Totals,
    uptime_ms: u64,
    now: u64,
    adds: spec_fn(Option<Totals>, MetricValue, Totals) -> bool,
)
    requires
        totals.len() < samples.len(),
        added_up(agg, samples.take(totals.len() as int), totals, uptime_ms, now, adds),
        adds(
            agg.taken_all(samples.take(totals.len() as int), totals, uptime_ms, now).open_totals(
                samples[totals.len() as int],
            ),
            samples[totals.len() as int].value,
            sum,
        ),
    ensures
        ({
            let i = totals.len() as int;
            let mid = agg.taken_all(samples.take(i), totals, uptime_ms, now);
            let listed = agg.passed_on_all(samples.take(i), totals, uptime_ms, now);
            &&& added_up(agg, samples.take(i + 1), totals.push(sum), uptime_ms, now, adds)
            &&& agg.taken_all(samples.take(i + 1), totals.push(sum), uptime_ms, now) == mid.taken(
                samples[i],
                sum,
                uptime_ms,
                now,
            )
            &&& agg.passed_on_all(samples.take(i + 1), totals.push(sum), uptime_ms, now) == match
                mid.passed_on(samples[i], sum, uptime_ms) {
                Some(r) => listed.push(r),
                None => listed,
            }
        }),
{
    let i = totals.len() as int;
    let s = samples.take(i);
    let s1 = samples.take(i + 1);
    let t1 = totals.push(sum);
    assert(s1.drop_last() =~= s);
    assert(s1.last() == samples[i]);
    assert(t1.drop_last() =~= totals);
    assert forall|j: int| 0 <= j < s1.len() implies adds(
        agg.taken_all(s1.take(j), t1.take(j), uptime_ms, now).open_totals(s1[j]),
        s1[j].value,
        #[trigger] t1[j],
    ) by {
        assert(s1.take(j) =~= s.take(j));
        assert(t1.take(j) =~= totals.take(j));
        if j < i {
            assert(t1[j] == totals[j]);
            assert(s1[j] == s[j]);
        } else {
            assert(s.take(j) =~= s);
            assert(totals.take(j) =~= totals);
        }
    }
}

/// Saved numbers read back.
proof fn lemma_numbers_read_back(pairs: Seq<(Seq<char>, u64)>)
    ensures
        saved_numbers(entries_read_back(number_entries(pairs))) == pairs_map(pairs),
    decreases pairs.len(),
{
    let entries = entries_read_back(number_entries(pairs));
    if pairs.len() > 0 {
        lemma_numbers_read_back(pairs.drop_last());
        assert(entries.drop_last() =~= entries_read_back(number_entries(pairs.drop_last())));
        assert(entries.last() == (
            read_back(CborView::Text(pairs.last().0)),
            read_back(CborView::Uint(pairs.last().1)),
        ));
    }
}

// ---------------------------------------------------------------------------
// Laws
// ---------------------------------------------------------------------------

/// No number and no count is within `n` of its end.
pub open spec fn room(agg: AggregatorView, n: nat) -> bool {
    &&& n < u64::MAX
    &&& forall|k: Seq<char>| #[trigger] agg.seq.contains_key(k) ==> agg.seq[k] + n < u64::MAX
    &&& forall|k: Seq<char>| #[trigger]
        agg.streams.contains_key(k) ==> agg.streams[k].count + n <= u64::MAX
}

impl Aggregator {
    /// Is no number and no count within `n` of its end?
    pub fn has_room(&self, n: usize) -> (b: bool)
        ensures
            b == room(self@, n as nat),
    {
        if n as u64 >= u64::MAX {
            return false;
        }
        let left: u64 = u64::MAX - n as u64;
        let numbers: usize = self.seq.len();
        let streams: usize = self.states.len();
        proof {
            lemma_pairs_map(self.seq.pairs());
            lemma_pairs_map(self.states.pairs());
            assert(self@.streams.dom() =~= self.states@.dom());
        }
        for i in 0..numbers
            invariant
                numbers == self.seq.pairs().len(),
                left == u64::MAX - n,
                self@.seq == self.seq@,
                forall|j: int|
                    0 <= j < numbers ==> self.seq@.contains_key((#[trigger] self.seq.pairs()[j]).0)
                        && self.seq@[self.seq.pairs()[j].0] == self.seq.pairs()[j].1,
                forall|j: int| 0 <= j < i ==> (#[trigger] self.seq.pairs()[j]).1 < left,
        {
            if *self.seq.value_at(i) >= left {
                assert(self@.seq.contains_key(self.seq.pairs()[i as int].0));
                return false;
            }
        }
        for i in 0..streams
            invariant
                streams == self.states.pairs().len(),
                left == u64::MAX - n,
                self@.streams == self.states@.map_values(|st: StreamState| st@),
                forall|j: int|
                    0 <= j < streams ==> self.states@.contains_key(
                        (#[trigger] self.states.pairs()[j]).0,
                    ) && self.states@[self.states.pairs()[j].0] == self.states.pairs()[j].1,
                forall|j: int| 0 <= j < i ==> (#[trigger] self.states.pairs()[j]).1.count <= left,
        {
            if self.states.value_at(i).count > left {
                assert(self@.streams.contains_key(self.states.pairs()[i as int].0));
                return false;
            }
        }
        true
    }
}

/// Where no number and no count is within the number of samples of its end, they can be
/// taken.
pub proof fn law_room_is_enough(
    agg: AggregatorView,
    samples: Seq<SampleView>,
    uptime_ms: u64,
    now: u64,
)
    requires
        room(agg, samples.len()),
    ensures
        can_ingest(agg, samples, uptime_ms, now),
{
    assert forall|i: int, totals: Seq<Totals>|
        #![trigger agg.taken_all(samples.take(i), totals, uptime_ms, now)]
        0 <= i < samples.len() && totals.len() == i implies agg.taken_all(
        samples.take(i),
        totals,
        uptime_ms,
        now,
    ).can_take(samples[i]) by {
        lemma_room_left(agg, samples.take(i), totals, uptime_ms, now, samples.len());
    }
    assert forall|k: Seq<char>, totals: Seq<Totals>|
        #![trigger agg.taken_all(samples, totals, uptime_ms, now).due(k, now)]
        totals.len() == samples.len() && agg.taken_all(samples, totals, uptime_ms, now).due(
            k,
            now,
        ) implies agg.taken_all(samples, totals, uptime_ms, now).last_seq(k) < u64::MAX by {
        lemma_room_left(agg, samples, totals, uptime_ms, now, samples.len());
    }
}

/// Each sample takes one from the room.
proof fn lemma_room_left(
    agg: AggregatorView,
    samples: Seq<SampleView>,
    totals: Seq<Totals>,
    uptime_ms: u64,
    now: u64,
    n: nat,
)
    requires
        room(agg, n),
        samples.len() <= n,
        totals.len() == samples.len(),
    ensures
        room(agg.taken_all(samples, totals, uptime_ms, now), (n - samples.len()) as nat),
    decreases samples.len(),
{
    if samples.len() > 0 {
        lemma_room_left(agg, samples.drop_last(), totals.drop_last(), uptime_ms, now, n);
    }
}

/// How many readings of a stream are in a list.
pub open spec fn readings_of(ready: Seq<ReadyView>, key: Seq<char>) -> nat
    decreases ready.len(),
{
    if ready.len() == 0 {
        0
    } else {
        readings_of(ready.drop_last(), key) + if key_of(ready.last().name, ready.last().labels)
            == key {
            1nat
        } else {
            0nat
        }
    }
}

/// The readings of each stream carry on its numbers, one by one, without a gap.
pub open spec fn numbered_in_turn(
    agg: AggregatorView,
    after: AggregatorView,
    ready: Seq<ReadyView>,
) -> bool {
    &&& forall|i: int|
        0 <= i < ready.len() ==> (#[trigger] ready[i]).seq == agg.last_seq(
            key_of(ready[i].name, ready[i].labels),
        ) + readings_of(ready.take(i + 1), key_of(ready[i].name, ready[i].labels))
    &&& forall|k: Seq<char>|
        (#[trigger] after.last_seq(k)) == agg.last_seq(k) + readings_of(ready, k)
}

/// What is published of a stream is numbered in turn, and the numbering goes on where it
/// had stopped.
pub proof fn law_readings_are_numbered_in_turn(
    agg: AggregatorView,
    samples: Seq<SampleView>,
    uptime_ms: u64,
    now: u64,
    adds: spec_fn(Option<Totals>, MetricValue, Totals) -> bool,
    after: AggregatorView,
    ready: Seq<ReadyView>,
)
    requires
        agg.wf(),
        can_ingest(agg, samples, uptime_ms, now),
        ingested(agg, samples, uptime_ms, now, adds, after, ready),
    ensures
        numbered_in_turn(agg, after, ready),
{
    let (totals, keys) = choose|totals: Seq<Totals>, keys: Seq<Seq<char>>|
        #![trigger agg.taken_all(samples, totals, uptime_ms, now).flushed(keys)]
        {
            let mid = agg.taken_all(samples, totals, uptime_ms, now);
            &&& added_up(agg, samples, totals, uptime_ms, now, adds)
            &&& lists_due(mid, now, keys)
            &&& after == mid.flushed(keys)
            &&& ready == agg.passed_on_all(samples, totals, uptime_ms, now) + keys.map_values(
                |k: Seq<char>| mid.published(k),
            )
        };
    let mid = agg.taken_all(samples, totals, uptime_ms, now);
    let first = agg.passed_on_all(samples, totals, uptime_ms, now);
    assert(samples.take(samples.len() as int) =~= samples);
    assert(totals.take(totals.len() as int) =~= totals);
    lemma_taken_numbers(agg, samples, totals, uptime_ms, now, samples.len());
    assert forall|i: int, j: int|
        0 <= i < keys.len() && 0 <= j < keys.len() && i != j implies keys[i] != keys[j] by {
        lemma_before_asymmetric(keys[i], keys[i]);
        if i < j {
            assert(before(keys[i], keys[j]));
        } else {
            assert(before(keys[j], keys[i]));
        }
    }
    assert forall|k: Seq<char>| #[trigger] keys.contains(k) implies mid.streams.contains_key(k)
        && mid.last_seq(k) < u64::MAX by {
        assert(mid.due(k, now));
    }
    lemma_flushed_numbers(agg, mid, first, keys);
}

/// A reading with the next number of its stream keeps the numbering.
proof fn lemma_next_number(
    agg: AggregatorView,
    mid: AggregatorView,
    ready: Seq<ReadyView>,
    after: AggregatorView,
    r: ReadyView,
)
    requires
        numbered_in_turn(agg, mid, ready),
        mid.last_seq(key_of(r.name, r.labels)) < u64::MAX,
        r.seq == mid.last_seq(key_of(r.name, r.labels)) + 1,
        after.seq == mid.numbered(key_of(r.name, r.labels)).seq,
    ensures
        numbered_in_turn(agg, after, ready.push(r)),
{
    let key = key_of(r.name, r.labels);
    let longer = ready.push(r);
    assert(longer.drop_last() =~= ready);
    assert forall|i: int| 0 <= i < longer.len() implies (#[trigger] longer[i]).seq == agg.last_seq(
        key_of(longer[i].name, longer[i].labels),
    ) + readings_of(longer.take(i + 1), key_of(longer[i].name, longer[i].labels)) by {
        if i < ready.len() {
            assert(longer[i] == ready[i]);
            assert(longer.take(i + 1) =~= ready.take(i + 1));
        } else {
            assert(longer.take(i + 1) =~= longer);
            assert(mid.last_seq(key) == agg.last_seq(key) + readings_of(ready, key));
        }
    }
    assert forall|k: Seq<char>|
        (#[trigger] after.last_seq(k)) == agg.last_seq(k) + readings_of(longer, k) by {
        assert(mid.last_seq(k) == agg.last_seq(k) + readings_of(ready, k));
    }
}

/// Numbers are given in turn while samples are taken.
proof fn lemma_taken_numbers(
    agg: AggregatorView,
    samples: Seq<SampleView>,
    totals: Seq<Totals>,
    uptime_ms: u64,
    now: u64,
    n: nat,
)
    requires
        agg.wf(),
        n <= samples.len(),
        totals.len() == samples.len(),
        can_ingest(agg, samples, uptime_ms, now),
    ensures
        agg.taken_all(samples.take(n as int), totals.take(n as int), uptime_ms, now).wf(),
        numbered_in_turn(
            agg,
            agg.taken_all(samples.take(n as int), totals.take(n as int), uptime_ms, now),
            agg.passed_on_all(samples.take(n as int), totals.take(n as int), uptime_ms, now),
        ),
    decreases n,
{
    if n > 0 {
        let m = (n - 1) as nat;
        let i = m as int;
        lemma_taken_numbers(agg, samples, totals, uptime_ms, now, m);
        assert(samples.take(n as int).drop_last() =~= samples.take(i));
        assert(totals.take(n as int).drop_last() =~= totals.take(i));
        let mid = agg.taken_all(samples.take(i), totals.take(i), uptime_ms, now);
        let listed = agg.passed_on_all(samples.take(i), totals.take(i), uptime_ms, now);
        let s = samples[i];
        assert(mid.can_take(s));
        let after = mid.taken(s, totals[i], uptime_ms, now);
        match mid.passed_on(s, totals[i], uptime_ms) {
            Some(r) => {
                lemma_next_number(agg, mid, listed, after, r);
            },
            None => {
                assert forall|k: Seq<char>|
                    (#[trigger] after.last_seq(k)) == agg.last_seq(k) + readings_of(listed, k) by {
                    assert(mid.last_seq(k) == agg.last_seq(k) + readings_of(listed, k));
                }
            },
        }
    }
}

/// Numbers are given in turn while streams are published.
proof fn lemma_flushed_numbers(
    agg: AggregatorView,
    mid: AggregatorView,
    ready: Seq<ReadyView>,
    keys: Seq<Seq<char>>,
)
    requires
        mid.wf(),
        numbered_in_turn(agg, mid, ready),
        keys.no_duplicates(),
        forall|k: Seq<char>| #[trigger]
            keys.contains(k) ==> mid.streams.contains_key(k) && mid.last_seq(k) < u64::MAX,
    ensures
        numbered_in_turn(
            agg,
            mid.flushed(keys),
            ready + keys.map_values(|k: Seq<char>| mid.published(k)),
        ),
    decreases keys.len(),
{
    let out = keys.map_values(|k: Seq<char>| mid.published(k));
    if keys.len() == 0 {
        assert(ready + out =~= ready);
    } else {
        let rest = keys.drop_last();
        let last = keys.last();
        assert forall|k: Seq<char>| #[trigger] rest.contains(k) implies keys.contains(k) by {
            let i = choose|i: int| 0 <= i < rest.len() && rest[i] == k;
            assert(keys[i] == k);
        }
        lemma_flushed_numbers(agg, mid, ready, rest);
        assert(keys.contains(last)) by {
            assert(keys[keys.len() - 1] == last);
        }
        lemma_flushed(mid, rest, last);
        let out_rest = rest.map_values(|k: Seq<char>| mid.published(k));
        assert(ready + out =~= (ready + out_rest).push(mid.published(last)));
        lemma_next_number(
            agg,
            mid.flushed(rest),
            ready + out_rest,
            mid.flushed(keys),
            mid.published(last),
        );
    }
}

/// How many samples of a stream are in a list, running totals left out.
pub open spec fn samples_of(samples: Seq<SampleView>, key: Seq<char>) -> nat
    decreases samples.len(),
{
    if samples.len() == 0 {
        0
    } else {
        samples_of(samples.drop_last(), key) + if !samples.last().counter && key_of(
            samples.last().name,
            samples.last().labels,
        ) == key {
            1nat
        } else {
            0nat
        }
    }
}

/// Every sample of a stream that is being accumulated is counted, once. The window of
/// the stream goes on from where it started.
pub proof fn law_every_sample_counts(
    agg: AggregatorView,
    samples: Seq<SampleView>,
    totals: Seq<Totals>,
    uptime_ms: u64,
    now: u64,
    key: Seq<char>,
)
    requires
        agg.window is Some,
        agg.streams.contains_key(key),
        agg.streams[key].count + samples_of(samples, key) <= u64::MAX,
        totals.len() == samples.len(),
    ensures
        ({
            let after = agg.taken_all(samples, totals, uptime_ms, now);
            &&& after.window == agg.window
            &&& after.streams.contains_key(key)
            &&& after.streams[key].count == agg.streams[key].count + samples_of(samples, key)
            &&& after.streams[key].window_start == agg.streams[key].window_start
        }),
    decreases samples.len(),
{
    if samples.len() > 0 {
        law_every_sample_counts(
            agg,
            samples.drop_last(),
            totals.drop_last(),
            uptime_ms,
            now,
            key,
        );
    }
}

} // verus!
