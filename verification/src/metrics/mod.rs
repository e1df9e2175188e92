//! Metrics: what is collected, aggregated and published.
//!
//! Values stay exact here. Turning them into floating-point numbers, and adding and
//! comparing two of those, is left to the program around this library, which hands such
//! numbers in as the 64 bits of a double.

pub mod aggregator;
pub mod aggregator_laws;
pub mod collector;
pub mod collector_laws;
pub mod labels;
pub mod proc_files;
pub mod proc_laws;
pub mod publisher;
pub mod socket;
pub mod totals;
pub mod windows;

use vstd::prelude::*;
use crate::metrics::labels::label_texts;

verus! {

/// Aggregation interval codes (key 22 of a metric message).
pub const AGG_NONE: u8 = 0;

pub const AGG_1MIN: u8 = 1;

pub const AGG_1HOUR: u8 = 3;

pub const AGG_1DAY: u8 = 4;

/// A value of a metric.
#[derive(Debug, Clone, Copy, PartialEq, Eq, Structural)]
pub enum MetricValue {
    Int(i64),
    /// A double, by its bits.
    Float(u64),
    /// `part` of `whole`, in percent.
    Percent { part: u64, whole: u64 },
    /// A number of thousandths.
    Thousandths(i64),
}

/// A single sample of a metric.
#[derive(Debug)]
pub struct MetricSample {
    pub name: String,
    pub value: MetricValue,
    pub labels: Vec<(String, String)>,
    /// The value is a running total, which must not be added up.
    pub counter: bool,
}

/// What a sample says.
#[verifier::ext_equal]
pub struct SampleView {
    pub name: Seq<char>,
    pub value: MetricValue,
    pub labels: Seq<(Seq<char>, Seq<char>)>,
    pub counter: bool,
}

impl View for MetricSample {
    type V = SampleView;

    open spec fn view(&self) -> SampleView {
        SampleView {
            name: self.name@,
            value: self.value,
            labels: label_texts(self.labels@),
            counter: self.counter,
        }
    }
}

/// Sum, least and greatest of some values, as the bits of doubles.
#[derive(Debug, Clone, Copy, PartialEq, Eq, Structural)]
pub struct Totals {
    pub sum: u64,
    pub min: u64,
    pub max: u64,
}

/// A metric that is ready to be published, raw or aggregated.
#[derive(Debug)]
pub struct ReadyMetric {
    pub name: String,
    pub agg_cbor: u8,
    pub labels: Vec<(String, String)>,
    /// The raw value, or the sum, as the bits of a double.
    pub sum: u64,
    /// How many values were added up. Absent for a raw value, as are the next two.
    pub count: Option<u64>,
    pub min: Option<u64>,
    pub max: Option<u64>,
    pub seq: u64,
    pub uptime_ms: u64,
}

/// What such a metric says.
#[verifier::ext_equal]
pub struct ReadyView {
    pub name: Seq<char>,
    pub agg_cbor: u8,
    pub labels: Seq<(Seq<char>, Seq<char>)>,
    pub sum: u64,
    pub count: Option<u64>,
    pub min: Option<u64>,
    pub max: Option<u64>,
    pub seq: u64,
    pub uptime_ms: u64,
}

impl View for ReadyMetric {
    type V = ReadyView;

    open spec fn view(&self) -> ReadyView {
        ReadyView {
            name: self.name@,
            agg_cbor: self.agg_cbor,
            labels: label_texts(self.labels@),
            sum: self.sum,
            count: self.count,
            min: self.min,
            max: self.max,
            seq: self.seq,
            uptime_ms: self.uptime_ms,
        }
    }
}

/// What to do with the metrics that are ready after a tick.
#[derive(Debug, Clone, Copy, PartialEq, Eq, Structural)]
pub enum TickDecision {
    Nothing,
    /// There is no connection, and readings are not kept.
    Discard,
    Publish,
}

/// The decision on `ready` metrics.
pub open spec fn decided(ready: usize, connected: bool) -> TickDecision {
    if ready == 0 {
        TickDecision::Nothing
    } else if connected {
        TickDecision::Publish
    } else {
        TickDecision::Discard
    }
}

/// Decides on `ready` metrics.
pub fn after_tick(ready: usize, connected: bool) -> (d: TickDecision)
    ensures
        d == decided(ready, connected),
{
    if ready == 0 {
        TickDecision::Nothing
    } else if connected {
        TickDecision::Publish
    } else {
        TickDecision::Discard
    }
}

/// Metrics are published exactly where there are any and there is a connection, and thrown
/// away exactly where there are any and there is none.
pub proof fn law_metrics_go_out_while_connected(ready: usize, connected: bool)
    ensures
        decided(ready, connected) == TickDecision::Publish <==> ready > 0 && connected,
        decided(ready, connected) == TickDecision::Discard <==> ready > 0 && !connected,
        decided(ready, connected) == TickDecision::Nothing <==> ready == 0,
{
}

} // verus!
