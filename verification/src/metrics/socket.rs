//! Metrics that other programs send, one JSON message a line.

use vstd::prelude::*;
use crate::metrics::labels::{by_key, key_of, keys_ascend, label_texts, law_by_key_sorts};
use crate::metrics::labels::{lemma_sorted_stays, sort_labels};
use crate::metrics::{MetricSample, MetricValue, SampleView};
use crate::order::before;
use crate::text::{from_chars, to_chars, trimmed, trimmed_text};

verus! {

/// The message on a line, without the whitespace around it. An empty line has none.
pub fn message_on(line: &str) -> (r: Option<String>)
    ensures
        match r {
            Some(m) => trimmed_text(line@) == Some(m@),
            None => trimmed_text(line@) is None,
        },
{
    let chars = to_chars(line);
    let t = trimmed(chars.as_slice());
    if t.len() == 0 {
        None
    } else {
        Some(from_chars(t))
    }
}

/// What is sampled by a message: `value` holds the bits of a double, and the labels come
/// in ascending order of their keys.
pub open spec fn sampled(
    name: Seq<char>,
    value: u64,
    labels: Seq<(Seq<char>, Seq<char>)>,
) -> SampleView {
    SampleView { name, value: MetricValue::Float(value), labels: by_key(labels), counter: false }
}

/// The sample for a message.
pub fn incoming_sample(name: String, value: u64, labels: &Vec<(String, String)>) -> (s:
    MetricSample)
    ensures
        s@ == sampled(name@, value, label_texts(labels@)),
{
    MetricSample {
        name,
        value: MetricValue::Float(value),
        labels: sort_labels(labels),
        counter: false,
    }
}

/// Putting the labels in order leaves a sample in the stream it belongs to.
pub proof fn law_sample_stays_in_its_stream(
    name: Seq<char>,
    value: u64,
    labels: Seq<(Seq<char>, Seq<char>)>,
)
    ensures
        key_of(sampled(name, value, labels).name, sampled(name, value, labels).labels) == key_of(
            name,
            labels,
        ),
        keys_ascend(sampled(name, value, labels).labels),
{
    law_by_key_sorts(labels);
    lemma_sorted_stays(by_key(labels));
}

/// A message becomes a sample of the same name with the same value, which is no running
/// total, and with the same labels, each as often as it was given, in ascending order of
/// their keys.
pub proof fn law_message_becomes_a_sample(
    name: Seq<char>,
    value: u64,
    labels: Seq<(Seq<char>, Seq<char>)>,
)
    ensures
        ({
            let s = sampled(name, value, labels);
            &&& s.name == name
            &&& s.value == MetricValue::Float(value)
            &&& !s.counter
            &&& s.labels.to_multiset() == labels.to_multiset()
            &&& forall|i: int, j: int|
                0 <= i < j < s.labels.len() ==> !before(
                    (#[trigger] s.labels[j]).0,
                    (#[trigger] s.labels[i]).0,
                )
        }),
{
    law_by_key_sorts(labels);
}

} // verus!
