//! Labels of metrics, and the key that name and labels make.

use vstd::prelude::*;
use vstd::relations::{sorted_by, total_ordering};
use crate::order::{before, is_before};
use crate::order::{lemma_before_asymmetric, lemma_before_total, lemma_before_transitive};

verus! {

/// What a list of labels says.
pub open spec fn label_texts(labels: Seq<(String, String)>) -> Seq<(Seq<char>, Seq<char>)> {
    labels.map_values(|l: (String, String)| (l.0@, l.1@))
}

/// `label` put into a list behind all labels whose key does not stand behind its own.
pub open spec fn place(sorted: Seq<(Seq<char>, Seq<char>)>, label: (Seq<char>, Seq<char>)) -> Seq<
    (Seq<char>, Seq<char>),
>
    decreases sorted.len(),
{
    if sorted.len() == 0 || !before(label.0, sorted.last().0) {
        sorted.push(label)
    } else {
        place(sorted.drop_last(), label).push(sorted.last())
    }
}

/// The labels in ascending order of their keys; labels with one key stay in order.
pub open spec fn by_key(labels: Seq<(Seq<char>, Seq<char>)>) -> Seq<(Seq<char>, Seq<char>)>
    decreases labels.len(),
{
    if labels.len() == 0 {
        labels
    } else {
        place(by_key(labels.drop_last()), labels.last())
    }
}

/// `|key=value` for each label.
pub open spec fn label_list(labels: Seq<(Seq<char>, Seq<char>)>) -> Seq<char>
    decreases labels.len(),
{
    if labels.len() == 0 {
        Seq::empty()
    } else {
        label_list(labels.drop_last()) + seq!['|'] + labels.last().0 + seq!['='] + labels.last().1
    }
}

/// The key of a metric stream: its name, and its labels in order.
pub open spec fn key_of(name: Seq<char>, labels: Seq<(Seq<char>, Seq<char>)>) -> Seq<char> {
    name + label_list(by_key(labels))
}

/// What a list of references to labels says.
spec fn ref_texts(labels: Seq<&(String, String)>) -> Seq<(Seq<char>, Seq<char>)> {
    labels.map_values(|l: &(String, String)| (l.0@, l.1@))
}

/// Putting a label at the place that a search from the back finds.
proof fn lemma_place(
    sorted: Seq<(Seq<char>, Seq<char>)>,
    label: (Seq<char>, Seq<char>),
    at: int,
)
    requires
        0 <= at <= sorted.len(),
        at > 0 ==> !before(label.0, sorted[at - 1].0),
        forall|j: int| at <= j < sorted.len() ==> before(label.0, (#[trigger] sorted[j]).0),
    ensures
        place(sorted, label) == sorted.insert(at, label),
    decreases sorted.len(),
{
    if sorted.len() == at {
        assert(sorted.insert(at, label) =~= sorted.push(label));
    } else {
        let rest = sorted.drop_last();
        assert(before(label.0, sorted[sorted.len() - 1].0));
        assert forall|j: int| at <= j < rest.len() implies before(
            label.0,
            (#[trigger] rest[j]).0,
        ) by {
            assert(rest[j] == sorted[j]);
        }
        if at > 0 {
            assert(rest[at - 1] == sorted[at - 1]);
        }
        lemma_place(rest, label, at);
        assert(sorted.insert(at, label) =~= rest.insert(at, label).push(sorted.last()));
    }
}

/// References to the labels in ascending order of their keys.
fn sorted_refs<'a>(labels: &'a Vec<(String, String)>) -> (r: Vec<&'a (String, String)>)
    ensures
        ref_texts(r@) == by_key(label_texts(labels@)),
{
    let mut r: Vec<&'a (String, String)> = Vec::new();
    let ghost all = label_texts(labels@);
    assert(ref_texts(r@) =~= by_key(all.take(0)));
    for i in 0..labels.len()
        invariant
            all == label_texts(labels@),
            ref_texts(r@) == by_key(all.take(i as int)),
    {
        let ghost had = ref_texts(r@);
        let ghost label = all[i as int];
        proof {
            assert(all.take(i + 1).drop_last() =~= all.take(i as int));
            assert(all.take(i + 1).last() == label);
        }
        let mut at: usize = r.len();
        while at > 0 && is_before(labels[i].0.as_str(), r[at - 1].0.as_str())
            invariant
                at <= r@.len(),
                i < labels@.len(),
                had == ref_texts(r@),
                label == (labels@[i as int].0@, labels@[i as int].1@),
                forall|j: int| at <= j < r@.len() ==> before(label.0, (#[trigger] had[j]).0),
            decreases at,
        {
            assert(had[at - 1].0 == r@[at - 1].0@);
            at -= 1;
        }
        proof {
            if at > 0 {
                assert(had[at - 1].0 == r@[at - 1].0@);
            }
            lemma_place(had, label, at as int);
        }
        r.insert(at, &labels[i]);
        assert(ref_texts(r@) =~= had.insert(at as int, label));
    }
    assert(all.take(all.len() as int) =~= all);
    r
}

/// The labels in ascending order of their keys.
pub fn sort_labels(labels: &Vec<(String, String)>) -> (r: Vec<(String, String)>)
    ensures
        label_texts(r@) == by_key(label_texts(labels@)),
{
    let sorted = sorted_refs(labels);
    let mut r: Vec<(String, String)> = Vec::new();
    for i in 0..sorted.len()
        invariant
            label_texts(r@) == ref_texts(sorted@).take(i as int),
    {
        let ghost had = label_texts(r@);
        r.push((sorted[i].0.clone(), sorted[i].1.clone()));
        assert(label_texts(r@) =~= had.push(ref_texts(sorted@)[i as int]));
        assert(ref_texts(sorted@).take(i + 1) =~= ref_texts(sorted@).take(i as int).push(
            ref_texts(sorted@)[i as int],
        ));
    }
    assert(ref_texts(sorted@).take(sorted@.len() as int) =~= ref_texts(sorted@));
    r
}

/// The key of a metric stream. The order in which labels are given does not matter.
pub fn stream_key(name: &str, labels: &Vec<(String, String)>) -> (key: String)
    ensures
        key@ == key_of(name@, label_texts(labels@)),
{
    let sorted = sorted_refs(labels);
    let mut key = name.to_string();
    let ghost all = ref_texts(sorted@);
    assert(name@ + label_list(all.take(0)) =~= name@);
    for i in 0..sorted.len()
        invariant
            all == ref_texts(sorted@),
            key@ == name@ + label_list(all.take(i as int)),
    {
        proof {
            assert(all.take(i + 1).drop_last() =~= all.take(i as int));
            assert(all.take(i + 1).last() == (sorted@[i as int].0@, sorted@[i as int].1@));
        }
        key.push('|');
        key.append(sorted[i].0.as_str());
        key.push('=');
        key.append(sorted[i].1.as_str());
        assert(key@ =~= name@ + label_list(all.take(i + 1)));
    }
    assert(all.take(all.len() as int) =~= all);
    key
}

// ---------------------------------------------------------------------------
// Laws
// ---------------------------------------------------------------------------

/// No key stands behind a later one.
pub open spec fn keys_ascend(labels: Seq<(Seq<char>, Seq<char>)>) -> bool {
    forall|i: int, j: int|
        0 <= i < j < labels.len() ==> !before((#[trigger] labels[j]).0, (#[trigger] labels[i]).0)
}

/// No key occurs twice.
pub open spec fn keys_distinct(labels: Seq<(Seq<char>, Seq<char>)>) -> bool {
    forall|i: int, j: int|
        0 <= i < j < labels.len() ==> (#[trigger] labels[i]).0 != (#[trigger] labels[j]).0
}

proof fn lemma_place_sorts(
    sorted: Seq<(Seq<char>, Seq<char>)>,
    label: (Seq<char>, Seq<char>),
)
    requires
        keys_ascend(sorted),
    ensures
        keys_ascend(place(sorted, label)),
        place(sorted, label).to_multiset() == sorted.to_multiset().insert(label),
        place(sorted, label).len() == sorted.len() + 1,
        forall|j: int|
            0 <= j < place(sorted, label).len() ==> (#[trigger] place(sorted, label)[j]) == label
                || sorted.contains(place(sorted, label)[j]),
    decreases sorted.len(),
{
    broadcast use vstd::seq_lib::group_to_multiset_ensures;

    let p = place(sorted, label);
    if sorted.len() == 0 || !before(label.0, sorted.last().0) {
        assert forall|i: int, j: int| 0 <= i < j < p.len() implies !before(
            (#[trigger] p[j]).0,
            (#[trigger] p[i]).0,
        ) by {
            assert(p[i] == sorted[i]);
            if j == sorted.len() {
                let l = sorted.last().0;
                if i < sorted.len() - 1 && before(label.0, sorted[i].0) {
                    assert(!before(sorted[sorted.len() - 1].0, sorted[i].0));
                    lemma_before_total(sorted[i].0, l);
                    if before(sorted[i].0, l) {
                        lemma_before_transitive(label.0, sorted[i].0, l);
                    }
                }
            } else {
                assert(p[j] == sorted[j]);
            }
        }
        assert forall|j: int| 0 <= j < p.len() implies (#[trigger] p[j]) == label
            || sorted.contains(p[j]) by {
            if j < sorted.len() {
                assert(p[j] == sorted[j]);
            }
        }
    } else {
        let rest = sorted.drop_last();
        let last = sorted.last();
        assert(keys_ascend(rest)) by {
            assert forall|i: int, j: int| 0 <= i < j < rest.len() implies !before(
                (#[trigger] rest[j]).0,
                (#[trigger] rest[i]).0,
            ) by {
                assert(rest[i] == sorted[i] && rest[j] == sorted[j]);
            }
        }
        lemma_place_sorts(rest, label);
        let q = place(rest, label);
        assert forall|i: int, j: int| 0 <= i < j < p.len() implies !before(
            (#[trigger] p[j]).0,
            (#[trigger] p[i]).0,
        ) by {
            assert(p[i] == q[i]);
            if j < q.len() {
                assert(p[j] == q[j]);
            } else {
                assert(p[j] == last);
                if q[i] == label {
                    lemma_before_asymmetric(label.0, last.0);
                } else {
                    let k = choose|k: int| 0 <= k < rest.len() && rest[k] == q[i];
                    assert(sorted[k] == rest[k]);
                    assert(sorted[sorted.len() - 1] == last);
                }
            }
        }
        assert(sorted =~= rest.push(last));
        assert(p.to_multiset() =~= sorted.to_multiset().insert(label));
        assert forall|j: int| 0 <= j < p.len() implies (#[trigger] p[j]) == label
            || sorted.contains(p[j]) by {
            if j < q.len() {
                assert(p[j] == q[j]);
                if q[j] != label {
                    let k = choose|k: int| 0 <= k < rest.len() && rest[k] == q[j];
                    assert(sorted[k] == q[j]);
                }
            } else {
                assert(sorted[sorted.len() - 1] == last);
            }
        }
    }
}

/// Sorting orders the keys and keeps every label.
pub proof fn law_by_key_sorts(labels: Seq<(Seq<char>, Seq<char>)>)
    ensures
        keys_ascend(by_key(labels)),
        by_key(labels).to_multiset() == labels.to_multiset(),
    decreases labels.len(),
{
    broadcast use vstd::seq_lib::group_to_multiset_ensures;

    if labels.len() > 0 {
        law_by_key_sorts(labels.drop_last());
        lemma_place_sorts(by_key(labels.drop_last()), labels.last());
        assert(labels =~= labels.drop_last().push(labels.last()));
    }
}

/// Order of labels: by key, then by value.
spec fn label_order() -> spec_fn((Seq<char>, Seq<char>), (Seq<char>, Seq<char>)) -> bool {
    |a: (Seq<char>, Seq<char>), b: (Seq<char>, Seq<char>)|
        before(a.0, b.0) || (a.0 == b.0 && !before(b.1, a.1))
}

proof fn lemma_label_order()
    ensures
        total_ordering(label_order()),
{
    let leq = label_order();
    assert forall|a: (Seq<char>, Seq<char>)| #[trigger] leq(a, a) by {
        lemma_before_asymmetric(a.1, a.1);
    }
    assert forall|a: (Seq<char>, Seq<char>), b: (Seq<char>, Seq<char>)| #[trigger]
        leq(a, b) && #[trigger] leq(b, a) implies a == b by {
        lemma_before_asymmetric(a.0, b.0);
        lemma_before_asymmetric(b.0, b.0);
        lemma_before_total(a.1, b.1);
    }
    assert forall|
        a: (Seq<char>, Seq<char>),
        b: (Seq<char>, Seq<char>),
        c: (Seq<char>, Seq<char>),
    | #[trigger] leq(a, b) && #[trigger] leq(b, c) implies leq(a, c) by {
        if before(a.0, b.0) && before(b.0, c.0) {
            lemma_before_transitive(a.0, b.0, c.0);
        }
        if a.0 == b.0 && b.0 == c.0 && before(c.1, a.1) {
            lemma_before_total(a.1, b.1);
            lemma_before_total(b.1, c.1);
            if before(a.1, b.1) {
                lemma_before_transitive(c.1, a.1, b.1);
            } else {
                lemma_before_asymmetric(c.1, a.1);
            }
        }
    }
    assert forall|a: (Seq<char>, Seq<char>), b: (Seq<char>, Seq<char>)| #[trigger]
        leq(a, b) || #[trigger] leq(b, a) by {
        lemma_before_total(a.0, b.0);
        lemma_before_asymmetric(a.1, b.1);
    }
}

/// One name and one set of labels make one key, whatever the order of the labels, as
/// long as no label key is given twice.
pub proof fn law_label_order_does_not_matter(
    name: Seq<char>,
    a: Seq<(Seq<char>, Seq<char>)>,
    b: Seq<(Seq<char>, Seq<char>)>,
)
    requires
        a.to_multiset() == b.to_multiset(),
        keys_distinct(a),
    ensures
        key_of(name, a) == key_of(name, b),
{
    law_by_key_sorts(a);
    law_by_key_sorts(b);
    lemma_label_order();
    lemma_sorted_labels(a, by_key(a));
    lemma_sorted_labels(a, by_key(b));
    vstd::seq_lib::lemma_sorted_unique(by_key(a), by_key(b), label_order());
}

/// Labels with distinct keys that ascend stand in the order of labels.
proof fn lemma_sorted_labels(a: Seq<(Seq<char>, Seq<char>)>, s: Seq<(Seq<char>, Seq<char>)>)
    requires
        keys_distinct(a),
        keys_ascend(s),
        s.to_multiset() == a.to_multiset(),
    ensures
        sorted_by(s, label_order()),
{
    broadcast use vstd::seq_lib::group_to_multiset_ensures;

    let leq = label_order();
    assert forall|i: int, j: int| 0 <= i < j < s.len() implies #[trigger] leq(s[i], s[j]) by {
        assert(!before(s[j].0, s[i].0));
        lemma_before_total(s[i].0, s[j].0);
        if s[i].0 == s[j].0 {
            assert(s.to_multiset().count(s[i]) > 0);
            assert(s.to_multiset().count(s[j]) > 0);
            assert(a.contains(s[i]) && a.contains(s[j]));
            let k = choose|k: int| 0 <= k < a.len() && a[k] == s[i];
            let l = choose|l: int| 0 <= l < a.len() && a[l] == s[j];
            if k < l {
                assert(a[k].0 != a[l].0);
            } else if l < k {
                assert(a[l].0 != a[k].0);
            } else {
                lemma_before_asymmetric(s[i].1, s[i].1);
            }
        }
    }
}

/// Labels whose keys ascend stay as they are.
pub proof fn lemma_sorted_stays(labels: Seq<(Seq<char>, Seq<char>)>)
    requires
        keys_ascend(labels),
    ensures
        by_key(labels) == labels,
    decreases labels.len(),
{
    if labels.len() > 0 {
        let rest = labels.drop_last();
        assert(keys_ascend(rest)) by {
            assert forall|i: int, j: int| 0 <= i < j < rest.len() implies !before(
                (#[trigger] rest[j]).0,
                (#[trigger] rest[i]).0,
            ) by {
                assert(rest[i] == labels[i] && rest[j] == labels[j]);
            }
        }
        lemma_sorted_stays(rest);
        if rest.len() > 0 {
            assert(!before(labels[labels.len() - 1].0, labels[labels.len() - 2].0));
        }
        assert(rest.push(labels.last()) =~= labels);
    }
}

/// The labels with a given key, in their order.
pub open spec fn with_key(labels: Seq<(Seq<char>, Seq<char>)>, key: Seq<char>) -> Seq<
    (Seq<char>, Seq<char>),
>
    decreases labels.len(),
{
    if labels.len() == 0 {
        labels
    } else if labels.last().0 == key {
        with_key(labels.drop_last(), key).push(labels.last())
    } else {
        with_key(labels.drop_last(), key)
    }
}

/// Labels with one key stay in the order in which they were given.
pub proof fn law_by_key_is_stable(labels: Seq<(Seq<char>, Seq<char>)>, key: Seq<char>)
    ensures
        with_key(by_key(labels), key) == with_key(labels, key),
    decreases labels.len(),
{
    if labels.len() > 0 {
        law_by_key_is_stable(labels.drop_last(), key);
        lemma_place_is_stable(by_key(labels.drop_last()), labels.last(), key);
    }
}

proof fn lemma_place_is_stable(
    sorted: Seq<(Seq<char>, Seq<char>)>,
    label: (Seq<char>, Seq<char>),
    key: Seq<char>,
)
    ensures
        with_key(place(sorted, label), key) == if label.0 == key {
            with_key(sorted, key).push(label)
        } else {
            with_key(sorted, key)
        },
    decreases sorted.len(),
{
    if sorted.len() == 0 || !before(label.0, sorted.last().0) {
        assert(sorted.push(label).drop_last() =~= sorted);
    } else {
        lemma_place_is_stable(sorted.drop_last(), label, key);
        lemma_before_asymmetric(label.0, label.0);
        let p = place(sorted.drop_last(), label);
        assert(p.push(sorted.last()).drop_last() =~= p);
    }
}

/// The key of a stream without labels is its name. A label whose key stands behind none of
/// the others is appended, behind a bar and with an equals sign before its value.
pub proof fn law_key_lists_the_labels(
    name: Seq<char>,
    labels: Seq<(Seq<char>, Seq<char>)>,
    key: Seq<char>,
    value: Seq<char>,
)
    requires
        forall|i: int| 0 <= i < labels.len() ==> !before(key, (#[trigger] labels[i]).0),
    ensures
        key_of(name, Seq::empty()) == name,
        key_of(name, labels.push((key, value))) == key_of(name, labels) + seq!['|'] + key + seq![
            '=',
        ] + value,
{
    broadcast use vstd::seq_lib::group_to_multiset_ensures;

    assert(name + label_list(by_key(Seq::empty())) =~= name);
    let more = labels.push((key, value));
    let sorted = by_key(labels);
    assert(more.drop_last() =~= labels);
    law_by_key_sorts(labels);
    if sorted.len() > 0 {
        assert(sorted.to_multiset().count(sorted.last()) > 0);
        assert(labels.contains(sorted.last()));
        let i = choose|i: int| 0 <= i < labels.len() && labels[i] == sorted.last();
        assert(!before(key, labels[i].0));
    }
    assert(by_key(more) == sorted.push((key, value)));
    assert(by_key(more).drop_last() =~= sorted);
    assert(key_of(name, more) =~= key_of(name, labels) + seq!['|'] + key + seq!['='] + value);
}

} // verus!
