//! Sum, least and greatest value of a stream.
//!
//! Values are the bits of doubles. How two of them are added and compared, the caller
//! says; what is kept of them is decided here.

use vstd::prelude::*;
use crate::metrics::{MetricValue, Totals};

verus! {

/// `adds_by(double, plus, less)(had, value, t)` says that `t` may come out of adding a
/// value to `had`, or of starting with it where there are no totals yet. `double` gives
/// the double that the value stands for. It is added to the sum by `plus`. It becomes the
/// least where it is less, and the greatest where that one is less.
pub open spec fn adds_by<
    D: Fn(MetricValue) -> u64,
    P: Fn(u64, u64) -> u64,
    L: Fn(u64, u64) -> bool,
>(double: D, plus: P, less: L) -> spec_fn(Option<Totals>, MetricValue, Totals) -> bool {
    |had: Option<Totals>, value: MetricValue, t: Totals|
        exists|v: u64| #[trigger]
            call_ensures(double, (value,), v) && match had {
                None => t == (Totals { sum: v, min: v, max: v }),
                Some(h) => {
                    &&& call_ensures(plus, (h.sum, v), t.sum)
                    &&& {
                        ||| call_ensures(less, (v, h.min), true) && t.min == v
                        ||| call_ensures(less, (v, h.min), false) && t.min == h.min
                    }
                    &&& {
                        ||| call_ensures(less, (h.max, v), true) && t.max == v
                        ||| call_ensures(less, (h.max, v), false) && t.max == h.max
                    }
                },
            }
}

/// Adds a value to the totals of a stream, or starts totals with it.
pub fn accumulate<
    D: Fn(MetricValue) -> u64,
    P: Fn(u64, u64) -> u64,
    L: Fn(u64, u64) -> bool,
>(had: Option<Totals>, value: MetricValue, double: &D, plus: &P, less: &L) -> (t: Totals)
    requires
        forall|value: MetricValue| call_requires(*double, (value,)),
        forall|a: u64, b: u64| call_requires(*plus, (a, b)),
        forall|a: u64, b: u64| call_requires(*less, (a, b)),
    ensures
        adds_by(*double, *plus, *less)(had, value, t),
{
    let v: u64 = double(value);
    match had {
        None => Totals { sum: v, min: v, max: v },
        Some(h) => {
            let sum: u64 = plus(h.sum, v);
            let min: u64 = if less(v, h.min) {
                v
            } else {
                h.min
            };
            let max: u64 = if less(h.max, v) {
                v
            } else {
                h.max
            };
            Totals { sum, min, max }
        },
    }
}

/// Arithmetic on the bits of doubles.
pub struct Arithmetic {
    pub double: spec_fn(MetricValue) -> u64,
    pub plus: spec_fn(u64, u64) -> u64,
    pub less: spec_fn(u64, u64) -> bool,
}

impl Arithmetic {
    /// The functions of a caller do this arithmetic.
    pub open spec fn done_by<
        D: Fn(MetricValue) -> u64,
        P: Fn(u64, u64) -> u64,
        L: Fn(u64, u64) -> bool,
    >(self, double: D, plus: P, less: L) -> bool {
        &&& forall|value: MetricValue, v: u64| #[trigger]
            call_ensures(double, (value,), v) ==> v == (self.double)(value)
        &&& forall|a: u64, b: u64, c: u64| #[trigger]
            call_ensures(plus, (a, b), c) ==> c == (self.plus)(a, b)
        &&& forall|a: u64, b: u64, c: bool| #[trigger]
            call_ensures(less, (a, b), c) ==> c == (self.less)(a, b)
    }

    /// Nothing is less than itself, and what is less than something that is less than a
    /// third is less than the third. That holds of all doubles.
    pub open spec fn strict(self) -> bool {
        &&& forall|a: u64| !#[trigger] (self.less)(a, a)
        &&& forall|a: u64, b: u64, c: u64| #[trigger]
            (self.less)(a, b) && #[trigger] (self.less)(b, c) ==> (self.less)(a, c)
    }

    /// The totals with a value added.
    pub open spec fn added(self, had: Option<Totals>, value: MetricValue) -> Totals {
        let v = (self.double)(value);
        match had {
            None => Totals { sum: v, min: v, max: v },
            Some(h) => Totals {
                sum: (self.plus)(h.sum, v),
                min: if (self.less)(v, h.min) {
                    v
                } else {
                    h.min
                },
                max: if (self.less)(h.max, v) {
                    v
                } else {
                    h.max
                },
            },
        }
    }

    /// Whatever `adds` lets come out of adding a value is what this arithmetic gives.
    pub open spec fn governs(
        self,
        adds: spec_fn(Option<Totals>, MetricValue, Totals) -> bool,
    ) -> bool {
        forall|had: Option<Totals>, value: MetricValue, t: Totals| #[trigger]
            adds(had, value, t) ==> t == self.added(had, value)
    }

    /// Some values added up in their order.
    pub open spec fn sum_of(self, values: Seq<u64>) -> u64
        decreases values.len(),
    {
        if values.len() <= 1 {
            values[0]
        } else {
            (self.plus)(self.sum_of(values.drop_last()), values.last())
        }
    }

    /// `v` is one of some values, and none of them is less.
    pub open spec fn least(self, values: Seq<u64>, v: u64) -> bool {
        values.contains(v) && forall|i: int|
            0 <= i < values.len() ==> !(self.less)(#[trigger] values[i], v)
    }

    /// `v` is one of some values, and it is less than none of them.
    pub open spec fn greatest(self, values: Seq<u64>, v: u64) -> bool {
        values.contains(v) && forall|i: int|
            0 <= i < values.len() ==> !(self.less)(v, #[trigger] values[i])
    }
}

/// The value at `i` was added to the totals before it, the first one to none.
pub open spec fn added_at(
    h: Seq<(MetricValue, Totals)>,
    i: int,
    adds: spec_fn(Option<Totals>, MetricValue, Totals) -> bool,
) -> bool {
    adds(
        if i == 0 {
            None
        } else {
            Some(h[i - 1].1)
        },
        h[i].0,
        h[i].1,
    )
}

/// Each value was added to the totals before it, in order.
pub open spec fn added_in_order(
    h: Seq<(MetricValue, Totals)>,
    adds: spec_fn(Option<Totals>, MetricValue, Totals) -> bool,
) -> bool {
    forall|i: int| 0 <= i < h.len() ==> #[trigger] added_at(h, i, adds)
}

/// The doubles that the values of a history stand for.
pub open spec fn doubles_of(h: Seq<(MetricValue, Totals)>, a: Arithmetic) -> Seq<u64> {
    h.map_values(|e: (MetricValue, Totals)| (a.double)(e.0))
}

// ---------------------------------------------------------------------------
// Laws
// ---------------------------------------------------------------------------

/// Where the functions of a caller do some arithmetic, what comes out of adding a value
/// is what that arithmetic gives.
pub proof fn law_arithmetic_is_the_callers<
    D: Fn(MetricValue) -> u64,
    P: Fn(u64, u64) -> u64,
    L: Fn(u64, u64) -> bool,
>(a: Arithmetic, double: D, plus: P, less: L)
    requires
        a.done_by(double, plus, less),
    ensures
        a.governs(adds_by(double, plus, less)),
{
    let adds = adds_by(double, plus, less);
    assert forall|had: Option<Totals>, value: MetricValue, t: Totals| #[trigger]
        adds(had, value, t) implies t == a.added(had, value) by {
        let v = choose|v: u64| #[trigger]
            call_ensures(double, (value,), v) && match had {
                None => t == (Totals { sum: v, min: v, max: v }),
                Some(h) => {
                    &&& call_ensures(plus, (h.sum, v), t.sum)
                    &&& {
                        ||| call_ensures(less, (v, h.min), true) && t.min == v
                        ||| call_ensures(less, (v, h.min), false) && t.min == h.min
                    }
                    &&& {
                        ||| call_ensures(less, (h.max, v), true) && t.max == v
                        ||| call_ensures(less, (h.max, v), false) && t.max == h.max
                    }
                },
            };
        assert(v == (a.double)(value));
    }
}

/// The least of some values and the greatest, when one more comes to them.
proof fn lemma_one_more_value(a: Arithmetic, values: Seq<u64>, v: u64, min: u64, max: u64)
    requires
        a.strict(),
        a.least(values, min),
        a.greatest(values, max),
    ensures
        a.least(
            values.push(v),
            if (a.less)(v, min) {
                v
            } else {
                min
            },
        ),
        a.greatest(
            values.push(v),
            if (a.less)(max, v) {
                v
            } else {
                max
            },
        ),
{
    let more = values.push(v);
    let low = choose|i: int| 0 <= i < values.len() && values[i] == min;
    let high = choose|i: int| 0 <= i < values.len() && values[i] == max;
    assert(more[low] == min && more[high] == max && more[values.len() as int] == v);
    assert forall|i: int| 0 <= i < more.len() implies !(a.less)(#[trigger] more[i], v) || !(a.less)(
        v,
        min,
    ) by {
        if i < values.len() {
            assert(!(a.less)(values[i], min));
        }
    }
    assert forall|i: int| 0 <= i < more.len() implies !(a.less)(v, #[trigger] more[i]) || !(a.less)(
        max,
        v,
    ) by {
        if i < values.len() {
            assert(!(a.less)(max, values[i]));
        }
    }
    assert forall|i: int| 0 <= i < values.len() implies !(a.less)(#[trigger] more[i], min) && !(
    a.less)(max, more[i]) by {
        assert(more[i] == values[i]);
    }
}

/// Values that were added one by one lead to their sum, in their order, to the least of
/// them and to the greatest.
pub proof fn law_totals_are_sum_least_and_greatest(
    h: Seq<(MetricValue, Totals)>,
    adds: spec_fn(Option<Totals>, MetricValue, Totals) -> bool,
    a: Arithmetic,
)
    requires
        h.len() > 0,
        added_in_order(h, adds),
        a.governs(adds),
        a.strict(),
    ensures
        h.last().1.sum == a.sum_of(doubles_of(h, a)),
        a.least(doubles_of(h, a), h.last().1.min),
        a.greatest(doubles_of(h, a), h.last().1.max),
    decreases h.len(),
{
    let values = doubles_of(h, a);
    let n = h.len() - 1;
    let v = (a.double)(h[n].0);
    assert(values[n] == v);
    assert(added_at(h, n, adds));
    if n == 0 {
        assert(h[0].1 == a.added(None, h[0].0));
    } else {
        let earlier = h.drop_last();
        let fewer = doubles_of(earlier, a);
        let had = h[n - 1].1;
        assert(added_in_order(earlier, adds)) by {
            assert forall|i: int| 0 <= i < earlier.len() implies #[trigger] added_at(
                earlier,
                i,
                adds,
            ) by {
                assert(added_at(h, i, adds));
            }
        }
        law_totals_are_sum_least_and_greatest(earlier, adds, a);
        assert(earlier.last() == h[n - 1]);
        assert(h[n].1 == a.added(Some(had), h[n].0));
        assert(values.drop_last() =~= fewer);
        assert(values =~= fewer.push(v));
        lemma_one_more_value(a, fewer, v, had.min, had.max);
    }
}

} // verus!
