//! Metric messages, and how a double is written in them.
//!
//! A message is a CBOR map: 0 message type, 21 name, 22 interval code, 5 labels, 6 uptime
//! in milliseconds, 13 sequence number, 24 sum or raw value, and for what was
//! aggregated 26 count, 27 least and 28 greatest value.

use vstd::prelude::*;
use vstd::arithmetic::div_mod::{lemma_div_denominator, lemma_mod_breakdown};
use vstd::arithmetic::power2::{lemma2_to64, lemma_pow2_pos, lemma_pow2_strictly_increases};
use vstd::arithmetic::power2::{lemma_pow2_unfold, pow2};
use crate::metrics::labels::label_texts;
use crate::metrics::{ReadyMetric, ReadyView};

verus! {

/// Message type of metrics.
pub const MESSAGE_TYPE_METRIC: u64 = 5;

/// A value in a metric message.
#[derive(Debug)]
pub enum MetricItem {
    Uint(u64),
    Int(i64),
    /// A double, by its bits.
    Double(u64),
    Text(String),
    Labels(Vec<(String, String)>),
}

/// What such a value says.
pub enum MetricItemView {
    Uint(u64),
    Int(i64),
    Double(u64),
    Text(Seq<char>),
    Labels(Seq<(Seq<char>, Seq<char>)>),
}

impl View for MetricItem {
    type V = MetricItemView;

    open spec fn view(&self) -> MetricItemView {
        match self {
            MetricItem::Uint(n) => MetricItemView::Uint(*n),
            MetricItem::Int(n) => MetricItemView::Int(*n),
            MetricItem::Double(bits) => MetricItemView::Double(*bits),
            MetricItem::Text(s) => MetricItemView::Text(s@),
            MetricItem::Labels(labels) => MetricItemView::Labels(label_texts(labels@)),
        }
    }
}

/// What the fields of a message say.
pub open spec fn field_views(fields: Seq<(u64, MetricItem)>) -> Seq<(u64, MetricItemView)> {
    fields.map_values(|f: (u64, MetricItem)| (f.0, f.1@))
}

// ---------------------------------------------------------------------------
// Doubles
// ---------------------------------------------------------------------------

/// The double is negative.
pub open spec fn negative(bits: u64) -> bool {
    bits >= 0x8000_0000_0000_0000
}

/// The eleven bits of the exponent.
pub open spec fn exponent(bits: u64) -> int {
    (bits as int / 0x10_0000_0000_0000) % 0x800
}

/// The fifty-two bits behind the point.
pub open spec fn fraction(bits: u64) -> int {
    bits as int % 0x10_0000_0000_0000
}

/// The magnitude of a finite double is `significand * 2^scale`.
pub open spec fn significand(bits: u64) -> int {
    if exponent(bits) == 0 {
        fraction(bits)
    } else {
        0x10_0000_0000_0000 + fraction(bits)
    }
}

pub open spec fn scale(bits: u64) -> int {
    if exponent(bits) == 0 {
        -1074
    } else {
        exponent(bits) - 1075
    }
}

/// The magnitude of a double, if it is a whole number.
pub open spec fn magnitude(bits: u64) -> Option<int> {
    if exponent(bits) == 0x7ff {
        None
    } else if scale(bits) >= 0 {
        Some(significand(bits) * pow2(scale(bits) as nat))
    } else {
        let unit = pow2((-scale(bits)) as nat) as int;
        if significand(bits) % unit == 0 {
            Some(significand(bits) / unit)
        } else {
            None
        }
    }
}

/// The whole number that a double is, if it is one.
pub open spec fn whole(bits: u64) -> Option<int> {
    match magnitude(bits) {
        Some(n) => Some(
            if negative(bits) {
                -n
            } else {
                n
            },
        ),
        None => None,
    }
}

/// How a double is written: as an integer where it is a whole number from -2^63 to 2^63.
pub open spec fn number_item(bits: u64) -> MetricItemView {
    match whole(bits) {
        Some(n) if i64::MIN <= n <= i64::MAX => MetricItemView::Int(n as i64),
        Some(n) if n == i64::MAX + 1 => MetricItemView::Uint(0x8000_0000_0000_0000),
        _ => MetricItemView::Double(bits),
    }
}

/// The number that an item is, if it is an integer.
pub open spec fn integer_of(item: MetricItemView) -> Option<int> {
    match item {
        MetricItemView::Uint(n) => Some(n as int),
        MetricItemView::Int(n) => Some(n as int),
        _ => None,
    }
}

/// A double is written as the number that it is: as an integer exactly where it is a
/// whole number from -2^63 to 2^63, and then as that integer, else as it stands.
pub proof fn law_number_is_kept(bits: u64)
    ensures
        match whole(bits) {
            Some(n) if -0x8000_0000_0000_0000 <= n <= 0x8000_0000_0000_0000 => integer_of(
                number_item(bits),
            ) == Some(n),
            _ => number_item(bits) == MetricItemView::Double(bits),
        },
{
}

/// Division by a power of two, one halving at a time.
proof fn lemma_halve(n: int, k: nat)
    requires
        n >= 0,
        k > 0,
    ensures
        n % 2 == 1 ==> n % (pow2(k) as int) != 0,
        n % 2 == 0 ==> n % (pow2(k) as int) == 2 * ((n / 2) % (pow2((k - 1) as nat) as int)),
        n / (pow2(k) as int) == (n / 2) / (pow2((k - 1) as nat) as int),
{
    let half = pow2((k - 1) as nat) as int;
    lemma_pow2_pos((k - 1) as nat);
    lemma_pow2_unfold(k);
    lemma_mod_breakdown(n, 2, half);
    lemma_div_denominator(n, 2, half);
}

/// `n / 2^k`, if there is no remainder.
fn divide_exactly(n: u64, k: u64) -> (r: Option<u64>)
    ensures
        match r {
            Some(q) => n as int % (pow2(k as nat) as int) == 0 && q == n as int / (pow2(
                k as nat,
            ) as int),
            None => n as int % (pow2(k as nat) as int) != 0,
        },
{
    let mut q: u64 = n;
    let mut left: u64 = k;
    while left > 0
        invariant
            left <= k,
            n as int % (pow2(k as nat) as int) == 0 <==> q as int % (pow2(left as nat) as int) == 0,
            n as int / (pow2(k as nat) as int) == q as int / (pow2(left as nat) as int),
        decreases left,
    {
        proof {
            lemma_halve(q as int, left as nat);
        }
        if q % 2 == 1 {
            return None;
        }
        q = q / 2;
        left = left - 1;
    }
    proof {
        lemma2_to64();
        assert(pow2(left as nat) == 1);
        assert(q as int % 1 == 0 && q as int / 1 == q);
    }
    Some(q)
}

/// `n * 2^k`, if it is at most 2^63.
fn multiply_up(n: u64, k: u64) -> (r: Option<u64>)
    requires
        0 < n,
    ensures
        match r {
            Some(p) => p == n * pow2(k as nat) && p <= 0x8000_0000_0000_0000,
            None => n * pow2(k as nat) > 0x8000_0000_0000_0000,
        },
{
    let mut p: u64 = n;
    let mut done: u64 = 0;
    proof {
        lemma2_to64();
        assert(n * pow2(0) == n) by (nonlinear_arith)
            requires
                pow2(0) == 1,
        ;
    }
    while done < k && p <= 0x8000_0000_0000_0000
        invariant
            0 < n,
            done <= k,
            p == n * pow2(done as nat),
        decreases k - done,
    {
        if p > 0x4000_0000_0000_0000 {
            proof {
                lemma_pow2_unfold((done + 1) as nat);
                let once = pow2((done + 1) as nat) as int;
                assert(n * once == 2 * p) by (nonlinear_arith)
                    requires
                        once == 2 * pow2(done as nat),
                        p == n * pow2(done as nat),
                ;
                lemma_grows(n, (done + 1) as nat, k as nat);
            }
            return None;
        }
        proof {
            lemma_pow2_unfold((done + 1) as nat);
            let once = pow2((done + 1) as nat) as int;
            assert(n * once == 2 * p) by (nonlinear_arith)
                requires
                    once == 2 * pow2(done as nat),
                    p == n * pow2(done as nat),
            ;
        }
        p = p * 2;
        done = done + 1;
    }
    if p > 0x8000_0000_0000_0000 {
        proof {
            lemma_grows(n, done as nat, k as nat);
        }
        return None;
    }
    Some(p)
}

/// A greater power of two makes a greater product.
proof fn lemma_grows(n: u64, a: nat, b: nat)
    requires
        a <= b,
    ensures
        n * pow2(a) <= n * pow2(b),
{
    if a < b {
        lemma_pow2_strictly_increases(a, b);
    }
    assert(n * pow2(a) <= n * pow2(b)) by (nonlinear_arith)
        requires
            pow2(a) <= pow2(b),
    ;
}

/// The item for a double: an integer where it has no fractional part and is not too
/// large, which makes the message smaller.
pub fn cbor_number(bits: u64) -> (item: MetricItem)
    ensures
        item@ == number_item(bits),
{
    let exp: u64 = (bits / 0x10_0000_0000_0000) % 0x800;
    let frac: u64 = bits % 0x10_0000_0000_0000;
    if exp == 0x7ff {
        return MetricItem::Double(bits);
    }
    let size: Option<u64> = if exp == 0 {
        divide_exactly(frac, 1074)
    } else if exp < 1075 {
        divide_exactly(0x10_0000_0000_0000 + frac, 1075 - exp)
    } else {
        multiply_up(0x10_0000_0000_0000 + frac, exp - 1075)
    };
    match size {
        Some(n) => {
            proof {
                if scale(bits) < 0 {
                    let unit = pow2((-scale(bits)) as nat) as int;
                    lemma_pow2_pos((-scale(bits)) as nat);
                    assert(significand(bits) / unit <= significand(bits)) by (nonlinear_arith)
                        requires
                            unit >= 1,
                            significand(bits) >= 0,
                    ;
                }
                assert(magnitude(bits) == Some(n as int));
                assert(n <= 0x8000_0000_0000_0000);
            }
            if bits >= 0x8000_0000_0000_0000 {
                if n == 0x8000_0000_0000_0000 {
                    MetricItem::Int(i64::MIN)
                } else {
                    MetricItem::Int(-(n as i64))
                }
            } else if n == 0x8000_0000_0000_0000 {
                MetricItem::Uint(n)
            } else {
                MetricItem::Int(n as i64)
            }
        },
        None => MetricItem::Double(bits),
    }
}

// ---------------------------------------------------------------------------
// Messages
// ---------------------------------------------------------------------------

/// The message for a metric. A raw value has no count, and then neither a least nor a
/// greatest value.
pub open spec fn metric_message(m: ReadyView) -> Seq<(u64, MetricItemView)> {
    let start = seq![
        (0u64, MetricItemView::Uint(MESSAGE_TYPE_METRIC)),
        (21u64, MetricItemView::Text(m.name)),
        (22u64, MetricItemView::Uint(m.agg_cbor as u64)),
    ];
    let labels = if m.labels.len() == 0 {
        Seq::empty()
    } else {
        seq![(5u64, MetricItemView::Labels(m.labels))]
    };
    let value = seq![
        (6u64, MetricItemView::Uint(m.uptime_ms)),
        (13u64, MetricItemView::Uint(m.seq)),
        (24u64, number_item(m.sum)),
    ];
    let spread = match m.count {
        Some(count) => seq![
            (26u64, MetricItemView::Uint(count)),
            (27u64, number_item(match m.min {
                Some(min) => min,
                None => m.sum,
            })),
            (28u64, number_item(match m.max {
                Some(max) => max,
                None => m.sum,
            })),
        ],
        None => Seq::empty(),
    };
    start + labels + value + spread
}

fn put(fields: &mut Vec<(u64, MetricItem)>, key: u64, item: MetricItem)
    ensures
        field_views(final(fields)@) == field_views(old(fields)@).push((key, item@)),
{
    fields.push((key, item));
    assert(field_views(fields@) =~= field_views(old(fields)@).push((key, item@)));
}

/// The fields of the message for a metric, in the order in which they are written.
pub fn metric_fields(m: &ReadyMetric) -> (fields: Vec<(u64, MetricItem)>)
    ensures
        field_views(fields@) == metric_message(m@),
{
    let mut fields: Vec<(u64, MetricItem)> = Vec::new();
    assert(field_views(fields@) =~= Seq::empty());
    put(&mut fields, 0, MetricItem::Uint(MESSAGE_TYPE_METRIC));
    put(&mut fields, 21, MetricItem::Text(m.name.clone()));
    put(&mut fields, 22, MetricItem::Uint(m.agg_cbor as u64));
    if m.labels.len() > 0 {
        let mut labels: Vec<(String, String)> = Vec::new();
        for i in 0..m.labels.len()
            invariant
                label_texts(labels@) == label_texts(m.labels@).take(i as int),
        {
            let ghost had = label_texts(labels@);
            labels.push((m.labels[i].0.clone(), m.labels[i].1.clone()));
            proof {
                let all = label_texts(m.labels@);
                assert(label_texts(labels@) =~= had.push(all[i as int]));
                assert(all.take(i + 1) =~= all.take(i as int).push(all[i as int]));
            }
        }
        assert(label_texts(labels@) =~= label_texts(m.labels@));
        put(&mut fields, 5, MetricItem::Labels(labels));
    }
    put(&mut fields, 6, MetricItem::Uint(m.uptime_ms));
    put(&mut fields, 13, MetricItem::Uint(m.seq));
    put(&mut fields, 24, cbor_number(m.sum));
    if let Some(count) = m.count {
        let min: u64 = match m.min {
            Some(min) => min,
            None => m.sum,
        };
        let max: u64 = match m.max {
            Some(max) => max,
            None => m.sum,
        };
        put(&mut fields, 26, MetricItem::Uint(count));
        put(&mut fields, 27, cbor_number(min));
        put(&mut fields, 28, cbor_number(max));
    }
    assert(field_views(fields@) =~= metric_message(m@));
    fields
}

// ---------------------------------------------------------------------------
// Laws
// ---------------------------------------------------------------------------

/// What stands under a key of a message: of equal keys, the first.
pub open spec fn item_under(fields: Seq<(u64, MetricItemView)>, key: u64) -> Option<MetricItemView>
    decreases fields.len(),
{
    if fields.len() == 0 {
        None
    } else if fields[0].0 == key {
        Some(fields[0].1)
    } else {
        item_under(fields.skip(1), key)
    }
}

/// A message says what the metric is: under 0 the message type 5, under 21 the name, under
/// 22 the interval code, under 5 the labels if there are any, under 6 the uptime, under 13
/// the sequence number, under 24 the sum. What was aggregated has its count under 26, its
/// least value under 27 and its greatest under 28; a raw value has none of these. There is
/// no other key, and none is there twice.
pub proof fn law_message_says_what_the_metric_is(m: ReadyView, key: u64)
    ensures
        item_under(metric_message(m), key) == match key {
            0 => Some(MetricItemView::Uint(5)),
            21 => Some(MetricItemView::Text(m.name)),
            22 => Some(MetricItemView::Uint(m.agg_cbor as u64)),
            5 => if m.labels.len() > 0 {
                Some(MetricItemView::Labels(m.labels))
            } else {
                None
            },
            6 => Some(MetricItemView::Uint(m.uptime_ms)),
            13 => Some(MetricItemView::Uint(m.seq)),
            24 => Some(number_item(m.sum)),
            26 => match m.count {
                Some(count) => Some(MetricItemView::Uint(count)),
                None => None,
            },
            27 => if m.count is Some {
                Some(number_item(if m.min is Some {
                    m.min->0
                } else {
                    m.sum
                }))
            } else {
                None
            },
            28 => if m.count is Some {
                Some(number_item(if m.max is Some {
                    m.max->0
                } else {
                    m.sum
                }))
            } else {
                None
            },
            _ => None,
        },
        metric_message(m).len() == 6 + (if m.labels.len() > 0 {
            1int
        } else {
            0
        }) + (if m.count is Some {
            3int
        } else {
            0
        }),
{
    let fields = metric_message(m);
    reveal_with_fuel(item_under, 11);
    assert forall|n: int, k: int| 0 <= n && 0 <= k && n + k <= fields.len() implies
        #[trigger] fields.skip(n).skip(k) == fields.skip(n + k) by {
        assert(fields.skip(n).skip(k) =~= fields.skip(n + k));
    }
}

/// The double with this sign, exponent field and fraction has these bits.
pub open spec fn made_of(bits: u64, minus: bool, exp: int, frac: int) -> bool {
    &&& 0 <= exp < 2048
    &&& 0 <= frac < 4503599627370496
    &&& bits == (if minus {
        9223372036854775808int
    } else {
        0
    }) + exp * 4503599627370496 + frac
}

/// The parts of a double are found in its bits.
proof fn lemma_made_of(bits: u64, minus: bool, exp: int, frac: int)
    requires
        made_of(bits, minus, exp, frac),
    ensures
        exponent(bits) == exp,
        fraction(bits) == frac,
        negative(bits) == minus,
{
    let top = if minus {
        2048int
    } else {
        0
    };
    assert(bits as int == (top + exp) * 0x10_0000_0000_0000 + frac);
    assert(bits as int / 0x10_0000_0000_0000 == top + exp);
    assert(bits as int % 0x10_0000_0000_0000 == frac);
}

/// A double that is the whole number `q`, or `-q`, is written as that integer where `q` is
/// at most 2^63, and as it stands where it is greater. By the format of doubles it is that
/// number where its significand, 2^52 and the fraction together, times two to the power of
/// the exponent less 1075, is `q`.
pub proof fn law_whole_double_is_written_as_integer(
    bits: u64,
    minus: bool,
    exp: int,
    frac: int,
    q: nat,
)
    requires
        made_of(bits, minus, exp, frac),
        0 < exp < 2047,
        exp >= 1075 ==> q == (4503599627370496 + frac) * pow2((exp - 1075) as nat),
        exp < 1075 ==> 4503599627370496 + frac == q * pow2((1075 - exp) as nat),
    ensures
        q <= 9223372036854775808 ==> integer_of(number_item(bits)) == Some(
            if minus {
                -(q as int)
            } else {
                q as int
            },
        ),
        q > 9223372036854775808 ==> number_item(bits) == MetricItemView::Double(bits),
{
    lemma_made_of(bits, minus, exp, frac);
    if exp < 1075 {
        let unit = pow2((1075 - exp) as nat) as int;
        lemma_pow2_pos((1075 - exp) as nat);
        vstd::arithmetic::div_mod::lemma_div_multiples_vanish(q as int, unit);
        vstd::arithmetic::div_mod::lemma_mod_multiples_basic(q as int, unit);
        assert(unit * q == q * unit) by (nonlinear_arith);
    }
    assert(magnitude(bits) == Some(q as int));
}

/// Zero is written as the integer zero, with either sign. A double with a fractional part,
/// one below every power of two that a normal double has, and what is no number at all are
/// written as they stand.
pub proof fn law_other_doubles_stay(bits: u64, minus: bool, exp: int, frac: int)
    requires
        made_of(bits, minus, exp, frac),
    ensures
        exp == 0 && frac == 0 ==> integer_of(number_item(bits)) == Some(0int),
        exp == 0 && frac > 0 ==> number_item(bits) == MetricItemView::Double(bits),
        0 < exp < 1075 && (forall|q: nat|
            4503599627370496 + frac != q * #[trigger] pow2_of((1075 - exp) as nat, q))
            ==> number_item(bits) == MetricItemView::Double(bits),
        exp == 2047 ==> number_item(bits) == MetricItemView::Double(bits),
{
    lemma_made_of(bits, minus, exp, frac);
    lemma2_to64();
    if exp == 0 {
        lemma_pow2_strictly_increases(64, 1074);
        let unit = pow2(1074) as int;
        vstd::arithmetic::div_mod::lemma_small_mod(frac as nat, unit as nat);
        vstd::arithmetic::div_mod::lemma_basic_div(frac, unit);
    } else if exp < 1075 {
        let unit = pow2((1075 - exp) as nat) as int;
        lemma_pow2_pos((1075 - exp) as nat);
        let whole_part = 4503599627370496 + frac;
        vstd::arithmetic::div_mod::lemma_fundamental_div_mod(whole_part, unit);
        if whole_part % unit == 0 {
            vstd::arithmetic::div_mod::lemma_div_pos_is_pos(whole_part, unit);
            let q = (whole_part / unit) as nat;
            assert(unit * q == q * unit) by (nonlinear_arith);
            assert(whole_part == q * pow2_of((1075 - exp) as nat, q));
        }
    }
}

/// Two to the power of `k`, whatever `q` is.
pub open spec fn pow2_of(k: nat, q: nat) -> nat {
    pow2(k)
}

} // verus!
