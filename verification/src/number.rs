//! Decimal numbers in text.

use vstd::prelude::*;
use crate::text::{digit, is_digit};

verus! {

/// The value of a decimal digit.
pub open spec fn digit_value(c: char) -> nat {
    (c as int - '0' as int) as nat
}

/// The digit for a value below ten.
pub open spec fn digit_char(n: nat) -> char {
    ('0' as int + n) as char
}

/// Every character is a digit.
pub open spec fn all_digits(s: Seq<char>) -> bool {
    forall|i: int| 0 <= i < s.len() ==> digit(#[trigger] s[i])
}

/// The number that a run of digits writes down.
pub open spec fn number(s: Seq<char>) -> nat
    decreases s.len(),
{
    if s.len() == 0 {
        0
    } else {
        number(s.drop_last()) * 10 + digit_value(s.last())
    }
}

/// The digits of `n`, without leading zeros.
pub open spec fn decimal(n: nat) -> Seq<char>
    decreases n,
{
    if n < 10 {
        seq![digit_char(n)]
    } else {
        decimal(n / 10).push(digit_char(n % 10))
    }
}

/// `s` filled up with leading zeros to `width` characters.
pub open spec fn zero_padded(s: Seq<char>, width: nat) -> Seq<char> {
    if s.len() < width {
        Seq::new((width - s.len()) as nat, |i: int| '0') + s
    } else {
        s
    }
}

/// The number that `s` writes down, if it is one or more digits, with at most one
/// `+` in front, and the number is not above `max`.
pub open spec fn parse_unsigned(s: Seq<char>, max: nat) -> Option<nat> {
    let d = if s.len() > 0 && s[0] == '+' {
        s.skip(1)
    } else {
        s
    };
    if d.len() > 0 && all_digits(d) && number(d) <= max {
        Some(number(d))
    } else {
        None
    }
}

/// The same for a signed number of 64 bits, where the sign may also be `-`.
pub open spec fn parse_signed(s: Seq<char>) -> Option<int> {
    if s.len() > 0 && s[0] == '-' {
        let d = s.skip(1);
        if d.len() > 0 && all_digits(d) && -number(d) >= i64::MIN {
            Some(-number(d))
        } else {
            None
        }
    } else {
        match parse_unsigned(s, i64::MAX as nat) {
            Some(n) => Some(n as int),
            None => None,
        }
    }
}

/// The digits of `n` write down `n`.
pub proof fn lemma_decimal(n: nat)
    ensures
        decimal(n).len() > 0,
        all_digits(decimal(n)),
        number(decimal(n)) == n,
    decreases n,
{
    if n >= 10 {
        lemma_decimal(n / 10);
        assert(decimal(n).drop_last() =~= decimal(n / 10));
    } else {
        assert(decimal(n).drop_last() =~= Seq::empty());
        assert(number(Seq::<char>::empty()) == 0);
    }
}

/// Leading zeros do not change the number.
pub proof fn lemma_zero_padded(s: Seq<char>, width: nat)
    requires
        all_digits(s),
    ensures
        all_digits(zero_padded(s, width)),
        number(zero_padded(s, width)) == number(s),
        zero_padded(s, width).len() == if s.len() < width { width } else { s.len() },
    decreases s.len(),
{
    if s.len() < width {
        let z = Seq::new((width - s.len()) as nat, |i: int| '0');
        assert(all_digits(z));
        assert(all_digits(z + s));
        lemma_zeros(z, s);
    }
}

proof fn lemma_zeros(z: Seq<char>, s: Seq<char>)
    requires
        forall|i: int| 0 <= i < z.len() ==> #[trigger] z[i] == '0',
    ensures
        number(z + s) == number(s),
    decreases z.len() + s.len(),
{
    if s.len() > 0 {
        assert((z + s).drop_last() =~= z + s.drop_last());
        lemma_zeros(z, s.drop_last());
    } else if z.len() > 0 {
        assert(z + s =~= z);
        assert(z.drop_last() + s =~= z.drop_last());
        lemma_zeros(z.drop_last(), s);
    } else {
        assert(z + s =~= s);
    }
}

/// The number that a non-empty run of digits writes down, unless it is above `max`.
fn parse_digits(s: &[char], max: u64) -> (r: Option<u64>)
    ensures
        match r {
            Some(n) => s@.len() > 0 && all_digits(s@) && n == number(s@) && n <= max,
            None => s@.len() == 0 || !all_digits(s@) || number(s@) > max,
        },
{
    if s.len() == 0 {
        return None;
    }
    let mut n: u64 = 0;
    let mut over: bool = false;
    for i in 0..s.len()
        invariant
            all_digits(s@.take(i as int)),
            over ==> number(s@.take(i as int)) > max,
            !over ==> n == number(s@.take(i as int)) && n <= max,
    {
        let c = s[i];
        if !is_digit(c) {
            return None;
        }
        proof {
            assert(s@.take(i + 1).drop_last() =~= s@.take(i as int));
            assert(all_digits(s@.take(i + 1))) by {
                assert forall|j: int| 0 <= j < i + 1 implies digit(#[trigger] s@.take(i + 1)[j]) by {
                    if j < i {
                        assert(s@.take(i as int)[j] == s@.take(i + 1)[j]);
                    }
                }
            }
        }
        if !over {
            let d: u64 = (c as u32 - '0' as u32) as u64;
            match n.checked_mul(10) {
                Some(m) => match m.checked_add(d) {
                    Some(k) => {
                        n = k;
                        over = n > max;
                    },
                    None => {
                        over = true;
                    },
                },
                None => {
                    over = true;
                },
            }
        }
    }
    assert(s@.take(s@.len() as int) =~= s@);
    if over {
        None
    } else {
        Some(n)
    }
}

/// Reads an unsigned number that is at most `max`.
pub fn read_unsigned(s: &[char], max: u64) -> (r: Option<u64>)
    ensures
        match r {
            Some(n) => parse_unsigned(s@, max as nat) == Some(n as nat),
            None => parse_unsigned(s@, max as nat) is None,
        },
        r matches Some(n) ==> n <= max,
{
    if s.len() > 0 && s[0] == '+' {
        let d = &s[1..s.len()];
        assert(d@ =~= s@.skip(1));
        parse_digits(d, max)
    } else {
        parse_digits(s, max)
    }
}

/// Reads a signed number of 64 bits.
pub fn read_i64(s: &[char]) -> (r: Option<i64>)
    ensures
        match r {
            Some(n) => parse_signed(s@) == Some(n as int),
            None => parse_signed(s@) is None,
        },
{
    if s.len() > 0 && s[0] == '-' {
        let d = &s[1..s.len()];
        assert(d@ =~= s@.skip(1));
        match parse_digits(d, 9223372036854775808) {
            Some(n) => if n == 9223372036854775808 {
                Some(i64::MIN)
            } else {
                Some(-(n as i64))
            },
            None => None,
        }
    } else {
        match read_unsigned(s, 9223372036854775807) {
            Some(n) => Some(n as i64),
            None => None,
        }
    }
}

/// The digits of `n` without leading zeros.
pub fn digits_of(n: u64) -> (r: Vec<char>)
    ensures
        r@ == decimal(n as nat),
    decreases n,
{
    let mut r: Vec<char> = if n < 10 {
        Vec::new()
    } else {
        digits_of(n / 10)
    };
    let d: u8 = 48 + (n % 10) as u8;
    let c: char = d as char;
    r.push(c);
    assert(r@ =~= decimal(n as nat));
    r
}

/// The digits of `n` with leading zeros up to `width` characters.
pub fn padded_digits_of(n: u64, width: usize) -> (r: Vec<char>)
    ensures
        r@ == zero_padded(decimal(n as nat), width as nat),
{
    let mut d = digits_of(n);
    let mut r: Vec<char> = Vec::new();
    let len: usize = d.len();
    while len < width && r.len() < width - len
        invariant
            len == decimal(n as nat).len(),
            len < width ==> r@.len() <= width - len,
            len >= width ==> r@.len() == 0,
            forall|i: int| 0 <= i < r@.len() ==> #[trigger] r@[i] == '0',
        decreases width - len - r@.len(),
    {
        r.push('0');
    }
    let ghost z = r@;
    r.append(&mut d);
    assert(r@ =~= zero_padded(decimal(n as nat), width as nat));
    r
}

// ---------------------------------------------------------------------------
// Laws
// ---------------------------------------------------------------------------

/// A number that is written out, with or without a plus sign and zeros in front, is read as
/// that number where it is not above the greatest allowed, and else not at all.
pub proof fn law_written_number_is_read(n: nat, zeros: Seq<char>, max: nat)
    requires
        forall|i: int| 0 <= i < zeros.len() ==> #[trigger] zeros[i] == '0',
    ensures
        n <= max ==> parse_unsigned(zeros + decimal(n), max) == Some(n),
        n <= max ==> parse_unsigned(seq!['+'] + (zeros + decimal(n)), max) == Some(n),
        n > max ==> parse_unsigned(zeros + decimal(n), max) is None,
        n > max ==> parse_unsigned(seq!['+'] + (zeros + decimal(n)), max) is None,
        n <= i64::MAX ==> parse_signed(zeros + decimal(n)) == Some(n as int),
        n <= i64::MAX ==> parse_signed(seq!['+'] + (zeros + decimal(n))) == Some(n as int),
        n > i64::MAX ==> parse_signed(zeros + decimal(n)) is None,
        n <= i64::MAX + 1 ==> parse_signed(seq!['-'] + (zeros + decimal(n))) == Some(-(n as int)),
        n > i64::MAX + 1 ==> parse_signed(seq!['-'] + (zeros + decimal(n))) is None,
{
    let d = zeros + decimal(n);
    lemma_decimal(n);
    lemma_zeros(zeros, decimal(n));
    assert forall|i: int| 0 <= i < d.len() implies digit(#[trigger] d[i]) by {
        if i < zeros.len() {
            assert(d[i] == zeros[i]);
        } else {
            assert(d[i] == decimal(n)[i - zeros.len()]);
        }
    }
    assert(digit(d[0]));
    assert((seq!['+'] + d).skip(1) =~= d);
    assert((seq!['-'] + d).skip(1) =~= d);
    assert((seq!['+'] + d)[0] == '+');
}

/// The digits of a number below ten are the digit itself, and each further digit stands for
/// the remainder by ten.
pub proof fn law_digits_are_decimal(n: nat, d: nat)
    requires
        d < 10,
    ensures
        decimal(d) == seq![(48 + d) as u8 as char],
        n > 0 ==> decimal(10 * n + d) == decimal(n).push((48 + d) as u8 as char),
{
    assert((10 * n + d) / 10 == n && (10 * n + d) % 10 == d);
}

/// Only digits, one at least, with at most one sign in front, are read as a number; an
/// unsigned one has no minus sign.
pub proof fn law_other_texts_are_no_numbers(s: Seq<char>, max: nat)
    requires
        s.len() == 0 || (s.len() == 1 && !('0' <= s[0] <= '9')) || (!('0' <= s[0] <= '9') && s[0]
            != '+' && s[0] != '-') || exists|i: int|
            1 <= i < s.len() && !('0' <= #[trigger] s[i] <= '9'),
    ensures
        parse_unsigned(s, max) is None,
        parse_signed(s) is None,
{
    if exists|i: int| 1 <= i < s.len() && !('0' <= #[trigger] s[i] <= '9') {
        let i = choose|i: int| 1 <= i < s.len() && !('0' <= #[trigger] s[i] <= '9');
        assert(s.skip(1)[i - 1] == s[i]);
        assert(!digit(s[i]));
    } else if s.len() > 0 {
        assert(!digit(s[0]));
    }
}

/// A number with a minus sign in front is no unsigned number.
pub proof fn law_negative_is_not_unsigned(d: Seq<char>, max: nat)
    ensures
        parse_unsigned(seq!['-'] + d, max) is None,
{
    assert(!digit((seq!['-'] + d)[0]));
}

} // verus!
