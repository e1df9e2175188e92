//! Text as sequences of characters: searching and trimming.
//!
//! The parsers of this crate work on `&[char]`; a `String` is taken apart once
//! with [`to_chars`] and its pieces are put together again with [`from_chars`].

use vstd::prelude::*;

verus! {

/// `String::push`: appends one character to the end of the string.
pub assume_specification[ String::push ](s: &mut String, c: char)
    ensures
        final(s)@ == old(s)@.push(c),
;

/// The characters of `s`, in order.
pub fn to_chars(s: &str) -> (v: Vec<char>)
    ensures
        v@ == s@,
{
    let mut v: Vec<char> = Vec::new();
    for c in it: s.chars()
        invariant
            v@ == it.seq().take(it.index()),
            it.seq() == s@,
    {
        v.push(c);
    }
    v
}

/// The string made of the given characters.
pub fn from_chars(s: &[char]) -> (r: String)
    ensures
        r@ == s@,
{
    let mut r = String::new();
    for i in 0..s.len()
        invariant
            r@ == s@.take(i as int),
    {
        r.push(s[i]);
    }
    assert(s@.take(s@.len() as int) == s@);
    r
}

// ---------------------------------------------------------------------------
// Character classes
// ---------------------------------------------------------------------------

/// One of the ten ASCII digits.
pub open spec fn digit(c: char) -> bool {
    '0' <= c && c <= '9'
}

/// An ASCII letter.
pub open spec fn letter(c: char) -> bool {
    ('a' <= c && c <= 'z') || ('A' <= c && c <= 'Z')
}

/// ASCII whitespace: space, tab, line feed, form feed, carriage return.
pub open spec fn ascii_space(c: char) -> bool {
    c == ' ' || c == '\t' || c == '\n' || c == '\u{c}' || c == '\r'
}

/// The Unicode property White_Space.
pub open spec fn space(c: char) -> bool {
    ||| ('\t' <= c && c <= '\r')
    ||| c == ' '
    ||| c == '\u{85}'
    ||| c == '\u{a0}'
    ||| c == '\u{1680}'
    ||| ('\u{2000}' <= c && c <= '\u{200a}')
    ||| c == '\u{2028}'
    ||| c == '\u{2029}'
    ||| c == '\u{202f}'
    ||| c == '\u{205f}'
    ||| c == '\u{3000}'
}

pub fn is_digit(c: char) -> (b: bool)
    ensures
        b == digit(c),
{
    '0' <= c && c <= '9'
}

pub fn is_letter(c: char) -> (b: bool)
    ensures
        b == letter(c),
{
    ('a' <= c && c <= 'z') || ('A' <= c && c <= 'Z')
}

pub fn is_ascii_space(c: char) -> (b: bool)
    ensures
        b == ascii_space(c),
{
    c == ' ' || c == '\t' || c == '\n' || c == '\u{c}' || c == '\r'
}

pub fn is_space(c: char) -> (b: bool)
    ensures
        b == space(c),
{
    ('\t' <= c && c <= '\r') || c == ' ' || c == '\u{85}' || c == '\u{a0}' || c == '\u{1680}' || (
    '\u{2000}' <= c && c <= '\u{200a}') || c == '\u{2028}' || c == '\u{2029}' || c == '\u{202f}'
        || c == '\u{205f}' || c == '\u{3000}'
}

// ---------------------------------------------------------------------------
// Spans, searching and trimming
// ---------------------------------------------------------------------------

/// Length of the longest prefix of `s` whose characters all satisfy `p`.
pub open spec fn span(s: Seq<char>, p: spec_fn(char) -> bool) -> nat
    decreases s.len(),
{
    if s.len() == 0 || !p(s[0]) {
        0
    } else {
        1 + span(s.skip(1), p)
    }
}

/// Length of the longest suffix of `s` whose characters all satisfy `p`.
pub open spec fn back_span(s: Seq<char>, p: spec_fn(char) -> bool) -> nat
    decreases s.len(),
{
    if s.len() == 0 || !p(s.last()) {
        0
    } else {
        1 + back_span(s.drop_last(), p)
    }
}

/// The predicate "is not `c`".
pub open spec fn other_than(c: char) -> spec_fn(char) -> bool {
    |x: char| x != c
}

/// The predicate "is `c`".
pub open spec fn just(c: char) -> spec_fn(char) -> bool {
    |x: char| x == c
}

/// The predicate [`space`].
pub open spec fn spaces() -> spec_fn(char) -> bool {
    |x: char| space(x)
}

/// The predicate [`ascii_space`].
pub open spec fn ascii_spaces() -> spec_fn(char) -> bool {
    |x: char| ascii_space(x)
}

/// The predicate "is not ASCII whitespace".
pub open spec fn ink() -> spec_fn(char) -> bool {
    |x: char| !ascii_space(x)
}

/// Where `c` first occurs in `s`.
pub open spec fn position(s: Seq<char>, c: char) -> Option<int> {
    if span(s, other_than(c)) < s.len() {
        Some(span(s, other_than(c)) as int)
    } else {
        None
    }
}

/// `s` without its leading whitespace.
pub open spec fn trim_start(s: Seq<char>) -> Seq<char> {
    s.skip(span(s, spaces()) as int)
}

/// `s` without the run of `c` that it starts with.
pub open spec fn trim_start_of(s: Seq<char>, c: char) -> Seq<char> {
    s.skip(span(s, just(c)) as int)
}

/// `s` without the run of `c` that it ends with.
pub open spec fn trim_end_of(s: Seq<char>, c: char) -> Seq<char> {
    s.take(s.len() - back_span(s, just(c)))
}

/// `s` without the whitespace at both ends.
pub open spec fn trim(s: Seq<char>) -> Seq<char> {
    let t = trim_start(s);
    t.take(t.len() - back_span(t, spaces()))
}

/// `s` without the whitespace at both ends, if there is anything else.
pub open spec fn trimmed_text(s: Seq<char>) -> Option<Seq<char>> {
    if trim(s).len() == 0 {
        None
    } else {
        Some(trim(s))
    }
}

/// A span is what it says: `n` characters satisfy `p`, and the run stops there.
pub proof fn lemma_span(s: Seq<char>, p: spec_fn(char) -> bool, n: nat)
    requires
        n <= s.len(),
        forall|i: int| 0 <= i < n ==> p(#[trigger] s[i]),
        n < s.len() ==> !p(s[n as int]),
    ensures
        span(s, p) == n,
    decreases n,
{
    if n > 0 {
        assert(p(s[0]));
        assert forall|i: int| 0 <= i < n - 1 implies p(#[trigger] s.skip(1)[i]) by {
            assert(s.skip(1)[i] == s[i + 1]);
        }
        lemma_span(s.skip(1), p, (n - 1) as nat);
    }
}

/// The characters of a span satisfy `p`, and the one behind it does not.
pub proof fn lemma_span_holds(s: Seq<char>, p: spec_fn(char) -> bool)
    ensures
        span(s, p) <= s.len(),
        forall|i: int| 0 <= i < span(s, p) ==> p(#[trigger] s[i]),
        span(s, p) < s.len() ==> !p(s[span(s, p) as int]),
    decreases s.len(),
{
    if s.len() > 0 && p(s[0]) {
        lemma_span_holds(s.skip(1), p);
        assert forall|i: int| 0 <= i < span(s, p) implies p(#[trigger] s[i]) by {
            if i > 0 {
                assert(s.skip(1)[i - 1] == s[i]);
            }
        }
    }
}

/// The same from the back.
pub proof fn lemma_back_span(s: Seq<char>, p: spec_fn(char) -> bool, n: nat)
    requires
        n <= s.len(),
        forall|i: int| s.len() - n <= i < s.len() ==> p(#[trigger] s[i]),
        n < s.len() ==> !p(s[s.len() - n - 1]),
    ensures
        back_span(s, p) == n,
    decreases n,
{
    if n > 0 {
        assert(p(s[s.len() - 1]));
        lemma_back_span(s.drop_last(), p, (n - 1) as nat);
    }
}

/// Where `c` first occurs in `s`.
pub fn find(s: &[char], c: char) -> (r: Option<usize>)
    ensures
        match r {
            Some(i) => i < s@.len() && position(s@, c) == Some(i as int),
            None => position(s@, c) is None,
        },
{
    let mut i: usize = 0;
    while i < s.len() && s[i] != c
        invariant
            i <= s@.len(),
            forall|j: int| 0 <= j < i ==> s@[j] != c,
        decreases s@.len() - i,
    {
        i += 1;
    }
    proof {
        lemma_span(s@, other_than(c), i as nat);
    }
    if i < s.len() {
        Some(i)
    } else {
        None
    }
}

/// `s` without its leading whitespace.
pub fn without_leading_space(s: &[char]) -> (r: &[char])
    ensures
        r@ == trim_start(s@),
{
    let mut i: usize = 0;
    while i < s.len() && is_space(s[i])
        invariant
            i <= s@.len(),
            forall|j: int| 0 <= j < i ==> space(#[trigger] s@[j]),
        decreases s@.len() - i,
    {
        i += 1;
    }
    proof {
        lemma_span(s@, spaces(), i as nat);
    }
    &s[i..s.len()]
}

/// `s` without the run of `c` that it starts with.
pub fn without_leading(s: &[char], c: char) -> (r: &[char])
    ensures
        r@ == trim_start_of(s@, c),
{
    let mut i: usize = 0;
    while i < s.len() && s[i] == c
        invariant
            i <= s@.len(),
            forall|j: int| 0 <= j < i ==> #[trigger] s@[j] == c,
        decreases s@.len() - i,
    {
        i += 1;
    }
    proof {
        lemma_span(s@, just(c), i as nat);
    }
    &s[i..s.len()]
}

/// `s` without the run of `c` that it ends with.
pub fn without_trailing(s: &[char], c: char) -> (r: &[char])
    ensures
        r@ == trim_end_of(s@, c),
{
    let mut n: usize = s.len();
    while n > 0 && s[n - 1] == c
        invariant
            n <= s@.len(),
            forall|j: int| n <= j < s@.len() ==> #[trigger] s@[j] == c,
        decreases n,
    {
        n -= 1;
    }
    proof {
        lemma_back_span(s@, just(c), (s@.len() - n) as nat);
    }
    &s[0..n]
}

/// `s` without the whitespace at both ends.
pub fn trimmed(s: &[char]) -> (r: &[char])
    ensures
        r@ == trim(s@),
{
    let t = without_leading_space(s);
    let mut n: usize = t.len();
    while n > 0 && is_space(t[n - 1])
        invariant
            n <= t@.len(),
            forall|j: int| n <= j < t@.len() ==> space(#[trigger] t@[j]),
        decreases n,
    {
        n -= 1;
    }
    proof {
        lemma_back_span(t@, spaces(), (t@.len() - n) as nat);
    }
    &t[0..n]
}

/// Whether `s` starts with `prefix`.
pub fn starts_with(s: &[char], prefix: &str) -> (b: bool)
    ensures
        b == prefix@.is_prefix_of(s@),
{
    let p = to_chars(prefix);
    if p.len() > s.len() {
        return false;
    }
    for i in 0..p.len()
        invariant
            p@ == prefix@,
            p@.len() <= s@.len(),
            forall|j: int| 0 <= j < i ==> p@[j] == s@[j],
    {
        if p[i] != s[i] {
            assert(s@.subrange(0, p@.len() as int)[i as int] == s@[i as int]);
            return false;
        }
    }
    assert(p@ =~= s@.subrange(0, p@.len() as int));
    true
}

/// Whether `s` and `t` are the same text.
pub fn same(s: &[char], t: &str) -> (b: bool)
    ensures
        b == (s@ == t@),
{
    let p = to_chars(t);
    if p.len() != s.len() {
        return false;
    }
    for i in 0..p.len()
        invariant
            p@ == t@,
            p@.len() == s@.len(),
            forall|j: int| 0 <= j < i ==> p@[j] == s@[j],
    {
        if p[i] != s[i] {
            return false;
        }
    }
    assert(s@ =~= t@);
    true
}

/// Whether `c` occurs in `s`.
pub fn contains(s: &[char], c: char) -> (b: bool)
    ensures
        b == s@.contains(c),
{
    for i in 0..s.len()
        invariant
            forall|j: int| 0 <= j < i ==> s@[j] != c,
    {
        if s[i] == c {
            return true;
        }
    }
    false
}

// ---------------------------------------------------------------------------
// Laws
// ---------------------------------------------------------------------------

/// Nothing but whitespace.
pub open spec fn blank(s: Seq<char>) -> bool {
    forall|i: int| 0 <= i < s.len() ==> space(#[trigger] s[i])
}

/// Whitespace around a text is trimmed off, and no more; whitespace alone leaves nothing.
pub proof fn law_trim_leaves_the_text(a: Seq<char>, s: Seq<char>, b: Seq<char>)
    requires
        blank(a),
        blank(b),
        s.len() > 0 ==> !space(s[0]) && !space(s.last()),
    ensures
        trim(a + s + b) == s,
{
    let whole = a + s + b;
    if s.len() == 0 {
        assert forall|i: int| 0 <= i < whole.len() implies spaces()(#[trigger] whole[i]) by {
            if i < a.len() {
                assert(whole[i] == a[i]);
            } else {
                assert(whole[i] == b[i - a.len()]);
            }
        }
        lemma_span(whole, spaces(), whole.len());
        assert(trim(whole) =~= s);
    } else {
        assert forall|i: int| 0 <= i < a.len() implies spaces()(#[trigger] whole[i]) by {
            assert(whole[i] == a[i]);
        }
        assert(whole[a.len() as int] == s[0]);
        lemma_span(whole, spaces(), a.len());
        let t = whole.skip(a.len() as int);
        assert(t =~= s + b);
        assert forall|i: int| t.len() - b.len() <= i < t.len() implies spaces()(
            #[trigger] t[i],
        ) by {
            assert(t[i] == b[i - s.len()]);
        }
        assert(t[t.len() - b.len() - 1] == s.last());
        lemma_back_span(t, spaces(), b.len());
        assert(trim(whole) =~= s);
    }
}

/// Text between whitespace is what is kept; where there is none, nothing is.
pub proof fn law_text_between_whitespace_is_kept(a: Seq<char>, s: Seq<char>, b: Seq<char>)
    requires
        blank(a),
        blank(b),
        s.len() > 0 ==> !space(s[0]) && !space(s.last()),
    ensures
        s.len() > 0 ==> trimmed_text(a + s + b) == Some(s),
        s.len() == 0 ==> trimmed_text(a + s + b) is None,
{
    law_trim_leaves_the_text(a, s, b);
}

} // verus!
