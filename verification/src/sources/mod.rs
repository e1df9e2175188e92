//! Log sources, and what they share: taking terminal escape sequences out of text.

pub mod crashdump;
pub mod crashdump_laws;
pub mod journald;
pub mod line_laws;
pub mod syslog;
pub mod syslog_laws;
pub mod tail;

use vstd::prelude::*;
use crate::text::{is_letter, lemma_span, letter, span, to_chars};

verus! {

/// The escape character.
pub const ESC: char = '\u{1b}';

/// How many characters at the start of `s` introduce an escape sequence: one for
/// the escape character itself, four for `#033`, which is how rsyslog writes it.
pub open spec fn escape_len(s: Seq<char>) -> int {
    if s.len() > 0 && s[0] == ESC {
        1
    } else if s.len() >= 4 && s[0] == '#' && s[1] == '0' && s[2] == '3' && s[3] == '3' {
        4
    } else {
        0
    }
}

/// The predicate "is not a letter".
pub open spec fn not_letters() -> spec_fn(char) -> bool {
    |c: char| !letter(c)
}

/// What is left of `s` once the rest of an escape sequence is taken off its front:
/// `[`, parameters and a letter, or any other single character.
pub open spec fn after_escape(s: Seq<char>) -> Seq<char> {
    if s.len() == 0 {
        s
    } else if s[0] == '[' {
        let n = span(s.skip(1), not_letters()) as int;
        if n + 1 < s.len() {
            s.skip(n + 2)
        } else {
            Seq::empty()
        }
    } else {
        s.skip(1)
    }
}

/// `s` without its escape sequences.
pub open spec fn strip(s: Seq<char>) -> Seq<char>
    decreases s.len(),
{
    if s.len() == 0 {
        s
    } else if escape_len(s) > 0 {
        strip(after_escape(s.skip(escape_len(s))))
    } else {
        seq![s[0]] + strip(s.skip(1))
    }
}

/// Takes the ANSI / VT100 escape sequences out of `s`.
///
/// An escape is the escape character or the text `#033`. What follows it is a
/// sequence `[`, parameters, letter, or any other single character.
pub fn strip_ansi(s: &str) -> (r: String)
    ensures
        r@ == strip(s@),
{
    let chars = to_chars(s);
    let b = chars.as_slice();
    let mut out = String::new();
    let mut i: usize = 0;
    proof {
        assert(b@.skip(0) =~= s@);
        assert(Seq::<char>::empty() + strip(s@) =~= strip(s@));
    }
    while i < b.len()
        invariant
            b@ == s@,
            i <= b@.len(),
            strip(s@) == out@ + strip(b@.skip(i as int)),
        decreases b@.len() - i,
    {
        let ghost rest = b@.skip(i as int);
        let len: usize = if b[i] == ESC {
            1
        } else if b.len() - i >= 4 && b[i] == '#' && b[i + 1] == '0' && b[i + 2] == '3' && b[i + 3]
            == '3' {
            4
        } else {
            0
        };
        assert(len == escape_len(rest));
        if len > 0 {
            assert(rest.skip(len as int) =~= b@.skip(i + len));
            i = skip_after_esc(b, i + len);
        } else {
            let ghost had = out@;
            out.push(b[i]);
            proof {
                assert(rest.skip(1) =~= b@.skip(i + 1));
                let t = strip(rest.skip(1));
                assert(had + (seq![rest[0]] + t) =~= had.push(rest[0]) + t);
            }
            i += 1;
        }
    }
    proof {
        assert(b@.skip(i as int) =~= Seq::empty());
        assert(out@ + Seq::<char>::empty() =~= out@);
    }
    out
}

/// Where the escape sequence ends whose introducer ends at `i`.
fn skip_after_esc(b: &[char], i: usize) -> (j: usize)
    requires
        i <= b@.len(),
    ensures
        i <= j <= b@.len(),
        after_escape(b@.skip(i as int)) == b@.skip(j as int),
{
    let ghost rest = b@.skip(i as int);
    if i == b.len() {
        return i;
    }
    if b[i] == '[' {
        let mut j: usize = i + 1;
        while j < b.len() && !is_letter(b[j])
            invariant
                i < j <= b@.len(),
                forall|k: int| i < k < j ==> !letter(#[trigger] b@[k]),
            decreases b@.len() - j,
        {
            j += 1;
        }
        proof {
            let t = rest.skip(1);
            assert forall|k: int| 0 <= k < j - i - 1 implies not_letters()(#[trigger] t[k]) by {
                assert(t[k] == b@[i + 1 + k]);
            }
            if j < b@.len() {
                assert(t[j - i - 1] == b@[j as int]);
            }
            lemma_span(t, not_letters(), (j - i - 1) as nat);
        }
        if j < b.len() {
            assert(rest.skip(j - i - 1 + 2) =~= b@.skip(j + 1));
            j + 1
        } else {
            assert(b@.skip(j as int) =~= Seq::empty());
            j
        }
    } else {
        assert(rest.skip(1) =~= b@.skip(i + 1));
        i + 1
    }
}

// ---------------------------------------------------------------------------
// Laws
// ---------------------------------------------------------------------------

/// No escape character survives.
pub proof fn law_no_escape_survives(s: Seq<char>)
    ensures
        !strip(s).contains(ESC),
    decreases s.len(),
{
    if s.len() > 0 {
        if escape_len(s) > 0 {
            law_no_escape_survives(after_escape(s.skip(escape_len(s))));
        } else {
            let t = strip(s.skip(1));
            law_no_escape_survives(s.skip(1));
            assert forall|i: int| 0 <= i < strip(s).len() implies strip(s)[i] != ESC by {
                if i > 0 {
                    assert(strip(s)[i] == t[i - 1]);
                    assert(t.contains(t[i - 1]));
                }
            }
        }
    }
}

/// `at` are places in `s`, in ascending order, where the characters of `part` stand.
pub open spec fn picks(s: Seq<char>, at: Seq<int>, part: Seq<char>) -> bool {
    &&& at.len() == part.len()
    &&& forall|i: int| 0 <= i < at.len() ==> 0 <= #[trigger] at[i] < s.len() && s[at[i]] == part[i]
    &&& forall|i: int, j: int| 0 <= i < j < at.len() ==> #[trigger] at[i] < #[trigger] at[j]
}

/// `part` is `s` with some characters left out.
pub open spec fn subsequence(part: Seq<char>, s: Seq<char>) -> bool {
    exists|at: Seq<int>| picks(s, at, part)
}

/// Nothing is added, changed or moved: what is left is the text with some characters
/// left out.
pub proof fn law_rest_of_the_text_is_kept(s: Seq<char>)
    ensures
        subsequence(strip(s), s),
    decreases s.len(),
{
    if s.len() == 0 {
        assert(picks(s, Seq::empty(), s));
    } else if escape_len(s) > 0 {
        let t = s.skip(escape_len(s));
        let rest = after_escape(t);
        law_rest_of_the_text_is_kept(rest);
        let k = s.len() - rest.len();
        assert(rest =~= s.skip(k));
        let at = choose|at: Seq<int>| picks(rest, at, strip(rest));
        lemma_picks_further_on(s, k, at, strip(rest));
    } else {
        let rest = s.skip(1);
        law_rest_of_the_text_is_kept(rest);
        let at = choose|at: Seq<int>| picks(rest, at, strip(rest));
        let moved = at.map_values(|i: int| i + 1);
        lemma_picks_further_on(s, 1, at, strip(rest));
        let all = seq![0int] + moved;
        assert forall|i: int| 0 <= i < all.len() implies 0 <= #[trigger] all[i] < s.len() && s[all[i]]
            == strip(s)[i] by {
            if i > 0 {
                assert(all[i] == moved[i - 1]);
                assert(strip(s)[i] == strip(rest)[i - 1]);
            }
        }
        assert forall|i: int, j: int| 0 <= i < j < all.len() implies #[trigger] all[i]
            < #[trigger] all[j] by {
            assert(all[j] == moved[j - 1]);
            assert(at[j - 1] >= 0);
            if i > 0 {
                assert(all[i] == moved[i - 1]);
            }
        }
        assert(picks(s, all, strip(s)));
    }
}

/// What stands in the rest of a text stands in the text, further on.
proof fn lemma_picks_further_on(s: Seq<char>, k: int, at: Seq<int>, part: Seq<char>)
    requires
        0 <= k <= s.len(),
        picks(s.skip(k), at, part),
    ensures
        picks(s, at.map_values(|i: int| i + k), part),
{
    let moved = at.map_values(|i: int| i + k);
    assert forall|i: int| 0 <= i < moved.len() implies 0 <= #[trigger] moved[i] < s.len() && s[moved[i]]
        == part[i] by {
        assert(moved[i] == at[i] + k);
        assert(s.skip(k)[at[i]] == s[at[i] + k]);
    }
    assert forall|i: int, j: int| 0 <= i < j < moved.len() implies #[trigger] moved[i]
        < #[trigger] moved[j] by {
        assert(at[i] < at[j]);
    }
}

/// Text without an escape in either form stays as it is.
pub proof fn law_plain_text_is_kept(s: Seq<char>)
    requires
        forall|i: int| 0 <= i < s.len() ==> escape_len(#[trigger] s.skip(i)) == 0,
    ensures
        strip(s) == s,
    decreases s.len(),
{
    if s.len() > 0 {
        let t = s.skip(1);
        assert(s.skip(0) =~= s);
        assert forall|i: int| 0 <= i < t.len() implies escape_len(#[trigger] t.skip(i)) == 0 by {
            assert(t.skip(i) =~= s.skip(i + 1));
        }
        law_plain_text_is_kept(t);
        assert(seq![s[0]] + t =~= s);
    }
}

/// Text in front of an escape stays as it is, whatever follows.
pub proof fn law_text_before_an_escape_is_kept(text: Seq<char>, rest: Seq<char>)
    requires
        forall|i: int| 0 <= i < text.len() ==> escape_len(#[trigger] (text + rest).skip(i)) == 0,
    ensures
        strip(text + rest) == text + strip(rest),
    decreases text.len(),
{
    let s = text + rest;
    if text.len() == 0 {
        assert(s =~= rest);
        assert(text + strip(rest) =~= strip(rest));
    } else {
        let t = text.skip(1);
        assert(s.skip(0) =~= s);
        assert(s.skip(1) =~= t + rest);
        assert forall|i: int| 0 <= i < t.len() implies escape_len(#[trigger] (t + rest).skip(i))
            == 0 by {
            assert((t + rest).skip(i) =~= s.skip(i + 1));
        }
        law_text_before_an_escape_is_kept(t, rest);
        assert(seq![s[0]] + (t + strip(rest)) =~= text + strip(rest));
    }
}

/// A control sequence (introducer, `[`, parameters, letter) vanishes, whatever follows it.
pub proof fn law_control_sequence_vanishes(
    intro: Seq<char>,
    params: Seq<char>,
    last: char,
    rest: Seq<char>,
)
    requires
        intro == seq![ESC] || intro == seq!['#', '0', '3', '3'],
        forall|i: int| 0 <= i < params.len() ==> !letter(#[trigger] params[i]),
        letter(last),
    ensures
        strip(intro + seq!['['] + params + seq![last] + rest) == strip(rest),
{
    let s = intro + seq!['['] + params + seq![last] + rest;
    assert(escape_len(s) == intro.len());
    let t = s.skip(intro.len() as int);
    assert(t =~= seq!['['] + params + seq![last] + rest);
    let u = t.skip(1);
    assert(u =~= params + seq![last] + rest);
    assert forall|i: int| 0 <= i < params.len() implies not_letters()(#[trigger] u[i]) by {
        assert(u[i] == params[i]);
    }
    lemma_span(u, not_letters(), params.len());
    assert(t.skip(params.len() as int + 2) =~= rest);
}

/// An introducer and the character behind it (other than `[`) vanish, whatever follows.
pub proof fn law_short_sequence_vanishes(intro: Seq<char>, c: char, rest: Seq<char>)
    requires
        intro == seq![ESC] || intro == seq!['#', '0', '3', '3'],
        c != '[',
    ensures
        strip(intro + seq![c] + rest) == strip(rest),
{
    let s = intro + seq![c] + rest;
    assert(escape_len(s) == intro.len());
    let t = s.skip(intro.len() as int);
    assert(t =~= seq![c] + rest);
    assert(t.skip(1) =~= rest);
}

/// The text `#033` stands in `s` at `i`.
pub open spec fn written_escape(s: Seq<char>, i: int) -> bool {
    i + 4 <= s.len() && s[i] == '#' && s[i + 1] == '0' && s[i + 2] == '3' && s[i + 3] == '3'
}

/// There is neither the character U+001B in a text nor `#033`.
pub open spec fn no_escape(s: Seq<char>) -> bool {
    &&& forall|i: int| 0 <= i < s.len() ==> #[trigger] s[i] != '\u{1b}'
    &&& forall|i: int| 0 <= i < s.len() ==> !#[trigger] written_escape(s, i)
}

/// Text without the character U+001B and without `#033` stays as it is.
pub proof fn law_text_without_escapes_stays(s: Seq<char>)
    requires
        no_escape(s),
    ensures
        strip(s) == s,
{
    assert forall|i: int| 0 <= i < s.len() implies escape_len(#[trigger] s.skip(i)) == 0 by {
        let t = s.skip(i);
        assert(t[0] == s[i]);
        assert(!written_escape(s, i));
        if t.len() >= 4 {
            assert(t[1] == s[i + 1] && t[2] == s[i + 2] && t[3] == s[i + 3]);
        }
    }
    law_plain_text_is_kept(s);
}

/// Text in front of which no escape starts stays, whatever follows it: none of its characters
/// is U+001B, and at none of them does `#033` stand.
pub proof fn law_text_in_front_stays(text: Seq<char>, rest: Seq<char>)
    requires
        forall|i: int|
            0 <= i < text.len() ==> #[trigger] text[i] != '\u{1b}' && !written_escape(
                text + rest,
                i,
            ),
    ensures
        strip(text + rest) == text + strip(rest),
{
    assert forall|i: int| 0 <= i < text.len() implies escape_len(#[trigger] (text + rest).skip(i))
        == 0 by {
        let t = (text + rest).skip(i);
        assert(t[0] == text[i]);
        assert(!written_escape(text + rest, i));
        if t.len() >= 4 {
            assert(t[1] == (text + rest)[i + 1] && t[2] == (text + rest)[i + 2] && t[3] == (text
                + rest)[i + 3]);
        }
    }
    law_text_before_an_escape_is_kept(text, rest);
}

/// An escape, in either form, vanishes together with what belongs to it, whatever follows:
/// `[`, anything but letters, and a letter; or one character that is not `[`.
pub proof fn law_escape_vanishes_with_its_sequence(
    intro: Seq<char>,
    params: Seq<char>,
    last: char,
    other: char,
    rest: Seq<char>,
)
    requires
        intro == seq!['\u{1b}'] || intro == seq!['#', '0', '3', '3'],
        forall|i: int|
            0 <= i < params.len() ==> !('a' <= #[trigger] params[i] <= 'z') && !('A' <= params[i]
                <= 'Z'),
        'a' <= last <= 'z' || 'A' <= last <= 'Z',
        other != '[',
    ensures
        strip(intro + seq!['['] + params + seq![last] + rest) == strip(rest),
        strip(intro + seq![other] + rest) == strip(rest),
{
    law_control_sequence_vanishes(intro, params, last, rest);
    law_short_sequence_vanishes(intro, other, rest);
}

/// An escape whose sequence is cut off by the end of the text vanishes with what there is
/// of it: the escape alone, or `[` and parameters without a letter.
pub proof fn law_cut_off_sequence_vanishes(intro: Seq<char>, params: Seq<char>)
    requires
        intro == seq!['\u{1b}'] || intro == seq!['#', '0', '3', '3'],
        forall|i: int|
            0 <= i < params.len() ==> !('a' <= #[trigger] params[i] <= 'z') && !('A' <= params[i]
                <= 'Z'),
    ensures
        strip(intro).len() == 0,
        strip(intro + seq!['['] + params).len() == 0,
{
    reveal_with_fuel(strip, 2);
    assert(escape_len(intro) == intro.len());
    assert(intro.skip(intro.len() as int) =~= Seq::empty());
    let s = intro + seq!['['] + params;
    assert(escape_len(s) == intro.len());
    let t = s.skip(intro.len() as int);
    assert(t =~= seq!['['] + params);
    let u = t.skip(1);
    assert(u =~= params);
    assert forall|i: int| 0 <= i < u.len() implies not_letters()(#[trigger] u[i]) by {
        assert(u[i] == params[i]);
    }
    lemma_span(u, not_letters(), u.len());
}

/// A colour or other control sequence vanishes, and the text on both sides of it stays:
/// `[`, parameters that are no letters, and one letter behind an escape in either form.
pub proof fn law_control_sequence_leaves_the_text(
    front: Seq<char>,
    intro: Seq<char>,
    params: Seq<char>,
    last: char,
    back: Seq<char>,
)
    requires
        no_escape(front),
        !front.contains('#'),
        intro == seq!['\u{1b}'] || intro == seq!['#', '0', '3', '3'],
        forall|i: int|
            0 <= i < params.len() ==> !('a' <= #[trigger] params[i] <= 'z') && !('A' <= params[i]
                <= 'Z'),
        'a' <= last <= 'z' || 'A' <= last <= 'Z',
        no_escape(back),
    ensures
        strip(front + (intro + seq!['['] + params + seq![last] + back)) == front + back,
{
    let behind = intro + seq!['['] + params + seq![last] + back;
    assert forall|i: int| 0 <= i < front.len() implies #[trigger] front[i] != '\u{1b}'
        && !written_escape(front + behind, i) by {
        assert(front.contains(front[i]));
        assert((front + behind)[i] == front[i]);
    }
    law_text_in_front_stays(front, behind);
    law_control_sequence_vanishes(intro, params, last, back);
    law_text_without_escapes_stays(back);
}

} // verus!
