//! Taking text apart: fields between single spaces, words, lines.

use vstd::prelude::*;
use crate::text::{ascii_space, ascii_spaces, find, ink, is_ascii_space, position, span};
use crate::text::{lemma_span, lemma_span_holds};

verus! {

/// The pieces of `s` between single spaces, at most `n` of them: the last piece
/// holds whatever follows.
pub open spec fn fields(s: Seq<char>, n: nat) -> Seq<Seq<char>>
    decreases n,
{
    if n == 0 {
        Seq::empty()
    } else {
        match position(s, ' ') {
            Some(i) if n > 1 => seq![s.take(i)] + fields(s.skip(i + 1), (n - 1) as nat),
            _ => seq![s],
        }
    }
}

/// The maximal runs of `s` that hold no ASCII whitespace.
pub open spec fn words(s: Seq<char>) -> Seq<Seq<char>>
    decreases s.len(),
{
    let t = s.skip(span(s, ascii_spaces()) as int);
    let n = span(t, ink()) as int;
    if n == 0 {
        Seq::empty()
    } else {
        proof {
            lemma_span_holds(s, ascii_spaces());
            lemma_span_holds(t, ink());
        }
        seq![t.take(n)] + words(t.skip(n))
    }
}

/// The lines of `s`, without the line feed that ends each and a carriage return
/// right before that; what follows the last line feed is a line if it is not empty.
pub open spec fn lines(s: Seq<char>) -> Seq<Seq<char>>
    decreases s.len(),
{
    if s.len() == 0 {
        Seq::empty()
    } else {
        match position(s, '\n') {
            Some(i) => seq![chomp(s.take(i))] + lines(s.skip(i + 1)),
            _ => seq![s],
        }
    }
}

/// `s` without one carriage return at its end.
pub open spec fn chomp(s: Seq<char>) -> Seq<char> {
    if s.len() > 0 && s.last() == '\r' {
        s.drop_last()
    } else {
        s
    }
}

/// What a list of text slices holds.
pub open spec fn texts(v: Seq<&[char]>) -> Seq<Seq<char>> {
    v.map_values(|x: &[char]| x@)
}

/// The pieces of `s` between single spaces, at most `n` of them.
pub fn split_fields<'a>(s: &'a [char], n: usize) -> (r: Vec<&'a [char]>)
    requires
        n > 0,
    ensures
        texts(r@) == fields(s@, n as nat),
{
    let mut r: Vec<&'a [char]> = Vec::new();
    let mut rest: &'a [char] = s;
    let mut left: usize = n;
    while left > 1
        invariant
            1 <= left,
            texts(r@) + fields(rest@, left as nat) == fields(s@, n as nat),
        decreases left,
    {
        match find(rest, ' ') {
            Some(i) => {
                let ghost before = rest@;
                let ghost got = texts(r@);
                let end: usize = rest.len();
                let piece = &rest[0..i];
                r.push(piece);
                rest = &rest[i + 1..end];
                proof {
                    assert(texts(r@) =~= got.push(before.take(i as int)));
                    assert(rest@ =~= before.skip(i + 1));
                    assert(piece@ =~= before.take(i as int));
                    assert(fields(before, left as nat) == seq![before.take(i as int)] + fields(
                        rest@,
                        (left - 1) as nat,
                    ));
                    assert(texts(r@) + fields(rest@, (left - 1) as nat) =~= got + fields(
                        before,
                        left as nat,
                    ));
                }
                left -= 1;
            },
            None => {
                let ghost got = texts(r@);
                r.push(rest);
                proof {
                    assert(texts(r@) =~= got + seq![rest@]);
                }
                return r;
            },
        }
    }
    let ghost got = texts(r@);
    r.push(rest);
    proof {
        assert(texts(r@) =~= got + seq![rest@]);
    }
    r
}

/// The words of `s`.
pub fn split_words<'a>(s: &'a [char]) -> (r: Vec<&'a [char]>)
    ensures
        texts(r@) == words(s@),
{
    let mut r: Vec<&'a [char]> = Vec::new();
    let mut rest: &'a [char] = s;
    assert(texts(r@) + words(rest@) =~= words(s@));
    loop
        invariant
            texts(r@) + words(rest@) == words(s@),
        ensures
            texts(r@) == words(s@),
        decreases rest@.len(),
    {
        let ghost before = rest@;
        let mut a: usize = 0;
        while a < rest.len() && is_ascii_space(rest[a])
            invariant
                a <= rest@.len(),
                forall|j: int| 0 <= j < a ==> ascii_space(#[trigger] rest@[j]),
            decreases rest@.len() - a,
        {
            a += 1;
        }
        proof {
            lemma_span(rest@, ascii_spaces(), a as nat);
        }
        let mut b: usize = a;
        while b < rest.len() && !is_ascii_space(rest[b])
            invariant
                a <= b <= rest@.len(),
                forall|j: int| a <= j < b ==> !ascii_space(#[trigger] rest@[j]),
            decreases rest@.len() - b,
        {
            b += 1;
        }
        let ghost t = before.skip(a as int);
        proof {
            assert forall|i: int| 0 <= i < b - a implies ink()(#[trigger] t[i]) by {
                assert(t[i] == rest@[a + i]);
            }
            lemma_span(t, ink(), (b - a) as nat);
        }
        if a == b {
            assert(words(rest@) =~= Seq::empty());
            assert(texts(r@) =~= words(s@));
            break;
        }
        let ghost got = texts(r@);
        let piece = &rest[a..b];
        r.push(piece);
        rest = &rest[b..rest.len()];
        proof {
            assert(piece@ =~= t.take(b - a));
            assert(rest@ =~= t.skip(b - a));
            assert(texts(r@) =~= got.push(t.take(b - a)));
            assert(words(before) == seq![t.take(b - a)] + words(rest@));
            assert(texts(r@) + words(rest@) =~= got + words(before));
        }
    }
    r
}

/// The lines of `s`.
pub fn split_lines<'a>(s: &'a [char]) -> (r: Vec<&'a [char]>)
    ensures
        texts(r@) == lines(s@),
{
    let mut r: Vec<&'a [char]> = Vec::new();
    let mut rest: &'a [char] = s;
    assert(texts(r@) + lines(rest@) =~= lines(s@));
    while rest.len() > 0
        invariant
            texts(r@) + lines(rest@) == lines(s@),
        decreases rest@.len(),
    {
        let ghost before = rest@;
        let ghost got = texts(r@);
        match find(rest, '\n') {
            Some(i) => {
                let piece = &rest[0..i];
                assert(piece@ =~= before.take(i as int));
                let line = if piece.len() > 0 && piece[piece.len() - 1] == '\r' {
                    &piece[0..piece.len() - 1]
                } else {
                    piece
                };
                assert(line@ =~= chomp(before.take(i as int)));
                r.push(line);
                rest = &rest[i + 1..rest.len()];
                proof {
                    assert(rest@ =~= before.skip(i + 1));
                    assert(texts(r@) =~= got.push(line@));
                    assert(lines(before) == seq![line@] + lines(rest@));
                    assert(texts(r@) + lines(rest@) =~= got + lines(before));
                }
            },
            None => {
                r.push(rest);
                rest = &rest[0..0];
                proof {
                    assert(texts(r@) =~= got.push(before));
                    assert(lines(before) == seq![before]);
                    assert(lines(rest@) =~= Seq::empty());
                    assert(texts(r@) + lines(rest@) =~= got + lines(before));
                }
            },
        }
    }
    assert(texts(r@) =~= lines(s@));
    r
}

// ---------------------------------------------------------------------------
// Laws
// ---------------------------------------------------------------------------

/// Lines of text, each with a line feed behind it.
pub open spec fn lined(rows: Seq<Seq<char>>) -> Seq<char>
    decreases rows.len(),
{
    if rows.len() == 0 {
        Seq::empty()
    } else {
        rows[0] + seq!['\n'] + lined(rows.skip(1))
    }
}

/// A text of one line: it holds no line feed, and no carriage return stands at its end.
pub open spec fn one_line(s: Seq<char>) -> bool {
    &&& forall|i: int| 0 <= i < s.len() ==> #[trigger] s[i] != '\n'
    &&& s.len() > 0 ==> s.last() != '\r'
}

/// Lines of text read back, and so do they where a carriage return stands before a line
/// feed, or where the last line has no line feed.
pub proof fn law_lines_read_back(rows: Seq<Seq<char>>, last: Seq<char>)
    requires
        forall|i: int| 0 <= i < rows.len() ==> one_line(#[trigger] rows[i]),
        one_line(last),
    ensures
        lines(lined(rows)) == rows,
        last.len() > 0 ==> lines(lined(rows) + last) == rows.push(last),
        lines(last + seq!['\r', '\n'] + lined(rows)) == seq![last] + rows,
    decreases rows.len(),
{
    if rows.len() == 0 {
        assert(lines(lined(rows)) =~= rows);
        assert(lined(rows) + last =~= last);
        if last.len() > 0 {
            lemma_no_line_feed(last);
            assert(lines(last) =~= rows.push(last));
        }
    } else {
        let rest = rows.skip(1);
        assert forall|i: int| 0 <= i < rest.len() implies one_line(#[trigger] rest[i]) by {
            assert(rest[i] == rows[i + 1]);
        }
        law_lines_read_back(rest, last);
        assert(one_line(rows[0]));
        lemma_first_line(rows[0], Seq::empty(), lined(rest));
        assert(rows[0] + Seq::<char>::empty() + seq!['\n'] + lined(rest) =~= lined(rows));
        assert(seq![rows[0]] + rest =~= rows);
        if last.len() > 0 {
            lemma_first_line(rows[0], Seq::empty(), lined(rest) + last);
            assert(rows[0] + Seq::<char>::empty() + seq!['\n'] + (lined(rest) + last) =~= lined(rows)
                + last);
            assert(seq![rows[0]] + rest.push(last) =~= rows.push(last));
        }
    }
    lemma_first_line(last, seq!['\r'], lined(rows));
    assert(last + seq!['\r'] + seq!['\n'] + lined(rows) =~= last + seq!['\r', '\n'] + lined(rows));
}

/// A line in front of others, with nothing or a carriage return before its line feed.
proof fn lemma_first_line(row: Seq<char>, end: Seq<char>, rest: Seq<char>)
    requires
        one_line(row),
        end.len() == 0 || end == seq!['\r'],
    ensures
        lines(row + end + seq!['\n'] + rest) == seq![row] + lines(rest),
{
    let s = row + end + seq!['\n'] + rest;
    let n = row.len() + end.len();
    assert forall|i: int| 0 <= i < n implies crate::text::other_than('\n')(#[trigger] s[i]) by {
        if i < row.len() {
            assert(s[i] == row[i]);
        }
    }
    assert(s[n as int] == '\n');
    lemma_span(s, crate::text::other_than('\n'), n);
    assert(s.take(n as int) =~= row + end);
    assert(s.skip(n as int + 1) =~= rest);
    if end.len() == 0 {
        assert(row + end =~= row);
    } else {
        assert((row + end).drop_last() =~= row);
    }
}

/// A text without a line feed is one line.
proof fn lemma_no_line_feed(s: Seq<char>)
    requires
        one_line(s),
    ensures
        position(s, '\n') is None,
{
    lemma_span_holds(s, crate::text::other_than('\n'));
    let n = span(s, crate::text::other_than('\n'));
    if n < s.len() {
        assert(s[n as int] == '\n');
    }
}

} // verus!
