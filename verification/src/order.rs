//! The order of strings: by code point, first difference decides, a prefix comes first.

use vstd::prelude::*;
use vstd::std_specs::iter::IteratorSpec;

verus! {

/// Whether `a` stands strictly before `b`.
pub open spec fn before(a: Seq<char>, b: Seq<char>) -> bool
    decreases a.len(),
{
    if b.len() == 0 {
        false
    } else if a.len() == 0 {
        true
    } else if a[0] == b[0] {
        before(a.skip(1), b.skip(1))
    } else {
        a[0] < b[0]
    }
}

/// Nothing stands before itself, and not both of two strings stand before the other.
pub proof fn lemma_before_asymmetric(a: Seq<char>, b: Seq<char>)
    ensures
        !before(a, a),
        before(a, b) ==> !before(b, a),
    decreases a.len(),
{
    if a.len() > 0 {
        lemma_before_asymmetric(a.skip(1), b.skip(1));
    }
}

/// The order is transitive.
pub proof fn lemma_before_transitive(a: Seq<char>, b: Seq<char>, c: Seq<char>)
    requires
        before(a, b),
        before(b, c),
    ensures
        before(a, c),
    decreases a.len(),
{
    if a.len() > 0 && a[0] == b[0] && b[0] == c[0] {
        lemma_before_transitive(a.skip(1), b.skip(1), c.skip(1));
    }
}

/// Of two different strings one stands before the other.
pub proof fn lemma_before_total(a: Seq<char>, b: Seq<char>)
    ensures
        a == b || before(a, b) || before(b, a),
    decreases a.len(),
{
    if a.len() == 0 {
        if b.len() == 0 {
            assert(a =~= b);
        }
    } else if b.len() > 0 && a[0] == b[0] {
        lemma_before_total(a.skip(1), b.skip(1));
        if a.skip(1) == b.skip(1) {
            assert forall|i: int| 0 <= i < a.len() implies a[i] == b[i] by {
                if i > 0 {
                    assert(a[i] == a.skip(1)[i - 1]);
                    assert(b[i] == b.skip(1)[i - 1]);
                }
            }
            assert(a.skip(1).len() == b.skip(1).len());
            assert(a =~= b);
        }
    }
}

/// Whether `a` stands strictly before `b`.
pub fn is_before(a: &str, b: &str) -> (r: bool)
    ensures
        r == before(a@, b@),
{
    let mut x = a.chars();
    let mut y = b.chars();
    loop
        invariant
            before(a@, b@) == before(x.remaining(), y.remaining()),
            x.obeys_prophetic_iter_laws(),
            y.obeys_prophetic_iter_laws(),
            x.decrease() is Some,
        decreases x.decrease()->0,
    {
        let ghost xs = x.remaining();
        let ghost ys = y.remaining();
        match (x.next(), y.next()) {
            (Some(c), Some(d)) => {
                assert(xs.skip(1) =~= xs.drop_first());
                assert(ys.skip(1) =~= ys.drop_first());
                if c != d {
                    return c < d;
                }
            },
            (None, Some(_)) => {
                return true;
            },
            (_, None) => {
                return false;
            },
        }
    }
}

/// The first difference decides: behind a common start, the string goes first whose next
/// character has the smaller code point, whatever follows. A string goes before every
/// longer one that starts with it.
pub proof fn law_first_difference_decides(
    start: Seq<char>,
    c: char,
    d: char,
    x: Seq<char>,
    y: Seq<char>,
)
    ensures
        before(start, start + seq![c] + x),
        c < d ==> before(start + seq![c] + x, start + seq![d] + y),
        c < d ==> !before(start + seq![d] + y, start + seq![c] + x),
    decreases start.len(),
{
    let s = start + seq![c] + x;
    let t = start + seq![d] + y;
    if start.len() > 0 {
        law_first_difference_decides(start.skip(1), c, d, x, y);
        assert(s.skip(1) =~= start.skip(1) + seq![c] + x);
        assert(t.skip(1) =~= start.skip(1) + seq![d] + y);
        assert(s[0] == start[0] && t[0] == start[0]);
    } else {
        assert(s[0] == c && t[0] == d);
    }
}

} // verus!
