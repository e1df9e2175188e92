//! Cutting a list into pieces of a fixed length.

use vstd::prelude::*;

verus! {

/// The pieces of `s`, in order: each holds `n` items, but for the last, which holds
/// what is left.
pub open spec fn chunks<T>(s: Seq<T>, n: nat) -> Seq<Seq<T>>
    decreases s.len(),
{
    if s.len() == 0 || n == 0 {
        Seq::empty()
    } else if s.len() <= n {
        seq![s]
    } else {
        seq![s.take(n as int)] + chunks(s.skip(n as int), n)
    }
}

/// The contents of a list of lists.
pub open spec fn contents<T>(v: Seq<Vec<T>>) -> Seq<Seq<T>> {
    v.map_values(|c: Vec<T>| c@)
}

/// The pieces of `v`, in order.
pub fn split_chunks<T>(v: Vec<T>, n: usize) -> (r: Vec<Vec<T>>)
    requires
        n > 0 || v@.len() == 0,
    ensures
        contents(r@) == chunks(v@, n as nat),
{
    let mut r: Vec<Vec<T>> = Vec::new();
    let mut rest: Vec<T> = v;
    assert(contents(r@) + chunks(rest@, n as nat) =~= chunks(v@, n as nat));
    while rest.len() > 0
        invariant
            n > 0 || rest@.len() == 0,
            contents(r@) + chunks(rest@, n as nat) == chunks(v@, n as nat),
        decreases rest@.len(),
    {
        let ghost before = rest@;
        let ghost got = contents(r@);
        let tail: Vec<T> = if rest.len() > n {
            rest.split_off(n)
        } else {
            Vec::new()
        };
        proof {
            assert(rest@ =~= if before.len() > n { before.take(n as int) } else { before });
            assert(before.len() > n ==> tail@ =~= before.skip(n as int));
        }
        let ghost piece = rest@;
        r.push(rest);
        rest = tail;
        proof {
            assert(contents(r@) =~= got.push(piece));
            assert(chunks(before, n as nat) =~= seq![piece] + chunks(rest@, n as nat));
            assert(contents(r@) + chunks(rest@, n as nat) =~= got + chunks(before, n as nat));
        }
    }
    assert(contents(r@) =~= chunks(v@, n as nat));
    r
}

/// Put together again in order, the pieces are the list.
pub proof fn law_chunks_keep_everything<T>(s: Seq<T>, n: nat)
    requires
        n > 0,
    ensures
        chunks(s, n).flatten() == s,
    decreases s.len(),
{
    let c = chunks(s, n);
    if s.len() == 0 {
        assert(c.flatten() =~= s);
    } else if s.len() <= n {
        assert(c.drop_first() =~= Seq::empty());
        assert(c.drop_first().flatten() =~= Seq::empty());
        assert(c.flatten() =~= s);
    } else {
        law_chunks_keep_everything(s.skip(n as int), n);
        assert(c.drop_first() =~= chunks(s.skip(n as int), n));
        assert(c.flatten() =~= s);
    }
}

/// No piece is empty or longer than `n`; all but the last hold exactly `n` items; and
/// there are as many as it takes.
pub proof fn law_chunk_lengths<T>(s: Seq<T>, n: nat)
    requires
        n > 0,
    ensures
        forall|i: int|
            0 <= i < chunks(s, n).len() ==> 0 < (#[trigger] chunks(s, n)[i]).len() <= n,
        forall|i: int| 0 <= i < chunks(s, n).len() - 1 ==> (#[trigger] chunks(s, n)[i]).len() == n,
        chunks(s, n).len() == (s.len() + n - 1) / n as int,
    decreases s.len(),
{
    let c = chunks(s, n);
    if s.len() == 0 {
        assert((n - 1) / n as int == 0) by (nonlinear_arith)
            requires
                n > 0,
        ;
    } else if s.len() <= n {
        assert((s.len() + n - 1) / n as int == 1) by (nonlinear_arith)
            requires
                0 < s.len() <= n,
        ;
    } else {
        let rest = s.skip(n as int);
        law_chunk_lengths(rest, n);
        assert forall|i: int| 0 <= i < c.len() implies 0 < (#[trigger] c[i]).len() <= n by {
            if i > 0 {
                assert(c[i] == chunks(rest, n)[i - 1]);
            }
        }
        assert forall|i: int| 0 <= i < c.len() - 1 implies (#[trigger] c[i]).len() == n by {
            if i > 0 {
                assert(c[i] == chunks(rest, n)[i - 1]);
            }
        }
        assert((s.len() + n - 1) / n as int == (rest.len() + n - 1) / n as int + 1)
            by (nonlinear_arith)
            requires
                n > 0,
                rest.len() == s.len() - n,
        ;
    }
}

/// The piece at `i` is the stretch of the list from `i * n` on, `n` items long or as far
/// as the list goes.
pub proof fn law_piece_is_a_stretch<T>(s: Seq<T>, n: nat, i: int)
    requires
        n > 0,
        0 <= i < chunks(s, n).len(),
    ensures
        0 <= i * n < s.len(),
        chunks(s, n)[i] == s.subrange(
            i * n,
            if i * n + n <= s.len() {
                i * n + n
            } else {
                s.len() as int
            },
        ),
    decreases s.len(),
{
    if s.len() <= n {
        assert(i == 0);
        assert(s.subrange(0, s.len() as int) =~= s);
    } else if i == 0 {
        assert(s.take(n as int) =~= s.subrange(0, n as int));
    } else {
        let rest = s.skip(n as int);
        law_piece_is_a_stretch(rest, n, i - 1);
        assert((i - 1) * n + n == i * n) by (nonlinear_arith);
        assert(chunks(s, n)[i] == chunks(rest, n)[i - 1]);
        let to = if i * n + n <= s.len() {
            i * n + n
        } else {
            s.len() as int
        };
        assert(rest.subrange((i - 1) * n, to - n) =~= s.subrange(i * n, to));
    }
}

} // verus!
