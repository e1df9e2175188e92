//! The disk spool: names of chunk files, which to write, send and drop.
//!
//! A chunk file is named by its sequence number, with leading zeros to ten digits,
//! and the ending `.cbor`. Chunks are ordered by their numbers, so the one with the
//! highest number is the newest.

use vstd::prelude::*;
use crate::number::{all_digits, decimal, number, parse_unsigned, zero_padded};
use crate::number::{lemma_decimal, lemma_zero_padded, padded_digits_of, read_unsigned};
use crate::order::{before, is_before};
use crate::order::{lemma_before_asymmetric, lemma_before_total, lemma_before_transitive};
use crate::text::{digit, from_chars, is_digit, same, to_chars};

verus! {

/// The texts of a list of strings.
pub open spec fn names_of(v: Seq<String>) -> Seq<Seq<char>> {
    v.map_values(|s: String| s@)
}

/// What stands before the ending `.cbor` of a file name; a name that is nothing but
/// the ending has none.
pub open spec fn cbor_stem(name: Seq<char>) -> Option<Seq<char>> {
    if name.len() > 5 && name.skip(name.len() - 5) == ".cbor"@ {
        Some(name.take(name.len() - 5))
    } else {
        None
    }
}

/// A chunk file: digits and `.cbor`.
pub open spec fn chunk_file(name: Seq<char>) -> bool {
    match cbor_stem(name) {
        Some(stem) => all_digits(stem),
        None => false,
    }
}

/// The sequence number in the name of a `.cbor` file.
pub open spec fn sequence_of(name: Seq<char>) -> Option<nat> {
    match cbor_stem(name) {
        Some(stem) => parse_unsigned(stem, u64::MAX as nat),
        None => None,
    }
}

/// The highest sequence number among some files; zero if there is none.
pub open spec fn max_sequence(names: Seq<Seq<char>>) -> nat
    decreases names.len(),
{
    if names.len() == 0 {
        0
    } else {
        let rest = max_sequence(names.drop_last());
        match sequence_of(names.last()) {
            Some(n) if n > rest => n,
            _ => rest,
        }
    }
}

/// The name of the chunk with a sequence number.
pub open spec fn chunk_name(n: nat) -> Seq<char> {
    zero_padded(decimal(n), 10) + ".cbor"@
}

/// The number in the name of a chunk file.
pub open spec fn chunk_number(name: Seq<char>) -> nat {
    match cbor_stem(name) {
        Some(stem) => number(stem),
        None => 0,
    }
}

/// The chunk `a` is older than the chunk `b`: its number is lower. Of names that write
/// down the same number, the one that comes first as text counts as older.
pub open spec fn older(a: Seq<char>, b: Seq<char>) -> bool {
    chunk_number(a) < chunk_number(b) || (chunk_number(a) == chunk_number(b) && before(a, b))
}

/// `name` is a chunk among `names`, and it is older than none of them.
pub open spec fn newest(names: Seq<Seq<char>>, name: Seq<char>) -> bool {
    &&& names.contains(name)
    &&& chunk_file(name)
    &&& forall|i: int|
        0 <= i < names.len() && chunk_file(#[trigger] names[i]) ==> !older(name, names[i])
}

/// `name` is a chunk among `names`, and none of them is older.
pub open spec fn oldest(names: Seq<Seq<char>>, name: Seq<char>) -> bool {
    &&& names.contains(name)
    &&& chunk_file(name)
    &&& forall|i: int|
        0 <= i < names.len() && chunk_file(#[trigger] names[i]) ==> !older(names[i], name)
}

/// There is a chunk among `names`.
pub open spec fn any_chunk(names: Seq<Seq<char>>) -> bool {
    exists|i: int| 0 <= i < names.len() && chunk_file(#[trigger] names[i])
}

/// No chunk is older than one that comes behind it.
pub open spec fn descending(names: Seq<Seq<char>>) -> bool {
    forall|i: int, j: int|
        0 <= i < j < names.len() ==> !older(#[trigger] names[i], #[trigger] names[j])
}

/// The predicate [`chunk_file`].
pub open spec fn chunk_files() -> spec_fn(Seq<char>) -> bool {
    |name: Seq<char>| chunk_file(name)
}

/// The sum of some sizes.
pub open spec fn total(sizes: Seq<u64>) -> nat
    decreases sizes.len(),
{
    if sizes.len() == 0 {
        0
    } else {
        total(sizes.drop_last()) + sizes.last() as nat
    }
}

/// The limit of the spool in bytes.
pub open spec fn limit_bytes(max_size_mb: u64) -> int {
    max_size_mb * 1048576
}

/// With another chunk of `new_bytes` the spool would take more than its limit.
pub open spec fn over_limit(sizes: Seq<u64>, new_bytes: u64, max_size_mb: u64) -> bool {
    total(sizes) + new_bytes > limit_bytes(max_size_mb)
}

// ---------------------------------------------------------------------------
// Names
// ---------------------------------------------------------------------------

/// What stands before the ending `.cbor`.
fn stem_of<'a>(name: &'a [char]) -> (r: Option<&'a [char]>)
    ensures
        match r {
            Some(stem) => cbor_stem(name@) == Some(stem@),
            None => cbor_stem(name@) is None,
        },
{
    let len: usize = name.len();
    if len <= 5 {
        return None;
    }
    let ending = &name[len - 5..len];
    assert(ending@ =~= name@.skip(len - 5));
    if same(ending, ".cbor") {
        let stem = &name[0..len - 5];
        assert(stem@ =~= name@.take(len - 5));
        Some(stem)
    } else {
        None
    }
}

/// Whether a file is a spool chunk.
pub fn is_chunk_file(name: &str) -> (b: bool)
    ensures
        b == chunk_file(name@),
{
    let chars = to_chars(name);
    match stem_of(chars.as_slice()) {
        Some(stem) => {
            for i in 0..stem.len()
                invariant
                    cbor_stem(name@) == Some(stem@),
                    forall|j: int| 0 <= j < i ==> digit(#[trigger] stem@[j]),
            {
                if !is_digit(stem[i]) {
                    return false;
                }
            }
            true
        },
        None => false,
    }
}

/// The sequence number in the name of a `.cbor` file.
fn read_sequence(name: &str) -> (r: Option<u64>)
    ensures
        match r {
            Some(n) => sequence_of(name@) == Some(n as nat),
            None => sequence_of(name@) is None,
        },
{
    let chars = to_chars(name);
    match stem_of(chars.as_slice()) {
        Some(stem) => read_unsigned(stem, u64::MAX),
        None => None,
    }
}

/// The highest sequence number among some files; zero if there is none.
pub fn highest_sequence(names: &Vec<String>) -> (n: u64)
    ensures
        n == max_sequence(names_of(names@)),
{
    let mut max: u64 = 0;
    let ghost all = names_of(names@);
    for i in 0..names.len()
        invariant
            all == names_of(names@),
            max == max_sequence(all.take(i as int)),
    {
        proof {
            assert(all.take(i + 1).drop_last() =~= all.take(i as int));
            assert(all.take(i + 1).last() == names@[i as int]@);
        }
        if let Some(n) = read_sequence(names[i].as_str()) {
            if n > max {
                max = n;
            }
        }
    }
    assert(all.take(all.len() as int) =~= all);
    max
}

/// The name for the next chunk beside the files `names`: one above the highest number,
/// so that no name is used again while a chunk with a higher one is still there.
pub fn next_chunk_path(names: &Vec<String>) -> (name: String)
    requires
        max_sequence(names_of(names@)) < u64::MAX,
    ensures
        name@ == chunk_name(max_sequence(names_of(names@)) + 1),
{
    let n: u64 = highest_sequence(names) + 1;
    let mut chars = padded_digits_of(n, 10);
    let mut ending = to_chars(".cbor");
    chars.append(&mut ending);
    from_chars(chars.as_slice())
}

// ---------------------------------------------------------------------------
// Order
// ---------------------------------------------------------------------------

/// The order of chunks is a strict total order.
proof fn lemma_older(a: Seq<char>, b: Seq<char>, c: Seq<char>)
    ensures
        !older(a, a),
        older(a, b) ==> !older(b, a),
        older(a, b) && older(b, c) ==> older(a, c),
        a == b || older(a, b) || older(b, a),
{
    lemma_before_asymmetric(a, b);
    lemma_before_total(a, b);
    if before(a, b) && before(b, c) {
        lemma_before_transitive(a, b, c);
    }
}

/// Of two runs of digits of one length, the one that is smaller at the first place
/// where they differ writes down the smaller number.
proof fn lemma_first_difference(s: Seq<char>, t: Seq<char>, i: int)
    requires
        s.len() == t.len(),
        all_digits(s),
        all_digits(t),
        0 <= i < s.len(),
        s.take(i) == t.take(i),
        s[i] < t[i],
    ensures
        number(s) < number(t),
    decreases s.len(),
{
    let s1 = s.drop_last();
    let t1 = t.drop_last();
    assert(digit(s.last()) && digit(t.last())) by {
        assert(digit(s[s.len() - 1]) && digit(t[t.len() - 1]));
    }
    if i == s.len() - 1 {
        assert(s1 =~= s.take(i));
        assert(t1 =~= t.take(i));
    } else {
        assert(all_digits(s1) && all_digits(t1)) by {
            assert forall|j: int| 0 <= j < s1.len() implies digit(#[trigger] s1[j]) by {
                assert(s1[j] == s[j]);
            }
            assert forall|j: int| 0 <= j < t1.len() implies digit(#[trigger] t1[j]) by {
                assert(t1[j] == t[j]);
            }
        }
        assert(s1.take(i) =~= s.take(i));
        assert(t1.take(i) =~= t.take(i));
        lemma_first_difference(s1, t1, i);
    }
}

/// The digit at `i` of a run of digits that has leading zeros put before it to `width`.
fn padded_at(s: &[char], width: usize, i: usize) -> (c: char)
    requires
        s@.len() <= width,
        i < width,
    ensures
        c == zero_padded(s@, width as nat)[i as int],
{
    let zeros: usize = width - s.len();
    if i < zeros {
        '0'
    } else {
        s[i - zeros]
    }
}

/// How the numbers of two runs of digits compare: below zero, zero, above zero.
fn compare_digits(s: &[char], t: &[char]) -> (r: i8)
    requires
        all_digits(s@),
        all_digits(t@),
    ensures
        r < 0 <==> number(s@) < number(t@),
        r == 0 <==> number(s@) == number(t@),
{
    let width: usize = if s.len() < t.len() {
        t.len()
    } else {
        s.len()
    };
    let ghost a = zero_padded(s@, width as nat);
    let ghost b = zero_padded(t@, width as nat);
    proof {
        lemma_zero_padded(s@, width as nat);
        lemma_zero_padded(t@, width as nat);
    }
    for i in 0..width
        invariant
            s@.len() <= width,
            t@.len() <= width,
            a == zero_padded(s@, width as nat),
            b == zero_padded(t@, width as nat),
            a.len() == width,
            b.len() == width,
            all_digits(a),
            all_digits(b),
            number(a) == number(s@),
            number(b) == number(t@),
            a.take(i as int) == b.take(i as int),
    {
        let c = padded_at(s, width, i);
        let d = padded_at(t, width, i);
        if c < d {
            proof {
                lemma_first_difference(a, b, i as int);
            }
            return -1;
        }
        if d < c {
            proof {
                lemma_first_difference(b, a, i as int);
            }
            return 1;
        }
        assert(a.take(i + 1) =~= a.take(i as int).push(c));
        assert(b.take(i + 1) =~= b.take(i as int).push(d));
    }
    assert(a.take(width as int) =~= a);
    assert(b.take(width as int) =~= b);
    0
}

/// Is the chunk `a` older than the chunk `b`?
fn is_older(a: &str, b: &str) -> (r: bool)
    requires
        chunk_file(a@),
        chunk_file(b@),
    ensures
        r == older(a@, b@),
{
    let x = to_chars(a);
    let y = to_chars(b);
    match (stem_of(x.as_slice()), stem_of(y.as_slice())) {
        (Some(s), Some(t)) => {
            let c: i8 = compare_digits(s, t);
            c < 0 || (c == 0 && is_before(a, b))
        },
        _ => false,
    }
}

/// The chunks among `names`, newest first.
pub fn spool_files_newest_first(names: &Vec<String>) -> (r: Vec<String>)
    ensures
        descending(names_of(r@)),
        names_of(r@).to_multiset() == names_of(names@).filter(chunk_files()).to_multiset(),
{
    let mut r: Vec<String> = Vec::new();
    let ghost all = names_of(names@);
    proof {
        assert(names_of(r@) =~= Seq::empty());
        assert(all.take(0).filter(chunk_files()) =~= Seq::empty()) by {
            reveal(Seq::filter);
        }
    }
    for i in 0..names.len()
        invariant
            all == names_of(names@),
            descending(names_of(r@)),
            forall|j: int| 0 <= j < r@.len() ==> chunk_file((#[trigger] r@[j])@),
            names_of(r@).to_multiset() == all.take(i as int).filter(chunk_files()).to_multiset(),
    {
        proof {
            reveal(Seq::filter);
            assert(all.take(i + 1).drop_last() =~= all.take(i as int));
            assert(all.take(i + 1).last() == names@[i as int]@);
        }
        if is_chunk_file(names[i].as_str()) {
            let ghost old_r = names_of(r@);
            let ghost name = names@[i as int]@;
            let mut at: usize = r.len();
            while at > 0 && is_older(r[at - 1].as_str(), names[i].as_str())
                invariant
                    at <= r@.len(),
                    i < names@.len(),
                    chunk_file(names@[i as int]@),
                    forall|j: int| 0 <= j < r@.len() ==> chunk_file((#[trigger] r@[j])@),
                    old_r == names_of(r@),
                    name == names@[i as int]@,
                    forall|j: int| at <= j < r@.len() ==> older(#[trigger] old_r[j], name),
                decreases at,
            {
                assert(old_r[at - 1] == r@[at - 1]@);
                at -= 1;
            }
            r.insert(at, names[i].clone());
            proof {
                let new_r = names_of(r@);
                assert(new_r =~= old_r.insert(at as int, name));
                vstd::seq_lib::to_multiset_insert(old_r, at as int, name);
                vstd::seq_lib::to_multiset_build(
                    all.take(i as int).filter(chunk_files()),
                    name,
                );
                if at > 0 {
                    assert(old_r[at - 1] == names_of(r@)[at - 1]);
                }
                assert forall|a: int, b: int| 0 <= a < b < new_r.len() implies !older(
                    #[trigger] new_r[a],
                    #[trigger] new_r[b],
                ) by {
                    lemma_insert_descending(old_r, at as int, name, a, b);
                }
            }
        }
    }
    assert(all.take(all.len() as int) =~= all);
    r
}

/// Putting a chunk behind all that are not older keeps the order.
proof fn lemma_insert_descending(s: Seq<Seq<char>>, at: int, name: Seq<char>, a: int, b: int)
    requires
        descending(s),
        0 <= at <= s.len(),
        at > 0 ==> !older(s[at - 1], name),
        forall|j: int| at <= j < s.len() ==> older(#[trigger] s[j], name),
        0 <= a < b <= s.len(),
    ensures
        !older(s.insert(at, name)[a], s.insert(at, name)[b]),
{
    let t = s.insert(at, name);
    if a == at {
        assert(t[b] == s[b - 1]);
        lemma_older(s[b - 1], name, name);
    } else if b == at {
        assert(t[a] == s[a]);
        if a < at - 1 && older(s[a], name) {
            assert(!older(s[a], s[at - 1]));
            lemma_older(s[a], s[at - 1], name);
            lemma_older(s[at - 1], s[a], name);
        }
    } else {
        let a2 = if a < at { a } else { a - 1 };
        let b2 = if b < at { b } else { b - 1 };
        assert(t[a] == s[a2] && t[b] == s[b2]);
    }
}

/// Whether `a` is to be preferred to `b` in the search for the newest or the oldest chunk.
spec fn preferred(want_newest: bool, a: Seq<char>, b: Seq<char>) -> bool {
    if want_newest {
        older(b, a)
    } else {
        older(a, b)
    }
}

/// Where the newest or the oldest chunk is among `names`.
fn search(names: &Vec<String>, want_newest: bool) -> (r: Option<usize>)
    ensures
        match r {
            Some(k) => {
                let all = names_of(names@);
                &&& k < names@.len()
                &&& chunk_file(all[k as int])
                &&& forall|j: int|
                    0 <= j < all.len() && chunk_file(#[trigger] all[j]) ==> !preferred(
                        want_newest,
                        all[j],
                        all[k as int],
                    )
            },
            None => !any_chunk(names_of(names@)),
        },
{
    let ghost all = names_of(names@);
    let mut found: Option<usize> = None;
    for i in 0..names.len()
        invariant
            all == names_of(names@),
            match found {
                Some(k) => k < i && chunk_file(all[k as int]) && (forall|j: int|
                    0 <= j < i && chunk_file(#[trigger] all[j]) ==> !preferred(
                        want_newest,
                        all[j],
                        all[k as int],
                    )),
                None => forall|j: int| 0 <= j < i ==> !chunk_file(#[trigger] all[j]),
            },
    {
        let ghost new = all[i as int];
        assert(new == names@[i as int]@);
        if is_chunk_file(names[i].as_str()) {
            proof {
                lemma_older(new, new, new);
            }
            let take: bool = match found {
                Some(k) => {
                    assert(all[k as int] == names@[k as int]@);
                    if want_newest {
                        is_older(names[k].as_str(), names[i].as_str())
                    } else {
                        is_older(names[i].as_str(), names[k].as_str())
                    }
                },
                None => true,
            };
            if take {
                proof {
                    if let Some(k) = found {
                        let had = all[k as int];
                        assert forall|j: int| 0 <= j < i && chunk_file(
                            #[trigger] all[j],
                        ) implies !preferred(want_newest, all[j], new) by {
                            lemma_older(had, new, all[j]);
                            lemma_older(all[j], new, had);
                        }
                    }
                }
                found = Some(i);
            }
        }
    }
    found
}

/// The newest chunk among `names`.
pub fn newest_chunk(names: &Vec<String>) -> (r: Option<String>)
    ensures
        match r {
            Some(name) => newest(names_of(names@), name@),
            None => !any_chunk(names_of(names@)),
        },
{
    let ghost all = names_of(names@);
    match search(names, true) {
        Some(k) => {
            assert(all[k as int] == names@[k as int]@);
            assert(all.contains(all[k as int]));
            Some(names[k].clone())
        },
        None => None,
    }
}

/// The oldest chunk among `names`, which is the one to drop.
pub fn oldest_chunk(names: &Vec<String>) -> (r: Option<String>)
    ensures
        match r {
            Some(name) => oldest(names_of(names@), name@),
            None => !any_chunk(names_of(names@)),
        },
{
    let ghost all = names_of(names@);
    match search(names, false) {
        Some(k) => {
            assert(all[k as int] == names@[k as int]@);
            assert(all.contains(all[k as int]));
            Some(names[k].clone())
        },
        None => None,
    }
}

// ---------------------------------------------------------------------------
// Writing a chunk
// ---------------------------------------------------------------------------

/// The bytes that some files take together.
pub fn total_spool_bytes(sizes: &Vec<u64>) -> (n: u64)
    requires
        total(sizes@) <= u64::MAX,
    ensures
        n == total(sizes@),
{
    let mut n: u64 = 0;
    for i in 0..sizes.len()
        invariant
            n == total(sizes@.take(i as int)),
            total(sizes@) <= u64::MAX,
    {
        proof {
            lemma_total_grows(sizes@, i + 1);
            assert(sizes@.take(i + 1).drop_last() =~= sizes@.take(i as int));
        }
        n = n + sizes[i];
    }
    assert(sizes@.take(sizes@.len() as int) =~= sizes@);
    n
}

proof fn lemma_total_grows(sizes: Seq<u64>, n: int)
    requires
        0 <= n <= sizes.len(),
    ensures
        total(sizes.take(n)) <= total(sizes),
    decreases sizes.len() - n,
{
    if n < sizes.len() {
        lemma_total_grows(sizes, n + 1);
        assert(sizes.take(n + 1).drop_last() =~= sizes.take(n));
    } else {
        assert(sizes.take(n) =~= sizes);
    }
}

/// What has to be done next in order to write a chunk.
#[derive(Debug)]
pub enum SpoolStep {
    /// Delete this chunk, then look at the directory again.
    Drop(String),
    /// Write the chunk under this name.
    Write(String),
}

/// The oldest chunk goes as long as the new one would take the spool over its limit and
/// there is a chunk; else the new one is written behind the highest number.
pub open spec fn is_next_step(
    names: Seq<Seq<char>>,
    sizes: Seq<u64>,
    new_bytes: u64,
    max_size_mb: u64,
    step: SpoolStep,
) -> bool {
    match step {
        SpoolStep::Drop(name) => over_limit(sizes, new_bytes, max_size_mb) && oldest(names, name@),
        SpoolStep::Write(name) => (!over_limit(sizes, new_bytes, max_size_mb) || !any_chunk(names))
            && name@ == chunk_name(max_sequence(names) + 1),
    }
}

/// The next step towards a new chunk of `new_bytes` in a directory that holds the files
/// `names` of the sizes `sizes`: as long as the new chunk would take the spool over its
/// limit and the spool holds a chunk, the oldest chunk goes.
pub fn write_chunk_step(
    names: &Vec<String>,
    sizes: &Vec<u64>,
    new_bytes: u64,
    max_size_mb: u64,
) -> (r: SpoolStep)
    requires
        total(sizes@) <= u64::MAX,
        limit_bytes(max_size_mb) <= u64::MAX,
        (over_limit(sizes@, new_bytes, max_size_mb) && any_chunk(names_of(names@)))
            || max_sequence(names_of(names@)) < u64::MAX,
    ensures
        is_next_step(names_of(names@), sizes@, new_bytes, max_size_mb, r),
{
    let max_bytes: u64 = max_size_mb * 1024 * 1024;
    let over: bool = match total_spool_bytes(sizes).checked_add(new_bytes) {
        Some(n) => n > max_bytes,
        None => true,
    };
    if over {
        if let Some(name) = oldest_chunk(names) {
            proof {
                lemma_some_chunk(names_of(names@), name@);
            }
            return SpoolStep::Drop(name);
        }
    }
    SpoolStep::Write(next_chunk_path(names))
}

/// A name that is a chunk among some names is one.
pub proof fn lemma_some_chunk(names: Seq<Seq<char>>, name: Seq<char>)
    requires
        names.contains(name),
        chunk_file(name),
    ensures
        any_chunk(names),
{
    let i = choose|i: int| 0 <= i < names.len() && names[i] == name;
    assert(chunk_file(names[i]));
}

// ---------------------------------------------------------------------------
// Laws
// ---------------------------------------------------------------------------

/// A chunk name is the name of a chunk file, and its number can be read back.
pub proof fn law_chunk_name_reads_back(n: nat)
    requires
        n <= u64::MAX,
    ensures
        chunk_file(chunk_name(n)),
        sequence_of(chunk_name(n)) == Some(n),
{
    reveal_strlit(".cbor");
    lemma_decimal(n);
    lemma_zero_padded(decimal(n), 10);
    let stem = zero_padded(decimal(n), 10);
    let name = chunk_name(n);
    assert(name.skip(name.len() - 5) =~= ".cbor"@);
    assert(name.take(name.len() - 5) =~= stem);
    assert(digit(stem[0]));
}

proof fn lemma_max_sequence(names: Seq<Seq<char>>, i: int)
    requires
        0 <= i < names.len(),
    ensures
        sequence_of(names[i]) matches Some(n) ==> n <= max_sequence(names),
    decreases names.len(),
{
    if i < names.len() - 1 {
        lemma_max_sequence(names.drop_last(), i);
    }
}

/// The name for the next chunk is none of the names that are there.
pub proof fn law_next_chunk_is_new(names: Seq<Seq<char>>)
    requires
        max_sequence(names) < u64::MAX,
    ensures
        !names.contains(chunk_name(max_sequence(names) + 1)),
{
    let n = max_sequence(names) + 1;
    law_chunk_name_reads_back(n);
    if names.contains(chunk_name(n)) {
        let i = choose|i: int| 0 <= i < names.len() && names[i] == chunk_name(n);
        lemma_max_sequence(names, i);
    }
}

/// A chunk name holds its number, so chunks are ordered as their numbers are.
pub proof fn law_chunk_names_sort_by_number(a: nat, b: nat)
    ensures
        chunk_number(chunk_name(a)) == a,
        a < b ==> older(chunk_name(a), chunk_name(b)),
{
    lemma_name_holds_number(a);
    lemma_name_holds_number(b);
}

proof fn lemma_name_holds_number(n: nat)
    ensures
        chunk_file(chunk_name(n)),
        chunk_number(chunk_name(n)) == n,
{
    reveal_strlit(".cbor");
    lemma_decimal(n);
    lemma_zero_padded(decimal(n), 10);
    let stem = zero_padded(decimal(n), 10);
    let name = chunk_name(n);
    assert(name.skip(name.len() - 5) =~= ".cbor"@);
    assert(name.take(name.len() - 5) =~= stem);
}

/// The newest chunk has the highest number, the oldest the lowest.
pub proof fn law_newest_has_highest_number(
    names: Seq<Seq<char>>,
    first: Seq<char>,
    last: Seq<char>,
)
    requires
        oldest(names, first),
        newest(names, last),
    ensures
        forall|i: int|
            0 <= i < names.len() && chunk_file(#[trigger] names[i]) ==> chunk_number(first)
                <= chunk_number(names[i]) <= chunk_number(last),
{
    assert forall|i: int| 0 <= i < names.len() && chunk_file(#[trigger] names[i]) implies chunk_number(
        first,
    ) <= chunk_number(names[i]) <= chunk_number(last) by {
        assert(!older(last, names[i]));
        assert(!older(names[i], first));
    }
}

/// There is only one newest chunk, so looking again finds the same one.
pub proof fn law_newest_is_one(names: Seq<Seq<char>>, a: Seq<char>, b: Seq<char>)
    requires
        newest(names, a),
        newest(names, b),
    ensures
        a == b,
{
    let i = choose|i: int| 0 <= i < names.len() && names[i] == a;
    let j = choose|j: int| 0 <= j < names.len() && names[j] == b;
    assert(chunk_file(names[i]) && chunk_file(names[j]));
    lemma_older(a, b, b);
}

/// Listed newest first, the numbers do not rise.
pub proof fn law_listing_goes_by_number(names: Seq<Seq<char>>)
    requires
        descending(names),
    ensures
        forall|i: int, j: int|
            0 <= i < j < names.len() ==> chunk_number(#[trigger] names[i]) >= chunk_number(
                #[trigger] names[j],
            ),
{
    assert forall|i: int, j: int| 0 <= i < j < names.len() implies chunk_number(#[trigger] names[i])
        >= chunk_number(#[trigger] names[j]) by {
        assert(!older(names[i], names[j]));
    }
}

/// A new chunk is newer than every chunk that is there, so it is sent before them and
/// dropped after them. The numbers that are there fit into 64 bits.
pub proof fn law_new_chunk_is_newest(names: Seq<Seq<char>>)
    requires
        forall|i: int|
            0 <= i < names.len() && chunk_file(#[trigger] names[i]) ==> chunk_number(names[i])
                <= u64::MAX,
    ensures
        newest(
            names.push(chunk_name(max_sequence(names) + 1)),
            chunk_name(max_sequence(names) + 1),
        ),
{
    let n = max_sequence(names) + 1;
    let all = names.push(chunk_name(n));
    lemma_name_holds_number(n);
    assert(all[names.len() as int] == chunk_name(n));
    assert forall|i: int| 0 <= i < all.len() && chunk_file(#[trigger] all[i]) implies !older(
        chunk_name(n),
        all[i],
    ) by {
        lemma_older(chunk_name(n), all[i], all[i]);
        if i < names.len() {
            assert(all[i] == names[i]);
            lemma_sequence_is_number(names[i]);
            lemma_max_sequence(names, i);
        }
    }
}

/// The sequence number of a chunk file is the number in its name.
proof fn lemma_sequence_is_number(name: Seq<char>)
    requires
        chunk_file(name),
        chunk_number(name) <= u64::MAX,
    ensures
        sequence_of(name) == Some(chunk_number(name)),
{
    if let Some(stem) = cbor_stem(name) {
        assert(stem.len() > 0);
        assert(digit(stem[0]));
    }
}

/// Once a chunk may be written, the spool stays within its limit with it, if it holds
/// nothing but chunks and the new chunk alone is not beyond the limit.
pub proof fn law_spool_stays_within_its_limit(
    names: Seq<Seq<char>>,
    sizes: Seq<u64>,
    new_bytes: u64,
    max_size_mb: u64,
)
    requires
        names.len() == sizes.len(),
        forall|i: int| 0 <= i < names.len() ==> chunk_file(#[trigger] names[i]),
        new_bytes <= limit_bytes(max_size_mb),
        !over_limit(sizes, new_bytes, max_size_mb) || !any_chunk(names),
    ensures
        total(sizes.push(new_bytes)) <= limit_bytes(max_size_mb),
{
    assert(sizes.push(new_bytes).drop_last() =~= sizes);
    if names.len() > 0 {
        assert(chunk_file(names[0]));
    }
}

/// Dropping a chunk leaves the spool smaller, by the size of that chunk, so dropping
/// comes to an end.
pub proof fn law_dropping_makes_room(sizes: Seq<u64>, i: int)
    requires
        0 <= i < sizes.len(),
    ensures
        total(sizes.remove(i)) == total(sizes) - sizes[i],
        sizes.remove(i).len() == sizes.len() - 1,
    decreases sizes.len(),
{
    let rest = sizes.remove(i);
    if i == sizes.len() - 1 {
        assert(rest =~= sizes.drop_last());
    } else {
        law_dropping_makes_room(sizes.drop_last(), i);
        assert(rest.drop_last() =~= sizes.drop_last().remove(i));
        assert(rest.last() == sizes.last());
    }
}

/// Addition of a size.
pub open spec fn adding_sizes() -> spec_fn(int, u64) -> int {
    |a: int, n: u64| a + n
}

/// The spool is over its limit with a new chunk where all its files and the new chunk
/// together have more bytes than the configured number of mebibytes.
pub proof fn law_limit_is_in_mebibytes(sizes: Seq<u64>, new_bytes: u64, max_size_mb: u64)
    ensures
        over_limit(sizes, new_bytes, max_size_mb) <==> sizes.fold_left(0, adding_sizes())
            + new_bytes > max_size_mb * 1024 * 1024,
        total(sizes) == sizes.fold_left(0, adding_sizes()),
    decreases sizes.len(),
{
    reveal(Seq::fold_left);
    if sizes.len() > 0 {
        law_limit_is_in_mebibytes(sizes.drop_last(), new_bytes, max_size_mb);
    }
}

/// A chunk file is named by one or more digits and `.cbor`, and by nothing else.
pub proof fn law_chunk_files_are_digits(name: Seq<char>, stem: Seq<char>)
    ensures
        name == stem + ".cbor"@ && stem.len() > 0 && all_digits(stem) ==> chunk_file(name)
            && chunk_number(name) == number(stem),
        chunk_file(name) ==> name.len() > 5 && name == name.take(name.len() - 5) + ".cbor"@
            && forall|i: int| 0 <= i < name.len() - 5 ==> '0' <= #[trigger] name[i] <= '9',
{
    reveal_strlit(".cbor");
    if name == stem + ".cbor"@ {
        assert(name.skip(name.len() - 5) =~= ".cbor"@);
        assert(name.take(name.len() - 5) =~= stem);
    }
    if chunk_file(name) {
        assert(name =~= name.take(name.len() - 5) + name.skip(name.len() - 5));
        assert forall|i: int| 0 <= i < name.len() - 5 implies '0' <= #[trigger] name[i]
            <= '9' by {
            assert(digit(name.take(name.len() - 5)[i]));
        }
    }
}

/// The name of a chunk is its number, with zeros in front to ten digits, and `.cbor`.
pub proof fn law_chunk_name_has_ten_digits(n: nat)
    ensures
        decimal(n).len() <= 10 ==> chunk_name(n).len() == 15,
        decimal(n).len() > 10 ==> chunk_name(n) == decimal(n) + ".cbor"@,
        chunk_name(n).skip(chunk_name(n).len() - 5 - decimal(n).len()) == decimal(n) + ".cbor"@,
        forall|i: int|
            0 <= i < chunk_name(n).len() - 5 - decimal(n).len() ==> #[trigger] chunk_name(n)[i]
                == '0',
{
    reveal_strlit(".cbor");
    let name = chunk_name(n);
    assert(name.skip(name.len() - 5 - decimal(n).len()) =~= decimal(n) + ".cbor"@);
}

/// The highest sequence number is at least every number that can be read in a name, and is
/// one of them, or zero where there is none.
pub proof fn law_highest_number_is_there(names: Seq<Seq<char>>)
    ensures
        forall|i: int|
            0 <= i < names.len() ==> (sequence_of(#[trigger] names[i]) matches Some(n) ==> n
                <= max_sequence(names)),
        max_sequence(names) == 0 || exists|i: int|
            0 <= i < names.len() && sequence_of(#[trigger] names[i]) == Some(max_sequence(names)),
    decreases names.len(),
{
    if names.len() > 0 {
        let rest = names.drop_last();
        law_highest_number_is_there(rest);
        assert forall|i: int| 0 <= i < names.len() implies (sequence_of(
            #[trigger] names[i],
        ) matches Some(n) ==> n <= max_sequence(names)) by {
            if i < rest.len() {
                assert(names[i] == rest[i]);
            }
        }
        if max_sequence(names) != 0 {
            if max_sequence(names) == max_sequence(rest) && exists|i: int|
                0 <= i < rest.len() && sequence_of(#[trigger] rest[i]) == Some(
                    max_sequence(rest),
                ) {
                let i = choose|i: int|
                    0 <= i < rest.len() && sequence_of(#[trigger] rest[i]) == Some(
                        max_sequence(rest),
                    );
                assert(names[i] == rest[i]);
            } else {
                assert(names[names.len() - 1] == names.last());
            }
        }
    }
}

/// The number of the next chunk is one above the highest number of all chunks that are there,
/// and the first chunk of an empty spool has the number 1.
pub proof fn law_next_number_is_one_above(names: Seq<Seq<char>>, n: nat, i: int)
    requires
        0 <= i < names.len(),
        names[i] == chunk_name(n),
        n <= u64::MAX,
        forall|j: int|
            0 <= j < names.len() ==> (sequence_of(#[trigger] names[j]) matches Some(m) ==> m <= n),
    ensures
        max_sequence(names) == n,
        max_sequence(Seq::empty()) == 0,
{
    law_chunk_name_reads_back(n);
    law_highest_number_is_there(names);
}

/// A listing of chunks holds the files that are named by digits and `.cbor`, and no others.
pub proof fn law_listing_holds_the_chunks(names: Seq<Seq<char>>, name: Seq<char>)
    ensures
        names.filter(chunk_files()).contains(name) <==> names.contains(name) && chunk_file(name),
    decreases names.len(),
{
    reveal(Seq::filter);
    if names.len() > 0 {
        let rest = names.drop_last();
        law_listing_holds_the_chunks(rest, name);
        let kept = rest.filter(chunk_files());
        let all = names.filter(chunk_files());
        assert(names[names.len() - 1] == names.last());
        if kept.contains(name) {
            let i = choose|i: int| 0 <= i < kept.len() && kept[i] == name;
            assert(all[i] == name);
        }
        if names.contains(name) && name != names.last() {
            let i = choose|i: int| 0 <= i < names.len() && names[i] == name;
            assert(rest[i] == name);
        }
        if rest.contains(name) {
            let i = choose|i: int| 0 <= i < rest.len() && rest[i] == name;
            assert(names[i] == name);
        }
        if chunk_file(names.last()) {
            assert(all == kept.push(names.last()));
            assert(all[kept.len() as int] == names.last());
            if all.contains(name) && name != names.last() {
                let i = choose|i: int| 0 <= i < all.len() && all[i] == name;
                assert(kept[i] == name);
            }
        }
    }
}

/// A chunk is dropped exactly where there is one and all files and the new chunk together
/// have more bytes than the configured number of mebibytes, and then it is one with the
/// lowest number of all. Else the new chunk is written under a name that no file has, with a
/// number above every chunk that is there.
pub proof fn law_lowest_number_is_dropped(
    names: Seq<Seq<char>>,
    sizes: Seq<u64>,
    new_bytes: u64,
    max_size_mb: u64,
    step: SpoolStep,
)
    requires
        is_next_step(names, sizes, new_bytes, max_size_mb, step),
        max_sequence(names) < u64::MAX,
    ensures
        step is Drop <==> sizes.fold_left(0, adding_sizes()) + new_bytes > max_size_mb * 1024 * 1024
            && exists|i: int| 0 <= i < names.len() && chunk_file(#[trigger] names[i]),
        step matches SpoolStep::Drop(name) ==> names.contains(name@) && chunk_file(name@)
            && forall|i: int|
            0 <= i < names.len() && chunk_file(#[trigger] names[i]) ==> chunk_number(name@)
                <= chunk_number(names[i]),
        step matches SpoolStep::Write(name) ==> !names.contains(name@) && chunk_file(name@)
            && forall|i: int|
            0 <= i < names.len() && (sequence_of(#[trigger] names[i]) is Some) ==> sequence_of(
                names[i],
            )->0 < chunk_number(name@),
        step matches SpoolStep::Write(name) ==> chunk_number(name@) == max_sequence(names) + 1,
{
    law_limit_is_in_mebibytes(sizes, new_bytes, max_size_mb);
    match step {
        SpoolStep::Drop(name) => {
            lemma_some_chunk(names, name@);
            assert forall|i: int| 0 <= i < names.len() && chunk_file(#[trigger] names[i]) implies
                chunk_number(name@) <= chunk_number(names[i]) by {
                assert(!older(names[i], name@));
            }
        },
        SpoolStep::Write(name) => {
            law_next_chunk_is_new(names);
            lemma_name_holds_number(max_sequence(names) + 1);
            law_highest_number_is_there(names);
        },
    }
}

} // verus!
