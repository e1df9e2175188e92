//! What holds of every syslog line: lines that are put together from parts read back as
//! those parts.

use vstd::prelude::*;
use crate::log_entry::{syslog_severity, LabelView, LogEntryView};
use crate::number::{all_digits, decimal, lemma_decimal, parse_signed};
use crate::sources::syslog::{behind_header, behind_tag, colon_space, line_entry, pri_split};
use crate::sources::syslog::{priority, rfc3164, rfc5424, rfc5424_fields, rsyslog_default};
use crate::sources::syslog::{finished, syslog_labels, tag_parts, unparsed};
use crate::sources::syslog::{with_pid, with_tag, with_text};
use crate::sources::{law_no_escape_survives, ESC};
use crate::split::{fields, words};
use crate::text::{ascii_space, ascii_spaces, digit, ink, just, lemma_back_span};
use crate::text::{lemma_span, lemma_span_holds, other_than, position, space, spaces, span};
use crate::text::{trim_end_of, trim_start, trim_start_of};

verus! {

/// Texts with a space between each two.
pub open spec fn joined(parts: Seq<Seq<char>>) -> Seq<char>
    decreases parts.len(),
{
    if parts.len() == 0 {
        Seq::empty()
    } else if parts.len() == 1 {
        parts[0]
    } else {
        parts[0] + seq![' '] + joined(parts.skip(1))
    }
}

/// A text without a space.
pub open spec fn no_space(s: Seq<char>) -> bool {
    !s.contains(' ')
}

/// A text that is not empty and has no ASCII whitespace.
pub open spec fn one_word(s: Seq<char>) -> bool {
    s.len() > 0 && forall|i: int| 0 <= i < s.len() ==> !ascii_space(#[trigger] s[i])
}

/// A line `<PRI>rest`.
pub open spec fn with_priority(pri: Seq<char>, rest: Seq<char>) -> Seq<char> {
    seq!['<'] + pri + seq!['>'] + rest
}

/// The digits of a number, with a sign where it is below zero.
pub open spec fn signed_decimal(n: int) -> Seq<char> {
    if n < 0 {
        seq!['-'] + decimal((-n) as nat)
    } else {
        decimal(n as nat)
    }
}

/// The tag of a process with an id.
pub open spec fn tag_of(process: Seq<char>, pid: i64) -> Seq<char> {
    process + seq!['['] + signed_decimal(pid as int) + seq![']']
}

// ---------------------------------------------------------------------------
// Pieces
// ---------------------------------------------------------------------------

/// The first of some characters is where it was put.
pub proof fn lemma_position(a: Seq<char>, c: char, b: Seq<char>)
    requires
        !a.contains(c),
    ensures
        position(a + seq![c] + b, c) == Some(a.len() as int),
{
    let s = a + seq![c] + b;
    assert forall|i: int| 0 <= i < a.len() implies other_than(c)(#[trigger] s[i]) by {
        assert(s[i] == a[i]);
        assert(a.contains(a[i]));
    }
    assert(s[a.len() as int] == c);
    lemma_span(s, other_than(c), a.len());
}

/// Texts that are joined by spaces and hold none, but for the last, read back as they
/// were.
pub proof fn law_fields_read_back(parts: Seq<Seq<char>>)
    requires
        parts.len() > 0,
        forall|i: int| 0 <= i < parts.len() - 1 ==> no_space(#[trigger] parts[i]),
    ensures
        fields(joined(parts), parts.len()) == parts,
    decreases parts.len(),
{
    if parts.len() == 1 {
        assert(fields(joined(parts), 1) =~= parts);
    } else {
        let rest = parts.skip(1);
        let first = parts[0];
        assert forall|i: int| 0 <= i < rest.len() - 1 implies no_space(#[trigger] rest[i]) by {
            assert(rest[i] == parts[i + 1]);
        }
        law_fields_read_back(rest);
        assert(no_space(first));
        lemma_position(first, ' ', joined(rest));
        let s = joined(parts);
        assert(s.take(first.len() as int) =~= first);
        assert(s.skip(first.len() as int + 1) =~= joined(rest));
        assert(fields(s, parts.len()) =~= seq![first] + rest);
        assert(seq![first] + rest =~= parts);
    }
}

/// A word in front of a text that goes on with a space, or is at its end.
pub proof fn lemma_first_word(word: Seq<char>, rest: Seq<char>)
    requires
        one_word(word),
        rest.len() > 0 ==> ascii_space(rest[0]),
    ensures
        words(word + rest) == seq![word] + words(rest),
{
    let s = word + rest;
    assert(s[0] == word[0]);
    assert(!ascii_space(word[0]));
    lemma_span(s, ascii_spaces(), 0);
    assert(s.skip(0) =~= s);
    assert forall|i: int| 0 <= i < word.len() implies ink()(#[trigger] s[i]) by {
        assert(s[i] == word[i]);
    }
    if rest.len() > 0 {
        assert(s[word.len() as int] == rest[0]);
    }
    lemma_span(s, ink(), word.len());
    assert(s.take(word.len() as int) =~= word);
    assert(s.skip(word.len() as int) =~= rest);
}

/// A space in front of a text makes no difference to its words.
pub proof fn lemma_words_behind_space(s: Seq<char>)
    ensures
        words(seq![' '] + s) == words(s),
{
    let t = seq![' '] + s;
    let n = span(s, ascii_spaces());
    lemma_span_holds(s, ascii_spaces());
    assert forall|i: int| 0 <= i < n + 1 implies ascii_spaces()(#[trigger] t[i]) by {
        if i > 0 {
            assert(t[i] == s[i - 1]);
        }
    }
    if n + 1 < t.len() {
        assert(t[n as int + 1] == s[n as int]);
    }
    lemma_span(t, ascii_spaces(), (n + 1) as nat);
    assert(t.skip(n as int + 1) =~= s.skip(n as int));
}

/// Words that are joined by spaces read back, in front of whatever words follow.
pub proof fn law_words_read_back(parts: Seq<Seq<char>>)
    requires
        parts.len() > 0,
        forall|i: int| 0 <= i < parts.len() - 1 ==> one_word(#[trigger] parts[i]),
    ensures
        words(joined(parts)) == parts.drop_last() + words(parts.last()),
    decreases parts.len(),
{
    if parts.len() == 1 {
        assert(parts.drop_last() + words(parts.last()) =~= words(joined(parts)));
    } else {
        let rest = parts.skip(1);
        assert forall|i: int| 0 <= i < rest.len() - 1 implies one_word(#[trigger] rest[i]) by {
            assert(rest[i] == parts[i + 1]);
        }
        law_words_read_back(rest);
        let behind = seq![' '] + joined(rest);
        assert(joined(parts) =~= parts[0] + behind);
        lemma_first_word(parts[0], behind);
        lemma_words_behind_space(joined(rest));
        assert(seq![parts[0]] + (rest.drop_last() + words(rest.last())) =~= parts.drop_last()
            + words(parts.last()));
    }
}

/// Digits hold no other character.
proof fn lemma_digits_only(s: Seq<char>, c: char)
    requires
        all_digits(s),
        !digit(c),
    ensures
        !s.contains(c),
{
    if s.contains(c) {
        let i = choose|i: int| 0 <= i < s.len() && s[i] == c;
        assert(digit(s[i]));
    }
}

/// A number that is written out reads back.
pub proof fn law_number_reads_back(n: i64)
    ensures
        parse_signed(signed_decimal(n as int)) == Some(n as int),
{
    if n < 0 {
        let digits = decimal((-n) as nat);
        lemma_decimal((-n) as nat);
        assert((seq!['-'] + digits).skip(1) =~= digits);
    } else {
        lemma_decimal(n as nat);
        assert(digit(decimal(n as nat)[0]));
    }
}

/// A priority that is written out reads back, and is a priority text.
pub proof fn law_priority_number_reads_back(n: nat)
    requires
        n <= 255,
    ensures
        priority(decimal(n)) == n,
        !decimal(n).contains('>'),
{
    lemma_decimal(n);
    assert(digit(decimal(n)[0]));
    lemma_digits_only(decimal(n), '>');
}

/// The text of the priority and what follows it read back.
pub proof fn law_priority_reads_back(pri: Seq<char>, rest: Seq<char>)
    requires
        !pri.contains('>'),
    ensures
        pri_split(with_priority(pri, rest)) == Some((pri, rest)),
{
    let line = with_priority(pri, rest);
    let start = seq!['<'] + pri;
    if start.contains('>') {
        let i = choose|i: int| 0 <= i < start.len() && start[i] == '>';
        if i > 0 {
            assert(pri[i - 1] == '>');
        }
    }
    lemma_position(start, '>', rest);
    assert(line.subrange(1, start.len() as int) =~= pri);
    assert(line.skip(start.len() as int + 1) =~= rest);
}

/// The process and its id read back from a tag.
pub proof fn law_tag_reads_back(process: Seq<char>, pid: i64)
    requires
        !process.contains('['),
    ensures
        tag_parts(tag_of(process, pid)) == (process, Some(pid as int)),
{
    let tag = tag_of(process, pid);
    let digits = signed_decimal(pid as int);
    let behind = digits + seq![']'];
    law_number_reads_back(pid);
    lemma_decimal(if pid < 0 {
        (-pid) as nat
    } else {
        pid as nat
    });
    assert(digit(digits.last()));
    assert(tag =~= process + seq!['['] + behind);
    lemma_position(process, '[', behind);
    assert(tag.take(process.len() as int) =~= process);
    assert(tag.skip(process.len() as int + 1) =~= behind);
    lemma_one_trailing(digits, ']');
}

/// A tag without a bracket is the name of a process.
pub proof fn law_plain_tag_reads_back(process: Seq<char>)
    requires
        !process.contains('['),
    ensures
        tag_parts(process) == (process, None::<int>),
{
    assert forall|i: int| 0 <= i < process.len() implies other_than('[')(
        #[trigger] process[i],
    ) by {
        assert(process.contains(process[i]));
    }
    lemma_span(process, other_than('['), process.len());
}

/// A run of one character at the end is cut off.
pub proof fn lemma_one_trailing(s: Seq<char>, c: char)
    requires
        s.len() > 0 ==> s.last() != c,
    ensures
        trim_end_of(s + seq![c], c) == s,
        trim_end_of(s, c) == s,
{
    let t = s + seq![c];
    lemma_back_span(t, just(c), 1);
    assert(t.take(t.len() - 1) =~= s);
    lemma_back_span(s, just(c), 0);
    assert(s.take(s.len() as int) =~= s);
}

/// A text that does not start with whitespace stays, behind a space.
pub proof fn lemma_trim_start(s: Seq<char>)
    requires
        s.len() > 0,
        !space(s[0]),
    ensures
        trim_start(seq![' '] + s) == s,
        trim_start(s) == s,
{
    let t = seq![' '] + s;
    assert(t[1] == s[0]);
    lemma_span(t, spaces(), 1);
    assert(t.skip(1) =~= s);
    lemma_span(s, spaces(), 0);
    assert(s.skip(0) =~= s);
}

// ---------------------------------------------------------------------------
// Lines
// ---------------------------------------------------------------------------

/// An RFC 5424 line that is put together from its parts reads back as those parts: `-`
/// stands for a host or application that is not known, and a process id that is no
/// number is left out.
pub proof fn law_rfc5424_reads_back(
    pri: Seq<char>,
    timestamp: Seq<char>,
    host: Seq<char>,
    app: Seq<char>,
    process_id: Seq<char>,
    message_id: Seq<char>,
    data: Seq<char>,
    message: Seq<char>,
    timestamp_ms: Option<u64>,
)
    requires
        !pri.contains('>'),
        timestamp.len() > 0,
        !space(timestamp[0]),
        no_space(timestamp),
        no_space(host),
        no_space(app),
        no_space(process_id),
        no_space(message_id),
        no_space(data),
        message.len() > 0 ==> message[0] != '\u{feff}',
    ensures
        ({
            let parts = seq![timestamp, host, app, process_id, message_id, data, message];
            let line = with_priority(pri, seq!['1', ' '] + joined(parts));
            let known_host = if host != "-"@ {
                with_text(syslog_labels(), "hostname"@, host)
            } else {
                syslog_labels()
            };
            let known = if app != "-"@ {
                with_text(known_host, "process"@, app)
            } else {
                known_host
            };
            &&& rfc5424_fields(line) == Some(parts)
            &&& rfc5424(line, timestamp_ms) == Some(
                LogEntryView {
                    body: message,
                    severity: Some(syslog_severity(priority(pri) % 8)),
                    timestamp_ms,
                    uptime_ms: None,
                    source: "syslog"@,
                    labels: with_pid(known, parse_signed(process_id)),
                },
            )
        }),
{
    let parts = seq![timestamp, host, app, process_id, message_id, data, message];
    let text = joined(parts);
    let rest = seq!['1', ' '] + text;
    law_priority_reads_back(pri, rest);
    law_fields_read_back(parts);
    assert(text[0] == timestamp[0]);
    lemma_trim_start(text);
    assert(rest.skip(1) =~= seq![' '] + text);
    assert(message.skip(0) =~= message);
    assert(trim_start_of(message, '\u{feff}') =~= message);
}

/// The entry for an RFC 3164 line with these parts.
pub open spec fn rfc3164_parts(
    pri: Seq<char>,
    host: Seq<char>,
    tag: Seq<char>,
    message: Seq<char>,
) -> LogEntryView {
    LogEntryView {
        body: message,
        severity: Some(syslog_severity(priority(pri) % 8)),
        timestamp_ms: None,
        uptime_ms: None,
        source: "syslog"@,
        labels: with_tag(with_text(syslog_labels(), "hostname"@, host), tag),
    }
}

/// An RFC 3164 line that is put together from its parts reads back as those parts. Its
/// date, which has no year, is not read.
pub proof fn law_rfc3164_reads_back(
    pri: Seq<char>,
    month: Seq<char>,
    day: Seq<char>,
    time: Seq<char>,
    host: Seq<char>,
    tag: Seq<char>,
    message: Seq<char>,
)
    requires
        !pri.contains('>'),
        one_word(month),
        one_word(day),
        one_word(time),
        one_word(host),
        one_word(tag),
        tag.last() != ':',
        message.len() > 0,
    ensures
        rfc3164(
            with_priority(
                pri,
                joined(seq![month, day, time, host, tag + seq![':'], message]),
            ),
        ) == Some(rfc3164_parts(pri, host, tag, message)),
{
    let mark = tag + seq![':'];
    let head = seq![month, day, time, host];
    let tail = seq![mark, message];
    let parts = seq![month, day, time, host, mark, message];
    let rest = joined(parts);
    // Labels come from the words.
    assert(words(rest).len() > 4 && words(rest)[3] == host && words(rest)[4] == mark) by {
        assert(one_word(mark));
        law_words_read_back(parts);
    }
    // The body comes from behind the fourth space.
    assert(behind_tag(behind_header(rest)) == message) by {
        lemma_words_in_order(month, day, time, host);
        assert(head + tail =~= parts);
        lemma_behind_header(head, tail);
        lemma_behind_tag(Seq::empty(), tag, message);
        assert(tail.skip(1) =~= seq![message]);
        assert(joined(seq![message]) == message);
        assert(joined(tail) =~= Seq::<char>::empty() + tag + seq![':', ' '] + message);
    }
    lemma_rfc3164(pri, rest, host, tag, message);
}

/// An RFC 3164 line by its words and its body.
proof fn lemma_rfc3164(
    pri: Seq<char>,
    rest: Seq<char>,
    host: Seq<char>,
    tag: Seq<char>,
    message: Seq<char>,
)
    requires
        !pri.contains('>'),
        words(rest).len() > 4,
        words(rest)[3] == host,
        words(rest)[4] == tag + seq![':'],
        tag.len() > 0,
        tag.last() != ':',
        behind_tag(behind_header(rest)) == message,
        message.len() > 0,
    ensures
        rfc3164(with_priority(pri, rest)) == Some(rfc3164_parts(pri, host, tag, message)),
{
    law_priority_reads_back(pri, rest);
    lemma_one_trailing(tag, ':');
}

/// The same holds where the day has one digit and a second space before it.
pub proof fn law_rfc3164_with_padded_day_reads_back(
    pri: Seq<char>,
    month: Seq<char>,
    day: Seq<char>,
    time: Seq<char>,
    host: Seq<char>,
    tag: Seq<char>,
    message: Seq<char>,
)
    requires
        !pri.contains('>'),
        one_word(month),
        one_word(day),
        one_word(time),
        one_word(host),
        host.last() != ':',
        one_word(tag),
        tag.last() != ':',
        message.len() > 0,
    ensures
        rfc3164(
            with_priority(
                pri,
                joined(
                    seq![month, Seq::empty(), day, time, host, tag + seq![':'], message],
                ),
            ),
        ) == Some(rfc3164_parts(pri, host, tag, message)),
{
    let mark = tag + seq![':'];
    let none = Seq::<char>::empty();
    let head = seq![month, none, day, time];
    let tail = seq![host, mark, message];
    let behind = seq![day, time, host, mark, message];
    let parts = seq![month, none, day, time, host, mark, message];
    let rest = joined(parts);
    // Labels come from the words, of which the empty field is none.
    assert(words(rest).len() > 4 && words(rest)[3] == host && words(rest)[4] == mark) by {
        assert(one_word(mark));
        law_words_read_back(behind);
        let text = seq![' '] + joined(behind);
        assert(parts.skip(1).skip(1) =~= behind);
        assert(joined(parts.skip(1)) =~= text);
        assert(rest =~= month + (seq![' '] + text));
        lemma_first_word(month, seq![' '] + text);
        lemma_words_behind_space(text);
        lemma_words_behind_space(joined(behind));
    }
    // The body comes from behind the fourth space, which is the one before the host.
    assert(behind_tag(behind_header(rest)) == message) by {
        lemma_words_in_order(month, day, time, host);
        assert(head + tail =~= parts);
        lemma_behind_header(head, tail);
        assert((host + seq![' ']).drop_last() =~= host);
        lemma_behind_tag(host + seq![' '], tag, message);
        assert(tail.skip(1).skip(1) =~= seq![message]);
        assert(joined(seq![message]) == message);
        assert(joined(tail.skip(1)) == mark + seq![' '] + message);
        assert(joined(tail) =~= (host + seq![' ']) + tag + seq![':', ' '] + message);
    }
    lemma_rfc3164(pri, rest, host, tag, message);
}

/// Words hold no space.
proof fn lemma_words_in_order(a: Seq<char>, b: Seq<char>, c: Seq<char>, d: Seq<char>)
    requires
        one_word(a),
        one_word(b),
        one_word(c),
        one_word(d),
    ensures
        no_space(a),
        no_space(b),
        no_space(c),
        no_space(d),
{
    lemma_no_space_in_word(a);
    lemma_no_space_in_word(b);
    lemma_no_space_in_word(c);
    lemma_no_space_in_word(d);
}

/// Texts that are joined can be joined in two steps.
proof fn lemma_joined_tail(head: Seq<Seq<char>>, tail: Seq<Seq<char>>)
    requires
        tail.len() > 0,
    ensures
        joined(head.push(joined(tail))) == joined(head + tail),
    decreases head.len(),
{
    let whole = head + tail;
    let pushed = head.push(joined(tail));
    if head.len() == 0 {
        assert(whole =~= tail);
        assert(pushed =~= seq![joined(tail)]);
    } else {
        lemma_joined_tail(head.skip(1), tail);
        assert(whole.skip(1) =~= head.skip(1) + tail);
        assert(pushed.skip(1) =~= head.skip(1).push(joined(tail)));
    }
}

/// What is behind the fourth space.
pub proof fn lemma_behind_header(head: Seq<Seq<char>>, tail: Seq<Seq<char>>)
    requires
        head.len() == 4,
        forall|i: int| 0 <= i < 4 ==> no_space(#[trigger] head[i]),
        tail.len() > 0,
    ensures
        behind_header(joined(head + tail)) == joined(tail),
{
    let five = head.push(joined(tail));
    assert forall|i: int| 0 <= i < five.len() - 1 implies no_space(#[trigger] five[i]) by {
        assert(five[i] == head[i]);
    }
    law_fields_read_back(five);
    lemma_joined_tail(head, tail);
}

/// What is behind a tag, where a word and a space may stand before it.
proof fn lemma_behind_tag(before: Seq<char>, tag: Seq<char>, message: Seq<char>)
    requires
        one_word(tag),
        before.len() > 0 ==> before.len() > 1 && before.last() == ' ' && one_word(
            before.drop_last(),
        ) && before[before.len() - 2] != ':',
    ensures
        behind_tag(before + tag + seq![':', ' '] + message) == message,
{
    let s = before + tag + seq![':', ' '] + message;
    let at = (before.len() + tag.len()) as int;
    assert forall|i: int| 0 <= i < at implies !(s[i] == ':' && #[trigger] s[i + 1] == ' ') by {
        if i + 1 < before.len() {
            if i + 1 < before.len() - 1 {
                assert(before.drop_last()[i + 1] == s[i + 1]);
            } else {
                assert(s[i] == before[before.len() - 2]);
            }
        } else if i + 1 < at {
            assert(s[i + 1] == tag[i + 1 - before.len()]);
            assert(!ascii_space(tag[i + 1 - before.len()]));
        }
    }
    lemma_colon_space(s, 0, at);
    assert(s.skip(at + 2) =~= message);
}

/// A word holds no space.
pub proof fn lemma_no_space_in_word(word: Seq<char>)
    requires
        one_word(word),
    ensures
        no_space(word),
{
    if word.contains(' ') {
        let i = choose|i: int| 0 <= i < word.len() && word[i] == ' ';
        assert(ascii_space(word[i]));
    }
}

/// The first colon that a space follows.
pub proof fn lemma_colon_space(s: Seq<char>, from: int, at: int)
    requires
        0 <= from <= at,
        at + 1 < s.len(),
        forall|i: int| from <= i < at ==> !(s[i] == ':' && #[trigger] s[i + 1] == ' '),
        s[at] == ':',
        s[at + 1] == ' ',
    ensures
        colon_space(s, from) == Some(at),
    decreases at - from,
{
    if from < at {
        assert(!(s[from] == ':' && s[from + 1] == ' '));
        lemma_colon_space(s, from + 1, at);
    }
}

/// A line in rsyslog's default format that is put together from its parts reads back
/// as those parts, as long as its timestamp can be read.
pub proof fn law_rsyslog_reads_back(
    timestamp: Seq<char>,
    host: Seq<char>,
    tag: Seq<char>,
    message: Seq<char>,
    timestamp_ms: u64,
)
    requires
        timestamp.len() > 0,
        timestamp[0] != '<',
        no_space(timestamp),
        no_space(host),
        no_space(tag),
        tag.len() > 0 ==> tag.last() != ':',
        message.len() > 0,
        !space(message[0]),
    ensures
        rsyslog_default(
            joined(seq![timestamp, host, tag + seq![':'], message]),
            Some(timestamp_ms),
        ) == Some(
            LogEntryView {
                body: message,
                severity: None,
                timestamp_ms: Some(timestamp_ms),
                uptime_ms: None,
                source: "syslog"@,
                labels: with_tag(with_text(syslog_labels(), "hostname"@, host), tag),
            },
        ),
{
    let mark = tag + seq![':'];
    let parts = seq![timestamp, host, mark, message];
    if mark.contains(' ') {
        let i = choose|i: int| 0 <= i < mark.len() && mark[i] == ' ';
        if i < tag.len() {
            assert(tag[i] == ' ');
        }
    }
    law_fields_read_back(parts);
    lemma_one_trailing(tag, ':');
    lemma_trim_start(message);
    assert(joined(parts)[0] == timestamp[0]);
}

/// The forms are told apart: only a line that starts with `<` can be in one of the two
/// forms with a priority, only one that does not can be in rsyslog's, and a line behind
/// whose priority there is no `1` is not in the newer form.
pub proof fn law_forms_are_told_apart(
    line: Seq<char>,
    rfc5424_ms: Option<u64>,
    rsyslog_ms: Option<u64>,
)
    ensures
        !(line.len() > 0 && line[0] == '<') ==> {
            &&& rfc5424(line, rfc5424_ms) is None
            &&& rfc3164(line) is None
        },
        line.len() > 0 && line[0] == '<' ==> rsyslog_default(line, rsyslog_ms) is None,
        (pri_split(line) matches Some((_, rest)) && !(rest.len() > 0 && rest[0] == '1'))
            ==> rfc5424(line, rfc5424_ms) is None,
        line_entry(line, rfc5424_ms, rsyslog_ms) == finished(
            match (rfc5424(line, rfc5424_ms), rfc3164(line), rsyslog_default(line, rsyslog_ms)) {
                (Some(e), _, _) => e,
                (None, Some(e), _) => e,
                (None, None, Some(e)) => e,
                (None, None, None) => unparsed(line),
            },
        ),
{
}

/// Whatever a line holds, its entry comes from syslog and says so, its body holds no
/// escape character, and it has no uptime.
pub proof fn law_every_line_has_an_entry(
    line: Seq<char>,
    rfc5424_ms: Option<u64>,
    rsyslog_ms: Option<u64>,
)
    ensures
        ({
            let e = line_entry(line, rfc5424_ms, rsyslog_ms);
            &&& e.source == "syslog"@
            &&& e.labels.contains_key("source"@)
            &&& e.labels["source"@] == LabelView::Str("syslog"@)
            &&& !e.body.contains(ESC)
            &&& e.uptime_ms is None
        }),
{
    reveal_strlit("source");
    reveal_strlit("hostname");
    reveal_strlit("process");
    reveal_strlit("pid");
    assert("source"@.len() == 6 && "hostname"@.len() == 8 && "process"@.len() == 7 && "pid"@.len()
        == 3);
    match rfc5424(line, rfc5424_ms) {
        Some(e) => {
            law_no_escape_survives(e.body);
        },
        None => match rfc3164(line) {
            Some(e) => {
                law_no_escape_survives(e.body);
            },
            None => match rsyslog_default(line, rsyslog_ms) {
                Some(e) => {
                    law_no_escape_survives(e.body);
                },
                None => {
                    law_no_escape_survives(line);
                },
            },
        },
    }
}

} // verus!
