//! What a syslog line says, in words of its own: severity, time, labels and body of lines
//! in each form, put together from their parts.

use vstd::prelude::*;
use crate::log_entry::{LabelView, Severity};
use crate::number::{decimal, lemma_decimal, parse_signed, parse_unsigned};
use crate::sources::syslog::as_read;
use crate::sources::syslog::{behind_header, behind_tag, colon_space};
use crate::sources::syslog::{pri_split, priority, rfc3339_millis, rfc5424, rfc5424_ms};
use crate::sources::syslog::{tag_parts, tracing_severity};
use crate::sources::syslog_laws::{joined, law_fields_read_back};
use crate::sources::syslog_laws::{law_plain_tag_reads_back, law_priority_reads_back};
use crate::sources::syslog_laws::{law_rfc3164_reads_back, law_rfc5424_reads_back};
use crate::sources::syslog_laws::law_rfc3164_with_padded_day_reads_back;
use crate::sources::syslog_laws::{law_tag_reads_back, lemma_first_word, lemma_position};
use crate::sources::syslog_laws::{no_space, one_word, signed_decimal};
use crate::sources::syslog_laws::{tag_of, with_priority};
use crate::sources::strip;
use crate::split::{fields, words};
use crate::text::{ascii_space, ascii_spaces, digit, other_than, position, span, trim_end_of};

verus! {

// ---------------------------------------------------------------------------
// Severity in the body
// ---------------------------------------------------------------------------

/// Nothing but ASCII whitespace.
pub open spec fn white_run(s: Seq<char>) -> bool {
    forall|i: int| 0 <= i < s.len() ==> ascii_space(#[trigger] s[i])
}

/// ASCII whitespace, one character at least.
pub open spec fn gap(s: Seq<char>) -> bool {
    s.len() > 0 && white_run(s)
}

/// Whitespace in front of a text makes no difference to its words.
pub proof fn lemma_words_behind_gap(g: Seq<char>, s: Seq<char>)
    requires
        white_run(g),
    ensures
        words(g + s) == words(s),
    decreases g.len(),
{
    if g.len() == 0 {
        assert(g + s =~= s);
    } else {
        let h = g.skip(1);
        assert forall|i: int| 0 <= i < h.len() implies ascii_space(#[trigger] h[i]) by {
            assert(h[i] == g[i + 1]);
        }
        lemma_words_behind_gap(h, s);
        lemma_words_behind_one(g[0], h + s);
        assert(g + s =~= seq![g[0]] + (h + s));
    }
}

/// One character of whitespace in front of a text makes no difference to its words.
proof fn lemma_words_behind_one(c: char, s: Seq<char>)
    requires
        ascii_space(c),
    ensures
        words(seq![c] + s) == words(s),
{
    let t = seq![c] + s;
    let n = span(s, ascii_spaces());
    crate::text::lemma_span_holds(s, ascii_spaces());
    assert forall|i: int| 0 <= i < n + 1 implies ascii_spaces()(#[trigger] t[i]) by {
        if i > 0 {
            assert(t[i] == s[i - 1]);
        }
    }
    if n + 1 < t.len() {
        assert(t[n as int + 1] == s[n as int]);
    }
    crate::text::lemma_span(t, ascii_spaces(), (n + 1) as nat);
    assert(t.skip(n as int + 1) =~= s.skip(n as int));
}

/// The first two words of a text.
pub proof fn lemma_two_words(first: Seq<char>, g: Seq<char>, second: Seq<char>, rest: Seq<char>)
    requires
        one_word(first),
        gap(g),
        one_word(second),
        rest.len() > 0 ==> ascii_space(rest[0]),
    ensures
        words(first + g + second + rest).len() >= 2,
        words(first + g + second + rest)[0] == first,
        words(first + g + second + rest)[1] == second,
{
    let behind = g + (second + rest);
    assert(first + g + second + rest =~= first + behind);
    assert(behind[0] == g[0]);
    lemma_first_word(first, behind);
    lemma_words_behind_gap(g, second + rest);
    lemma_first_word(second, rest);
}

/// The five levels are words, and all different.
proof fn lemma_levels()
    ensures
        one_word("ERROR"@),
        one_word("WARN"@),
        one_word("INFO"@),
        one_word("DEBUG"@),
        one_word("TRACE"@),
        "ERROR"@ != "WARN"@,
        "ERROR"@ != "INFO"@,
        "ERROR"@ != "DEBUG"@,
        "ERROR"@ != "TRACE"@,
        "WARN"@ != "INFO"@,
        "WARN"@ != "DEBUG"@,
        "WARN"@ != "TRACE"@,
        "INFO"@ != "DEBUG"@,
        "INFO"@ != "TRACE"@,
        "DEBUG"@ != "TRACE"@,
{
    reveal_strlit("ERROR");
    reveal_strlit("WARN");
    reveal_strlit("INFO");
    reveal_strlit("DEBUG");
    reveal_strlit("TRACE");
    assert("ERROR"@[0] == 'E' && "WARN"@[0] == 'W' && "INFO"@[0] == 'I');
    assert("DEBUG"@[0] == 'D' && "TRACE"@[0] == 'T');
}

/// A body that tracing wrote, a first word with `T` and `:`, whitespace, a level and whatever
/// follows, names its severity: ERROR an error, WARN a warning, INFO information, DEBUG
/// and TRACE debugging. Any other second word names none, and neither does a body whose
/// first word has no `T` or no `:`.
pub proof fn law_level_names_the_severity(
    front: Seq<char>,
    first: Seq<char>,
    g: Seq<char>,
    level: Seq<char>,
    rest: Seq<char>,
)
    requires
        white_run(front),
        one_word(first),
        gap(g),
        one_word(level),
        rest.len() > 0 ==> ascii_space(rest[0]),
    ensures
        ({
            let named = tracing_severity(front + (first + g + level + rest));
            if first.contains('T') && first.contains(':') {
                &&& level == "ERROR"@ ==> named == Some(Severity::Error)
                &&& level == "WARN"@ ==> named == Some(Severity::Warning)
                &&& level == "INFO"@ ==> named == Some(Severity::Info)
                &&& level == "DEBUG"@ ==> named == Some(Severity::Debug)
                &&& level == "TRACE"@ ==> named == Some(Severity::Debug)
                &&& level != "ERROR"@ && level != "WARN"@ && level != "INFO"@ && level != "DEBUG"@
                    && level != "TRACE"@ ==> named is None
            } else {
                named is None
            }
        }),
{
    lemma_levels();
    lemma_two_words(first, g, level, rest);
    lemma_words_behind_gap(front, first + g + level + rest);
}

/// A line without a priority has the severity that its body names: the body of its entry,
/// put together from a first word with `T` and `:`, whitespace, a level and whatever follows.
pub proof fn law_line_without_priority_goes_by_its_body(
    line: Seq<char>,
    front: Seq<char>,
    first: Seq<char>,
    g: Seq<char>,
    level: Seq<char>,
    rest: Seq<char>,
)
    requires
        !(line.len() > 0 && line[0] == '<') || !line.contains('>'),
        white_run(front),
        one_word(first),
        gap(g),
        one_word(level),
        rest.len() > 0 ==> ascii_space(rest[0]),
        as_read(line).body == front + (first + g + level + rest),
    ensures
        ({
            let named = as_read(line).severity;
            if first.contains('T') && first.contains(':') {
                &&& level == "ERROR"@ ==> named == Some(Severity::Error)
                &&& level == "WARN"@ ==> named == Some(Severity::Warning)
                &&& level == "INFO"@ ==> named == Some(Severity::Info)
                &&& level == "DEBUG"@ ==> named == Some(Severity::Debug)
                &&& level == "TRACE"@ ==> named == Some(Severity::Debug)
                &&& level != "ERROR"@ && level != "WARN"@ && level != "INFO"@ && level != "DEBUG"@
                    && level != "TRACE"@ ==> named is None
            } else {
                named is None
            }
        }),
{
    lemma_no_priority(line);
    law_level_names_the_severity(front, first, g, level, rest);
}

/// A line that does not start with `<`, or holds no `>`, has no priority.
proof fn lemma_no_priority(line: Seq<char>)
    requires
        !(line.len() > 0 && line[0] == '<') || !line.contains('>'),
    ensures
        pri_split(line) is None,
{
    if !line.contains('>') {
        crate::text::lemma_span_holds(line, other_than('>'));
        let n = span(line, other_than('>'));
        if n < line.len() {
            assert(line[n as int] == '>');
        }
    }
}

/// A body of fewer than two words names no severity.
pub proof fn law_short_body_names_no_severity(
    line: Seq<char>,
    front: Seq<char>,
    word: Seq<char>,
    back: Seq<char>,
)
    requires
        !(line.len() > 0 && line[0] == '<') || !line.contains('>'),
        white_run(front),
        one_word(word) || word.len() == 0,
        white_run(back),
        as_read(line).body == front + (word + back),
    ensures
        as_read(line).severity is None,
{
    lemma_no_priority(line);
    let none = Seq::<char>::empty();
    lemma_words_behind_gap(front, word + back);
    lemma_words_behind_gap(back, none);
    assert(back + none =~= back);
    lemma_no_words();
    if word.len() > 0 {
        lemma_first_word(word, back);
    } else {
        assert(word + back =~= back);
    }
}

proof fn lemma_no_words()
    ensures
        words(Seq::<char>::empty()).len() == 0,
{
}

// ---------------------------------------------------------------------------
// Whole lines
// ---------------------------------------------------------------------------

/// The severity of a priority: 0 to 2 in its low three bits are critical, 3 is an error,
/// 4 a warning, 5 and 6 are informational, 7 is for debugging.
pub open spec fn severity_is(n: nat, s: Option<Severity>) -> bool {
    match s {
        Some(Severity::Critical) => n % 8 == 0 || n % 8 == 1 || n % 8 == 2,
        Some(Severity::Error) => n % 8 == 3,
        Some(Severity::Warning) => n % 8 == 4,
        Some(Severity::Info) => n % 8 == 5 || n % 8 == 6,
        Some(Severity::Debug) => n % 8 == 7,
        None => false,
    }
}

/// The label `key` says this, or, where that is nothing, is missing.
pub open spec fn label_is(
    labels: Map<Seq<char>, LabelView>,
    key: Seq<char>,
    value: Option<LabelView>,
) -> bool {
    match value {
        Some(v) => labels.contains_key(key) && labels[key] == v,
        None => !labels.contains_key(key),
    }
}

/// The labels of an entry from syslog: where it comes from, host, process and process id
/// as far as they are known, and nothing else.
pub open spec fn labels_are(
    labels: Map<Seq<char>, LabelView>,
    host: Option<Seq<char>>,
    process: Option<Seq<char>>,
    pid: Option<i64>,
) -> bool {
    &&& label_is(labels, "source"@, Some(LabelView::Str("syslog"@)))
    &&& label_is(labels, "hostname"@, text_label(host))
    &&& label_is(labels, "process"@, text_label(process))
    &&& label_is(
        labels,
        "pid"@,
        match pid {
            Some(n) => Some(LabelView::Int(n)),
            None => None,
        },
    )
    &&& forall|k: Seq<char>| #[trigger]
        labels.contains_key(k) ==> k == "source"@ || k == "hostname"@ || k == "process"@ || k
            == "pid"@
}

/// The label with a text, if there is one.
pub open spec fn text_label(text: Option<Seq<char>>) -> Option<LabelView> {
    match text {
        Some(t) => Some(LabelView::Str(t)),
        None => None,
    }
}

/// The time of an entry whose timestamp is the text `t`: what chrono reads, unless that is
/// before 1970.
pub open spec fn time_is(t: Seq<char>, ms: Option<u64>) -> bool {
    match rfc3339_millis(t) {
        Some(n) => if n >= 0 {
            ms == Some(n as u64)
        } else {
            ms is None
        },
        None => ms is None,
    }
}

/// Something other than digits, where at most one of the signs may stand in front.
pub open spec fn no_number(s: Seq<char>) -> bool {
    ||| s.len() == 0
    ||| s.len() == 1 && !digit(s[0])
    ||| !digit(s[0]) && s[0] != '+' && s[0] != '-'
    ||| exists|i: int| 1 <= i < s.len() && !digit(#[trigger] s[i])
}

/// The text `pri` stands for the priority `n`: it is the number, or, where it is no number
/// of eight bits, the priority is 13.
pub open spec fn stands_for(pri: Seq<char>, n: nat) -> bool {
    match parse_unsigned(pri, 255) {
        Some(k) => n == k,
        None => n == 13,
    }
}

/// The text `s` is the process id `pid`, or no number where that is missing.
pub open spec fn process_id_is(s: Seq<char>, pid: Option<i64>) -> bool {
    match pid {
        Some(n) => parse_signed(s) == Some(n as int),
        None => parse_signed(s) is None,
    }
}

proof fn lemma_label_names()
    ensures
        "source"@.len() == 6,
        "hostname"@.len() == 8,
        "process"@.len() == 7,
        "pid"@.len() == 3,
{
    reveal_strlit("source");
    reveal_strlit("hostname");
    reveal_strlit("process");
    reveal_strlit("pid");
}

pub proof fn lemma_no_number(s: Seq<char>)
    requires
        no_number(s),
    ensures
        parse_signed(s) is None,
        forall|max: nat| #[trigger] parse_unsigned(s, max) is None,
{
    if exists|i: int| 1 <= i < s.len() && !digit(#[trigger] s[i]) {
        let i = choose|i: int| 1 <= i < s.len() && !digit(#[trigger] s[i]);
        assert(s.skip(1)[i - 1] == s[i]);
    } else if s.len() > 0 && !digit(s[0]) {
        assert(s.len() == 1 ==> s.skip(1).len() == 0);
    }
}

proof fn lemma_stands_for(pri: Seq<char>, n: nat)
    requires
        stands_for(pri, n),
    ensures
        priority(pri) == n,
{
}

/// An RFC 5424 line, as it is read: the message is the body, the priority gives the
/// severity, the timestamp the time. Host and application are labels unless they are `-`,
/// and the process id where it is a number.
pub proof fn law_rfc5424_line_is_read(
    pri: Seq<char>,
    n: nat,
    timestamp: Seq<char>,
    host: Seq<char>,
    app: Seq<char>,
    process_id: Seq<char>,
    pid: Option<i64>,
    message_id: Seq<char>,
    data: Seq<char>,
    message: Seq<char>,
)
    requires
        !pri.contains('>'),
        stands_for(pri, n),
        timestamp.len() > 0,
        !crate::text::space(timestamp[0]),
        no_space(timestamp),
        no_space(host),
        no_space(app),
        no_space(process_id),
        process_id_is(process_id, pid),
        no_space(message_id),
        no_space(data),
        message.len() > 0 ==> message[0] != '\u{feff}',
    ensures
        ({
            let parts = seq![timestamp, host, app, process_id, message_id, data, message];
            let e = as_read(with_priority(pri, seq!['1', ' '] + joined(parts)));
            &&& e.body == strip(message)
            &&& severity_is(n, e.severity)
            &&& time_is(timestamp, e.timestamp_ms)
            &&& e.uptime_ms is None
            &&& e.source == "syslog"@
            &&& labels_are(
                e.labels,
                if host == "-"@ {
                    None
                } else {
                    Some(host)
                },
                if app == "-"@ {
                    None
                } else {
                    Some(app)
                },
                pid,
            )
        }),
{
    let parts = seq![timestamp, host, app, process_id, message_id, data, message];
    let line = with_priority(pri, seq!['1', ' '] + joined(parts));
    law_rfc5424_reads_back(
        pri,
        timestamp,
        host,
        app,
        process_id,
        message_id,
        data,
        message,
        rfc5424_ms(line),
    );
    lemma_stands_for(pri, n);
    lemma_label_names();
}

/// The tag of a process, with its id if that is known.
pub open spec fn tag_with(process: Seq<char>, pid: Option<i64>) -> Seq<char> {
    match pid {
        Some(n) => tag_of(process, n),
        None => process,
    }
}

/// A tag is a word, does not end with a colon, and reads back.
proof fn lemma_tag_with(process: Seq<char>, pid: Option<i64>)
    requires
        one_word(process),
        process.last() != ':',
        !process.contains('['),
    ensures
        one_word(tag_with(process, pid)),
        tag_with(process, pid).last() != ':',
        tag_parts(tag_with(process, pid)).0 == process,
        tag_parts(tag_with(process, pid)).1 == match pid {
            Some(n) => Some(n as int),
            None => None,
        },
{
    match pid {
        Some(n) => {
            law_tag_reads_back(process, n);
            let digits = signed_decimal(n as int);
            lemma_decimal(if n < 0 {
                (-n) as nat
            } else {
                n as nat
            });
            let tag = tag_of(process, n);
            assert forall|i: int| 0 <= i < digits.len() implies !ascii_space(
                #[trigger] digits[i],
            ) by {
                if n < 0 {
                    if i > 0 {
                        assert(digits[i] == decimal((-n) as nat)[i - 1]);
                        assert(digit(decimal((-n) as nat)[i - 1]));
                    }
                } else {
                    assert(digit(decimal(n as nat)[i]));
                }
            }
            assert forall|i: int| 0 <= i < tag.len() implies !ascii_space(#[trigger] tag[i]) by {
                if i < process.len() {
                    assert(tag[i] == process[i]);
                } else if process.len() < i < process.len() + 1 + digits.len() {
                    assert(tag[i] == digits[i - process.len() - 1]);
                }
            }
        },
        None => {
            law_plain_tag_reads_back(process);
        },
    }
}

/// An RFC 3164 line, as it is read, whether or not its day has a second space in front:
/// the message is the body, the priority gives the severity, there is no time, and host,
/// process and process id are labels.
pub proof fn law_rfc3164_line_is_read(
    pri: Seq<char>,
    n: nat,
    month: Seq<char>,
    padded: bool,
    day: Seq<char>,
    time: Seq<char>,
    host: Seq<char>,
    process: Seq<char>,
    pid: Option<i64>,
    message: Seq<char>,
)
    requires
        !pri.contains('>'),
        stands_for(pri, n),
        one_word(month),
        month[0] != '1',
        one_word(day),
        one_word(time),
        one_word(host),
        host.last() != ':',
        one_word(process),
        process.last() != ':',
        !process.contains('['),
        message.len() > 0,
    ensures
        ({
            let mark = tag_with(process, pid) + seq![':'];
            let text = if padded {
                joined(seq![month, Seq::empty(), day, time, host, mark, message])
            } else {
                joined(seq![month, day, time, host, mark, message])
            };
            let e = as_read(with_priority(pri, text));
            &&& e.body == strip(message)
            &&& severity_is(n, e.severity)
            &&& e.timestamp_ms is None
            &&& e.uptime_ms is None
            &&& e.source == "syslog"@
            &&& labels_are(e.labels, Some(host), Some(process), pid)
        }),
{
    let tag = tag_with(process, pid);
    let mark = tag + seq![':'];
    let text = if padded {
        joined(seq![month, Seq::empty(), day, time, host, mark, message])
    } else {
        joined(seq![month, day, time, host, mark, message])
    };
    lemma_tag_with(process, pid);
    if padded {
        law_rfc3164_with_padded_day_reads_back(pri, month, day, time, host, tag, message);
    } else {
        law_rfc3164_reads_back(pri, month, day, time, host, tag, message);
    }
    law_priority_reads_back(pri, text);
    assert(text[0] == month[0]);
    lemma_stands_for(pri, n);
    lemma_label_names();
}

/// Nothing but closing brackets.
pub open spec fn brackets(s: Seq<char>) -> bool {
    forall|i: int| 0 <= i < s.len() ==> #[trigger] s[i] == ']'
}

/// The tag is that of a process and its id: the name alone, or the name, a bracket, a text
/// that is or is not a number, and any number of closing brackets.
pub open spec fn tag_says(tag: Seq<char>, process: Seq<char>, pid: Option<i64>) -> bool {
    &&& !process.contains('[')
    &&& {
        ||| tag == process && pid is None
        ||| exists|y: Seq<char>, marks: Seq<char>|
            tag == #[trigger] (process + seq!['['] + y + marks) && brackets(marks) && (y.len() > 0
                ==> y.last() != ']') && process_id_is(y, pid)
    }
}

/// A tag is taken apart into the name of the process and its id.
pub proof fn law_tag_names_process_and_id(tag: Seq<char>, process: Seq<char>, pid: Option<i64>)
    requires
        tag_says(tag, process, pid),
    ensures
        tag_parts(tag).0 == process,
        tag_parts(tag).1 == match pid {
            Some(n) => Some(n as int),
            None => None,
        },
{
    if tag == process && pid is None {
        law_plain_tag_reads_back(process);
    } else {
        let (y, marks) = choose|y: Seq<char>, marks: Seq<char>|
            tag == #[trigger] (process + seq!['['] + y + marks) && brackets(marks) && (y.len() > 0
                ==> y.last() != ']') && process_id_is(y, pid);
        let behind = y + marks;
        assert(tag =~= process + seq!['['] + behind);
        lemma_position(process, '[', behind);
        assert(tag.take(process.len() as int) =~= process);
        assert(tag.skip(process.len() as int + 1) =~= behind);
        assert forall|i: int| behind.len() - marks.len() <= i < behind.len() implies crate::text::just(
            ']',
        )(#[trigger] behind[i]) by {
            assert(behind[i] == marks[i - y.len()]);
        }
        if y.len() > 0 {
            assert(behind[behind.len() - marks.len() - 1] == y.last());
        }
        crate::text::lemma_back_span(behind, crate::text::just(']'), marks.len());
        assert(behind.take(behind.len() - marks.len()) =~= y);
    }
}

/// A line in rsyslog's default format, as it is read: the message is the body, the
/// timestamp gives the time, and host, process and process id are labels. Colons behind the
/// tag are no part of it, and a process without a name is no label.
pub proof fn law_rsyslog_line_is_read(
    timestamp: Seq<char>,
    ms: i64,
    host: Seq<char>,
    tag: Seq<char>,
    process: Seq<char>,
    pid: Option<i64>,
    marks: Seq<char>,
    message: Seq<char>,
)
    requires
        timestamp.len() > 0,
        timestamp[0] != '<',
        no_space(timestamp),
        rfc3339_millis(timestamp) == Some(ms),
        ms >= 0,
        no_space(host),
        no_space(tag),
        tag_says(tag, process, pid),
        tag.len() > 0 ==> tag.last() != ':',
        colons(marks),
        message.len() > 0,
        !crate::text::space(message[0]),
    ensures
        ({
            let e = as_read(joined(seq![timestamp, host, tag + marks, message]));
            &&& e.body == strip(message)
            &&& e.timestamp_ms == Some(ms as u64)
            &&& e.uptime_ms is None
            &&& e.source == "syslog"@
            &&& labels_are(
                e.labels,
                Some(host),
                if process.len() > 0 {
                    Some(process)
                } else {
                    None
                },
                pid,
            )
        }),
{
    let mark = tag + marks;
    let parts = seq![timestamp, host, mark, message];
    law_tag_names_process_and_id(tag, process, pid);
    lemma_trailing_colons(tag, marks);
    if mark.contains(' ') {
        let i = choose|i: int| 0 <= i < mark.len() && mark[i] == ' ';
        if i < tag.len() {
            assert(tag[i] == ' ');
        } else {
            assert(marks[i - tag.len()] == ':');
        }
    }
    law_fields_read_back(parts);
    crate::sources::syslog_laws::lemma_trim_start(message);
    assert(joined(parts)[0] == timestamp[0]);
    lemma_label_names();
}

/// The first field of the line is `first`, and that is not a time since 1970.
pub open spec fn no_time(line: Seq<char>, first: Seq<char>, rest: Seq<char>) -> bool {
    &&& no_space(first)
    &&& line == first || line == first + seq![' '] + rest
    &&& rfc3339_millis(first) is None || rfc3339_millis(first)->0 < 0
}

/// The line consists of these fields, of which there are three at most.
pub open spec fn few_fields(line: Seq<char>, parts: Seq<Seq<char>>) -> bool {
    &&& line == joined(parts)
    &&& 1 <= parts.len() <= 3
    &&& forall|i: int| 0 <= i < parts.len() ==> no_space(#[trigger] parts[i])
}

/// A line that has no priority, and whose first field is not a time since 1970 or that has
/// fewer than four fields, becomes the body as a whole. It has no time, and no label but
/// where it comes from.
pub proof fn law_other_line_is_the_body(
    line: Seq<char>,
    first: Seq<char>,
    rest: Seq<char>,
    parts: Seq<Seq<char>>,
)
    requires
        !(line.len() > 0 && line[0] == '<') || !line.contains('>'),
        no_time(line, first, rest) || few_fields(line, parts),
    ensures
        as_read(line).body == strip(line),
        as_read(line).timestamp_ms is None,
        as_read(line).uptime_ms is None,
        as_read(line).source == "syslog"@,
        labels_are(as_read(line).labels, None, None, None),
{
    lemma_no_priority(line);
    lemma_label_names();
    if few_fields(line, parts) {
        lemma_few_fields(parts, 4);
    } else if line == first + seq![' '] + rest {
        lemma_position(first, ' ', rest);
        assert(line.take(first.len() as int) =~= first);
    } else {
        lemma_no_position(first);
    }
}

/// A text without a space is one field.
proof fn lemma_no_position(s: Seq<char>)
    requires
        no_space(s),
    ensures
        position(s, ' ') is None,
{
    crate::text::lemma_span_holds(s, other_than(' '));
    let n = span(s, other_than(' '));
    if n < s.len() {
        assert(s[n as int] == ' ');
    }
}

/// A colon stands in `s` at `i`, and a space right behind it.
pub open spec fn mark_at(s: Seq<char>, i: int) -> bool {
    i + 1 < s.len() && s[i] == ':' && s[i + 1] == ' '
}

/// Nowhere in `s` does a space follow a colon.
pub open spec fn no_mark(s: Seq<char>) -> bool {
    forall|i: int| 0 <= i < s.len() ==> !#[trigger] mark_at(s, i)
}

/// A text without a colon and a space has none at or behind any place.
proof fn lemma_no_mark(s: Seq<char>, from: int)
    requires
        no_mark(s),
        0 <= from,
    ensures
        colon_space(s, from) is None,
    decreases s.len() - from,
{
    if from + 1 < s.len() {
        assert(!mark_at(s, from));
        lemma_no_mark(s, from + 1);
    }
}

/// What stands behind the first colon and space.
proof fn lemma_behind_mark(x: Seq<char>, y: Seq<char>)
    requires
        no_mark(x),
    ensures
        behind_tag(x + seq![':', ' '] + y) == y,
{
    let s = x + seq![':', ' '] + y;
    assert forall|i: int| 0 <= i < x.len() implies !(s[i] == ':' && #[trigger] s[i + 1] == ' ') by {
        assert(!mark_at(x, i));
        assert(s[i] == x[i]);
    }
    crate::sources::syslog_laws::lemma_colon_space(s, 0, x.len() as int);
    assert(s.skip(x.len() as int + 2) =~= y);
}

/// What follows the priority is not in the form of RFC 5424: it does not start with the
/// version, or there are fewer than seven fields behind that.
pub open spec fn not_rfc5424(text: Seq<char>) -> bool {
    ||| text.len() == 0
    ||| text[0] != '1'
    ||| exists|white: Seq<char>, parts: Seq<Seq<char>>|
        text == seq!['1'] + #[trigger] (white + joined(parts)) && crate::text::blank(white) && 1
            <= parts.len() <= 6 && (forall|i: int|
            0 <= i < parts.len() ==> no_space(#[trigger] parts[i])) && (joined(parts).len() > 0
            ==> !crate::text::space(joined(parts)[0]))
}

proof fn lemma_not_rfc5424(pri: Seq<char>, text: Seq<char>)
    requires
        !pri.contains('>'),
        not_rfc5424(text),
    ensures
        forall|ms: Option<u64>| #[trigger] rfc5424(with_priority(pri, text), ms) is None,
{
    law_priority_reads_back(pri, text);
    if text.len() > 0 && text[0] == '1' {
        let (white, parts) = choose|white: Seq<char>, parts: Seq<Seq<char>>|
            text == seq!['1'] + #[trigger] (white + joined(parts)) && crate::text::blank(white) && 1
                <= parts.len() <= 6 && (forall|i: int|
                0 <= i < parts.len() ==> no_space(#[trigger] parts[i])) && (joined(parts).len() > 0
                ==> !crate::text::space(joined(parts)[0]));
        law_incomplete_line_is_not_rfc5424(pri, white, parts, None);
    }
}

/// What stands behind the fourth space of an RFC 3164 line is its tag and its message: the
/// body is what follows the first colon and space there, or all of it where there are
/// none. The priority gives the severity. Where that leaves nothing, the line becomes the
/// body as a whole.
pub proof fn law_rfc3164_body_follows_the_tag(
    pri: Seq<char>,
    n: nat,
    head: Seq<Seq<char>>,
    x: Seq<char>,
    y: Seq<char>,
)
    requires
        !pri.contains('>'),
        stands_for(pri, n),
        head.len() == 4,
        forall|i: int| 0 <= i < 4 ==> no_space(#[trigger] head[i]),
        no_mark(x),
    ensures
        not_rfc5424(joined(head.push(x + seq![':', ' '] + y))) ==> ({
            let line = with_priority(pri, joined(head.push(x + seq![':', ' '] + y)));
            let e = as_read(line);
            &&& y.len() > 0 ==> e.body == strip(y) && severity_is(n, e.severity)
            &&& y.len() == 0 ==> e.body == strip(line) && labels_are(e.labels, None, None, None)
        }),
        not_rfc5424(joined(head.push(x))) ==> ({
            let line = with_priority(pri, joined(head.push(x)));
            let e = as_read(line);
            &&& x.len() > 0 ==> e.body == strip(x) && severity_is(n, e.severity)
            &&& x.len() == 0 ==> e.body == strip(line) && labels_are(e.labels, None, None, None)
        }),
        as_read(with_priority(pri, Seq::empty())).body == strip(with_priority(pri, Seq::empty())),
{
    lemma_stands_for(pri, n);
    lemma_label_names();
    if not_rfc5424(joined(head.push(x + seq![':', ' '] + y))) {
        lemma_not_rfc5424(pri, joined(head.push(x + seq![':', ' '] + y)));
    }
    if not_rfc5424(joined(head.push(x))) {
        lemma_not_rfc5424(pri, joined(head.push(x)));
    }
    lemma_not_rfc5424(pri, Seq::empty());
    law_priority_reads_back(pri, Seq::empty());
    lemma_no_position(Seq::empty());
    assert(no_mark(Seq::empty()));
    lemma_no_mark(Seq::empty(), 0);
    assert(with_priority(pri, joined(head.push(x)))[0] == '<');
    assert(with_priority(pri, joined(head.push(x + seq![':', ' '] + y)))[0] == '<');
    assert(with_priority(pri, Seq::empty())[0] == '<');
    lemma_behind_mark(x, y);
    lemma_no_mark(x, 0);
    let long = x + seq![':', ' '] + y;
    lemma_fifth_field(head, long);
    lemma_fifth_field(head, x);
    law_priority_reads_back(pri, joined(head.push(long)));
    law_priority_reads_back(pri, joined(head.push(x)));
}

/// What is behind four fields.
proof fn lemma_fifth_field(head: Seq<Seq<char>>, tail: Seq<char>)
    requires
        head.len() == 4,
        forall|i: int| 0 <= i < 4 ==> no_space(#[trigger] head[i]),
    ensures
        behind_header(joined(head.push(tail))) == tail,
{
    let five = head.push(tail);
    assert forall|i: int| 0 <= i < five.len() - 1 implies no_space(#[trigger] five[i]) by {
        assert(five[i] == head[i]);
    }
    law_fields_read_back(five);
}

/// An RFC 3164 line with fewer than four spaces behind its priority has no header: the body
/// is what follows the first colon and space, or all of it where there are none.
pub proof fn law_short_rfc3164_line_is_read(
    pri: Seq<char>,
    n: nat,
    parts: Seq<Seq<char>>,
    x: Seq<char>,
    y: Seq<char>,
)
    requires
        !pri.contains('>'),
        stands_for(pri, n),
        1 <= parts.len() <= 4,
        forall|i: int| 0 <= i < parts.len() ==> no_space(#[trigger] parts[i]),
        not_rfc5424(joined(parts)),
        no_mark(x),
        joined(parts) == x || joined(parts) == x + seq![':', ' '] + y,
    ensures
        ({
            let e = as_read(with_priority(pri, joined(parts)));
            &&& joined(parts) == x && x.len() > 0 ==> e.body == strip(x) && severity_is(
                n,
                e.severity,
            )
            &&& joined(parts) != x && y.len() > 0 ==> e.body == strip(y) && severity_is(
                n,
                e.severity,
            )
        }),
{
    let text = joined(parts);
    lemma_stands_for(pri, n);
    lemma_not_rfc5424(pri, text);
    lemma_few_fields(parts, 5);
    lemma_no_mark(x, 0);
    lemma_behind_mark(x, y);
    law_priority_reads_back(pri, text);
}

/// There are no more fields than texts without a space that were joined.
proof fn lemma_few_fields(parts: Seq<Seq<char>>, n: nat)
    requires
        1 <= parts.len() < n,
        forall|i: int| 0 <= i < parts.len() ==> no_space(#[trigger] parts[i]),
    ensures
        fields(joined(parts), n).len() == parts.len(),
    decreases parts.len(),
{
    let first = parts[0];
    if parts.len() == 1 {
        lemma_no_position(first);
    } else {
        let rest = parts.skip(1);
        assert forall|i: int| 0 <= i < rest.len() implies no_space(#[trigger] rest[i]) by {
            assert(rest[i] == parts[i + 1]);
        }
        lemma_few_fields(rest, (n - 1) as nat);
        lemma_position(first, ' ', joined(rest));
        let s = joined(parts);
        assert(s.skip(first.len() as int + 1) =~= joined(rest));
    }
}

/// Byte order marks in front of the message of an RFC 5424 line are no part of the body, and
/// it does not matter how much whitespace stands behind the version.
pub proof fn law_byte_order_marks_are_dropped(
    pri: Seq<char>,
    n: nat,
    white: Seq<char>,
    head: Seq<Seq<char>>,
    marks: Seq<char>,
    message: Seq<char>,
)
    requires
        !pri.contains('>'),
        stands_for(pri, n),
        crate::text::blank(white),
        head.len() == 6,
        forall|i: int| 0 <= i < 6 ==> no_space(#[trigger] head[i]),
        head[0].len() > 0,
        !crate::text::space(head[0][0]),
        forall|i: int| 0 <= i < marks.len() ==> #[trigger] marks[i] == '\u{feff}',
        message.len() > 0 ==> message[0] != '\u{feff}',
    ensures
        ({
            let rest = seq!['1'] + (white + joined(head.push(marks + message)));
            let e = as_read(with_priority(pri, rest));
            &&& e.body == strip(message)
            &&& severity_is(n, e.severity)
            &&& time_is(head[0], e.timestamp_ms)
        }),
{
    let parts = head.push(marks + message);
    let text = joined(parts);
    let rest = seq!['1'] + (white + text);
    law_priority_reads_back(pri, rest);
    lemma_stands_for(pri, n);
    assert forall|i: int| 0 <= i < parts.len() - 1 implies no_space(#[trigger] parts[i]) by {
        assert(parts[i] == head[i]);
    }
    law_fields_read_back(parts);
    assert(parts[0] == head[0]);
    assert(text[0] == head[0][0]);
    assert(rest.skip(1) =~= white + text);
    lemma_behind_white(white, text);
    let whole = marks + message;
    assert forall|i: int| 0 <= i < marks.len() implies crate::text::just('\u{feff}')(
        #[trigger] whole[i],
    ) by {
        assert(whole[i] == marks[i]);
    }
    if message.len() > 0 {
        assert(whole[marks.len() as int] == message[0]);
    }
    crate::text::lemma_span(whole, crate::text::just('\u{feff}'), marks.len());
    assert(whole.skip(marks.len() as int) =~= message);
}

/// Whitespace in front of the message of a line in rsyslog's default format is no part of
/// the body; a line with nothing else behind its tag becomes the body as a whole.
pub proof fn law_space_before_the_message_is_dropped(
    timestamp: Seq<char>,
    ms: i64,
    host: Seq<char>,
    tag: Seq<char>,
    blank: Seq<char>,
    message: Seq<char>,
)
    requires
        timestamp.len() > 0,
        timestamp[0] != '<',
        no_space(timestamp),
        rfc3339_millis(timestamp) == Some(ms),
        ms >= 0,
        no_space(host),
        no_space(tag),
        forall|i: int| 0 <= i < blank.len() ==> crate::text::space(#[trigger] blank[i]),
        message.len() > 0 ==> !crate::text::space(message[0]),
    ensures
        ({
            let line = joined(seq![timestamp, host, tag, blank + message]);
            &&& message.len() > 0 ==> as_read(line).body == strip(message)
                && as_read(line).timestamp_ms == Some(ms as u64)
            &&& message.len() == 0 ==> as_read(line).body == strip(line)
                && as_read(line).timestamp_ms is None
        }),
{
    let parts = seq![timestamp, host, tag, blank + message];
    law_fields_read_back(parts);
    assert(joined(parts)[0] == timestamp[0]);
    let whole = blank + message;
    assert forall|i: int| 0 <= i < blank.len() implies crate::text::spaces()(
        #[trigger] whole[i],
    ) by {
        assert(whole[i] == blank[i]);
    }
    if message.len() > 0 {
        assert(whole[blank.len() as int] == message[0]);
    }
    crate::text::lemma_span(whole, crate::text::spaces(), blank.len());
    assert(whole.skip(blank.len() as int) =~= message);
}

/// Whitespace in front of a text is dropped.
proof fn lemma_behind_white(white: Seq<char>, text: Seq<char>)
    requires
        crate::text::blank(white),
        text.len() > 0 ==> !crate::text::space(text[0]),
    ensures
        crate::text::trim_start(white + text) == text,
{
    let whole = white + text;
    assert forall|i: int| 0 <= i < white.len() implies crate::text::spaces()(
        #[trigger] whole[i],
    ) by {
        assert(whole[i] == white[i]);
    }
    if text.len() > 0 {
        assert(whole[white.len() as int] == text[0]);
    }
    crate::text::lemma_span(whole, crate::text::spaces(), white.len());
    assert(whole.skip(white.len() as int) =~= text);
}

/// A line with the version of RFC 5424 but fewer than seven fields behind it is not in that
/// form.
pub proof fn law_incomplete_line_is_not_rfc5424(
    pri: Seq<char>,
    white: Seq<char>,
    parts: Seq<Seq<char>>,
    ms: Option<u64>,
)
    requires
        !pri.contains('>'),
        crate::text::blank(white),
        1 <= parts.len() <= 6,
        forall|i: int| 0 <= i < parts.len() ==> no_space(#[trigger] parts[i]),
        joined(parts).len() > 0 ==> !crate::text::space(joined(parts)[0]),
    ensures
        rfc5424(with_priority(pri, seq!['1'] + (white + joined(parts))), ms) is None,
{
    let rest = seq!['1'] + (white + joined(parts));
    law_priority_reads_back(pri, rest);
    assert(rest.skip(1) =~= white + joined(parts));
    lemma_behind_white(white, joined(parts));
    lemma_few_fields(parts, 7);
}

/// Nothing but colons.
pub open spec fn colons(s: Seq<char>) -> bool {
    forall|i: int| 0 <= i < s.len() ==> #[trigger] s[i] == ':'
}

/// Colons behind a tag are no part of it.
proof fn lemma_trailing_colons(tag: Seq<char>, marks: Seq<char>)
    requires
        colons(marks),
        tag.len() > 0 ==> tag.last() != ':',
    ensures
        trim_end_of(tag + marks, ':') == tag,
{
    let s = tag + marks;
    assert forall|i: int| s.len() - marks.len() <= i < s.len() implies crate::text::just(':')(
        #[trigger] s[i],
    ) by {
        assert(s[i] == marks[i - tag.len()]);
    }
    if tag.len() > 0 {
        assert(s[s.len() - marks.len() - 1] == tag.last());
    }
    crate::text::lemma_back_span(s, crate::text::just(':'), marks.len());
    assert(s.take(s.len() - marks.len()) =~= tag);
}

/// A text that does not end with a space has something behind its first colon and space.
proof fn lemma_mark_is_not_the_end(s: Seq<char>, from: int)
    requires
        s.len() > 0,
        s.last() != ' ',
        0 <= from,
    ensures
        colon_space(s, from) matches Some(i) ==> from <= i && i + 2 < s.len(),
    decreases s.len() - from,
{
    if from + 1 < s.len() && !(s[from] == ':' && s[from + 1] == ' ') {
        lemma_mark_is_not_the_end(s, from + 1);
    }
}

/// The last of some joined texts is the end of the whole.
proof fn lemma_joined_end(parts: Seq<Seq<char>>)
    requires
        parts.len() > 0,
        parts.last().len() > 0,
    ensures
        joined(parts).len() > 0,
        joined(parts).last() == parts.last().last(),
    decreases parts.len(),
{
    if parts.len() > 1 {
        assert(parts.skip(1).last() == parts.last());
        lemma_joined_end(parts.skip(1));
    }
}

/// What the words behind the priority of an RFC 3164 line are: the fourth is the host, the
/// fifth the tag, a process name, which may be missing, and its id in brackets, which may be
/// missing too, and any number of colons. With fewer words there is no tag, or neither.
pub proof fn law_words_of_rfc3164_are_labels(
    pri: Seq<char>,
    n: nat,
    parts: Seq<Seq<char>>,
    tag: Seq<char>,
    process: Seq<char>,
    pid: Option<i64>,
    marks: Seq<char>,
)
    requires
        !pri.contains('>'),
        stands_for(pri, n),
        parts.len() > 0,
        forall|i: int| 0 <= i < parts.len() ==> one_word(#[trigger] parts[i]),
        not_rfc5424(joined(parts)),
        tag_says(tag, process, pid),
        tag.len() > 0 ==> tag.last() != ':',
        colons(marks),
        parts.len() > 4 ==> parts[4] == tag + marks,
    ensures
        ({
            let e = as_read(with_priority(pri, joined(parts)));
            &&& severity_is(n, e.severity)
            &&& e.timestamp_ms is None
            &&& parts.len() <= 3 ==> labels_are(e.labels, None, None, None)
            &&& parts.len() == 4 ==> labels_are(e.labels, Some(parts[3]), None, None)
            &&& parts.len() > 4 ==> labels_are(
                e.labels,
                Some(parts[3]),
                if process.len() > 0 {
                    Some(process)
                } else {
                    None
                },
                pid,
            )
        }),
{
    let text = joined(parts);
    lemma_stands_for(pri, n);
    lemma_label_names();
    law_priority_reads_back(pri, text);
    lemma_not_rfc5424(pri, text);
    // The words.
    let none = Seq::<char>::empty();
    let last = parts[parts.len() - 1];
    crate::sources::syslog_laws::law_words_read_back(parts);
    assert(one_word(last));
    lemma_first_word(last, none);
    assert(last + none =~= last);
    lemma_no_words();
    assert(seq![last] + words(none) =~= seq![last]);
    assert(parts.drop_last() + seq![last] =~= parts);
    assert(words(text) == parts);
    // There is a body.
    assert(behind_tag(behind_header(text)).len() > 0) by {
        assert(!ascii_space(last[last.len() - 1]));
        if parts.len() >= 5 {
            let head = parts.take(4);
            let tail = parts.skip(4);
            assert forall|i: int| 0 <= i < 4 implies no_space(#[trigger] head[i]) by {
                assert(head[i] == parts[i]);
                crate::sources::syslog_laws::lemma_no_space_in_word(parts[i]);
            }
            assert(head + tail =~= parts);
            crate::sources::syslog_laws::lemma_behind_header(head, tail);
            assert(tail.last() == last);
            lemma_joined_end(tail);
            lemma_mark_is_not_the_end(joined(tail), 0);
        } else {
            assert forall|i: int| 0 <= i < parts.len() implies no_space(#[trigger] parts[i]) by {
                crate::sources::syslog_laws::lemma_no_space_in_word(parts[i]);
            }
            lemma_few_fields(parts, 5);
            lemma_joined_end(parts);
            lemma_mark_is_not_the_end(text, 0);
        }
    }
    // The tag.
    law_tag_names_process_and_id(tag, process, pid);
    lemma_trailing_colons(tag, marks);
}

} // verus!
