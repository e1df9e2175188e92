//! Following a log that grows: what to do next.
//!
//! A source reads on until it is told to stop. Its loop performs each action and hands
//! back what came of it.

use vstd::prelude::*;
use crate::log_entry::{LogEntry, LogEntryView};
use crate::sources::journald::{entry_to_log, journal_entry, journal_fields};
use crate::sources::syslog::{as_read, parse_line};
use crate::sources::syslog_laws::lemma_one_trailing;
use crate::string_map::StringMap;
use crate::text::{from_chars, to_chars, trim_end_of, without_trailing};

verus! {

/// How long to wait for more to read, in milliseconds.
pub const TAIL_PAUSE_MS: u64 = 200;

/// How long to wait after an error, in milliseconds.
pub const ERROR_PAUSE_MS: u64 = 1000;

/// A line without its line end.
pub open spec fn without_line_end(line: Seq<char>) -> Seq<char> {
    trim_end_of(trim_end_of(line, '\n'), '\r')
}

/// The entry for a line of a syslog file. An empty line has none.
pub open spec fn syslog_line(line: Seq<char>) -> Option<LogEntryView> {
    let text = without_line_end(line);
    if text.len() == 0 {
        None
    } else {
        Some(as_read(text))
    }
}

/// Reads a line of a syslog file.
pub fn read_syslog_line(line: &str) -> (r: Option<LogEntry>)
    ensures
        match r {
            Some(e) => syslog_line(line@) == Some(e@),
            None => syslog_line(line@) is None,
        },
{
    let chars = to_chars(line);
    let text = without_trailing(without_trailing(chars.as_slice(), '\n'), '\r');
    if text.len() == 0 {
        None
    } else {
        Some(parse_line(from_chars(text).as_str()))
    }
}

/// What came of following a file.
pub enum TailEvent {
    /// It is time to go on, or, on shutdown, to stop.
    Next { shutdown: bool },
    /// A line was read.
    Line(String),
    /// There is nothing more to read now.
    End,
    ReadFailed,
    /// The number of the file that is at the path now; none if there is no file.
    Inode(Option<u64>),
    /// The path was opened again, where this file was.
    Reopened(Option<u64>),
    ReopenFailed,
    Sent,
    /// Nobody receives entries any more.
    SendFailed,
}

/// What to do next.
pub enum TailAction {
    Stop,
    /// Read a line.
    Read,
    /// Hand on this entry.
    Send(LogEntry),
    /// Wait so many milliseconds, then look which file is at the path.
    PauseAndLook(u64),
    /// Open the path again and read it from its start.
    Reopen,
    /// Wait so many milliseconds, then go on.
    Pause(u64),
    /// Go on.
    Continue,
}

/// The file that is being followed, by its number.
#[derive(Debug)]
pub struct Tail {
    pub inode: Option<u64>,
}

/// `action` answers `event`, where the file `had` was followed before and `now` is after.
pub open spec fn answered(
    had: Option<u64>,
    event: TailEvent,
    now: Option<u64>,
    action: TailAction,
) -> bool {
    &&& now == match event {
        TailEvent::Reopened(inode) => inode,
        _ => had,
    }
    &&& match event {
        TailEvent::Next { shutdown } => action == if shutdown {
            TailAction::Stop
        } else {
            TailAction::Read
        },
        TailEvent::Line(line) => match syslog_line(line@) {
            Some(e) => action matches TailAction::Send(sent) && sent@ == e,
            None => action == TailAction::Continue,
        },
        TailEvent::End => action == TailAction::PauseAndLook(TAIL_PAUSE_MS),
        TailEvent::ReadFailed => action == TailAction::Pause(ERROR_PAUSE_MS),
        TailEvent::Inode(inode) => action == if inode != had {
            TailAction::Reopen
        } else {
            TailAction::Continue
        },
        TailEvent::Reopened(_) | TailEvent::ReopenFailed | TailEvent::Sent => action
            == TailAction::Continue,
        TailEvent::SendFailed => action == TailAction::Stop,
    }
}

impl Tail {
    /// The next action. A file that has taken the place of the one that is followed is
    /// opened from its start, and tried again as long as that fails.
    pub fn step(&mut self, event: TailEvent) -> (r: TailAction)
        ensures
            answered(old(self).inode, event, final(self).inode, r),
    {
        match event {
            TailEvent::Next { shutdown } => if shutdown {
                TailAction::Stop
            } else {
                TailAction::Read
            },
            TailEvent::Line(line) => match read_syslog_line(line.as_str()) {
                Some(e) => TailAction::Send(e),
                None => TailAction::Continue,
            },
            TailEvent::End => TailAction::PauseAndLook(TAIL_PAUSE_MS),
            TailEvent::ReadFailed => TailAction::Pause(ERROR_PAUSE_MS),
            TailEvent::Inode(inode) => if inode != self.inode {
                TailAction::Reopen
            } else {
                TailAction::Continue
            },
            TailEvent::Reopened(inode) => {
                self.inode = inode;
                TailAction::Continue
            },
            TailEvent::ReopenFailed | TailEvent::Sent => TailAction::Continue,
            TailEvent::SendFailed => TailAction::Stop,
        }
    }
}

/// What came of following the journal.
pub enum JournalEvent {
    /// It is time to go on, or, on shutdown, to stop.
    Next { shutdown: bool },
    /// An entry was read, with these fields.
    Entry(StringMap<String>),
    /// There is nothing more to read now.
    End,
    ReadFailed,
    Sent,
    /// Nobody receives entries any more.
    SendFailed,
}

/// What to do next.
pub enum JournalAction {
    Stop,
    /// Read an entry.
    Read,
    /// Hand on this entry.
    Send(LogEntry),
    /// Wait at most so many milliseconds for the journal to change, then go on.
    AwaitChange(u64),
    /// Wait so many milliseconds, then go on.
    Pause(u64),
    /// Go on.
    Continue,
}

/// `action` answers `event`.
pub open spec fn journal_answered(event: JournalEvent, action: JournalAction) -> bool {
    match event {
        JournalEvent::Next { shutdown } => action == if shutdown {
            JournalAction::Stop
        } else {
            JournalAction::Read
        },
        JournalEvent::Entry(fields) => match journal_entry(journal_fields(fields@)) {
            Some(e) => action matches JournalAction::Send(sent) && sent@ == e,
            None => action == JournalAction::Continue,
        },
        JournalEvent::End => action == JournalAction::AwaitChange(TAIL_PAUSE_MS),
        JournalEvent::ReadFailed => action == JournalAction::Pause(ERROR_PAUSE_MS),
        JournalEvent::Sent => action == JournalAction::Continue,
        JournalEvent::SendFailed => action == JournalAction::Stop,
    }
}

/// The next action of a source that follows the journal.
pub fn on_journal_event(event: JournalEvent) -> (r: JournalAction)
    ensures
        journal_answered(event, r),
{
    match event {
        JournalEvent::Next { shutdown } => if shutdown {
            JournalAction::Stop
        } else {
            JournalAction::Read
        },
        JournalEvent::Entry(fields) => match entry_to_log(&fields) {
            Some(e) => JournalAction::Send(e),
            None => JournalAction::Continue,
        },
        JournalEvent::End => JournalAction::AwaitChange(TAIL_PAUSE_MS),
        JournalEvent::ReadFailed => JournalAction::Pause(ERROR_PAUSE_MS),
        JournalEvent::Sent => JournalAction::Continue,
        JournalEvent::SendFailed => JournalAction::Stop,
    }
}

// ---------------------------------------------------------------------------
// Laws
// ---------------------------------------------------------------------------

/// A line is read without its line end, whether that is a line feed, a carriage return and a
/// line feed, or missing. A line with nothing else gives no entry.
pub proof fn law_line_end_is_no_part_of_the_line(text: Seq<char>)
    requires
        text.len() > 0,
        text.last() != '\n',
        text.last() != '\r',
    ensures
        syslog_line(text) == Some(as_read(text)),
        syslog_line(text + seq!['\n']) == Some(as_read(text)),
        syslog_line(text + seq!['\r', '\n']) == Some(as_read(text)),
        syslog_line(Seq::empty()) is None,
        syslog_line(seq!['\n']) is None,
        syslog_line(seq!['\r', '\n']) is None,
{
    let none = Seq::<char>::empty();
    lemma_one_trailing(text, '\n');
    lemma_one_trailing(text, '\r');
    let with_return = text + seq!['\r'];
    assert(with_return.last() == '\r');
    lemma_one_trailing(with_return, '\n');
    assert(with_return + seq!['\n'] =~= text + seq!['\r', '\n']);
    lemma_one_trailing(none, '\n');
    lemma_one_trailing(none, '\r');
    assert(none + seq!['\n'] =~= seq!['\n']);
    assert(none + seq!['\r'] =~= seq!['\r']);
    lemma_one_trailing(seq!['\r'], '\n');
    assert(seq!['\r'] + seq!['\n'] =~= seq!['\r', '\n']);
}

/// The path is opened again exactly where another file is there than the one that is
/// followed, or none; and only an opening that worked changes which one that is. So a file
/// that was rotated away is left for the new one however often opening fails in between.
pub proof fn law_rotated_file_is_opened_again(
    had: Option<u64>,
    event: TailEvent,
    now: Option<u64>,
    action: TailAction,
)
    requires
        answered(had, event, now, action),
    ensures
        action is Reopen <==> event is Inode && event->Inode_0 != had,
        event is Reopened ==> now == event->Reopened_0 && action is Continue,
        !(event is Reopened) ==> now == had,
        event is ReopenFailed ==> action is Continue,
        event is Inode && event->Inode_0 == had ==> action is Continue,
{
}

/// Following a file stops on shutdown and where nobody receives entries any more, and on
/// nothing else.
pub proof fn law_following_stops_on_shutdown(
    had: Option<u64>,
    event: TailEvent,
    now: Option<u64>,
    action: TailAction,
)
    requires
        answered(had, event, now, action),
    ensures
        action is Stop <==> (event matches TailEvent::Next { shutdown } && shutdown)
            || event is SendFailed,
        action is Read <==> (event matches TailEvent::Next { shutdown } && !shutdown),
{
}

/// Every line that was read is handed on as the entry for its text, unless it is empty; where
/// there is no more to read, 200 milliseconds pass before the path is looked at, and after
/// an error a second passes.
pub proof fn law_every_line_is_handed_on(
    had: Option<u64>,
    event: TailEvent,
    now: Option<u64>,
    action: TailAction,
)
    requires
        answered(had, event, now, action),
    ensures
        action is Send <==> (event matches TailEvent::Line(line) && syslog_line(line@) is Some),
        event matches TailEvent::Line(line) ==> (syslog_line(line@) matches Some(e) ==> (
        action matches TailAction::Send(sent) && sent@ == e)),
        event matches TailEvent::Line(line) ==> (syslog_line(line@) is None ==> action is Continue),
        event is Sent ==> action is Continue,
        event is End ==> action == TailAction::PauseAndLook(200),
        event is ReadFailed ==> action == TailAction::Pause(1000),
{
}

/// Following the journal stops on shutdown and where nobody receives entries any more, hands
/// on every entry that gives one, waits at most 200 milliseconds for more, and a second
/// after an error.
pub proof fn law_journal_is_followed(event: JournalEvent, action: JournalAction)
    requires
        journal_answered(event, action),
    ensures
        action is Stop <==> (event matches JournalEvent::Next { shutdown } && shutdown)
            || event is SendFailed,
        action is Read <==> (event matches JournalEvent::Next { shutdown } && !shutdown),
        action is Send <==> (event matches JournalEvent::Entry(fields) && journal_entry(
            journal_fields(fields@),
        ) is Some),
        event matches JournalEvent::Entry(fields) ==> (journal_entry(
            journal_fields(fields@),
        ) matches Some(e) ==> (action matches JournalAction::Send(sent) && sent@ == e)),
        event is Sent ==> action is Continue,
        event is End ==> action == JournalAction::AwaitChange(200),
        event is ReadFailed ==> action == JournalAction::Pause(1000),
{
}

} // verus!
