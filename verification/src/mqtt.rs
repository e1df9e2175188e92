//! Log messages for the Spotflow platform, and the state of the connection to it.
//!
//! Keys of a log message: 1 body, 4 severity, 6 milliseconds since boot, 7 Unix
//! milliseconds. There is one message per log entry.

use vstd::prelude::*;
use crate::cbor::{entries_read_back, entries_view, field, map_bytes, map_entries, CborView};
use crate::cbor::{encode_map, put_field, CborItem, DecodedView, EncodeError};
use crate::log_entry::{severity_code, LogEntryView, Severity};
use crate::log_entry::LogEntry;

verus! {

/// The topic that messages are published on.
pub const INGEST_TOPIC: &'static str = "ingest-cbor";

/// How long to wait after a failure of the connection before it is polled again.
pub const RETRY_PAUSE_MS: u64 = 100;

/// The field `key` with the value of `n`, if there is one.
pub open spec fn optional_field(key: u64, n: Option<u64>) -> Seq<(CborView, CborView)> {
    match n {
        Some(n) => seq![(CborView::Uint(key), CborView::Uint(n))],
        None => Seq::empty(),
    }
}

/// The message for a log entry.
pub open spec fn entry_message(e: LogEntryView) -> Seq<(CborView, CborView)> {
    seq![(CborView::Uint(1), CborView::Text(e.body))] + optional_field(
        4,
        match e.severity {
            Some(s) => Some(severity_code(s)),
            None => None,
        },
    ) + optional_field(6, e.uptime_ms) + optional_field(7, e.timestamp_ms)
}

fn put_optional(entries: &mut Vec<(CborItem, CborItem)>, key: u64, n: Option<u64>)
    ensures
        entries_view(final(entries)@) == entries_view(old(entries)@) + optional_field(key, n),
{
    if let Some(n) = n {
        put_field(entries, key, CborItem::Uint(n));
    }
    assert(entries_view(entries@) =~= entries_view(old(entries)@) + optional_field(key, n));
}

/// The fields of the message for a log entry.
pub fn entry_fields(entry: &LogEntry) -> (r: Vec<(CborItem, CborItem)>)
    ensures
        entries_view(r@) == entry_message(entry@),
{
    let mut r: Vec<(CborItem, CborItem)> = Vec::new();
    assert(entries_view(r@) =~= Seq::empty());
    put_field(&mut r, 1, CborItem::Text(entry.body.clone()));
    assert(entries_view(r@) =~= seq![(CborView::Uint(1), CborView::Text(entry.body@))]);
    let severity = match entry.severity {
        Some(s) => Some(s.code()),
        None => None,
    };
    put_optional(&mut r, 4, severity);
    put_optional(&mut r, 6, entry.uptime_ms);
    put_optional(&mut r, 7, entry.timestamp_ms);
    r
}

/// Encodes the message for a log entry.
pub fn encode_entry(entry: &LogEntry) -> (r: Result<Vec<u8>, EncodeError>)
    ensures
        match r {
            Ok(bytes) => map_bytes(entry_message(entry@)) == Some(bytes@) && map_entries(bytes@)
                == Some(entries_read_back(entry_message(entry@))),
            Err(_) => map_bytes(entry_message(entry@)) is None,
        },
{
    encode_map(&entry_fields(entry))
}

/// What polling the connection gave.
#[derive(Debug, Clone, Copy, PartialEq, Eq, Structural)]
pub enum MqttEvent {
    /// The broker accepted the connection.
    Accepted,
    /// Anything else that is not a failure.
    Other,
    /// The connection failed, or could not be made.
    Failed,
}

/// What the daemon does about it.
#[derive(Debug, Clone, Copy, PartialEq, Eq, Structural)]
pub enum MqttReaction {
    /// Report that the connection stands.
    ReportConnected,
    /// Poll on.
    Continue,
    /// Report that the connection is lost, and pause.
    ReportLost,
    /// Pause while the connection is still being made.
    KeepTrying,
}

/// Whether the connection stands after an event, and what to do.
pub open spec fn reaction(connected: bool, event: MqttEvent) -> (bool, MqttReaction) {
    match event {
        MqttEvent::Accepted => (true, MqttReaction::ReportConnected),
        MqttEvent::Other => (connected, MqttReaction::Continue),
        MqttEvent::Failed => (
            false,
            if connected {
                MqttReaction::ReportLost
            } else {
                MqttReaction::KeepTrying
            },
        ),
    }
}

/// Whether the connection stands after an event, and what to do. rumqttc itself
/// connects again.
pub fn on_mqtt_event(connected: bool, event: MqttEvent) -> (r: (bool, MqttReaction))
    ensures
        r == reaction(connected, event),
{
    match event {
        MqttEvent::Accepted => (true, MqttReaction::ReportConnected),
        MqttEvent::Other => (connected, MqttReaction::Continue),
        MqttEvent::Failed => if connected {
            (false, MqttReaction::ReportLost)
        } else {
            (false, MqttReaction::KeepTrying)
        },
    }
}

// ---------------------------------------------------------------------------
// Laws
// ---------------------------------------------------------------------------

/// A message that was encoded reads back: under 1 stands the body, under 4 the code of
/// the severity, under 6 the uptime and under 7 the timestamp. Each of the last three is
/// there exactly where the entry has it, whatever else the entry has; there is no other
/// key, and none is there twice.
pub proof fn law_message_reads_back(e: LogEntryView, bytes: Seq<u8>, key: u64)
    requires
        map_entries(bytes) == Some(entries_read_back(entry_message(e))),
    ensures
        map_entries(bytes) is Some,
        field(map_entries(bytes)->0, key) == match key {
            1 => Some(DecodedView::Text(e.body)),
            4 => match e.severity {
                Some(Severity::Debug) => Some(DecodedView::Integer(30)),
                Some(Severity::Info) => Some(DecodedView::Integer(40)),
                Some(Severity::Warning) => Some(DecodedView::Integer(50)),
                Some(Severity::Error) => Some(DecodedView::Integer(60)),
                Some(Severity::Critical) => Some(DecodedView::Integer(70)),
                None => None,
            },
            6 => match e.uptime_ms {
                Some(ms) => Some(DecodedView::Integer(ms as i128)),
                None => None,
            },
            7 => match e.timestamp_ms {
                Some(ms) => Some(DecodedView::Integer(ms as i128)),
                None => None,
            },
            _ => None,
        },
        map_entries(bytes)->0.len() == 1 + (if e.severity is Some {
            1int
        } else {
            0
        }) + (if e.uptime_ms is Some {
            1int
        } else {
            0
        }) + (if e.timestamp_ms is Some {
            1int
        } else {
            0
        }),
{
    let entries = entries_read_back(entry_message(e));
    reveal_with_fuel(field, 5);
    assert forall|n: int, m: int| 0 <= n && 0 <= m && n + m <= entries.len() implies
        #[trigger] entries.skip(n).skip(m) == entries.skip(n + m) by {
        assert(entries.skip(n).skip(m) =~= entries.skip(n + m));
    }
}

/// The connection stands from when it was accepted until it fails, and nothing else changes
/// that. It is reported lost once, when it stood before.
pub proof fn law_connection_is_tracked(connected: bool, event: MqttEvent)
    ensures
        reaction(connected, event).0 <==> event == MqttEvent::Accepted || (connected && event
            == MqttEvent::Other),
        reaction(connected, event).1 == MqttReaction::ReportLost <==> connected && event
            == MqttEvent::Failed,
        reaction(connected, event).1 == MqttReaction::KeepTrying <==> !connected && event
            == MqttEvent::Failed,
        reaction(connected, event).1 == MqttReaction::ReportConnected <==> event
            == MqttEvent::Accepted,
{
}

} // verus!
