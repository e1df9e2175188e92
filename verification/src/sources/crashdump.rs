//! Kernel crash dumps that persistent storage (pstore) kept over a reboot.
//!
//! A record is sent in chunks, one message each, and deleted only after all of them
//! were published. Delivered records are remembered by their id, so that a record
//! which could not be deleted is not sent again; the id follows from the name and the
//! time of the record, so a repeated attempt has the same one.
//!
//! Keys of a message: 0 message type (2), 9 dump id, 10 ordinal of the chunk, 11 its
//! bytes, 12 true on the last chunk and else absent, 14 build id, 15 operating system.

use vstd::prelude::*;
use vstd::slice::slice_to_vec;
use vstd::utf8::encode_utf8;
use crate::cbor::{entries_read_back, entries_view, field, map_bytes, map_entries, CborView};
use crate::cbor::DecodedView;
use crate::cbor::{encode_map, put_field, CborItem, EncodeError};
use crate::chunks::{chunks, contents, law_chunks_keep_everything, split_chunks};
use crate::config::CrashdumpConfig;
use crate::text::{from_chars, starts_with, to_chars, trimmed};
use crate::text::trimmed_text;

verus! {

/// The message type of a chunk.
pub const MESSAGE_TYPE_CORE_DUMP: u64 = 2;

/// How long a delivered record is remembered.
pub const STATE_RETENTION_SECS: u64 = 604800;

/// The name of the file that delivered records are kept in.
pub const STATE_FILE_NAME: &'static str = "crashdump_state.json";

// ---------------------------------------------------------------------------
// Record identity
// ---------------------------------------------------------------------------

/// One step of the FNV-1a hash of 64 bits.
pub open spec fn fnv_step(h: u64, b: u8) -> u64 {
    (((h ^ (b as u64)) as nat * 0x0000_0100_0000_01b3) % 0x1_0000_0000_0000_0000) as u64
}

/// The FNV-1a hash of some bytes, starting from `h`.
pub open spec fn fnv(h: u64, bytes: Seq<u8>) -> u64
    decreases bytes.len(),
{
    if bytes.len() == 0 {
        h
    } else {
        fnv_step(fnv(h, bytes.drop_last()), bytes.last())
    }
}

/// The low `n` bytes of a number, lowest first.
pub open spec fn le_bytes(m: nat, n: nat) -> Seq<u8>
    decreases n,
{
    if n == 0 {
        Seq::empty()
    } else {
        seq![(m % 256) as u8] + le_bytes(m / 256, (n - 1) as nat)
    }
}

/// The id of the record `name` that was last changed at `mtime`: the hash of the name
/// and of the eight bytes of the time, without its top bit.
pub open spec fn dump_id(name: Seq<char>, mtime: u64) -> u64 {
    (fnv(fnv(0xcbf2_9ce4_8422_2325, encode_utf8(name)), le_bytes(mtime as nat, 8))
        % 0x8000_0000_0000_0000) as u64
}

/// Hashes some more bytes.
fn mix(h: u64, bytes: &[u8]) -> (r: u64)
    ensures
        r == fnv(h, bytes@),
{
    let mut x: u64 = h;
    for i in 0..bytes.len()
        invariant
            x == fnv(h, bytes@.take(i as int)),
    {
        proof {
            assert(bytes@.take(i + 1).drop_last() =~= bytes@.take(i as int));
        }
        x = (x ^ (bytes[i] as u64)).wrapping_mul(0x0000_0100_0000_01b3);
    }
    assert(bytes@.take(bytes@.len() as int) =~= bytes@);
    x
}

/// The eight bytes of a number, lowest first.
fn bytes_of(m: u64) -> (r: Vec<u8>)
    ensures
        r@ == le_bytes(m as nat, 8),
{
    let mut r: Vec<u8> = Vec::new();
    let mut rest: u64 = m;
    let mut left: usize = 8;
    while left > 0
        invariant
            left <= 8,
            r@ + le_bytes(rest as nat, left as nat) == le_bytes(m as nat, 8),
        decreases left,
    {
        let ghost had = r@;
        let b: u8 = (rest % 256) as u8;
        r.push(b);
        proof {
            assert(le_bytes(rest as nat, left as nat) == seq![b] + le_bytes(
                (rest / 256) as nat,
                (left - 1) as nat,
            ));
            assert(r@ + le_bytes((rest / 256) as nat, (left - 1) as nat) =~= had + le_bytes(
                rest as nat,
                left as nat,
            ));
        }
        rest = rest / 256;
        left -= 1;
    }
    assert(r@ + le_bytes(rest as nat, 0) =~= r@);
    r
}

/// The id of a record: the same for the same name and time, and never above the range
/// of a signed number.
pub fn core_dump_id(fname: &str, mtime: u64) -> (id: u64)
    ensures
        id == dump_id(fname@, mtime),
        id < 0x8000_0000_0000_0000,
{
    let name_hash: u64 = mix(0xcbf2_9ce4_8422_2325, fname.as_bytes());
    let time = bytes_of(mtime);
    let h: u64 = mix(name_hash, time.as_slice());
    assert(h & 0x7fff_ffff_ffff_ffff == h % 0x8000_0000_0000_0000) by (bit_vector);
    h & 0x7fff_ffff_ffff_ffff
}

/// One of the kinds is a prefix of the name.
pub open spec fn kind_matches(name: Seq<char>, kinds: Seq<String>) -> bool {
    exists|i: int| 0 <= i < kinds.len() && (#[trigger] kinds[i])@.is_prefix_of(name)
}

/// Whether a file name starts with one of the kinds.
pub fn matches_kind(fname: &str, kinds: &[String]) -> (b: bool)
    ensures
        b == kind_matches(fname@, kinds@),
{
    let chars = to_chars(fname);
    for i in 0..kinds.len()
        invariant
            chars@ == fname@,
            forall|j: int| 0 <= j < i ==> !(#[trigger] kinds@[j])@.is_prefix_of(fname@),
    {
        if starts_with(chars.as_slice(), kinds[i].as_str()) {
            return true;
        }
    }
    false
}

/// The kernel release in the text that the kernel gives for it.
pub fn kernel_build_id(text: &str) -> (r: Option<String>)
    ensures
        match r {
            Some(s) => trimmed_text(text@) == Some(s@),
            None => trimmed_text(text@) is None,
        },
{
    let chars = to_chars(text);
    let t = trimmed(chars.as_slice());
    if t.len() == 0 {
        None
    } else {
        Some(from_chars(t))
    }
}

// ---------------------------------------------------------------------------
// Delivered records
// ---------------------------------------------------------------------------

/// A record that was delivered, and when (Unix seconds).
#[derive(Debug, Clone, Copy, PartialEq, Eq, Structural)]
pub struct DeliveredRecord {
    pub id: u64,
    pub ts: u64,
}

/// The records that were delivered.
#[derive(Debug)]
pub struct State {
    pub delivered: Vec<DeliveredRecord>,
}

/// The predicate "is not older than the retention time at `now`".
pub open spec fn retained(now: u64) -> spec_fn(DeliveredRecord) -> bool {
    |r: DeliveredRecord| r.ts + STATE_RETENTION_SECS >= now
}

/// There is a record with this id.
pub open spec fn has_id(records: Seq<DeliveredRecord>, id: u64) -> bool {
    exists|i: int| 0 <= i < records.len() && (#[trigger] records[i]).id == id
}

/// The records after a delivery.
pub open spec fn remembered(records: Seq<DeliveredRecord>, id: u64, ts: u64) -> Seq<
    DeliveredRecord,
> {
    if has_id(records, id) {
        records
    } else {
        records.push(DeliveredRecord { id, ts })
    }
}

/// No id occurs twice.
pub open spec fn distinct_ids(records: Seq<DeliveredRecord>) -> bool {
    forall|i: int, j: int|
        0 <= i < j < records.len() ==> (#[trigger] records[i]).id != (#[trigger] records[j]).id
}

impl Default for State {
    fn default() -> (s: State)
        ensures
            s.delivered@ == Seq::<DeliveredRecord>::empty(),
    {
        State { delivered: Vec::new() }
    }
}

impl State {
    /// Whether the record was delivered.
    pub fn contains(&self, id: u64) -> (b: bool)
        ensures
            b == has_id(self.delivered@, id),
    {
        for i in 0..self.delivered.len()
            invariant
                forall|j: int| 0 <= j < i ==> (#[trigger] self.delivered@[j]).id != id,
        {
            if self.delivered[i].id == id {
                return true;
            }
        }
        false
    }

    /// Remembers a delivery, unless the record is remembered already.
    pub fn insert(&mut self, id: u64, ts: u64)
        ensures
            final(self).delivered@ == remembered(old(self).delivered@, id, ts),
            has_id(final(self).delivered@, id),
            distinct_ids(old(self).delivered@) ==> distinct_ids(final(self).delivered@),
    {
        if !self.contains(id) {
            let ghost before = self.delivered@;
            self.delivered.push(DeliveredRecord { id, ts });
            assert(self.delivered@[before.len() as int].id == id);
        }
    }

    /// Forgets the deliveries that are older than the retention time.
    pub fn prune(&mut self, now: u64)
        ensures
            final(self).delivered@ == old(self).delivered@.filter(retained(now)),
    {
        let cutoff: u64 = now.saturating_sub(STATE_RETENTION_SECS);
        let mut kept: Vec<DeliveredRecord> = Vec::new();
        let ghost all = self.delivered@;
        proof {
            reveal(Seq::filter);
        }
        for i in 0..self.delivered.len()
            invariant
                all == self.delivered@,
                cutoff == (if now >= STATE_RETENTION_SECS { now - STATE_RETENTION_SECS } else { 0 }),
                kept@ == all.take(i as int).filter(retained(now)),
        {
            let r = self.delivered[i];
            proof {
                reveal(Seq::filter);
                assert(all.take(i + 1).drop_last() =~= all.take(i as int));
            }
            if r.ts >= cutoff {
                kept.push(r);
            }
        }
        assert(all.take(all.len() as int) =~= all);
        self.delivered = kept;
    }
}

// ---------------------------------------------------------------------------
// Messages
// ---------------------------------------------------------------------------

/// The message for a chunk.
pub open spec fn chunk_message(
    id: u64,
    ordinal: u64,
    content: Seq<u8>,
    is_last: bool,
    build_id: Option<Seq<char>>,
) -> Seq<(CborView, CborView)> {
    seq![
        (CborView::Uint(0), CborView::Uint(MESSAGE_TYPE_CORE_DUMP)),
        (CborView::Uint(9), CborView::Uint(id)),
        (CborView::Uint(10), CborView::Uint(ordinal)),
        (CborView::Uint(11), CborView::Bytes(content)),
    ] + (if is_last {
        seq![(CborView::Uint(12), CborView::Bool(true))]
    } else {
        Seq::empty()
    }) + (match build_id {
        Some(b) => seq![(CborView::Uint(14), CborView::Text(b))],
        None => Seq::empty(),
    }) + seq![(CborView::Uint(15), CborView::Text("Linux"@))]
}

/// The text of a build id, if there is one.
pub open spec fn build_text(build_id: Option<&str>) -> Option<Seq<char>> {
    match build_id {
        Some(b) => Some(b@),
        None => None,
    }
}

/// The fields of the message for a chunk.
pub fn chunk_fields(
    id: u64,
    ordinal: u64,
    content: &[u8],
    is_last: bool,
    build_id: Option<&str>,
) -> (r: Vec<(CborItem, CborItem)>)
    ensures
        entries_view(r@) == chunk_message(id, ordinal, content@, is_last, build_text(build_id)),
{
    let mut r: Vec<(CborItem, CborItem)> = Vec::new();
    assert(entries_view(r@) =~= Seq::empty());
    put_field(&mut r, 0, CborItem::Uint(MESSAGE_TYPE_CORE_DUMP));
    put_field(&mut r, 9, CborItem::Uint(id));
    put_field(&mut r, 10, CborItem::Uint(ordinal));
    put_field(&mut r, 11, CborItem::Bytes(slice_to_vec(content)));
    if is_last {
        put_field(&mut r, 12, CborItem::Bool(true));
    }
    if let Some(b) = build_id {
        put_field(&mut r, 14, CborItem::Text(b.to_string()));
    }
    put_field(&mut r, 15, CborItem::Text("Linux".to_string()));
    assert(entries_view(r@) =~= chunk_message(
        id,
        ordinal,
        content@,
        is_last,
        build_text(build_id),
    ));
    r
}

/// Encodes the message for a chunk.
pub fn encode_chunk(
    id: u64,
    ordinal: u64,
    content: &[u8],
    is_last: bool,
    build_id: Option<&str>,
) -> (r: Result<Vec<u8>, EncodeError>)
    ensures
        ({
            let m = chunk_message(id, ordinal, content@, is_last, build_text(build_id));
            match r {
                Ok(bytes) => map_bytes(m) == Some(bytes@) && map_entries(bytes@) == Some(
                    entries_read_back(m),
                ),
                Err(_) => map_bytes(m) is None,
            }
        }),
{
    encode_map(&chunk_fields(id, ordinal, content, is_last, build_id))
}

/// A chunk that was encoded reads back: under each number stands what was put there,
/// the content as the same bytes. The mark of the last chunk is true there and missing
/// from every other chunk, and a build id that there is none of is missing too.
pub proof fn law_chunk_reads_back(
    id: u64,
    ordinal: u64,
    content: Seq<u8>,
    is_last: bool,
    build_id: Option<Seq<char>>,
    bytes: Seq<u8>,
    key: u64,
)
    requires
        map_entries(bytes) == Some(
            entries_read_back(chunk_message(id, ordinal, content, is_last, build_id)),
        ),
    ensures
        map_entries(bytes) is Some,
        field(map_entries(bytes)->0, key) == match key {
            0 => Some(DecodedView::Integer(2)),
            9 => Some(DecodedView::Integer(id as i128)),
            10 => Some(DecodedView::Integer(ordinal as i128)),
            11 => Some(DecodedView::Bytes(content)),
            12 => if is_last {
                Some(DecodedView::Bool(true))
            } else {
                None
            },
            14 => match build_id {
                Some(b) => Some(DecodedView::Text(b)),
                None => None,
            },
            15 => Some(DecodedView::Text("Linux"@)),
            _ => None,
        },
{
    lemma_message_fields(id, ordinal, content, is_last, build_id, key);
}

/// What stands under each key of the message for a chunk.
pub proof fn lemma_message_fields(
    id: u64,
    ordinal: u64,
    content: Seq<u8>,
    is_last: bool,
    build_id: Option<Seq<char>>,
    key: u64,
)
    ensures
        field(
            entries_read_back(chunk_message(id, ordinal, content, is_last, build_id)),
            key,
        ) == match key {
            0 => Some(DecodedView::Integer(2)),
            9 => Some(DecodedView::Integer(id as i128)),
            10 => Some(DecodedView::Integer(ordinal as i128)),
            11 => Some(DecodedView::Bytes(content)),
            12 => if is_last {
                Some(DecodedView::Bool(true))
            } else {
                None
            },
            14 => match build_id {
                Some(b) => Some(DecodedView::Text(b)),
                None => None,
            },
            15 => Some(DecodedView::Text("Linux"@)),
            _ => None,
        },
{
    let entries = entries_read_back(chunk_message(id, ordinal, content, is_last, build_id));
    reveal_with_fuel(field, 8);
    assert forall|n: int, m: int| 0 <= n && 0 <= m && n + m <= entries.len() implies
        #[trigger] entries.skip(n).skip(m) == entries.skip(n + m) by {
        assert(entries.skip(n).skip(m) =~= entries.skip(n + m));
    }
}

// ---------------------------------------------------------------------------
// Scanning
// ---------------------------------------------------------------------------

/// The part of a record that is sent.
pub open spec fn capped(content: Seq<u8>, max_bytes: nat) -> Seq<u8> {
    if content.len() > max_bytes {
        content.take(max_bytes as int)
    } else {
        content
    }
}

/// The chunks that a record is sent in.
pub open spec fn record_chunks(content: Seq<u8>, max_bytes: nat, chunk_bytes: nat) -> Seq<
    Seq<u8>,
> {
    chunks(
        capped(content, max_bytes),
        if chunk_bytes == 0 {
            1
        } else {
            chunk_bytes
        },
    )
}

/// What came of the last action of a scan.
pub enum ScanEvent {
    /// A directory holds a file or another thing of this name and time.
    Found { name: String, is_file: bool, mtime: u64 },
    /// The record was read.
    Content(Vec<u8>),
    /// The record could not be read.
    Unreadable,
    /// The message was published, at this time (Unix seconds).
    Published(u64),
    PublishFailed,
}

/// What to do next.
pub enum ScanAction {
    /// Go on to the next file.
    Next,
    /// Delete the record, which was delivered, and go on to the next file.
    Delete,
    /// Read the record.
    Read,
    /// Publish this message.
    Publish(Vec<u8>),
    /// Write the delivered records to their file, then delete the record if `delete`
    /// says so, and go on to the next file.
    Save { delete: bool },
    /// End this pass. The records that are left stay where they are.
    Stop,
}

enum Stage {
    Idle,
    Reading(u64),
    Uploading { id: u64, record: Vec<Vec<u8>>, at: usize },
}

/// A scan of directories for records.
pub struct Scan {
    stage: Stage,
}

/// How far a scan has come.
#[verifier::ext_equal]
pub enum ScanView {
    Idle,
    /// The record with this id is being read.
    Reading(u64),
    /// Of the record with this id and these chunks, the one at this place is being
    /// published.
    Uploading(u64, Seq<Seq<u8>>, int),
}

/// What an event tells a scan.
pub enum ScanTold {
    Found(Seq<char>, bool, u64),
    Content(Seq<u8>),
    Unreadable,
    Published(u64),
    PublishFailed,
}

/// What a scan asks for.
pub enum ScanAsked {
    Next,
    Delete,
    Read,
    Publish(Seq<u8>),
    Save(bool),
    Stop,
}

impl View for Scan {
    type V = ScanView;

    closed spec fn view(&self) -> ScanView {
        match self.stage {
            Stage::Idle => ScanView::Idle,
            Stage::Reading(id) => ScanView::Reading(id),
            Stage::Uploading { id, record, at } => ScanView::Uploading(
                id,
                contents(record@),
                at as int,
            ),
        }
    }
}

impl View for ScanEvent {
    type V = ScanTold;

    open spec fn view(&self) -> ScanTold {
        match self {
            ScanEvent::Found { name, is_file, mtime } => ScanTold::Found(name@, *is_file, *mtime),
            ScanEvent::Content(content) => ScanTold::Content(content@),
            ScanEvent::Unreadable => ScanTold::Unreadable,
            ScanEvent::Published(now) => ScanTold::Published(*now),
            ScanEvent::PublishFailed => ScanTold::PublishFailed,
        }
    }
}

impl View for ScanAction {
    type V = ScanAsked;

    open spec fn view(&self) -> ScanAsked {
        match self {
            ScanAction::Next => ScanAsked::Next,
            ScanAction::Delete => ScanAsked::Delete,
            ScanAction::Read => ScanAsked::Read,
            ScanAction::Publish(payload) => ScanAsked::Publish(payload@),
            ScanAction::Save { delete } => ScanAsked::Save(*delete),
            ScanAction::Stop => ScanAsked::Stop,
        }
    }
}

/// What a scan goes by.
pub struct ScanSettings {
    pub kinds: Seq<String>,
    pub max_bytes: nat,
    pub chunk_bytes: nat,
    pub delete: bool,
    pub build_id: Option<Seq<char>>,
}

/// The settings in a configuration.
pub open spec fn settings(cfg: CrashdumpConfig, build_id: Option<&str>) -> ScanSettings {
    ScanSettings {
        kinds: cfg.kinds@,
        max_bytes: cfg.max_bytes as nat,
        chunk_bytes: cfg.chunk_bytes as nat,
        delete: cfg.delete_after_capture,
        build_id: build_text(build_id),
    }
}

/// The message for the chunk at `i` of a record.
pub open spec fn record_message(
    s: ScanSettings,
    id: u64,
    record: Seq<Seq<u8>>,
    i: int,
) -> Option<Seq<u8>> {
    map_bytes(chunk_message(id, i as u64, record[i], i == record.len() - 1, s.build_id))
}

impl ScanView {
    /// This is an outcome of what the scan asked for.
    pub open spec fn awaits(self, told: ScanTold) -> bool {
        match self {
            ScanView::Idle => told is Found,
            ScanView::Reading(_) => told is Content || told is Unreadable,
            ScanView::Uploading(_, record, i) => 0 <= i < record.len() && (told is Published
                || told is PublishFailed),
        }
    }

    /// How far the scan has come after an event, where `known` were delivered before.
    pub open spec fn next(
        self,
        s: ScanSettings,
        known: Seq<DeliveredRecord>,
        told: ScanTold,
    ) -> ScanView {
        match (self, told) {
            (ScanView::Idle, ScanTold::Found(name, is_file, mtime)) => if kind_matches(name, s.kinds)
                && is_file && !has_id(known, dump_id(name, mtime)) {
                ScanView::Reading(dump_id(name, mtime))
            } else {
                ScanView::Idle
            },
            (ScanView::Reading(id), ScanTold::Content(content)) => {
                let record = record_chunks(content, s.max_bytes, s.chunk_bytes);
                if record.len() > 0 && record_message(s, id, record, 0) is Some {
                    ScanView::Uploading(id, record, 0)
                } else {
                    ScanView::Idle
                }
            },
            (ScanView::Uploading(id, record, i), ScanTold::Published(_)) => if i + 1 < record.len()
                && record_message(s, id, record, i + 1) is Some {
                ScanView::Uploading(id, record, i + 1)
            } else {
                ScanView::Idle
            },
            _ => ScanView::Idle,
        }
    }

    /// What the scan asks for after an event. A record that was delivered is not sent
    /// again. Where a chunk cannot be encoded or published, the pass ends; the record
    /// stays for the next one.
    pub open spec fn asks(
        self,
        s: ScanSettings,
        known: Seq<DeliveredRecord>,
        told: ScanTold,
    ) -> ScanAsked {
        match (self, told) {
            (ScanView::Idle, ScanTold::Found(name, is_file, mtime)) => if !(kind_matches(
                name,
                s.kinds,
            ) && is_file) {
                ScanAsked::Next
            } else if !has_id(known, dump_id(name, mtime)) {
                ScanAsked::Read
            } else if s.delete {
                ScanAsked::Delete
            } else {
                ScanAsked::Next
            },
            (ScanView::Reading(id), ScanTold::Content(content)) => {
                let record = record_chunks(content, s.max_bytes, s.chunk_bytes);
                if record.len() == 0 {
                    ScanAsked::Next
                } else {
                    match record_message(s, id, record, 0) {
                        Some(payload) => ScanAsked::Publish(payload),
                        None => ScanAsked::Stop,
                    }
                }
            },
            (ScanView::Uploading(id, record, i), ScanTold::Published(_)) => if i + 1
                < record.len() {
                match record_message(s, id, record, i + 1) {
                    Some(payload) => ScanAsked::Publish(payload),
                    None => ScanAsked::Stop,
                }
            } else {
                ScanAsked::Save(s.delete)
            },
            (ScanView::Uploading(_, _, _), ScanTold::PublishFailed) => ScanAsked::Stop,
            _ => ScanAsked::Next,
        }
    }

    /// The delivered records after an event: a record is one of them once its last
    /// chunk was published.
    pub open spec fn knows(self, known: Seq<DeliveredRecord>, told: ScanTold) -> Seq<
        DeliveredRecord,
    > {
        match (self, told) {
            (ScanView::Uploading(id, record, i), ScanTold::Published(now)) if i + 1
                >= record.len() => remembered(known, id, now),
            _ => known,
        }
    }
}

/// The chunks of what is sent of a record.
fn cut_record(content: Vec<u8>, cfg: &CrashdumpConfig) -> (r: Vec<Vec<u8>>)
    ensures
        contents(r@) == record_chunks(content@, cfg.max_bytes as nat, cfg.chunk_bytes as nat),
{
    let ghost all = content@;
    let mut content = content;
    if content.len() > cfg.max_bytes {
        content.truncate(cfg.max_bytes);
    }
    assert(content@ =~= capped(all, cfg.max_bytes as nat));
    let n: usize = if cfg.chunk_bytes == 0 {
        1
    } else {
        cfg.chunk_bytes
    };
    split_chunks(content, n)
}

impl Scan {
    #[verifier::type_invariant]
    spec fn at_a_chunk(&self) -> bool {
        match self.stage {
            Stage::Uploading { id, record, at } => at < record@.len(),
            _ => true,
        }
    }

    /// A scan that has found nothing yet.
    pub fn new() -> (s: Scan)
        ensures
            s@ == ScanView::Idle,
    {
        Scan { stage: Stage::Idle }
    }

    /// Goes on with the outcome of the last action.
    pub fn step(
        self,
        cfg: &CrashdumpConfig,
        build_id: Option<&str>,
        state: &mut State,
        event: ScanEvent,
    ) -> (r: (Scan, ScanAction))
        requires
            self@.awaits(event@),
        ensures
            r.0@ == self@.next(settings(*cfg, build_id), old(state).delivered@, event@),
            r.1@ == self@.asks(settings(*cfg, build_id), old(state).delivered@, event@),
            final(state).delivered@ == self@.knows(old(state).delivered@, event@),
    {
        proof {
            use_type_invariant(&self);
        }
        let Scan { stage } = self;
        match (stage, event) {
            (Stage::Idle, ScanEvent::Found { name, is_file, mtime }) => {
                if !matches_kind(name.as_str(), cfg.kinds.as_slice()) || !is_file {
                    return (Scan { stage: Stage::Idle }, ScanAction::Next);
                }
                let id: u64 = core_dump_id(name.as_str(), mtime);
                if !state.contains(id) {
                    (Scan { stage: Stage::Reading(id) }, ScanAction::Read)
                } else if cfg.delete_after_capture {
                    (Scan { stage: Stage::Idle }, ScanAction::Delete)
                } else {
                    (Scan { stage: Stage::Idle }, ScanAction::Next)
                }
            },
            (Stage::Reading(id), ScanEvent::Content(content)) => {
                let record = cut_record(content, cfg);
                assert(contents(record@).len() == record@.len());
                if record.len() == 0 {
                    (Scan { stage: Stage::Idle }, ScanAction::Next)
                } else {
                    Self::publish_chunk(id, record, 0, build_id)
                }
            },
            (Stage::Uploading { id, record, at }, ScanEvent::Published(now)) => {
                let len: usize = record.len();
                if at + 1 < len {
                    Self::publish_chunk(id, record, at + 1, build_id)
                } else {
                    state.insert(id, now);
                    (
                        Scan { stage: Stage::Idle },
                        ScanAction::Save { delete: cfg.delete_after_capture },
                    )
                }
            },
            (Stage::Uploading { .. }, ScanEvent::PublishFailed) => (
                Scan { stage: Stage::Idle },
                ScanAction::Stop,
            ),
            _ => (Scan { stage: Stage::Idle }, ScanAction::Next),
        }
    }

    /// Asks for the chunk at `at` to be published.
    fn publish_chunk(id: u64, record: Vec<Vec<u8>>, at: usize, build_id: Option<&str>) -> (r: (
        Scan,
        ScanAction,
    ))
        requires
            at < record@.len(),
        ensures
            match map_bytes(
                chunk_message(
                    id,
                    at as u64,
                    contents(record@)[at as int],
                    at == record@.len() - 1,
                    build_text(build_id),
                ),
            ) {
                Some(payload) => r.0@ == ScanView::Uploading(id, contents(record@), at as int)
                    && r.1@ == ScanAsked::Publish(payload),
                None => r.0@ == ScanView::Idle && r.1@ == ScanAsked::Stop,
            },
    {
        assert(contents(record@)[at as int] == record@[at as int]@);
        match encode_chunk(id, at as u64, record[at].as_slice(), at == record.len() - 1, build_id) {
            Ok(payload) => (
                Scan { stage: Stage::Uploading { id, record, at } },
                ScanAction::Publish(payload),
            ),
            Err(_) => (Scan { stage: Stage::Idle }, ScanAction::Stop),
        }
    }
}

// ---------------------------------------------------------------------------
// Laws
// ---------------------------------------------------------------------------

/// Forgetting keeps exactly the records that are young enough, and no id becomes double.
pub proof fn law_prune_keeps_the_young(records: Seq<DeliveredRecord>, now: u64)
    ensures
        forall|r: DeliveredRecord|
            #![trigger records.filter(retained(now)).contains(r)]
            #![trigger records.contains(r)]
            records.filter(retained(now)).contains(r) <==> records.contains(r) && r.ts
                + STATE_RETENTION_SECS >= now,
        distinct_ids(records) ==> distinct_ids(records.filter(retained(now))),
    decreases records.len(),
{
    reveal(Seq::filter);
    let kept = records.filter(retained(now));
    if records.len() > 0 {
        let rest = records.drop_last();
        let last = records.last();
        law_prune_keeps_the_young(rest, now);
        let kept_rest = rest.filter(retained(now));
        assert forall|r: DeliveredRecord|
            kept.contains(r) <==> records.contains(r) && r.ts + STATE_RETENTION_SECS >= now by {
            if kept_rest.contains(r) {
                let i = choose|i: int| 0 <= i < kept_rest.len() && kept_rest[i] == r;
                assert(kept[i] == r);
            }
            if rest.contains(r) {
                let i = choose|i: int| 0 <= i < rest.len() && rest[i] == r;
                assert(records[i] == r);
            }
            if records.contains(r) && r != last {
                let i = choose|i: int| 0 <= i < records.len() && records[i] == r;
                assert(rest[i] == r);
            }
            if kept.contains(r) && r != last {
                let i = choose|i: int| 0 <= i < kept.len() && kept[i] == r;
                assert(kept_rest[i] == r);
            }
            if r == last {
                assert(records[records.len() - 1] == r);
                if r.ts + STATE_RETENTION_SECS >= now {
                    assert(kept[kept.len() - 1] == r);
                } else if kept.contains(r) {
                    assert(kept == kept_rest);
                }
            }
        }
        if distinct_ids(records) {
            assert(distinct_ids(rest)) by {
                assert forall|i: int, j: int| 0 <= i < j < rest.len() implies (
                #[trigger] rest[i]).id != (#[trigger] rest[j]).id by {
                    assert(rest[i] == records[i] && rest[j] == records[j]);
                }
            }
            assert forall|i: int, j: int| 0 <= i < j < kept.len() implies (#[trigger] kept[i]).id
                != (#[trigger] kept[j]).id by {
                assert(kept_rest[i] == kept[i]);
                if j < kept_rest.len() {
                    assert(kept_rest[j] == kept[j]);
                } else {
                    assert(kept_rest.contains(kept_rest[i]));
                    let k = choose|k: int| 0 <= k < rest.len() && rest[k] == kept_rest[i];
                    assert(records[k] == rest[k]);
                    assert(records[records.len() - 1] == last);
                }
            }
        }
    }
}

/// The chunks of a record, put together in order, are the part of it that is sent.
pub proof fn law_chunks_hold_the_record(content: Seq<u8>, max_bytes: nat, chunk_bytes: nat)
    ensures
        record_chunks(content, max_bytes, chunk_bytes).flatten() == capped(content, max_bytes),
{
    law_chunks_keep_everything(
        capped(content, max_bytes),
        if chunk_bytes == 0 {
            1
        } else {
            chunk_bytes
        },
    );
}

/// How far a scan has come after some events.
pub open spec fn scan_after(
    s: ScanSettings,
    known: Seq<DeliveredRecord>,
    run: Seq<ScanTold>,
) -> ScanView
    decreases run.len(),
{
    if run.len() == 0 {
        ScanView::Idle
    } else {
        scan_after(s, known, run.drop_last()).next(
            s,
            known_after(s, known, run.drop_last()),
            run.last(),
        )
    }
}

/// The delivered records after some events, where `known` were delivered before.
pub open spec fn known_after(
    s: ScanSettings,
    known: Seq<DeliveredRecord>,
    run: Seq<ScanTold>,
) -> Seq<DeliveredRecord>
    decreases run.len(),
{
    if run.len() == 0 {
        known
    } else {
        scan_after(s, known, run.drop_last()).knows(
            known_after(s, known, run.drop_last()),
            run.last(),
        )
    }
}

/// Every event is an outcome of what the scan had asked for.
pub open spec fn proper_scan(
    s: ScanSettings,
    known: Seq<DeliveredRecord>,
    run: Seq<ScanTold>,
) -> bool
    decreases run.len(),
{
    run.len() == 0 || (proper_scan(s, known, run.drop_last()) && scan_after(
        s,
        known,
        run.drop_last(),
    ).awaits(run.last()))
}

/// What was read last.
pub open spec fn last_content(run: Seq<ScanTold>) -> Seq<u8>
    decreases run.len(),
{
    if run.len() == 0 {
        Seq::empty()
    } else if let ScanTold::Content(content) = run.last() {
        content
    } else {
        last_content(run.drop_last())
    }
}

/// The chunks that were published of what was read last, in order.
pub open spec fn chunks_sent(
    s: ScanSettings,
    known: Seq<DeliveredRecord>,
    run: Seq<ScanTold>,
) -> Seq<Seq<u8>>
    decreases run.len(),
{
    if run.len() == 0 || run.last() is Content {
        Seq::empty()
    } else {
        let earlier = chunks_sent(s, known, run.drop_last());
        match (scan_after(s, known, run.drop_last()), run.last()) {
            (ScanView::Uploading(_, record, i), ScanTold::Published(_)) => earlier.push(record[i]),
            _ => earlier,
        }
    }
}

/// The ids of the records whose last chunk was published in the course of some events.
pub open spec fn ids_delivered(
    s: ScanSettings,
    known: Seq<DeliveredRecord>,
    run: Seq<ScanTold>,
) -> Set<u64>
    decreases run.len(),
{
    if run.len() == 0 {
        Set::empty()
    } else {
        let earlier = ids_delivered(s, known, run.drop_last());
        match (scan_after(s, known, run.drop_last()), run.last()) {
            (ScanView::Uploading(id, record, i), ScanTold::Published(_)) if i + 1
                >= record.len() => earlier.insert(id),
            _ => earlier,
        }
    }
}

proof fn lemma_scan(s: ScanSettings, known: Seq<DeliveredRecord>, run: Seq<ScanTold>)
    requires
        proper_scan(s, known, run),
    ensures
        scan_after(s, known, run) matches ScanView::Uploading(id, record, i) ==> {
            &&& 0 <= i < record.len()
            &&& record == record_chunks(last_content(run), s.max_bytes, s.chunk_bytes)
            &&& chunks_sent(s, known, run) == record.take(i)
        },
    decreases run.len(),
{
    if run.len() > 0 {
        let earlier = run.drop_last();
        lemma_scan(s, known, earlier);
        match (scan_after(s, known, earlier), run.last()) {
            (ScanView::Reading(id), ScanTold::Content(content)) => {
                let record = record_chunks(content, s.max_bytes, s.chunk_bytes);
                assert(record.take(0) =~= Seq::empty());
            },
            (ScanView::Uploading(id, record, i), ScanTold::Published(_)) => {
                assert(record.take(i + 1) =~= record.take(i).push(record[i]));
            },
            _ => {},
        }
    }
}

/// A record counts as delivered, and is given up to be deleted, only once every chunk of
/// it was published: together, in order, they are what is sent of it.
pub proof fn law_record_is_delivered_whole(
    s: ScanSettings,
    known: Seq<DeliveredRecord>,
    run: Seq<ScanTold>,
    told: ScanTold,
)
    requires
        proper_scan(s, known, run.push(told)),
        scan_after(s, known, run).asks(s, known_after(s, known, run), told) is Save,
    ensures
        chunks_sent(s, known, run.push(told)).flatten() == capped(last_content(run), s.max_bytes),
{
    let whole = run.push(told);
    assert(whole.drop_last() =~= run);
    lemma_scan(s, known, run);
    if let ScanView::Uploading(id, record, i) = scan_after(s, known, run) {
        assert(record.take(i).push(record[i]) =~= record);
        law_chunks_hold_the_record(last_content(run), s.max_bytes, s.chunk_bytes);
    }
}

/// The records that are known to be delivered are those that were before, and those
/// whose last chunk was published since. So a record is deleted unread only where it was
/// delivered, and is never sent again once it was, even where it could not be deleted.
pub proof fn law_delivered_records_stay_known(
    s: ScanSettings,
    known: Seq<DeliveredRecord>,
    run: Seq<ScanTold>,
    id: u64,
)
    ensures
        has_id(known_after(s, known, run), id) <==> has_id(known, id) || ids_delivered(
            s,
            known,
            run,
        ).contains(id),
    decreases run.len(),
{
    if run.len() > 0 {
        let earlier = run.drop_last();
        law_delivered_records_stay_known(s, known, earlier, id);
        let had = known_after(s, known, earlier);
        match (scan_after(s, known, earlier), run.last()) {
            (ScanView::Uploading(new, record, i), ScanTold::Published(now)) => {
                if i + 1 >= record.len() {
                    lemma_remembered(had, new, now, id);
                    law_delivered_records_stay_known(s, known, earlier, new);
                }
            },
            _ => {},
        }
    }
}

/// Remembering a record adds its id and no other.
proof fn lemma_remembered(records: Seq<DeliveredRecord>, new: u64, ts: u64, id: u64)
    ensures
        has_id(remembered(records, new, ts), id) <==> has_id(records, id) || id == new,
{
    let after = remembered(records, new, ts);
    if !has_id(records, new) {
        assert(after[records.len() as int].id == new);
        if has_id(records, id) {
            let i = choose|i: int| 0 <= i < records.len() && (#[trigger] records[i]).id == id;
            assert(after[i].id == id);
        }
        if has_id(after, id) && id != new {
            let i = choose|i: int| 0 <= i < after.len() && (#[trigger] after[i]).id == id;
            assert(records[i].id == id);
        }
    }
}

/// A record that is known to be delivered is not read, whatever the scan goes by.
pub proof fn law_delivered_record_is_not_sent_again(
    s: ScanSettings,
    known: Seq<DeliveredRecord>,
    name: Seq<char>,
    is_file: bool,
    mtime: u64,
)
    requires
        has_id(known, dump_id(name, mtime)),
    ensures
        ScanView::Idle.next(s, known, ScanTold::Found(name, is_file, mtime)) == ScanView::Idle,
        !(ScanView::Idle.asks(s, known, ScanTold::Found(name, is_file, mtime)) is Read),
{
}

} // verus!
