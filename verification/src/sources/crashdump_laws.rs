//! What a scan for crash dumps does, event by event: which records are read, what is sent
//! of them, what is remembered and what is deleted.

use vstd::prelude::*;
use vstd::utf8::encode_utf8;
use crate::cbor::{entries_read_back, field, map_bytes, CborView, DecodedView};
use crate::chunks::{law_chunk_lengths, law_piece_is_a_stretch};
use crate::config::CrashdumpConfig;
use crate::sources::crashdump::{build_text, capped, chunk_message, dump_id, fnv, has_id};
use crate::sources::crashdump::{law_prune_keeps_the_young, le_bytes, record_chunks, retained};
use crate::sources::crashdump::{lemma_message_fields, settings, DeliveredRecord, ScanAsked};
use crate::sources::crashdump::{ScanTold, ScanView};

verus! {

// ---------------------------------------------------------------------------
// Deleting
// ---------------------------------------------------------------------------

/// Where records are to be kept, no action ever asks for one to be deleted, whatever has
/// happened. Where they are to be deleted, every record that was delivered is.
pub proof fn law_records_are_deleted_only_where_configured(
    cfg: CrashdumpConfig,
    build_id: Option<&str>,
    scan: ScanView,
    known: Seq<DeliveredRecord>,
    told: ScanTold,
)
    ensures
        !cfg.delete_after_capture ==> {
            &&& scan.asks(settings(cfg, build_id), known, told) != ScanAsked::Delete
            &&& scan.asks(settings(cfg, build_id), known, told) != ScanAsked::Save(true)
        },
        cfg.delete_after_capture ==> scan.asks(settings(cfg, build_id), known, told)
            != ScanAsked::Save(false),
{
}

/// A record is deleted only once it was delivered: unread where it is known to be, or
/// behind its last chunk.
pub proof fn law_only_delivered_records_are_deleted(
    cfg: CrashdumpConfig,
    build_id: Option<&str>,
    scan: ScanView,
    known: Seq<DeliveredRecord>,
    told: ScanTold,
)
    ensures
        scan.asks(settings(cfg, build_id), known, told) is Delete ==> (
        told matches ScanTold::Found(name, is_file, mtime) && is_file && has_id(
            known,
            dump_id(name, mtime),
        ) && scan is Idle),
        scan.asks(settings(cfg, build_id), known, told) is Save ==> (scan matches ScanView::Uploading(
            id,
            record,
            i,
        ) && i + 1 >= record.len() && told is Published),
{
}

/// When the last chunk of a record was published, the record is remembered with that time
/// and the list of them is written down, and then the record is deleted if it is to be.
/// Nothing else is forgotten or remembered.
pub proof fn law_last_chunk_completes_the_record(
    cfg: CrashdumpConfig,
    build_id: Option<&str>,
    id: u64,
    record: Seq<Seq<u8>>,
    known: Seq<DeliveredRecord>,
    now: u64,
)
    requires
        record.len() > 0,
    ensures
        ({
            let scan = ScanView::Uploading(id, record, record.len() - 1);
            let told = ScanTold::Published(now);
            let after = scan.knows(known, told);
            &&& scan.asks(settings(cfg, build_id), known, told) == ScanAsked::Save(
                cfg.delete_after_capture,
            )
            &&& scan.next(settings(cfg, build_id), known, told) == ScanView::Idle
            &&& has_id(known, id) ==> after == known
            &&& !has_id(known, id) ==> after.len() == known.len() + 1 && after.take(
                known.len() as int,
            ) == known && after.last().id == id && after.last().ts == now
        }),
{
    let after = known.push(DeliveredRecord { id, ts: now });
    assert(after.take(known.len() as int) =~= known);
}

/// What is known of delivered records changes at no other event.
pub proof fn law_only_completed_records_are_remembered(
    scan: ScanView,
    known: Seq<DeliveredRecord>,
    told: ScanTold,
)
    requires
        !(told is Published) || !(scan is Uploading) || (scan matches ScanView::Uploading(
            _,
            record,
            i,
        ) && i + 1 < record.len()),
    ensures
        scan.knows(known, told) == known,
{
}

// ---------------------------------------------------------------------------
// Finding and reading
// ---------------------------------------------------------------------------

/// The name starts with one of the configured kinds.
pub open spec fn wanted(name: Seq<char>, cfg: CrashdumpConfig) -> bool {
    exists|i: int, rest: Seq<char>|
        0 <= i < cfg.kinds@.len() && name == #[trigger] (cfg.kinds@[i]@ + rest)
}

/// A file whose name starts with one of the kinds is read, unless it was delivered. One
/// that was is deleted if records are to be deleted, and else passed over. Everything else
/// is passed over.
pub proof fn law_wanted_records_are_read(
    cfg: CrashdumpConfig,
    build_id: Option<&str>,
    known: Seq<DeliveredRecord>,
    name: Seq<char>,
    is_file: bool,
    mtime: u64,
)
    ensures
        ({
            let told = ScanTold::Found(name, is_file, mtime);
            let asked = ScanView::Idle.asks(settings(cfg, build_id), known, told);
            let next = ScanView::Idle.next(settings(cfg, build_id), known, told);
            let id = dump_id(name, mtime);
            &&& !wanted(name, cfg) || !is_file ==> asked == ScanAsked::Next && next
                == ScanView::Idle
            &&& wanted(name, cfg) && is_file && !has_id(known, id) ==> asked == ScanAsked::Read
                && next == ScanView::Reading(id)
            &&& wanted(name, cfg) && is_file && has_id(known, id) && cfg.delete_after_capture
                ==> asked == ScanAsked::Delete && next == ScanView::Idle
            &&& wanted(name, cfg) && is_file && has_id(known, id) && !cfg.delete_after_capture
                ==> asked == ScanAsked::Next && next == ScanView::Idle
        }),
{
    if wanted(name, cfg) {
        let (i, rest) = choose|i: int, rest: Seq<char>|
            0 <= i < cfg.kinds@.len() && name == #[trigger] (cfg.kinds@[i]@ + rest);
        assert(name.subrange(0, cfg.kinds@[i]@.len() as int) =~= cfg.kinds@[i]@);
        assert(cfg.kinds@[i]@.is_prefix_of(name));
    }
    assert forall|i: int|
        0 <= i < cfg.kinds@.len() && (#[trigger] cfg.kinds@[i])@.is_prefix_of(name) implies wanted(
        name,
        cfg,
    ) by {
        let kind = cfg.kinds@[i]@;
        let rest = name.skip(kind.len() as int);
        assert(name =~= cfg.kinds@[i]@ + rest);
    }
}

/// The message `e` is the one for this chunk: what stands under each key of it.
pub open spec fn says_chunk(
    e: Seq<(CborView, CborView)>,
    id: u64,
    ordinal: u64,
    content: Seq<u8>,
    is_last: bool,
    build_id: Option<&str>,
) -> bool {
    forall|key: u64| #[trigger]
        field(entries_read_back(e), key) == match key {
            0 => Some(DecodedView::Integer(2)),
            9 => Some(DecodedView::Integer(id as i128)),
            10 => Some(DecodedView::Integer(ordinal as i128)),
            11 => Some(DecodedView::Bytes(content)),
            12 => if is_last {
                Some(DecodedView::Bool(true))
            } else {
                None
            },
            14 => match build_id {
                Some(b) => Some(DecodedView::Text(b@)),
                None => None,
            },
            15 => Some(DecodedView::Text("Linux"@)),
            _ => None,
        }
}

proof fn lemma_says_chunk(
    id: u64,
    ordinal: u64,
    content: Seq<u8>,
    is_last: bool,
    build_id: Option<&str>,
)
    ensures
        says_chunk(
            chunk_message(id, ordinal, content, is_last, build_text(build_id)),
            id,
            ordinal,
            content,
            is_last,
            build_id,
        ),
{
    let e = chunk_message(id, ordinal, content, is_last, build_text(build_id));
    assert forall|key: u64| #[trigger]
        field(entries_read_back(e), key) == match key {
            0 => Some(DecodedView::Integer(2)),
            9 => Some(DecodedView::Integer(id as i128)),
            10 => Some(DecodedView::Integer(ordinal as i128)),
            11 => Some(DecodedView::Bytes(content)),
            12 => if is_last {
                Some(DecodedView::Bool(true))
            } else {
                None
            },
            14 => match build_id {
                Some(b) => Some(DecodedView::Text(b@)),
                None => None,
            },
            15 => Some(DecodedView::Text("Linux"@)),
            _ => None,
        } by {
        lemma_message_fields(id, ordinal, content, is_last, build_text(build_id), key);
    }
}

/// What is sent of a record are its first `max_bytes` bytes, in pieces of `chunk_bytes`,
/// where zero counts as one: the piece at `i` starts at `i * chunk_bytes`.
pub proof fn law_record_is_cut_in_order(
    content: Seq<u8>,
    max_bytes: nat,
    chunk_bytes: nat,
    i: int,
)
    ensures
        ({
            let record = record_chunks(content, max_bytes, chunk_bytes);
            let size = if content.len() <= max_bytes {
                content.len() as int
            } else {
                max_bytes as int
            };
            let width = if chunk_bytes == 0 {
                1
            } else {
                chunk_bytes as int
            };
            &&& record.len() == (size + width - 1) / width
            &&& 0 <= i < record.len() ==> 0 <= i * width < size && record[i] == content.subrange(
                i * width,
                if i * width + width <= size {
                    i * width + width
                } else {
                    size
                },
            )
        }),
{
    let part = capped(content, max_bytes);
    let width: nat = if chunk_bytes == 0 {
        1
    } else {
        chunk_bytes
    };
    law_chunk_lengths(part, width);
    let record = record_chunks(content, max_bytes, chunk_bytes);
    if 0 <= i < record.len() {
        law_piece_is_a_stretch(part, width, i);
        let to = if i * width + width <= part.len() {
            i * width + width
        } else {
            part.len() as int
        };
        assert(part.subrange(i * width, to) =~= content.subrange(i * width, to));
    }
}

/// A record that was read is sent from its first chunk on. One without content is passed
/// over, one that could not be read too.
pub proof fn law_first_chunk_is_sent_first(
    cfg: CrashdumpConfig,
    build_id: Option<&str>,
    id: u64,
    known: Seq<DeliveredRecord>,
    content: Seq<u8>,
)
    ensures
        ({
            let scan = ScanView::Reading(id);
            let s = settings(cfg, build_id);
            let record = record_chunks(content, cfg.max_bytes as nat, cfg.chunk_bytes as nat);
            let asked = scan.asks(s, known, ScanTold::Content(content));
            let next = scan.next(s, known, ScanTold::Content(content));
            &&& record.len() == 0 ==> asked == ScanAsked::Next && next == ScanView::Idle
            &&& record.len() > 0 ==> exists|e: Seq<(CborView, CborView)>|
                {
                    &&& says_chunk(e, id, 0, record[0], record.len() == 1, build_id)
                    &&& match #[trigger] map_bytes(e) {
                        Some(payload) => asked == ScanAsked::Publish(payload) && next
                            == ScanView::Uploading(id, record, 0),
                        None => asked == ScanAsked::Stop && next == ScanView::Idle,
                    }
                }
            &&& scan.asks(s, known, ScanTold::Unreadable) == ScanAsked::Next
            &&& scan.next(s, known, ScanTold::Unreadable) == ScanView::Idle
        }),
{
    let record = record_chunks(content, cfg.max_bytes as nat, cfg.chunk_bytes as nat);
    if record.len() > 0 {
        lemma_says_chunk(id, 0, record[0], record.len() == 1, build_id);
        let e = chunk_message(id, 0, record[0], record.len() == 1, build_text(build_id));
        assert(map_bytes(e) == map_bytes(e));
    }
}

/// Behind a chunk that was published comes the next one, with the next ordinal, the same
/// id and the mark of the last one only on the last. Where a chunk cannot be published or
/// encoded, the pass ends and the record stays.
pub proof fn law_chunks_are_sent_in_turn(
    cfg: CrashdumpConfig,
    build_id: Option<&str>,
    id: u64,
    record: Seq<Seq<u8>>,
    i: int,
    known: Seq<DeliveredRecord>,
    now: u64,
)
    requires
        0 <= i,
        i + 1 < record.len() <= u64::MAX,
    ensures
        ({
            let scan = ScanView::Uploading(id, record, i);
            let s = settings(cfg, build_id);
            let asked = scan.asks(s, known, ScanTold::Published(now));
            let next = scan.next(s, known, ScanTold::Published(now));
            &&& exists|e: Seq<(CborView, CborView)>|
                {
                    &&& says_chunk(
                        e,
                        id,
                        (i + 1) as u64,
                        record[i + 1],
                        i + 2 == record.len(),
                        build_id,
                    )
                    &&& match #[trigger] map_bytes(e) {
                        Some(payload) => asked == ScanAsked::Publish(payload) && next
                            == ScanView::Uploading(id, record, i + 1),
                        None => asked == ScanAsked::Stop && next == ScanView::Idle,
                    }
                }
            &&& scan.asks(s, known, ScanTold::PublishFailed) == ScanAsked::Stop
            &&& scan.next(s, known, ScanTold::PublishFailed) == ScanView::Idle
        }),
{
    let ordinal = (i + 1) as u64;
    lemma_says_chunk(id, ordinal, record[i + 1], i + 2 == record.len(), build_id);
    let e = chunk_message(id, ordinal, record[i + 1], i + 2 == record.len(), build_text(build_id));
    assert(map_bytes(e) == map_bytes(e));
}

/// A failure to publish ends the pass at the last chunk too.
pub proof fn law_failure_ends_the_pass(
    cfg: CrashdumpConfig,
    build_id: Option<&str>,
    id: u64,
    record: Seq<Seq<u8>>,
    i: int,
    known: Seq<DeliveredRecord>,
)
    ensures
        ScanView::Uploading(id, record, i).asks(
            settings(cfg, build_id),
            known,
            ScanTold::PublishFailed,
        ) == ScanAsked::Stop,
        ScanView::Uploading(id, record, i).next(
            settings(cfg, build_id),
            known,
            ScanTold::PublishFailed,
        ) == ScanView::Idle,
        ScanView::Uploading(id, record, i).knows(known, ScanTold::PublishFailed) == known,
{
}

// ---------------------------------------------------------------------------
// Identity and memory of records
// ---------------------------------------------------------------------------

/// Bytes are hashed one after the other, each by exclusive or and then a product with the
/// prime of the hash, modulo 2^64.
pub proof fn law_hash_goes_byte_by_byte(h: u64, bytes: Seq<u8>, b: u8)
    ensures
        fnv(h, Seq::empty()) == h,
        fnv(h, bytes.push(b)) as int == ((fnv(h, bytes) ^ (b as u64)) as int * 1099511628211)
            % 18446744073709551616,
{
    assert(bytes.push(b).drop_last() =~= bytes);
}

/// The bytes of a number, lowest first: the byte at `i` is the number divided by 256 `i`
/// times, modulo 256.
pub proof fn law_bytes_of_a_number(m: nat, n: nat)
    ensures
        le_bytes(m, n).len() == n,
        n > 0 ==> le_bytes(m, n)[0] as nat == m % 256,
        n > 0 ==> le_bytes(m, n).skip(1) == le_bytes(m / 256, (n - 1) as nat),
    decreases n,
{
    if n > 0 {
        law_bytes_of_a_number(m / 256, (n - 1) as nat);
        assert(le_bytes(m, n).skip(1) =~= le_bytes(m / 256, (n - 1) as nat));
    }
}

/// The id of a record is the hash of the bytes of its name and then of the eight bytes of
/// its time, all of them, without the top bit: the id is below 2^63, and the hash is the id
/// or that much greater.
pub proof fn law_id_is_the_hash_of_name_and_time(name: Seq<char>, mtime: u64)
    ensures
        ({
            let hash = fnv(
                14695981039346656037,
                encode_utf8(name) + le_bytes(mtime as nat, 8),
            );
            &&& dump_id(name, mtime) < 9223372036854775808
            &&& hash == dump_id(name, mtime) || hash == dump_id(name, mtime) + 9223372036854775808
        }),
{
    lemma_hash_joined(14695981039346656037, encode_utf8(name), le_bytes(mtime as nat, 8));
}

/// Hashing goes on where it stopped.
proof fn lemma_hash_joined(h: u64, a: Seq<u8>, b: Seq<u8>)
    ensures
        fnv(h, a + b) == fnv(fnv(h, a), b),
    decreases b.len(),
{
    if b.len() == 0 {
        assert(a + b =~= a);
    } else {
        lemma_hash_joined(h, a, b.drop_last());
        assert((a + b).drop_last() =~= a + b.drop_last());
    }
}

/// A delivery is remembered for seven days, to the second, and then forgotten.
pub proof fn law_deliveries_are_remembered_for_a_week(
    records: Seq<DeliveredRecord>,
    now: u64,
    r: DeliveredRecord,
)
    requires
        records.contains(r),
    ensures
        records.filter(retained(now)).contains(r) <==> now - r.ts <= 7 * 24 * 60 * 60,
{
    law_prune_keeps_the_young(records, now);
}

} // verus!
