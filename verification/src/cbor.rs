//! CBOR maps, encoded and decoded by ciborium.

use vstd::prelude::*;

verus! {

/// A key or a value in a map to be written.
#[derive(Debug)]
pub enum CborItem {
    Uint(u64),
    Text(String),
    Bytes(Vec<u8>),
    Bool(bool),
}

/// What such a key or value says.
pub enum CborView {
    Uint(u64),
    Text(Seq<char>),
    Bytes(Seq<u8>),
    Bool(bool),
}

impl View for CborItem {
    type V = CborView;

    open spec fn view(&self) -> CborView {
        match self {
            CborItem::Uint(n) => CborView::Uint(*n),
            CborItem::Text(s) => CborView::Text(s@),
            CborItem::Bytes(b) => CborView::Bytes(b@),
            CborItem::Bool(b) => CborView::Bool(*b),
        }
    }
}

/// What the entries of a map to be written say.
pub open spec fn entries_view(entries: Seq<(CborItem, CborItem)>) -> Seq<(CborView, CborView)> {
    entries.map_values(|e: (CborItem, CborItem)| (e.0@, e.1@))
}

/// A key or a value in a map that was read, as far as this crate looks at it.
#[derive(Debug)]
pub enum Decoded {
    Text(String),
    Integer(i128),
    Bytes(Vec<u8>),
    Bool(bool),
    Other,
}

/// What such a key or value says.
pub enum DecodedView {
    Text(Seq<char>),
    Integer(i128),
    Bytes(Seq<u8>),
    Bool(bool),
    Other,
}

impl View for Decoded {
    type V = DecodedView;

    open spec fn view(&self) -> DecodedView {
        match self {
            Decoded::Text(s) => DecodedView::Text(s@),
            Decoded::Integer(n) => DecodedView::Integer(*n),
            Decoded::Bytes(b) => DecodedView::Bytes(b@),
            Decoded::Bool(b) => DecodedView::Bool(*b),
            Decoded::Other => DecodedView::Other,
        }
    }
}

/// What the entries of a map that was read say.
pub open spec fn decoded_view(entries: Seq<(Decoded, Decoded)>) -> Seq<(DecodedView, DecodedView)> {
    entries.map_values(|e: (Decoded, Decoded)| (e.0@, e.1@))
}

/// How a key or value reads that was written.
pub open spec fn read_back(item: CborView) -> DecodedView {
    match item {
        CborView::Uint(n) => DecodedView::Integer(n as i128),
        CborView::Text(s) => DecodedView::Text(s),
        CborView::Bytes(b) => DecodedView::Bytes(b),
        CborView::Bool(b) => DecodedView::Bool(b),
    }
}

/// How the entries of a map read that were written.
pub open spec fn entries_read_back(entries: Seq<(CborView, CborView)>) -> Seq<
    (DecodedView, DecodedView),
> {
    entries.map_values(|e: (CborView, CborView)| (read_back(e.0), read_back(e.1)))
}

/// The value that stands under a number in a map that was read: of equal keys, the first.
pub open spec fn field(entries: Seq<(DecodedView, DecodedView)>, key: u64) -> Option<DecodedView>
    decreases entries.len(),
{
    if entries.len() == 0 {
        None
    } else if entries[0].0 == DecodedView::Integer(key as i128) {
        Some(entries[0].1)
    } else {
        field(entries.skip(1), key)
    }
}

/// Why a map could not be encoded, in ciborium's words.
#[derive(Debug)]
pub struct EncodeError {
    pub cause: String,
}

/// The bytes of the map with the given entries, in their order, as ciborium writes it;
/// `None` where it refuses to.
pub uninterp spec fn map_bytes(entries: Seq<(CborView, CborView)>) -> Option<Seq<u8>>;

/// The entries of the map at the start of some bytes, as ciborium reads it; `None` where
/// there is no CBOR item or one that is not a map.
pub uninterp spec fn map_entries(bytes: Seq<u8>) -> Option<Seq<(DecodedView, DecodedView)>>;

/// `ciborium::into_writer` on a `Value::Map`. The result, which depends on the entries
/// alone, is [`map_bytes`]; and what is written reads back, entry by entry, in order.
#[verifier::external_body]
fn write_map(entries: &Vec<(CborItem, CborItem)>) -> (r: Result<Vec<u8>, String>)
    ensures
        match r {
            Ok(bytes) => map_bytes(entries_view(entries@)) == Some(bytes@) && map_entries(bytes@)
                == Some(entries_read_back(entries_view(entries@))),
            Err(_) => map_bytes(entries_view(entries@)) is None,
        },
{
    let value = |item: &CborItem| match item {
        CborItem::Uint(n) => ciborium::Value::from(*n),
        CborItem::Text(s) => ciborium::Value::from(s.as_str()),
        CborItem::Bytes(b) => ciborium::Value::from(b.as_slice()),
        CborItem::Bool(b) => ciborium::Value::from(*b),
    };
    let map = entries.iter().map(|(k, v)| (value(k), value(v))).collect();
    let mut bytes = Vec::new();
    match ciborium::into_writer(&ciborium::Value::Map(map), &mut bytes) {
        Ok(()) => Ok(bytes),
        Err(e) => Err(e.to_string()),
    }
}

/// `ciborium::from_reader` into a `Value`, which is then told apart: texts, integers,
/// byte strings and booleans keep what they hold. The result, which depends on the bytes alone,
/// is [`map_entries`].
#[verifier::external_body]
pub(crate) fn read_map(bytes: &[u8]) -> (r: Option<Vec<(Decoded, Decoded)>>)
    ensures
        match r {
            Some(entries) => map_entries(bytes@) == Some(decoded_view(entries@)),
            None => map_entries(bytes@) is None,
        },
{
    let plain = |v: ciborium::Value| match v {
        ciborium::Value::Text(s) => Decoded::Text(s),
        ciborium::Value::Integer(n) => Decoded::Integer(n.into()),
        ciborium::Value::Bytes(b) => Decoded::Bytes(b),
        ciborium::Value::Bool(b) => Decoded::Bool(b),
        _ => Decoded::Other,
    };
    match ciborium::from_reader(bytes) {
        Ok(ciborium::Value::Map(m)) => {
            Some(m.into_iter().map(|(k, v)| (plain(k), plain(v))).collect())
        },
        _ => None,
    }
}

/// Encodes a map.
pub fn encode_map(entries: &Vec<(CborItem, CborItem)>) -> (r: Result<Vec<u8>, EncodeError>)
    ensures
        match r {
            Ok(bytes) => map_bytes(entries_view(entries@)) == Some(bytes@) && map_entries(bytes@)
                == Some(entries_read_back(entries_view(entries@))),
            Err(_) => map_bytes(entries_view(entries@)) is None,
        },
{
    match write_map(entries) {
        Ok(bytes) => Ok(bytes),
        Err(cause) => Err(EncodeError { cause }),
    }
}

/// Appends the field `key` to a message.
pub fn put_field(entries: &mut Vec<(CborItem, CborItem)>, key: u64, value: CborItem)
    ensures
        entries_view(final(entries)@) == entries_view(old(entries)@).push(
            (CborView::Uint(key), value@),
        ),
{
    entries.push((CborItem::Uint(key), value));
    assert(entries_view(entries@) =~= entries_view(old(entries)@).push(
        (CborView::Uint(key), value@),
    ));
}

} // verus!
