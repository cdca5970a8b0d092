//! Binary framing of one log record.
//!
//! A record is laid out as
//!
//! ```text
//! key_len (4 bytes, big-endian u32)
//! value_len_or_tombstone (4 bytes, big-endian i32; negative marks a deletion)
//! key (key_len bytes)
//! value (value_len bytes, absent for a deletion)
//! ```
//!
//! The sign of the second field carries the deletion marker, so a value is
//! limited to `2^31 - 1` bytes and a key to `2^32 - 1` bytes. Longer inputs
//! are rejected, never truncated.

use vstd::prelude::*;

verus! {

/// Number of bytes of a record header: the key length and the value length.
pub const HEADER_SIZE: usize = 8;

/// Largest number of bytes a key may have.
pub const MAX_KEY_LEN: usize = 0xFFFF_FFFF;

/// Largest number of bytes a value may have.
pub const MAX_VALUE_LEN: usize = 0x7FFF_FFFF;

/// Largest number of bytes a whole record may have: its length is reported
/// as a 32-bit number.
pub const MAX_RECORD_LEN: usize = 0xFFFF_FFFF;

/// The bit pattern written into the value length field of a deletion.
pub const TOMBSTONE_FIELD: u32 = 0xFFFF_FFFF;

/// What can go wrong in the store.
#[derive(Debug, Clone, Copy, PartialEq, Eq, Structural)]
pub enum StoreError {
    /// Fewer bytes than a record header were offered for decoding.
    Framing,
    /// The key is longer than `MAX_KEY_LEN` bytes.
    KeyTooLarge,
    /// The value is longer than `MAX_VALUE_LEN` bytes.
    ValueTooLarge,
    /// Header, key and value together are longer than `MAX_RECORD_LEN` bytes.
    RecordTooLarge,
    /// The log ends in the middle of a record.
    CorruptLog,
    /// A read reaches past the end of the log.
    UnexpectedEof,
}

/// The second header field, decoded: a value of some length, or a deletion.
#[derive(Debug, Clone, Copy, PartialEq, Eq, Structural)]
pub enum ValueLen {
    /// A value of this many bytes follows the key.
    Len(u32),
    /// The record deletes its key; nothing follows the key.
    Tombstone,
}

/// The big-endian bytes of a 32-bit unsigned number.
pub open spec fn be32(x: u32) -> Seq<u8> {
    seq![
        (x as int / 0x100_0000) as u8,
        (x as int / 0x1_0000 % 0x100) as u8,
        (x as int / 0x100 % 0x100) as u8,
        (x as int % 0x100) as u8,
    ]
}

/// The number that the four big-endian bytes starting at `at` denote.
pub open spec fn be32_at(bytes: Seq<u8>, at: int) -> int {
    bytes[at] as int * 0x100_0000 + bytes[at + 1] as int * 0x1_0000 + bytes[at + 2] as int * 0x100
        + bytes[at + 3] as int
}

/// The meaning of the value length field whose unsigned reading is `raw`:
/// read as a signed number, it is negative from `2^31` on.
pub open spec fn value_len_of(raw: int) -> ValueLen {
    if raw < 0x8000_0000 {
        ValueLen::Len(raw as u32)
    } else {
        ValueLen::Tombstone
    }
}

/// The value length field of a record that carries `value`.
pub open spec fn value_field(value: Option<Seq<u8>>) -> u32 {
    match value {
        Some(v) => v.len() as u32,
        None => TOMBSTONE_FIELD,
    }
}

/// The bytes that follow the key of a record that carries `value`.
pub open spec fn value_bytes(value: Option<Seq<u8>>) -> Seq<u8> {
    match value {
        Some(v) => v,
        None => Seq::empty(),
    }
}

/// Whether a record of `key` and `value` can be framed.
pub open spec fn encodable(key: Seq<u8>, value: Option<Seq<u8>>) -> bool {
    &&& key.len() <= MAX_KEY_LEN
    &&& value matches Some(v) ==> v.len() <= MAX_VALUE_LEN
}

/// The bytes of the record of `key` and `value`.
pub open spec fn record_bytes(key: Seq<u8>, value: Option<Seq<u8>>) -> Seq<u8> {
    be32(key.len() as u32) + be32(value_field(value)) + key + value_bytes(value)
}

/// The number of bytes of the record of `key` and `value`.
pub open spec fn record_len(key: Seq<u8>, value: Option<Seq<u8>>) -> nat {
    8 + key.len() + value_bytes(value).len()
}

/// The view of an optional byte slice.
pub open spec fn opt_view(value: Option<&[u8]>) -> Option<Seq<u8>> {
    match value {
        Some(v) => Some(v@),
        None => None,
    }
}

/// Reading back the four bytes of `be32(x)` gives `x`.
pub proof fn lemma_be32_round_trip(x: u32)
    ensures
        be32(x).len() == 4,
        be32_at(be32(x), 0) == x,
{
}

/// The header of a framed record gives back the length of the key and tells a
/// value of its length from a deletion; key and value follow it unchanged.
pub proof fn lemma_record_layout(key: Seq<u8>, value: Option<Seq<u8>>)
    requires
        encodable(key, value),
    ensures
        record_bytes(key, value).len() == record_len(key, value),
        be32_at(record_bytes(key, value), 0) == key.len(),
        value_len_of(be32_at(record_bytes(key, value), 4)) == match value {
            Some(v) => ValueLen::Len(v.len() as u32),
            None => ValueLen::Tombstone,
        },
        record_bytes(key, value).subrange(8, 8 + key.len() as int) == key,
        record_bytes(key, value).subrange(8 + key.len() as int, record_len(key, value) as int)
            == value_bytes(value),
{
    let r = record_bytes(key, value);
    let a = be32(key.len() as u32);
    let b = be32(value_field(value));
    lemma_be32_round_trip(key.len() as u32);
    lemma_be32_round_trip(value_field(value));
    assert(r[0] == a[0] && r[1] == a[1] && r[2] == a[2] && r[3] == a[3]);
    assert(r[4] == b[0] && r[5] == b[1] && r[6] == b[2] && r[7] == b[3]);
    assert(be32_at(r, 0) == be32_at(a, 0));
    assert(be32_at(r, 4) == be32_at(b, 0));
    assert(r.subrange(8, 8 + key.len() as int) =~= key);
    assert(r.subrange(8 + key.len() as int, record_len(key, value) as int) =~= value_bytes(
        value,
    ));
}

/// Appends the big-endian bytes of `x` to `out`.
pub fn put_be32(out: &mut Vec<u8>, x: u32)
    ensures
        final(out)@ == old(out)@ + be32(x),
{
    out.push((x / 0x100_0000) as u8);
    out.push((x / 0x1_0000 % 0x100) as u8);
    out.push((x / 0x100 % 0x100) as u8);
    out.push((x % 0x100) as u8);
    assert(out@ =~= old(out)@ + be32(x));
}

/// Reads the big-endian number held in the four bytes from `at` on.
pub fn get_be32(bytes: &[u8], at: usize) -> (x: u32)
    requires
        at + 4 <= bytes@.len(),
    ensures
        x == be32_at(bytes@, at as int),
{
    let b0: u32 = bytes[at] as u32;
    let b1: u32 = bytes[at + 1] as u32;
    let b2: u32 = bytes[at + 2] as u32;
    let b3: u32 = bytes[at + 3] as u32;
    b0 * 0x100_0000 + b1 * 0x1_0000 + b2 * 0x100 + b3
}

/// Appends every byte of `src` to `out`.
pub fn put_bytes(out: &mut Vec<u8>, src: &[u8])
    ensures
        final(out)@ == old(out)@ + src@,
{
    let mut i: usize = 0;
    while i < src.len()
        invariant
            i <= src@.len(),
            out@ == old(out)@ + src@.subrange(0, i as int),
        decreases src@.len() - i,
    {
        out.push(src[i]);
        i += 1;
        assert(out@ =~= old(out)@ + src@.subrange(0, i as int));
    }
    assert(src@.subrange(0, i as int) =~= src@);
}

/// Frames one record: both length fields, then the key, then the value if
/// there is one. An empty key and an empty value are legal, and an empty
/// value is not a deletion.
pub fn encode(key: &[u8], value: Option<&[u8]>) -> (r: Result<Vec<u8>, StoreError>)
    ensures
        encodable(key@, opt_view(value)) ==> r is Ok,
        r matches Ok(bytes) ==> encodable(key@, opt_view(value)) && bytes@ == record_bytes(
            key@,
            opt_view(value),
        ),
        r matches Err(e) ==> e == (if key@.len() > MAX_KEY_LEN {
            StoreError::KeyTooLarge
        } else {
            StoreError::ValueTooLarge
        }),
{
    if key.len() > MAX_KEY_LEN {
        return Err(StoreError::KeyTooLarge);
    }
    let mut out: Vec<u8> = Vec::new();
    match value {
        Some(v) => {
            if v.len() > MAX_VALUE_LEN {
                return Err(StoreError::ValueTooLarge);
            }
            put_be32(&mut out, key.len() as u32);
            put_be32(&mut out, v.len() as u32);
            put_bytes(&mut out, key);
            put_bytes(&mut out, v);
        },
        None => {
            put_be32(&mut out, key.len() as u32);
            put_be32(&mut out, TOMBSTONE_FIELD);
            put_bytes(&mut out, key);
        },
    }
    assert(out@ =~= record_bytes(key@, opt_view(value)));
    Ok(out)
}

/// Parses a record header: the key length and the decoded value length field.
/// Fails with `Framing` exactly when fewer than `HEADER_SIZE` bytes are given.
pub fn decode_header(bytes: &[u8]) -> (r: Result<(u32, ValueLen), StoreError>)
    ensures
        bytes@.len() >= HEADER_SIZE ==> r == Ok::<(u32, ValueLen), StoreError>(
            (be32_at(bytes@, 0) as u32, value_len_of(be32_at(bytes@, 4))),
        ),
        bytes@.len() < HEADER_SIZE ==> r == Err::<(u32, ValueLen), StoreError>(
            StoreError::Framing,
        ),
{
    if bytes.len() < HEADER_SIZE {
        return Err(StoreError::Framing);
    }
    let key_len = get_be32(bytes, 0);
    let raw = get_be32(bytes, 4);
    let value_len = if raw < 0x8000_0000 {
        ValueLen::Len(raw)
    } else {
        ValueLen::Tombstone
    };
    Ok((key_len, value_len))
}

} // verus!
