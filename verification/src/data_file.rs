//! The log: an append-only sequence of records, held as the bytes of the
//! file that stores it.
//!
//! Records are only ever added at the end. A value is read back from the
//! offset and length that the index keeps for it, and the index itself is
//! rebuilt by replaying the log from its first byte.
//!
//! The length of a written record is reported as a 32-bit number, so a
//! record of more than `2^32 - 1` bytes is refused.

use crate::codec::{be32_at, decode_header, encodable, encode, lemma_record_layout, opt_view};
use crate::codec::{put_bytes, record_bytes, ValueLen, HEADER_SIZE};
use crate::codec::{record_len, StoreError, MAX_KEY_LEN, MAX_RECORD_LEN, MAX_VALUE_LEN};
use crate::keydir::{KeyDir, Slot};
use crate::replay::{end_at, index_of, lemma_replay_push, log_index, parse_from, parse_log};
use crate::replay::{record_at, valid_log, Record};
use vstd::prelude::*;
use vstd::slice::{slice_subrange, slice_to_vec};

verus! {

/// Whether the record of `key` and `value` can be written: it can be framed,
/// and its length fits the 32-bit number that reports it.
pub open spec fn writable(key: Seq<u8>, value: Option<Seq<u8>>) -> bool {
    encodable(key, value) && record_len(key, value) <= MAX_RECORD_LEN
}

/// The error that refuses a record which cannot be written.
pub open spec fn write_error(key: Seq<u8>, value: Option<Seq<u8>>) -> StoreError {
    if key.len() > MAX_KEY_LEN {
        StoreError::KeyTooLarge
    } else if !encodable(key, value) {
        StoreError::ValueTooLarge
    } else {
        StoreError::RecordTooLarge
    }
}

/// What reading `slot` from `log` gives: the bytes there, or `UnexpectedEof`
/// if the slot reaches past the end of the log.
pub open spec fn read_at(log: Seq<u8>, slot: Slot) -> Result<Seq<u8>, StoreError> {
    if slot.0 + slot.1 <= log.len() {
        Ok(log.subrange(slot.0 as int, slot.0 + slot.1))
    } else {
        Err(StoreError::UnexpectedEof)
    }
}

/// The view of a read: the bytes that came back, or the error.
pub open spec fn read_view(r: Result<Vec<u8>, StoreError>) -> Result<Seq<u8>, StoreError> {
    match r {
        Ok(v) => Ok(v@),
        Err(e) => Err(e),
    }
}

/// Frames the record of `key` and `value` as `write_entry` appends it, or
/// tells why it cannot be written.
pub fn frame_entry(key: &[u8], value: Option<&[u8]>) -> (r: Result<Vec<u8>, StoreError>)
    ensures
        writable(key@, opt_view(value)) ==> (r matches Ok(record) && record@ == record_bytes(
            key@,
            opt_view(value),
        )),
        !writable(key@, opt_view(value)) ==> r == Err::<Vec<u8>, StoreError>(
            write_error(key@, opt_view(value)),
        ),
{
    let value_len = match value {
        Some(v) => v.len(),
        None => 0,
    };
    if key.len() <= MAX_KEY_LEN && value_len <= MAX_VALUE_LEN && key.len() as u64
        + value_len as u64 > (MAX_RECORD_LEN - HEADER_SIZE) as u64 {
        return Err(StoreError::RecordTooLarge);
    }
    encode(key, value)
}

/// The bytes of a log.
pub struct DataFile {
    bytes: Vec<u8>,
}

impl View for DataFile {
    type V = Seq<u8>;

    closed spec fn view(&self) -> Seq<u8> {
        self.bytes@
    }
}

impl DataFile {
    /// A log that holds `bytes`.
    pub fn new(bytes: Vec<u8>) -> (file: DataFile)
        ensures
            file@ == bytes@,
    {
        DataFile { bytes }
    }

    /// The bytes of the log.
    pub fn as_bytes(&self) -> (bytes: &[u8])
        ensures
            bytes@ == self@,
    {
        self.bytes.as_slice()
    }

    /// A log is no longer than a 64-bit offset can tell.
    pub proof fn lemma_len_fits(&self)
        ensures
            self@.len() <= u64::MAX,
    {
        assert(self.bytes.len() == self.bytes@.len());
    }

    /// The length of the log, which is the offset of the next record.
    pub fn len(&self) -> (n: u64)
        ensures
            n == self@.len(),
    {
        self.bytes.len() as u64
    }

    /// Rebuilds the index by replaying the log from its first byte: a value
    /// record gives its key the slot of the value, at the offset after both
    /// length fields and the key, and a deletion takes its key out. A log that
    /// ends in the middle of a record is refused as corrupt.
    pub fn load_index(&self) -> (r: Result<KeyDir, StoreError>)
        ensures
            valid_log(self@) ==> r is Ok,
            r matches Ok(dir) ==> {
                &&& valid_log(self@)
                &&& dir.wf()
                &&& dir@ == log_index(self@)
                &&& dir.compacted_len() <= self@.len()
            },
            r matches Err(e) ==> e == StoreError::CorruptLog && !valid_log(self@),
    {
        let bytes = self.bytes.as_slice();
        let n = bytes.len();
        let mut dir = KeyDir::new();
        let mut pos: usize = 0;
        let ghost mut done: Seq<Record> = Seq::empty();
        assert(done + parse_from(self@, 0)->0 =~= parse_from(self@, 0)->0);
        while pos < n
            invariant
                bytes@ == self@,
                n == self@.len(),
                pos <= n,
                dir.wf(),
                dir@ == index_of(done),
                dir.compacted_len() <= pos,
                parse_log(self@) == match parse_from(self@, pos as int) {
                    Some(rest) => Some(done + rest),
                    None => None,
                },
            decreases n - pos,
        {
            if n - pos < HEADER_SIZE {
                return Err(StoreError::CorruptLog);
            }
            let header = slice_subrange(bytes, pos, pos + HEADER_SIZE);
            assert(be32_at(header@, 0) == be32_at(self@, pos as int));
            assert(be32_at(header@, 4) == be32_at(self@, pos + 4));
            let (key_len, value_len_or_tombstone) = match decode_header(header) {
                Ok((key_len, value_len)) => (key_len as usize, value_len),
                Err(_) => {
                    return Err(StoreError::CorruptLog);
                },
            };
            let value_len: usize = match value_len_or_tombstone {
                ValueLen::Len(len) => len as usize,
                ValueLen::Tombstone => 0,
            };
            let room = n - pos - HEADER_SIZE;
            if key_len > room || value_len > room - key_len {
                return Err(StoreError::CorruptLog);
            }
            let value_pos = pos + HEADER_SIZE + key_len;
            let key = slice_to_vec(slice_subrange(bytes, pos + HEADER_SIZE, value_pos));
            let ghost r = record_at(self@, pos as int);
            let ghost rest = parse_from(self@, end_at(self@, pos as int));
            proof {
                assert(key@ == r.key);
                assert(r.value_pos() == value_pos);
                lemma_replay_push(done, r);
                if rest is Some {
                    assert(done + (seq![r] + rest->0) =~= done.push(r) + rest->0);
                }
            }
            match value_len_or_tombstone {
                ValueLen::Len(len) => {
                    dir.insert(key, (value_pos as u64, len));
                },
                ValueLen::Tombstone => {
                    dir.remove(key.as_slice());
                },
            }
            proof {
                done = done.push(r);
            }
            pos = value_pos + value_len;
        }
        assert(done + Seq::<Record>::empty() =~= done);
        Ok(dir)
    }

    /// Reads the `value_len` bytes at offset `value_pos`. Fails with
    /// `UnexpectedEof` if the log is shorter than that.
    pub fn read_value(&self, value_pos: u64, value_len: u32) -> (r: Result<Vec<u8>, StoreError>)
        ensures
            read_view(r) == read_at(self@, (value_pos, value_len)),
    {
        let n = self.bytes.len();
        if value_pos > n as u64 || value_len as u64 > n as u64 - value_pos {
            return Err(StoreError::UnexpectedEof);
        }
        let start = value_pos as usize;
        let end = start + value_len as usize;
        Ok(slice_to_vec(slice_subrange(self.bytes.as_slice(), start, end)))
    }

    /// Appends `record` to the log and returns the offset at which it begins.
    pub fn append(&mut self, record: &[u8]) -> (offset: u64)
        ensures
            offset == old(self)@.len(),
            final(self)@ == old(self)@ + record@,
    {
        let offset = self.bytes.len() as u64;
        put_bytes(&mut self.bytes, record);
        offset
    }

    /// Appends the record of `key` and `value`, a deletion if `value` is
    /// `None`, and returns the offset at which the record begins and its
    /// length. A record that cannot be written leaves the log unchanged.
    pub fn write_entry(&mut self, key: &[u8], value: Option<&[u8]>) -> (r: Result<
        (u64, u32),
        StoreError,
    >)
        ensures
            writable(key@, opt_view(value)) ==> r == Ok::<(u64, u32), StoreError>(
                (old(self)@.len() as u64, record_len(key@, opt_view(value)) as u32),
            ) && final(self)@ == old(self)@ + record_bytes(key@, opt_view(value)),
            !writable(key@, opt_view(value)) ==> r == Err::<(u64, u32), StoreError>(
                write_error(key@, opt_view(value)),
            ) && final(self)@ == old(self)@,
    {
        let record = match frame_entry(key, value) {
            Ok(record) => record,
            Err(e) => {
                return Err(e);
            },
        };
        proof {
            lemma_record_layout(key@, opt_view(value));
        }
        let offset = self.append(record.as_slice());
        Ok((offset, record.len() as u32))
    }
}

} // verus!
