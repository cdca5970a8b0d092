//! What a log means: the records that its bytes frame, the index that
//! replaying them builds, and the key-value map that they leave.
//!
//! Everything here is specification and proof. The log is the source of
//! truth; index and contents are functions of its bytes.

use crate::codec::{be32_at, encodable, lemma_record_layout, record_bytes, record_len};
use crate::codec::value_bytes;
use crate::keydir::Slot;
use vstd::prelude::*;

verus! {

/// One record of a log: its key, its value unless it is a deletion, and the
/// offset of its first byte.
pub struct Record {
    pub key: Seq<u8>,
    pub value: Option<Seq<u8>>,
    pub start: int,
}

impl Record {
    /// The offset of the first byte after the key, where the value lies.
    pub open spec fn value_pos(self) -> int {
        self.start + 8 + self.key.len()
    }

    /// The offset of the first byte after the record.
    pub open spec fn end(self) -> int {
        self.value_pos() + value_bytes(self.value).len()
    }

    /// The record lies within `log`, which holds its key and its value where
    /// the record says.
    pub open spec fn lies_in(self, log: Seq<u8>) -> bool {
        &&& 0 <= self.start
        &&& self.end() <= log.len()
        &&& encodable(self.key, self.value)
        &&& log.subrange(self.start + 8, self.value_pos()) == self.key
        &&& self.value matches Some(v) ==> log.subrange(self.value_pos(), self.end()) == v
    }
}

/// The key that the record header at `pos` announces.
pub open spec fn key_at(log: Seq<u8>, pos: int) -> Seq<u8> {
    log.subrange(pos + 8, pos + 8 + be32_at(log, pos))
}

/// The number of value bytes that the record header at `pos` announces:
/// none for a deletion.
pub open spec fn value_len_at(log: Seq<u8>, pos: int) -> int {
    if be32_at(log, pos + 4) < 0x8000_0000 {
        be32_at(log, pos + 4)
    } else {
        0
    }
}

/// The offset after the record whose header is at `pos`.
pub open spec fn end_at(log: Seq<u8>, pos: int) -> int {
    pos + 8 + be32_at(log, pos) + value_len_at(log, pos)
}

/// The record whose header is at `pos`.
pub open spec fn record_at(log: Seq<u8>, pos: int) -> Record {
    Record {
        key: key_at(log, pos),
        value: if be32_at(log, pos + 4) < 0x8000_0000 {
            Some(log.subrange(pos + 8 + be32_at(log, pos), end_at(log, pos)))
        } else {
            None
        },
        start: pos,
    }
}

/// The records framed by the bytes of `log` from `pos` on, or `None` if the
/// log ends in the middle of a record.
pub open spec fn parse_from(log: Seq<u8>, pos: int) -> Option<Seq<Record>>
    decreases log.len() - pos,
{
    if pos < 0 || pos > log.len() {
        None
    } else if pos == log.len() {
        Some(Seq::empty())
    } else if pos + 8 > log.len() {
        None
    } else if end_at(log, pos) > log.len() {
        None
    } else {
        match parse_from(log, end_at(log, pos)) {
            Some(rest) => Some(seq![record_at(log, pos)] + rest),
            None => None,
        }
    }
}

/// The records of a whole log.
pub open spec fn parse_log(log: Seq<u8>) -> Option<Seq<Record>> {
    parse_from(log, 0)
}

/// The index after the record `r`: a value record gives its key the slot of
/// the value, a deletion takes the key out.
pub open spec fn index_step(m: Map<Seq<u8>, Slot>, r: Record) -> Map<Seq<u8>, Slot> {
    match r.value {
        Some(v) => m.insert(r.key, (r.value_pos() as u64, v.len() as u32)),
        None => m.remove(r.key),
    }
}

/// The index that replaying `rs` in order builds.
pub open spec fn index_of(rs: Seq<Record>) -> Map<Seq<u8>, Slot>
    decreases rs.len(),
{
    if rs.len() == 0 {
        Map::empty()
    } else {
        index_step(index_of(rs.drop_last()), rs.last())
    }
}

/// The contents after the record `r`: the last write of a key wins, and a
/// deletion takes the key out.
pub open spec fn contents_step(m: Map<Seq<u8>, Seq<u8>>, r: Record) -> Map<Seq<u8>, Seq<u8>> {
    match r.value {
        Some(v) => m.insert(r.key, v),
        None => m.remove(r.key),
    }
}

/// The key-value map that the records `rs` leave.
pub open spec fn contents_of(rs: Seq<Record>) -> Map<Seq<u8>, Seq<u8>>
    decreases rs.len(),
{
    if rs.len() == 0 {
        Map::empty()
    } else {
        contents_step(contents_of(rs.drop_last()), rs.last())
    }
}

/// The log is well framed: it is a sequence of whole records.
pub open spec fn valid_log(log: Seq<u8>) -> bool {
    parse_log(log) is Some
}

/// The records of a well-framed log.
pub open spec fn records(log: Seq<u8>) -> Seq<Record> {
    parse_log(log)->0
}

/// The index of a well-framed log.
pub open spec fn log_index(log: Seq<u8>) -> Map<Seq<u8>, Slot> {
    index_of(records(log))
}

/// The key-value map of a well-framed log.
pub open spec fn log_contents(log: Seq<u8>) -> Map<Seq<u8>, Seq<u8>> {
    contents_of(records(log))
}

/// Every slot of `index` lies within `log` and holds there the value that
/// `contents` has for the key, key and value are short enough to be framed,
/// and both maps have the same keys.
pub open spec fn slots_hold(
    index: Map<Seq<u8>, Slot>,
    contents: Map<Seq<u8>, Seq<u8>>,
    log: Seq<u8>,
) -> bool {
    &&& index.dom() == contents.dom()
    &&& forall|k: Seq<u8>| #[trigger]
        index.contains_key(k) ==> {
            &&& index[k].0 + index[k].1 <= log.len()
            &&& log.subrange(index[k].0 as int, index[k].0 + index[k].1) == contents[k]
            &&& encodable(k, Some(contents[k]))
        }
}

/// Each record that the parser finds lies within the log, at or after the
/// place where parsing began.
pub proof fn lemma_parsed_records_lie_in(log: Seq<u8>, pos: int)
    requires
        parse_from(log, pos) is Some,
    ensures
        forall|i: int|
            0 <= i < parse_from(log, pos)->0.len() ==> {
                &&& (#[trigger] parse_from(log, pos)->0[i]).lies_in(log)
                &&& parse_from(log, pos)->0[i].start >= pos
            },
    decreases log.len() - pos,
{
    if pos < log.len() {
        let next = end_at(log, pos);
        let rest = parse_from(log, next)->0;
        let first = record_at(log, pos);
        let all = parse_from(log, pos)->0;
        lemma_parsed_records_lie_in(log, next);
        assert(all == seq![first] + rest);
        assert forall|i: int| 0 <= i < all.len() implies {
            &&& (#[trigger] all[i]).lies_in(log)
            &&& all[i].start >= pos
        } by {
            if i == 0 {
                assert(all[0] == first);
                assert(first.key.len() == be32_at(log, pos));
            } else {
                assert(all[i] == rest[i - 1]);
            }
        }
    }
}

/// A record appended to a well-framed log is parsed as one more record at
/// the end, and the records before it are parsed as before.
pub proof fn lemma_parse_append(log: Seq<u8>, pos: int, key: Seq<u8>, value: Option<Seq<u8>>)
    requires
        parse_from(log, pos) is Some,
        encodable(key, value),
    ensures
        parse_from(log + record_bytes(key, value), pos) == Some(
            parse_from(log, pos)->0.push(Record { key, value, start: log.len() as int }),
        ),
    decreases log.len() - pos,
{
    let rec = record_bytes(key, value);
    let log2 = log + rec;
    let added = Record { key, value, start: log.len() as int };
    lemma_record_layout(key, value);
    if pos == log.len() {
        assert(log2[pos] == rec[0] && log2[pos + 1] == rec[1] && log2[pos + 2] == rec[2] && log2[pos
            + 3] == rec[3]);
        assert(log2[pos + 4] == rec[4] && log2[pos + 5] == rec[5] && log2[pos + 6] == rec[6]
            && log2[pos + 7] == rec[7]);
        assert(be32_at(log2, pos) == be32_at(rec, 0));
        assert(be32_at(log2, pos + 4) == be32_at(rec, 4));
        assert(end_at(log2, pos) == log2.len());
        assert(key_at(log2, pos) =~= rec.subrange(8, 8 + key.len() as int));
        if value is Some {
            assert(log2.subrange(pos + 8 + key.len(), log2.len() as int) =~= rec.subrange(
                8 + key.len() as int,
                record_len(key, value) as int,
            ));
        }
        assert(record_at(log2, pos) == added);
        assert(parse_from(log2, log2.len() as int) == Some(Seq::<Record>::empty()));
        assert(seq![added] + Seq::<Record>::empty() =~= Seq::<Record>::empty().push(added));
    } else {
        let next = end_at(log, pos);
        assert(be32_at(log2, pos) == be32_at(log, pos));
        assert(be32_at(log2, pos + 4) == be32_at(log, pos + 4));
        assert(end_at(log2, pos) == next);
        assert(key_at(log2, pos) =~= key_at(log, pos));
        assert(log2.subrange(pos + 8 + be32_at(log, pos), next) =~= log.subrange(
            pos + 8 + be32_at(log, pos),
            next,
        ));
        assert(record_at(log2, pos) == record_at(log, pos));
        lemma_parse_append(log, next, key, value);
        let rest = parse_from(log, next)->0;
        assert(seq![record_at(log, pos)] + rest.push(added) =~= (seq![record_at(log, pos)]
            + rest).push(added));
    }
}

/// Replaying one more record is one more step on the index and on the
/// contents.
pub proof fn lemma_replay_push(rs: Seq<Record>, r: Record)
    ensures
        index_of(rs.push(r)) == index_step(index_of(rs), r),
        contents_of(rs.push(r)) == contents_step(contents_of(rs), r),
{
    assert(rs.push(r).drop_last() =~= rs);
}

/// The index of records that lie in a log points at the values that the
/// contents hold.
pub proof fn lemma_index_points_at_contents(rs: Seq<Record>, log: Seq<u8>)
    requires
        forall|i: int| 0 <= i < rs.len() ==> (#[trigger] rs[i]).lies_in(log),
        log.len() <= u64::MAX,
    ensures
        slots_hold(index_of(rs), contents_of(rs), log),
    decreases rs.len(),
{
    if rs.len() == 0 {
        assert(index_of(rs).dom() =~= contents_of(rs).dom());
    } else {
        let init = rs.drop_last();
        let r = rs.last();
        assert forall|i: int| 0 <= i < init.len() implies (#[trigger] init[i]).lies_in(log) by {
            assert(init[i] == rs[i]);
        }
        lemma_index_points_at_contents(init, log);
        assert(r.lies_in(log));
        assert(index_of(rs).dom() =~= contents_of(rs).dom());
    }
}

/// In a well-framed log that a machine can hold, the index points at the
/// values of the contents.
pub proof fn lemma_log_slots_hold(log: Seq<u8>)
    requires
        valid_log(log),
        log.len() <= u64::MAX,
    ensures
        slots_hold(log_index(log), log_contents(log), log),
{
    lemma_parsed_records_lie_in(log, 0);
    lemma_index_points_at_contents(records(log), log);
}

/// Appending the record of `key` and `value` to a well-framed log leaves it
/// well framed, with one more record, one more step on the index and one
/// more step on the contents.
pub proof fn lemma_log_append(log: Seq<u8>, key: Seq<u8>, value: Option<Seq<u8>>)
    requires
        valid_log(log),
        encodable(key, value),
    ensures
        valid_log(log + record_bytes(key, value)),
        records(log + record_bytes(key, value)) == records(log).push(
            Record { key, value, start: log.len() as int },
        ),
        log_index(log + record_bytes(key, value)) == index_step(
            log_index(log),
            Record { key, value, start: log.len() as int },
        ),
        log_contents(log + record_bytes(key, value)) == contents_step(
            log_contents(log),
            Record { key, value, start: log.len() as int },
        ),
{
    lemma_parse_append(log, 0, key, value);
    lemma_replay_push(records(log), Record { key, value, start: log.len() as int });
}

} // verus!
