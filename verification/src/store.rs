//! The engine: one log and the key directory that indexes it.
//!
//! Every mutation appends a record to the log first and updates the index
//! second, so the index is at all times what a replay of the log would
//! build. Reads never scan the log: a lookup in the index gives the slot of
//! the value, and one read fetches it.

use crate::assoc::{lemma_insert_sorted, lemma_sorted_unique, lemma_to_map_at, to_map};
use crate::codec::{encode, record_bytes, record_len, StoreError};
use crate::data_file::{read_at, writable, write_error, DataFile};
use crate::keydir::{is_prefix_scan_of, is_range_of, prefix_upper, view_entries, Bound};
use crate::keydir::{keys_before, lemma_keys_before_ends, lemma_keys_before_step};
use crate::keydir::{total_len, Entry, KeyBound, KeyDir, Slot};
use crate::order::lex_lt;
use crate::replay::{lemma_log_append, lemma_log_slots_hold, log_contents, log_index};
use crate::replay::{slots_hold, valid_log};
use vstd::prelude::*;
use vstd::slice::slice_to_vec;

verus! {

/// The view of an optional value.
pub open spec fn value_view(v: Option<Vec<u8>>) -> Option<Seq<u8>> {
    match v {
        Some(v) => Some(v@),
        None => None,
    }
}

/// The value record of the entry `e`, whose value is read from `log`.
pub open spec fn value_record(e: Entry, log: Seq<u8>) -> Seq<u8> {
    record_bytes(e.0, Some(log.subrange(e.1.0 as int, e.1.0 + e.1.1)))
}

/// The log that compaction writes: one value record for each entry of `es`,
/// in the order of `es`, with the value that `log` holds at the entry's slot.
pub open spec fn compacted_log(es: Seq<Entry>, log: Seq<u8>) -> Seq<u8>
    decreases es.len(),
{
    if es.len() == 0 {
        Seq::empty()
    } else {
        compacted_log(es.drop_last(), log) + value_record(es.last(), log)
    }
}

/// What a scan yields for the entry `e`: its key with the value read from
/// `log`, or the error of that read.
pub open spec fn item_at(e: Entry, log: Seq<u8>) -> Result<(Seq<u8>, Seq<u8>), StoreError> {
    match read_at(log, e.1) {
        Ok(v) => Ok((e.0, v)),
        Err(err) => Err(err),
    }
}

/// The view of what a scan yields.
pub open spec fn item_view(r: Result<(Vec<u8>, Vec<u8>), StoreError>) -> Result<
    (Seq<u8>, Seq<u8>),
    StoreError,
> {
    match r {
        Ok(kv) => Ok((kv.0@, kv.1@)),
        Err(e) => Err(e),
    }
}

/// Every entry of `es` is read from `log` without error and gives the value
/// that `contents` has for its key.
pub open spec fn reads_give(es: Seq<Entry>, log: Seq<u8>, contents: Map<Seq<u8>, Seq<u8>>) -> bool {
    forall|i: int|
        0 <= i < es.len() ==> {
            &&& contents.contains_key((#[trigger] es[i]).0)
            &&& item_at(es[i], log) == Ok::<(Seq<u8>, Seq<u8>), StoreError>(
                (es[i].0, contents[es[i].0]),
            )
        }
}

/// The entries of a range of keys, walked from either end. Each step reads
/// one value from the log; a value that cannot be read gives an error for
/// that step and does not end the walk.
pub struct ScanIterator<'a> {
    items: Vec<(Vec<u8>, Slot)>,
    front: usize,
    back: usize,
    data: &'a DataFile,
}

impl<'a> ScanIterator<'a> {
    /// The ends of the walk have not crossed.
    pub closed spec fn wf(&self) -> bool {
        self.front <= self.back <= self.items@.len()
    }

    /// The entries not yet yielded, in increasing order of key.
    pub closed spec fn remaining(&self) -> Seq<Entry> {
        view_entries(self.items@).subrange(self.front as int, self.back as int)
    }

    /// The log from which the values are read.
    pub closed spec fn log(&self) -> Seq<u8> {
        self.data@
    }

    /// Reads the value of the entry at place `i` and pairs it with the key.
    fn map(&self, i: usize) -> (r: Result<(Vec<u8>, Vec<u8>), StoreError>)
        requires
            i < self.items@.len(),
        ensures
            item_view(r) == item_at(view_entries(self.items@)[i as int], self.log()),
    {
        let value_pos = self.items[i].1.0;
        let value_len = self.items[i].1.1;
        match self.data.read_value(value_pos, value_len) {
            Ok(value) => Ok((slice_to_vec(self.items[i].0.as_slice()), value)),
            Err(e) => Err(e),
        }
    }

    /// Yields the entry with the smallest key that is left, or `None` when
    /// nothing is left.
    pub fn next(&mut self) -> (r: Option<Result<(Vec<u8>, Vec<u8>), StoreError>>)
        requires
            old(self).wf(),
        ensures
            final(self).wf(),
            final(self).log() == old(self).log(),
            old(self).remaining().len() == 0 ==> r is None && final(self).remaining() == old(
                self,
            ).remaining(),
            old(self).remaining().len() > 0 ==> {
                &&& r matches Some(item)
                &&& item_view(item) == item_at(old(self).remaining().first(), old(self).log())
                &&& final(self).remaining() == old(self).remaining().drop_first()
            },
    {
        if self.front < self.back {
            let item = self.map(self.front);
            self.front = self.front + 1;
            assert(self.remaining() =~= old(self).remaining().drop_first());
            Some(item)
        } else {
            None
        }
    }

    /// Yields the entry with the largest key that is left, or `None` when
    /// nothing is left.
    pub fn next_back(&mut self) -> (r: Option<Result<(Vec<u8>, Vec<u8>), StoreError>>)
        requires
            old(self).wf(),
        ensures
            final(self).wf(),
            final(self).log() == old(self).log(),
            old(self).remaining().len() == 0 ==> r is None && final(self).remaining() == old(
                self,
            ).remaining(),
            old(self).remaining().len() > 0 ==> {
                &&& r matches Some(item)
                &&& item_view(item) == item_at(old(self).remaining().last(), old(self).log())
                &&& final(self).remaining() == old(self).remaining().drop_last()
            },
    {
        if self.front < self.back {
            let item = self.map(self.back - 1);
            self.back = self.back - 1;
            assert(self.remaining() =~= old(self).remaining().drop_last());
            Some(item)
        } else {
            None
        }
    }
}

/// Compaction reads the log at the slots of the entries only: bytes that
/// follow them change nothing.
pub proof fn lemma_compacted_log_extends(es: Seq<Entry>, log: Seq<u8>, more: Seq<u8>)
    requires
        forall|i: int| 0 <= i < es.len() ==> (#[trigger] es[i]).1.0 + es[i].1.1 <= log.len(),
    ensures
        compacted_log(es, log + more) == compacted_log(es, log),
    decreases es.len(),
{
    if es.len() > 0 {
        let init = es.drop_last();
        let e = es.last();
        assert forall|i: int| 0 <= i < init.len() implies (#[trigger] init[i]).1.0 + init[i].1.1
            <= log.len() by {
            assert(init[i] == es[i]);
        }
        lemma_compacted_log_extends(init, log, more);
        assert((log + more).subrange(e.1.0 as int, e.1.0 + e.1.1) =~= log.subrange(
            e.1.0 as int,
            e.1.0 + e.1.1,
        ));
    }
}

/// A key-value store over one log.
pub struct MiniBitcask {
    data: DataFile,
    keydir: KeyDir,
}

impl View for MiniBitcask {
    type V = Map<Seq<u8>, Seq<u8>>;

    /// The live keys with their values: what the records of the log leave.
    open spec fn view(&self) -> Map<Seq<u8>, Seq<u8>> {
        log_contents(self.log())
    }
}

impl MiniBitcask {
    /// The bytes of the log.
    pub closed spec fn log(&self) -> Seq<u8> {
        self.data@
    }

    /// The key directory.
    pub closed spec fn dir(&self) -> KeyDir {
        self.keydir
    }

    /// The log is well framed, and the key directory is the index that a
    /// replay of the log builds. A log of one record for each live key would
    /// not be longer than the log is.
    pub open spec fn wf(&self) -> bool {
        &&& valid_log(self.log())
        &&& self.dir().wf()
        &&& self.dir()@ == log_index(self.log())
        &&& self.dir().compacted_len() <= self.log().len()
    }

    /// The log holds one record for each live key and nothing else, in
    /// increasing order of key: compaction would write the same log again.
    pub open spec fn is_compact(&self) -> bool {
        compacted_log(self.dir().entries(), self.log()) == self.log()
    }

    /// The log of a store is no longer than a 64-bit offset can tell.
    pub proof fn lemma_log_fits(&self)
        ensures
            self.log().len() <= u64::MAX,
    {
        self.data.lemma_len_fits();
    }

    /// Opens the store on the bytes of its log and rebuilds the index by
    /// replay. A log that ends in the middle of a record is refused.
    pub fn new(bytes: Vec<u8>) -> (r: Result<MiniBitcask, StoreError>)
        ensures
            valid_log(bytes@) ==> r is Ok,
            r matches Ok(store) ==> store.wf() && store.log() == bytes@,
            r matches Err(e) ==> e == StoreError::CorruptLog && !valid_log(bytes@),
    {
        let data = DataFile::new(bytes);
        match data.load_index() {
            Ok(keydir) => Ok(MiniBitcask { data, keydir }),
            Err(e) => Err(e),
        }
    }

    /// The bytes of the log, for whoever keeps them on disk.
    pub fn log_bytes(&self) -> (bytes: &[u8])
        ensures
            bytes@ == self.log(),
    {
        self.data.as_bytes()
    }

    /// The number of live keys.
    pub fn len(&self) -> (n: usize)
        requires
            self.wf(),
        ensures
            self@.dom().finite(),
            n == self@.len(),
    {
        proof {
            self.data.lemma_len_fits();
            lemma_log_slots_hold(self.log());
        }
        self.keydir.len()
    }

    /// Writes `value` under `key`: appends a value record to the log, then
    /// gives the key its new slot, whatever it held before.
    pub fn set(&mut self, key: &[u8], value: Vec<u8>) -> (r: Result<(), StoreError>)
        requires
            old(self).wf(),
        ensures
            final(self).wf(),
            writable(key@, Some(value@)) ==> {
                &&& r is Ok
                &&& final(self).log() == old(self).log() + record_bytes(key@, Some(value@))
                &&& final(self)@ == old(self)@.insert(key@, value@)
            },
            !writable(key@, Some(value@)) ==> {
                &&& r == Err::<(), StoreError>(write_error(key@, Some(value@)))
                &&& final(self).log() == old(self).log()
                &&& final(self).dir() == old(self).dir()
            },
    {
        let ghost log = self.log();
        let (offset, len) = match self.data.write_entry(key, Some(value.as_slice())) {
            Ok(written) => written,
            Err(e) => {
                return Err(e);
            },
        };
        let value_len = value.len() as u32;
        proof {
            lemma_log_append(log, key@, Some(value@));
            crate::codec::lemma_record_layout(key@, Some(value@));
            self.data.lemma_len_fits();
        }
        self.keydir.insert(slice_to_vec(key), (offset + (len - value_len) as u64, value_len));
        Ok(())
    }

    /// Reads the value of `key`: a lookup in the index and, for a live key,
    /// one read from the log.
    pub fn get(&self, key: &[u8]) -> (r: Result<Option<Vec<u8>>, StoreError>)
        requires
            self.wf(),
        ensures
            r matches Ok(v) && value_view(v) == (if self@.contains_key(key@) {
                Some(self@[key@])
            } else {
                None
            }),
    {
        proof {
            self.data.lemma_len_fits();
            lemma_log_slots_hold(self.log());
        }
        match self.keydir.get(key) {
            Some((value_pos, value_len)) => {
                assert(self.dir()@.contains_key(key@));
                match self.data.read_value(value_pos, value_len) {
                    Ok(value) => Ok(Some(value)),
                    Err(e) => Err(e),
                }
            },
            None => Ok(None),
        }
    }

    /// Deletes `key`: appends a deletion record to the log, then takes the
    /// key out of the index, whether or not it was live.
    pub fn delete(&mut self, key: &[u8]) -> (r: Result<(), StoreError>)
        requires
            old(self).wf(),
        ensures
            final(self).wf(),
            writable(key@, None) ==> {
                &&& r is Ok
                &&& final(self).log() == old(self).log() + record_bytes(key@, None)
                &&& final(self)@ == old(self)@.remove(key@)
            },
            !writable(key@, None) ==> {
                &&& r == Err::<(), StoreError>(write_error(key@, None))
                &&& final(self).log() == old(self).log()
                &&& final(self).dir() == old(self).dir()
            },
    {
        let ghost log = self.log();
        match self.data.write_entry(key, None) {
            Ok(_) => {},
            Err(e) => {
                return Err(e);
            },
        }
        proof {
            lemma_log_append(log, key@, None);
            crate::codec::lemma_record_layout(key@, None);
        }
        self.keydir.remove(key);
        Ok(())
    }

    /// The compacted store: a new log with one value record for each live
    /// key, in increasing order of key, each value read from this log, and
    /// the index of that new log. History of overwritten and deleted keys is
    /// dropped; what `get` returns is the same.
    pub fn merged(&self) -> (r: Result<MiniBitcask, StoreError>)
        requires
            self.wf(),
        ensures
            r matches Ok(m) && {
                &&& m.wf()
                &&& m@ == self@
                &&& m.log() == compacted_log(self.dir().entries(), self.log())
                &&& m.log().len() == self.dir().compacted_len()
                &&& m.log().len() <= self.log().len()
                &&& m.is_compact()
            },
    {
        let ghost es = self.keydir.entries();
        let ghost log = self.log();
        let ghost contents = self@;
        let n = self.keydir.len();
        let mut new_data = DataFile::new(Vec::new());
        let mut new_keydir = KeyDir::new();
        proof {
            self.data.lemma_len_fits();
            lemma_log_slots_hold(log);
            lemma_keys_before_ends(es);
            self.keydir.lemma_view();
            assert(es.subrange(0, 0) =~= Seq::<Entry>::empty());
            assert(contents.restrict(keys_before(es, 0)) =~= log_contents(new_data@));
        }
        let ghost mut es2: Seq<Entry> = Seq::empty();
        let mut i: usize = 0;
        while i < n
            invariant
                new_keydir.entries() == es2,
                es2.len() == i,
                forall|j: int| 0 <= j < i ==> (#[trigger] es2[j]).0 == es[j].0,
                forall|j: int| 0 <= j < i ==> (#[trigger] es2[j]).1.0 + es2[j].1.1 <= new_data@.len(),
                new_data@ == compacted_log(es2, new_data@),
                self.keydir.entries() == es,
                self.keydir.wf(),
                self.data@ == log,
                self.keydir@ == to_map(es),
                slots_hold(self.keydir@, contents, log),
                log.len() <= u64::MAX,
                n == es.len(),
                i <= n,
                valid_log(new_data@),
                new_keydir.wf(),
                new_keydir@ == log_index(new_data@),
                new_data@ == compacted_log(es.subrange(0, i as int), log),
                new_data@.len() == total_len(es.subrange(0, i as int)),
                new_keydir.compacted_len() == new_data@.len(),
                log_contents(new_data@) == contents.restrict(keys_before(es, i as int)),
            decreases n - i,
        {
            let key = self.keydir.key_at(i);
            let (value_pos, value_len) = self.keydir.slot_at(i);
            let ghost e = es[i as int];
            let ghost new_log = new_data@;
            proof {
                lemma_to_map_at(es, i as int);
                assert(self.keydir@.contains_key(e.0));
                lemma_keys_before_step(es, i as int);
            }
            let value = match self.data.read_value(value_pos, value_len) {
                Ok(value) => value,
                Err(e) => {
                    return Err(e);
                },
            };
            let record = match encode(key.as_slice(), Some(value.as_slice())) {
                Ok(record) => record,
                Err(e) => {
                    return Err(e);
                },
            };
            proof {
                new_data.lemma_len_fits();
                lemma_log_slots_hold(new_log);
                lemma_log_append(new_log, key@, Some(value@));
                crate::codec::lemma_record_layout(key@, Some(value@));
                assert(es.subrange(0, i + 1).drop_last() =~= es.subrange(0, i as int));
                assert(es.subrange(0, i + 1).last() == e);
                assert(!log_index(new_log).contains_key(key@));
                assert(log_contents(new_log).insert(key@, value@) =~= contents.restrict(
                    keys_before(es, i + 1),
                ));
            }
            let offset = new_data.append(record.as_slice());
            proof {
                new_data.lemma_len_fits();
            }
            let new_pos = offset + 8 + key.len() as u64;
            let ghost e2: Entry = (key@, (new_pos, value_len));
            proof {
                assert forall|j: int| 0 <= j < es2.len() implies lex_lt(
                    (#[trigger] es2[j]).0,
                    e2.0,
                ) by {
                    assert(lex_lt(es[j].0, es[i as int].0));
                }
                lemma_insert_sorted(es2, i as int, e2);
                assert(es2.insert(i as int, e2) =~= es2.push(e2));
                lemma_compacted_log_extends(es2, new_log, record@);
                assert(new_data@.subrange(new_pos as int, new_pos + value_len) =~= record@.subrange(
                    8 + key@.len() as int,
                    record_len(key@, Some(value@)) as int,
                ));
                assert(es2.push(e2).drop_last() =~= es2);
                assert(new_data@ == compacted_log(es2.push(e2), new_data@));
                new_keydir.lemma_view();
            }
            new_keydir.insert(slice_to_vec(key.as_slice()), (new_pos, value_len));
            proof {
                new_keydir.lemma_view();
                lemma_sorted_unique(new_keydir.entries(), es2.push(e2));
                es2 = es2.push(e2);
            }
            i += 1;
        }
        proof {
            assert(es.subrange(0, n as int) =~= es);
            assert(contents.restrict(keys_before(es, n as int)) =~= contents);
        }
        Ok(MiniBitcask { data: new_data, keydir: new_keydir })
    }

    /// Compacts the log: takes the log and the index of `merged` in place of
    /// the present ones. The log shrinks to one record for each live key;
    /// what `get` returns is not changed.
    pub fn merge(&mut self) -> (r: Result<(), StoreError>)
        requires
            old(self).wf(),
        ensures
            r is Ok,
            final(self).wf(),
            final(self)@ == old(self)@,
            final(self).log() == compacted_log(old(self).dir().entries(), old(self).log()),
            final(self).log().len() == old(self).dir().compacted_len(),
            final(self).log().len() <= old(self).log().len(),
            final(self).is_compact(),
            old(self).is_compact() ==> final(self).log() == old(self).log(),
    {
        match self.merged() {
            Ok(merged) => {
                *self = merged;
                Ok(())
            },
            Err(e) => Err(e),
        }
    }

    /// Walks the live keys that lie in `range`, from its lower end `range.0`
    /// to its upper end `range.1`, each with its value. The keys of the key
    /// directory are the live keys. Ends that cross give an empty walk.
    pub fn scan(&self, range: (Bound, Bound)) -> (it: ScanIterator<'_>)
        requires
            self.wf(),
        ensures
            it.wf(),
            it.log() == self.log(),
            is_range_of(it.remaining(), self.dir()@, range.0@, range.1@),
            self.dir()@.dom() == self@.dom(),
            reads_give(it.remaining(), self.log(), self@),
    {
        let items = self.keydir.range(&range.0, &range.1);
        let back = items.len();
        let it = ScanIterator { items, front: 0, back, data: &self.data };
        proof {
            self.data.lemma_len_fits();
            lemma_log_slots_hold(self.log());
            assert(it.remaining() =~= view_entries(items@));
            assert forall|i: int| 0 <= i < it.remaining().len() implies {
                &&& self@.contains_key((#[trigger] it.remaining()[i]).0)
                &&& item_at(it.remaining()[i], self.log()) == Ok::<
                    (Seq<u8>, Seq<u8>),
                    StoreError,
                >((it.remaining()[i].0, self@[it.remaining()[i].0]))
            } by {
                assert(self.dir()@.contains_key(it.remaining()[i].0));
            }
        }
        it
    }

    /// Walks the live keys that start with `prefix`, each with its value: the
    /// range from `prefix` to `prefix_upper(prefix)`. The empty prefix gives
    /// an empty walk.
    pub fn scan_prefix(&self, prefix: &[u8]) -> (it: ScanIterator<'_>)
        requires
            self.wf(),
        ensures
            it.wf(),
            it.log() == self.log(),
            is_prefix_scan_of(it.remaining(), self.dir()@, prefix@),
            self.dir()@.dom() == self@.dom(),
            reads_give(it.remaining(), self.log(), self@),
    {
        let start = Bound::Included(slice_to_vec(prefix));
        let end = prefix_upper(prefix);
        assert(start@ == KeyBound::Included(prefix@));
        self.scan((start, end))
    }
}

} // verus!
