//! Laws of the store, stated over the bytes of the log.
//!
//! `set` and `delete` append one record to the log, and `get` reads the
//! contents of the log; the laws below say what a sequence of such steps
//! leaves, for every well-framed log and every key and value that can be
//! written.

use crate::codec::record_bytes;
use crate::data_file::writable;
use crate::assoc::sorted;
use crate::keydir::Entry;
use crate::order::lex_lt;
use crate::replay::{lemma_log_append, lemma_log_slots_hold, log_contents};
use crate::replay::{contents_of, index_of, records, slots_hold, valid_log, Record};
use crate::store::MiniBitcask;
use vstd::prelude::*;

verus! {

/// The record at place `i` of `rs` writes a value for `key`, and no later
/// record of `rs` is for `key`.
pub open spec fn is_last_write(rs: Seq<Record>, key: Seq<u8>, i: int) -> bool {
    &&& 0 <= i < rs.len()
    &&& rs[i].key == key
    &&& rs[i].value is Some
    &&& forall|j: int| i < j < rs.len() ==> (#[trigger] rs[j]).key != key
}

/// The log after `set(key, value)`.
pub open spec fn after_set(log: Seq<u8>, key: Seq<u8>, value: Seq<u8>) -> Seq<u8> {
    log + record_bytes(key, Some(value))
}

/// The log after `delete(key)`.
pub open spec fn after_delete(log: Seq<u8>, key: Seq<u8>) -> Seq<u8> {
    log + record_bytes(key, None)
}

/// What `get(key)` returns on a store with this log.
pub open spec fn value_of(log: Seq<u8>, key: Seq<u8>) -> Option<Seq<u8>> {
    if log_contents(log).contains_key(key) {
        Some(log_contents(log)[key])
    } else {
        None
    }
}

/// A value that was set is the value that is read: after `set(k, v)`,
/// `get(k)` is `Some(v)`. No other key changes.
pub proof fn law_set_then_get(log: Seq<u8>, key: Seq<u8>, value: Seq<u8>)
    requires
        valid_log(log),
        writable(key, Some(value)),
    ensures
        valid_log(after_set(log, key, value)),
        value_of(after_set(log, key, value), key) == Some(value),
        forall|other: Seq<u8>|
            other != key ==> value_of(after_set(log, key, value), other) == value_of(log, other),
{
    lemma_log_append(log, key, Some(value));
}

/// The last write wins: after `set(k, v1)` and `set(k, v2)`, `get(k)` is
/// `Some(v2)`, and the log has grown by two records for `k`, the first with
/// `v1` and the second with `v2`.
pub proof fn law_overwrite(log: Seq<u8>, key: Seq<u8>, v1: Seq<u8>, v2: Seq<u8>)
    requires
        valid_log(log),
        writable(key, Some(v1)),
        writable(key, Some(v2)),
    ensures
        valid_log(after_set(after_set(log, key, v1), key, v2)),
        value_of(after_set(after_set(log, key, v1), key, v2), key) == Some(v2),
        records(after_set(after_set(log, key, v1), key, v2)) == records(log).push(
            Record { key, value: Some(v1), start: log.len() as int },
        ).push(Record { key, value: Some(v2), start: after_set(log, key, v1).len() as int }),
{
    lemma_log_append(log, key, Some(v1));
    lemma_log_append(after_set(log, key, v1), key, Some(v2));
}

/// A deleted key is gone: after `set(k, v)` and `delete(k)`, `get(k)` is
/// `None`. No other key changes by the deletion.
pub proof fn law_delete(log: Seq<u8>, key: Seq<u8>, value: Seq<u8>)
    requires
        valid_log(log),
        writable(key, Some(value)),
        writable(key, None),
    ensures
        valid_log(after_delete(after_set(log, key, value), key)),
        value_of(after_delete(after_set(log, key, value), key), key) == None::<Seq<u8>>,
        forall|other: Seq<u8>|
            other != key ==> value_of(after_delete(after_set(log, key, value), key), other)
                == value_of(log, other),
{
    lemma_log_append(log, key, Some(value));
    lemma_log_append(after_set(log, key, value), key, None);
}

/// Whatever the log held, after `delete(k)`, `get(k)` is `None`, and no
/// other key changes.
pub proof fn law_delete_removes(log: Seq<u8>, key: Seq<u8>)
    requires
        valid_log(log),
        writable(key, None),
    ensures
        valid_log(after_delete(log, key)),
        value_of(after_delete(log, key), key) == None::<Seq<u8>>,
        forall|other: Seq<u8>|
            other != key ==> value_of(after_delete(log, key), other) == value_of(log, other),
{
    lemma_log_append(log, key, None);
}

/// Deleting a key that is not live changes nothing that `get` returns,
/// though the log grows by the deletion record.
pub proof fn law_delete_absent(log: Seq<u8>, key: Seq<u8>)
    requires
        valid_log(log),
        writable(key, None),
        value_of(log, key) == None::<Seq<u8>>,
    ensures
        valid_log(after_delete(log, key)),
        log_contents(after_delete(log, key)) == log_contents(log),
        after_delete(log, key).len() > log.len(),
{
    lemma_log_append(log, key, None);
    assert(log_contents(log).remove(key) =~= log_contents(log));
    crate::codec::lemma_record_layout(key, None);
}

/// Recovery: two stores over the same log, such as one that wrote the log
/// and one that was opened on it later, have the same index and the same
/// contents, and the index has exactly the live keys.
pub proof fn law_reopen(before: MiniBitcask, after: MiniBitcask)
    requires
        before.wf(),
        after.wf(),
        after.log() == before.log(),
    ensures
        after@ == before@,
        after.dir()@ == before.dir()@,
        after.dir()@.dom() == before@.dom(),
{
    before.lemma_log_fits();
    lemma_log_slots_hold(before.log());
}

/// The index points at the values: in a store, the key directory has
/// exactly the live keys, and the slot of each lies within the log and holds
/// there the value of the key.
pub proof fn law_index_points_at_values(store: MiniBitcask)
    requires
        store.wf(),
    ensures
        slots_hold(store.dir()@, store@, store.log()),
{
    store.lemma_log_fits();
    lemma_log_slots_hold(store.log());
}

/// The index has exactly the keys whose most recent record is a value:
/// `key` is in the index of the records `rs` if and only if some record of
/// `rs` writes a value for `key` and no later record of `rs` is for `key`.
pub proof fn law_live_keys(rs: Seq<Record>, key: Seq<u8>)
    ensures
        index_of(rs).contains_key(key) <==> exists|i: int| is_last_write(rs, key, i),
        contents_of(rs).contains_key(key) <==> index_of(rs).contains_key(key),
    decreases rs.len(),
{
    if rs.len() == 0 {
        assert(forall|i: int| !is_last_write(rs, key, i));
    } else {
        let init = rs.drop_last();
        let last = rs.last();
        let n = rs.len() - 1;
        law_live_keys(init, key);
        if last.key == key {
            if last.value is Some {
                assert(is_last_write(rs, key, n));
            } else {
                assert forall|i: int| !is_last_write(rs, key, i) by {
                    if 0 <= i < n {
                        assert(rs[n].key == key);
                    }
                }
            }
        } else {
            if index_of(init).contains_key(key) {
                let i = choose|i: int| is_last_write(init, key, i);
                assert(rs[i] == init[i]);
                assert forall|j: int| i < j < rs.len() implies (#[trigger] rs[j]).key != key by {
                    if j < n {
                        assert(rs[j] == init[j]);
                    }
                }
                assert(is_last_write(rs, key, i));
            }
            if exists|i: int| is_last_write(rs, key, i) {
                let i = choose|i: int| is_last_write(rs, key, i);
                assert(i < n);
                assert(init[i] == rs[i]);
                assert forall|j: int| i < j < init.len() implies (#[trigger] init[j]).key
                    != key by {
                    assert(init[j] == rs[j]);
                }
                assert(is_last_write(init, key, i));
            }
        }
    }
}

/// Walking order: of the entries that a scan has left, the one yielded next
/// from the front has a smaller key than the one after it, and the one
/// yielded next from the back has a larger key than the one before it.
pub proof fn law_scan_order(left: Seq<Entry>)
    requires
        sorted(left),
        left.len() >= 2,
    ensures
        lex_lt(left.first().0, left.drop_first().first().0),
        lex_lt(left.drop_last().last().0, left.last().0),
{
    assert(left.drop_first().first() == left[1]);
    assert(left.drop_last().last() == left[left.len() - 2]);
    assert(lex_lt(left[0].0, left[1].0));
    assert(lex_lt(left[left.len() - 2].0, left[left.len() - 1].0));
}

/// What is left of a sorted walk after a step from either end is sorted.
pub proof fn law_scan_rest_sorted(left: Seq<Entry>)
    requires
        sorted(left),
        left.len() >= 1,
    ensures
        sorted(left.drop_first()),
        sorted(left.drop_last()),
{
    let a = left.drop_first();
    let b = left.drop_last();
    assert forall|i: int, j: int| 0 <= i < j < a.len() implies lex_lt(
        (#[trigger] a[i]).0,
        (#[trigger] a[j]).0,
    ) by {
        assert(a[i] == left[i + 1]);
        assert(a[j] == left[j + 1]);
    }
    assert forall|i: int, j: int| 0 <= i < j < b.len() implies lex_lt(
        (#[trigger] b[i]).0,
        (#[trigger] b[j]).0,
    ) by {
        assert(b[i] == left[i]);
        assert(b[j] == left[j]);
    }
}

} // verus!
