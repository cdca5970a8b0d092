//! The key directory: an ordered map from each live key to the place of its
//! value in the log.
//!
//! The entries are kept in a vector sorted by key, strictly increasing in
//! lexicographic byte order, so that no key occurs twice and a range of keys
//! is a run of neighbouring entries.

use crate::assoc::{has_key, lemma_insert_sorted, lemma_remove_sorted, lemma_to_map_at};
use crate::assoc::{lemma_to_map_len, lemma_update_sorted, place_of, sorted, to_map};
use crate::order::{lemma_lex_irreflexive, lemma_lex_total, lemma_lex_transitive};
use crate::order::{has_prefix, lemma_prefix_range, lemma_strip_max, prefix_end, strip_max};
use crate::order::{lex_lt, lex_order, Order};
use vstd::prelude::*;
use vstd::slice::{slice_subrange, slice_to_vec};

verus! {

/// Where a value lies in the log: the offset of its first byte, and its length.
pub type Slot = (u64, u32);

/// A key with the place of its value, as contracts see it.
pub type Entry = (Seq<u8>, Slot);

/// One end of a range of keys.
#[derive(Debug, Clone)]
pub enum Bound {
    /// The range reaches this key and holds it.
    Included(Vec<u8>),
    /// The range reaches this key and does not hold it.
    Excluded(Vec<u8>),
    /// The range has no end on this side.
    Unbounded,
}

/// What a list of owned entries holds, as contracts see it.
pub open spec fn view_entries(items: Seq<(Vec<u8>, Slot)>) -> Seq<Entry> {
    Seq::new(items.len(), |i: int| (items[i].0@, items[i].1))
}

/// One end of a range of keys, as contracts see it.
pub enum KeyBound {
    Included(Seq<u8>),
    Excluded(Seq<u8>),
    Unbounded,
}

impl View for Bound {
    type V = KeyBound;

    open spec fn view(&self) -> KeyBound {
        match *self {
            Bound::Included(b) => KeyBound::Included(b@),
            Bound::Excluded(b) => KeyBound::Excluded(b@),
            Bound::Unbounded => KeyBound::Unbounded,
        }
    }
}

/// The keys of the first `i` entries of `es`.
pub open spec fn keys_before(es: Seq<Entry>, i: int) -> Set<Seq<u8>> {
    Set::new(|k: Seq<u8>| has_key(es.subrange(0, i), k))
}

/// The bytes that one record takes which holds the key and the value of `e`.
pub open spec fn entry_len(e: Entry) -> int {
    8 + e.0.len() + e.1.1
}

/// The bytes of a log that holds one value record for each entry of `es`.
pub open spec fn total_len(es: Seq<Entry>) -> int
    decreases es.len(),
{
    if es.len() == 0 {
        0
    } else {
        total_len(es.drop_last()) + entry_len(es.last())
    }
}

/// `k` is not below the lower end `lower`.
pub open spec fn above_lower(lower: KeyBound, k: Seq<u8>) -> bool {
    match lower {
        KeyBound::Included(b) => !lex_lt(k, b),
        KeyBound::Excluded(b) => lex_lt(b, k),
        KeyBound::Unbounded => true,
    }
}

/// `k` is not above the upper end `upper`.
pub open spec fn below_upper(upper: KeyBound, k: Seq<u8>) -> bool {
    match upper {
        KeyBound::Included(b) => !lex_lt(b, k),
        KeyBound::Excluded(b) => lex_lt(k, b),
        KeyBound::Unbounded => true,
    }
}

/// `k` lies in the range from `lower` to `upper`.
pub open spec fn in_range(lower: KeyBound, upper: KeyBound, k: Seq<u8>) -> bool {
    above_lower(lower, k) && below_upper(upper, k)
}

/// `out` lists, in increasing order of key, exactly the entries of `m` whose
/// key lies in the range from `lower` to `upper`.
pub open spec fn is_range_of(
    out: Seq<Entry>,
    m: Map<Seq<u8>, Slot>,
    lower: KeyBound,
    upper: KeyBound,
) -> bool {
    &&& sorted(out)
    &&& forall|i: int|
        0 <= i < out.len() ==> {
            &&& in_range(lower, upper, (#[trigger] out[i]).0)
            &&& m.contains_key(out[i].0)
            &&& m[out[i].0] == out[i].1
        }
    &&& forall|k: Seq<u8>| #[trigger]
        m.contains_key(k) && in_range(lower, upper, k) ==> has_key(out, k)
}

/// `k` is yielded by a scan for the prefix `p`: `p` is not empty and `k`
/// starts with it. The empty prefix stands for the empty range, from itself
/// to itself, and yields nothing.
pub open spec fn prefix_match(p: Seq<u8>, k: Seq<u8>) -> bool {
    p.len() > 0 && has_prefix(k, p)
}

/// `out` lists, in increasing order of key, exactly the entries of `m` whose
/// key is yielded by a scan for the prefix `p`.
pub open spec fn is_prefix_scan_of(out: Seq<Entry>, m: Map<Seq<u8>, Slot>, p: Seq<u8>) -> bool {
    &&& sorted(out)
    &&& forall|i: int|
        0 <= i < out.len() ==> {
            &&& prefix_match(p, (#[trigger] out[i]).0)
            &&& m.contains_key(out[i].0)
            &&& m[out[i].0] == out[i].1
        }
    &&& forall|k: Seq<u8>| #[trigger] m.contains_key(k) && prefix_match(p, k) ==> has_key(out, k)
}

/// The upper end of the range of keys that a scan for `prefix` covers: the
/// prefix with its last byte raised by one, not included. Bytes `0xFF` at the
/// end of the prefix cannot be raised and are dropped first; a prefix made
/// of such bytes only has the whole key space above it. The empty prefix
/// gives itself, so that its range is empty.
pub fn prefix_upper(prefix: &[u8]) -> (upper: Bound)
    ensures
        prefix@.len() == 0 ==> upper@ == KeyBound::Excluded(Seq::empty()),
        prefix@.len() > 0 ==> upper@ == match prefix_end(prefix@) {
            Some(e) => KeyBound::Excluded(e),
            None => KeyBound::Unbounded,
        },
        forall|k: Seq<u8>|
            in_range(KeyBound::Included(prefix@), upper@, k) <==> prefix_match(
                prefix@,
                k,
            ),
{
    if prefix.len() == 0 {
        let upper = Bound::Excluded(Vec::new());
        assert(upper@ == KeyBound::Excluded(Seq::empty()));
        assert forall|k: Seq<u8>|
            in_range(KeyBound::Included(prefix@), upper@, k) <==> prefix_match(
                prefix@,
                k,
            ) by {}
        return upper;
    }
    let mut n = prefix.len();
    assert(prefix@.subrange(0, n as int) =~= prefix@);
    while n > 0 && prefix[n - 1] == 0xFF
        invariant
            n <= prefix@.len(),
            strip_max(prefix@) == strip_max(prefix@.subrange(0, n as int)),
        decreases n,
    {
        assert(prefix@.subrange(0, n as int).drop_last() =~= prefix@.subrange(0, n - 1));
        n -= 1;
    }
    proof {
        lemma_strip_max(prefix@);
        assert(strip_max(prefix@) == prefix@.subrange(0, n as int));
    }
    let upper = if n == 0 {
        Bound::Unbounded
    } else {
        let mut end = slice_to_vec(slice_subrange(prefix, 0, n - 1));
        end.push(prefix[n - 1] + 1);
        assert(end@ =~= prefix_end(prefix@)->0);
        Bound::Excluded(end)
    };
    assert forall|k: Seq<u8>|
        in_range(KeyBound::Included(prefix@), upper@, k) <==> prefix_match(
            prefix@,
            k,
        ) by {
        lemma_prefix_range(k, prefix@);
    }
    upper
}

/// Putting an entry between the smaller keys and the larger keys keeps the
/// list sorted, adds the entry to the map and its length to the total.
pub proof fn lemma_insert_entry(es: Seq<Entry>, i: int, e: Entry)
    requires
        sorted(es),
        0 <= i <= es.len(),
        forall|j: int| 0 <= j < i ==> lex_lt((#[trigger] es[j]).0, e.0),
        forall|j: int| i <= j < es.len() ==> lex_lt(e.0, (#[trigger] es[j]).0),
    ensures
        sorted(es.insert(i, e)),
        !to_map(es).contains_key(e.0),
        to_map(es.insert(i, e)) == to_map(es).insert(e.0, e.1),
        total_len(es.insert(i, e)) == total_len(es) + entry_len(e),
{
    lemma_insert_sorted(es, i, e);
    lemma_total_len_insert(es, i, e);
}

/// Replacing the entry at place `i` by one of the same key keeps the list
/// sorted, gives the key its new slot in the map and changes the total by
/// the difference of the lengths.
pub proof fn lemma_update_entry(es: Seq<Entry>, i: int, e: Entry)
    requires
        sorted(es),
        0 <= i < es.len(),
        es[i].0 == e.0,
    ensures
        sorted(es.update(i, e)),
        to_map(es).contains_key(e.0),
        to_map(es)[e.0] == es[i].1,
        to_map(es.update(i, e)) == to_map(es).insert(e.0, e.1),
        total_len(es.update(i, e)) == total_len(es) - entry_len(es[i]) + entry_len(e),
{
    lemma_update_sorted(es, i, e);
    lemma_total_len_update(es, i, e);
}

/// Taking the entry at place `i` out keeps the list sorted, removes its key
/// from the map and takes its length off the total.
pub proof fn lemma_remove_entry(es: Seq<Entry>, i: int)
    requires
        sorted(es),
        0 <= i < es.len(),
    ensures
        sorted(es.remove(i)),
        to_map(es).contains_key(es[i].0),
        to_map(es)[es[i].0] == es[i].1,
        to_map(es.remove(i)) == to_map(es).remove(es[i].0),
        total_len(es.remove(i)) == total_len(es) - entry_len(es[i]),
{
    lemma_remove_sorted(es, i);
    lemma_total_len_remove(es, i);
}

/// In a sorted list the key at place `i` is none of the keys before it, the
/// keys up to it are those before it and itself, and the total length up to
/// it is that before it and its own.
pub proof fn lemma_keys_before_step(es: Seq<Entry>, i: int)
    requires
        sorted(es),
        0 <= i < es.len(),
    ensures
        !keys_before(es, i).contains(es[i].0),
        keys_before(es, i + 1) == keys_before(es, i).insert(es[i].0),
        total_len(es.subrange(0, i + 1)) == total_len(es.subrange(0, i)) + entry_len(es[i]),
{
    let a = es.subrange(0, i);
    let b = es.subrange(0, i + 1);
    if keys_before(es, i).contains(es[i].0) {
        let j = place_of(a, es[i].0);
        assert(a[j] == es[j]);
        assert(lex_lt(es[j].0, es[i].0));
        lemma_lex_irreflexive(es[i].0);
    }
    assert forall|k: Seq<u8>| keys_before(es, i + 1).contains(k) <==> keys_before(es, i).insert(
        es[i].0,
    ).contains(k) by {
        if has_key(b, k) {
            let j = place_of(b, k);
            assert(b[j] == es[j]);
            if j < i {
                assert(a[j].0 == k);
            }
        }
        if has_key(a, k) {
            let j = place_of(a, k);
            assert(b[j].0 == k);
        }
        if k == es[i].0 {
            assert(b[i].0 == k);
        }
    }
    assert(keys_before(es, i + 1) =~= keys_before(es, i).insert(es[i].0));
    assert(b.drop_last() =~= a);
    assert(b.last() == es[i]);
}

/// The keys before the end of a list are the keys of its map, and there is
/// no key before its first entry.
pub proof fn lemma_keys_before_ends(es: Seq<Entry>)
    ensures
        keys_before(es, 0) == Set::<Seq<u8>>::empty(),
        keys_before(es, es.len() as int) == to_map(es).dom(),
{
    assert(es.subrange(0, es.len() as int) =~= es);
    assert(keys_before(es, 0) =~= Set::<Seq<u8>>::empty());
    assert(keys_before(es, es.len() as int) =~= to_map(es).dom());
}

/// An entry put into a list adds its length to the total.
pub proof fn lemma_total_len_insert(es: Seq<Entry>, i: int, e: Entry)
    requires
        0 <= i <= es.len(),
    ensures
        total_len(es.insert(i, e)) == total_len(es) + entry_len(e),
    decreases es.len(),
{
    let es2 = es.insert(i, e);
    if i == es.len() {
        assert(es2.drop_last() =~= es);
    } else {
        assert(es2.drop_last() =~= es.drop_last().insert(i, e));
        assert(es2.last() == es.last());
        lemma_total_len_insert(es.drop_last(), i, e);
    }
}

/// An entry that takes the place of another changes the total by the
/// difference of their lengths.
pub proof fn lemma_total_len_update(es: Seq<Entry>, i: int, e: Entry)
    requires
        0 <= i < es.len(),
    ensures
        total_len(es.update(i, e)) == total_len(es) - entry_len(es[i]) + entry_len(e),
    decreases es.len(),
{
    let es2 = es.update(i, e);
    if i == es.len() - 1 {
        assert(es2.drop_last() =~= es.drop_last());
    } else {
        assert(es2.drop_last() =~= es.drop_last().update(i, e));
        assert(es2.last() == es.last());
        lemma_total_len_update(es.drop_last(), i, e);
    }
}

/// An entry taken out of a list takes its length off the total.
pub proof fn lemma_total_len_remove(es: Seq<Entry>, i: int)
    requires
        0 <= i < es.len(),
    ensures
        total_len(es.remove(i)) == total_len(es) - entry_len(es[i]),
    decreases es.len(),
{
    let es2 = es.remove(i);
    if i == es.len() - 1 {
        assert(es2 =~= es.drop_last());
    } else {
        assert(es2.drop_last() =~= es.drop_last().remove(i));
        assert(es2.last() == es.last());
        lemma_total_len_remove(es.drop_last(), i);
    }
}

/// The ordered index of live keys.
pub struct KeyDir {
    items: Vec<(Vec<u8>, Slot)>,
}

impl View for KeyDir {
    type V = Map<Seq<u8>, Slot>;

    /// The map from each key to the slot of its value.
    closed spec fn view(&self) -> Map<Seq<u8>, Slot> {
        to_map(self.entries())
    }
}

impl KeyDir {
    /// The entries in the order in which the directory holds them.
    pub closed spec fn entries(&self) -> Seq<Entry> {
        view_entries(self.items@)
    }

    /// The directory is sorted by key, so no key occurs twice.
    pub open spec fn wf(&self) -> bool {
        sorted(self.entries())
    }

    /// The bytes of the smallest log that holds every live value: one value
    /// record for each key.
    pub open spec fn compacted_len(&self) -> int {
        total_len(self.entries())
    }

    /// The view is the map of the entries.
    pub proof fn lemma_view(&self)
        ensures
            self@ == to_map(self.entries()),
    {
    }

    /// A directory without keys.
    pub fn new() -> (dir: KeyDir)
        ensures
            dir.wf(),
            dir@ == Map::<Seq<u8>, Slot>::empty(),
            dir.entries() == Seq::<Entry>::empty(),
    {
        let dir = KeyDir { items: Vec::new() };
        assert(dir.entries() =~= Seq::<Entry>::empty());
        assert(dir@ =~= Map::<Seq<u8>, Slot>::empty());
        dir
    }

    /// The number of live keys.
    pub fn len(&self) -> (n: usize)
        requires
            self.wf(),
        ensures
            n == self.entries().len(),
            self@.dom().finite(),
            n == self@.len(),
    {
        proof {
            lemma_to_map_len(self.entries());
        }
        self.items.len()
    }

    /// The key at place `i` in increasing order of key.
    pub fn key_at(&self, i: usize) -> (key: &Vec<u8>)
        requires
            i < self.entries().len(),
        ensures
            key@ == self.entries()[i as int].0,
    {
        &self.items[i].0
    }

    /// The slot at place `i` in increasing order of key.
    pub fn slot_at(&self, i: usize) -> (slot: Slot)
        requires
            i < self.entries().len(),
        ensures
            slot == self.entries()[i as int].1,
    {
        self.items[i].1
    }

    /// The place where `key` stands or would stand: the number of keys below
    /// it, and whether the key at that place is `key`.
    pub fn search(&self, key: &[u8]) -> (r: (usize, bool))
        requires
            self.wf(),
        ensures
            r.0 <= self.entries().len(),
            forall|j: int| 0 <= j < r.0 ==> lex_lt((#[trigger] self.entries()[j]).0, key@),
            forall|j: int|
                r.0 <= j < self.entries().len() ==> !lex_lt((#[trigger] self.entries()[j]).0, key@),
            r.1 <==> r.0 < self.entries().len() && self.entries()[r.0 as int].0 == key@,
            r.1 <==> self@.contains_key(key@),
            !r.1 ==> forall|j: int|
                r.0 <= j < self.entries().len() ==> lex_lt(key@, (#[trigger] self.entries()[j]).0),
    {
        let ghost es = self.entries();
        let mut lo: usize = 0;
        let mut hi: usize = self.items.len();
        while lo < hi
            invariant
                es == self.entries(),
                sorted(es),
                lo <= hi <= es.len(),
                es.len() == self.items@.len(),
                forall|j: int| 0 <= j < lo ==> lex_lt((#[trigger] es[j]).0, key@),
                forall|j: int| hi <= j < es.len() ==> lex_lt(key@, (#[trigger] es[j]).0),
            decreases hi - lo,
        {
            let mid = lo + (hi - lo) / 2;
            let ghost mk = es[mid as int].0;
            assert(self.items@[mid as int].0@ == mk);
            match lex_order(self.items[mid].0.as_slice(), key) {
                Order::Less => {
                    proof {
                        assert forall|j: int| 0 <= j < mid + 1 implies lex_lt(
                            (#[trigger] es[j]).0,
                            key@,
                        ) by {
                            if j < mid {
                                assert(lex_lt(es[j].0, es[mid as int].0));
                                lemma_lex_transitive(es[j].0, mk, key@);
                            }
                        }
                    }
                    lo = mid + 1;
                },
                Order::Greater => {
                    proof {
                        assert forall|j: int| mid <= j < es.len() implies lex_lt(
                            key@,
                            (#[trigger] es[j]).0,
                        ) by {
                            if j > mid {
                                assert(lex_lt(es[mid as int].0, es[j].0));
                                lemma_lex_transitive(key@, mk, es[j].0);
                            }
                        }
                    }
                    hi = mid;
                },
                Order::Equal => {
                    proof {
                        lemma_lex_irreflexive(key@);
                        assert forall|j: int| 0 <= j < mid implies lex_lt(
                            (#[trigger] es[j]).0,
                            key@,
                        ) by {
                            assert(lex_lt(es[j].0, es[mid as int].0));
                        }
                        assert forall|j: int| mid <= j < es.len() implies !lex_lt(
                            (#[trigger] es[j]).0,
                            key@,
                        ) by {
                            if j > mid {
                                assert(lex_lt(es[mid as int].0, es[j].0));
                                lemma_lex_total(es[j].0, key@);
                            }
                        }
                        lemma_to_map_at(es, mid as int);
                    }
                    return (mid, true);
                },
            }
        }
        proof {
            lemma_lex_irreflexive(key@);
            assert forall|j: int| lo <= j < es.len() implies !lex_lt(
                (#[trigger] es[j]).0,
                key@,
            ) by {
                lemma_lex_total(es[j].0, key@);
            }
            if self@.contains_key(key@) {
                let j = place_of(es, key@);
                assert(es[j].0 == key@);
            }
        }
        (lo, false)
    }

    /// The slot of `key`, if the key is live.
    pub fn get(&self, key: &[u8]) -> (r: Option<Slot>)
        requires
            self.wf(),
        ensures
            r == (if self@.contains_key(key@) {
                Some(self@[key@])
            } else {
                None
            }),
    {
        let (i, found) = self.search(key);
        if found {
            proof {
                lemma_to_map_at(self.entries(), i as int);
            }
            Some(self.items[i].1)
        } else {
            None
        }
    }

    /// Gives `key` the slot `slot`, whether or not the key was live.
    pub fn insert(&mut self, key: Vec<u8>, slot: Slot)
        requires
            old(self).wf(),
        ensures
            final(self).wf(),
            final(self)@ == old(self)@.insert(key@, slot),
            final(self).compacted_len() == old(self).compacted_len() - (if old(self)@.contains_key(
                key@,
            ) {
                entry_len((key@, old(self)@[key@]))
            } else {
                0
            }) + entry_len((key@, slot)),
    {
        let ghost es = self.entries();
        let ghost e: Entry = (key@, slot);
        let (i, found) = self.search(key.as_slice());
        if found {
            proof {
                lemma_update_entry(es, i as int, e);
            }
            self.items.set(i, (key, slot));
            assert(self.entries() =~= es.update(i as int, e));
        } else {
            proof {
                lemma_insert_entry(es, i as int, e);
            }
            self.items.insert(i, (key, slot));
            assert(self.entries() =~= es.insert(i as int, e));
        }
    }

    /// Takes `key` out, if it was live.
    pub fn remove(&mut self, key: &[u8])
        requires
            old(self).wf(),
        ensures
            final(self).wf(),
            final(self)@ == old(self)@.remove(key@),
            final(self).compacted_len() == old(self).compacted_len() - (if old(self)@.contains_key(
                key@,
            ) {
                entry_len((key@, old(self)@[key@]))
            } else {
                0
            }),
    {
        let ghost es = self.entries();
        let (i, found) = self.search(key);
        if found {
            proof {
                lemma_remove_entry(es, i as int);
            }
            let _ = self.items.remove(i);
            assert(self.entries() =~= es.remove(i as int));
        } else {
            assert(self@ =~= self@.remove(key@));
        }
    }

    /// The number of keys that lie below the lower end `lower`.
    pub fn lower_place(&self, lower: &Bound) -> (lo: usize)
        requires
            self.wf(),
        ensures
            lo <= self.entries().len(),
            forall|j: int| 0 <= j < lo ==> !above_lower(lower@, (#[trigger] self.entries()[j]).0),
            forall|j: int|
                lo <= j < self.entries().len() ==> above_lower(
                    lower@,
                    (#[trigger] self.entries()[j]).0,
                ),
    {
        let ghost es = self.entries();
        match lower {
            Bound::Included(b) => {
                let (i, _) = self.search(b.as_slice());
                i
            },
            Bound::Excluded(b) => {
                let (i, found) = self.search(b.as_slice());
                let n = self.items.len();
                assert(es.len() == n);
                proof {
                    lemma_lex_irreflexive(b@);
                    assert forall|j: int| 0 <= j < i implies !lex_lt(b@, (#[trigger] es[j]).0) by {
                        lemma_lex_total(es[j].0, b@);
                    }
                    if found {
                        assert forall|j: int| i < j < es.len() implies lex_lt(
                            b@,
                            (#[trigger] es[j]).0,
                        ) by {
                            assert(lex_lt(es[i as int].0, es[j].0));
                        }
                    }
                }
                if found {
                    i + 1
                } else {
                    i
                }
            },
            Bound::Unbounded => 0,
        }
    }

    /// The number of keys that do not lie above the upper end `upper`.
    pub fn upper_place(&self, upper: &Bound) -> (hi: usize)
        requires
            self.wf(),
        ensures
            hi <= self.entries().len(),
            forall|j: int| 0 <= j < hi ==> below_upper(upper@, (#[trigger] self.entries()[j]).0),
            forall|j: int|
                hi <= j < self.entries().len() ==> !below_upper(
                    upper@,
                    (#[trigger] self.entries()[j]).0,
                ),
    {
        let ghost es = self.entries();
        match upper {
            Bound::Included(b) => {
                let (i, found) = self.search(b.as_slice());
                let n = self.items.len();
                assert(es.len() == n);
                proof {
                    lemma_lex_irreflexive(b@);
                    assert forall|j: int| 0 <= j < i implies !lex_lt(b@, (#[trigger] es[j]).0) by {
                        lemma_lex_total(es[j].0, b@);
                    }
                    if found {
                        assert forall|j: int| i < j < es.len() implies lex_lt(
                            b@,
                            (#[trigger] es[j]).0,
                        ) by {
                            assert(lex_lt(es[i as int].0, es[j].0));
                        }
                    }
                }
                if found {
                    i + 1
                } else {
                    i
                }
            },
            Bound::Excluded(b) => {
                let (i, _) = self.search(b.as_slice());
                i
            },
            Bound::Unbounded => self.items.len(),
        }
    }

    /// The entries whose key lies in the range from `lower` to `upper`, in
    /// increasing order of key. Ends that cross give no entry.
    pub fn range(&self, lower: &Bound, upper: &Bound) -> (out: Vec<(Vec<u8>, Slot)>)
        requires
            self.wf(),
        ensures
            is_range_of(view_entries(out@), self@, lower@, upper@),
    {
        let ghost es = self.entries();
        let lo = self.lower_place(lower);
        let hi = self.upper_place(upper);
        let end = if hi < lo { lo } else { hi };
        let mut out: Vec<(Vec<u8>, Slot)> = Vec::new();
        let mut j = lo;
        while j < hi
            invariant
                es == self.entries(),
                es.len() == self.items@.len(),
                lo <= j <= end <= es.len(),
                hi <= end,
                out@.len() == j - lo,
                view_entries(out@).len() == j - lo,
                forall|t: int| 0 <= t < out@.len() ==> (#[trigger] view_entries(out@)[t]) == es[lo + t],
            decreases hi - j,
        {
            let key = slice_to_vec(self.items[j].0.as_slice());
            let slot = self.items[j].1;
            let ghost before = view_entries(out@);
            out.push((key, slot));
            assert forall|t: int| 0 <= t < out@.len() implies (#[trigger] view_entries(out@)[t])
                == es[lo + t] by {
                if t < out@.len() - 1 {
                    assert(view_entries(out@)[t] == before[t]);
                }
            }
            j += 1;
        }
        proof {
            let got = view_entries(out@);
            assert forall|a: int, b: int| 0 <= a < b < got.len() implies lex_lt(
                (#[trigger] got[a]).0,
                (#[trigger] got[b]).0,
            ) by {
                assert(got[a] == es[lo + a]);
                assert(got[b] == es[lo + b]);
            }
            assert forall|t: int| 0 <= t < got.len() implies {
                &&& in_range(lower@, upper@, (#[trigger] got[t]).0)
                &&& self@.contains_key(got[t].0)
                &&& self@[got[t].0] == got[t].1
            } by {
                assert(got[t] == es[lo + t]);
                lemma_to_map_at(es, lo + t);
            }
            assert forall|k: Seq<u8>| #[trigger]
                self@.contains_key(k) && in_range(lower@, upper@, k) implies has_key(got, k) by {
                let p = place_of(es, k);
                assert(es[p].0 == k);
                assert(lo <= p < hi);
                assert(j == hi);
                assert(got[p - lo] == es[p]);
            }
        }
        out
    }

    /// The entries whose key starts with `prefix`, in increasing order of
    /// key: the range from `prefix` to `prefix_upper(prefix)`. The empty
    /// prefix gives no entry.
    pub fn prefix_scan(&self, prefix: &[u8]) -> (out: Vec<(Vec<u8>, Slot)>)
        requires
            self.wf(),
        ensures
            is_prefix_scan_of(view_entries(out@), self@, prefix@),
    {
        let start = Bound::Included(slice_to_vec(prefix));
        let end = prefix_upper(prefix);
        assert(start@ == KeyBound::Included(prefix@));
        self.range(&start, &end)
    }
}

} // verus!
