//! Lists of keyed entries sorted by key, and the maps they stand for.
//!
//! A list whose keys are strictly increasing in lexicographic byte order
//! holds no key twice, so it stands for a map from key to value. The lemmas
//! say what inserting, replacing and removing an entry does to that map.

use crate::order::{lemma_lex_irreflexive, lex_lt};
use vstd::prelude::*;

verus! {

/// The keys of `es` are strictly increasing.
pub open spec fn sorted<V>(es: Seq<(Seq<u8>, V)>) -> bool {
    forall|i: int, j: int| 0 <= i < j < es.len() ==> lex_lt((#[trigger] es[i]).0, (#[trigger] es[j]).0)
}

/// `es` has an entry for `k`.
pub open spec fn has_key<V>(es: Seq<(Seq<u8>, V)>, k: Seq<u8>) -> bool {
    exists|i: int| 0 <= i < es.len() && (#[trigger] es[i]).0 == k
}

/// The place in `es` of an entry for `k`.
pub open spec fn place_of<V>(es: Seq<(Seq<u8>, V)>, k: Seq<u8>) -> int {
    choose|i: int| 0 <= i < es.len() && (#[trigger] es[i]).0 == k
}

/// The map that a list of entries stands for.
pub open spec fn to_map<V>(es: Seq<(Seq<u8>, V)>) -> Map<Seq<u8>, V> {
    Map::new(|k: Seq<u8>| has_key(es, k), |k: Seq<u8>| es[place_of(es, k)].1)
}

/// In a sorted list the entry at place `i` is the one the map has for its key.
pub proof fn lemma_to_map_at<V>(es: Seq<(Seq<u8>, V)>, i: int)
    requires
        sorted(es),
        0 <= i < es.len(),
    ensures
        has_key(es, es[i].0),
        place_of(es, es[i].0) == i,
        to_map(es).contains_key(es[i].0),
        to_map(es)[es[i].0] == es[i].1,
{
    let k = es[i].0;
    assert(0 <= i < es.len() && es[i].0 == k);
    let j = place_of(es, k);
    lemma_lex_irreflexive(k);
    if j < i {
        assert(lex_lt(es[j].0, es[i].0));
    }
    if i < j {
        assert(lex_lt(es[i].0, es[j].0));
    }
}

/// Putting an entry between the smaller keys and the larger keys keeps the
/// list sorted and adds the entry to the map.
pub proof fn lemma_insert_sorted<V>(es: Seq<(Seq<u8>, V)>, i: int, e: (Seq<u8>, V))
    requires
        sorted(es),
        0 <= i <= es.len(),
        forall|j: int| 0 <= j < i ==> lex_lt((#[trigger] es[j]).0, e.0),
        forall|j: int| i <= j < es.len() ==> lex_lt(e.0, (#[trigger] es[j]).0),
    ensures
        sorted(es.insert(i, e)),
        !to_map(es).contains_key(e.0),
        to_map(es.insert(i, e)) == to_map(es).insert(e.0, e.1),
{
    let es2 = es.insert(i, e);
    assert forall|a: int, b: int| 0 <= a < b < es2.len() implies lex_lt(
        (#[trigger] es2[a]).0,
        (#[trigger] es2[b]).0,
    ) by {
        let a0 = if a < i { a } else { a - 1 };
        let b0 = if b < i { b } else { b - 1 };
        if a == i {
            assert(es2[b] == es[b0]);
        } else if b == i {
            assert(es2[a] == es[a0]);
        } else {
            assert(es2[a] == es[a0]);
            assert(es2[b] == es[b0]);
        }
    }
    if to_map(es).contains_key(e.0) {
        let j = place_of(es, e.0);
        lemma_lex_irreflexive(e.0);
        assert(es[j].0 == e.0);
    }
    let m1 = to_map(es2);
    let m2 = to_map(es).insert(e.0, e.1);
    assert forall|k: Seq<u8>| m1.contains_key(k) <==> m2.contains_key(k) by {
        if m1.contains_key(k) {
            let j = place_of(es2, k);
            if j != i {
                let j0 = if j < i { j } else { j - 1 };
                assert(es[j0].0 == k);
            }
        }
        if m2.contains_key(k) {
            if k == e.0 {
                assert(es2[i].0 == k);
            } else {
                let j = place_of(es, k);
                let j2 = if j < i { j } else { j + 1 };
                assert(es2[j2].0 == k);
            }
        }
    }
    assert forall|k: Seq<u8>| m1.contains_key(k) implies m1[k] == m2[k] by {
        let j = place_of(es2, k);
        lemma_to_map_at(es2, j);
        if j != i {
            let j0 = if j < i { j } else { j - 1 };
            assert(es2[j] == es[j0]);
            lemma_to_map_at(es, j0);
            lemma_lex_irreflexive(e.0);
        }
    }
    assert(m1 =~= m2);
}

/// Replacing the entry at place `i` by one of the same key keeps the list
/// sorted and gives the key its new slot in the map.
pub proof fn lemma_update_sorted<V>(es: Seq<(Seq<u8>, V)>, i: int, e: (Seq<u8>, V))
    requires
        sorted(es),
        0 <= i < es.len(),
        es[i].0 == e.0,
    ensures
        sorted(es.update(i, e)),
        to_map(es).contains_key(e.0),
        to_map(es)[e.0] == es[i].1,
        to_map(es.update(i, e)) == to_map(es).insert(e.0, e.1),
{
    let es2 = es.update(i, e);
    assert forall|a: int, b: int| 0 <= a < b < es2.len() implies lex_lt(
        (#[trigger] es2[a]).0,
        (#[trigger] es2[b]).0,
    ) by {
        assert(es2[a].0 == es[a].0);
        assert(es2[b].0 == es[b].0);
    }
    lemma_to_map_at(es, i);
    let m1 = to_map(es2);
    let m2 = to_map(es).insert(e.0, e.1);
    assert forall|k: Seq<u8>| m1.contains_key(k) <==> m2.contains_key(k) by {
        if m1.contains_key(k) {
            let j = place_of(es2, k);
            assert(es[j].0 == k);
        }
        if m2.contains_key(k) && k != e.0 {
            let j = place_of(es, k);
            assert(es2[j].0 == k);
        }
        if k == e.0 {
            assert(es2[i].0 == k);
        }
    }
    assert forall|k: Seq<u8>| m1.contains_key(k) implies m1[k] == m2[k] by {
        let j = place_of(es2, k);
        lemma_to_map_at(es2, j);
        if j != i {
            assert(es2[j] == es[j]);
            lemma_to_map_at(es, j);
        }
    }
    assert(m1 =~= m2);
}

/// Taking the entry at place `i` out keeps the list sorted and removes its
/// key from the map.
pub proof fn lemma_remove_sorted<V>(es: Seq<(Seq<u8>, V)>, i: int)
    requires
        sorted(es),
        0 <= i < es.len(),
    ensures
        sorted(es.remove(i)),
        to_map(es).contains_key(es[i].0),
        to_map(es)[es[i].0] == es[i].1,
        to_map(es.remove(i)) == to_map(es).remove(es[i].0),
{
    let es2 = es.remove(i);
    assert forall|a: int, b: int| 0 <= a < b < es2.len() implies lex_lt(
        (#[trigger] es2[a]).0,
        (#[trigger] es2[b]).0,
    ) by {
        let a0 = if a < i { a } else { a + 1 };
        let b0 = if b < i { b } else { b + 1 };
        assert(es2[a] == es[a0]);
        assert(es2[b] == es[b0]);
    }
    lemma_to_map_at(es, i);
    let m1 = to_map(es2);
    let m2 = to_map(es).remove(es[i].0);
    assert forall|k: Seq<u8>| m1.contains_key(k) <==> m2.contains_key(k) by {
        if m1.contains_key(k) {
            let j = place_of(es2, k);
            let j0 = if j < i { j } else { j + 1 };
            assert(es[j0].0 == k);
            lemma_to_map_at(es, j0);
        }
        if m2.contains_key(k) {
            let j = place_of(es, k);
            let j2 = if j < i { j } else { j - 1 };
            assert(es2[j2].0 == k);
        }
    }
    assert forall|k: Seq<u8>| m1.contains_key(k) implies m1[k] == m2[k] by {
        let j = place_of(es2, k);
        lemma_to_map_at(es2, j);
        let j0 = if j < i { j } else { j + 1 };
        assert(es2[j] == es[j0]);
        lemma_to_map_at(es, j0);
    }
    assert(m1 =~= m2);
}

/// A sorted list stands for a finite map with one key for each entry.
pub proof fn lemma_to_map_len<V>(es: Seq<(Seq<u8>, V)>)
    requires
        sorted(es),
    ensures
        to_map(es).dom().finite(),
        to_map(es).dom().len() == es.len(),
    decreases es.len(),
{
    if es.len() == 0 {
        assert(to_map(es).dom() =~= Set::<Seq<u8>>::empty());
    } else {
        let n = es.len() - 1;
        let init = es.drop_last();
        assert(sorted(init)) by {
            assert forall|a: int, b: int| 0 <= a < b < init.len() implies lex_lt(
                (#[trigger] init[a]).0,
                (#[trigger] init[b]).0,
            ) by {
                assert(init[a] == es[a]);
                assert(init[b] == es[b]);
            }
        }
        lemma_to_map_len(init);
        assert forall|j: int| 0 <= j < n implies lex_lt((#[trigger] init[j]).0, es.last().0) by {
            assert(init[j] == es[j]);
        }
        lemma_insert_sorted(init, n, es.last());
        assert(init.insert(n, es.last()) =~= es);
        assert(to_map(es).dom() =~= to_map(init).dom().insert(es.last().0));
    }
}

/// A map has one sorted list only: two sorted lists that stand for the same
/// map are the same list.
pub proof fn lemma_sorted_unique<V>(a: Seq<(Seq<u8>, V)>, b: Seq<(Seq<u8>, V)>)
    requires
        sorted(a),
        sorted(b),
        to_map(a) == to_map(b),
    ensures
        a == b,
    decreases a.len(),
{
    lemma_to_map_len(a);
    lemma_to_map_len(b);
    if a.len() > 0 {
        lemma_to_map_at(a, 0);
        lemma_to_map_at(b, 0);
        // The first key of each list is in the other, and not before its first.
        let ja = place_of(b, a[0].0);
        let jb = place_of(a, b[0].0);
        assert(b[ja].0 == a[0].0);
        assert(a[jb].0 == b[0].0);
        if ja > 0 {
            assert(lex_lt(b[0].0, b[ja].0));
            if jb > 0 {
                assert(lex_lt(a[0].0, a[jb].0));
                crate::order::lemma_lex_total(a[0].0, b[0].0);
            }
        }
        if jb > 0 && ja == 0 {
            assert(lex_lt(a[0].0, a[jb].0));
            lemma_lex_irreflexive(a[0].0);
        }
        lemma_lex_irreflexive(a[0].0);
        assert(a[0].0 == b[0].0);
        lemma_remove_sorted(a, 0);
        lemma_remove_sorted(b, 0);
        lemma_sorted_unique(a.remove(0), b.remove(0));
        assert(a[0] == b[0]);
        assert forall|i: int| 0 <= i < a.len() implies a[i] == b[i] by {
            if i > 0 {
                assert(a.remove(0)[i - 1] == a[i]);
                assert(b.remove(0)[i - 1] == b[i]);
            }
        }
        assert(a =~= b);
    } else {
        assert(a =~= b);
    }
}

} // verus!
