//! Lexicographic order on byte strings, the order in which the index keeps
//! its keys.

use vstd::prelude::*;

verus! {

/// How one byte string stands to another.
#[derive(Debug, Clone, Copy, PartialEq, Eq, Structural)]
pub enum Order {
    /// The first comes before the second.
    Less,
    /// Both are the same string.
    Equal,
    /// The first comes after the second.
    Greater,
}

/// `a` comes strictly before `b`: at the first place where they differ `a`
/// has the smaller byte, or `a` ends there and `b` goes on.
pub open spec fn lex_lt(a: Seq<u8>, b: Seq<u8>) -> bool
    decreases a.len(),
{
    if b.len() == 0 {
        false
    } else if a.len() == 0 {
        true
    } else if a[0] != b[0] {
        a[0] < b[0]
    } else {
        lex_lt(a.skip(1), b.skip(1))
    }
}

/// `p` is what `s` starts with.
pub open spec fn has_prefix(s: Seq<u8>, p: Seq<u8>) -> bool {
    p.len() <= s.len() && s.subrange(0, p.len() as int) == p
}

/// No string comes before itself.
pub proof fn lemma_lex_irreflexive(a: Seq<u8>)
    ensures
        !lex_lt(a, a),
    decreases a.len(),
{
    if a.len() > 0 {
        lemma_lex_irreflexive(a.skip(1));
    }
}

/// Of two different strings exactly one comes before the other.
pub proof fn lemma_lex_total(a: Seq<u8>, b: Seq<u8>)
    ensures
        lex_lt(a, b) || lex_lt(b, a) || a == b,
        !(lex_lt(a, b) && lex_lt(b, a)),
    decreases a.len(),
{
    if a.len() == 0 || b.len() == 0 {
        if a.len() == 0 && b.len() == 0 {
            assert(a =~= b);
        }
    } else if a[0] == b[0] {
        lemma_lex_total(a.skip(1), b.skip(1));
        if a.skip(1) == b.skip(1) {
            assert(a =~= seq![a[0]] + a.skip(1));
            assert(b =~= seq![b[0]] + b.skip(1));
        }
    }
}

/// The order is transitive.
pub proof fn lemma_lex_transitive(a: Seq<u8>, b: Seq<u8>, c: Seq<u8>)
    requires
        lex_lt(a, b),
        lex_lt(b, c),
    ensures
        lex_lt(a, c),
    decreases a.len(),
{
    if a.len() > 0 && a[0] == b[0] && b[0] == c[0] {
        lemma_lex_transitive(a.skip(1), b.skip(1), c.skip(1));
    }
}

/// Strings that agree on their first `n` bytes compare as their remainders do.
pub proof fn lemma_lex_skip_common(a: Seq<u8>, b: Seq<u8>, n: int)
    requires
        0 <= n <= a.len(),
        n <= b.len(),
        a.subrange(0, n) == b.subrange(0, n),
    ensures
        lex_lt(a, b) == lex_lt(a.skip(n), b.skip(n)),
    decreases n,
{
    if n == 0 {
        assert(a.skip(0) =~= a);
        assert(b.skip(0) =~= b);
    } else {
        assert(a[0] == a.subrange(0, n)[0]);
        assert(b[0] == b.subrange(0, n)[0]);
        assert(a.skip(1).subrange(0, n - 1) =~= a.subrange(0, n).skip(1));
        assert(b.skip(1).subrange(0, n - 1) =~= b.subrange(0, n).skip(1));
        lemma_lex_skip_common(a.skip(1), b.skip(1), n - 1);
        assert(a.skip(1).skip(n - 1) =~= a.skip(n));
        assert(b.skip(1).skip(n - 1) =~= b.skip(n));
    }
}

/// A string never comes before one of its prefixes.
pub proof fn lemma_prefix_not_after(s: Seq<u8>, p: Seq<u8>)
    requires
        has_prefix(s, p),
    ensures
        !lex_lt(s, p),
{
    let n = p.len() as int;
    assert(p.subrange(0, n) =~= p);
    lemma_lex_skip_common(s, p, n);
    assert(p.skip(n).len() == 0);
}

/// Compares two byte strings lexicographically.
pub fn lex_order(a: &[u8], b: &[u8]) -> (r: Order)
    ensures
        r == Order::Less <==> lex_lt(a@, b@),
        r == Order::Equal <==> a@ == b@,
        r == Order::Greater <==> lex_lt(b@, a@),
{
    let mut i: usize = 0;
    while i < a.len() && i < b.len()
        invariant
            i <= a@.len(),
            i <= b@.len(),
            a@.subrange(0, i as int) == b@.subrange(0, i as int),
        decreases a@.len() - i,
    {
        if a[i] != b[i] {
            proof {
                lemma_lex_skip_common(a@, b@, i as int);
                lemma_lex_skip_common(b@, a@, i as int);
                assert(a@.skip(i as int)[0] == a@[i as int]);
                assert(b@.skip(i as int)[0] == b@[i as int]);
                lemma_lex_total(a@, b@);
            }
            if a[i] < b[i] {
                return Order::Less;
            } else {
                return Order::Greater;
            }
        }
        i += 1;
        assert(a@.subrange(0, i as int) =~= a@.subrange(0, i - 1).push(a@[i - 1]));
        assert(b@.subrange(0, i as int) =~= b@.subrange(0, i - 1).push(b@[i - 1]));
    }
    proof {
        lemma_lex_skip_common(a@, b@, i as int);
        lemma_lex_skip_common(b@, a@, i as int);
        lemma_lex_total(a@, b@);
        lemma_lex_irreflexive(a@);
        if a@.len() == b@.len() {
            assert(a@ =~= a@.subrange(0, i as int));
            assert(b@ =~= b@.subrange(0, i as int));
        }
    }
    if a.len() < b.len() {
        Order::Less
    } else if a.len() > b.len() {
        Order::Greater
    } else {
        Order::Equal
    }
}

/// The number of bytes on which `a` and `b` agree from their start.
pub open spec fn common_len(a: Seq<u8>, b: Seq<u8>) -> nat
    decreases a.len(),
{
    if a.len() == 0 || b.len() == 0 || a[0] != b[0] {
        0
    } else {
        1 + common_len(a.skip(1), b.skip(1))
    }
}

/// Two strings agree up to their common length and differ right after it,
/// unless one of them ends there.
pub proof fn lemma_common_len(a: Seq<u8>, b: Seq<u8>)
    ensures
        common_len(a, b) <= a.len(),
        common_len(a, b) <= b.len(),
        a.subrange(0, common_len(a, b) as int) == b.subrange(0, common_len(a, b) as int),
        common_len(a, b) < a.len() && common_len(a, b) < b.len() ==> a[common_len(a, b) as int]
            != b[common_len(a, b) as int],
    decreases a.len(),
{
    let c = common_len(a, b) as int;
    if a.len() == 0 || b.len() == 0 || a[0] != b[0] {
        assert(a.subrange(0, 0) =~= b.subrange(0, 0));
    } else {
        lemma_common_len(a.skip(1), b.skip(1));
        let a1 = a.skip(1);
        let b1 = b.skip(1);
        assert forall|i: int| 0 <= i < c implies a.subrange(0, c)[i] == b.subrange(0, c)[i] by {
            if i > 0 {
                assert(a1.subrange(0, c - 1)[i - 1] == b1.subrange(0, c - 1)[i - 1]);
            }
        }
        assert(a.subrange(0, c) =~= b.subrange(0, c));
        if c < a.len() && c < b.len() {
            assert(a[c] == a1[c - 1]);
            assert(b[c] == b1[c - 1]);
        }
    }
}

/// `p` without the bytes `0xFF` that it ends with.
pub open spec fn strip_max(p: Seq<u8>) -> Seq<u8>
    decreases p.len(),
{
    if p.len() > 0 && p.last() == 0xFF {
        strip_max(p.drop_last())
    } else {
        p
    }
}

/// The least string that comes after every string starting with `p`: `p`
/// without the bytes `0xFF` at its end and with its last byte raised by one.
/// There is none if `p` is empty or made of bytes `0xFF` only.
pub open spec fn prefix_end(p: Seq<u8>) -> Option<Seq<u8>> {
    let q = strip_max(p);
    if q.len() == 0 {
        None
    } else {
        Some(q.drop_last().push((q.last() + 1) as u8))
    }
}

/// What `strip_max` leaves is the start of `p`, does not end with `0xFF`,
/// and is followed in `p` by bytes `0xFF` only.
pub proof fn lemma_strip_max(p: Seq<u8>)
    ensures
        strip_max(p).len() <= p.len(),
        strip_max(p) == p.subrange(0, strip_max(p).len() as int),
        strip_max(p).len() > 0 ==> strip_max(p).last() != 0xFF,
        forall|i: int| strip_max(p).len() <= i < p.len() ==> p[i] == 0xFF,
    decreases p.len(),
{
    if p.len() > 0 && p.last() == 0xFF {
        lemma_strip_max(p.drop_last());
        let n = strip_max(p).len() as int;
        assert(p.drop_last().subrange(0, n) =~= p.subrange(0, n));
        assert forall|i: int| n <= i < p.len() implies p[i] == 0xFF by {
            if i < p.len() - 1 {
                assert(p.drop_last()[i] == p[i]);
            }
        }
    } else {
        assert(p.subrange(0, p.len() as int) =~= p);
    }
}

/// The strings that start with a non-empty `p` are those from `p` on that
/// come before `prefix_end(p)`, or all those from `p` on if `p` has no such
/// end.
pub proof fn lemma_prefix_range(k: Seq<u8>, p: Seq<u8>)
    requires
        p.len() > 0,
    ensures
        has_prefix(k, p) <==> !lex_lt(k, p) && (prefix_end(p) matches Some(e) ==> lex_lt(k, e)),
{
    let q = strip_max(p);
    lemma_strip_max(p);
    let c = common_len(k, p) as int;
    lemma_common_len(k, p);
    lemma_lex_skip_common(k, p, c);
    if has_prefix(k, p) {
        lemma_prefix_not_after(k, p);
        if q.len() > 0 {
            let e = prefix_end(p)->0;
            let j = q.len() - 1;
            assert(q[j] == p[j]);
            assert(k.subrange(0, j) =~= e.subrange(0, j)) by {
                assert forall|i: int| 0 <= i < j implies k[i] == e[i] by {
                    assert(k[i] == k.subrange(0, p.len() as int)[i]);
                    assert(e[i] == q[i]);
                    assert(q[i] == p.subrange(0, q.len() as int)[i]);
                }
            }
            lemma_lex_skip_common(k, e, j);
            assert(k[j] == k.subrange(0, p.len() as int)[j]);
            assert(k.skip(j)[0] == k[j]);
            assert(e.skip(j)[0] == e[j]);
            assert(lex_lt(k.skip(j), e.skip(j)));
            assert(lex_lt(k, e));
        }
    } else {
        if !lex_lt(k, p) {
            // `k` is not before `p` and does not start with it: they differ
            // at place `c`, where `k` has the larger byte.
            if c == p.len() {
                assert(p.subrange(0, c) =~= p);
            }
            assert(c < p.len());
            if c == k.len() {
                assert(k.skip(c).len() == 0);
                assert(p.skip(c).len() > 0);
            }
            assert(c < k.len());
            assert(k.skip(c)[0] == k[c]);
            assert(p.skip(c)[0] == p[c]);
            assert(k[c] > p[c]);
            assert(c < q.len());
            let e = prefix_end(p)->0;
            let j = q.len() - 1;
            assert(q[j] == p.subrange(0, q.len() as int)[j]);
            if c < j {
                assert(k.subrange(0, c) =~= e.subrange(0, c)) by {
                    assert forall|i: int| 0 <= i < c implies k[i] == e[i] by {
                        assert(k[i] == k.subrange(0, c)[i]);
                        assert(p[i] == p.subrange(0, c)[i]);
                        assert(e[i] == q[i]);
                        assert(q[i] == p.subrange(0, q.len() as int)[i]);
                    }
                }
                lemma_lex_skip_common(k, e, c);
                assert(e.skip(c)[0] == e[c]);
                assert(e[c] == q[c]);
                assert(q[c] == p.subrange(0, q.len() as int)[c]);
                assert(!lex_lt(k.skip(c), e.skip(c)));
                assert(!lex_lt(k, e));
            } else {
                assert(k.subrange(0, j) =~= e.subrange(0, j)) by {
                    assert forall|i: int| 0 <= i < j implies k[i] == e[i] by {
                        assert(k[i] == k.subrange(0, c)[i]);
                        assert(p[i] == p.subrange(0, c)[i]);
                        assert(e[i] == q[i]);
                        assert(q[i] == p.subrange(0, q.len() as int)[i]);
                    }
                }
                lemma_lex_skip_common(k, e, j);
                assert(k.skip(j)[0] == k[j]);
                assert(e.skip(j)[0] == e[j]);
                if k[j] == e[j] {
                    assert(e.skip(j).skip(1).len() == 0);
                    assert(!lex_lt(k.skip(j).skip(1), e.skip(j).skip(1)));
                }
                assert(!lex_lt(k.skip(j), e.skip(j)));
                assert(!lex_lt(k, e));
            }
        }
    }
}

} // verus!
