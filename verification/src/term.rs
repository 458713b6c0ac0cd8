//! Terms as byte strings, and their lexicographic order.

use vstd::prelude::*;

verus! {

/// `a` comes strictly before `b` in lexicographic order, given that the two
/// agree on their first `k` bytes.
pub open spec fn lt_from(a: Seq<u8>, b: Seq<u8>, k: int) -> bool
    decreases a.len() - k,
{
    if k < 0 {
        false
    } else if k >= a.len() {
        k < b.len()
    } else if k >= b.len() {
        false
    } else if a[k] != b[k] {
        a[k] < b[k]
    } else {
        lt_from(a, b, k + 1)
    }
}

/// `a` comes strictly before `b` in lexicographic byte order.
pub open spec fn bytes_lt(a: Seq<u8>, b: Seq<u8>) -> bool {
    lt_from(a, b, 0)
}

/// `a` comes before `b` in lexicographic byte order, or equals it.
pub open spec fn bytes_le(a: Seq<u8>, b: Seq<u8>) -> bool {
    bytes_lt(a, b) || a == b
}

/// The two byte strings agree on their first `k` bytes.
pub open spec fn agree_to(a: Seq<u8>, b: Seq<u8>, k: int) -> bool {
    &&& 0 <= k <= a.len()
    &&& k <= b.len()
    &&& forall|i: int| 0 <= i < k ==> a[i] == b[i]
}

proof fn lemma_lt_from_irreflexive(a: Seq<u8>, k: int)
    requires
        0 <= k,
    ensures
        !lt_from(a, a, k),
    decreases a.len() - k,
{
    if k < a.len() {
        lemma_lt_from_irreflexive(a, k + 1);
    }
}

proof fn lemma_lt_from_trichotomy(a: Seq<u8>, b: Seq<u8>, k: int)
    requires
        agree_to(a, b, k),
    ensures
        lt_from(a, b, k) || lt_from(b, a, k) || a == b,
    decreases a.len() - k,
{
    if k >= a.len() || k >= b.len() {
        if k >= a.len() && k >= b.len() {
            assert(a =~= b);
        }
    } else if a[k] == b[k] {
        lemma_lt_from_trichotomy(a, b, k + 1);
    }
}

proof fn lemma_lt_from_transitive(a: Seq<u8>, b: Seq<u8>, c: Seq<u8>, k: int)
    requires
        0 <= k,
        lt_from(a, b, k),
        lt_from(b, c, k),
    ensures
        lt_from(a, c, k),
    decreases a.len() - k,
{
    if k < a.len() && k < b.len() && k < c.len() && a[k] == b[k] && b[k] == c[k] {
        lemma_lt_from_transitive(a, b, c, k + 1);
    }
}

/// No byte string comes before itself.
pub proof fn lemma_bytes_lt_irreflexive(a: Seq<u8>)
    ensures
        !bytes_lt(a, a),
{
    lemma_lt_from_irreflexive(a, 0);
}

/// Of two different byte strings one comes before the other.
pub proof fn lemma_bytes_lt_trichotomy(a: Seq<u8>, b: Seq<u8>)
    ensures
        bytes_lt(a, b) || bytes_lt(b, a) || a == b,
{
    lemma_lt_from_trichotomy(a, b, 0);
}

/// The order of byte strings is transitive.
pub proof fn lemma_bytes_lt_transitive(a: Seq<u8>, b: Seq<u8>, c: Seq<u8>)
    requires
        bytes_lt(a, b),
        bytes_lt(b, c),
    ensures
        bytes_lt(a, c),
{
    lemma_lt_from_transitive(a, b, c, 0);
}

/// No two byte strings come before each other.
pub proof fn lemma_bytes_lt_asymmetric(a: Seq<u8>, b: Seq<u8>)
    requires
        bytes_lt(a, b),
    ensures
        !bytes_lt(b, a),
        a != b,
{
    lemma_bytes_lt_irreflexive(a);
    if bytes_lt(b, a) {
        lemma_bytes_lt_transitive(a, b, a);
    }
}

/// How two byte strings stand to each other.
#[derive(Clone, Copy, Debug, PartialEq, Eq, Structural)]
pub enum Rank {
    Before,
    Same,
    After,
}

/// Compares two byte strings lexicographically.
pub fn compare_bytes(a: &[u8], b: &[u8]) -> (r: Rank)
    ensures
        r == Rank::Before <==> bytes_lt(a@, b@),
        r == Rank::Same <==> a@ == b@,
        r == Rank::After <==> bytes_lt(b@, a@),
{
    let mut k: usize = 0;
    while k < a.len() && k < b.len() && a[k] == b[k]
        invariant
            agree_to(a@, b@, k as int),
            lt_from(a@, b@, 0) == lt_from(a@, b@, k as int),
            lt_from(b@, a@, 0) == lt_from(b@, a@, k as int),
        decreases a.len() - k,
    {
        k += 1;
    }
    proof {
        lemma_bytes_lt_irreflexive(a@);
        if bytes_lt(a@, b@) {
            lemma_bytes_lt_asymmetric(a@, b@);
        }
        if bytes_lt(b@, a@) {
            lemma_bytes_lt_asymmetric(b@, a@);
        }
    }
    if k >= a.len() {
        if k >= b.len() {
            assert(a@ =~= b@);
            Rank::Same
        } else {
            Rank::Before
        }
    } else if k >= b.len() {
        Rank::After
    } else if a[k] < b[k] {
        Rank::Before
    } else {
        Rank::After
    }
}

/// Whether two byte strings are equal.
pub fn same_bytes(a: &[u8], b: &[u8]) -> (r: bool)
    ensures
        r == (a@ == b@),
{
    if a.len() != b.len() {
        return false;
    }
    let mut k: usize = 0;
    while k < a.len()
        invariant
            a.len() == b.len(),
            agree_to(a@, b@, k as int),
        decreases a.len() - k,
    {
        if a[k] != b[k] {
            return false;
        }
        k += 1;
    }
    assert(a@ =~= b@);
    true
}

/// A copy of the bytes.
pub fn copy_bytes(a: &[u8]) -> (r: Vec<u8>)
    ensures
        r@ == a@,
{
    let mut r: Vec<u8> = Vec::new();
    let mut k: usize = 0;
    while k < a.len()
        invariant
            k <= a.len(),
            r@ == a@.take(k as int),
        decreases a.len() - k,
    {
        r.push(a[k]);
        assert(a@.take(k + 1) =~= a@.take(k as int).push(a@[k as int]));
        k += 1;
    }
    assert(a@.take(k as int) =~= a@);
    r
}

} // verus!
