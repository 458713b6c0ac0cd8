//! Total preorders on the library's values, and sorting by them.

use itertools::Itertools;
use std::cmp::Ordering;
use vstd::prelude::*;

verus! {

/// A type whose values are ranked by a total preorder.
pub trait Ranked: Sized {
    /// `self` may stand before `other` in an ascending sequence.
    spec fn before(&self, other: &Self) -> bool;

    /// Decides `before`.
    fn precedes(&self, other: &Self) -> (b: bool)
        ensures
            b == self.before(other),
    ;

    /// Any two values are ranked one way or the other.
    proof fn lemma_total(a: &Self, b: &Self)
        ensures
            a.before(b) || b.before(a),
    ;

    /// Ranking is transitive.
    proof fn lemma_transitive(a: &Self, b: &Self, c: &Self)
        requires
            a.before(b),
            b.before(c),
        ensures
            a.before(c),
    ;
}

/// Each element may stand before every later one.
pub open spec fn ranked_ascending<T: Ranked>(s: Seq<T>) -> bool {
    forall|i: int, j: int| 0 <= i < j < s.len() ==> #[trigger] s[i].before(&s[j])
}

/// Each element may stand before its successor.
pub open spec fn ranked_stepwise<T: Ranked>(s: Seq<T>) -> bool {
    forall|i: int| 0 <= i < s.len() - 1 ==> (#[trigger] s[i]).before(&s[i + 1])
}

/// A sequence that ascends step by step ascends throughout.
pub proof fn lemma_stepwise_ascending<T: Ranked>(s: Seq<T>)
    requires
        ranked_stepwise(s),
    ensures
        ranked_ascending(s),
{
    assert forall|i: int, j: int| 0 <= i < j < s.len() implies #[trigger] s[i].before(&s[j]) by {
        lemma_stepwise_reach(s, i, j);
    }
}

proof fn lemma_stepwise_reach<T: Ranked>(s: Seq<T>, i: int, j: int)
    requires
        ranked_stepwise(s),
        0 <= i < j < s.len(),
    ensures
        s[i].before(&s[j]),
    decreases j - i,
{
    if j == i + 1 {
    } else {
        lemma_stepwise_reach(s, i, j - 1);
        assert(s[j - 1].before(&s[j - 1 + 1]));
        T::lemma_transitive(&s[i], &s[j - 1], &s[j]);
    }
}

/// The values that `f` gives for the elements of `s`, in their order.
pub open spec fn mapped<A, B>(s: Seq<A>, f: spec_fn(A) -> B) -> Seq<B> {
    Seq::new(s.len(), |i: int| f(s[i]))
}

/// Sequences that hold the same elements as often hold the same values
/// under `f` as often: rearranging and mapping can be done in either
/// order.
pub proof fn lemma_mapped_multiset<A, B>(a: Seq<A>, b: Seq<A>, f: spec_fn(A) -> B)
    requires
        a.to_multiset() == b.to_multiset(),
    ensures
        mapped(a, f).to_multiset() == mapped(b, f).to_multiset(),
    decreases a.len(),
{
    a.to_multiset_ensures();
    b.to_multiset_ensures();
    if a.len() == 0 {
        assert(mapped(a, f) =~= mapped(b, f));
    } else {
        let x = a.last();
        let a0 = a.drop_last();
        assert(a.contains(x)) by {
            assert(a[a.len() - 1] == x);
        }
        assert(a.to_multiset().count(x) > 0);
        assert(b.contains(x));
        let j = choose|j: int| 0 <= j < b.len() && b[j] == x;
        let b0 = b.remove(j);
        a0.to_multiset_ensures();
        assert(a0.push(x) =~= a);
        assert(a0.to_multiset().insert(x) =~= a.to_multiset());
        assert(b0.to_multiset() =~= b.to_multiset().remove(x));
        assert(a0.to_multiset() =~= b0.to_multiset());
        lemma_mapped_multiset(a0, b0, f);
        let va = mapped(a, f);
        let vb = mapped(b, f);
        let va0 = mapped(a0, f);
        let vb0 = mapped(b0, f);
        va0.to_multiset_ensures();
        vb.to_multiset_ensures();
        assert(va0.push(f(x)) =~= va);
        assert(vb.remove(j) =~= vb0);
        assert(va.to_multiset() =~= va0.to_multiset().insert(f(x)));
        assert(vb0.to_multiset() =~= vb.to_multiset().remove(f(x)));
        assert(vb.contains(f(x))) by {
            assert(vb[j] == f(x));
        }
        assert(vb.to_multiset().count(f(x)) > 0);
        assert(vb.to_multiset() =~= vb0.to_multiset().insert(f(x)));
    }
}

/// A counter after one more count; it stops at the largest value.
pub open spec fn bumped(n: u64) -> u64 {
    if n < u64::MAX {
        (n + 1) as u64
    } else {
        n
    }
}

/// Compares two values by their rank and counts the comparison. The count
/// stops at the largest value that it can hold.
pub fn counted_ordering<T: Ranked>(a: &T, b: &T, comparisons: &mut u64) -> (o: Ordering)
    ensures
        *final(comparisons) == bumped(*old(comparisons)),
        (o == Ordering::Less) == (a.before(b) && !b.before(a)),
        (o == Ordering::Equal) == (a.before(b) && b.before(a)),
        (o == Ordering::Greater) == !a.before(b),
{
    if *comparisons < u64::MAX {
        *comparisons += 1;
    }
    proof {
        T::lemma_total(a, b);
    }
    if a.precedes(b) {
        if b.precedes(a) {
            Ordering::Equal
        } else {
            Ordering::Less
        }
    } else {
        Ordering::Greater
    }
}

/// Whether the vector ascends by rank.
pub fn is_ranked_ascending<T: Ranked>(v: &Vec<T>) -> (b: bool)
    ensures
        b == ranked_ascending(v@),
{
    if v.len() == 0 {
        return true;
    }
    let mut i: usize = 1;
    while i < v.len()
        invariant
            1 <= i <= v.len(),
            forall|k: int| 0 <= k < i - 1 ==> (#[trigger] v@[k]).before(&v@[k + 1]),
        decreases v.len() - i,
    {
        if !v[i - 1].precedes(&v[i]) {
            assert(!ranked_ascending(v@)) by {
                if ranked_ascending(v@) {
                    assert(v@[i - 1].before(&v@[i as int]));
                }
            }
            return false;
        }
        i += 1;
    }
    proof {
        assert(ranked_stepwise(v@));
        lemma_stepwise_ascending(v@);
    }
    true
}

/// Sorts the values into ascending order of rank with
/// `itertools::Itertools::sorted_by`, counting the comparisons made in
/// `comparisons`.
///
/// Trusted: the result holds the same values as `items`, each as often, and
/// ascends by rank. This is what a sort by a comparison that is a total
/// preorder returns; that `before` is one is proved by each implementation of
/// `Ranked`. Nothing is claimed of the number of comparisons.
#[verifier::external_body]
pub(crate) fn sort_ranked<T: Ranked>(items: Vec<T>, comparisons: &mut u64) -> (r: Vec<T>)
    ensures
        r@.to_multiset() == items@.to_multiset(),
        ranked_ascending(r@),
{
    items.into_iter().sorted_by(|a, b| counted_ordering(a, b, comparisons)).collect()
}

} // verus!
