//! The two intersection strategies: lists in query order, or shortest list
//! first. Both give the same matches; only the comparisons differ.

use crate::intersect::{
    all_ascending, counted, doc_listed, docs_ascending, has_doc, in_every_list,
    intersect_in_order, intersect_many, intersect_many_spec, is_intersection,
    lemma_intersect_many_props, lemma_intersection_unique, lists_view, many_cost, match_docs,
    matches_ascending, matches_view, selection, tf_of, tfs_match, DocMatch, DocTf,
};
use crate::order::{sort_ranked, Ranked};
use vstd::prelude::*;

verus! {

/// How the lists of a query are intersected.
#[derive(Clone, Copy, Debug, PartialEq, Eq, Structural)]
pub enum Method {
    /// From left to right, in the order of the query's terms.
    Naive,
    /// From the shortest list to the longest.
    Ascending,
}

/// A list's length together with its position in the query.
#[derive(Clone, Copy, Debug, PartialEq, Eq, Structural)]
pub struct LengthKey {
    pub len: usize,
    pub index: usize,
}

impl Ranked for LengthKey {
    /// By length, then by position.
    open spec fn before(&self, other: &Self) -> bool {
        self.len < other.len || (self.len == other.len && self.index <= other.index)
    }

    fn precedes(&self, other: &Self) -> (b: bool) {
        self.len < other.len || (self.len == other.len && self.index <= other.index)
    }

    proof fn lemma_total(a: &Self, b: &Self) {
    }

    proof fn lemma_transitive(a: &Self, b: &Self, c: &Self) {
    }
}

/// The key of the list at position `m`.
pub open spec fn key_of(lists: Seq<Seq<DocTf>>, m: int) -> LengthKey {
    LengthKey { len: lists[m].len() as usize, index: m as usize }
}

/// `order` names the position `m`.
pub open spec fn names(order: Seq<usize>, m: int) -> bool {
    exists|k: int| 0 <= k < order.len() && #[trigger] order[k] == m
}

/// `order` names every position of `lists` once, shorter lists first and
/// lists of equal length in the order of their positions.
pub open spec fn is_length_order(order: Seq<usize>, lists: Seq<Seq<DocTf>>) -> bool {
    &&& order.len() == lists.len()
    &&& forall|k: int| 0 <= k < order.len() ==> (#[trigger] order[k]) < lists.len()
    &&& forall|m: int| 0 <= m < lists.len() ==> #[trigger] names(order, m)
    &&& forall|i: int, j: int|
        0 <= i < j < order.len() ==> #[trigger] key_of(lists, order[i] as int).before(
            &#[trigger] key_of(lists, order[j] as int),
        )
}

/// The positions of the lists from the shortest list to the longest; lists
/// of equal length keep the order of their positions. The comparisons that
/// sorting takes are counted in `comparisons`.
pub fn order_by_length(postings_lists: &Vec<Vec<DocTf>>, comparisons: &mut u64) -> (order: Vec<
    usize,
>)
    ensures
        is_length_order(order@, lists_view(postings_lists@)),
{
    let ghost lists = lists_view(postings_lists@);
    let mut keys_vec: Vec<LengthKey> = Vec::new();
    let mut m: usize = 0;
    while m < postings_lists.len()
        invariant
            m <= postings_lists.len(),
            keys_vec.len() == m,
            lists == lists_view(postings_lists@),
            forall|i: int| 0 <= i < m ==> #[trigger] keys_vec@[i] == key_of(lists, i),
        decreases postings_lists.len() - m,
    {
        keys_vec.push(LengthKey { len: postings_lists[m].len(), index: m });
        m += 1;
    }
    let ghost keys = keys_vec@;
    let sorted = sort_ranked(keys_vec, comparisons);
    proof {
        sorted@.to_multiset_ensures();
        keys.to_multiset_ensures();
    }
    let mut order: Vec<usize> = Vec::new();
    let mut k: usize = 0;
    while k < sorted.len()
        invariant
            k <= sorted.len(),
            order.len() == k,
            forall|i: int| 0 <= i < k ==> #[trigger] order@[i] == sorted@[i].index,
        decreases sorted.len() - k,
    {
        order.push(sorted[k].index);
        k += 1;
    }
    proof {
        assert forall|i: int| 0 <= i < order.len() implies (#[trigger] order@[i]) < lists.len()
            && key_of(lists, order@[i] as int) == sorted@[i] by {
            assert(sorted@.contains(sorted@[i]));
            assert(sorted@.to_multiset().count(sorted@[i]) > 0);
            assert(keys.to_multiset().count(sorted@[i]) > 0);
            assert(keys.contains(sorted@[i]));
            let m = choose|m: int| 0 <= m < keys.len() && keys[m] == sorted@[i];
            assert(keys[m] == key_of(lists, m));
        }
        assert forall|m: int| 0 <= m < lists.len() implies #[trigger] names(order@, m) by {
            assert(keys[m] == key_of(lists, m));
            assert(keys.contains(keys[m]));
            assert(keys.to_multiset().count(keys[m]) > 0);
            assert(sorted@.to_multiset().count(keys[m]) > 0);
            assert(sorted@.contains(keys[m]));
            let k = choose|k: int| 0 <= k < sorted@.len() && sorted@[k] == keys[m];
            assert(order@[k] == m);
        }
        assert forall|i: int, j: int| 0 <= i < j < order.len() implies #[trigger] key_of(
            lists,
            order@[i] as int,
        ).before(&#[trigger] key_of(lists, order@[j] as int)) by {
            assert(sorted@[i].before(&sorted@[j]));
        }
    }
    order
}

/// For each position, a place at which `order` names it.
fn inverse_order(order: &Vec<usize>) -> (inverse: Vec<usize>)
    requires
        forall|m: int| 0 <= m < order.len() ==> #[trigger] names(order@, m),
    ensures
        inverse.len() == order.len(),
        forall|m: int|
            0 <= m < order.len() ==> (#[trigger] inverse@[m]) < order.len() && order@[inverse@[m] as int]
                == m,
{
    let n = order.len();
    let mut inverse: Vec<usize> = Vec::new();
    let mut m: usize = 0;
    while m < n
        invariant
            m <= n,
            n == order.len(),
            inverse.len() == m,
            forall|x: int| 0 <= x < order.len() ==> #[trigger] names(order@, x),
            forall|x: int|
                0 <= x < m ==> (#[trigger] inverse@[x]) < order.len() && order@[inverse@[x] as int]
                    == x,
        decreases n - m,
    {
        assert(names(order@, m as int));
        let mut k: usize = 0;
        while k < n && order[k] != m
            invariant
                k <= n,
                n == order.len(),
                m < n,
                forall|i: int| 0 <= i < k ==> #[trigger] order@[i] != m,
                exists|i: int| 0 <= i < order.len() && #[trigger] order@[i] == m,
            decreases n - k,
        {
            k += 1;
        }
        inverse.push(k);
        m += 1;
    }
    inverse
}

/// The frequencies `tfs`, which follow the lists as `order` names them,
/// brought back into the order of the lists' positions.
pub open spec fn restored_tfs(tfs: Seq<u64>, inverse: Seq<usize>) -> Seq<u64> {
    Seq::new(inverse.len(), |m: int| tfs[inverse[m] as int])
}

/// The matches with each frequency vector brought back into the order of
/// the lists' positions.
pub open spec fn restored(acc: Seq<(u64, Seq<u64>)>, inverse: Seq<usize>) -> Seq<(u64, Seq<u64>)> {
    Seq::new(acc.len(), |i: int| (acc[i].0, restored_tfs(acc[i].1, inverse)))
}

fn restore_term_order(matches: &Vec<DocMatch>, inverse: &Vec<usize>) -> (r: Vec<DocMatch>)
    requires
        forall|i: int, m: int|
            0 <= i < matches.len() && 0 <= m < inverse.len() ==> (#[trigger] inverse@[m])
                < (#[trigger] matches@[i]).1.len(),
    ensures
        matches_view(r@) == restored(matches_view(matches@), inverse@),
{
    let mut r: Vec<DocMatch> = Vec::new();
    let mut i: usize = 0;
    while i < matches.len()
        invariant
            i <= matches.len(),
            forall|x: int, m: int|
                0 <= x < matches.len() && 0 <= m < inverse.len() ==> (#[trigger] inverse@[m])
                    < (#[trigger] matches@[x]).1.len(),
            matches_view(r@) == restored(matches_view(matches@), inverse@).take(i as int),
        decreases matches.len() - i,
    {
        let mut tfs: Vec<u64> = Vec::new();
        let mut m: usize = 0;
        while m < inverse.len()
            invariant
                m <= inverse.len(),
                i < matches.len(),
                forall|x: int, y: int|
                    0 <= x < matches.len() && 0 <= y < inverse.len() ==> (#[trigger] inverse@[y])
                        < (#[trigger] matches@[x]).1.len(),
                tfs@ == restored_tfs(matches@[i as int].1@, inverse@).take(m as int),
            decreases inverse.len() - m,
        {
            assert(inverse@[m as int] < matches@[i as int].1.len());
            tfs.push(matches[i].1[inverse[m]]);
            assert(tfs@ =~= restored_tfs(matches@[i as int].1@, inverse@).take(m + 1));
            m += 1;
        }
        assert(tfs@ =~= restored_tfs(matches@[i as int].1@, inverse@));
        let ghost before = matches_view(r@);
        r.push((matches[i].0, tfs));
        assert(matches_view(r@) =~= before.push((matches@[i as int].0, tfs@)));
        assert(matches_view(r@) =~= restored(matches_view(matches@), inverse@).take(i + 1));
        i += 1;
    }
    assert(matches_view(r@) =~= restored(matches_view(matches@), inverse@));
    r
}

/// Intersecting the lists in another order and bringing the frequencies back
/// into query order gives the intersection of the lists in query order.
pub proof fn lemma_restored_is_intersection(
    lists: Seq<Seq<DocTf>>,
    order: Seq<usize>,
    inverse: Seq<usize>,
    acc: Seq<(u64, Seq<u64>)>,
)
    requires
        lists.len() >= 1,
        all_ascending(lists),
        order.len() == lists.len(),
        inverse.len() == lists.len(),
        forall|k: int| 0 <= k < order.len() ==> (#[trigger] order[k]) < lists.len(),
        forall|m: int|
            0 <= m < lists.len() ==> (#[trigger] inverse[m]) < order.len() && order[inverse[m] as int]
                == m,
        is_intersection(acc, selection(lists, order)),
    ensures
        restored(acc, inverse) == intersect_many_spec(lists),
{
    let chosen = selection(lists, order);
    let r = restored(acc, inverse);
    assert forall|i: int| 0 <= i < r.len() implies tfs_match(lists, #[trigger] r[i]) by {
        assert(tfs_match(chosen, acc[i]));
        let d = acc[i].0;
        assert forall|m: int| 0 <= m < lists.len() implies has_doc(#[trigger] lists[m], d) by {
            let k = inverse[m] as int;
            assert(has_doc(chosen[k], d));
            assert(chosen[k] == lists[m]);
        }
        assert forall|m: int| 0 <= m < lists.len() implies #[trigger] r[i].1[m] == tf_of(
            lists[m],
            r[i].0,
        ) by {
            let k = inverse[m] as int;
            assert(acc[i].1[k] == tf_of(chosen[k], d));
            assert(chosen[k] == lists[m]);
        }
    }
    assert forall|d: u64| #[trigger] in_every_list(lists, d) implies doc_listed(r, d) by {
        assert forall|k: int| 0 <= k < chosen.len() implies has_doc(#[trigger] chosen[k], d) by {
            assert(chosen[k] == lists[order[k] as int]);
        }
        assert(in_every_list(chosen, d));
        assert(doc_listed(acc, d));
        let i = choose|i: int| 0 <= i < acc.len() && (#[trigger] acc[i]).0 == d;
        assert(r[i].0 == d);
    }
    assert(matches_ascending(r)) by {
        assert forall|i: int, j: int| 0 <= i < j < r.len() implies r[i].0 < r[j].0 by {
            assert(acc[i].0 < acc[j].0);
        }
    }
    lemma_intersect_many_props(lists);
    lemma_intersection_unique(r, intersect_many_spec(lists), lists);
}

/// The order in which the lists are intersected does not change which
/// documents match: intersecting any rearrangement of the lists gives the
/// same documents in the same order.
pub proof fn lemma_intersection_order_independent(
    lists: Seq<Seq<DocTf>>,
    order: Seq<usize>,
    inverse: Seq<usize>,
)
    requires
        lists.len() >= 1,
        all_ascending(lists),
        order.len() == lists.len(),
        inverse.len() == lists.len(),
        forall|k: int| 0 <= k < order.len() ==> (#[trigger] order[k]) < lists.len(),
        forall|m: int|
            0 <= m < lists.len() ==> (#[trigger] inverse[m]) < order.len() && order[inverse[m] as int]
                == m,
    ensures
        match_docs(intersect_many_spec(selection(lists, order))) == match_docs(
            intersect_many_spec(lists),
        ),
        restored(intersect_many_spec(selection(lists, order)), inverse) == intersect_many_spec(
            lists,
        ),
{
    let chosen = selection(lists, order);
    assert forall|k: int| 0 <= k < chosen.len() implies docs_ascending(#[trigger] chosen[k]) by {
        assert(chosen[k] == lists[order[k] as int]);
    }
    lemma_intersect_many_props(chosen);
    let acc = intersect_many_spec(chosen);
    lemma_restored_is_intersection(lists, order, inverse, acc);
    assert(match_docs(restored(acc, inverse)) =~= match_docs(acc));
}

/// How the method counts the comparisons of its merges: the naive method
/// merges the lists in query order, the ascending method from the shortest
/// list to the longest. The counter stops at the largest value that it can
/// hold.
pub open spec fn counts_merges(
    lists: Seq<Seq<DocTf>>,
    method: Method,
    before: u64,
    after: u64,
) -> bool {
    match method {
        Method::Naive => after == counted(before + many_cost(lists)),
        Method::Ascending => exists|order: Seq<usize>|
            #![auto]
            is_length_order(order, lists) && after == counted(
                before + many_cost(selection(lists, order)),
            ),
    }
}

/// Intersects the lists of a query by the given method.
///
/// Each list is strictly ascending by document. Whatever the method, the
/// result lists in ascending order the documents that occur in every list,
/// each with its frequencies in the order of the query's lists. The
/// comparisons that ordering the lists takes are counted in
/// `sort_compares`, those of the merges in `intersect_compares`.
pub fn intersect_terms(
    postings_lists: &Vec<Vec<DocTf>>,
    method: Method,
    sort_compares: &mut u64,
    intersect_compares: &mut u64,
) -> (r: Vec<DocMatch>)
    requires
        postings_lists.len() > 0,
        all_ascending(lists_view(postings_lists@)),
    ensures
        matches_view(r@) == intersect_many_spec(lists_view(postings_lists@)),
        is_intersection(matches_view(r@), lists_view(postings_lists@)),
        method == Method::Naive ==> *final(sort_compares) == *old(sort_compares),
        counts_merges(
            lists_view(postings_lists@),
            method,
            *old(intersect_compares),
            *final(intersect_compares),
        ),
{
    let ghost lists = lists_view(postings_lists@);
    proof {
        lemma_intersect_many_props(lists);
    }
    match method {
        Method::Naive => intersect_many(postings_lists, intersect_compares),
        Method::Ascending => {
            let order = order_by_length(postings_lists, sort_compares);
            proof {
                let chosen = selection(lists, order@);
                assert forall|k: int| 0 <= k < chosen.len() implies docs_ascending(
                    #[trigger] chosen[k],
                ) by {
                    assert(chosen[k] == lists[order@[k] as int]);
                }
            }
            let acc = intersect_in_order(postings_lists, &order, intersect_compares);
            let inverse = inverse_order(&order);
            proof {
                let chosen = selection(lists, order@);
                assert forall|i: int, m: int|
                    0 <= i < acc.len() && 0 <= m < inverse.len() implies (#[trigger] inverse@[m])
                    < (#[trigger] acc@[i]).1.len() by {
                    assert(tfs_match(chosen, matches_view(acc@)[i]));
                }
                lemma_restored_is_intersection(lists, order@, inverse@, matches_view(acc@));
            }
            restore_term_order(&acc, &inverse)
        },
    }
}

} // verus!
