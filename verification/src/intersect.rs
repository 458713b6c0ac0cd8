//! Intersection of per-term document lists by document identifier.
//!
//! A term's document list holds one entry per document in which the term
//! occurs, in strictly ascending order of document identifier, together with
//! the term's frequency in that document. Intersecting the lists of several
//! terms yields the documents in which every term occurs, each with the
//! vector of the terms' frequencies in it.

use vstd::prelude::*;

verus! {

/// A term's frequency in one document.
#[derive(Clone, Copy, Debug, PartialEq, Eq, Structural)]
pub struct DocTf {
    pub doc_id: u64,
    pub tf: u64,
}

/// A document that matched, with one frequency per term seen so far.
pub type DocMatch = (u64, Vec<u64>);

/// The mathematical value of a match list.
pub open spec fn matches_view(v: Seq<DocMatch>) -> Seq<(u64, Seq<u64>)> {
    Seq::new(v.len(), |i: int| (v[i].0, v[i].1@))
}

/// The mathematical value of a vector of document lists.
pub open spec fn lists_view(v: Seq<Vec<DocTf>>) -> Seq<Seq<DocTf>> {
    Seq::new(v.len(), |i: int| v[i]@)
}

/// Document identifiers strictly increase along the list.
pub open spec fn docs_ascending(list: Seq<DocTf>) -> bool {
    forall|i: int, j: int| 0 <= i < j < list.len() ==> list[i].doc_id < list[j].doc_id
}

/// Document identifiers strictly increase along the match list.
pub open spec fn matches_ascending(acc: Seq<(u64, Seq<u64>)>) -> bool {
    forall|i: int, j: int| 0 <= i < j < acc.len() ==> acc[i].0 < acc[j].0
}

/// The list holds an entry for the document.
pub open spec fn has_doc(list: Seq<DocTf>, doc: u64) -> bool {
    exists|k: int| 0 <= k < list.len() && #[trigger] list[k].doc_id == doc
}

/// The frequency that the list records for the document.
pub open spec fn tf_of(list: Seq<DocTf>, doc: u64) -> u64 {
    list[choose|k: int| 0 <= k < list.len() && #[trigger] list[k].doc_id == doc].tf
}

/// The match list that a single document list stands for.
pub open spec fn seed_spec(list: Seq<DocTf>) -> Seq<(u64, Seq<u64>)> {
    Seq::new(list.len(), |i: int| (list[i].doc_id, seq![list[i].tf]))
}

/// The matches of `acc` whose document also occurs in `list`, each extended
/// by the frequency that `list` records for it.
pub open spec fn intersect2_spec(acc: Seq<(u64, Seq<u64>)>, list: Seq<DocTf>) -> Seq<
    (u64, Seq<u64>),
>
    decreases acc.len(),
{
    if acc.len() == 0 {
        Seq::empty()
    } else {
        let rest = intersect2_spec(acc.drop_last(), list);
        let m = acc.last();
        if has_doc(list, m.0) {
            rest.push((m.0, m.1.push(tf_of(list, m.0))))
        } else {
            rest
        }
    }
}

/// The left-to-right intersection of one or more document lists.
pub open spec fn intersect_many_spec(lists: Seq<Seq<DocTf>>) -> Seq<(u64, Seq<u64>)>
    decreases lists.len(),
{
    if lists.len() == 0 {
        Seq::empty()
    } else if lists.len() == 1 {
        seed_spec(lists[0])
    } else {
        intersect2_spec(intersect_many_spec(lists.drop_last()), lists.last())
    }
}

/// What a counter shows after counting to `n`: it stops at the largest
/// value that it can hold.
pub open spec fn counted(n: int) -> u64 {
    if n > u64::MAX {
        u64::MAX
    } else if n < 0 {
        0
    } else {
        n as u64
    }
}

/// The number of comparisons that merging the two lists from positions
/// `i` and `j` takes: one where the left document is smaller, two otherwise.
pub open spec fn merge_cost(left: Seq<u64>, right: Seq<u64>, i: int, j: int) -> nat
    decreases left.len() - i + right.len() - j,
{
    if i < 0 || j < 0 || i >= left.len() || j >= right.len() {
        0
    } else if left[i] < right[j] {
        1 + merge_cost(left, right, i + 1, j)
    } else if right[j] < left[i] {
        2 + merge_cost(left, right, i, j + 1)
    } else {
        2 + merge_cost(left, right, i + 1, j + 1)
    }
}

/// The document identifiers of a match list.
pub open spec fn match_docs(acc: Seq<(u64, Seq<u64>)>) -> Seq<u64> {
    Seq::new(acc.len(), |i: int| acc[i].0)
}

/// The document identifiers of a document list.
pub open spec fn list_docs(list: Seq<DocTf>) -> Seq<u64> {
    Seq::new(list.len(), |i: int| list[i].doc_id)
}

/// In a strictly ascending list the recorded frequency of a document is the
/// frequency of its one entry.
pub proof fn lemma_tf_of_unique(list: Seq<DocTf>, k: int)
    requires
        docs_ascending(list),
        0 <= k < list.len(),
    ensures
        has_doc(list, list[k].doc_id),
        tf_of(list, list[k].doc_id) == list[k].tf,
{
    let doc = list[k].doc_id;
    let c = choose|c: int| 0 <= c < list.len() && #[trigger] list[c].doc_id == doc;
    if c < k {
        assert(list[c].doc_id < list[k].doc_id);
    } else if k < c {
        assert(list[k].doc_id < list[c].doc_id);
    }
}

/// One more match on the left adds at most one match to the intersection.
pub proof fn lemma_intersect2_step(acc: Seq<(u64, Seq<u64>)>, list: Seq<DocTf>, i: int)
    requires
        0 <= i < acc.len(),
    ensures
        intersect2_spec(acc.take(i + 1), list) == if has_doc(list, acc[i].0) {
            intersect2_spec(acc.take(i), list).push(
                (acc[i].0, acc[i].1.push(tf_of(list, acc[i].0))),
            )
        } else {
            intersect2_spec(acc.take(i), list)
        },
{
    assert(acc.take(i + 1).drop_last() =~= acc.take(i));
    assert(acc.take(i + 1).last() == acc[i]);
}

/// Matches whose documents are all absent from the list add nothing.
pub proof fn lemma_intersect2_tail_absent(acc: Seq<(u64, Seq<u64>)>, list: Seq<DocTf>, i: int)
    requires
        0 <= i <= acc.len(),
        forall|k: int| i <= k < acc.len() ==> !has_doc(list, #[trigger] acc[k].0),
    ensures
        intersect2_spec(acc, list) == intersect2_spec(acc.take(i), list),
    decreases acc.len() - i,
{
    if i == acc.len() {
        assert(acc.take(i) =~= acc);
    } else {
        let n = acc.len() as int;
        lemma_intersect2_tail_absent(acc.take(n - 1), list, i);
        assert(acc.take(n) =~= acc);
        lemma_intersect2_step(acc, list, n - 1);
        assert(acc.take(n - 1).take(i) =~= acc.take(i));
    }
}

/// Whether the document identifiers strictly increase along the list.
pub fn is_ascending_by_doc(list: &Vec<DocTf>) -> (b: bool)
    ensures
        b == docs_ascending(list@),
{
    if list.len() == 0 {
        return true;
    }
    let mut i: usize = 1;
    while i < list.len()
        invariant
            1 <= i <= list.len(),
            forall|a: int, b: int| 0 <= a < b < i ==> list@[a].doc_id < list@[b].doc_id,
        decreases list.len() - i,
    {
        if list[i - 1].doc_id >= list[i].doc_id {
            return false;
        }
        assert forall|a: int, b: int| 0 <= a < b < i + 1 implies list@[a].doc_id < list@[b].doc_id by {
            if b == i && a < i - 1 {
                assert(list@[a].doc_id < list@[i - 1].doc_id);
            }
        }
        i += 1;
    }
    true
}

/// A copy of the frequency vector with one more frequency at its end.
fn extended(tfs: &Vec<u64>, tf: u64) -> (r: Vec<u64>)
    ensures
        r@ == tfs@.push(tf),
{
    let mut r: Vec<u64> = Vec::new();
    let mut k: usize = 0;
    while k < tfs.len()
        invariant
            k <= tfs.len(),
            r@ == tfs@.take(k as int),
        decreases tfs.len() - k,
    {
        r.push(tfs[k]);
        assert(tfs@.take(k as int).push(tfs@[k as int]) =~= tfs@.take(k + 1));
        k += 1;
    }
    assert(tfs@.take(tfs.len() as int) =~= tfs@);
    r.push(tf);
    r
}

/// Merges a match list with one more term's document list.
///
/// Both lists are strictly ascending by document. The result keeps the
/// matches whose document occurs in `pl2`, each extended by the frequency
/// recorded there, and `compares` counts on by the cost of the merge; it
/// stops at the largest value that it can hold.
pub fn intersect2(pl1: &Vec<DocMatch>, pl2: &Vec<DocTf>, compares: &mut u64) -> (r: Vec<DocMatch>)
    requires
        matches_ascending(matches_view(pl1@)),
        docs_ascending(pl2@),
    ensures
        matches_view(r@) == intersect2_spec(matches_view(pl1@), pl2@),
        *final(compares) == counted(
            *old(compares) + merge_cost(match_docs(matches_view(pl1@)), list_docs(pl2@), 0, 0),
        ),
{
    let ghost acc = matches_view(pl1@);
    let ghost left = match_docs(acc);
    let ghost right = list_docs(pl2@);
    let mut intersected: Vec<DocMatch> = Vec::new();
    let mut i: usize = 0;
    let mut j: usize = 0;
    proof {
        assert(matches_view(intersected@) =~= intersect2_spec(acc.take(0), pl2@));
    }
    while i < pl1.len() && j < pl2.len()
        invariant
            i <= pl1.len(),
            j <= pl2.len(),
            acc == matches_view(pl1@),
            left == match_docs(acc),
            right == list_docs(pl2@),
            matches_ascending(acc),
            docs_ascending(pl2@),
            matches_view(intersected@) == intersect2_spec(acc.take(i as int), pl2@),
            forall|k: int| 0 <= k < j && i < pl1.len() ==> (#[trigger] pl2@[k]).doc_id < acc[i as int].0,
            merge_cost(left, right, i as int, j as int) <= merge_cost(left, right, 0, 0),
            *compares == counted(
                *old(compares) + merge_cost(left, right, 0, 0) - merge_cost(
                    left,
                    right,
                    i as int,
                    j as int,
                ),
            ),
        decreases pl1.len() - i + pl2.len() - j,
    {
        let d1: u64 = pl1[i].0;
        let d2: u64 = pl2[j].doc_id;
        assert(left[i as int] == d1 && right[j as int] == d2);
        assert(acc[i as int].0 == d1);
        if d1 < d2 {
            *compares = compares.saturating_add(1);
            proof {
                // No entry of the right list holds d1.
                assert(!has_doc(pl2@, d1)) by {
                    if has_doc(pl2@, d1) {
                        let k = choose|k: int| 0 <= k < pl2@.len() && #[trigger] pl2@[k].doc_id == d1;
                        if k < j {
                            assert(pl2@[k].doc_id < acc[i as int].0);
                        } else if k > j {
                            assert(pl2@[j as int].doc_id < pl2@[k].doc_id);
                        }
                    }
                }
                lemma_intersect2_step(acc, pl2@, i as int);
                if i + 1 < pl1.len() {
                    assert(acc[i as int].0 < acc[i + 1].0);
                }
            }
            i += 1;
        } else if d2 < d1 {
            *compares = compares.saturating_add(2);
            j += 1;
        } else {
            *compares = compares.saturating_add(2);
            let tfs = extended(&pl1[i].1, pl2[j].tf);
            proof {
                lemma_tf_of_unique(pl2@, j as int);
                lemma_intersect2_step(acc, pl2@, i as int);
                if i + 1 < pl1.len() {
                    assert(acc[i as int].0 < acc[i + 1].0);
                }
            }
            let ghost before = matches_view(intersected@);
            intersected.push((d1, tfs));
            assert(matches_view(intersected@) =~= before.push((d1, tfs@)));
            i += 1;
            j += 1;
        }
    }
    proof {
        if i < pl1.len() {
            // The right list is exhausted: every remaining left document
            // is larger than all of its documents.
            assert forall|k: int| i <= k < acc.len() implies !has_doc(pl2@, #[trigger] acc[k].0) by {
                if has_doc(pl2@, acc[k].0) {
                    let c = choose|c: int|
                        0 <= c < pl2@.len() && #[trigger] pl2@[c].doc_id == acc[k].0;
                    assert(pl2@[c].doc_id < acc[i as int].0);
                    if (i as int) < k {
                        assert(acc[i as int].0 < acc[k].0);
                    }
                }
            }
            lemma_intersect2_tail_absent(acc, pl2@, i as int);
        } else {
            assert(acc.take(i as int) =~= acc);
        }
    }
    intersected
}


/// Every list holds an entry for the document.
pub open spec fn in_every_list(lists: Seq<Seq<DocTf>>, doc: u64) -> bool {
    forall|k: int| 0 <= k < lists.len() ==> has_doc(#[trigger] lists[k], doc)
}

/// The match list holds a match for the document.
pub open spec fn doc_listed(r: Seq<(u64, Seq<u64>)>, doc: u64) -> bool {
    exists|i: int| 0 <= i < r.len() && (#[trigger] r[i]).0 == doc
}

/// The frequencies of a match are those that the lists record for its
/// document, one per list and in the order of the lists.
pub open spec fn tfs_match(lists: Seq<Seq<DocTf>>, m: (u64, Seq<u64>)) -> bool {
    &&& in_every_list(lists, m.0)
    &&& m.1.len() == lists.len()
    &&& forall|k: int| 0 <= k < lists.len() ==> #[trigger] m.1[k] == tf_of(lists[k], m.0)
}

/// `r` lists, in ascending order, exactly the documents that occur in every
/// list, each with its frequencies in the order of the lists.
pub open spec fn is_intersection(r: Seq<(u64, Seq<u64>)>, lists: Seq<Seq<DocTf>>) -> bool {
    &&& matches_ascending(r)
    &&& forall|i: int| 0 <= i < r.len() ==> tfs_match(lists, #[trigger] r[i])
    &&& forall|d: u64| #[trigger] in_every_list(lists, d) ==> doc_listed(r, d)
}

/// Every list is strictly ascending by document.
pub open spec fn all_ascending(lists: Seq<Seq<DocTf>>) -> bool {
    forall|k: int| 0 <= k < lists.len() ==> docs_ascending(#[trigger] lists[k])
}

/// The match `x` is a match of `acc` whose document occurs in `list`,
/// extended by the frequency recorded there.
pub open spec fn selected_from(acc: Seq<(u64, Seq<u64>)>, list: Seq<DocTf>, x: (u64, Seq<u64>)) -> bool {
    exists|j: int|
        0 <= j < acc.len() && (#[trigger] acc[j]).0 == x.0 && has_doc(list, x.0) && x.1
            == acc[j].1.push(tf_of(list, x.0))
}

/// What a two-way intersection holds: an ascending selection of the left
/// matches, namely those whose document occurs on the right.
pub proof fn lemma_intersect2_props(acc: Seq<(u64, Seq<u64>)>, list: Seq<DocTf>)
    requires
        matches_ascending(acc),
    ensures
        intersect2_spec(acc, list).len() <= acc.len(),
        matches_ascending(intersect2_spec(acc, list)),
        forall|i: int|
            0 <= i < intersect2_spec(acc, list).len() ==> selected_from(
                acc,
                list,
                #[trigger] intersect2_spec(acc, list)[i],
            ),
        forall|j: int|
            0 <= j < acc.len() && has_doc(list, (#[trigger] acc[j]).0) ==> doc_listed(
                intersect2_spec(acc, list),
                acc[j].0,
            ),
    decreases acc.len(),
{
    let r = intersect2_spec(acc, list);
    if acc.len() == 0 {
        assert(r.len() == 0);
    } else {
        let front = acc.drop_last();
        let m = acc.last();
        let n = acc.len() - 1;
        let rest = intersect2_spec(front, list);
        lemma_intersect2_props(front, list);
        assert forall|i: int| 0 <= i < rest.len() implies selected_from(acc, list, #[trigger] rest[i])
            && rest[i].0 < m.0 by {
            assert(selected_from(front, list, rest[i]));
            let j = choose|j: int|
                0 <= j < front.len() && (#[trigger] front[j]).0 == rest[i].0 && has_doc(
                    list,
                    rest[i].0,
                ) && rest[i].1 == front[j].1.push(tf_of(list, rest[i].0));
            assert(acc[j] == front[j]);
            assert(acc[j].0 < acc[n].0);
        }
        if has_doc(list, m.0) {
            let x = (m.0, m.1.push(tf_of(list, m.0)));
            assert(r == rest.push(x));
            assert(acc[n] == m);
            assert(selected_from(acc, list, x));
            assert forall|i: int| 0 <= i < r.len() implies selected_from(acc, list, #[trigger] r[i]) by {
                if i < rest.len() {
                    assert(r[i] == rest[i]);
                } else {
                    assert(r[i] == x);
                }
            }
            assert forall|i: int, j: int| 0 <= i < j < r.len() implies r[i].0 < r[j].0 by {
                assert(r[i] == rest[i]);
                if j < rest.len() {
                    assert(r[j] == rest[j]);
                } else {
                    assert(r[j] == x);
                }
            }
            assert forall|j: int|
                0 <= j < acc.len() && has_doc(list, (#[trigger] acc[j]).0) implies doc_listed(
                r,
                acc[j].0,
            ) by {
                if j < front.len() {
                    assert(front[j] == acc[j]);
                    assert(doc_listed(rest, front[j].0));
                    let i = choose|i: int| 0 <= i < rest.len() && (#[trigger] rest[i]).0 == front[j].0;
                    assert(r[i] == rest[i]);
                } else {
                    assert(r[rest.len() as int] == x);
                }
            }
        } else {
            assert(r == rest);
            assert forall|j: int|
                0 <= j < acc.len() && has_doc(list, (#[trigger] acc[j]).0) implies doc_listed(
                r,
                acc[j].0,
            ) by {
                assert(j < front.len());
                assert(front[j] == acc[j]);
            }
        }
    }
}

/// The left-to-right intersection of ascending lists lists exactly the
/// documents common to all of them, and is no longer than the first list.
pub proof fn lemma_intersect_many_props(lists: Seq<Seq<DocTf>>)
    requires
        lists.len() >= 1,
        all_ascending(lists),
    ensures
        is_intersection(intersect_many_spec(lists), lists),
        intersect_many_spec(lists).len() <= lists[0].len(),
    decreases lists.len(),
{
    let r = intersect_many_spec(lists);
    if lists.len() == 1 {
        let list = lists[0];
        assert(docs_ascending(list));
        assert forall|i: int| 0 <= i < r.len() implies tfs_match(lists, #[trigger] r[i]) by {
            lemma_tf_of_unique(list, i);
            assert forall|k: int| 0 <= k < lists.len() implies has_doc(
                #[trigger] lists[k],
                r[i].0,
            ) by {}
            assert forall|k: int| 0 <= k < lists.len() implies #[trigger] r[i].1[k] == tf_of(
                lists[k],
                r[i].0,
            ) by {}
        }
        assert forall|d: u64| #[trigger] in_every_list(lists, d) implies doc_listed(r, d) by {
            assert(has_doc(lists[0], d));
            let k = choose|k: int| 0 <= k < list.len() && #[trigger] list[k].doc_id == d;
            assert(r[k].0 == d);
        }
    } else {
        let front = lists.drop_last();
        let last = lists.last();
        let acc = intersect_many_spec(front);
        assert forall|k: int| 0 <= k < front.len() implies docs_ascending(#[trigger] front[k]) by {
            assert(front[k] == lists[k]);
        }
        lemma_intersect_many_props(front);
        lemma_intersect2_props(acc, last);
        assert(front[0] == lists[0]);
        assert forall|i: int| 0 <= i < r.len() implies tfs_match(lists, #[trigger] r[i]) by {
            assert(selected_from(acc, last, r[i]));
            let j = choose|j: int|
                0 <= j < acc.len() && (#[trigger] acc[j]).0 == r[i].0 && has_doc(last, r[i].0)
                    && r[i].1 == acc[j].1.push(tf_of(last, r[i].0));
            assert(tfs_match(front, acc[j]));
            assert forall|k: int| 0 <= k < lists.len() implies has_doc(
                #[trigger] lists[k],
                r[i].0,
            ) by {
                if k < front.len() {
                    assert(front[k] == lists[k]);
                }
            }
            assert forall|k: int| 0 <= k < lists.len() implies #[trigger] r[i].1[k] == tf_of(
                lists[k],
                r[i].0,
            ) by {
                if k < front.len() {
                    assert(front[k] == lists[k]);
                    assert(r[i].1[k] == acc[j].1[k]);
                }
            }
        }
        assert forall|d: u64| #[trigger] in_every_list(lists, d) implies doc_listed(r, d) by {
            assert forall|k: int| 0 <= k < front.len() implies has_doc(#[trigger] front[k], d) by {
                assert(front[k] == lists[k]);
            }
            assert(in_every_list(front, d));
            assert(doc_listed(acc, d));
            let j = choose|j: int| 0 <= j < acc.len() && (#[trigger] acc[j]).0 == d;
            assert(has_doc(lists[lists.len() - 1], d));
        }
    }
}

/// Two ascending match lists over the same documents list them in the same
/// order.
proof fn lemma_same_docs(a: Seq<(u64, Seq<u64>)>, b: Seq<(u64, Seq<u64>)>)
    requires
        matches_ascending(a),
        matches_ascending(b),
        forall|i: int| 0 <= i < a.len() ==> doc_listed(b, (#[trigger] a[i]).0),
        forall|j: int| 0 <= j < b.len() ==> doc_listed(a, (#[trigger] b[j]).0),
    ensures
        a.len() == b.len(),
        forall|i: int| 0 <= i < a.len() ==> (#[trigger] a[i]).0 == b[i].0,
    decreases a.len(),
{
    if a.len() == 0 {
        if b.len() > 0 {
            assert(doc_listed(a, b[0].0));
        }
    } else {
        let la = a.len() - 1;
        assert(doc_listed(b, a[la].0));
        let jb = choose|j: int| 0 <= j < b.len() && (#[trigger] b[j]).0 == a[la].0;
        let lb = b.len() - 1;
        assert(doc_listed(a, b[lb].0));
        let ia = choose|i: int| 0 <= i < a.len() && (#[trigger] a[i]).0 == b[lb].0;
        // Both last documents are the largest of the common set.
        if jb < lb {
            assert(b[jb].0 < b[lb].0);
        }
        if ia < la {
            assert(a[ia].0 < a[la].0);
        }
        assert(a[la].0 == b[lb].0);
        let a0 = a.drop_last();
        let b0 = b.drop_last();
        assert forall|i: int| 0 <= i < a0.len() implies doc_listed(b0, (#[trigger] a0[i]).0) by {
            assert(a0[i] == a[i]);
            assert(doc_listed(b, a[i].0));
            let j = choose|j: int| 0 <= j < b.len() && (#[trigger] b[j]).0 == a[i].0;
            assert(a[i].0 < a[la].0);
            if j == lb {
            }
            assert(j < lb);
            assert(b0[j] == b[j]);
        }
        assert forall|j: int| 0 <= j < b0.len() implies doc_listed(a0, (#[trigger] b0[j]).0) by {
            assert(b0[j] == b[j]);
            assert(doc_listed(a, b[j].0));
            let i = choose|i: int| 0 <= i < a.len() && (#[trigger] a[i]).0 == b[j].0;
            assert(b[j].0 < b[lb].0);
            assert(i < la);
            assert(a0[i] == a[i]);
        }
        assert(matches_ascending(a0)) by {
            assert forall|i: int, j: int| 0 <= i < j < a0.len() implies a0[i].0 < a0[j].0 by {
                assert(a0[i] == a[i] && a0[j] == a[j]);
            }
        }
        assert(matches_ascending(b0)) by {
            assert forall|i: int, j: int| 0 <= i < j < b0.len() implies b0[i].0 < b0[j].0 by {
                assert(b0[i] == b[i] && b0[j] == b[j]);
            }
        }
        lemma_same_docs(a0, b0);
        assert forall|i: int| 0 <= i < a.len() implies (#[trigger] a[i]).0 == b[i].0 by {
            if i < la {
                assert(a0[i] == a[i] && b0[i] == b[i]);
            }
        }
    }
}

/// There is only one intersection of given lists.
pub proof fn lemma_intersection_unique(
    a: Seq<(u64, Seq<u64>)>,
    b: Seq<(u64, Seq<u64>)>,
    lists: Seq<Seq<DocTf>>,
)
    requires
        is_intersection(a, lists),
        is_intersection(b, lists),
    ensures
        a == b,
{
    assert forall|i: int| 0 <= i < a.len() implies doc_listed(b, (#[trigger] a[i]).0) by {
        assert(tfs_match(lists, a[i]));
        assert(in_every_list(lists, a[i].0));
    }
    assert forall|j: int| 0 <= j < b.len() implies doc_listed(a, (#[trigger] b[j]).0) by {
        assert(tfs_match(lists, b[j]));
        assert(in_every_list(lists, b[j].0));
    }
    lemma_same_docs(a, b);
    assert forall|i: int| 0 <= i < a.len() implies a[i] == b[i] by {
        assert(tfs_match(lists, a[i]));
        assert(tfs_match(lists, b[i]));
        assert(a[i].0 == b[i].0);
        assert(a[i].1 =~= b[i].1);
    }
    assert(a =~= b);
}

/// The number of comparisons that the left-to-right intersection takes.
pub open spec fn many_cost(lists: Seq<Seq<DocTf>>) -> nat
    decreases lists.len(),
{
    if lists.len() <= 1 {
        0
    } else {
        many_cost(lists.drop_last()) + merge_cost(
            match_docs(intersect_many_spec(lists.drop_last())),
            list_docs(lists.last()),
            0,
            0,
        )
    }
}

/// The match list of a single document list: each document with its one
/// frequency.
fn seed(list: &Vec<DocTf>) -> (r: Vec<DocMatch>)
    ensures
        matches_view(r@) == seed_spec(list@),
{
    let mut r: Vec<DocMatch> = Vec::new();
    let mut k: usize = 0;
    while k < list.len()
        invariant
            k <= list.len(),
            matches_view(r@) == seed_spec(list@.take(k as int)),
        decreases list.len() - k,
    {
        let mut tfs: Vec<u64> = Vec::new();
        tfs.push(list[k].tf);
        let ghost before = matches_view(r@);
        r.push((list[k].doc_id, tfs));
        assert(matches_view(r@) =~= before.push((list@[k as int].doc_id, seq![list@[k as int].tf])));
        assert(before.push((list@[k as int].doc_id, seq![list@[k as int].tf])) =~= seed_spec(
            list@.take(k + 1),
        ));
        k += 1;
    }
    assert(list@.take(list.len() as int) =~= list@);
    r
}

/// The lists picked by the positions in `order`, in that order.
pub open spec fn selection(lists: Seq<Seq<DocTf>>, order: Seq<usize>) -> Seq<Seq<DocTf>> {
    Seq::new(order.len(), |k: int| lists[order[k] as int])
}

/// Intersects, from left to right, the lists at the positions that `order`
/// names.
pub fn intersect_in_order(
    postings_lists: &Vec<Vec<DocTf>>,
    order: &Vec<usize>,
    compares: &mut u64,
) -> (r: Vec<DocMatch>)
    requires
        order.len() > 0,
        forall|k: int| 0 <= k < order.len() ==> (#[trigger] order@[k]) < postings_lists.len(),
        all_ascending(lists_view(postings_lists@)),
    ensures
        matches_view(r@) == intersect_many_spec(selection(lists_view(postings_lists@), order@)),
        is_intersection(matches_view(r@), selection(lists_view(postings_lists@), order@)),
        *final(compares) == counted(
            *old(compares) + many_cost(selection(lists_view(postings_lists@), order@)),
        ),
{
    let ghost lists = selection(lists_view(postings_lists@), order@);
    let n = order.len();
    let mut acc = seed(&postings_lists[order[0]]);
    let mut k: usize = 1;
    proof {
        assert(lists.take(1)[0] == lists[0]);
        assert forall|i: int| 0 <= i < lists.len() implies docs_ascending(#[trigger] lists[i]) by {
            assert(order@[i] < postings_lists.len());
            assert(lists[i] == lists_view(postings_lists@)[order@[i] as int]);
        }
    }
    while k < n
        invariant
            1 <= k <= n,
            n == order.len(),
            forall|i: int| 0 <= i < order.len() ==> (#[trigger] order@[i]) < postings_lists.len(),
            lists == selection(lists_view(postings_lists@), order@),
            all_ascending(lists),
            matches_view(acc@) == intersect_many_spec(lists.take(k as int)),
            *compares == counted(*old(compares) + many_cost(lists.take(k as int))),
        decreases n - k,
    {
        proof {
            let front = lists.take(k as int);
            let next = lists.take(k + 1);
            assert(next.drop_last() =~= front);
            assert(next.last() == lists[k as int]);
            assert forall|i: int| 0 <= i < front.len() implies docs_ascending(#[trigger] front[i]) by {
                assert(front[i] == lists[i]);
            }
            lemma_intersect_many_props(front);
            assert(docs_ascending(lists[k as int]));
            assert(order@[k as int] < postings_lists.len());
            assert(lists[k as int] == postings_lists@[order@[k as int] as int]@);
        }
        acc = intersect2(&acc, &postings_lists[order[k]], compares);
        k += 1;
    }
    proof {
        assert(lists.take(n as int) =~= lists);
        lemma_intersect_many_props(lists);
    }
    acc
}

/// Intersects the document lists from left to right.
///
/// Each list is strictly ascending by document. The result lists, in
/// ascending order, the documents that occur in every list, each with its
/// frequencies in the order of the lists; `compares` counts on by the cost
/// of the merges and stops at the largest value that it can hold.
pub fn intersect_many(postings_lists: &Vec<Vec<DocTf>>, compares: &mut u64) -> (r: Vec<DocMatch>)
    requires
        postings_lists.len() > 0,
        all_ascending(lists_view(postings_lists@)),
    ensures
        matches_view(r@) == intersect_many_spec(lists_view(postings_lists@)),
        is_intersection(matches_view(r@), lists_view(postings_lists@)),
        *final(compares) == counted(*old(compares) + many_cost(lists_view(postings_lists@))),
{
    let mut order: Vec<usize> = Vec::new();
    let mut k: usize = 0;
    while k < postings_lists.len()
        invariant
            k <= postings_lists.len(),
            order.len() == k,
            forall|i: int| 0 <= i < k ==> #[trigger] order@[i] == i,
        decreases postings_lists.len() - k,
    {
        order.push(k);
        k += 1;
    }
    assert(selection(lists_view(postings_lists@), order@) =~= lists_view(postings_lists@));
    intersect_in_order(postings_lists, &order, compares)
}

} // verus!
