//! Query evaluation: from the terms of a query line to the documents that
//! match them all.

use crate::error::IndexError;
use crate::intersect::{
    all_ascending, docs_ascending, intersect_many_spec, is_ascending_by_doc, is_intersection,
    lists_view, matches_view, DocMatch, DocTf,
};
use crate::method::{counts_merges, intersect_terms, Method};
use crate::posting::{
    blob_of, decode_postings, doc_term_frequencies, is_doc_frequencies, is_postings_list,
    lemma_blob_len, postings_sorted, Posting,
};
use crate::preindexer::is_stopword;
use crate::text::{pieces_view, strings_view, tokenize, tokens_of};
use vstd::prelude::*;
use vstd::utf8::encode_utf8;

verus! {

/// The tokens that are not stopwords, in their order.
pub open spec fn without_stopwords(tokens: Seq<Seq<char>>, stop: Seq<Seq<u8>>) -> Seq<Seq<char>>
    decreases tokens.len(),
{
    if tokens.len() == 0 {
        Seq::empty()
    } else {
        let rest = without_stopwords(tokens.drop_last(), stop);
        if stop.contains(encode_utf8(tokens.last())) {
            rest
        } else {
            rest.push(tokens.last())
        }
    }
}

/// The terms of a query line: its tokens, normalised as the index was,
/// without stopwords.
pub fn parse_query(line: &str, stopwords: &Vec<Vec<u8>>, lowercase: bool) -> (terms: Vec<String>)
    ensures
        strings_view(terms@) == without_stopwords(
            tokens_of(line@, lowercase),
            pieces_view(stopwords@),
        ),
{
    let tokens = tokenize(line, lowercase);
    let ghost tv = strings_view(tokens@);
    let ghost stop = pieces_view(stopwords@);
    let mut terms: Vec<String> = Vec::new();
    let mut i: usize = 0;
    assert(strings_view(terms@) =~= without_stopwords(tv.take(0), stop));
    while i < tokens.len()
        invariant
            i <= tokens.len(),
            tv == strings_view(tokens@),
            stop == pieces_view(stopwords@),
            strings_view(terms@) == without_stopwords(tv.take(i as int), stop),
        decreases tokens.len() - i,
    {
        let token = &tokens[i];
        let ghost before = strings_view(terms@);
        proof {
            assert(tv.take(i + 1).drop_last() =~= tv.take(i as int));
            assert(tv.take(i + 1).last() == token@);
        }
        if !is_stopword(stopwords, token.as_str().as_bytes()) {
            let term = token.clone();
            terms.push(term);
            assert(strings_view(terms@) =~= before.push(token@));
        }
        i += 1;
    }
    assert(tv.take(i as int) =~= tv);
    terms
}

/// The name `naive`.
pub open spec fn naive_name() -> Seq<u8> {
    seq![0x6Eu8, 0x61u8, 0x69u8, 0x76u8, 0x65u8]
}

/// The name `ascending`.
pub open spec fn ascending_name() -> Seq<u8> {
    seq![0x61u8, 0x73u8, 0x63u8, 0x65u8, 0x6Eu8, 0x64u8, 0x69u8, 0x6Eu8, 0x67u8]
}

/// The intersection method of the given name: `naive` or `ascending`.
pub fn parse_method(name: &str) -> (r: Option<Method>)
    ensures
        r == if encode_utf8(name@) == naive_name() {
            Some(Method::Naive)
        } else if encode_utf8(name@) == ascending_name() {
            Some(Method::Ascending)
        } else {
            None::<Method>
        },
{
    let naive: Vec<u8> = vec![0x6Eu8, 0x61u8, 0x69u8, 0x76u8, 0x65u8];
    let ascending: Vec<u8> = vec![
        0x61u8,
        0x73u8,
        0x63u8,
        0x65u8,
        0x6Eu8,
        0x64u8,
        0x69u8,
        0x6Eu8,
        0x67u8,
    ];
    assert(naive@ =~= naive_name());
    assert(ascending@ =~= ascending_name());
    let bytes = name.as_bytes();
    if crate::term::same_bytes(bytes, naive.as_slice()) {
        Some(Method::Naive)
    } else if crate::term::same_bytes(bytes, ascending.as_slice()) {
        Some(Method::Ascending)
    } else {
        None
    }
}

/// What the index gives for one query term: nothing where the dictionary
/// lacks the term, else the store's answer for the term's identifier.
#[derive(Clone, Debug, PartialEq, Eq)]
pub enum Fetched {
    /// The term is not in the dictionary.
    Unindexed,
    /// The store holds nothing under the term's identifier.
    Missing,
    /// The blob that the store holds under the term's identifier.
    Blob(Vec<u8>),
}

/// What evaluating a query gives.
#[derive(Clone, Debug, PartialEq, Eq)]
pub enum QueryOutcome {
    /// The query has no terms.
    EmptyQuery,
    /// None of the query's terms is in the dictionary.
    Unindexed,
    /// No document holds all terms of the query.
    NoResults,
    /// The documents that hold all terms, in ascending order, each with
    /// the frequencies of the terms in the order of the query.
    Matches(Vec<DocMatch>),
}

/// The fault of what was fetched for a term, if it has one: the store
/// lacks the term's postings, or holds a blob that is not a postings list.
pub open spec fn fault_of(f: Fetched) -> Option<IndexError> {
    match f {
        Fetched::Unindexed => None,
        Fetched::Missing => Some(IndexError::MissingPostings),
        Fetched::Blob(blob) => if blob@.len() % 24 != 0 {
            Some(IndexError::CorruptBlob)
        } else if !postings_sorted(postings_in(blob@)) {
            Some(IndexError::CorruptBlob)
        } else {
            None
        },
    }
}

/// The postings that a blob packs.
pub open spec fn postings_in(blob: Seq<u8>) -> Seq<Posting> {
    choose|p: Seq<Posting>| blob_of(p) == blob
}

/// The postings of a term, given what was fetched for it: none for a term
/// that is not in the dictionary.
pub open spec fn postings_of(f: Fetched) -> Seq<Posting> {
    match f {
        Fetched::Blob(blob) => postings_in(blob@),
        _ => Seq::empty(),
    }
}

/// The first fault among what was fetched, if any.
pub open spec fn first_fault(fetched: Seq<Fetched>) -> Option<IndexError>
    decreases fetched.len(),
{
    if fetched.len() == 0 {
        None
    } else {
        match first_fault(fetched.drop_last()) {
            Some(e) => Some(e),
            None => fault_of(fetched.last()),
        }
    }
}

/// None of the terms is in the dictionary.
pub open spec fn none_indexed(fetched: Seq<Fetched>) -> bool {
    forall|i: int| 0 <= i < fetched.len() ==> (#[trigger] fetched[i]) is Unindexed
}

/// `lists` gives the document frequencies of each term.
pub open spec fn are_term_lists(lists: Seq<Seq<DocTf>>, fetched: Seq<Fetched>) -> bool {
    &&& lists.len() == fetched.len()
    &&& forall|i: int|
        0 <= i < lists.len() ==> is_doc_frequencies(#[trigger] lists[i], postings_of(fetched[i]))
}

/// The document frequencies of one query term.
pub fn term_list(fetched: &Fetched) -> (r: Result<Vec<DocTf>, IndexError>)
    ensures
        match fault_of(*fetched) {
            Some(e) => r == Err::<Vec<DocTf>, IndexError>(e),
            None => r is Ok && is_doc_frequencies(r->Ok_0@, postings_of(*fetched))
                && r->Ok_0@.len() <= postings_of(*fetched).len(),
        },
        r is Ok ==> 24 * r->Ok_0@.len() <= match *fetched {
            Fetched::Blob(blob) => blob@.len(),
            _ => 0,
        },
{
    match fetched {
        Fetched::Unindexed => {
            let list: Vec<DocTf> = Vec::new();
            assert(is_doc_frequencies(list@, Seq::<Posting>::empty()));
            Ok(list)
        },
        Fetched::Missing => Err(IndexError::MissingPostings),
        Fetched::Blob(blob) => {
            let postings = match decode_postings(blob.as_slice()) {
                Ok(postings) => postings,
                Err(e) => {
                    return Err(e);
                },
            };
            proof {
                let chosen = postings_in(blob@);
                assert(blob_of(postings@) == blob@);
                crate::posting::lemma_blob_injective(chosen, postings@);
                lemma_blob_len(postings@);
            }
            if !is_postings_list(&postings) {
                return Err(IndexError::CorruptBlob);
            }
            proof {
                assert forall|i: int, j: int| 0 <= i < j < postings@.len() implies postings@[i].doc_id
                    <= postings@[j].doc_id by {
                    assert(postings@[i].lt(&postings@[j]));
                }
            }
            Ok(doc_term_frequencies(&postings))
        },
    }
}

/// Whether every list is a document list: strictly ascending by document.
pub fn are_document_lists(lists: &Vec<Vec<DocTf>>) -> (b: bool)
    ensures
        b == all_ascending(lists_view(lists@)),
{
    let ghost lv = lists_view(lists@);
    let mut k: usize = 0;
    while k < lists.len()
        invariant
            k <= lists.len(),
            lv == lists_view(lists@),
            forall|x: int| 0 <= x < k ==> docs_ascending(#[trigger] lv[x]),
        decreases lists.len() - k,
    {
        if !is_ascending_by_doc(&lists[k]) {
            assert(!docs_ascending(lv[k as int]));
            return false;
        }
        k += 1;
    }
    true
}

/// Evaluates a query from what the index gave for each of its terms.
///
/// A fault in what was fetched is reported, the first one first. A query
/// without terms is empty; one whose terms are all missing from the
/// dictionary is unindexed. Otherwise the terms' documents are intersected
/// by the given method: the documents that hold every term match, each with
/// the terms' frequencies in the order of the query, and where there is
/// none the query has no results. The comparisons made are counted.
pub fn evaluate_query(
    fetched: &Vec<Fetched>,
    method: Method,
    sort_compares: &mut u64,
    intersect_compares: &mut u64,
) -> (r: Result<QueryOutcome, IndexError>)
    ensures
        match first_fault(fetched@) {
            Some(e) => r == Err::<QueryOutcome, IndexError>(e),
            None => r is Ok && match r->Ok_0 {
                QueryOutcome::EmptyQuery => fetched.len() == 0,
                QueryOutcome::Unindexed => fetched.len() > 0 && none_indexed(fetched@),
                QueryOutcome::NoResults => fetched.len() > 0 && !none_indexed(fetched@)
                    && exists|lists: Seq<Seq<DocTf>>|
                    #![auto]
                    are_term_lists(lists, fetched@) && intersect_many_spec(lists).len() == 0
                        && counts_merges(
                        lists,
                        method,
                        *old(intersect_compares),
                        *final(intersect_compares),
                    ),
                QueryOutcome::Matches(docs) => fetched.len() > 0 && !none_indexed(fetched@)
                    && docs.len() > 0 && exists|lists: Seq<Seq<DocTf>>|
                    #![auto]
                    are_term_lists(lists, fetched@) && matches_view(docs@) == intersect_many_spec(
                        lists,
                    ) && is_intersection(matches_view(docs@), lists) && counts_merges(
                        lists,
                        method,
                        *old(intersect_compares),
                        *final(intersect_compares),
                    ),
            },
        },
        r is Err || r->Ok_0 is EmptyQuery || r->Ok_0 is Unindexed ==> *final(sort_compares) == *old(
            sort_compares,
        ) && *final(intersect_compares) == *old(intersect_compares),
        method == Method::Naive ==> *final(sort_compares) == *old(sort_compares),
{
    let n = fetched.len();
    let mut lists: Vec<Vec<DocTf>> = Vec::new();
    let mut any_indexed = false;
    let mut i: usize = 0;
    let ghost start = *intersect_compares;
    while i < n
        invariant
            i <= n,
            n == fetched.len(),
            lists.len() == i,
            start == *old(intersect_compares),
            *intersect_compares == start,
            *sort_compares == *old(sort_compares),
            first_fault(fetched@.take(i as int)) is None,
            any_indexed == !none_indexed(fetched@.take(i as int)),
            forall|x: int|
                0 <= x < i ==> is_doc_frequencies(#[trigger] lists@[x]@, postings_of(fetched@[x])),
        decreases n - i,
    {
        let ghost seen = fetched@.take(i as int);
        let ghost next = fetched@.take(i + 1);
        proof {
            assert(next.drop_last() =~= seen);
            assert(next.last() == fetched@[i as int]);
        }
        let list = match term_list(&fetched[i]) {
            Ok(list) => list,
            Err(e) => {
                proof {
                    lemma_first_fault_prefix(fetched@, i + 1);
                }
                return Err(e);
            },
        };
        let indexed = match &fetched[i] {
            Fetched::Unindexed => false,
            _ => true,
        };
        proof {
            if none_indexed(next) {
                assert forall|x: int| 0 <= x < seen.len() implies (#[trigger] seen[x]) is Unindexed by {
                    assert(next[x] == seen[x]);
                }
                assert(next[i as int] is Unindexed);
            }
            if none_indexed(seen) && !indexed {
                assert forall|x: int| 0 <= x < next.len() implies (#[trigger] next[x]) is Unindexed by {
                    if x < i {
                        assert(seen[x] == next[x]);
                    }
                }
            }
            if !none_indexed(seen) {
                let x = choose|x: int| 0 <= x < seen.len() && !((#[trigger] seen[x]) is Unindexed);
                assert(next[x] == seen[x]);
            }
        }
        any_indexed = any_indexed || indexed;
        lists.push(list);
        i += 1;
    }
    assert(fetched@.take(n as int) =~= fetched@);
    if n == 0 {
        return Ok(QueryOutcome::EmptyQuery);
    }
    if !any_indexed {
        return Ok(QueryOutcome::Unindexed);
    }
    let ghost lv = lists_view(lists@);
    proof {
        assert(are_term_lists(lv, fetched@));
        assert forall|k: int| 0 <= k < lv.len() implies docs_ascending(#[trigger] lv[k]) by {
            assert(is_doc_frequencies(lists@[k]@, postings_of(fetched@[k])));
        }
    }
    let docs = intersect_terms(&lists, method, sort_compares, intersect_compares);
    if docs.len() == 0 {
        Ok(QueryOutcome::NoResults)
    } else {
        Ok(QueryOutcome::Matches(docs))
    }
}

proof fn lemma_contains_push(s: Seq<Posting>, x: Posting, p: Posting)
    ensures
        s.push(x).contains(p) <==> (s.contains(p) || p == x),
{
    let t = s.push(x);
    if s.contains(p) {
        let k = choose|k: int| 0 <= k < s.len() && s[k] == p;
        assert(t[k] == p);
    }
    if p == x {
        assert(t[s.len() as int] == p);
    }
    if t.contains(p) {
        let k = choose|k: int| 0 <= k < t.len() && t[k] == p;
        if k < s.len() {
            assert(s[k] == p);
        }
    }
}

proof fn lemma_contains_take(s: Seq<Posting>, i: int, p: Posting)
    requires
        0 <= i < s.len(),
    ensures
        s.take(i + 1).contains(p) <==> (s.take(i).contains(p) || p == s[i]),
{
    assert(s.take(i + 1) =~= s.take(i).push(s[i]));
    lemma_contains_push(s.take(i), s[i], p);
}

/// `r` holds, in strictly ascending order, the postings of `a` and of `b`.
pub open spec fn is_union(r: Seq<Posting>, a: Seq<Posting>, b: Seq<Posting>) -> bool {
    &&& postings_sorted(r)
    &&& forall|p: Posting| #[trigger] r.contains(p) <==> (a.contains(p) || b.contains(p))
}

/// The union of two postings lists.
pub fn union_postings(a: &Vec<Posting>, b: &Vec<Posting>) -> (r: Vec<Posting>)
    requires
        postings_sorted(a@),
        postings_sorted(b@),
    ensures
        is_union(r@, a@, b@),
{
    let mut out: Vec<Posting> = Vec::new();
    let mut i: usize = 0;
    let mut j: usize = 0;
    proof {
        assert forall|p: Posting| #[trigger] out@.contains(p) <==> (a@.take(0).contains(p)
            || b@.take(0).contains(p)) by {}
    }
    while i < a.len() || j < b.len()
        invariant
            i <= a.len(),
            j <= b.len(),
            postings_sorted(a@),
            postings_sorted(b@),
            postings_sorted(out@),
            forall|p: Posting| #[trigger]
                out@.contains(p) <==> (a@.take(i as int).contains(p) || b@.take(j as int).contains(
                    p,
                )),
            forall|k: int|
                0 <= k < out.len() && i < a.len() ==> (#[trigger] out@[k]).lt(&a@[i as int]),
            forall|k: int|
                0 <= k < out.len() && j < b.len() ==> (#[trigger] out@[k]).lt(&b@[j as int]),
        decreases (a.len() - i) + (b.len() - j),
    {
        let ghost before = out@;
        let take_a = j >= b.len() || (i < a.len() && a[i].less_than(&b[j]));
        let take_b = !take_a && (i >= a.len() || b[j].less_than(&a[i]));
        let x = if take_b {
            b[j]
        } else {
            a[i]
        };
        out.push(x);
        proof {
            assert forall|u: int, v: int| 0 <= u < v < out@.len() implies #[trigger] out@[u].lt(
                &out@[v],
            ) by {
                if v < before.len() {
                    assert(before[u].lt(&before[v]));
                } else {
                    assert(out@[u] == before[u]);
                }
            }
            assert forall|p: Posting| #[trigger] out@.contains(p) <==> (before.contains(p) || p
                == x) by {
                lemma_contains_push(before, x, p);
            }
        }
        let ghost (i0, j0) = (i as int, j as int);
        if take_a {
            i += 1;
        } else if take_b {
            j += 1;
        } else {
            assert(a@[i0] == b@[j0]);
            i += 1;
            j += 1;
        }
        proof {
            assert forall|p: Posting| #[trigger]
                out@.contains(p) <==> (a@.take(i as int).contains(p) || b@.take(j as int).contains(
                    p,
                )) by {
                if i > i0 {
                    lemma_contains_take(a@, i0, p);
                }
                if j > j0 {
                    lemma_contains_take(b@, j0, p);
                }
            }
            assert forall|k: int| 0 <= k < out.len() && i < a.len() implies (#[trigger] out@[k]).lt(
                &a@[i as int],
            ) by {
                if i > i0 {
                    assert(a@[i0].lt(&a@[i as int]));
                }
                if k < before.len() {
                    assert(out@[k] == before[k]);
                    if i0 < a.len() {
                        assert(before[k].lt(&a@[i0]));
                    }
                }
            }
            assert forall|k: int| 0 <= k < out.len() && j < b.len() implies (#[trigger] out@[k]).lt(
                &b@[j as int],
            ) by {
                if j > j0 {
                    assert(b@[j0].lt(&b@[j as int]));
                }
                if k < before.len() {
                    assert(out@[k] == before[k]);
                    if j0 < b.len() {
                        assert(before[k].lt(&b@[j0]));
                    }
                }
            }
        }
    }
    proof {
        assert(a@.take(i as int) =~= a@);
        assert(b@.take(j as int) =~= b@);
    }
    out
}

/// Two postings lists that hold the same postings are the same list.
pub proof fn lemma_same_postings(a: Seq<Posting>, b: Seq<Posting>)
    requires
        postings_sorted(a),
        postings_sorted(b),
        forall|p: Posting|
            #![trigger a.contains(p)]
            #![trigger b.contains(p)]
            a.contains(p) <==> b.contains(p),
    ensures
        a == b,
    decreases a.len(),
{
    if a.len() == 0 {
        if b.len() > 0 {
            assert(b.contains(b[0]));
        }
        assert(a =~= b);
    } else {
        let la = a.len() - 1;
        assert(a.contains(a[la]));
        assert(b.contains(a[la]));
        let jb = choose|j: int| 0 <= j < b.len() && b[j] == a[la];
        let lb = b.len() - 1;
        assert(b.contains(b[lb]));
        let ia = choose|i: int| 0 <= i < a.len() && a[i] == b[lb];
        // Both last postings are the largest of the common set.
        if jb < lb {
            assert(b[jb].lt(&b[lb]));
        }
        if ia < la {
            assert(a[ia].lt(&a[la]));
        }
        assert(a[la] == b[lb]);
        let a0 = a.drop_last();
        let b0 = b.drop_last();
        assert forall|i: int, j: int| 0 <= i < j < a0.len() implies #[trigger] a0[i].lt(&a0[j]) by {
            assert(a[i].lt(&a[j]));
        }
        assert forall|i: int, j: int| 0 <= i < j < b0.len() implies #[trigger] b0[i].lt(&b0[j]) by {
            assert(b[i].lt(&b[j]));
        }
        assert forall|p: Posting|
            #![trigger a0.contains(p)]
            #![trigger b0.contains(p)]
            a0.contains(p) <==> b0.contains(p) by {
            if a0.contains(p) {
                let i = choose|i: int| 0 <= i < a0.len() && a0[i] == p;
                assert(a[i] == p);
                assert(a[i].lt(&a[la]));
                assert(a.contains(p));
                let j = choose|j: int| 0 <= j < b.len() && b[j] == p;
                assert(j < lb);
                assert(b0[j] == p);
            }
            if b0.contains(p) {
                let j = choose|j: int| 0 <= j < b0.len() && b0[j] == p;
                assert(b[j] == p);
                assert(b[j].lt(&b[lb]));
                assert(b.contains(p));
                let i = choose|i: int| 0 <= i < a.len() && a[i] == p;
                assert(i < la);
                assert(a0[i] == p);
            }
        }
        lemma_same_postings(a0, b0);
        assert(a =~= a0.push(a[la]));
        assert(b =~= b0.push(b[lb]));
    }
}

/// The posting is among the postings of one of the terms.
pub open spec fn in_some(fetched: Seq<Fetched>, p: Posting) -> bool {
    exists|k: int| 0 <= k < fetched.len() && (#[trigger] postings_of(fetched[k])).contains(p)
}

/// The postings of a query term that several terms of the dictionary stand
/// for: the union of the postings of those terms.
///
/// A fault in what was fetched is reported, the first one first. Otherwise
/// the result holds, in strictly ascending order, every posting of every
/// term.
pub fn corrected_postings(fetched: &Vec<Fetched>) -> (r: Result<Vec<Posting>, IndexError>)
    ensures
        match first_fault(fetched@) {
            Some(e) => r == Err::<Vec<Posting>, IndexError>(e),
            None => r is Ok && postings_sorted(r->Ok_0@) && forall|p: Posting| #[trigger]
                r->Ok_0@.contains(p) <==> in_some(fetched@, p),
        },
        first_fault(fetched@) is None && fetched.len() == 0 ==> r->Ok_0@ == Seq::<Posting>::empty(),
        first_fault(fetched@) is None && fetched.len() == 1 ==> r->Ok_0@ == postings_of(fetched@[0]),
{
    let mut all: Vec<Posting> = Vec::new();
    let mut i: usize = 0;
    proof {
        assert forall|p: Posting| #[trigger] all@.contains(p) <==> in_some(fetched@.take(0), p) by {}
    }
    while i < fetched.len()
        invariant
            i <= fetched.len(),
            first_fault(fetched@.take(i as int)) is None,
            postings_sorted(all@),
            forall|p: Posting| #[trigger] all@.contains(p) <==> in_some(fetched@.take(i as int), p),
        decreases fetched.len() - i,
    {
        let ghost seen = fetched@.take(i as int);
        let ghost next = fetched@.take(i + 1);
        proof {
            assert(next.drop_last() =~= seen);
            assert(next.last() == fetched@[i as int]);
        }
        let postings: Vec<Posting> = match &fetched[i] {
            Fetched::Unindexed => Vec::new(),
            Fetched::Missing => {
                proof {
                    lemma_first_fault_prefix(fetched@, i + 1);
                }
                return Err(IndexError::MissingPostings);
            },
            Fetched::Blob(blob) => {
                let postings = match decode_postings(blob.as_slice()) {
                    Ok(postings) => postings,
                    Err(e) => {
                        proof {
                            lemma_first_fault_prefix(fetched@, i + 1);
                        }
                        return Err(e);
                    },
                };
                proof {
                    crate::posting::lemma_blob_injective(postings_in(blob@), postings@);
                }
                if !is_postings_list(&postings) {
                    proof {
                        lemma_first_fault_prefix(fetched@, i + 1);
                    }
                    return Err(IndexError::CorruptBlob);
                }
                postings
            },
        };
        assert(postings@ =~= postings_of(fetched@[i as int]));
        let ghost before = all@;
        all = union_postings(&all, &postings);
        proof {
            assert forall|p: Posting| #[trigger] all@.contains(p) <==> in_some(next, p) by {
                if in_some(seen, p) {
                    let k = choose|k: int|
                        0 <= k < seen.len() && (#[trigger] postings_of(seen[k])).contains(p);
                    assert(next[k] == seen[k]);
                    assert(postings_of(next[k]).contains(p));
                }
                if postings@.contains(p) {
                    assert(postings_of(next[i as int]).contains(p));
                }
                if in_some(next, p) {
                    let k = choose|k: int|
                        0 <= k < next.len() && (#[trigger] postings_of(next[k])).contains(p);
                    if k < i {
                        assert(seen[k] == next[k]);
                        assert(postings_of(seen[k]).contains(p));
                    }
                }
                assert(before.contains(p) <==> in_some(seen, p));
            }
        }
        i += 1;
    }
    proof {
        assert(fetched@.take(i as int) =~= fetched@);
        if fetched.len() == 0 && all@.len() > 0 {
            assert(all@.contains(all@[0]));
        }
        if fetched.len() == 1 {
            let only = postings_of(fetched@[0]);
            assert(fetched@.take(1).drop_last() =~= Seq::<Fetched>::empty());
            assert(fault_of(fetched@[0]) is None);
            assert(postings_sorted(only)) by {
                match fetched@[0] {
                    Fetched::Blob(blob) => {},
                    _ => {},
                }
            }
            assert forall|p: Posting|
                #![trigger all@.contains(p)]
                #![trigger only.contains(p)]
                all@.contains(p) <==> only.contains(p) by {
                if in_some(fetched@, p) {
                    let k = choose|k: int|
                        0 <= k < fetched@.len() && (#[trigger] postings_of(fetched@[k])).contains(p);
                }
                if only.contains(p) {
                    assert(postings_of(fetched@[0]).contains(p));
                }
            }
            lemma_same_postings(all@, only);
        }
    }
    Ok(all)
}

/// Every list is empty.
pub open spec fn all_empty(lists: Seq<Seq<DocTf>>) -> bool {
    forall|k: int| 0 <= k < lists.len() ==> (#[trigger] lists[k]).len() == 0
}

/// Evaluates a query from the document lists of its terms.
///
/// A query without terms is empty; one whose terms all have no documents
/// is unindexed. Otherwise the lists are intersected by the given method:
/// the documents that hold every term match, each with the terms'
/// frequencies in the order of the query, and where there is none the
/// query has no results. The comparisons made are counted.
pub fn evaluate_lists(
    lists: &Vec<Vec<DocTf>>,
    method: Method,
    sort_compares: &mut u64,
    intersect_compares: &mut u64,
) -> (r: QueryOutcome)
    requires
        all_ascending(lists_view(lists@)),
    ensures
        match r {
            QueryOutcome::EmptyQuery => lists.len() == 0,
            QueryOutcome::Unindexed => lists.len() > 0 && all_empty(lists_view(lists@)),
            QueryOutcome::NoResults => lists.len() > 0 && !all_empty(lists_view(lists@))
                && intersect_many_spec(lists_view(lists@)).len() == 0 && counts_merges(
                lists_view(lists@),
                method,
                *old(intersect_compares),
                *final(intersect_compares),
            ),
            QueryOutcome::Matches(docs) => lists.len() > 0 && !all_empty(lists_view(lists@))
                && docs.len() > 0 && matches_view(docs@) == intersect_many_spec(
                lists_view(lists@),
            ) && is_intersection(matches_view(docs@), lists_view(lists@)) && counts_merges(
                lists_view(lists@),
                method,
                *old(intersect_compares),
                *final(intersect_compares),
            ),
        },
        r is EmptyQuery || r is Unindexed ==> *final(sort_compares) == *old(sort_compares)
            && *final(intersect_compares) == *old(intersect_compares),
        method == Method::Naive ==> *final(sort_compares) == *old(sort_compares),
{
    if lists.len() == 0 {
        return QueryOutcome::EmptyQuery;
    }
    let ghost lv = lists_view(lists@);
    let mut any = false;
    let mut k: usize = 0;
    while k < lists.len()
        invariant
            k <= lists.len(),
            lv == lists_view(lists@),
            any == exists|x: int| 0 <= x < k && (#[trigger] lv[x]).len() > 0,
        decreases lists.len() - k,
    {
        if lists[k].len() > 0 {
            assert(lv[k as int].len() > 0);
            any = true;
        }
        k += 1;
    }
    if !any {
        return QueryOutcome::Unindexed;
    }
    proof {
        let x = choose|x: int| 0 <= x < lv.len() && (#[trigger] lv[x]).len() > 0;
        assert(!all_empty(lv));
    }
    let docs = intersect_terms(lists, method, sort_compares, intersect_compares);
    if docs.len() == 0 {
        QueryOutcome::NoResults
    } else {
        QueryOutcome::Matches(docs)
    }
}

/// A fault among the first terms is the first fault among all.
pub proof fn lemma_first_fault_prefix(fetched: Seq<Fetched>, k: int)
    requires
        0 <= k <= fetched.len(),
        first_fault(fetched.take(k)) is Some,
    ensures
        first_fault(fetched) == first_fault(fetched.take(k)),
    decreases fetched.len() - k,
{
    if k == fetched.len() {
        assert(fetched.take(k) =~= fetched);
    } else {
        assert(fetched.take(k + 1).drop_last() =~= fetched.take(k));
        lemma_first_fault_prefix(fetched, k + 1);
    }
}

} // verus!
