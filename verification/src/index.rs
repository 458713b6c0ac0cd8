//! Building the index: the term dictionary and the postings store.
//!
//! The builder reads a sorted preindex stream and gives the i-th distinct
//! term the identifier i. The dictionary maps each term to its identifier,
//! and the postings store holds, under each identifier, the blob of the
//! term's postings.

use crate::dictionary::{
    builder_entries, builder_finish, builder_insert, builder_new, fst_entries, has_key,
    key_index, keys_ascending, lemma_lookup_unique, lookup_spec,
};
use crate::error::BuildError;
use crate::group::{
    group_by_term, groups_view, has_group, is_grouping, lemma_term_postings_absent,
    lemma_term_postings_cover, lemma_term_postings_source, term_postings, terms_nondecreasing,
};
use crate::order::{is_ranked_ascending, ranked_ascending, Ranked};
use crate::posting::{
    blob_of, dedup_postings, distinct, encode_postings, lemma_distinct, postings_sorted, Posting,
};
use crate::preindex::{
    parse_stream, read_preindex, records_view, stream_sorted, Record, RecordView,
};
use crate::term::{bytes_le, bytes_lt, lemma_bytes_lt_irreflexive};
use vstd::prelude::*;

verus! {

/// A built index.
#[derive(Clone, Debug, PartialEq, Eq)]
pub struct Index {
    /// The bytes of the term dictionary.
    pub dictionary: Vec<u8>,
    /// The postings store: the blob of the postings list with identifier
    /// `i` stands at position `i`.
    pub postings: Vec<Vec<u8>>,
}

/// The mathematical value of a postings store.
pub open spec fn blobs_view(blobs: Seq<Vec<u8>>) -> Seq<Seq<u8>> {
    Seq::new(blobs.len(), |k: int| blobs[k]@)
}

/// The postings list of a term: its occurrences in the stream, each once.
pub open spec fn postings_list(s: Seq<RecordView>, term: Seq<u8>) -> Seq<Posting> {
    distinct(term_postings(s, term))
}

/// What the store holds under the identifier of `term`: the blob of the
/// term's postings list, which is not empty and strictly ascends.
pub open spec fn holds_postings(blob: Seq<u8>, s: Seq<RecordView>, term: Seq<u8>) -> bool {
    &&& blob == blob_of(postings_list(s, term))
    &&& postings_list(s, term).len() > 0
    &&& postings_sorted(postings_list(s, term))
}

/// The dictionary entries and the postings store index the stream: the
/// terms of the stream, in ascending order, are numbered from zero without
/// gaps, and under each number the store holds the term's postings.
pub open spec fn is_index_of(
    entries: Seq<(Seq<u8>, u64)>,
    blobs: Seq<Seq<u8>>,
    s: Seq<RecordView>,
) -> bool {
    &&& entries.len() == blobs.len()
    &&& keys_ascending(entries)
    &&& forall|k: int| 0 <= k < entries.len() ==> (#[trigger] entries[k]).1 == k
    &&& forall|k: int|
        0 <= k < entries.len() ==> holds_postings(#[trigger] blobs[k], s, entries[k].0)
    &&& forall|i: int| 0 <= i < s.len() ==> has_key(entries, (#[trigger] s[i]).term)
}

/// Two records of one term stand in the term's postings in their order in
/// the stream.
pub proof fn lemma_term_postings_order(s: Seq<RecordView>, i: int, j: int)
    requires
        0 <= i < j < s.len(),
        s[i].term == s[j].term,
    ensures
        exists|x: int, y: int|
            0 <= x < y < term_postings(s, s[i].term).len() && #[trigger] term_postings(
                s,
                s[i].term,
            )[x] == s[i].posting() && #[trigger] term_postings(s, s[i].term)[y] == s[j].posting(),
    decreases s.len(),
{
    let term = s[i].term;
    let front = s.drop_last();
    let rest = term_postings(front, term);
    let all = term_postings(s, term);
    if j == s.len() - 1 {
        assert(front[i] == s[i]);
        lemma_term_postings_cover(front, i);
        let x = choose|x: int| 0 <= x < rest.len() && rest[x] == s[i].posting();
        let y = rest.len() as int;
        assert(all[x] == s[i].posting() && all[y] == s[j].posting());
    } else {
        assert(front[i] == s[i] && front[j] == s[j]);
        lemma_term_postings_order(front, i, j);
        let (x, y) = choose|x: int, y: int|
            0 <= x < y < rest.len() && #[trigger] rest[x] == s[i].posting() && #[trigger] rest[y]
                == s[j].posting();
        assert(all[x] == s[i].posting() && all[y] == s[j].posting());
    }
}

/// In a stream that never descends the occurrences of each term never
/// descend.
pub proof fn lemma_term_postings_ranked(s: Seq<RecordView>, term: Seq<u8>)
    requires
        stream_sorted(s),
    ensures
        ranked_ascending(term_postings(s, term)),
    decreases s.len(),
{
    if s.len() > 0 {
        let front = s.drop_last();
        let rest = term_postings(front, term);
        let all = term_postings(s, term);
        assert forall|i: int, j: int| 0 <= i < j < front.len() implies #[trigger] front[i].le(
            front[j],
        ) by {
            assert(s[i].le(s[j]));
        }
        lemma_term_postings_ranked(front, term);
        assert forall|x: int, y: int| 0 <= x < y < all.len() implies #[trigger] all[x].before(
            &all[y],
        ) by {
            if y < rest.len() {
                assert(rest[x].before(&rest[y]));
            } else {
                lemma_term_postings_source(front, term, x);
                let i = choose|i: int|
                    0 <= i < front.len() && (#[trigger] front[i]).term == term
                        && front[i].posting() == rest[x];
                assert(s[i].le(s[s.len() - 1]));
                lemma_bytes_lt_irreflexive(s[i].term);
            }
        }
    }
}

/// A stream whose terms never descend and in which the occurrences of each
/// term never descend never descends.
pub proof fn lemma_stream_sorted_by_groups(s: Seq<RecordView>)
    requires
        terms_nondecreasing(s),
        forall|i: int| 0 <= i < s.len() ==> ranked_ascending(
            term_postings(s, (#[trigger] s[i]).term),
        ),
    ensures
        stream_sorted(s),
{
    assert forall|i: int, j: int| 0 <= i < j < s.len() implies #[trigger] s[i].le(s[j]) by {
        assert(bytes_le(s[i].term, s[j].term));
        if s[i].term == s[j].term {
            lemma_term_postings_order(s, i, j);
            let all = term_postings(s, s[i].term);
            let (x, y) = choose|x: int, y: int|
                0 <= x < y < all.len() && #[trigger] all[x] == s[i].posting() && #[trigger] all[y]
                    == s[j].posting();
            assert(all[x].before(&all[y]));
        }
    }
}

/// Builds the index of a sorted stream of records.
///
/// A stream that never descends is indexed: the dictionary numbers its
/// terms from zero in ascending order, and the store holds each term's
/// postings list under the term's number; a record that occurs more than
/// once counts once. Any other stream is out of order.
pub fn build_index(records: &Vec<Record>) -> (r: Result<Index, BuildError>)
    ensures
        r is Ok <==> stream_sorted(records_view(records@)),
        r is Err ==> r->Err_0 == BuildError::OutOfOrder,
        r is Ok ==> fst_entries(r->Ok_0.dictionary@) is Some && is_index_of(
            fst_entries(r->Ok_0.dictionary@)->Some_0,
            blobs_view(r->Ok_0.postings@),
            records_view(records@),
        ),
{
    let ghost s = records_view(records@);
    let groups = match group_by_term(records) {
        Some(groups) => groups,
        None => {
            proof {
                if stream_sorted(s) {
                    assert forall|i: int, j: int| 0 <= i < j < s.len() implies bytes_le(
                        s[i].term,
                        s[j].term,
                    ) by {
                        assert(s[i].le(s[j]));
                    }
                }
            }
            return Err(BuildError::OutOfOrder);
        },
    };
    let ghost gv = groups_view(groups@);
    let mut builder = builder_new();
    let mut blobs: Vec<Vec<u8>> = Vec::new();
    let mut k: usize = 0;
    while k < groups.len()
        invariant
            k <= groups.len(),
            gv == groups_view(groups@),
            s == records_view(records@),
            is_grouping(gv, s),
            builder_entries(builder).len() == k,
            blobs.len() == k,
            forall|x: int|
                0 <= x < k ==> (#[trigger] builder_entries(builder)[x]) == (gv[x].0, x as u64),
            forall|x: int| 0 <= x < k ==> holds_postings(#[trigger] blobs@[x]@, s, gv[x].0),
            forall|x: int| 0 <= x < k ==> ranked_ascending(term_postings(s, (#[trigger] gv[x]).0)),
        decreases groups.len() - k,
    {
        let ghost entries = builder_entries(builder);
        let group = &groups[k];
        assert(gv[k as int].1 == term_postings(s, gv[k as int].0));
        if !is_ranked_ascending(&group.postings) {
            proof {
                if stream_sorted(s) {
                    lemma_term_postings_ranked(s, gv[k as int].0);
                }
            }
            return Err(BuildError::OutOfOrder);
        }
        proof {
            lemma_distinct(group.postings@);
        }
        proof {
            if k > 0 {
                assert(entries[k - 1] == (gv[k - 1].0, (k - 1) as u64));
                assert(bytes_lt(gv[k - 1].0, gv[k as int].0));
            }
        }
        match builder_insert(&mut builder, group.term.as_slice(), k as u64) {
            Ok(()) => {},
            Err(_) => {
                assert(false);
                return Err(BuildError::OutOfOrder);
            },
        }
        let blob = encode_postings(&dedup_postings(&group.postings));
        blobs.push(blob);
        proof {
            assert forall|x: int| 0 <= x < k + 1 implies (#[trigger] builder_entries(builder)[x])
                == (gv[x].0, x as u64) by {
                if x < k {
                    assert(entries[x] == (gv[x].0, x as u64));
                }
            }
        }
        k += 1;
    }
    let ghost entries = builder_entries(builder);
    let dictionary = match builder_finish(builder) {
        Ok(bytes) => bytes,
        Err(_) => {
            assert(false);
            return Err(BuildError::OutOfOrder);
        },
    };
    proof {
        let bv = blobs_view(blobs@);
        assert forall|a: int, b: int| 0 <= a < b < entries.len() implies bytes_lt(
            entries[a].0,
            entries[b].0,
        ) by {
            assert(entries[a] == (gv[a].0, a as u64));
            assert(entries[b] == (gv[b].0, b as u64));
            assert(bytes_lt(gv[a].0, gv[b].0));
        }
        assert forall|x: int| 0 <= x < entries.len() implies holds_postings(
            #[trigger] bv[x],
            s,
            entries[x].0,
        ) by {
            assert(entries[x] == (gv[x].0, x as u64));
            assert(holds_postings(blobs@[x]@, s, gv[x].0));
        }
        assert forall|i: int| 0 <= i < s.len() implies has_key(entries, (#[trigger] s[i]).term) by {
            assert(has_group(gv, s[i].term));
            let x = choose|x: int| 0 <= x < gv.len() && (#[trigger] gv[x]).0 == s[i].term;
            assert(entries[x] == (gv[x].0, x as u64));
        }
        assert forall|x: int| 0 <= x < entries.len() implies (#[trigger] entries[x]).1 == x by {
            assert(entries[x] == (gv[x].0, x as u64));
        }
        assert forall|i: int| 0 <= i < s.len() implies ranked_ascending(
            term_postings(s, (#[trigger] s[i]).term),
        ) by {
            assert(has_group(gv, s[i].term));
            let x = choose|x: int| 0 <= x < gv.len() && (#[trigger] gv[x]).0 == s[i].term;
            assert(ranked_ascending(term_postings(s, gv[x].0)));
        }
        lemma_stream_sorted_by_groups(s);
    }
    Ok(Index { dictionary, postings: blobs })
}

/// Builds the index of a preindex stream.
///
/// A stream that cannot be read gives the reader's fault. A stream that
/// can is indexed as its records are.
pub fn fstindex(preindex: Vec<u8>) -> (r: Result<Index, BuildError>)
    ensures
        match parse_stream(preindex@) {
            Err(e) => r is Err && r->Err_0 == BuildError::Preindex(e),
            Ok(s) => {
                &&& r is Ok <==> stream_sorted(s)
                &&& r is Err ==> r->Err_0 == BuildError::OutOfOrder
                &&& r is Ok ==> fst_entries(r->Ok_0.dictionary@) is Some && is_index_of(
                    fst_entries(r->Ok_0.dictionary@)->Some_0,
                    blobs_view(r->Ok_0.postings@),
                    s,
                )
            },
        },
{
    match read_preindex(preindex) {
        Err(e) => Err(BuildError::Preindex(e)),
        Ok(records) => build_index(&records),
    }
}

/// Every numbered term is in the dictionary under its number, and the store
/// holds its postings: the numbering has no gaps.
pub proof fn lemma_index_dense(
    entries: Seq<(Seq<u8>, u64)>,
    blobs: Seq<Seq<u8>>,
    s: Seq<RecordView>,
    k: int,
)
    requires
        is_index_of(entries, blobs, s),
        0 <= k < blobs.len(),
    ensures
        lookup_spec(entries, entries[k].0) == Some(k as u64),
        holds_postings(blobs[k], s, entries[k].0),
{
    lemma_lookup_unique(entries, k);
}

/// Looking up the term of any record of the stream gives a number under
/// which the store holds a postings list that includes the record's
/// occurrence.
pub proof fn lemma_index_lookup(
    entries: Seq<(Seq<u8>, u64)>,
    blobs: Seq<Seq<u8>>,
    s: Seq<RecordView>,
    i: int,
)
    requires
        stream_sorted(s),
        is_index_of(entries, blobs, s),
        0 <= i < s.len(),
    ensures
        lookup_spec(entries, s[i].term) is Some,
        0 <= lookup_spec(entries, s[i].term)->Some_0 < blobs.len(),
        holds_postings(blobs[lookup_spec(entries, s[i].term)->Some_0 as int], s, s[i].term),
        postings_list(s, s[i].term).contains(s[i].posting()),
{
    assert(has_key(entries, s[i].term));
    let k = key_index(entries, s[i].term);
    lemma_lookup_unique(entries, k);
    assert(entries[k].1 == k);
    assert(holds_postings(blobs[k], s, entries[k].0));
    lemma_term_postings_cover(s, i);
    lemma_term_postings_ranked(s, s[i].term);
    lemma_distinct(term_postings(s, s[i].term));
}

/// The dictionary holds the terms of the stream and no others: a byte
/// string that is the term of no record is not in it.
pub proof fn lemma_index_only_terms(
    entries: Seq<(Seq<u8>, u64)>,
    blobs: Seq<Seq<u8>>,
    s: Seq<RecordView>,
    term: Seq<u8>,
)
    requires
        is_index_of(entries, blobs, s),
        forall|i: int| 0 <= i < s.len() ==> (#[trigger] s[i]).term != term,
    ensures
        lookup_spec(entries, term) is None,
{
    if has_key(entries, term) {
        let k = key_index(entries, term);
        assert(holds_postings(blobs[k], s, entries[k].0));
        lemma_term_postings_absent(s, term);
        assert(distinct(term_postings(s, term)).len() == 0);
    }
}

/// A term that occurs once has that one occurrence as its postings list.
pub proof fn lemma_single_occurrence(
    entries: Seq<(Seq<u8>, u64)>,
    blobs: Seq<Seq<u8>>,
    s: Seq<RecordView>,
    i: int,
)
    requires
        stream_sorted(s),
        is_index_of(entries, blobs, s),
        0 <= i < s.len(),
        forall|j: int| 0 <= j < s.len() && j != i ==> (#[trigger] s[j]).term != s[i].term,
    ensures
        lookup_spec(entries, s[i].term) is Some,
        0 <= lookup_spec(entries, s[i].term)->Some_0 < blobs.len(),
        blobs[lookup_spec(entries, s[i].term)->Some_0 as int] == blob_of(seq![s[i].posting()]),
{
    lemma_index_lookup(entries, blobs, s, i);
    let list = postings_list(s, s[i].term);
    let all = term_postings(s, s[i].term);
    lemma_term_postings_ranked(s, s[i].term);
    lemma_distinct(all);
    assert forall|x: int| 0 <= x < list.len() implies #[trigger] list[x] == s[i].posting() by {
        assert(list.contains(list[x]));
        assert(all.contains(list[x]));
        let y = choose|y: int| 0 <= y < all.len() && all[y] == list[x];
        lemma_term_postings_source(s, s[i].term, y);
    }
    if list.len() > 1 {
        assert(list[0].lt(&list[1]));
    }
    assert(list =~= seq![s[i].posting()]);
}

/// Whatever was emitted during ingestion is found again: where the index
/// was built from the sorted form of the emitted records, looking up the
/// term of any emitted record gives a number under which the store holds
/// a postings list that includes the record's occurrence.
pub proof fn lemma_index_covers(
    entries: Seq<(Seq<u8>, u64)>,
    blobs: Seq<Seq<u8>>,
    sorted: Seq<RecordView>,
    emitted: Seq<RecordView>,
    i: int,
)
    requires
        stream_sorted(sorted),
        is_index_of(entries, blobs, sorted),
        sorted.to_multiset() == emitted.to_multiset(),
        0 <= i < emitted.len(),
    ensures
        lookup_spec(entries, emitted[i].term) is Some,
        0 <= lookup_spec(entries, emitted[i].term)->Some_0 < blobs.len(),
        holds_postings(
            blobs[lookup_spec(entries, emitted[i].term)->Some_0 as int],
            sorted,
            emitted[i].term,
        ),
        postings_list(sorted, emitted[i].term).contains(emitted[i].posting()),
{
    sorted.to_multiset_ensures();
    emitted.to_multiset_ensures();
    assert(emitted.contains(emitted[i]));
    assert(emitted.to_multiset().count(emitted[i]) > 0);
    assert(sorted.contains(emitted[i]));
    let j = choose|j: int| 0 <= j < sorted.len() && sorted[j] == emitted[i];
    lemma_index_lookup(entries, blobs, sorted, j);
}

} // verus!
