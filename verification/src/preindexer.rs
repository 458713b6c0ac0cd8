//! The preindexer: from the subtitles of a collection to the sorted stream
//! of term occurrences and the term frequencies.

use crate::dictionary::{has_key, keys_ascending};
use crate::group::{
    group_by_term, groups_view, has_group, is_grouping, term_postings, terms_nondecreasing,
};
use crate::ingest::{ingest_document, read_document, seen_before, Event, Token, TokenView};
use crate::norms::{document_norms, norm_of};
use crate::order::{lemma_mapped_multiset, mapped, ranked_ascending, sort_ranked, Ranked};
use crate::preindex::{records_view, stream_of, stream_sorted, write_preindex, Record, RecordView};
use crate::term::{bytes_le, copy_bytes, same_bytes};
use crate::text::pieces_view;
use std::collections::HashSet;
use vstd::prelude::*;

verus! {

broadcast use vstd::std_specs::hash::group_hash_axioms;

/// The parser events of one subtitle, with the document it belongs to.
#[derive(Clone, Debug, PartialEq, Eq)]
pub struct Document {
    pub doc_id: u64,
    pub events: Vec<Event>,
}

/// How often a term occurs in the collection.
#[derive(Clone, Debug, PartialEq, Eq)]
pub struct TermCount {
    pub term: Vec<u8>,
    pub count: u64,
}

/// The mathematical values of term counts.
pub open spec fn counts_view(v: Seq<TermCount>) -> Seq<(Seq<u8>, u64)> {
    Seq::new(v.len(), |k: int| (v[k].term@, v[k].count))
}

/// Whether the term is a stopword.
pub fn is_stopword(stopwords: &Vec<Vec<u8>>, term: &[u8]) -> (b: bool)
    ensures
        b == pieces_view(stopwords@).contains(term@),
{
    let ghost stop = pieces_view(stopwords@);
    let mut k: usize = 0;
    while k < stopwords.len()
        invariant
            k <= stopwords.len(),
            stop == pieces_view(stopwords@),
            forall|i: int| 0 <= i < k ==> stop[i] != term@,
        decreases stopwords.len() - k,
    {
        if same_bytes(stopwords[k].as_slice(), term) {
            assert(stop[k as int] == term@);
            return true;
        }
        k += 1;
    }
    false
}

/// The records of one document: its occurrences of terms that are not
/// stopwords, in their order.
pub open spec fn records_of(doc_id: u64, tokens: Seq<TokenView>, stop: Seq<Seq<u8>>) -> Seq<
    RecordView,
>
    decreases tokens.len(),
{
    if tokens.len() == 0 {
        Seq::empty()
    } else {
        let rest = records_of(doc_id, tokens.drop_last(), stop);
        let t = tokens.last();
        if stop.contains(t.term) {
            rest
        } else {
            rest.push(
                RecordView { term: t.term, doc_id, sent_id: t.sent_id, word_id: t.word_id },
            )
        }
    }
}

/// The records that one subtitle adds to the collection: none where the
/// subtitle is skipped.
pub open spec fn document_records(doc: Document, stop: Seq<Seq<u8>>, lowercase: bool) -> Seq<
    RecordView,
> {
    match read_document(doc.events@, lowercase) {
        Some(tokens) => records_of(doc.doc_id, tokens, stop),
        None => Seq::empty(),
    }
}

/// The documents that the subtitles belong to.
pub open spec fn doc_ids(docs: Seq<Document>) -> Seq<u64> {
    Seq::new(docs.len(), |i: int| docs[i].doc_id)
}

/// The records of all subtitles, in the order of the subtitles. Of the
/// subtitles of one document only the first counts, whether it is kept or
/// skipped.
pub open spec fn collected(docs: Seq<Document>, stop: Seq<Seq<u8>>, lowercase: bool) -> Seq<
    RecordView,
>
    decreases docs.len(),
{
    if docs.len() == 0 {
        Seq::empty()
    } else if seen_before(doc_ids(docs), docs.len() - 1) {
        collected(docs.drop_last(), stop, lowercase)
    } else {
        collected(docs.drop_last(), stop, lowercase) + document_records(
            docs.last(),
            stop,
            lowercase,
        )
    }
}

/// `counts` gives, for each term of the stream and in ascending order of
/// term, the number of its occurrences.
pub open spec fn is_term_counts(counts: Seq<(Seq<u8>, u64)>, s: Seq<RecordView>) -> bool {
    &&& keys_ascending(counts)
    &&& forall|k: int|
        0 <= k < counts.len() ==> (#[trigger] counts[k]).1 > 0 && counts[k].1 == term_postings(
            s,
            counts[k].0,
        ).len()
    &&& forall|i: int| 0 <= i < s.len() ==> has_key(counts, (#[trigger] s[i]).term)
}

/// A term has no more occurrences than the stream has records.
pub proof fn lemma_term_postings_len(s: Seq<RecordView>, term: Seq<u8>)
    ensures
        term_postings(s, term).len() <= s.len(),
    decreases s.len(),
{
    if s.len() > 0 {
        lemma_term_postings_len(s.drop_last(), term);
    }
}

/// The number of occurrences of each term of a sorted stream.
pub fn term_frequencies(records: &Vec<Record>) -> (counts: Vec<TermCount>)
    requires
        terms_nondecreasing(records_view(records@)),
    ensures
        is_term_counts(counts_view(counts@), records_view(records@)),
{
    let ghost s = records_view(records@);
    let groups = match group_by_term(records) {
        Some(groups) => groups,
        None => {
            assert(false);
            Vec::new()
        },
    };
    let ghost gv = groups_view(groups@);
    let mut counts: Vec<TermCount> = Vec::new();
    let mut k: usize = 0;
    assert(s.len() == records.len());
    while k < groups.len()
        invariant
            k <= groups.len(),
            gv == groups_view(groups@),
            s == records_view(records@),
            s.len() <= usize::MAX,
            is_grouping(gv, s),
            counts.len() == k,
            forall|x: int|
                0 <= x < k ==> (#[trigger] counts_view(counts@)[x]) == (
                    gv[x].0,
                    gv[x].1.len() as u64,
                ),
        decreases groups.len() - k,
    {
        let group = &groups[k];
        let ghost before = counts_view(counts@);
        proof {
            assert(gv[k as int].1 == term_postings(s, gv[k as int].0));
            lemma_term_postings_len(s, gv[k as int].0);
        }
        counts.push(
            TermCount {
                term: copy_bytes(group.term.as_slice()),
                count: group.postings.len() as u64,
            },
        );
        proof {
            assert forall|x: int| 0 <= x < k + 1 implies (#[trigger] counts_view(counts@)[x]) == (
                gv[x].0,
                gv[x].1.len() as u64,
            ) by {
                if x < k {
                    assert(counts_view(counts@)[x] == before[x]);
                }
            }
        }
        k += 1;
    }
    proof {
        let cv = counts_view(counts@);
        assert forall|a: int, b: int| 0 <= a < b < cv.len() implies crate::term::bytes_lt(
            cv[a].0,
            cv[b].0,
        ) by {
            assert(cv[a] == (gv[a].0, gv[a].1.len() as u64));
            assert(cv[b] == (gv[b].0, gv[b].1.len() as u64));
        }
        assert forall|x: int| 0 <= x < cv.len() implies (#[trigger] cv[x]).1 > 0 && cv[x].1
            == term_postings(s, cv[x].0).len() by {
            assert(cv[x] == (gv[x].0, gv[x].1.len() as u64));
            assert(gv[x].1.len() > 0 && gv[x].1 == term_postings(s, gv[x].0));
            lemma_term_postings_len(s, gv[x].0);
        }
        assert forall|i: int| 0 <= i < s.len() implies has_key(cv, (#[trigger] s[i]).term) by {
            assert(has_group(gv, s[i].term));
            let x = choose|x: int| 0 <= x < gv.len() && (#[trigger] gv[x]).0 == s[i].term;
            assert(cv[x] == (gv[x].0, gv[x].1.len() as u64));
        }
    }
    counts
}

/// Appends to `out` the records of one document's tokens.
pub fn push_records(out: &mut Vec<Record>, doc_id: u64, tokens: &Vec<Token>, stopwords: &Vec<Vec<u8>>)
    ensures
        records_view(final(out)@) == records_view(old(out)@) + records_of(
            doc_id,
            crate::ingest::tokens_view(tokens@),
            pieces_view(stopwords@),
        ),
{
    let ghost base = records_view(out@);
    let ghost tv = crate::ingest::tokens_view(tokens@);
    let ghost stop = pieces_view(stopwords@);
    let mut i: usize = 0;
    assert(base + records_of(doc_id, tv.take(0), stop) =~= base);
    while i < tokens.len()
        invariant
            i <= tokens.len(),
            base == records_view(old(out)@),
            tv == crate::ingest::tokens_view(tokens@),
            stop == pieces_view(stopwords@),
            records_view(out@) == base + records_of(doc_id, tv.take(i as int), stop),
        decreases tokens.len() - i,
    {
        let token = &tokens[i];
        let ghost before = records_view(out@);
        proof {
            assert(tv.take(i + 1).drop_last() =~= tv.take(i as int));
            assert(tv.take(i + 1).last() == token@);
        }
        if !is_stopword(stopwords, token.term.as_slice()) {
            let record = Record {
                term: copy_bytes(token.term.as_slice()),
                doc_id,
                sent_id: token.sent_id,
                word_id: token.word_id,
            };
            out.push(record);
            assert(records_view(out@) =~= before.push(record@));
            assert(records_view(out@) =~= base + records_of(doc_id, tv.take(i + 1), stop));
        }
        i += 1;
    }
    assert(tv.take(i as int) =~= tv);
}

/// Sequences of records that hold the same records as often hold the same
/// values as often.
pub proof fn lemma_view_multiset(a: Seq<Record>, b: Seq<Record>)
    requires
        a.to_multiset() == b.to_multiset(),
    ensures
        records_view(a).to_multiset() == records_view(b).to_multiset(),
{
    let f = |r: Record| r@;
    lemma_mapped_multiset(a, b, f);
    assert(records_view(a) =~= mapped(a, f));
    assert(records_view(b) =~= mapped(b, f));
}

/// A ranked-ascending vector of records is a sorted stream.
pub proof fn lemma_ranked_is_sorted(v: Seq<Record>)
    requires
        ranked_ascending(v),
    ensures
        stream_sorted(records_view(v)),
        terms_nondecreasing(records_view(v)),
{
    let s = records_view(v);
    assert forall|i: int, j: int| 0 <= i < j < s.len() implies #[trigger] s[i].le(s[j]) by {
        assert(v[i].before(&v[j]));
    }
    assert forall|i: int, j: int| 0 <= i < j < s.len() implies bytes_le(s[i].term, s[j].term) by {
        assert(s[i].le(s[j]));
    }
}

/// The documents of the subtitles that are kept, in the order of the
/// subtitles: those whose subtitle is the first of its document and is not
/// skipped.
pub open spec fn kept_documents(docs: Seq<Document>, lowercase: bool) -> Seq<u64>
    decreases docs.len(),
{
    if docs.len() == 0 {
        Seq::empty()
    } else {
        let rest = kept_documents(docs.drop_last(), lowercase);
        if !seen_before(doc_ids(docs), docs.len() - 1) && read_document(
            docs.last().events@,
            lowercase,
        ) is Some {
            rest.push(docs.last().doc_id)
        } else {
            rest
        }
    }
}

/// Sorts records by term, document, sentence and word. The comparisons that
/// sorting takes are counted in `comparisons`.
pub fn sort_records(records: Vec<Record>, comparisons: &mut u64) -> (r: Vec<Record>)
    ensures
        records_view(r@).to_multiset() == records_view(records@).to_multiset(),
        stream_sorted(records_view(r@)),
{
    let ghost given = records@;
    let r = sort_ranked(records, comparisons);
    proof {
        lemma_view_multiset(r@, given);
        lemma_ranked_is_sorted(r@);
    }
    r
}

/// What preindexing a collection gives.
#[derive(Clone, Debug, PartialEq, Eq)]
pub struct Preindexed {
    /// The records of the collection in ascending order.
    pub records: Vec<Record>,
    /// The records as a preindex stream.
    pub stream: Vec<u8>,
    /// The number of occurrences of each term.
    pub tdf: Vec<TermCount>,
    /// The documents of the subtitles that were kept.
    pub docs: Vec<u64>,
    /// The norm of each kept document; `None` where a norm does not fit
    /// sixty-four bits.
    pub norms: Option<Vec<u64>>,
}

/// Preindexes a collection.
///
/// Each subtitle is read into its occurrences of terms that are not
/// stopwords; skipped subtitles add nothing, and neither does a subtitle of
/// a document of which an earlier subtitle was given. The records of all subtitles
/// are sorted by term, document, sentence and word, and written as a
/// preindex stream. The term frequencies count the occurrences of each
/// term, and each kept document gets its norm. The comparisons that sorting
/// takes are counted in `comparisons`.
pub fn preindex(
    documents: &Vec<Document>,
    stopwords: &Vec<Vec<u8>>,
    lowercase: bool,
    comparisons: &mut u64,
) -> (r: Preindexed)
    ensures
        records_view(r.records@).to_multiset() == collected(
            documents@,
            pieces_view(stopwords@),
            lowercase,
        ).to_multiset(),
        stream_sorted(records_view(r.records@)),
        r.stream@ == stream_of(records_view(r.records@)),
        is_term_counts(counts_view(r.tdf@), records_view(r.records@)),
        r.docs@ == kept_documents(documents@, lowercase),
        r.norms is Some <==> forall|i: int|
            0 <= i < r.records.len() ==> norm_of(
                records_view(r.records@),
                (#[trigger] records_view(r.records@)[i]).doc_id,
            ) <= u64::MAX,
        r.norms is Some ==> r.norms->Some_0.len() == r.docs.len() && forall|j: int|
            0 <= j < r.docs.len() ==> (#[trigger] r.norms->Some_0@[j]) == norm_of(
                records_view(r.records@),
                r.docs@[j],
            ),
{
    let ghost stop = pieces_view(stopwords@);
    let mut all: Vec<Record> = Vec::new();
    let mut docs: Vec<u64> = Vec::new();
    let mut seen: HashSet<u64> = HashSet::new();
    let mut d: usize = 0;
    assert(records_view(all@) =~= collected(documents@.take(0), stop, lowercase));
    assert(docs@ =~= kept_documents(documents@.take(0), lowercase));
    while d < documents.len()
        invariant
            d <= documents.len(),
            stop == pieces_view(stopwords@),
            records_view(all@) == collected(documents@.take(d as int), stop, lowercase),
            docs@ == kept_documents(documents@.take(d as int), lowercase),
            forall|id: u64|
                seen@.contains(id) <==> exists|j: int|
                    0 <= j < d && (#[trigger] documents@[j]).doc_id == id,
        decreases documents.len() - d,
    {
        let document = &documents[d];
        let ghost next = documents@.take(d + 1);
        proof {
            assert(next.drop_last() =~= documents@.take(d as int));
            assert(next.last() == documents@[d as int]);
            if seen_before(doc_ids(next), d as int) {
                let j = choose|j: int|
                    0 <= j < d && #[trigger] doc_ids(next)[j] == doc_ids(next)[d as int];
                assert(documents@[j].doc_id == document.doc_id);
            }
            if seen@.contains(document.doc_id) {
                let j = choose|j: int|
                    0 <= j < d && (#[trigger] documents@[j]).doc_id == document.doc_id;
                assert(doc_ids(next)[j] == doc_ids(next)[d as int]);
            }
        }
        let ghost had = seen@;
        let fresh = seen.insert(document.doc_id);
        proof {
            assert forall|id: u64| seen@.contains(id) <==> exists|j: int|
                0 <= j < d + 1 && (#[trigger] documents@[j]).doc_id == id by {
                if had.contains(id) {
                    let j = choose|j: int| 0 <= j < d && (#[trigger] documents@[j]).doc_id == id;
                    assert(0 <= j < d + 1 && documents@[j].doc_id == id);
                }
                if id == document.doc_id {
                    assert(documents@[d as int].doc_id == id);
                }
                if exists|j: int| 0 <= j < d + 1 && (#[trigger] documents@[j]).doc_id == id {
                    let j = choose|j: int| 0 <= j < d + 1 && (#[trigger] documents@[j]).doc_id == id;
                    if j < d {
                        assert(documents@[j].doc_id == id);
                    }
                }
            }
        }
        if fresh {
            match ingest_document(&document.events, lowercase) {
                Some(tokens) => {
                    push_records(&mut all, document.doc_id, &tokens, stopwords);
                    docs.push(document.doc_id);
                },
                None => {
                    assert(records_view(all@) + Seq::<RecordView>::empty() =~= records_view(all@));
                },
            }
        }
        d += 1;
    }
    assert(documents@.take(d as int) =~= documents@);
    let records = sort_records(all, comparisons);
    proof {
        let s = records_view(records@);
        assert forall|i: int, j: int| 0 <= i < j < s.len() implies bytes_le(s[i].term, s[j].term) by {
            assert(s[i].le(s[j]));
        }
    }
    let stream = write_preindex(&records);
    let tdf = term_frequencies(&records);
    let norms = document_norms(&records, &docs);
    Preindexed { records, stream, tdf, docs, norms }
}

} // verus!
