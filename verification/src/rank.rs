//! Ranking: documents by score, and terms by frequency.

use crate::order::{ranked_ascending, sort_ranked, Ranked};
use crate::preindex::{records_view, Record, RecordView};
use crate::preindexer::{
    counts_view, is_term_counts, sort_records, term_frequencies, TermCount,
};
use crate::term::copy_bytes;
use crate::text::{pieces_view, strings_view, tokenize, tokens_of};
use vstd::string::StrSliceExecFns;
use vstd::utf8::encode_utf8;
use crate::term::{
    bytes_le, bytes_lt, compare_bytes, lemma_bytes_lt_asymmetric, lemma_bytes_lt_transitive,
    lemma_bytes_lt_trichotomy, Rank,
};
use vstd::prelude::*;

verus! {

/// A document with its score. The score is a number that orders as the
/// document's relevance does: the larger, the more relevant.
#[derive(Clone, Copy, Debug, PartialEq, Eq, Structural)]
pub struct Scored {
    pub doc_id: u64,
    pub score: u64,
}

impl Ranked for Scored {
    /// By descending score, then by ascending document.
    open spec fn before(&self, other: &Self) -> bool {
        self.score > other.score || (self.score == other.score && self.doc_id <= other.doc_id)
    }

    fn precedes(&self, other: &Self) -> (b: bool) {
        self.score > other.score || (self.score == other.score && self.doc_id <= other.doc_id)
    }

    proof fn lemma_total(a: &Self, b: &Self) {
    }

    proof fn lemma_transitive(a: &Self, b: &Self, c: &Self) {
    }
}

/// Ranks the documents: the best score first, and documents of equal score
/// in ascending order of document. The comparisons that sorting takes are
/// counted in `comparisons`.
pub fn rank_by_score(scored: Vec<Scored>, comparisons: &mut u64) -> (r: Vec<Scored>)
    ensures
        r@.to_multiset() == scored@.to_multiset(),
        ranked_ascending(r@),
{
    sort_ranked(scored, comparisons)
}

impl Ranked for TermCount {
    /// By descending count, then by descending term.
    open spec fn before(&self, other: &Self) -> bool {
        self.count > other.count || (self.count == other.count && bytes_le(other.term@, self.term@))
    }

    fn precedes(&self, other: &Self) -> (b: bool) {
        if self.count != other.count {
            return self.count > other.count;
        }
        proof {
            lemma_bytes_lt_trichotomy(self.term@, other.term@);
            if bytes_lt(self.term@, other.term@) {
                lemma_bytes_lt_asymmetric(self.term@, other.term@);
            }
        }
        match compare_bytes(self.term.as_slice(), other.term.as_slice()) {
            Rank::Before => false,
            _ => true,
        }
    }

    proof fn lemma_total(a: &Self, b: &Self) {
        lemma_bytes_lt_trichotomy(a.term@, b.term@);
    }

    proof fn lemma_transitive(a: &Self, b: &Self, c: &Self) {
        if bytes_lt(c.term@, b.term@) && bytes_lt(b.term@, a.term@) {
            lemma_bytes_lt_transitive(c.term@, b.term@, a.term@);
        }
    }
}

/// The most frequent terms: the terms ranked by descending count, those of
/// equal count by descending term, cut after the first `limit`.
pub fn top_terms(counts: Vec<TermCount>, limit: usize, comparisons: &mut u64) -> (r: Vec<TermCount>)
    ensures
        ranked_ascending(r@),
        r@.len() == if limit <= counts@.len() {
            limit as nat
        } else {
            counts@.len()
        },
        exists|ranked: Seq<TermCount>|
            #![auto]
            ranked.to_multiset() == counts@.to_multiset() && ranked_ascending(ranked) && r@
                == ranked.take(r@.len() as int),
{
    let ghost given = counts@;
    let mut ranked = sort_ranked(counts, comparisons);
    let ghost all = ranked@;
    proof {
        all.to_multiset_ensures();
        given.to_multiset_ensures();
    }
    if limit < ranked.len() {
        ranked.truncate(limit);
    }
    proof {
        assert(ranked@ =~= all.take(ranked@.len() as int));
        assert forall|i: int, j: int| 0 <= i < j < ranked@.len() implies #[trigger] ranked@[i].before(
            &ranked@[j],
        ) by {
            assert(all[i].before(&all[j]));
        }
    }
    ranked
}

/// The records of one line of text, taken as the document of its number:
/// one for each token, numbered from zero.
pub open spec fn token_records(line: int, tokens: Seq<Seq<char>>) -> Seq<RecordView> {
    Seq::new(
        tokens.len(),
        |j: int|
            RecordView {
                term: encode_utf8(tokens[j]),
                doc_id: line as u64,
                sent_id: 0,
                word_id: j as u64,
            },
    )
}

/// The records of the lines of a text.
pub open spec fn line_records(lines: Seq<String>, lowercase: bool) -> Seq<RecordView>
    decreases lines.len(),
{
    if lines.len() == 0 {
        Seq::empty()
    } else {
        line_records(lines.drop_last(), lowercase) + token_records(
            lines.len() - 1,
            tokens_of(lines.last()@, lowercase),
        )
    }
}

/// The terms of the counts.
pub open spec fn count_terms(counts: Seq<TermCount>) -> Seq<Seq<u8>> {
    Seq::new(counts.len(), |k: int| counts[k].term@)
}

/// The stopwords of a text: its most frequent tokens.
///
/// The tokens of all lines are counted, and the terms are ranked by
/// descending count, those of equal count by descending term. The result
/// holds the first `num_stopwords` terms of that ranking, or all of them
/// where there are fewer.
pub fn mkstopwords(
    lines: &Vec<String>,
    num_stopwords: usize,
    lowercase: bool,
    comparisons: &mut u64,
) -> (r: Vec<Vec<u8>>)
    ensures
        exists|sorted: Seq<RecordView>, counts: Seq<TermCount>, ranked: Seq<TermCount>|
            #![auto]
            sorted.to_multiset() == line_records(lines@, lowercase).to_multiset()
                && is_term_counts(counts_view(counts), sorted) && ranked.to_multiset()
                == counts.to_multiset() && ranked_ascending(ranked) && pieces_view(r@)
                == count_terms(ranked).take(r@.len() as int) && r@.len() == if num_stopwords
                <= counts.len() {
                num_stopwords as nat
            } else {
                counts.len()
            },
{
    let mut records: Vec<Record> = Vec::new();
    let mut i: usize = 0;
    assert(records_view(records@) =~= line_records(lines@.take(0), lowercase));
    while i < lines.len()
        invariant
            i <= lines.len(),
            records_view(records@) == line_records(lines@.take(i as int), lowercase),
        decreases lines.len() - i,
    {
        let tokens = tokenize(lines[i].as_str(), lowercase);
        let ghost base = records_view(records@);
        let ghost tv = strings_view(tokens@);
        proof {
            assert(lines@.take(i + 1).drop_last() =~= lines@.take(i as int));
            assert(lines@.take(i + 1).last() == lines@[i as int]);
        }
        let mut j: usize = 0;
        while j < tokens.len()
            invariant
                j <= tokens.len(),
                i < lines.len(),
                tv == strings_view(tokens@),
                records_view(records@) == base + token_records(i as int, tv).take(j as int),
            decreases tokens.len() - j,
        {
            let ghost before = records_view(records@);
            let record = Record {
                term: tokens[j].as_str().as_bytes_vec(),
                doc_id: i as u64,
                sent_id: 0,
                word_id: j as u64,
            };
            records.push(record);
            proof {
                assert(records_view(records@) =~= before.push(record@));
                assert(record@ == token_records(i as int, tv)[j as int]);
                assert(records_view(records@) =~= base + token_records(i as int, tv).take(j + 1));
            }
            j += 1;
        }
        assert(token_records(i as int, tv).take(j as int) =~= token_records(i as int, tv));
        i += 1;
    }
    assert(lines@.take(i as int) =~= lines@);
    let sorted = sort_records(records, comparisons);
    proof {
        let s = records_view(sorted@);
        assert forall|a: int, b: int| 0 <= a < b < s.len() implies crate::term::bytes_le(
            s[a].term,
            s[b].term,
        ) by {
            assert(s[a].le(s[b]));
        }
    }
    let counts = term_frequencies(&sorted);
    let ghost counted = counts@;
    let top = top_terms(counts, num_stopwords, comparisons);
    let ghost ranked = choose|ranked: Seq<TermCount>|
        #![auto]
        ranked.to_multiset() == counted.to_multiset() && ranked_ascending(ranked) && top@
            == ranked.take(top@.len() as int);
    let mut r: Vec<Vec<u8>> = Vec::new();
    let mut k: usize = 0;
    while k < top.len()
        invariant
            k <= top.len(),
            r.len() == k,
            forall|x: int| 0 <= x < k ==> (#[trigger] r@[x])@ == top@[x].term@,
            top@ == ranked.take(top@.len() as int),
            ranked.to_multiset() == counted.to_multiset(),
            ranked_ascending(ranked),
            is_term_counts(counts_view(counted), records_view(sorted@)),
            records_view(sorted@).to_multiset() == line_records(lines@, lowercase).to_multiset(),
            top@.len() == if num_stopwords <= counted.len() {
                num_stopwords as nat
            } else {
                counted.len()
            },
        decreases top.len() - k,
    {
        r.push(copy_bytes(top[k].term.as_slice()));
        k += 1;
    }
    proof {
        ranked.to_multiset_ensures();
        counted.to_multiset_ensures();
        assert(ranked.len() == counted.len());
        assert forall|x: int| 0 <= x < r@.len() implies pieces_view(r@)[x] == count_terms(
            ranked,
        ).take(r@.len() as int)[x] by {
            assert(top@[x] == ranked.take(top@.len() as int)[x]);
        }
        assert(pieces_view(r@) =~= count_terms(ranked).take(r@.len() as int));
    }
    r
}

} // verus!
