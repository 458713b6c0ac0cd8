//! Document norms: for each document the sum, over its terms, of the
//! squared frequency of the term in the document.

use crate::dictionary::{has_key, key_index};
use crate::group::{
    lemma_term_postings_cover, lemma_term_postings_source, term_postings, terms_nondecreasing,
};
use crate::preindex::{records_view, stream_sorted, Record, RecordView};
use crate::preindexer::is_term_counts;
use crate::term::{bytes_le, bytes_lt, lemma_bytes_lt_asymmetric, same_bytes};
use std::collections::HashMap;
use vstd::prelude::*;

verus! {

broadcast use vstd::std_specs::hash::group_hash_axioms;

/// The number of occurrences of the term in the document.
pub open spec fn pair_count(s: Seq<RecordView>, term: Seq<u8>, doc: u64) -> nat
    decreases s.len(),
{
    if s.len() == 0 {
        0
    } else {
        pair_count(s.drop_last(), term, doc) + if s.last().term == term && s.last().doc_id == doc {
            1nat
        } else {
            0nat
        }
    }
}

/// The part of a document's norm that the first `k` records account for:
/// each occurrence in the document counts the frequency of its term in the
/// document.
pub open spec fn norm_upto(s: Seq<RecordView>, doc: u64, k: int) -> nat
    decreases k,
{
    if k <= 0 {
        0
    } else {
        norm_upto(s, doc, k - 1) + if s[k - 1].doc_id == doc {
            pair_count(s, s[k - 1].term, doc)
        } else {
            0nat
        }
    }
}

/// The norm of a document: the sum of the squared frequencies of its
/// terms. A term of frequency `f` is counted `f` times by each of its `f`
/// occurrences.
pub open spec fn norm_of(s: Seq<RecordView>, doc: u64) -> nat {
    norm_upto(s, doc, s.len() as int)
}

/// The increase of a document's norm by one more record: where the record
/// is an occurrence in the document of a term of frequency `f`, the square
/// of the frequency grows from `f * f` to `(f + 1) * (f + 1)`.
pub open spec fn norm_step(s: Seq<RecordView>, r: RecordView, doc: u64) -> nat {
    if r.doc_id == doc {
        2 * pair_count(s, r.term, doc) + 1
    } else {
        0
    }
}

proof fn lemma_pair_count_push(s: Seq<RecordView>, r: RecordView, term: Seq<u8>, doc: u64)
    ensures
        pair_count(s.push(r), term, doc) == pair_count(s, term, doc) + if r.term == term
            && r.doc_id == doc {
            1nat
        } else {
            0nat
        },
{
    assert(s.push(r).drop_last() =~= s);
}

proof fn lemma_norm_upto_push(s: Seq<RecordView>, r: RecordView, doc: u64, k: int)
    requires
        0 <= k <= s.len(),
    ensures
        norm_upto(s.push(r), doc, k) == norm_upto(s, doc, k) + if r.doc_id == doc {
            pair_count(s.take(k), r.term, doc)
        } else {
            0nat
        },
    decreases k,
{
    if k > 0 {
        lemma_norm_upto_push(s, r, doc, k - 1);
        lemma_pair_count_push(s, r, s[k - 1].term, doc);
        assert(s.push(r)[k - 1] == s[k - 1]);
        assert(s.take(k).drop_last() =~= s.take(k - 1));
        assert(s.take(k).last() == s[k - 1]);
    }
}

/// One more record raises a document's norm by the step of that record.
pub proof fn lemma_norm_push(s: Seq<RecordView>, r: RecordView, doc: u64)
    ensures
        norm_of(s.push(r), doc) == norm_of(s, doc) + norm_step(s, r, doc),
{
    let n = s.len() as int;
    lemma_norm_upto_push(s, r, doc, n);
    lemma_pair_count_push(s, r, r.term, doc);
    assert(s.take(n) =~= s);
    assert(s.push(r)[n] == r);
}

/// A document's norm over the first records never exceeds its norm over
/// all.
pub proof fn lemma_norm_grows(s: Seq<RecordView>, doc: u64, k: int)
    requires
        0 <= k <= s.len(),
    ensures
        norm_of(s.take(k), doc) <= norm_of(s, doc),
    decreases s.len() - k,
{
    if k == s.len() {
        assert(s.take(k) =~= s);
    } else {
        lemma_norm_grows(s, doc, k + 1);
        lemma_norm_push(s.take(k), s[k], doc);
        assert(s.take(k).push(s[k]) =~= s.take(k + 1));
    }
}

/// Where no record is an occurrence of the term in the document, the
/// term's frequency in the document is zero.
pub proof fn lemma_pair_count_absent(s: Seq<RecordView>, term: Seq<u8>, doc: u64)
    requires
        forall|i: int| 0 <= i < s.len() ==> !((#[trigger] s[i]).term == term && s[i].doc_id == doc),
    ensures
        pair_count(s, term, doc) == 0,
    decreases s.len(),
{
    if s.len() > 0 {
        let front = s.drop_last();
        assert forall|i: int| 0 <= i < front.len() implies !((#[trigger] front[i]).term == term
            && front[i].doc_id == doc) by {
            assert(front[i] == s[i]);
        }
        lemma_pair_count_absent(front, term, doc);
        assert(!(s[s.len() - 1].term == term && s[s.len() - 1].doc_id == doc));
    }
}

/// A term's frequency in a document is no more than the number of records.
pub proof fn lemma_pair_count_len(s: Seq<RecordView>, term: Seq<u8>, doc: u64)
    ensures
        pair_count(s, term, doc) <= s.len(),
    decreases s.len(),
{
    if s.len() > 0 {
        lemma_pair_count_len(s.drop_last(), term, doc);
    }
}

/// In a sorted stream, a record between two occurrences of a term in a
/// document is such an occurrence too.
proof fn lemma_pair_squeezed(a: RecordView, b: RecordView, c: RecordView)
    requires
        a.le(b),
        b.le(c),
        a.term == c.term,
        a.doc_id == c.doc_id,
    ensures
        b.term == a.term,
        b.doc_id == a.doc_id,
{
    if bytes_lt(a.term, b.term) {
        lemma_bytes_lt_asymmetric(a.term, b.term);
    }
    if bytes_lt(b.term, c.term) {
        lemma_bytes_lt_asymmetric(b.term, c.term);
    }
}

/// The sum of the squares of the counts.
pub open spec fn sum_squares(counts: Seq<(Seq<u8>, u64)>) -> nat
    decreases counts.len(),
{
    if counts.len() == 0 {
        0
    } else {
        sum_squares(counts.drop_last()) + (counts.last().1 as nat) * (counts.last().1 as nat)
    }
}

/// In a stream of one document, a term's frequency in the document is the
/// number of its occurrences in the stream.
pub proof fn lemma_pair_count_in_document(x: Seq<RecordView>, term: Seq<u8>, doc: u64)
    requires
        forall|i: int| 0 <= i < x.len() ==> (#[trigger] x[i]).doc_id == doc,
    ensures
        pair_count(x, term, doc) == term_postings(x, term).len(),
    decreases x.len(),
{
    if x.len() > 0 {
        let front = x.drop_last();
        assert forall|i: int| 0 <= i < front.len() implies (#[trigger] front[i]).doc_id == doc by {
            assert(front[i] == x[i]);
        }
        lemma_pair_count_in_document(front, term, doc);
        assert(x[x.len() - 1].doc_id == doc);
    }
}

/// The norm of a document is the sum of the squared frequencies of its
/// terms: over a stream of the document's records, in ascending order of
/// term, it is the sum of the squares of the term counts.
pub proof fn lemma_norm_is_sum_of_squares(
    x: Seq<RecordView>,
    doc: u64,
    counts: Seq<(Seq<u8>, u64)>,
)
    requires
        terms_nondecreasing(x),
        forall|i: int| 0 <= i < x.len() ==> (#[trigger] x[i]).doc_id == doc,
        is_term_counts(counts, x),
    ensures
        norm_of(x, doc) == sum_squares(counts),
    decreases x.len(),
{
    if x.len() == 0 {
        if counts.len() > 0 {
            assert(counts[0].1 > 0);
            assert(term_postings(x, counts[0].0).len() == 0);
        }
    } else {
        let n = x.len() - 1;
        let front = x.drop_last();
        let r = x.last();
        let t = r.term;
        let c = term_postings(front, t).len();
        assert(x =~= front.push(r));
        assert(term_postings(x, t) == term_postings(front, t).push(r.posting()));
        // The last record's term is the largest, so its count is the last.
        assert(has_key(counts, x[n].term));
        let k = key_index(counts, t);
        let last = counts.len() - 1;
        if k < last {
            assert(bytes_lt(counts[k].0, counts[last].0));
            assert(counts[last].1 > 0);
            lemma_term_postings_source(x, counts[last].0, 0);
            let i = choose|i: int|
                0 <= i < x.len() && (#[trigger] x[i]).term == counts[last].0 && x[i].posting()
                    == term_postings(x, counts[last].0)[0];
            if i < n {
                assert(bytes_le(x[i].term, x[n].term));
            }
            lemma_bytes_lt_asymmetric(t, counts[last].0);
        }
        assert(counts[last].0 == t);
        assert(counts[last].1 == c + 1);
        let rest = counts.drop_last();
        let shorter = if c == 0 {
            rest
        } else {
            rest.push((t, c as u64))
        };
        assert forall|i: int, j: int| 0 <= i < j < front.len() implies bytes_le(
            front[i].term,
            front[j].term,
        ) by {
            assert(front[i] == x[i] && front[j] == x[j]);
        }
        assert forall|i: int| 0 <= i < front.len() implies (#[trigger] front[i]).doc_id == doc by {
            assert(front[i] == x[i]);
        }
        assert forall|a: int, b: int| 0 <= a < b < shorter.len() implies bytes_lt(
            shorter[a].0,
            shorter[b].0,
        ) by {
            assert(shorter[a].0 == counts[a].0 && shorter[b].0 == counts[b].0);
        }
        assert forall|j: int| 0 <= j < shorter.len() implies (#[trigger] shorter[j]).1 > 0
            && shorter[j].1 == term_postings(front, shorter[j].0).len() by {
            if j < last {
                assert(shorter[j] == counts[j]);
                assert(bytes_lt(counts[j].0, counts[last].0));
                lemma_bytes_lt_asymmetric(counts[j].0, t);
                assert(counts[j].1 == term_postings(x, counts[j].0).len());
            }
        }
        assert forall|i: int| 0 <= i < front.len() implies has_key(
            shorter,
            (#[trigger] front[i]).term,
        ) by {
            assert(front[i] == x[i]);
            assert(has_key(counts, x[i].term));
            let j = key_index(counts, x[i].term);
            if j < last {
                assert(shorter[j].0 == counts[j].0);
            } else {
                lemma_term_postings_cover(front, i);
                assert(c > 0);
                assert(shorter[last].0 == t);
            }
        }
        lemma_norm_is_sum_of_squares(front, doc, shorter);
        lemma_norm_push(front, r, doc);
        lemma_pair_count_in_document(front, t, doc);
        if c > 0 {
            assert(shorter.drop_last() =~= rest);
        }
        let nc = c as int;
        assert((nc + 1) * (nc + 1) == nc * nc + 2 * nc + 1) by (nonlinear_arith);
        assert(nc == 0 ==> nc * nc == 0) by (nonlinear_arith);
    }
}

/// The records of the document, in the order of the stream.
pub open spec fn doc_stream(s: Seq<RecordView>, doc: u64) -> Seq<RecordView>
    decreases s.len(),
{
    if s.len() == 0 {
        Seq::empty()
    } else {
        let rest = doc_stream(s.drop_last(), doc);
        if s.last().doc_id == doc {
            rest.push(s.last())
        } else {
            rest
        }
    }
}

proof fn lemma_pair_count_of_document(s: Seq<RecordView>, term: Seq<u8>, doc: u64)
    ensures
        pair_count(doc_stream(s, doc), term, doc) == pair_count(s, term, doc),
    decreases s.len(),
{
    if s.len() > 0 {
        let front = s.drop_last();
        lemma_pair_count_of_document(front, term, doc);
        if s.last().doc_id == doc {
            lemma_pair_count_push(doc_stream(front, doc), s.last(), term, doc);
        }
    }
}

/// A document's norm counts the document's own records and no others.
pub proof fn lemma_norm_of_document(s: Seq<RecordView>, doc: u64)
    ensures
        norm_of(s, doc) == norm_of(doc_stream(s, doc), doc),
        forall|i: int|
            0 <= i < doc_stream(s, doc).len() ==> (#[trigger] doc_stream(s, doc)[i]).doc_id == doc,
    decreases s.len(),
{
    if s.len() > 0 {
        let front = s.drop_last();
        let r = s.last();
        lemma_norm_of_document(front, doc);
        assert(s =~= front.push(r));
        lemma_norm_push(front, r, doc);
        if r.doc_id == doc {
            lemma_norm_push(doc_stream(front, doc), r, doc);
            lemma_pair_count_of_document(front, r.term, doc);
        }
    }
}

/// The norm that the map records for the document: zero where it records
/// none.
pub open spec fn recorded(m: Map<u64, u64>, doc: u64) -> nat {
    if m.contains_key(doc) {
        m[doc] as nat
    } else {
        0
    }
}

/// The norms of the given documents over a sorted stream.
///
/// The result is `None` where the norm of some document of the stream does
/// not fit sixty-four bits. Otherwise it holds, for each of the given
/// documents in their order, the document's norm; a document without
/// records has norm zero.
pub fn document_norms(records: &Vec<Record>, doc_ids: &Vec<u64>) -> (r: Option<Vec<u64>>)
    requires
        stream_sorted(records_view(records@)),
    ensures
        r is Some <==> forall|i: int|
            0 <= i < records.len() ==> norm_of(
                records_view(records@),
                (#[trigger] records_view(records@)[i]).doc_id,
            ) <= u64::MAX,
        r is Some ==> r->Some_0.len() == doc_ids.len() && forall|j: int|
            0 <= j < doc_ids.len() ==> (#[trigger] r->Some_0@[j]) == norm_of(
                records_view(records@),
                doc_ids@[j],
            ),
{
    let ghost s = records_view(records@);
    let n = records.len();
    let mut sums: HashMap<u64, u64> = HashMap::new();
    let mut run: u64 = 0;
    let mut i: usize = 0;
    proof {
        assert forall|d: u64| recorded(sums@, d) == norm_of(s.take(0), d) by {}
    }
    while i < n
        invariant
            i <= n,
            n == records.len(),
            s == records_view(records@),
            stream_sorted(s),
            forall|d: u64| recorded(sums@, d) == #[trigger] norm_of(s.take(i as int), d),
            forall|x: int|
                0 <= x < i ==> norm_of(s.take(i as int), (#[trigger] s[x]).doc_id) <= u64::MAX,
            i > 0 ==> run == pair_count(s.take(i as int), s[i - 1].term, s[i - 1].doc_id),
        decreases n - i,
    {
        let record = &records[i];
        let doc = record.doc_id;
        let ghost seen = s.take(i as int);
        let ghost next = s.take(i + 1);
        let ghost rv = s[i as int];
        let same = i > 0 && records[i - 1].doc_id == doc && same_bytes(
            records[i - 1].term.as_slice(),
            record.term.as_slice(),
        );
        let before: u64 = if same {
            run
        } else {
            0
        };
        proof {
            assert(seen.push(rv) =~= next);
            lemma_pair_count_len(seen, rv.term, doc);
            if !same {
                assert forall|x: int| 0 <= x < seen.len() implies !((#[trigger] seen[x]).term
                    == rv.term && seen[x].doc_id == doc) by {
                    if seen[x].term == rv.term && seen[x].doc_id == doc {
                        assert(s[x].le(s[i - 1]));
                        assert(s[i - 1].le(s[i as int]));
                        lemma_pair_squeezed(s[x], s[i - 1], s[i as int]);
                    }
                }
                lemma_pair_count_absent(seen, rv.term, doc);
            }
            assert(before == pair_count(seen, rv.term, doc));
            lemma_pair_count_push(seen, rv, rv.term, doc);
            assert forall|d: u64| #[trigger]
                norm_of(next, d) == norm_of(seen, d) + norm_step(seen, rv, d) by {
                lemma_norm_push(seen, rv, d);
            }
            lemma_norm_grows(s, doc, i + 1);
        }
        let step = match before.checked_mul(2) {
            Some(twice) => match twice.checked_add(1) {
                Some(step) => step,
                None => {
                    assert(norm_of(s, s[i as int].doc_id) > u64::MAX);
                    return None;
                },
            },
            None => {
                assert(norm_of(s, s[i as int].doc_id) > u64::MAX);
                return None;
            },
        };
        let so_far: u64 = match sums.get(&doc) {
            Some(v) => *v,
            None => 0,
        };
        assert(so_far == recorded(sums@, doc));
        let total = match so_far.checked_add(step) {
            Some(total) => total,
            None => {
                assert(norm_of(s, s[i as int].doc_id) > u64::MAX);
                return None;
            },
        };
        let ghost old_sums = sums@;
        sums.insert(doc, total);
        proof {
            assert forall|d: u64| recorded(sums@, d) == #[trigger] norm_of(next, d) by {
                assert(norm_of(next, d) == norm_of(seen, d) + norm_step(seen, rv, d));
                assert(recorded(old_sums, d) == norm_of(seen, d));
            }
            assert forall|x: int| 0 <= x < i + 1 implies norm_of(next, (#[trigger] s[x]).doc_id)
                <= u64::MAX by {
                assert(recorded(sums@, s[x].doc_id) == norm_of(next, s[x].doc_id));
            }
        }
        run = before + 1;
        i += 1;
    }
    assert(s.take(n as int) =~= s);
    let mut norms: Vec<u64> = Vec::new();
    let mut j: usize = 0;
    while j < doc_ids.len()
        invariant
            j <= doc_ids.len(),
            norms.len() == j,
            forall|d: u64| recorded(sums@, d) == #[trigger] norm_of(s, d),
            forall|x: int| 0 <= x < j ==> (#[trigger] norms@[x]) == norm_of(s, doc_ids@[x]),
        decreases doc_ids.len() - j,
    {
        let doc = doc_ids[j];
        let norm: u64 = match sums.get(&doc) {
            Some(v) => *v,
            None => 0,
        };
        assert(norm == recorded(sums@, doc));
        norms.push(norm);
        j += 1;
    }
    Some(norms)
}

} // verus!
