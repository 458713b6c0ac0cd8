//! Positional postings and their packed form.
//!
//! A posting records one occurrence of a term: the document, the sentence in
//! it, and the word in the sentence. A term's postings are kept in strictly
//! ascending order and stored as one blob of fixed-width records.

use crate::error::IndexError;
use crate::intersect::{docs_ascending, has_doc, DocTf};
use crate::order::{ranked_ascending, Ranked};
use crate::wire::{get_u64_le, le_bytes, lemma_bytes_roundtrip, lemma_u64_roundtrip, put_u64_le};
use vstd::prelude::*;

verus! {

/// One occurrence of a term.
#[derive(Clone, Copy, Debug, PartialEq, Eq, Structural)]
pub struct Posting {
    pub doc_id: u64,
    pub sent_id: u64,
    pub word_id: u64,
}

/// The number of bytes that one posting takes in a blob.
pub const POSTING_SIZE: usize = 24;

impl Posting {
    /// `self` comes strictly before `other` by document, then sentence, then
    /// word.
    pub open spec fn lt(&self, other: &Posting) -> bool {
        self.doc_id < other.doc_id || (self.doc_id == other.doc_id && (self.sent_id
            < other.sent_id || (self.sent_id == other.sent_id && self.word_id < other.word_id)))
    }

    /// Decides `lt`.
    pub fn less_than(&self, other: &Posting) -> (b: bool)
        ensures
            b == self.lt(other),
    {
        self.doc_id < other.doc_id || (self.doc_id == other.doc_id && (self.sent_id
            < other.sent_id || (self.sent_id == other.sent_id && self.word_id < other.word_id)))
    }
}

impl Ranked for Posting {
    /// By document, then sentence, then word.
    open spec fn before(&self, other: &Self) -> bool {
        self.lt(other) || *self == *other
    }

    fn precedes(&self, other: &Self) -> (b: bool) {
        self.less_than(other) || (self.doc_id == other.doc_id && self.sent_id == other.sent_id
            && self.word_id == other.word_id)
    }

    proof fn lemma_total(a: &Self, b: &Self) {
    }

    proof fn lemma_transitive(a: &Self, b: &Self, c: &Self) {
    }
}

/// The postings strictly ascend: the invariant of a postings list.
pub open spec fn postings_sorted(s: Seq<Posting>) -> bool {
    forall|i: int, j: int| 0 <= i < j < s.len() ==> #[trigger] s[i].lt(&s[j])
}

/// The documents of the postings never descend.
pub open spec fn docs_nondecreasing(s: Seq<Posting>) -> bool {
    forall|i: int, j: int| 0 <= i < j < s.len() ==> s[i].doc_id <= s[j].doc_id
}

/// Whether the postings strictly ascend.
pub fn is_postings_list(postings: &Vec<Posting>) -> (b: bool)
    ensures
        b == postings_sorted(postings@),
{
    if postings.len() == 0 {
        return true;
    }
    let mut i: usize = 1;
    while i < postings.len()
        invariant
            1 <= i <= postings.len(),
            postings_sorted(postings@.take(i as int)),
        decreases postings.len() - i,
    {
        if !postings[i - 1].less_than(&postings[i]) {
            assert(!postings_sorted(postings@)) by {
                if postings_sorted(postings@) {
                    assert(postings@[i - 1].lt(&postings@[i as int]));
                }
            }
            return false;
        }
        assert(postings_sorted(postings@.take(i + 1))) by {
            let s = postings@.take(i + 1);
            assert forall|a: int, b: int| 0 <= a < b < s.len() implies #[trigger] s[a].lt(&s[b]) by {
                if b < i {
                    assert(postings@.take(i as int)[a].lt(&postings@.take(i as int)[b]));
                } else if a < i - 1 {
                    assert(postings@.take(i as int)[a].lt(&postings@.take(i as int)[i - 1]));
                }
            }
        }
        i += 1;
    }
    assert(postings@.take(i as int) =~= postings@);
    true
}

/// The postings without repetitions: of postings that stand side by side
/// and are the same, only the first is kept.
pub open spec fn distinct(postings: Seq<Posting>) -> Seq<Posting>
    decreases postings.len(),
{
    if postings.len() == 0 {
        Seq::empty()
    } else {
        let rest = distinct(postings.drop_last());
        if rest.len() > 0 && rest.last() == postings.last() {
            rest
        } else {
            rest.push(postings.last())
        }
    }
}

/// Of postings that never descend, those without repetitions strictly
/// ascend, and they are the same postings.
pub proof fn lemma_distinct(postings: Seq<Posting>)
    requires
        ranked_ascending(postings),
    ensures
        postings_sorted(distinct(postings)),
        distinct(postings).len() <= postings.len(),
        postings.len() > 0 ==> distinct(postings).len() > 0 && distinct(postings).last()
            == postings.last(),
        forall|p: Posting| #[trigger] distinct(postings).contains(p) <==> postings.contains(p),
    decreases postings.len(),
{
    if postings.len() > 0 {
        let n = postings.len() - 1;
        let front = postings.drop_last();
        let last = postings.last();
        let rest = distinct(front);
        let all = distinct(postings);
        assert forall|i: int, j: int| 0 <= i < j < front.len() implies #[trigger] front[i].before(
            &front[j],
        ) by {
            assert(postings[i].before(&postings[j]));
        }
        lemma_distinct(front);
        if front.len() > 0 {
            assert(postings[n - 1].before(&postings[n]));
            assert(rest.last() == front[n - 1]);
        }
        assert forall|i: int, j: int| 0 <= i < j < all.len() implies #[trigger] all[i].lt(
            &all[j],
        ) by {
            if j < rest.len() {
                assert(rest[i].lt(&rest[j]));
            } else {
                assert(all[i] == rest[i]);
                if i < rest.len() - 1 {
                    assert(rest[i].lt(&rest[rest.len() - 1]));
                }
            }
        }
        assert forall|p: Posting| #[trigger] all.contains(p) <==> postings.contains(p) by {
            if all.contains(p) {
                let k = choose|k: int| 0 <= k < all.len() && all[k] == p;
                if k < rest.len() {
                    assert(rest[k] == p);
                    assert(rest.contains(p));
                    assert(front.contains(p));
                    let i = choose|i: int| 0 <= i < front.len() && front[i] == p;
                    assert(postings[i] == p);
                } else {
                    assert(postings[n] == p);
                }
            }
            if postings.contains(p) {
                let i = choose|i: int| 0 <= i < postings.len() && postings[i] == p;
                if i < n {
                    assert(front[i] == p);
                    assert(front.contains(p));
                    assert(rest.contains(p));
                    let k = choose|k: int| 0 <= k < rest.len() && rest[k] == p;
                    assert(all[k] == p);
                } else {
                    assert(all[all.len() - 1] == p);
                }
            }
        }
    }
}

/// The postings without repetitions.
pub fn dedup_postings(postings: &Vec<Posting>) -> (r: Vec<Posting>)
    ensures
        r@ == distinct(postings@),
{
    let mut r: Vec<Posting> = Vec::new();
    let mut i: usize = 0;
    assert(postings@.take(0) =~= Seq::<Posting>::empty());
    while i < postings.len()
        invariant
            i <= postings.len(),
            r@ == distinct(postings@.take(i as int)),
        decreases postings.len() - i,
    {
        let p = postings[i];
        proof {
            assert(postings@.take(i + 1).drop_last() =~= postings@.take(i as int));
            assert(postings@.take(i + 1).last() == p);
        }
        let n = r.len();
        let repeated = n > 0 && r[n - 1].doc_id == p.doc_id && r[n - 1].sent_id == p.sent_id && r[n
            - 1].word_id == p.word_id;
        if !repeated {
            r.push(p);
        }
        i += 1;
    }
    assert(postings@.take(i as int) =~= postings@);
    r
}

/// The record of one posting: its three numbers, each as eight
/// little-endian bytes.
pub open spec fn posting_bytes(p: Posting) -> Seq<u8> {
    le_bytes(p.doc_id) + le_bytes(p.sent_id) + le_bytes(p.word_id)
}

/// The blob of a postings list: its records one after another, with no
/// header.
pub open spec fn blob_of(postings: Seq<Posting>) -> Seq<u8>
    decreases postings.len(),
{
    if postings.len() == 0 {
        Seq::empty()
    } else {
        blob_of(postings.drop_last()) + posting_bytes(postings.last())
    }
}

/// A blob holds twenty-four bytes for each posting.
pub proof fn lemma_blob_len(postings: Seq<Posting>)
    ensures
        blob_of(postings).len() == 24 * postings.len(),
    decreases postings.len(),
{
    if postings.len() > 0 {
        lemma_blob_len(postings.drop_last());
        let p = postings.last();
        lemma_u64_roundtrip(p.doc_id);
        lemma_u64_roundtrip(p.sent_id);
        lemma_u64_roundtrip(p.word_id);
    }
}

/// A record determines its posting.
pub proof fn lemma_posting_bytes_injective(p: Posting, q: Posting)
    requires
        posting_bytes(p) == posting_bytes(q),
    ensures
        p == q,
{
    lemma_u64_roundtrip(p.doc_id);
    lemma_u64_roundtrip(p.sent_id);
    lemma_u64_roundtrip(p.word_id);
    lemma_u64_roundtrip(q.doc_id);
    lemma_u64_roundtrip(q.sent_id);
    lemma_u64_roundtrip(q.word_id);
    let a = posting_bytes(p);
    let b = posting_bytes(q);
    assert(a.subrange(0, 8) =~= le_bytes(p.doc_id));
    assert(b.subrange(0, 8) =~= le_bytes(q.doc_id));
    assert(a.subrange(8, 16) =~= le_bytes(p.sent_id));
    assert(b.subrange(8, 16) =~= le_bytes(q.sent_id));
    assert(a.subrange(16, 24) =~= le_bytes(p.word_id));
    assert(b.subrange(16, 24) =~= le_bytes(q.word_id));
}

/// A blob determines its postings: packing loses nothing.
pub proof fn lemma_blob_injective(a: Seq<Posting>, b: Seq<Posting>)
    requires
        blob_of(a) == blob_of(b),
    ensures
        a == b,
    decreases a.len(),
{
    lemma_blob_len(a);
    lemma_blob_len(b);
    if a.len() == 0 {
        assert(a =~= b);
    } else {
        let a0 = a.drop_last();
        let b0 = b.drop_last();
        lemma_blob_len(a0);
        lemma_blob_len(b0);
        let n = blob_of(a0).len() as int;
        assert(blob_of(a).subrange(0, n) =~= blob_of(a0));
        assert(blob_of(b).subrange(0, n) =~= blob_of(b0));
        assert(blob_of(a).subrange(n, n + 24) =~= posting_bytes(a.last()));
        assert(blob_of(b).subrange(n, n + 24) =~= posting_bytes(b.last()));
        lemma_posting_bytes_injective(a.last(), b.last());
        lemma_blob_injective(a0, b0);
        assert(a =~= a0.push(a.last()));
        assert(b =~= b0.push(b.last()));
    }
}

/// Packs the postings into a blob.
pub fn encode_postings(postings: &Vec<Posting>) -> (blob: Vec<u8>)
    ensures
        blob@ == blob_of(postings@),
{
    let mut blob: Vec<u8> = Vec::new();
    let mut i: usize = 0;
    while i < postings.len()
        invariant
            i <= postings.len(),
            blob@ == blob_of(postings@.take(i as int)),
        decreases postings.len() - i,
    {
        let p = postings[i];
        put_u64_le(&mut blob, p.doc_id);
        put_u64_le(&mut blob, p.sent_id);
        put_u64_le(&mut blob, p.word_id);
        proof {
            let next = postings@.take(i + 1);
            assert(next.drop_last() =~= postings@.take(i as int));
            assert(next.last() == p);
            assert(blob@ =~= blob_of(postings@.take(i as int)) + posting_bytes(p));
        }
        i += 1;
    }
    assert(postings@.take(i as int) =~= postings@);
    blob
}

/// Unpacks a blob into its postings.
///
/// A blob whose size is not a multiple of the record size is corrupt. Any
/// other blob is the packed form of exactly the postings returned.
pub fn decode_postings(blob: &[u8]) -> (r: Result<Vec<Posting>, IndexError>)
    ensures
        r is Ok <==> blob@.len() % 24 == 0,
        r is Err ==> r == Err::<Vec<Posting>, IndexError>(IndexError::CorruptBlob),
        r is Ok ==> blob_of(r->Ok_0@) == blob@ && r->Ok_0@.len() == blob@.len() / 24,
{
    if blob.len() % POSTING_SIZE != 0 {
        return Err(IndexError::CorruptBlob);
    }
    let len = blob.len();
    let n = len / POSTING_SIZE;
    let mut postings: Vec<Posting> = Vec::new();
    let mut i: usize = 0;
    assert(blob@.take(0) =~= blob_of(postings@));
    while i < n
        invariant
            i <= n,
            len == blob@.len(),
            n * 24 == len,
            postings.len() == i,
            blob_of(postings@) == blob@.take(24 * i),
        decreases n - i,
    {
        let pos = i * POSTING_SIZE;
        let doc_id = get_u64_le(blob, pos);
        let sent_id = get_u64_le(blob, pos + 8);
        let word_id = get_u64_le(blob, pos + 16);
        match (doc_id, sent_id, word_id) {
            (Some(doc_id), Some(sent_id), Some(word_id)) => {
                let p = Posting { doc_id, sent_id, word_id };
                proof {
                    lemma_bytes_roundtrip(blob@.subrange(pos as int, pos + 8));
                    lemma_bytes_roundtrip(blob@.subrange(pos + 8, pos + 16));
                    lemma_bytes_roundtrip(blob@.subrange(pos + 16, pos + 24));
                    assert(posting_bytes(p) =~= blob@.subrange(pos as int, pos + 24));
                    let next = postings@.push(p);
                    assert(next.drop_last() =~= postings@);
                    assert(next.last() == p);
                    assert(blob_of(next) =~= blob@.take(24 * (i + 1)));
                }
                postings.push(p);
            },
            _ => {
                assert(false);
            },
        }
        i += 1;
    }
    assert(blob@.take(24 * n) =~= blob@);
    Ok(postings)
}

/// Unpacking a packed postings list gives the list back.
pub proof fn lemma_blob_roundtrip(postings: Seq<Posting>, decoded: Seq<Posting>)
    requires
        blob_of(decoded) == blob_of(postings),
    ensures
        decoded == postings,
{
    lemma_blob_injective(decoded, postings);
}

/// The number of postings in the document.
pub open spec fn count_in_doc(postings: Seq<Posting>, doc: u64) -> nat
    decreases postings.len(),
{
    if postings.len() == 0 {
        0
    } else {
        count_in_doc(postings.drop_last(), doc) + if postings.last().doc_id == doc {
            1nat
        } else {
            0nat
        }
    }
}

/// A document has no more postings than there are postings, and none where
/// no posting names it.
pub proof fn lemma_count_bounds(postings: Seq<Posting>, doc: u64)
    ensures
        count_in_doc(postings, doc) <= postings.len(),
        (forall|i: int| 0 <= i < postings.len() ==> (#[trigger] postings[i]).doc_id != doc)
            ==> count_in_doc(postings, doc) == 0,
        (exists|i: int| 0 <= i < postings.len() && (#[trigger] postings[i]).doc_id == doc)
            ==> count_in_doc(postings, doc) > 0,
    decreases postings.len(),
{
    if postings.len() > 0 {
        let front = postings.drop_last();
        lemma_count_bounds(front, doc);
        if forall|i: int| 0 <= i < postings.len() ==> (#[trigger] postings[i]).doc_id != doc {
            assert forall|i: int| 0 <= i < front.len() implies (#[trigger] front[i]).doc_id
                != doc by {
                assert(front[i] == postings[i]);
            }
            assert(postings[postings.len() - 1].doc_id != doc);
        }
        if exists|i: int| 0 <= i < postings.len() && (#[trigger] postings[i]).doc_id == doc {
            let i = choose|i: int| 0 <= i < postings.len() && (#[trigger] postings[i]).doc_id == doc;
            if i < front.len() {
                assert(front[i] == postings[i]);
            }
        }
    }
}

/// `list` gives, for each document of the postings and in ascending order,
/// the number of postings in it.
pub open spec fn is_doc_frequencies(list: Seq<DocTf>, postings: Seq<Posting>) -> bool {
    &&& docs_ascending(list)
    &&& forall|k: int|
        0 <= k < list.len() ==> (#[trigger] list[k]).tf > 0 && list[k].tf == count_in_doc(
            postings,
            list[k].doc_id,
        )
    &&& forall|i: int| 0 <= i < postings.len() ==> has_doc(list, (#[trigger] postings[i]).doc_id)
}

/// The term's frequency in each document in which it occurs.
///
/// The postings do not descend by document, as in a postings list.
pub fn doc_term_frequencies(postings: &Vec<Posting>) -> (list: Vec<DocTf>)
    requires
        docs_nondecreasing(postings@),
    ensures
        is_doc_frequencies(list@, postings@),
        list@.len() <= postings@.len(),
{
    let mut list: Vec<DocTf> = Vec::new();
    let mut i: usize = 0;
    while i < postings.len()
        invariant
            i <= postings.len(),
            docs_nondecreasing(postings@),
            is_doc_frequencies(list@, postings@.take(i as int)),
            list@.len() <= i,
            i > 0 ==> list@.len() > 0 && list@[list@.len() - 1].doc_id == postings@[i - 1].doc_id,
        decreases postings.len() - i,
    {
        let doc = postings[i].doc_id;
        let ghost seen = postings@.take(i as int);
        let ghost next = postings@.take(i + 1);
        let ghost old_list = list@;
        proof {
            assert(next.drop_last() =~= seen);
            assert(next.last() == postings@[i as int]);
            assert forall|d: u64| d != doc implies count_in_doc(next, d) == count_in_doc(seen, d) by {}
            assert(count_in_doc(next, doc) == count_in_doc(seen, doc) + 1);
            lemma_count_bounds(seen, doc);
        }
        let n = list.len();
        if n > 0 && list[n - 1].doc_id == doc {
            let tf = list[n - 1].tf;
            list.set(n - 1, DocTf { doc_id: doc, tf: tf + 1 });
            proof {
                assert forall|a: int, b: int| 0 <= a < b < list@.len() implies list@[a].doc_id
                    < list@[b].doc_id by {
                    assert(old_list[a].doc_id < old_list[b].doc_id);
                }
                assert forall|k: int| 0 <= k < list@.len() implies (#[trigger] list@[k]).tf > 0
                    && list@[k].tf == count_in_doc(next, list@[k].doc_id) by {
                    if k < n - 1 {
                        assert(list@[k] == old_list[k]);
                        assert(old_list[k].doc_id < old_list[n - 1].doc_id);
                    }
                }
                assert forall|j: int| 0 <= j < next.len() implies has_doc(
                    list@,
                    (#[trigger] next[j]).doc_id,
                ) by {
                    if j < i {
                        assert(seen[j] == next[j]);
                        assert(has_doc(old_list, seen[j].doc_id));
                        let k = choose|k: int|
                            0 <= k < old_list.len() && #[trigger] old_list[k].doc_id
                                == seen[j].doc_id;
                        assert(list@[k].doc_id == next[j].doc_id);
                    } else {
                        assert(list@[n - 1].doc_id == doc);
                    }
                }
            }
        } else {
            proof {
                // The document is new: it is larger than every document
                // seen so far.
                assert forall|j: int| 0 <= j < seen.len() implies (#[trigger] seen[j]).doc_id
                    != doc by {
                    assert(seen[j] == postings@[j]);
                    assert(postings@[j].doc_id <= postings@[i - 1].doc_id);
                    assert(postings@[i - 1].doc_id <= postings@[i as int].doc_id);
                }
            }
            list.push(DocTf { doc_id: doc, tf: 1 });
            proof {
                assert forall|a: int, b: int| 0 <= a < b < list@.len() implies list@[a].doc_id
                    < list@[b].doc_id by {
                    if b < n {
                        assert(old_list[a].doc_id < old_list[b].doc_id);
                    } else {
                        assert(list@[a] == old_list[a]);
                        assert(old_list[a].tf > 0);
                        lemma_count_bounds(seen, old_list[a].doc_id);
                        let j = choose|j: int|
                            0 <= j < seen.len() && (#[trigger] seen[j]).doc_id
                                == old_list[a].doc_id;
                        assert(seen[j] == postings@[j]);
                        assert(postings@[j].doc_id <= postings@[i as int].doc_id);
                    }
                }
                assert forall|k: int| 0 <= k < list@.len() implies (#[trigger] list@[k]).tf > 0
                    && list@[k].tf == count_in_doc(next, list@[k].doc_id) by {
                    if k < n {
                        assert(list@[k] == old_list[k]);
                        assert(old_list[k].doc_id < list@[n as int].doc_id);
                    }
                }
                assert forall|j: int| 0 <= j < next.len() implies has_doc(
                    list@,
                    (#[trigger] next[j]).doc_id,
                ) by {
                    if j < i {
                        assert(seen[j] == next[j]);
                        assert(has_doc(old_list, seen[j].doc_id));
                        let k = choose|k: int|
                            0 <= k < old_list.len() && #[trigger] old_list[k].doc_id
                                == seen[j].doc_id;
                        assert(list@[k].doc_id == next[j].doc_id);
                    } else {
                        assert(list@[n as int].doc_id == doc);
                    }
                }
            }
        }
        i += 1;
    }
    assert(postings@.take(i as int) =~= postings@);
    list
}

} // verus!
