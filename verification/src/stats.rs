//! Figures of a built index.

use crate::dictionary::Dictionary;
use crate::error::IndexError;
use crate::posting::{decode_postings, lemma_blob_injective};
use crate::query::postings_in;
use crate::index::blobs_view;
use std::collections::HashSet;
use vstd::prelude::*;

verus! {

broadcast use vstd::std_specs::hash::group_hash_axioms;

/// The figures of an index.
#[derive(Clone, Copy, Debug, PartialEq, Eq, Structural)]
pub struct Stats {
    /// The number of terms in the dictionary.
    pub terms: usize,
    /// The number of postings in the store.
    pub postings: u128,
    /// The number of documents that the postings name.
    pub docs: usize,
}

/// The number of postings in the blobs.
pub open spec fn total_postings(blobs: Seq<Seq<u8>>) -> nat
    decreases blobs.len(),
{
    if blobs.len() == 0 {
        0
    } else {
        total_postings(blobs.drop_last()) + blobs.last().len() / 24
    }
}

/// The documents that the postings of a blob name.
pub open spec fn blob_docs(blob: Seq<u8>) -> Set<u64> {
    Set::new(
        |d: u64|
            exists|k: int|
                0 <= k < postings_in(blob).len() && (#[trigger] postings_in(blob)[k]).doc_id == d,
    )
}

/// The documents that the postings of the blobs name.
pub open spec fn all_docs(blobs: Seq<Seq<u8>>) -> Set<u64>
    decreases blobs.len(),
{
    if blobs.len() == 0 {
        Set::empty()
    } else {
        all_docs(blobs.drop_last()).union(blob_docs(blobs.last()))
    }
}

/// Every blob is a whole number of records.
pub open spec fn blobs_whole(blobs: Seq<Seq<u8>>) -> bool {
    forall|i: int| 0 <= i < blobs.len() ==> (#[trigger] blobs[i]).len() % 24 == 0
}

/// The figures of an index: the number of terms in the dictionary, of
/// postings in the store, and of documents that the postings name. A blob
/// that is not a whole number of records is reported as corrupt.
pub fn stats(dictionary: &Dictionary, blobs: &Vec<Vec<u8>>) -> (r: Result<Stats, IndexError>)
    requires
        dictionary.wf(),
    ensures
        r is Ok <==> blobs_whole(blobs_view(blobs@)),
        r is Err ==> r->Err_0 == IndexError::CorruptBlob,
        r is Ok ==> r->Ok_0.terms == dictionary.entries().len() && r->Ok_0.postings
            == total_postings(blobs_view(blobs@)) && r->Ok_0.docs == all_docs(
            blobs_view(blobs@),
        ).len(),
{
    let ghost bv = blobs_view(blobs@);
    let mut total: u128 = 0;
    let mut docs: HashSet<u64> = HashSet::new();
    let mut i: usize = 0;
    assert(docs@ =~= all_docs(bv.take(0)));
    while i < blobs.len()
        invariant
            i <= blobs.len(),
            bv == blobs_view(blobs@),
            blobs_whole(bv.take(i as int)),
            total == total_postings(bv.take(i as int)),
            total <= i * 0x1_0000_0000_0000_0000,
            docs@ == all_docs(bv.take(i as int)),
        decreases blobs.len() - i,
    {
        let ghost next = bv.take(i + 1);
        let ghost seen = bv.take(i as int);
        proof {
            assert(next.drop_last() =~= seen);
            assert(next.last() == blobs@[i as int]@);
        }
        let postings = match decode_postings(blobs[i].as_slice()) {
            Ok(postings) => postings,
            Err(e) => {
                assert(!blobs_whole(bv)) by {
                    if blobs_whole(bv) {
                        assert(bv[i as int].len() % 24 == 0);
                    }
                }
                return Err(e);
            },
        };
        proof {
            lemma_blob_injective(postings_in(blobs@[i as int]@), postings@);
            assert forall|x: int| 0 <= x < next.len() implies (#[trigger] next[x]).len() % 24 == 0 by {
                if x < i {
                    assert(seen[x] == next[x]);
                }
            }
        }
        total = total + postings.len() as u128;
        let ghost before = docs@;
        let mut k: usize = 0;
        while k < postings.len()
            invariant
                k <= postings.len(),
                docs@ == before.union(
                    Set::new(
                        |d: u64|
                            exists|x: int| 0 <= x < k && (#[trigger] postings@[x]).doc_id == d,
                    ),
                ),
            decreases postings.len() - k,
        {
            let ghost had = docs@;
            docs.insert(postings[k].doc_id);
            proof {
                let upto = Set::new(
                    |d: u64| exists|x: int| 0 <= x < k && (#[trigger] postings@[x]).doc_id == d,
                );
                let more = Set::new(
                    |d: u64| exists|x: int| 0 <= x < k + 1 && (#[trigger] postings@[x]).doc_id == d,
                );
                assert forall|d: u64| more.contains(d) <==> (upto.contains(d) || d
                    == postings@[k as int].doc_id) by {
                    if upto.contains(d) {
                        let x = choose|x: int| 0 <= x < k && (#[trigger] postings@[x]).doc_id == d;
                        assert(0 <= x < k + 1 && postings@[x].doc_id == d);
                    }
                    if d == postings@[k as int].doc_id {
                        assert(postings@[k as int].doc_id == d);
                    }
                }
                assert(docs@ =~= before.union(more));
            }
            k += 1;
        }
        assert(docs@ =~= all_docs(next));
        i += 1;
    }
    assert(bv.take(i as int) =~= bv);
    Ok(Stats { terms: dictionary.len(), postings: total, docs: docs.len() })
}

} // verus!
