//! Grouping a sorted stream of records by term.

use crate::posting::Posting;
use crate::preindex::{records_view, Record, RecordView};
use crate::term::{
    bytes_le, bytes_lt, compare_bytes, copy_bytes, lemma_bytes_lt_asymmetric,
    lemma_bytes_lt_transitive, lemma_bytes_lt_trichotomy, same_bytes, Rank,
};
use vstd::prelude::*;

verus! {

/// The occurrences of one term.
#[derive(Clone, Debug, PartialEq, Eq)]
pub struct TermGroup {
    pub term: Vec<u8>,
    pub postings: Vec<Posting>,
}

/// The mathematical values of the groups.
pub open spec fn groups_view(groups: Seq<TermGroup>) -> Seq<(Seq<u8>, Seq<Posting>)> {
    Seq::new(groups.len(), |k: int| (groups[k].term@, groups[k].postings@))
}

/// The terms of the stream never descend.
pub open spec fn terms_nondecreasing(s: Seq<RecordView>) -> bool {
    forall|i: int, j: int| 0 <= i < j < s.len() ==> bytes_le(s[i].term, s[j].term)
}

/// The occurrences of `term` in the stream, in the order of the stream.
pub open spec fn term_postings(s: Seq<RecordView>, term: Seq<u8>) -> Seq<Posting>
    decreases s.len(),
{
    if s.len() == 0 {
        Seq::empty()
    } else {
        let rest = term_postings(s.drop_last(), term);
        if s.last().term == term {
            rest.push(s.last().posting())
        } else {
            rest
        }
    }
}

/// The group terms strictly ascend.
pub open spec fn group_terms_ascending(groups: Seq<(Seq<u8>, Seq<Posting>)>) -> bool {
    forall|a: int, b: int| 0 <= a < b < groups.len() ==> bytes_lt(groups[a].0, groups[b].0)
}

/// Some group is for the term.
pub open spec fn has_group(groups: Seq<(Seq<u8>, Seq<Posting>)>, term: Seq<u8>) -> bool {
    exists|k: int| 0 <= k < groups.len() && (#[trigger] groups[k]).0 == term
}

/// `groups` holds one group for each term of the stream, in ascending order
/// of term, and each group holds all occurrences of its term in the order of
/// the stream.
pub open spec fn is_grouping(groups: Seq<(Seq<u8>, Seq<Posting>)>, s: Seq<RecordView>) -> bool {
    &&& group_terms_ascending(groups)
    &&& forall|k: int|
        0 <= k < groups.len() ==> (#[trigger] groups[k]).1.len() > 0 && groups[k].1
            == term_postings(s, groups[k].0)
    &&& forall|i: int| 0 <= i < s.len() ==> has_group(groups, (#[trigger] s[i]).term)
}

/// The occurrences of a term come from records of that term.
pub proof fn lemma_term_postings_source(s: Seq<RecordView>, term: Seq<u8>, x: int)
    requires
        0 <= x < term_postings(s, term).len(),
    ensures
        exists|i: int|
            0 <= i < s.len() && (#[trigger] s[i]).term == term && s[i].posting() == term_postings(
                s,
                term,
            )[x],
    decreases s.len(),
{
    if s.len() > 0 {
        let front = s.drop_last();
        let rest = term_postings(front, term);
        if x < rest.len() {
            lemma_term_postings_source(front, term, x);
            let i = choose|i: int|
                0 <= i < front.len() && (#[trigger] front[i]).term == term && front[i].posting()
                    == rest[x];
            assert(s[i] == front[i]);
        } else {
            assert(s[s.len() - 1].term == term);
        }
    }
}

/// Every record's occurrence is among the occurrences of its term.
pub proof fn lemma_term_postings_cover(s: Seq<RecordView>, i: int)
    requires
        0 <= i < s.len(),
    ensures
        term_postings(s, s[i].term).contains(s[i].posting()),
    decreases s.len(),
{
    let term = s[i].term;
    let front = s.drop_last();
    let rest = term_postings(front, term);
    if i == s.len() - 1 {
        assert(term_postings(s, term)[rest.len() as int] == s[i].posting());
    } else {
        assert(front[i] == s[i]);
        lemma_term_postings_cover(front, i);
        let x = choose|x: int| 0 <= x < rest.len() && rest[x] == s[i].posting();
        assert(term_postings(s, term)[x] == s[i].posting());
    }
}

/// A stream that holds no record of a term holds no occurrence of it.
pub proof fn lemma_term_postings_absent(s: Seq<RecordView>, term: Seq<u8>)
    requires
        forall|i: int| 0 <= i < s.len() ==> (#[trigger] s[i]).term != term,
    ensures
        term_postings(s, term) == Seq::<Posting>::empty(),
    decreases s.len(),
{
    if s.len() > 0 {
        let front = s.drop_last();
        assert forall|i: int| 0 <= i < front.len() implies (#[trigger] front[i]).term != term by {
            assert(front[i] == s[i]);
        }
        lemma_term_postings_absent(front, term);
        assert(s[s.len() - 1].term != term);
    }
}

/// One more record adds its occurrence to its own term and to no other.
pub proof fn lemma_term_postings_step(s: Seq<RecordView>, j: int, term: Seq<u8>)
    requires
        0 <= j < s.len(),
    ensures
        term_postings(s.take(j + 1), term) == if s[j].term == term {
            term_postings(s.take(j), term).push(s[j].posting())
        } else {
            term_postings(s.take(j), term)
        },
{
    assert(s.take(j + 1).drop_last() =~= s.take(j));
    assert(s.take(j + 1).last() == s[j]);
}

/// Terms that never descend from one record to the next never descend.
proof fn lemma_terms_stepwise(s: Seq<RecordView>, i: int, j: int)
    requires
        forall|x: int| 0 <= x < s.len() - 1 ==> bytes_le((#[trigger] s[x]).term, s[x + 1].term),
        0 <= i < j < s.len(),
    ensures
        bytes_le(s[i].term, s[j].term),
    decreases j - i,
{
    if j > i + 1 {
        lemma_terms_stepwise(s, i, j - 1);
        assert(bytes_le(s[j - 1].term, s[j - 1 + 1].term));
        if bytes_lt(s[i].term, s[j - 1].term) && bytes_lt(s[j - 1].term, s[j].term) {
            lemma_bytes_lt_transitive(s[i].term, s[j - 1].term, s[j].term);
        }
    }
}

/// Groups the records by term.
///
/// Where the terms of the stream never descend, the result holds one group
/// for each term, in ascending order, with all the term's occurrences in
/// the order of the stream. Where they do descend, there is no grouping.
pub fn group_by_term(records: &Vec<Record>) -> (r: Option<Vec<TermGroup>>)
    ensures
        r is Some <==> terms_nondecreasing(records_view(records@)),
        r is Some ==> is_grouping(groups_view(r->Some_0@), records_view(records@)),
{
    let ghost s = records_view(records@);
    let n = records.len();
    let mut groups: Vec<TermGroup> = Vec::new();
    let mut i: usize = 0;
    proof {
        assert(is_grouping(groups_view(groups@), s.take(0)));
    }
    while i < n
        invariant
            i <= n,
            n == records.len(),
            s == records_view(records@),
            is_grouping(groups_view(groups@), s.take(i as int)),
            forall|x: int| 0 <= x < i - 1 ==> bytes_le((#[trigger] s[x]).term, s[x + 1].term),
            i > 0 ==> groups.len() > 0 && groups@[groups.len() - 1].term@ == s[i - 1].term,
            0 < i < n ==> bytes_lt(s[i - 1].term, s[i as int].term),
        decreases n - i,
    {
        let start = i;
        let ghost term = s[start as int].term;
        let ghost before = groups_view(groups@);
        let mut postings: Vec<Posting> = Vec::new();
        postings.push(records[start].posting());
        let mut j: usize = start + 1;
        proof {
            // The term is new: every earlier term is smaller.
            assert forall|k: int| 0 <= k < before.len() implies bytes_lt(
                (#[trigger] before[k]).0,
                term,
            ) by {
                let last = before.len() - 1;
                assert(before[last].0 == s[start - 1].term);
                if k < last {
                    assert(bytes_lt(before[k].0, before[last].0));
                    lemma_bytes_lt_transitive(before[k].0, before[last].0, term);
                }
            }
            assert forall|x: int| 0 <= x < s.take(start as int).len() implies (#[trigger] s.take(
                start as int,
            )[x]).term != term by {
                let sx = s.take(start as int)[x];
                assert(has_group(before, sx.term));
                let k = choose|k: int| 0 <= k < before.len() && (#[trigger] before[k]).0 == sx.term;
                let last = before.len() - 1;
                if k < last {
                    assert(bytes_lt(before[k].0, before[last].0));
                    lemma_bytes_lt_transitive(sx.term, before[last].0, term);
                }
                lemma_bytes_lt_asymmetric(sx.term, term);
            }
            lemma_term_postings_absent(s.take(start as int), term);
            lemma_term_postings_step(s, start as int, term);
            assert forall|k: int| 0 <= k < before.len() implies (#[trigger] before[k]).1
                == term_postings(s.take(start + 1), before[k].0) by {
                lemma_term_postings_step(s, start as int, before[k].0);
                let last = before.len() - 1;
                if k < last {
                    assert(bytes_lt(before[k].0, before[last].0));
                    lemma_bytes_lt_transitive(before[k].0, before[last].0, term);
                }
                lemma_bytes_lt_asymmetric(before[k].0, term);
            }
        }
        while j < n && same_bytes(records[j].term.as_slice(), records[start].term.as_slice())
            invariant
                start < j <= n,
                n == records.len(),
                s == records_view(records@),
                term == s[start as int].term,
                before == groups_view(groups@),
                group_terms_ascending(before),
                forall|k: int| 0 <= k < before.len() ==> bytes_lt((#[trigger] before[k]).0, term),
                forall|k: int|
                    0 <= k < before.len() ==> (#[trigger] before[k]).1 == term_postings(
                        s.take(j as int),
                        before[k].0,
                    ),
                postings@ == term_postings(s.take(j as int), term),
                postings@.len() > 0,
                forall|x: int| start <= x < j ==> (#[trigger] s[x]).term == term,
            decreases n - j,
        {
            proof {
                lemma_term_postings_step(s, j as int, term);
                assert forall|k: int| 0 <= k < before.len() implies (#[trigger] before[k]).1
                    == term_postings(s.take(j + 1), before[k].0) by {
                    lemma_term_postings_step(s, j as int, before[k].0);
                    lemma_bytes_lt_asymmetric(before[k].0, term);
                }
            }
            postings.push(records[j].posting());
            j += 1;
        }
        if j < n {
            match compare_bytes(records[start].term.as_slice(), records[j].term.as_slice()) {
                Rank::Before => {},
                _ => {
                    proof {
                        lemma_bytes_lt_trichotomy(term, s[j as int].term);
                        lemma_bytes_lt_asymmetric(s[j as int].term, term);
                        assert(s[j - 1].term == term);
                        assert(!bytes_le(s[j - 1].term, s[j as int].term));
                    }
                    return None;
                },
            }
        }
        groups.push(TermGroup { term: copy_bytes(records[start].term.as_slice()), postings });
        proof {
            let after = groups_view(groups@);
            assert(after =~= before.push((term, postings@)));
            assert forall|a: int, b: int| 0 <= a < b < after.len() implies bytes_lt(
                after[a].0,
                after[b].0,
            ) by {
                if b < before.len() {
                    assert(bytes_lt(before[a].0, before[b].0));
                } else {
                    assert(bytes_lt(before[a].0, term));
                }
            }
            assert forall|x: int| 0 <= x < s.take(j as int).len() implies has_group(
                after,
                (#[trigger] s.take(j as int)[x]).term,
            ) by {
                if x < start {
                    assert(s.take(start as int)[x] == s.take(j as int)[x]);
                    assert(has_group(before, s.take(start as int)[x].term));
                    let k = choose|k: int|
                        0 <= k < before.len() && (#[trigger] before[k]).0 == s.take(
                            start as int,
                        )[x].term;
                    assert(after[k] == before[k]);
                } else {
                    assert(s[x].term == term);
                    assert(after[before.len() as int].0 == term);
                }
            }
            assert forall|x: int| 0 <= x < j - 1 implies bytes_le(
                (#[trigger] s[x]).term,
                s[x + 1].term,
            ) by {
                if x >= start {
                    assert(s[x].term == term && s[x + 1].term == term);
                } else if x == start - 1 {
                }
            }
        }
        i = j;
    }
    proof {
        assert(s.take(n as int) =~= s);
        assert forall|a: int, b: int| 0 <= a < b < s.len() implies bytes_le(
            s[a].term,
            s[b].term,
        ) by {
            lemma_terms_stepwise(s, a, b);
        }
    }
    Some(groups)
}

} // verus!
