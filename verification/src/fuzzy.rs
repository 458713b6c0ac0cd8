//! Approximate term lookup: the dictionary's terms within a bounded edit
//! distance of a query, each with its distance as weight, lightest first.

use crate::dictionary::{
    accepted_entries, automaton_fits, has_key, key_index, keys_ascending, lemma_lookup_unique,
    lookup_spec, pairs_view, search_is_exact, within_distance, Dictionary,
};
use crate::distance::{chars_of, distance, edit_distance, lemma_distance_zero};
use crate::error::{AutomatonError, IndexError};
use crate::names::{all_digits, digits_only, parse_u64, parse_u64_spec};
use crate::posting::{decode_postings, is_postings_list, lemma_blob_injective, Posting};
use crate::query::{first_fault, lemma_first_fault_prefix, postings_in, postings_of, Fetched};
use crate::order::{lemma_mapped_multiset, mapped, sort_ranked, Ranked};
use crate::term::{
    bytes_lt, compare_bytes, copy_bytes, lemma_bytes_lt_asymmetric, lemma_bytes_lt_transitive,
    lemma_bytes_lt_trichotomy, same_bytes, Rank,
};
use crate::text::{find_byte, index_of, text_of};
use vstd::prelude::*;
use vstd::slice::slice_subrange;
use vstd::utf8::{
    decode_utf8, decode_utf8_encode_utf8, encode_utf8, encode_utf8_decode_utf8,
    encode_utf8_valid_utf8, valid_utf8,
};

verus! {

/// A term of the dictionary that stands for a query term.
#[derive(Clone, Debug, PartialEq, Eq)]
pub struct Correction {
    /// The term.
    pub term: Vec<u8>,
    /// The identifier of the term's postings list.
    pub dict_id: u64,
    /// How far the term is from the query: the lighter, the closer.
    pub weight: u64,
}

/// The mathematical value of a correction.
pub ghost struct CorrectionView {
    pub term: Seq<u8>,
    pub dict_id: u64,
    pub weight: u64,
}

impl View for Correction {
    type V = CorrectionView;

    open spec fn view(&self) -> CorrectionView {
        CorrectionView { term: self.term@, dict_id: self.dict_id, weight: self.weight }
    }
}

/// The mathematical values of corrections.
pub open spec fn corrections_view(v: Seq<Correction>) -> Seq<CorrectionView> {
    Seq::new(v.len(), |i: int| v[i]@)
}

impl CorrectionView {
    /// `self` is lighter than `other`, or as heavy and earlier in
    /// lexicographic order of term, or the same in both and of no larger
    /// identifier.
    pub open spec fn le(self, other: CorrectionView) -> bool {
        self.weight < other.weight || (self.weight == other.weight && (bytes_lt(
            self.term,
            other.term,
        ) || (self.term == other.term && self.dict_id <= other.dict_id)))
    }
}

impl Ranked for Correction {
    /// By weight, then by term, then by identifier.
    open spec fn before(&self, other: &Self) -> bool {
        self@.le(other@)
    }

    fn precedes(&self, other: &Self) -> (b: bool) {
        if self.weight != other.weight {
            return self.weight < other.weight;
        }
        proof {
            lemma_bytes_lt_trichotomy(self.term@, other.term@);
            if bytes_lt(other.term@, self.term@) {
                lemma_bytes_lt_asymmetric(other.term@, self.term@);
            }
            if bytes_lt(self.term@, other.term@) {
                lemma_bytes_lt_asymmetric(self.term@, other.term@);
            }
        }
        match compare_bytes(self.term.as_slice(), other.term.as_slice()) {
            Rank::Before => true,
            Rank::Same => self.dict_id <= other.dict_id,
            Rank::After => false,
        }
    }

    proof fn lemma_total(a: &Self, b: &Self) {
        lemma_bytes_lt_trichotomy(a.term@, b.term@);
    }

    proof fn lemma_transitive(a: &Self, b: &Self, c: &Self) {
        if bytes_lt(a.term@, b.term@) && bytes_lt(b.term@, c.term@) {
            lemma_bytes_lt_transitive(a.term@, b.term@, c.term@);
        }
    }
}

/// The corrections stand lightest first, and those of equal weight in
/// lexicographic order of term.
pub open spec fn corrections_sorted(s: Seq<CorrectionView>) -> bool {
    forall|i: int, j: int| 0 <= i < j < s.len() ==> #[trigger] s[i].le(s[j])
}

/// The weight of a term as a correction of the query: their edit distance
/// in characters. A term that is not text is as heavy as can be.
pub open spec fn weight_of(query: Seq<char>, term: Seq<u8>) -> nat {
    if valid_utf8(term) {
        edit_distance(query, decode_utf8(term))
    } else {
        u64::MAX as nat
    }
}

/// The correction that a matched entry stands for.
pub open spec fn correction_of(query: Seq<char>, entry: (Seq<u8>, u64)) -> CorrectionView {
    CorrectionView { term: entry.0, dict_id: entry.1, weight: weight_of(query, entry.0) as u64 }
}

/// The corrections that matched entries stand for, in the order of the
/// entries.
pub open spec fn weighed(query: Seq<char>, entries: Seq<(Seq<u8>, u64)>) -> Seq<CorrectionView> {
    Seq::new(entries.len(), |i: int| correction_of(query, entries[i]))
}

/// Gives each matched entry its weight as a correction of the query.
pub fn weigh_matches(query: &str, matches: &Vec<(Vec<u8>, u64)>) -> (r: Vec<Correction>)
    ensures
        corrections_view(r@) == weighed(query@, pairs_view(matches@)),
{
    let wanted = chars_of(query);
    let mut r: Vec<Correction> = Vec::new();
    let mut i: usize = 0;
    while i < matches.len()
        invariant
            i <= matches.len(),
            wanted@ == query@,
            corrections_view(r@) == weighed(query@, pairs_view(matches@)).take(i as int),
        decreases matches.len() - i,
    {
        let term = &matches[i].0;
        let weight: u64 = match text_of(term.as_slice()) {
            Ok(text) => {
                let found = chars_of(text);
                distance(&wanted, &found)
            },
            Err(_) => u64::MAX,
        };
        let ghost before = corrections_view(r@);
        let c = Correction { term: copy_bytes(term.as_slice()), dict_id: matches[i].1, weight };
        r.push(c);
        proof {
            assert(corrections_view(r@) =~= before.push(c@));
            assert(c@ == correction_of(query@, pairs_view(matches@)[i as int]));
            assert(corrections_view(r@) =~= weighed(query@, pairs_view(matches@)).take(i + 1));
        }
        i += 1;
    }
    assert(corrections_view(r@) =~= weighed(query@, pairs_view(matches@)));
    r
}

/// Sequences of corrections that hold the same corrections as often hold
/// the same values as often.
pub proof fn lemma_corrections_multiset(a: Seq<Correction>, b: Seq<Correction>)
    requires
        a.to_multiset() == b.to_multiset(),
    ensures
        corrections_view(a).to_multiset() == corrections_view(b).to_multiset(),
{
    let f = |c: Correction| c@;
    lemma_mapped_multiset(a, b, f);
    assert(corrections_view(a) =~= mapped(a, f));
    assert(corrections_view(b) =~= mapped(b, f));
}

/// Sorts corrections by weight, lightest first, and those of equal weight
/// by term. The comparisons that sorting takes are counted in
/// `comparisons`.
pub fn sort_corrections(corrections: Vec<Correction>, comparisons: &mut u64) -> (r: Vec<Correction>)
    ensures
        corrections_sorted(corrections_view(r@)),
        corrections_view(r@).to_multiset() == corrections_view(corrections@).to_multiset(),
{
    let ghost given = corrections@;
    let r = sort_ranked(corrections, comparisons);
    proof {
        lemma_corrections_multiset(r@, given);
        let s = corrections_view(r@);
        assert forall|i: int, j: int| 0 <= i < j < s.len() implies #[trigger] s[i].le(s[j]) by {
            assert(r@[i].before(&r@[j]));
        }
    }
    r
}

/// The one correction that an exact lookup of the query gives: the query
/// itself at weight zero where the dictionary has it, and none where it
/// has not.
pub open spec fn exact_correction(entries: Seq<(Seq<u8>, u64)>, query: Seq<char>) -> Seq<
    CorrectionView,
> {
    match lookup_spec(entries, encode_utf8(query)) {
        Some(id) => seq![CorrectionView { term: encode_utf8(query), dict_id: id, weight: 0 }],
        None => Seq::empty(),
    }
}

/// The corrections of a query term: the dictionary's terms within the cap
/// of the query in edit distance, each with its distance as weight,
/// lightest first and those of equal weight by term. Where the cap is
/// zero, the search is the exact lookup.
///
/// Where the query is ASCII, and where the cap is zero, the dictionary is
/// searched with an automaton, and the search fails where the automaton
/// would be too large.
pub fn correct_term(dictionary: &Dictionary, query: &str, cap: u32, comparisons: &mut u64) -> (r:
    Result<Vec<Correction>, AutomatonError>)
    requires
        dictionary.wf(),
    ensures
        r is Ok <==> (search_is_exact(query@, cap) ==> automaton_fits(query@, cap)),
        r is Err ==> r->Err_0 == AutomatonError::TooLarge,
        r is Ok ==> corrections_sorted(corrections_view(r->Ok_0@)) && corrections_view(
            r->Ok_0@,
        ).to_multiset() == weighed(
            query@,
            accepted_entries(dictionary.entries(), query@, cap as nat),
        ).to_multiset(),
        r is Ok && cap == 0 ==> corrections_view(r->Ok_0@) == exact_correction(
            dictionary.entries(),
            query@,
        ),
{
    match dictionary.search(query, cap) {
        Err(e) => Err(e),
        Ok(matches) => {
            let corrections = weigh_matches(query, &matches);
            let sorted = sort_corrections(corrections, comparisons);
            proof {
                if cap == 0 {
                    dictionary.lemma_keys_ascending();
                    lemma_exact_is_approximate_zero(dictionary.entries(), query@);
                    lemma_exact_weighs_nothing(dictionary.entries(), query@);
                    let found = corrections_view(sorted@);
                    let exact = exact_correction(dictionary.entries(), query@);
                    found.to_multiset_ensures();
                    exact.to_multiset_ensures();
                    if exact.len() == 1 {
                        assert(found.contains(found[0]));
                        assert(found.to_multiset().count(found[0]) > 0);
                        assert(exact.contains(found[0]));
                    }
                    assert(found =~= exact);
                }
            }
            Ok(sorted)
        },
    }
}

/// Weighing the entries that an exact lookup accepts gives the exact
/// correction.
pub proof fn lemma_exact_weighs_nothing(entries: Seq<(Seq<u8>, u64)>, query: Seq<char>)
    requires
        keys_ascending(entries),
    ensures
        weighed(query, accepted_entries(entries, query, 0)) == exact_correction(entries, query),
{
    lemma_exact_is_approximate_zero(entries, query);
    encode_utf8_valid_utf8(query);
    encode_utf8_decode_utf8(query);
    lemma_distance_zero(query, query);
    assert(weighed(query, accepted_entries(entries, query, 0)) =~= exact_correction(
        entries,
        query,
    ));
}

/// One occurrence of a correction.
#[derive(Clone, Copy, Debug, PartialEq, Eq, Structural)]
pub struct Hit {
    /// The position of the correction among the corrections.
    pub correction: usize,
    /// Where the corrected term occurs.
    pub posting: Posting,
}

/// The occurrences of the corrections: for each correction in turn, its
/// postings in their order.
pub open spec fn hits_of(fetched: Seq<Fetched>) -> Seq<Hit>
    decreases fetched.len(),
{
    if fetched.len() == 0 {
        Seq::empty()
    } else {
        let postings = postings_of(fetched.last());
        hits_of(fetched.drop_last()) + Seq::new(
            postings.len(),
            |x: int| Hit { correction: (fetched.len() - 1) as usize, posting: postings[x] },
        )
    }
}

/// Gathers the occurrences of the corrections from what the store gave
/// for each of them.
///
/// A fault in what was fetched is reported, the first one first. Otherwise
/// the result holds, for each correction in turn, its postings in their
/// order.
pub fn expand_corrections(fetched: &Vec<Fetched>) -> (r: Result<Vec<Hit>, IndexError>)
    ensures
        match first_fault(fetched@) {
            Some(e) => r == Err::<Vec<Hit>, IndexError>(e),
            None => r is Ok && r->Ok_0@ == hits_of(fetched@),
        },
{
    let mut hits: Vec<Hit> = Vec::new();
    let mut i: usize = 0;
    assert(hits@ =~= hits_of(fetched@.take(0)));
    while i < fetched.len()
        invariant
            i <= fetched.len(),
            first_fault(fetched@.take(i as int)) is None,
            hits@ == hits_of(fetched@.take(i as int)),
        decreases fetched.len() - i,
    {
        let ghost seen = fetched@.take(i as int);
        let ghost next = fetched@.take(i + 1);
        proof {
            assert(next.drop_last() =~= seen);
            assert(next.last() == fetched@[i as int]);
        }
        let postings: Vec<Posting> = match &fetched[i] {
            Fetched::Unindexed => Vec::new(),
            Fetched::Missing => {
                proof {
                    lemma_first_fault_prefix(fetched@, i + 1);
                }
                return Err(IndexError::MissingPostings);
            },
            Fetched::Blob(blob) => {
                let postings = match decode_postings(blob.as_slice()) {
                    Ok(postings) => postings,
                    Err(e) => {
                        proof {
                            lemma_first_fault_prefix(fetched@, i + 1);
                        }
                        return Err(e);
                    },
                };
                proof {
                    lemma_blob_injective(postings_in(blob@), postings@);
                }
                if !is_postings_list(&postings) {
                    proof {
                        lemma_first_fault_prefix(fetched@, i + 1);
                    }
                    return Err(IndexError::CorruptBlob);
                }
                postings
            },
        };
        assert(postings@ =~= postings_of(fetched@[i as int]));
        let ghost base = hits@;
        let mut k: usize = 0;
        while k < postings.len()
            invariant
                k <= postings.len(),
                i < fetched.len(),
                hits@ == base + Seq::new(
                    k as nat,
                    |x: int| Hit { correction: i, posting: postings@[x] },
                ),
            decreases postings.len() - k,
        {
            hits.push(Hit { correction: i, posting: postings[k] });
            assert(hits@ =~= base + Seq::new(
                (k + 1) as nat,
                |x: int| Hit { correction: i, posting: postings@[x] },
            ));
            k += 1;
        }
        proof {
            let whole = Seq::new(
                postings@.len(),
                |x: int| Hit { correction: (next.len() - 1) as usize, posting: postings@[x] },
            );
            assert(whole =~= Seq::new(
                postings@.len(),
                |x: int| Hit { correction: i, posting: postings@[x] },
            ));
            assert(hits@ =~= hits_of(next));
        }
        i += 1;
    }
    assert(fetched@.take(i as int) =~= fetched@);
    Ok(hits)
}

/// How the terms of a query are matched against the dictionary.
#[derive(Clone, Copy, Debug, PartialEq, Eq, Structural)]
pub enum ErrorModel {
    /// Terms within this edit distance of the query term.
    Levenshtein(u32),
    /// Terms that a weighted transducer, read from the file of this name,
    /// derives from the query term.
    Transducer,
}

/// The prefix that names a bounded edit distance: `levenshtein-`.
pub open spec fn levenshtein_prefix() -> Seq<u8> {
    seq![
        0x6Cu8,
        0x65u8,
        0x76u8,
        0x65u8,
        0x6Eu8,
        0x73u8,
        0x68u8,
        0x74u8,
        0x65u8,
        0x69u8,
        0x6Eu8,
        0x2Du8,
    ]
}

/// The bytes begin with the prefix.
pub open spec fn starts_with(s: Seq<u8>, prefix: Seq<u8>) -> bool {
    s.len() >= prefix.len() && s.subrange(0, prefix.len() as int) == prefix
}

/// The error model that a name stands for.
///
/// A name that begins with `levenshtein-` names a bounded edit distance;
/// what follows is the cap as a decimal number, whose fraction, if it has
/// one, does not count, since edit distances are whole. The number is
/// written as digits, or as digits, a point and digits: `2` or `2.5`. No
/// other way of writing a number is read: not a sign, not an exponent, not
/// a point without digits on both sides; such a name is an unknown model,
/// and so is a cap that does not fit thirty-two bits. Any other name is
/// that of a transducer file.
pub open spec fn error_model_of(name: Seq<u8>) -> Result<ErrorModel, AutomatonError> {
    if starts_with(name, levenshtein_prefix()) {
        let number = name.skip(12);
        let whole = number.subrange(0, index_of(number, 0x2E));
        let fraction = number.skip(index_of(number, 0x2E));
        match parse_u64_spec(whole) {
            Some(cap) => if cap <= u32::MAX && (fraction.len() == 0 || (fraction.len() > 1
                && all_digits(fraction.skip(1)))) && whole[0] != 0x2B {
                Ok(ErrorModel::Levenshtein(cap as u32))
            } else {
                Err(AutomatonError::UnknownModel)
            },
            None => Err(AutomatonError::UnknownModel),
        }
    } else {
        Ok(ErrorModel::Transducer)
    }
}

/// Reads the name of an error model.
pub fn parse_error_model(name: &str) -> (r: Result<ErrorModel, AutomatonError>)
    ensures
        r == error_model_of(encode_utf8(name@)),
{
    let bytes = name.as_bytes();
    let prefix: Vec<u8> = vec![
        0x6Cu8,
        0x65u8,
        0x76u8,
        0x65u8,
        0x6Eu8,
        0x73u8,
        0x68u8,
        0x74u8,
        0x65u8,
        0x69u8,
        0x6Eu8,
        0x2Du8,
    ];
    assert(prefix@ =~= levenshtein_prefix());
    if bytes.len() < 12 || !same_bytes(slice_subrange(bytes, 0, 12), prefix.as_slice()) {
        return Ok(ErrorModel::Transducer);
    }
    let n = bytes.len();
    let ghost number = bytes@.skip(12);
    assert(number =~= bytes@.subrange(12, n as int));
    let dot = find_byte(bytes, 12, 0x2E);
    let whole = slice_subrange(bytes, 12, dot);
    assert(whole@ =~= number.subrange(0, index_of(number, 0x2E)));
    let ghost fraction = number.skip(index_of(number, 0x2E));
    assert(fraction =~= bytes@.subrange(dot as int, n as int));
    let cap = match parse_u64(whole) {
        Some(cap) => cap,
        None => {
            return Err(AutomatonError::UnknownModel);
        },
    };
    if cap > 0xFFFF_FFFF || whole[0] == 0x2B {
        return Err(AutomatonError::UnknownModel);
    }
    if dot < n {
        if n - dot < 2 {
            return Err(AutomatonError::UnknownModel);
        }
        let digits = slice_subrange(bytes, dot + 1, n);
        assert(digits@ =~= fraction.skip(1));
        if !digits_only(digits) {
            return Err(AutomatonError::UnknownModel);
        }
    }
    Ok(ErrorModel::Levenshtein(cap as u32))
}

/// Text is within distance zero of a query exactly where it is the
/// query's own bytes.
pub proof fn lemma_within_zero(query: Seq<char>, key: Seq<u8>)
    ensures
        within_distance(query, 0, key) <==> key == encode_utf8(query),
{
    if valid_utf8(key) {
        lemma_distance_zero(query, decode_utf8(key));
        decode_utf8_encode_utf8(key);
    }
    encode_utf8_valid_utf8(query);
    encode_utf8_decode_utf8(query);
    lemma_distance_zero(query, query);
}

/// With edit distance zero, approximate search is exact lookup: it accepts
/// the one entry of the query where the dictionary has the query, and no
/// entry where it has not.
pub proof fn lemma_exact_is_approximate_zero(entries: Seq<(Seq<u8>, u64)>, query: Seq<char>)
    requires
        keys_ascending(entries),
    ensures
        accepted_entries(entries, query, 0) == match lookup_spec(entries, encode_utf8(query)) {
            Some(id) => seq![(encode_utf8(query), id)],
            None => Seq::<(Seq<u8>, u64)>::empty(),
        },
    decreases entries.len(),
{
    let key = encode_utf8(query);
    if entries.len() > 0 {
        let n = entries.len() - 1;
        let front = entries.drop_last();
        let last = entries.last();
        assert forall|i: int, j: int| 0 <= i < j < front.len() implies bytes_lt(
            front[i].0,
            front[j].0,
        ) by {
            assert(bytes_lt(entries[i].0, entries[j].0));
        }
        lemma_exact_is_approximate_zero(front, query);
        lemma_within_zero(query, last.0);
        if has_key(front, key) {
            let i = key_index(front, key);
            assert(entries[i] == front[i]);
            assert(bytes_lt(entries[i].0, entries[n].0));
            lemma_bytes_lt_asymmetric(entries[i].0, entries[n].0);
            assert(has_key(entries, key));
            lemma_lookup_unique(entries, i);
            lemma_lookup_unique(front, i);
        } else if last.0 == key {
            assert(entries[n].0 == key);
            lemma_lookup_unique(entries, n);
            assert(accepted_entries(entries, query, 0) =~= seq![(key, last.1)]);
        } else {
            if has_key(entries, key) {
                let i = key_index(entries, key);
                assert(i < n);
                assert(front[i] == entries[i]);
            }
        }
    }
}

} // verus!
