//! The term dictionary: an ordered map from terms to the identifiers of
//! their postings lists, kept as a finite-state transducer.
//!
//! The transducer is that of the `fst` crate. What this module states of it
//! is taken on trust; every item that does so says what it takes.

use crate::distance::{chars_of, distance, edit_distance};
use crate::error::{AutomatonError, IndexError};
use crate::term::{bytes_lt, copy_bytes, lemma_bytes_lt_asymmetric};
use crate::text::text_of;
use fst::{IntoStreamer, MapBuilder};
use fst_levenshtein::Levenshtein;
use vstd::prelude::*;
use vstd::utf8::{decode_utf8, is_ascii_chars, valid_utf8};

verus! {

/// `fst::Map`, an ordered map from byte strings to numbers; opaque here.
#[verifier::external_type_specification]
#[verifier::external_body]
pub struct ExMap(fst::Map);

/// `fst::MapBuilder`, which builds such a map from keys in ascending
/// order; opaque here.
#[verifier::external_type_specification]
#[verifier::external_body]
#[verifier::reject_recursive_types(W)]
pub struct ExMapBuilder<W>(MapBuilder<W>);

/// `fst::Error`, the fault of a map or a builder; opaque here.
#[verifier::external_type_specification]
#[verifier::external_body]
pub struct ExFstError(fst::Error);

/// `fst_levenshtein::Error`, the fault of an automaton that would be too
/// large; opaque here.
#[verifier::external_type_specification]
#[verifier::external_body]
pub struct ExLevenshteinError(fst_levenshtein::Error);

/// The entries that have been inserted into an in-memory builder, in the
/// order of insertion.
pub uninterp spec fn builder_entries(b: MapBuilder<Vec<u8>>) -> Seq<(Seq<u8>, u64)>;

/// The entries of a map that a builder wrote, in the order of their keys;
/// `None` of a map that no builder wrote.
pub uninterp spec fn map_entries(m: fst::Map) -> Option<Seq<(Seq<u8>, u64)>>;

/// The entries of the builder that wrote these bytes; `None` of bytes that
/// no builder wrote.
pub uninterp spec fn fst_entries(bytes: Seq<u8>) -> Option<Seq<(Seq<u8>, u64)>>;

/// Whether `fst_levenshtein::Levenshtein::new` makes the automaton for the
/// query and the cap: it does unless the automaton would have too many
/// states.
pub uninterp spec fn automaton_fits(query: Seq<char>, cap: u32) -> bool;

/// The keys strictly ascend in lexicographic byte order.
pub open spec fn keys_ascending(entries: Seq<(Seq<u8>, u64)>) -> bool {
    forall|i: int, j: int| 0 <= i < j < entries.len() ==> bytes_lt(entries[i].0, entries[j].0)
}

/// Some entry has the key.
pub open spec fn has_key(entries: Seq<(Seq<u8>, u64)>, key: Seq<u8>) -> bool {
    exists|i: int| 0 <= i < entries.len() && (#[trigger] entries[i]).0 == key
}

/// The place of an entry with the key.
pub open spec fn key_index(entries: Seq<(Seq<u8>, u64)>, key: Seq<u8>) -> int {
    choose|i: int| 0 <= i < entries.len() && (#[trigger] entries[i]).0 == key
}

/// The value under the key, if an entry has it.
pub open spec fn lookup_spec(entries: Seq<(Seq<u8>, u64)>, key: Seq<u8>) -> Option<u64> {
    if has_key(entries, key) {
        Some(entries[key_index(entries, key)].1)
    } else {
        None
    }
}

/// The builder takes the key: it is the first, or larger than the last.
pub open spec fn takes_key(entries: Seq<(Seq<u8>, u64)>, key: Seq<u8>) -> bool {
    entries.len() == 0 || bytes_lt(entries.last().0, key)
}

/// The key is text within edit distance `cap` of the query, counted in
/// characters.
pub open spec fn within_distance(query: Seq<char>, cap: nat, key: Seq<u8>) -> bool {
    valid_utf8(key) && edit_distance(query, decode_utf8(key)) <= cap
}

/// The entries whose keys are within edit distance `cap` of the query, in
/// the order of the entries.
pub open spec fn accepted_entries(entries: Seq<(Seq<u8>, u64)>, query: Seq<char>, cap: nat) -> Seq<
    (Seq<u8>, u64),
>
    decreases entries.len(),
{
    if entries.len() == 0 {
        Seq::empty()
    } else {
        let rest = accepted_entries(entries.drop_last(), query, cap);
        if within_distance(query, cap, entries.last().0) {
            rest.push(entries.last())
        } else {
            rest
        }
    }
}

/// The automaton of `fst_levenshtein` is exact for the query and the cap:
/// it accepts the keys within the cap and no others. It is for a query of
/// ASCII characters, and for any query where the cap is zero. For another
/// query it misses keys in which another character takes the place of a
/// character of the query that is not ASCII.
pub open spec fn search_is_exact(query: Seq<char>, cap: u32) -> bool {
    is_ascii_chars(query) || cap == 0
}

/// The mathematical values of key-value pairs.
pub open spec fn pairs_view(v: Seq<(Vec<u8>, u64)>) -> Seq<(Seq<u8>, u64)> {
    Seq::new(v.len(), |i: int| (v[i].0@, v[i].1))
}

/// An empty in-memory builder, from `fst::MapBuilder::memory`.
///
/// Trusted: nothing has been inserted into it.
#[verifier::external_body]
pub(crate) fn builder_new() -> (b: MapBuilder<Vec<u8>>)
    ensures
        builder_entries(b) == Seq::<(Seq<u8>, u64)>::empty(),
{
    MapBuilder::memory()
}

/// Inserts an entry with `fst::MapBuilder::insert`.
///
/// Trusted: a key that is the first, or larger than the last one inserted,
/// is taken and becomes the last entry; any other key is refused and the
/// builder keeps its entries. Writing to memory does not fail.
#[verifier::external_body]
pub(crate) fn builder_insert(b: &mut MapBuilder<Vec<u8>>, key: &[u8], value: u64) -> (r: Result<
    (),
    fst::Error,
>)
    ensures
        r is Ok <==> takes_key(builder_entries(*old(b)), key@),
        builder_entries(*final(b)) == if takes_key(builder_entries(*old(b)), key@) {
            builder_entries(*old(b)).push((key@, value))
        } else {
            builder_entries(*old(b))
        },
{
    b.insert(key, value)
}

/// Finishes the map with `fst::MapBuilder::into_inner`.
///
/// Trusted: the builder hands out the bytes of a map of its entries.
/// Writing to memory does not fail.
#[verifier::external_body]
pub(crate) fn builder_finish(b: MapBuilder<Vec<u8>>) -> (r: Result<Vec<u8>, fst::Error>)
    ensures
        r is Ok,
        fst_entries(r->Ok_0@) == Some(builder_entries(b)),
{
    b.into_inner()
}

/// Opens a map with `fst::Map::from_bytes`.
///
/// Trusted: bytes that a builder wrote are accepted, and the map holds the
/// builder's entries, whose keys strictly ascend. Of other bytes nothing is
/// claimed.
#[verifier::external_body]
pub(crate) fn map_from_bytes(bytes: Vec<u8>) -> (r: Result<fst::Map, fst::Error>)
    ensures
        fst_entries(bytes@) is Some ==> r is Ok,
        fst_entries(bytes@) is Some ==> map_entries(r->Ok_0) == fst_entries(bytes@),
        fst_entries(bytes@) is Some ==> keys_ascending(map_entries(r->Ok_0)->Some_0),
{
    fst::Map::from_bytes(bytes)
}

/// Looks a key up with `fst::Map::get`.
///
/// Trusted: of a map that a builder wrote, the result is the value of the
/// entry with that key, and `None` where no entry has it.
#[verifier::external_body]
pub(crate) fn map_get(m: &fst::Map, key: &[u8]) -> (r: Option<u64>)
    requires
        map_entries(*m) is Some,
    ensures
        r is Some ==> map_entries(*m)->Some_0.contains((key@, r->Some_0)),
        r is None ==> !has_key(map_entries(*m)->Some_0, key@),
{
    m.get(key)
}

/// The number of entries, from `fst::Map::len`.
///
/// Trusted: of a map that a builder wrote, it is the number of its entries.
#[verifier::external_body]
pub(crate) fn map_len(m: &fst::Map) -> (n: usize)
    requires
        map_entries(*m) is Some,
    ensures
        n == map_entries(*m)->Some_0.len(),
{
    m.len()
}

/// The entries within an edit distance of a query: a search of the map,
/// by `fst::Map::search` and the stream's `into_byte_vec`, with the
/// automaton that `fst_levenshtein::Levenshtein::new` makes for the query
/// and the cap. It is for a query and a cap for which that automaton is
/// exact.
///
/// Trusted, of a map that a builder wrote: the search is made exactly
/// where the automaton is, which fails where it would have too many
/// states; and it holds, in the order of the keys, the entries whose keys
/// are UTF-8 text within the cap of the query in edit distance, counted in
/// characters.
#[verifier::external_body]
pub(crate) fn map_search(m: &fst::Map, query: &str, cap: u32) -> (r: Result<
    Vec<(Vec<u8>, u64)>,
    fst_levenshtein::Error,
>)
    requires
        map_entries(*m) is Some,
        search_is_exact(query@, cap),
    ensures
        r is Ok <==> automaton_fits(query@, cap),
        r is Ok ==> pairs_view(r->Ok_0@) == accepted_entries(
            map_entries(*m)->Some_0,
            query@,
            cap as nat,
        ),
{
    let automaton = Levenshtein::new(query, cap)?;
    Ok(m.search(&automaton).into_stream().into_byte_vec())
}

/// All entries, from `fst::Map::stream` and the stream's `into_byte_vec`.
///
/// Trusted: of a map that a builder wrote, the result holds its entries in
/// the order of the keys.
#[verifier::external_body]
pub(crate) fn map_stream(m: &fst::Map) -> (r: Vec<(Vec<u8>, u64)>)
    requires
        map_entries(*m) is Some,
    ensures
        pairs_view(r@) == map_entries(*m)->Some_0,
{
    m.stream().into_byte_vec()
}

/// Whether the key is text within edit distance `cap` of the query.
pub fn is_within(wanted: &Vec<char>, cap: u32, key: &[u8]) -> (b: bool)
    ensures
        b == within_distance(wanted@, cap as nat, key@),
{
    match text_of(key) {
        Ok(text) => {
            let found = chars_of(text);
            distance(wanted, &found) <= cap as u64
        },
        Err(_) => false,
    }
}

/// The entries whose keys are within edit distance `cap` of the query.
pub fn entries_within(entries: &Vec<(Vec<u8>, u64)>, query: &str, cap: u32) -> (r: Vec<
    (Vec<u8>, u64),
>)
    ensures
        pairs_view(r@) == accepted_entries(pairs_view(entries@), query@, cap as nat),
{
    let wanted = chars_of(query);
    let ghost all = pairs_view(entries@);
    let mut r: Vec<(Vec<u8>, u64)> = Vec::new();
    let mut i: usize = 0;
    assert(pairs_view(r@) =~= accepted_entries(all.take(0), query@, cap as nat));
    while i < entries.len()
        invariant
            i <= entries.len(),
            wanted@ == query@,
            all == pairs_view(entries@),
            pairs_view(r@) == accepted_entries(all.take(i as int), query@, cap as nat),
        decreases entries.len() - i,
    {
        proof {
            assert(all.take(i + 1).drop_last() =~= all.take(i as int));
            assert(all.take(i + 1).last() == all[i as int]);
        }
        if is_within(&wanted, cap, entries[i].0.as_slice()) {
            let ghost before = pairs_view(r@);
            let entry = (copy_bytes(entries[i].0.as_slice()), entries[i].1);
            r.push(entry);
            assert(pairs_view(r@) =~= before.push(all[i as int]));
        }
        i += 1;
    }
    assert(all.take(i as int) =~= all);
    r
}

/// In a map with ascending keys the entry with a key is the only one.
pub proof fn lemma_lookup_unique(entries: Seq<(Seq<u8>, u64)>, i: int)
    requires
        keys_ascending(entries),
        0 <= i < entries.len(),
    ensures
        lookup_spec(entries, entries[i].0) == Some(entries[i].1),
{
    let key = entries[i].0;
    assert(has_key(entries, key));
    let c = key_index(entries, key);
    if c < i {
        assert(bytes_lt(entries[c].0, entries[i].0));
        lemma_bytes_lt_asymmetric(entries[c].0, entries[i].0);
    } else if i < c {
        assert(bytes_lt(entries[i].0, entries[c].0));
        lemma_bytes_lt_asymmetric(entries[i].0, entries[c].0);
    }
}

/// A term dictionary that is ready for lookups.
pub struct Dictionary {
    map: fst::Map,
}

impl Dictionary {
    /// The dictionary was written by a dictionary builder.
    pub closed spec fn wf(&self) -> bool {
        map_entries(self.map) is Some && keys_ascending(map_entries(self.map)->Some_0)
    }

    /// The entries in ascending order of term.
    pub closed spec fn entries(&self) -> Seq<(Seq<u8>, u64)> {
        map_entries(self.map)->Some_0
    }

    /// The terms of a dictionary strictly ascend.
    pub proof fn lemma_keys_ascending(&self)
        requires
            self.wf(),
        ensures
            keys_ascending(self.entries()),
    {
    }

    /// Opens a dictionary from its bytes.
    ///
    /// Bytes that a dictionary builder wrote are accepted and give a
    /// dictionary of the builder's entries. Bytes that are refused are
    /// reported as a corrupt dictionary.
    pub fn from_bytes(bytes: Vec<u8>) -> (r: Result<Dictionary, IndexError>)
        ensures
            fst_entries(bytes@) is Some ==> r is Ok && r->Ok_0.wf() && r->Ok_0.entries()
                == fst_entries(bytes@)->Some_0,
            r is Err ==> r->Err_0 == IndexError::CorruptDictionary,
    {
        match map_from_bytes(bytes) {
            Ok(map) => Ok(Dictionary { map }),
            Err(_) => Err(IndexError::CorruptDictionary),
        }
    }

    /// The identifier of the term's postings list, if the term is in the
    /// dictionary.
    pub fn get(&self, term: &[u8]) -> (r: Option<u64>)
        requires
            self.wf(),
        ensures
            r == lookup_spec(self.entries(), term@),
    {
        let r = map_get(&self.map, term);
        proof {
            let entries = self.entries();
            match r {
                Some(v) => {
                    let i = choose|i: int| 0 <= i < entries.len() && entries[i] == (term@, v);
                    lemma_lookup_unique(entries, i);
                },
                None => {},
            }
        }
        r
    }

    /// The entries whose terms are within the cap of the query in edit
    /// distance, counted in characters, in ascending order of term.
    ///
    /// Where the query is ASCII, and where the cap is zero, the dictionary
    /// is searched with an automaton, and the search fails where the
    /// automaton would be too large. For any other query the automaton is
    /// not exact, and every term is held against the query.
    pub fn search(&self, query: &str, cap: u32) -> (r: Result<Vec<(Vec<u8>, u64)>, AutomatonError>)
        requires
            self.wf(),
        ensures
            r is Ok <==> (search_is_exact(query@, cap) ==> automaton_fits(query@, cap)),
            r is Err ==> r->Err_0 == AutomatonError::TooLarge,
            r is Ok ==> pairs_view(r->Ok_0@) == accepted_entries(
                self.entries(),
                query@,
                cap as nat,
            ),
    {
        if cap == 0 || query.is_ascii() {
            match map_search(&self.map, query, cap) {
                Ok(found) => Ok(found),
                Err(_) => Err(AutomatonError::TooLarge),
            }
        } else {
            let all = map_stream(&self.map);
            Ok(entries_within(&all, query, cap))
        }
    }

    /// The number of terms.
    pub fn len(&self) -> (n: usize)
        requires
            self.wf(),
        ensures
            n == self.entries().len(),
    {
        map_len(&self.map)
    }
}

} // verus!
