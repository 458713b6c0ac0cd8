use movie_search::dictionary::Dictionary;
use movie_search::error::{AutomatonError, BuildError, IndexError, PreindexReaderError};
use movie_search::fuzzy::{
    correct_term, expand_corrections, sort_corrections, weigh_matches, Correction, Hit,
};
use movie_search::group::{group_by_term, TermGroup};
use movie_search::index::{build_index, fstindex};
use movie_search::posting::{decode_postings, encode_postings, Posting};
use movie_search::preindex::{write_preindex, Record};
use movie_search::query::Fetched;
use movie_search::stats::{stats, Stats};

fn posting(doc_id: u64, sent_id: u64, word_id: u64) -> Posting {
    Posting { doc_id, sent_id, word_id }
}

fn record(term: &str, doc_id: u64, sent_id: u64, word_id: u64) -> Record {
    Record { term: term.as_bytes().to_vec(), doc_id, sent_id, word_id }
}

fn dictionary_of(terms: &[&str]) -> Dictionary {
    let mut terms = terms.to_vec();
    terms.sort();
    let records: Vec<Record> =
        terms.iter().enumerate().map(|(i, t)| record(t, i as u64 + 1, 1, 1)).collect();
    let index = build_index(&records).unwrap();
    Dictionary::from_bytes(index.dictionary).unwrap()
}

fn correction(term: &str, dict_id: u64, weight: u64) -> Correction {
    Correction { term: term.as_bytes().to_vec(), dict_id, weight }
}

#[test]
fn records_are_grouped_by_term() {
    let records = vec![record("a", 1, 1, 1), record("a", 2, 1, 1), record("b", 1, 1, 2)];
    assert_eq!(
        group_by_term(&records),
        Some(vec![
            TermGroup { term: b"a".to_vec(), postings: vec![posting(1, 1, 1), posting(2, 1, 1)] },
            TermGroup { term: b"b".to_vec(), postings: vec![posting(1, 1, 2)] },
        ])
    );
    assert_eq!(group_by_term(&vec![]), Some(vec![]));
}

#[test]
fn descending_terms_have_no_grouping() {
    let records = vec![record("b", 1, 1, 1), record("a", 1, 1, 2)];
    assert_eq!(group_by_term(&records), None);
    let records = vec![record("a", 1, 1, 1), record("b", 1, 1, 2), record("a", 1, 1, 3)];
    assert_eq!(group_by_term(&records), None);
}

#[test]
fn the_index_numbers_the_terms_without_gaps() {
    let records = vec![
        record("brown", 7, 1, 3),
        record("fox", 7, 1, 4),
        record("fox", 9, 2, 1),
        record("quick", 7, 1, 2),
        record("the", 7, 1, 1),
    ];
    let index = build_index(&records).unwrap();
    assert_eq!(index.postings.len(), 4);
    let dictionary = Dictionary::from_bytes(index.dictionary.clone()).unwrap();
    assert_eq!(dictionary.len(), 4);
    assert_eq!(dictionary.get(b"brown"), Some(0));
    assert_eq!(dictionary.get(b"fox"), Some(1));
    assert_eq!(dictionary.get(b"quick"), Some(2));
    assert_eq!(dictionary.get(b"the"), Some(3));
    assert_eq!(dictionary.get(b"dog"), None);
    assert_eq!(dictionary.get(b""), None);
    assert_eq!(decode_postings(&index.postings[1]), Ok(vec![posting(7, 1, 4), posting(9, 2, 1)]));
}

#[test]
fn a_single_document_is_found_by_its_word() {
    // One document with the text "the quick brown fox".
    let mut records = vec![
        record("the", 5, 1, 1),
        record("quick", 5, 1, 2),
        record("brown", 5, 1, 3),
        record("fox", 5, 1, 4),
    ];
    records.sort_by(|a, b| a.term.cmp(&b.term));
    let index = fstindex(write_preindex(&records)).unwrap();
    let dictionary = Dictionary::from_bytes(index.dictionary.clone()).unwrap();
    let id = dictionary.get(b"brown").unwrap();
    assert_eq!(decode_postings(&index.postings[id as usize]), Ok(vec![posting(5, 1, 3)]));
}

#[test]
fn every_occurrence_is_found_again_through_the_dictionary() {
    let records = vec![
        record("a", 1, 1, 1),
        record("a", 1, 1, 5),
        record("a", 3, 2, 2),
        record("b", 2, 1, 1),
        record("c", 1, 1, 2),
        record("c", 2, 1, 2),
    ];
    let index = build_index(&records).unwrap();
    let dictionary = Dictionary::from_bytes(index.dictionary.clone()).unwrap();
    for r in &records {
        let id = dictionary.get(&r.term).unwrap() as usize;
        let postings = decode_postings(&index.postings[id]).unwrap();
        assert!(postings.contains(&posting(r.doc_id, r.sent_id, r.word_id)));
        assert!(postings.windows(2).all(|w| (w[0].doc_id, w[0].sent_id, w[0].word_id)
            < (w[1].doc_id, w[1].sent_id, w[1].word_id)));
    }
    for id in 0..index.postings.len() {
        assert!(records.iter().any(|r| dictionary.get(&r.term) == Some(id as u64)));
    }
}

#[test]
fn an_unsorted_stream_is_out_of_order() {
    assert_eq!(
        build_index(&vec![record("b", 1, 1, 1), record("a", 1, 1, 1)]),
        Err(BuildError::OutOfOrder)
    );
    assert_eq!(
        build_index(&vec![record("a", 2, 1, 1), record("a", 1, 1, 1)]),
        Err(BuildError::OutOfOrder)
    );
    assert_eq!(
        build_index(&vec![record("a", 1, 1, 2), record("a", 1, 1, 1)]),
        Err(BuildError::OutOfOrder)
    );
}

#[test]
fn a_record_that_occurs_twice_is_indexed_once() {
    let records = vec![
        record("a", 1, 1, 1),
        record("a", 1, 1, 1),
        record("a", 2, 1, 1),
        record("b", 1, 1, 2),
        record("b", 1, 1, 2),
        record("b", 1, 1, 2),
    ];
    let index = build_index(&records).unwrap();
    let dictionary = Dictionary::from_bytes(index.dictionary.clone()).unwrap();
    assert_eq!(dictionary.get(b"a"), Some(0));
    assert_eq!(dictionary.get(b"b"), Some(1));
    assert_eq!(decode_postings(&index.postings[0]), Ok(vec![posting(1, 1, 1), posting(2, 1, 1)]));
    assert_eq!(decode_postings(&index.postings[1]), Ok(vec![posting(1, 1, 2)]));
    assert_eq!(fstindex(write_preindex(&records)), Ok(index));
}

#[test]
fn a_term_of_no_record_is_not_in_the_dictionary() {
    let index = build_index(&vec![record("hyvää", 1, 1, 1), record("yötä", 1, 1, 2)]).unwrap();
    let dictionary = Dictionary::from_bytes(index.dictionary).unwrap();
    assert_eq!(dictionary.get(b"good"), None);
    assert_eq!(dictionary.get("hyv".as_bytes()), None);
    assert_eq!(dictionary.get("hyvääx".as_bytes()), None);
}

#[test]
fn a_character_that_shares_its_first_byte_with_one_of_the_query() {
    // In UTF-8, ä and ö begin with the same byte.
    let dictionary = dictionary_of(&["kasi", "käsi", "kösi", "käsiö", "kusi", "köysi"]);
    let mut comparisons = 0u64;
    assert_eq!(
        correct_term(&dictionary, "käsi", 1, &mut comparisons),
        Ok(vec![
            correction("käsi", 2, 0),
            correction("kasi", 0, 1),
            correction("kusi", 1, 1),
            correction("käsiö", 3, 1),
            correction("kösi", 4, 1),
        ])
    );
    assert_eq!(dictionary.search("äö", 1), Ok(Vec::<(Vec<u8>, u64)>::new()));
    let dictionary = dictionary_of(&["äö", "ä", "öö", "aö", "äöö", "öä"]);
    assert_eq!(
        dictionary.search("äö", 1),
        Ok(vec![
            ("aö".as_bytes().to_vec(), 0),
            ("ä".as_bytes().to_vec(), 1),
            ("äö".as_bytes().to_vec(), 2),
            ("äöö".as_bytes().to_vec(), 3),
            ("öö".as_bytes().to_vec(), 5),
        ])
    );
    // At cap zero the search is the exact lookup, whatever the characters.
    for term in ["äö", "ä", "öö", "aö", "äöö", "öä"] {
        let id = dictionary.get(term.as_bytes()).unwrap();
        assert_eq!(
            correct_term(&dictionary, term, 0, &mut comparisons),
            Ok(vec![correction(term, id, 0)])
        );
    }
    assert_eq!(correct_term(&dictionary, "ö", 0, &mut comparisons), Ok(vec![]));
}

#[test]
fn an_ascii_query_finds_every_term_within_the_cap() {
    let dictionary = dictionary_of(&["kasi", "kusi", "käsi", "kösi", "kasiö", "äasi", "kas", "kassit"]);
    let mut comparisons = 0u64;
    let found = correct_term(&dictionary, "kasi", 1, &mut comparisons).unwrap();
    assert_eq!(
        found,
        vec![
            correction("kasi", 1, 0),
            correction("kas", 0, 1),
            correction("kasiö", 2, 1),
            correction("kusi", 4, 1),
            correction("käsi", 5, 1),
            correction("kösi", 6, 1),
            correction("äasi", 7, 1),
        ]
    );
}

#[test]
fn the_empty_stream_has_an_empty_index() {
    let index = build_index(&vec![]).unwrap();
    assert!(index.postings.is_empty());
    let dictionary = Dictionary::from_bytes(index.dictionary).unwrap();
    assert_eq!(dictionary.len(), 0);
    assert_eq!(dictionary.get(b"a"), None);
}

#[test]
fn the_empty_term_can_be_indexed() {
    let index = build_index(&vec![record("", 1, 1, 1), record("a", 1, 1, 2)]).unwrap();
    let dictionary = Dictionary::from_bytes(index.dictionary).unwrap();
    assert_eq!(dictionary.get(b""), Some(0));
    assert_eq!(dictionary.get(b"a"), Some(1));
}

#[test]
fn a_stream_that_cannot_be_read_is_not_indexed() {
    let mut stream = write_preindex(&vec![record("a", 1, 1, 1)]);
    stream.extend_from_slice(&[0, 0, 0, 0, 0, 0, 0, 1]);
    assert_eq!(fstindex(stream), Err(BuildError::Preindex(PreindexReaderError::Io)));
    let mut stream = vec![0u8, 0, 0, 0, 0, 0, 0, 1, 0xFF];
    stream.extend_from_slice(&[0u8; 24]);
    assert_eq!(fstindex(stream), Err(BuildError::Preindex(PreindexReaderError::Utf8)));
}

#[test]
fn bytes_that_are_no_dictionary_are_refused() {
    assert_eq!(Dictionary::from_bytes(vec![1, 2, 3]).err(), Some(IndexError::CorruptDictionary));
    assert_eq!(Dictionary::from_bytes(vec![]).err(), Some(IndexError::CorruptDictionary));
}

#[test]
fn edit_distance_one_finds_the_neighbours_lightest_first() {
    let dictionary = dictionary_of(&["bat", "car", "cat"]);
    let mut comparisons = 0u64;
    let found = correct_term(&dictionary, "cat", 1, &mut comparisons).unwrap();
    assert_eq!(found, vec![correction("cat", 2, 0), correction("bat", 0, 1), correction("car", 1, 1)]);
}

#[test]
fn edit_distance_zero_is_exact_lookup() {
    let dictionary = dictionary_of(&["bat", "car", "cat", "cats"]);
    let mut comparisons = 0u64;
    for term in ["bat", "car", "cat", "cats"] {
        let found = correct_term(&dictionary, term, 0, &mut comparisons).unwrap();
        let id = dictionary.get(term.as_bytes()).unwrap();
        assert_eq!(found, vec![correction(term, id, 0)]);
    }
    assert_eq!(correct_term(&dictionary, "dog", 0, &mut comparisons), Ok(vec![]));
    assert_eq!(dictionary.get(b"dog"), None);
}

#[test]
fn edit_distance_counts_characters_not_bytes() {
    let dictionary = dictionary_of(&["kasi", "käsi", "käsiä"]);
    assert_eq!(
        dictionary.search("käsi", 1),
        Ok(vec![
            (b"kasi".to_vec(), 0),
            ("käsi".as_bytes().to_vec(), 1),
            ("käsiä".as_bytes().to_vec(), 2)
        ])
    );
    let mut comparisons = 0u64;
    let found = correct_term(&dictionary, "käsi", 1, &mut comparisons).unwrap();
    assert_eq!(
        found,
        vec![correction("käsi", 1, 0), correction("kasi", 0, 1), correction("käsiä", 2, 1)]
    );
}

#[test]
fn weights_are_edit_distances() {
    let matches = vec![
        (b"kitten".to_vec(), 4u64),
        (b"sitting".to_vec(), 9),
        (b"".to_vec(), 1),
        (vec![0xFFu8], 2),
    ];
    assert_eq!(
        weigh_matches("kitten", &matches),
        vec![
            correction("kitten", 4, 0),
            correction("sitting", 9, 3),
            correction("", 1, 6),
            Correction { term: vec![0xFF], dict_id: 2, weight: u64::MAX },
        ]
    );
    assert_eq!(weigh_matches("", &vec![(b"abc".to_vec(), 0u64)]), vec![correction("abc", 0, 3)]);
}

#[test]
fn corrections_sort_by_weight_then_term() {
    let mut comparisons = 0u64;
    let sorted = sort_corrections(
        vec![correction("b", 0, 2), correction("c", 1, 1), correction("a", 2, 2), correction("d", 3, 0)],
        &mut comparisons,
    );
    assert_eq!(
        sorted,
        vec![correction("d", 3, 0), correction("c", 1, 1), correction("a", 2, 2), correction("b", 0, 2)]
    );
    assert!(comparisons > 0);
}

#[test]
fn hits_list_the_postings_of_each_correction() {
    let fetched = vec![
        Fetched::Blob(encode_postings(&vec![posting(1, 1, 1), posting(2, 1, 1)])),
        Fetched::Unindexed,
        Fetched::Blob(encode_postings(&vec![posting(1, 1, 2)])),
    ];
    assert_eq!(
        expand_corrections(&fetched),
        Ok(vec![
            Hit { correction: 0, posting: posting(1, 1, 1) },
            Hit { correction: 0, posting: posting(2, 1, 1) },
            Hit { correction: 2, posting: posting(1, 1, 2) },
        ])
    );
    assert_eq!(expand_corrections(&vec![]), Ok(vec![]));
}

#[test]
fn hits_report_the_first_fault() {
    let good = Fetched::Blob(encode_postings(&vec![posting(1, 1, 1)]));
    assert_eq!(
        expand_corrections(&vec![good.clone(), Fetched::Missing, Fetched::Blob(vec![0u8; 5])]),
        Err(IndexError::MissingPostings)
    );
    assert_eq!(
        expand_corrections(&vec![good.clone(), Fetched::Blob(vec![0u8; 5]), Fetched::Missing]),
        Err(IndexError::CorruptBlob)
    );
    let unsorted = Fetched::Blob(encode_postings(&vec![posting(2, 1, 1), posting(1, 1, 1)]));
    assert_eq!(expand_corrections(&vec![good, unsorted]), Err(IndexError::CorruptBlob));
}

#[test]
fn stats_count_terms_postings_and_documents() {
    let records = vec![
        record("a", 1, 1, 1),
        record("a", 1, 1, 5),
        record("a", 3, 2, 2),
        record("b", 2, 1, 1),
        record("c", 1, 1, 2),
    ];
    let index = build_index(&records).unwrap();
    let dictionary = Dictionary::from_bytes(index.dictionary.clone()).unwrap();
    assert_eq!(stats(&dictionary, &index.postings), Ok(Stats { terms: 3, postings: 5, docs: 3 }));
    assert_eq!(stats(&dictionary, &vec![]), Ok(Stats { terms: 3, postings: 0, docs: 0 }));
}

#[test]
fn stats_report_a_corrupt_blob() {
    let dictionary = dictionary_of(&["a"]);
    assert_eq!(stats(&dictionary, &vec![vec![0u8; 24], vec![0u8; 7]]), Err(IndexError::CorruptBlob));
}

#[test]
fn an_automaton_that_would_be_too_large_is_not_made() {
    let dictionary = dictionary_of(&["cat"]);
    let query = "abcdefghijklmnopqrstuvwxyz0123456789".repeat(2);
    assert_eq!(dictionary.search(&query, 12), Err(AutomatonError::TooLarge));
    let mut comparisons = 0u64;
    assert_eq!(
        correct_term(&dictionary, &query, 12, &mut comparisons),
        Err(AutomatonError::TooLarge)
    );
    assert_eq!(dictionary.search("cat", 1), Ok(vec![(b"cat".to_vec(), 0)]));
    // A query that is not ASCII is held against every term instead.
    let query = "abcdefghijklmnopqrstuvwxyzåäö0123456789".repeat(2);
    assert_eq!(dictionary.search(&query, 12), Ok(vec![]));
    assert_eq!(dictionary.search("cät", 1), Ok(vec![(b"cat".to_vec(), 0)]));
}
