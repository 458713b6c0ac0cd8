use movie_search::distance::{chars_of, distance};
use movie_search::error::IndexError;
use movie_search::intersect::DocTf;
use movie_search::method::Method;
use movie_search::order::{counted_ordering, is_ranked_ascending};
use movie_search::posting::{encode_postings, Posting};
use movie_search::preindexer::TermCount;
use movie_search::query::{
    are_document_lists, corrected_postings, evaluate_lists, evaluate_query, term_list,
    union_postings, Fetched, QueryOutcome,
};
use movie_search::rank::{rank_by_score, top_terms, Scored};
use std::cmp::Ordering;

fn posting(doc_id: u64, sent_id: u64, word_id: u64) -> Posting {
    Posting { doc_id, sent_id, word_id }
}

fn blob(docs: &[u64]) -> Fetched {
    let postings: Vec<Posting> = docs.iter().map(|&d| posting(d, 1, 1)).collect();
    Fetched::Blob(encode_postings(&postings))
}

fn count(term: &str, count: u64) -> TermCount {
    TermCount { term: term.as_bytes().to_vec(), count }
}

fn chars(s: &str) -> Vec<char> {
    s.chars().collect()
}

#[test]
fn equal_scores_rank_by_ascending_document() {
    // d1 = "red red blue", d2 = "red blue blue": the same score.
    let mut comparisons = 0u64;
    let ranked = rank_by_score(
        vec![Scored { doc_id: 2, score: 700 }, Scored { doc_id: 1, score: 700 }],
        &mut comparisons,
    );
    assert_eq!(ranked, vec![Scored { doc_id: 1, score: 700 }, Scored { doc_id: 2, score: 700 }]);
}

#[test]
fn the_best_score_ranks_first() {
    let mut comparisons = 0u64;
    let ranked = rank_by_score(
        vec![
            Scored { doc_id: 1, score: 10 },
            Scored { doc_id: 2, score: 30 },
            Scored { doc_id: 3, score: 20 },
            Scored { doc_id: 0, score: 30 },
        ],
        &mut comparisons,
    );
    assert_eq!(
        ranked,
        vec![
            Scored { doc_id: 0, score: 30 },
            Scored { doc_id: 2, score: 30 },
            Scored { doc_id: 3, score: 20 },
            Scored { doc_id: 1, score: 10 },
        ]
    );
    assert!(is_ranked_ascending(&ranked));
}

#[test]
fn the_most_frequent_terms_come_first() {
    let mut comparisons = 0u64;
    let counts = vec![count("ja", 5), count("on", 9), count("se", 5), count("ei", 1)];
    assert_eq!(
        top_terms(counts.clone(), 3, &mut comparisons),
        vec![count("on", 9), count("se", 5), count("ja", 5)]
    );
    assert_eq!(top_terms(counts.clone(), 0, &mut comparisons), vec![]);
    assert_eq!(top_terms(counts, 9, &mut comparisons).len(), 4);
}

#[test]
fn comparisons_are_counted_until_the_counter_is_full() {
    let a = Scored { doc_id: 1, score: 5 };
    let b = Scored { doc_id: 2, score: 5 };
    let c = Scored { doc_id: 1, score: 6 };
    let mut n = 0u64;
    assert_eq!(counted_ordering(&a, &b, &mut n), Ordering::Less);
    assert_eq!(counted_ordering(&b, &a, &mut n), Ordering::Greater);
    assert_eq!(counted_ordering(&a, &a, &mut n), Ordering::Equal);
    assert_eq!(counted_ordering(&c, &a, &mut n), Ordering::Less);
    assert_eq!(n, 4);
    let mut full = u64::MAX;
    assert_eq!(counted_ordering(&a, &c, &mut full), Ordering::Greater);
    assert_eq!(full, u64::MAX);
}

#[test]
fn is_ranked_ascending_tells_sorted_from_unsorted() {
    assert!(is_ranked_ascending(&Vec::<Scored>::new()));
    assert!(is_ranked_ascending(&vec![Scored { doc_id: 3, score: 1 }]));
    assert!(!is_ranked_ascending(&vec![
        Scored { doc_id: 3, score: 1 },
        Scored { doc_id: 2, score: 1 }
    ]));
}

#[test]
fn edit_distance_of_known_pairs() {
    assert_eq!(distance(&chars("kitten"), &chars("sitting")), 3);
    assert_eq!(distance(&chars("cat"), &chars("cat")), 0);
    assert_eq!(distance(&chars("cat"), &chars("car")), 1);
    assert_eq!(distance(&chars("cat"), &chars("bat")), 1);
    assert_eq!(distance(&chars(""), &chars("abc")), 3);
    assert_eq!(distance(&chars("abc"), &chars("")), 3);
    assert_eq!(distance(&chars(""), &chars("")), 0);
    assert_eq!(distance(&chars("käsi"), &chars("kasi")), 1);
    assert_eq!(distance(&chars("flaw"), &chars("lawn")), 2);
}

#[test]
fn chars_of_gives_the_characters() {
    assert_eq!(chars_of("käsi"), vec!['k', 'ä', 's', 'i']);
    assert_eq!(chars_of(""), Vec::<char>::new());
}

#[test]
fn a_term_list_counts_the_postings_per_document() {
    let fetched = Fetched::Blob(encode_postings(&vec![
        posting(1, 1, 1),
        posting(1, 1, 2),
        posting(3, 1, 1),
    ]));
    assert_eq!(term_list(&fetched), Ok(vec![DocTf { doc_id: 1, tf: 2 }, DocTf { doc_id: 3, tf: 1 }]));
    assert_eq!(term_list(&Fetched::Unindexed), Ok(vec![]));
    assert_eq!(term_list(&Fetched::Missing), Err(IndexError::MissingPostings));
    assert_eq!(term_list(&Fetched::Blob(vec![0u8; 10])), Err(IndexError::CorruptBlob));
    let unsorted = Fetched::Blob(encode_postings(&vec![posting(3, 1, 1), posting(1, 1, 1)]));
    assert_eq!(term_list(&unsorted), Err(IndexError::CorruptBlob));
}

#[test]
fn a_query_matches_the_documents_that_hold_every_term() {
    let fetched = vec![blob(&[1, 2, 5, 7]), blob(&[2, 5, 9])];
    for method in [Method::Naive, Method::Ascending] {
        let (mut s, mut c) = (0u64, 0u64);
        assert_eq!(
            evaluate_query(&fetched, method, &mut s, &mut c),
            Ok(QueryOutcome::Matches(vec![(2, vec![1, 1]), (5, vec![1, 1])]))
        );
    }
}

#[test]
fn a_query_without_terms_is_empty() {
    let (mut s, mut c) = (0u64, 0u64);
    assert_eq!(evaluate_query(&vec![], Method::Naive, &mut s, &mut c), Ok(QueryOutcome::EmptyQuery));
}

#[test]
fn a_query_of_unknown_terms_is_unindexed() {
    let (mut s, mut c) = (0u64, 0u64);
    assert_eq!(
        evaluate_query(&vec![Fetched::Unindexed, Fetched::Unindexed], Method::Ascending, &mut s, &mut c),
        Ok(QueryOutcome::Unindexed)
    );
}

#[test]
fn a_query_without_common_documents_has_no_results() {
    let (mut s, mut c) = (0u64, 0u64);
    assert_eq!(
        evaluate_query(&vec![blob(&[1, 3]), blob(&[2, 4])], Method::Naive, &mut s, &mut c),
        Ok(QueryOutcome::NoResults)
    );
    assert_eq!(
        evaluate_query(&vec![blob(&[1, 3]), Fetched::Unindexed], Method::Ascending, &mut s, &mut c),
        Ok(QueryOutcome::NoResults)
    );
}

#[test]
fn a_query_reports_the_first_fault_of_the_index() {
    let (mut s, mut c) = (0u64, 0u64);
    assert_eq!(
        evaluate_query(&vec![blob(&[1]), Fetched::Missing], Method::Naive, &mut s, &mut c),
        Err(IndexError::MissingPostings)
    );
    assert_eq!(
        evaluate_query(
            &vec![Fetched::Blob(vec![1u8; 3]), Fetched::Missing],
            Method::Naive,
            &mut s,
            &mut c
        ),
        Err(IndexError::CorruptBlob)
    );
}

#[test]
fn stopwords_are_the_most_frequent_tokens() {
    let lines = vec!["se on se".to_string(), "Se ja on se".to_string(), "ei".to_string()];
    let mut comparisons = 0u64;
    assert_eq!(
        movie_search::rank::mkstopwords(&lines, 2, true, &mut comparisons),
        vec![b"se".to_vec(), b"on".to_vec()]
    );
    assert_eq!(
        movie_search::rank::mkstopwords(&lines, 3, false, &mut comparisons),
        vec![b"se".to_vec(), b"on".to_vec(), b"ja".to_vec()]
    );
    assert_eq!(movie_search::rank::mkstopwords(&lines, 99, true, &mut comparisons).len(), 4);
    assert!(movie_search::rank::mkstopwords(&vec![], 5, true, &mut comparisons).is_empty());
}

#[test]
fn the_union_of_postings_lists_is_a_postings_list() {
    let a = vec![posting(1, 1, 1), posting(1, 1, 3), posting(4, 1, 1)];
    let b = vec![posting(1, 1, 2), posting(1, 1, 3), posting(2, 9, 9), posting(5, 0, 0)];
    assert_eq!(
        union_postings(&a, &b),
        vec![
            posting(1, 1, 1),
            posting(1, 1, 2),
            posting(1, 1, 3),
            posting(2, 9, 9),
            posting(4, 1, 1),
            posting(5, 0, 0)
        ]
    );
    assert_eq!(union_postings(&a, &vec![]), a);
    assert_eq!(union_postings(&vec![], &b), b);
    assert_eq!(union_postings(&vec![], &vec![]), vec![]);
}

#[test]
fn a_corrected_term_has_the_postings_of_all_its_corrections() {
    let fetched = vec![
        Fetched::Blob(encode_postings(&vec![posting(3, 1, 1), posting(7, 1, 1)])),
        Fetched::Unindexed,
        Fetched::Blob(encode_postings(&vec![posting(1, 1, 1), posting(3, 1, 2)])),
    ];
    assert_eq!(
        corrected_postings(&fetched),
        Ok(vec![posting(1, 1, 1), posting(3, 1, 1), posting(3, 1, 2), posting(7, 1, 1)])
    );
    assert_eq!(corrected_postings(&vec![]), Ok(vec![]));
    assert_eq!(
        corrected_postings(&vec![Fetched::Missing, Fetched::Blob(vec![0u8; 1])]),
        Err(IndexError::MissingPostings)
    );
    assert_eq!(
        corrected_postings(&vec![Fetched::Blob(vec![0u8; 1]), Fetched::Missing]),
        Err(IndexError::CorruptBlob)
    );
}

#[test]
fn lists_are_evaluated_like_a_query() {
    let one = vec![DocTf { doc_id: 1, tf: 2 }, DocTf { doc_id: 4, tf: 1 }];
    let two = vec![DocTf { doc_id: 4, tf: 3 }];
    let (mut s, mut c) = (0u64, 0u64);
    assert_eq!(evaluate_lists(&vec![], Method::Naive, &mut s, &mut c), QueryOutcome::EmptyQuery);
    assert_eq!(
        evaluate_lists(&vec![vec![], vec![]], Method::Naive, &mut s, &mut c),
        QueryOutcome::Unindexed
    );
    assert_eq!(
        evaluate_lists(&vec![one.clone(), vec![]], Method::Ascending, &mut s, &mut c),
        QueryOutcome::NoResults
    );
    assert_eq!(
        evaluate_lists(&vec![one, two], Method::Ascending, &mut s, &mut c),
        QueryOutcome::Matches(vec![(4, vec![1, 3])])
    );
}

#[test]
fn document_lists_are_told_from_other_lists() {
    let one = vec![DocTf { doc_id: 1, tf: 2 }, DocTf { doc_id: 4, tf: 1 }];
    let bad = vec![DocTf { doc_id: 4, tf: 3 }, DocTf { doc_id: 4, tf: 3 }];
    assert!(are_document_lists(&vec![]));
    assert!(are_document_lists(&vec![one.clone(), vec![]]));
    assert!(!are_document_lists(&vec![one, bad]));
}

#[test]
fn a_full_counter_stays_full() {
    let fetched = vec![blob(&[1, 2, 5, 7]), blob(&[2, 5, 9])];
    for method in [Method::Naive, Method::Ascending] {
        let (mut s, mut c) = (0u64, u64::MAX - 3);
        assert_eq!(
            evaluate_query(&fetched, method, &mut s, &mut c),
            Ok(QueryOutcome::Matches(vec![(2, vec![1, 1]), (5, vec![1, 1])]))
        );
        assert_eq!(c, u64::MAX);
    }
}
