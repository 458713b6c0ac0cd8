use movie_search::error::IngestError;
use movie_search::ingest::{
    dedup_by_doc, ingest_document, select_subtitles, Event, Subtitle, Token,
};
use movie_search::norms::document_norms;
use movie_search::preindex::{read_preindex, Record};
use movie_search::preindexer::{
    is_stopword, preindex, sort_records, term_frequencies, Document, TermCount,
};

fn word(id: u64, text: &str) -> Event {
    Event::Word(id, text.to_string())
}

fn finnish() -> Event {
    Event::Meta(Some("Finnish".to_string()))
}

fn token(term: &str, sent_id: u64, word_id: u64) -> Token {
    Token { term: term.as_bytes().to_vec(), sent_id, word_id }
}

fn record(term: &str, doc_id: u64, sent_id: u64, word_id: u64) -> Record {
    Record { term: term.as_bytes().to_vec(), doc_id, sent_id, word_id }
}

fn count(term: &str, count: u64) -> TermCount {
    TermCount { term: term.as_bytes().to_vec(), count }
}

fn sentence(id: u64, words: &[&str]) -> Vec<Event> {
    let mut events = vec![Event::SentenceStart(id)];
    for (i, w) in words.iter().enumerate() {
        events.push(word(i as u64 + 1, w));
    }
    events.push(Event::SentenceEnd(id));
    events
}

fn document(doc_id: u64, text: &str) -> Document {
    let mut events = vec![finnish()];
    events.extend(sentence(1, &text.split(' ').collect::<Vec<_>>()));
    events.push(Event::End);
    Document { doc_id, events }
}

#[test]
fn only_the_first_subtitle_of_a_document_is_kept() {
    assert_eq!(dedup_by_doc(&vec![42, 7, 42, 42, 9, 7]), vec![0, 1, 4]);
    assert_eq!(dedup_by_doc(&vec![]), Vec::<usize>::new());
    assert_eq!(dedup_by_doc(&vec![5]), vec![0]);
}

#[test]
fn two_subtitles_of_one_document_count_once() {
    let paths = vec!["root/42/1/a.xml.gz".to_string(), "root/42/2/b.xml.gz".to_string()];
    assert_eq!(select_subtitles(&paths), Ok(vec![Subtitle { doc_id: 42, position: 0 }]));
}

#[test]
fn subtitles_are_chosen_in_the_order_of_their_paths() {
    let paths = vec![
        "c/9/x/a.xml.gz".to_string(),
        "c/3/x/a.xml.gz".to_string(),
        "c/9/y/b.xml.gz".to_string(),
        "c/1/x/a.xml.gz".to_string(),
    ];
    assert_eq!(
        select_subtitles(&paths),
        Ok(vec![
            Subtitle { doc_id: 9, position: 0 },
            Subtitle { doc_id: 3, position: 1 },
            Subtitle { doc_id: 1, position: 3 },
        ])
    );
}

#[test]
fn a_path_that_names_no_document_is_a_fault() {
    let paths = vec![
        "c/9/x/a.xml.gz".to_string(),
        "c/movie/x/a.xml.gz".to_string(),
        "a.xml.gz".to_string(),
    ];
    assert_eq!(select_subtitles(&paths), Err(IngestError::MalformedPath(1)));
}

#[test]
fn words_carry_the_sentence_that_was_begun_last() {
    let mut events = vec![finnish()];
    events.extend(sentence(3, &["hyvää", "yötä"]));
    events.extend(sentence(4, &["Kiitos"]));
    events.push(Event::End);
    assert_eq!(
        ingest_document(&events, false),
        Some(vec![token("hyvää", 3, 1), token("yötä", 3, 2), token("Kiitos", 4, 1)])
    );
    assert_eq!(
        ingest_document(&events, true),
        Some(vec![token("hyvää", 3, 1), token("yötä", 3, 2), token("kiitos", 4, 1)])
    );
}

#[test]
fn a_subtitle_in_another_language_is_skipped() {
    let mut events = vec![Event::Meta(Some("English".to_string()))];
    events.extend(sentence(1, &["good", "night"]));
    events.push(Event::End);
    assert_eq!(ingest_document(&events, false), None);
    let english = Document { doc_id: 8, events };
    let mut comparisons = 0u64;
    let result = preindex(&vec![english, document(9, "hyvää yötä")], &vec![], false, &mut comparisons);
    assert_eq!(result.docs, vec![9]);
    assert_eq!(result.tdf, vec![count("hyvää", 1), count("yötä", 1)]);
}

#[test]
fn a_subtitle_without_metadata_is_skipped() {
    let mut events = sentence(1, &["hyvää"]);
    events.push(Event::End);
    assert_eq!(ingest_document(&events, false), None);
    assert_eq!(ingest_document(&vec![Event::Meta(None), Event::End], false), None);
    assert_eq!(ingest_document(&vec![], false), None);
}

#[test]
fn the_first_metadata_block_decides() {
    let events = vec![
        finnish(),
        word(1, "a"),
        Event::Meta(Some("English".to_string())),
        word(2, "b"),
        Event::End,
    ];
    assert_eq!(ingest_document(&events, false), Some(vec![token("a", 0, 1), token("b", 0, 2)]));
    let events = vec![Event::Meta(Some("English".to_string())), finnish(), word(1, "a"), Event::End];
    assert_eq!(ingest_document(&events, false), None);
}

#[test]
fn words_before_the_metadata_are_kept_with_the_subtitle() {
    let events = vec![word(1, "a"), finnish(), word(2, "b"), Event::Other];
    assert_eq!(ingest_document(&events, false), Some(vec![token("a", 0, 1), token("b", 0, 2)]));
}

#[test]
fn a_parser_error_skips_the_subtitle() {
    let events = vec![finnish(), word(1, "a"), Event::Error, word(2, "b"), Event::End];
    assert_eq!(ingest_document(&events, false), None);
}

#[test]
fn nothing_is_read_after_the_end() {
    let events = vec![finnish(), word(1, "a"), Event::End, word(2, "b"), Event::Error];
    assert_eq!(ingest_document(&events, false), Some(vec![token("a", 0, 1)]));
}

#[test]
fn stopwords_are_told_by_their_bytes() {
    let stop = vec![b"ja".to_vec(), b"on".to_vec()];
    assert!(is_stopword(&stop, b"ja"));
    assert!(is_stopword(&stop, b"on"));
    assert!(!is_stopword(&stop, b"Ja"));
    assert!(!is_stopword(&stop, b""));
    assert!(!is_stopword(&vec![], b"ja"));
}

#[test]
fn records_sort_by_term_document_sentence_and_word() {
    let mut comparisons = 0u64;
    let sorted = sort_records(
        vec![
            record("b", 1, 1, 1),
            record("a", 2, 1, 1),
            record("a", 1, 2, 1),
            record("a", 1, 1, 2),
            record("ab", 0, 0, 0),
            record("a", 1, 1, 1),
            record("", 9, 9, 9),
        ],
        &mut comparisons,
    );
    assert_eq!(
        sorted,
        vec![
            record("", 9, 9, 9),
            record("a", 1, 1, 1),
            record("a", 1, 1, 2),
            record("a", 1, 2, 1),
            record("a", 2, 1, 1),
            record("ab", 0, 0, 0),
            record("b", 1, 1, 1),
        ]
    );
    assert!(comparisons > 0);
}

#[test]
fn the_preindex_stream_never_descends() {
    let documents = vec![
        document(7, "se on se"),
        document(3, "on hyvä ja se"),
        document(5, "ja ja Ja"),
    ];
    let mut comparisons = 0u64;
    let result = preindex(&documents, &vec![], true, &mut comparisons);
    let keys: Vec<(Vec<u8>, u64, u64, u64)> = result
        .records
        .iter()
        .map(|r| (r.term.clone(), r.doc_id, r.sent_id, r.word_id))
        .collect();
    assert!(keys.windows(2).all(|w| w[0] <= w[1]));
    assert_eq!(result.records.len(), 10);
    assert_eq!(read_preindex(result.stream.clone()), Ok(result.records.clone()));
    assert_eq!(
        result.records[..3].to_vec(),
        vec![record("hyvä", 3, 1, 2), record("ja", 3, 1, 3), record("ja", 5, 1, 1)]
    );
    assert_eq!(result.docs, vec![7, 3, 5]);
}

#[test]
fn term_frequencies_count_occurrences() {
    let documents = vec![document(1, "red red blue"), document(2, "red blue blue")];
    let mut comparisons = 0u64;
    let result = preindex(&documents, &vec![], false, &mut comparisons);
    assert_eq!(result.tdf, vec![count("blue", 3), count("red", 3)]);
    assert_eq!(term_frequencies(&result.records), result.tdf);
    assert_eq!(term_frequencies(&vec![]), vec![]);
}

#[test]
fn norms_sum_the_squared_frequencies() {
    let documents = vec![
        document(1, "red red blue"),
        document(2, "red blue blue"),
        document(3, "a a a b b c"),
    ];
    let mut comparisons = 0u64;
    let result = preindex(&documents, &vec![], false, &mut comparisons);
    assert_eq!(result.norms, Some(vec![5, 5, 14]));
    assert_eq!(document_norms(&result.records, &vec![3, 4, 1, 3]), Some(vec![14, 0, 5, 14]));
}

#[test]
fn stopwords_are_left_out_of_the_index_and_the_norms() {
    let documents = vec![document(1, "se on se punainen")];
    let stop = vec![b"se".to_vec(), b"on".to_vec()];
    let mut comparisons = 0u64;
    let result = preindex(&documents, &stop, false, &mut comparisons);
    assert_eq!(result.records, vec![record("punainen", 1, 1, 4)]);
    assert_eq!(result.tdf, vec![count("punainen", 1)]);
    assert_eq!(result.norms, Some(vec![1]));
}

#[test]
fn a_kept_document_without_words_has_norm_zero() {
    let documents = vec![Document { doc_id: 4, events: vec![finnish(), Event::End] }];
    let mut comparisons = 0u64;
    let result = preindex(&documents, &vec![], false, &mut comparisons);
    assert!(result.records.is_empty());
    assert!(result.stream.is_empty());
    assert_eq!(result.docs, vec![4]);
    assert_eq!(result.norms, Some(vec![0]));
}

#[test]
fn a_second_subtitle_of_a_document_adds_nothing() {
    let documents = vec![document(42, "hyvää yötä"), document(42, "ei kiitos"), document(7, "ei")];
    let mut comparisons = 0u64;
    let result = preindex(&documents, &vec![], false, &mut comparisons);
    assert_eq!(result.docs, vec![42, 7]);
    assert_eq!(
        result.records,
        vec![record("ei", 7, 1, 1), record("hyvää", 42, 1, 1), record("yötä", 42, 1, 2)]
    );
}

#[test]
fn a_skipped_first_subtitle_still_stands_for_its_document() {
    let english = Document {
        doc_id: 42,
        events: vec![Event::Meta(Some("English".to_string())), word(1, "no"), Event::End],
    };
    let mut comparisons = 0u64;
    let result = preindex(&vec![english, document(42, "ei")], &vec![], false, &mut comparisons);
    assert!(result.docs.is_empty());
    assert!(result.records.is_empty());
}
