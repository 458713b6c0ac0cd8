use movie_search::error::{IndexError, PreindexReaderError};
use movie_search::posting::{
    decode_postings, doc_term_frequencies, encode_postings, is_postings_list, Posting,
};
use movie_search::preindex::{put_record, read_preindex, write_preindex, PreindexReader, Record};
use movie_search::intersect::DocTf;
use movie_search::wire::{get_u64_be, get_u64_le, put_u64_be, put_u64_le};

fn posting(doc_id: u64, sent_id: u64, word_id: u64) -> Posting {
    Posting { doc_id, sent_id, word_id }
}

fn record(term: &str, doc_id: u64, sent_id: u64, word_id: u64) -> Record {
    Record { term: term.as_bytes().to_vec(), doc_id, sent_id, word_id }
}

#[test]
fn big_endian_puts_the_most_significant_byte_first() {
    let mut out = vec![0xAAu8];
    put_u64_be(&mut out, 0x0102_0304_0506_0708);
    assert_eq!(out, vec![0xAA, 1, 2, 3, 4, 5, 6, 7, 8]);
    assert_eq!(get_u64_be(&out, 1), Some(0x0102_0304_0506_0708));
}

#[test]
fn little_endian_puts_the_least_significant_byte_first() {
    let mut out = Vec::new();
    put_u64_le(&mut out, 0x0102_0304_0506_0708);
    assert_eq!(out, vec![8, 7, 6, 5, 4, 3, 2, 1]);
    assert_eq!(get_u64_le(&out, 0), Some(0x0102_0304_0506_0708));
}

#[test]
fn reading_a_number_needs_eight_bytes() {
    let bytes = vec![0u8, 0, 0, 0, 0, 0, 0, 9, 1];
    assert_eq!(get_u64_be(&bytes, 0), Some(9));
    assert_eq!(get_u64_be(&bytes, 1), Some(9 * 256 + 1));
    assert_eq!(get_u64_be(&bytes, 2), None);
    assert_eq!(get_u64_le(&bytes, 9), None);
    assert_eq!(get_u64_le(&bytes, usize::MAX), None);
}

#[test]
fn a_posting_takes_twenty_four_little_endian_bytes() {
    let blob = encode_postings(&vec![posting(1, 2, 3)]);
    assert_eq!(
        blob,
        vec![1, 0, 0, 0, 0, 0, 0, 0, 2, 0, 0, 0, 0, 0, 0, 0, 3, 0, 0, 0, 0, 0, 0, 0]
    );
}

#[test]
fn postings_survive_packing() {
    let postings = vec![posting(1, 1, 1), posting(1, 1, 2), posting(7, 0, u64::MAX)];
    let blob = encode_postings(&postings);
    assert_eq!(blob.len(), 72);
    assert_eq!(decode_postings(&blob), Ok(postings));
}

#[test]
fn an_empty_blob_holds_no_postings() {
    assert_eq!(encode_postings(&vec![]), Vec::<u8>::new());
    assert_eq!(decode_postings(&[]), Ok(vec![]));
}

#[test]
fn a_blob_of_odd_size_is_corrupt() {
    assert_eq!(decode_postings(&[0u8; 23]), Err(IndexError::CorruptBlob));
    assert_eq!(decode_postings(&[0u8; 25]), Err(IndexError::CorruptBlob));
}

#[test]
fn postings_lists_strictly_ascend() {
    assert!(is_postings_list(&vec![]));
    assert!(is_postings_list(&vec![posting(1, 1, 1), posting(1, 1, 2), posting(1, 2, 0)]));
    assert!(!is_postings_list(&vec![posting(1, 1, 1), posting(1, 1, 1)]));
    assert!(!is_postings_list(&vec![posting(2, 0, 0), posting(1, 9, 9)]));
}

#[test]
fn frequencies_count_the_postings_of_each_document() {
    let postings =
        vec![posting(1, 1, 1), posting(1, 1, 2), posting(4, 1, 1), posting(9, 1, 1), posting(9, 3, 1)];
    assert_eq!(
        doc_term_frequencies(&postings),
        vec![
            DocTf { doc_id: 1, tf: 2 },
            DocTf { doc_id: 4, tf: 1 },
            DocTf { doc_id: 9, tf: 2 }
        ]
    );
    assert_eq!(doc_term_frequencies(&vec![]), vec![]);
}

#[test]
fn a_record_is_length_term_and_three_numbers() {
    let mut out = Vec::new();
    put_record(&mut out, &record("ab", 1, 2, 3));
    let mut expected = vec![0u8, 0, 0, 0, 0, 0, 0, 2, b'a', b'b'];
    expected.extend_from_slice(&[0, 0, 0, 0, 0, 0, 0, 1]);
    expected.extend_from_slice(&[0, 0, 0, 0, 0, 0, 0, 2]);
    expected.extend_from_slice(&[0, 0, 0, 0, 0, 0, 0, 3]);
    assert_eq!(out, expected);
}

#[test]
fn a_written_stream_reads_back() {
    let records = vec![record("", 0, 0, 0), record("fox", 1, 2, 3), record("käsi", 5, 6, 7)];
    let stream = write_preindex(&records);
    assert_eq!(read_preindex(stream), Ok(records));
}

#[test]
fn the_reader_steps_through_the_records() {
    let records = vec![record("a", 1, 1, 1), record("b", 2, 2, 2)];
    let mut reader = PreindexReader::new(write_preindex(&records));
    assert_eq!(reader.next(), Some(Ok(record("a", 1, 1, 1))));
    assert_eq!(reader.next(), Some(Ok(record("b", 2, 2, 2))));
    assert_eq!(reader.next(), None);
    assert_eq!(reader.next(), None);
}

#[test]
fn fewer_than_eight_bytes_end_the_stream() {
    let mut stream = write_preindex(&vec![record("a", 1, 1, 1)]);
    stream.extend_from_slice(&[0, 0, 0]);
    assert_eq!(read_preindex(stream), Ok(vec![record("a", 1, 1, 1)]));
    assert_eq!(read_preindex(vec![]), Ok(vec![]));
}

#[test]
fn a_record_cut_short_is_an_io_fault() {
    let mut stream = write_preindex(&vec![record("abc", 1, 1, 1)]);
    stream.truncate(stream.len() - 1);
    assert_eq!(read_preindex(stream), Err(PreindexReaderError::Io));
    // The length promises more bytes than there are.
    let stream = vec![0u8, 0, 0, 0, 0, 0, 0, 5, b'a'];
    assert_eq!(read_preindex(stream), Err(PreindexReaderError::Io));
    let stream = vec![0xFFu8; 8];
    assert_eq!(read_preindex(stream), Err(PreindexReaderError::Io));
}

#[test]
fn a_term_that_is_not_text_is_a_utf8_fault() {
    let mut stream = vec![0u8, 0, 0, 0, 0, 0, 0, 2, 0xC3, 0x28];
    stream.extend_from_slice(&[0u8; 24]);
    assert_eq!(read_preindex(stream.clone()), Err(PreindexReaderError::Utf8));
    // The term is judged before the numbers are missed.
    stream.truncate(10);
    assert_eq!(read_preindex(stream), Err(PreindexReaderError::Utf8));
}

#[test]
fn after_a_fault_nothing_is_left_to_read() {
    let mut reader = PreindexReader::new(vec![0u8, 0, 0, 0, 0, 0, 0, 9, 1, 2, 3, 4, 5, 6, 7, 8]);
    assert_eq!(reader.next(), Some(Err(PreindexReaderError::Io)));
    assert_eq!(reader.next(), None);
}
