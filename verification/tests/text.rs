use movie_search::error::AutomatonError;
use movie_search::fuzzy::{parse_error_model, ErrorModel};
use movie_search::method::Method;
use movie_search::names::{
    bytes_contain, bytes_end_with, entry_is_subtitle, id_of_path, is_kept_language, parse_u64,
};
use movie_search::query::{parse_method, parse_query};
use movie_search::text::{is_utf8, read_stopwords, split_bytes, tokenize};

fn strings(items: &[&str]) -> Vec<String> {
    items.iter().map(|s| s.to_string()).collect()
}

fn words(items: &[&str]) -> Vec<Vec<u8>> {
    items.iter().map(|s| s.as_bytes().to_vec()).collect()
}

#[test]
fn tokenize_splits_at_spaces() {
    assert_eq!(tokenize("the quick brown fox", false), strings(&["the", "quick", "brown", "fox"]));
}

#[test]
fn tokenize_keeps_empty_tokens() {
    assert_eq!(tokenize("", false), strings(&[""]));
    assert_eq!(tokenize(" ", false), strings(&["", ""]));
    assert_eq!(tokenize("a  b ", false), strings(&["a", "", "b", ""]));
}

#[test]
fn tokenize_lowers_each_token_when_asked() {
    assert_eq!(tokenize("Hyvää HUOMENTA Äiti", true), strings(&["hyvää", "huomenta", "äiti"]));
    assert_eq!(tokenize("Hyvää HUOMENTA", false), strings(&["Hyvää", "HUOMENTA"]));
}

#[test]
fn tokenize_splits_only_at_the_ascii_space() {
    assert_eq!(tokenize("a\tb\u{a0}c d", false), strings(&["a\tb\u{a0}c", "d"]));
}

#[test]
fn split_bytes_gives_one_piece_more_than_separators() {
    assert_eq!(split_bytes(b"a/b//c", b'/'), words(&["a", "b", "", "c"]));
    assert_eq!(split_bytes(b"", b'/'), words(&[""]));
    assert_eq!(split_bytes(b"/", b'/'), words(&["", ""]));
}

#[test]
fn utf8_is_told_from_other_bytes() {
    assert!(is_utf8("käsi".as_bytes()));
    assert!(is_utf8(b""));
    assert!(!is_utf8(&[0xC3, 0x28]));
    assert!(!is_utf8(&[0xFF]));
}

#[test]
fn parse_u64_reads_decimal_numbers() {
    assert_eq!(parse_u64(b"0"), Some(0));
    assert_eq!(parse_u64(b"42"), Some(42));
    assert_eq!(parse_u64(b"+42"), Some(42));
    assert_eq!(parse_u64(b"0042"), Some(42));
    assert_eq!(parse_u64(b"18446744073709551615"), Some(u64::MAX));
}

#[test]
fn parse_u64_refuses_what_is_no_number() {
    assert_eq!(parse_u64(b""), None);
    assert_eq!(parse_u64(b"+"), None);
    assert_eq!(parse_u64(b"-1"), None);
    assert_eq!(parse_u64(b"4 2"), None);
    assert_eq!(parse_u64(b"42a"), None);
    assert_eq!(parse_u64(b"++1"), None);
    assert_eq!(parse_u64(b"18446744073709551616"), None);
    assert_eq!(parse_u64(b"99999999999999999999999"), None);
}

#[test]
fn the_document_is_named_two_levels_above_the_file() {
    assert_eq!(id_of_path("/data/xml/fi/1999/42/3456/movie.xml.gz"), Some(42));
    assert_eq!(id_of_path("42/x/a.xml.gz"), Some(42));
    assert_eq!(id_of_path("root/42//x/./a.xml.gz"), Some(42));
    assert_eq!(id_of_path("root/42/x/a.xml.gz/"), Some(42));
}

#[test]
fn a_path_without_a_numbered_directory_names_no_document() {
    assert_eq!(id_of_path("a.xml.gz"), None);
    assert_eq!(id_of_path("/a.xml.gz"), None);
    assert_eq!(id_of_path("x/a.xml.gz"), None);
    assert_eq!(id_of_path("42/a.xml.gz"), None);
    assert_eq!(id_of_path("/42/a.xml.gz"), None);
    assert_eq!(id_of_path("movie/x/a.xml.gz"), None);
    assert_eq!(id_of_path("../x/a.xml.gz"), None);
    assert_eq!(id_of_path(""), None);
}

#[test]
fn subtitles_are_files_that_end_in_xml_gz() {
    assert!(entry_is_subtitle(true, "movie.xml.gz"));
    assert!(entry_is_subtitle(true, ".xml.gz"));
    assert!(!entry_is_subtitle(false, "movie.xml.gz"));
    assert!(!entry_is_subtitle(true, "movie.xml"));
    assert!(!entry_is_subtitle(true, "movie.xml.gz.bak"));
    assert!(!entry_is_subtitle(true, "gz"));
}

#[test]
fn suffixes_and_substrings_are_found() {
    assert!(bytes_end_with(b"abc", b"bc"));
    assert!(bytes_end_with(b"abc", b""));
    assert!(!bytes_end_with(b"c", b"bc"));
    assert!(bytes_contain(b"abc", b"b"));
    assert!(bytes_contain(b"abc", b""));
    assert!(bytes_contain(b"abc", b"abc"));
    assert!(!bytes_contain(b"abc", b"abcd"));
    assert!(!bytes_contain(b"abc", b"ca"));
}

#[test]
fn only_finnish_originals_are_kept() {
    assert!(is_kept_language(Some("Finnish")));
    assert!(is_kept_language(Some("Swedish, Finnish")));
    assert!(!is_kept_language(Some("English")));
    assert!(!is_kept_language(Some("finnish")));
    assert!(!is_kept_language(Some("")));
    assert!(!is_kept_language(None));
}

#[test]
fn query_terms_are_the_tokens_without_stopwords() {
    let stop = words(&["the", ""]);
    assert_eq!(parse_query("The quick  the fox", &stop, true), strings(&["quick", "fox"]));
    assert_eq!(parse_query("The quick", &stop, false), strings(&["The", "quick"]));
    assert_eq!(parse_query("", &stop, false), strings(&[]));
    assert_eq!(parse_query("", &vec![], false), strings(&[""]));
}

#[test]
fn methods_are_named_naive_and_ascending() {
    assert_eq!(parse_method("naive"), Some(Method::Naive));
    assert_eq!(parse_method("ascending"), Some(Method::Ascending));
    assert_eq!(parse_method("Naive"), None);
    assert_eq!(parse_method(""), None);
    assert_eq!(parse_method("descending"), None);
}

#[test]
fn stopwords_are_read_one_to_a_line() {
    assert_eq!(read_stopwords(b"ja\non\nei\n"), words(&["ja", "on", "ei"]));
    assert_eq!(read_stopwords(b"ja\non"), words(&["ja", "on"]));
    assert_eq!(read_stopwords(b"ja\r\non\r\n"), words(&["ja", "on"]));
    assert_eq!(read_stopwords(b"ja\n\non\n"), words(&["ja", "", "on"]));
    assert_eq!(read_stopwords(b""), words(&[]));
    assert_eq!(read_stopwords(b"\n"), words(&[""]));
}

#[test]
fn error_models_are_edit_distances_or_transducer_files() {
    assert_eq!(parse_error_model("levenshtein-1"), Ok(ErrorModel::Levenshtein(1)));
    assert_eq!(parse_error_model("levenshtein-2.5"), Ok(ErrorModel::Levenshtein(2)));
    assert_eq!(parse_error_model("levenshtein-0"), Ok(ErrorModel::Levenshtein(0)));
    assert_eq!(parse_error_model("levenshtein-4294967295"), Ok(ErrorModel::Levenshtein(u32::MAX)));
    assert_eq!(parse_error_model("errmodel.hfst"), Ok(ErrorModel::Transducer));
    assert_eq!(parse_error_model("levenshtein"), Ok(ErrorModel::Transducer));
}

#[test]
fn an_edit_distance_without_a_number_is_no_error_model() {
    assert_eq!(parse_error_model("levenshtein-"), Err(AutomatonError::UnknownModel));
    assert_eq!(parse_error_model("levenshtein-x"), Err(AutomatonError::UnknownModel));
    assert_eq!(parse_error_model("levenshtein-1."), Err(AutomatonError::UnknownModel));
    assert_eq!(parse_error_model("levenshtein-1.x"), Err(AutomatonError::UnknownModel));
    assert_eq!(parse_error_model("levenshtein-+1"), Err(AutomatonError::UnknownModel));
    assert_eq!(parse_error_model("levenshtein-4294967296"), Err(AutomatonError::UnknownModel));
}
