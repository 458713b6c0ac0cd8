//! A disk-oriented full-text search engine core for subtitle corpora:
//! positional postings, a term dictionary, approximate term lookup and
//! multi-term intersection.

pub mod dictionary;
pub mod distance;
pub mod error;
pub mod fuzzy;
pub mod group;
pub mod index;
pub mod ingest;
pub mod intersect;
pub mod method;
pub mod names;
pub mod norms;
pub mod order;
pub mod pairing;
pub mod posting;
pub mod preindex;
pub mod preindexer;
pub mod query;
pub mod rank;
pub mod stats;
pub mod term;
pub mod text;
pub mod wire;
