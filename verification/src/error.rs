//! The failures that the library reports.

use vstd::prelude::*;

verus! {

/// A structural fault in a built index.
#[derive(Clone, Copy, Debug, PartialEq, Eq, Structural)]
pub enum IndexError {
    /// The dictionary names a postings list that the store does not hold.
    MissingPostings,
    /// A postings blob is not a whole number of records.
    CorruptBlob,
    /// The dictionary's bytes are not those of a dictionary.
    CorruptDictionary,
}

/// A fault in the preindex stream.
#[derive(Clone, Copy, Debug, PartialEq, Eq, Structural)]
pub enum PreindexReaderError {
    /// The stream ends inside a record.
    Io,
    /// A term is not UTF-8.
    Utf8,
}

/// A fault in choosing the subtitles of a collection.
#[derive(Clone, Copy, Debug, PartialEq, Eq, Structural)]
pub enum IngestError {
    /// The path at this position names no document.
    MalformedPath(usize),
}

/// A fault in building the dictionary.
#[derive(Clone, Copy, Debug, PartialEq, Eq, Structural)]
pub enum BuildError {
    /// The preindex stream could not be read.
    Preindex(PreindexReaderError),
    /// The records of the stream are not in ascending order.
    OutOfOrder,
}

/// A query automaton could not be made.
#[derive(Clone, Copy, Debug, PartialEq, Eq, Structural)]
pub enum AutomatonError {
    /// The error model is neither exact nor a bounded edit distance.
    UnknownModel,
    /// The automaton for the query would have too many states.
    TooLarge,
}

} // verus!
