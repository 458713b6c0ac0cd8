//! Ingestion: choosing the subtitles of a collection and turning each
//! subtitle's parser events into term occurrences.

use crate::error::IngestError;
use crate::names::{id_of_path, id_of_path_spec, is_kept_language, kept_language, occurs_in};
use crate::text::{normal_form, normalize};
use std::collections::HashSet;
use vstd::prelude::*;
use vstd::string::StrSliceExecFns;
use vstd::utf8::encode_utf8;

verus! {

broadcast use vstd::std_specs::hash::group_hash_axioms;

/// The document at position `i` has been seen at an earlier position.
pub open spec fn seen_before(ids: Seq<u64>, i: int) -> bool {
    exists|j: int| 0 <= j < i && #[trigger] ids[j] == ids[i]
}

/// The positions at which a document is seen for the first time, in
/// ascending order.
pub open spec fn first_occurrences(ids: Seq<u64>) -> Seq<usize>
    decreases ids.len(),
{
    if ids.len() == 0 {
        Seq::empty()
    } else {
        let rest = first_occurrences(ids.drop_last());
        if seen_before(ids, ids.len() - 1) {
            rest
        } else {
            rest.push((ids.len() - 1) as usize)
        }
    }
}

/// Among the positions of one document only the first is kept, and it is
/// kept: every document of the list is kept once, at its first position.
pub proof fn lemma_first_occurrences(ids: Seq<u64>)
    requires
        ids.len() <= usize::MAX,
    ensures
        forall|k: int|
            0 <= k < first_occurrences(ids).len() ==> (#[trigger] first_occurrences(ids)[k])
                < ids.len() && !seen_before(ids, first_occurrences(ids)[k] as int),
        forall|i: int|
            0 <= i < ids.len() && !seen_before(ids, i) ==> first_occurrences(ids).contains(
                i as usize,
            ),
        forall|a: int, b: int|
            0 <= a < b < first_occurrences(ids).len() ==> first_occurrences(ids)[a]
                < first_occurrences(ids)[b],
    decreases ids.len(),
{
    if ids.len() > 0 {
        let n = ids.len() - 1;
        let front = ids.drop_last();
        let rest = first_occurrences(front);
        let all = first_occurrences(ids);
        lemma_first_occurrences(front);
        assert forall|i: int| 0 <= i < front.len() implies seen_before(front, i) == seen_before(
            ids,
            i,
        ) by {
            if seen_before(front, i) {
                let j = choose|j: int| 0 <= j < i && #[trigger] front[j] == front[i];
                assert(ids[j] == ids[i]);
            }
            if seen_before(ids, i) {
                let j = choose|j: int| 0 <= j < i && #[trigger] ids[j] == ids[i];
                assert(front[j] == front[i]);
            }
        }
        assert forall|k: int| 0 <= k < all.len() implies (#[trigger] all[k]) < ids.len()
            && !seen_before(ids, all[k] as int) by {
            if k < rest.len() {
                assert(all[k] == rest[k]);
            }
        }
        assert forall|i: int| 0 <= i < ids.len() && !seen_before(ids, i) implies all.contains(
            i as usize,
        ) by {
            if i < n {
                assert(rest.contains(i as usize));
                let k = choose|k: int| 0 <= k < rest.len() && rest[k] == i as usize;
                assert(all[k] == i as usize);
            } else {
                assert(all[rest.len() as int] == i as usize);
            }
        }
        assert forall|a: int, b: int| 0 <= a < b < all.len() implies all[a] < all[b] by {
            assert(all[a] == rest[a]);
            if b < rest.len() {
                assert(all[b] == rest[b]);
            }
        }
    }
}

/// The positions of the documents that are seen for the first time: where
/// several subtitles belong to one document, only the first counts.
pub fn dedup_by_doc(ids: &Vec<u64>) -> (kept: Vec<usize>)
    ensures
        kept@ == first_occurrences(ids@),
{
    let mut seen: HashSet<u64> = HashSet::new();
    let mut kept: Vec<usize> = Vec::new();
    let mut i: usize = 0;
    assert(ids@.take(0) =~= Seq::<u64>::empty());
    while i < ids.len()
        invariant
            i <= ids.len(),
            kept@ == first_occurrences(ids@.take(i as int)),
            forall|d: u64| seen@.contains(d) <==> exists|j: int| 0 <= j < i && #[trigger] ids@[j] == d,
        decreases ids.len() - i,
    {
        let id = ids[i];
        let ghost next = ids@.take(i + 1);
        proof {
            assert(next.drop_last() =~= ids@.take(i as int));
            if seen_before(next, i as int) {
                let j = choose|j: int| 0 <= j < i && #[trigger] next[j] == next[i as int];
                assert(ids@[j] == id);
            }
            if seen@.contains(id) {
                let j = choose|j: int| 0 <= j < i && #[trigger] ids@[j] == id;
                assert(next[j] == next[i as int]);
            }
        }
        let fresh = seen.insert(id);
        if fresh {
            kept.push(i);
        }
        proof {
            assert forall|d: u64| seen@.contains(d) <==> exists|j: int|
                0 <= j < i + 1 && #[trigger] ids@[j] == d by {
                if seen@.contains(d) && d != id {
                    let j = choose|j: int| 0 <= j < i && #[trigger] ids@[j] == d;
                    assert(0 <= j < i + 1 && ids@[j] == d);
                }
                if d == id {
                    assert(ids@[i as int] == d);
                }
                if exists|j: int| 0 <= j < i + 1 && #[trigger] ids@[j] == d {
                    let j = choose|j: int| 0 <= j < i + 1 && #[trigger] ids@[j] == d;
                    if j < i {
                        assert(ids@[j] == d);
                    }
                }
            }
        }
        i += 1;
    }
    assert(ids@.take(i as int) =~= ids@);
    kept
}

/// A subtitle that was chosen for ingestion.
#[derive(Clone, Debug, PartialEq, Eq)]
pub struct Subtitle {
    /// The document that the subtitle belongs to.
    pub doc_id: u64,
    /// The position of the subtitle's path among the candidates.
    pub position: usize,
}

/// The documents that the paths name.
pub open spec fn path_ids(paths: Seq<String>) -> Seq<Option<u64>> {
    Seq::new(paths.len(), |i: int| id_of_path_spec(encode_utf8(paths[i]@)))
}

/// Chooses the subtitles to ingest from the candidate paths.
///
/// A path that names no document is a fault; the first such path is
/// reported. Otherwise each document is chosen once, with the first path
/// that belongs to it, in the order of the paths.
pub fn select_subtitles(paths: &Vec<String>) -> (r: Result<Vec<Subtitle>, IngestError>)
    ensures
        match r {
            Err(e) => exists|i: int|
                0 <= i < paths.len() && e == IngestError::MalformedPath(i as usize) && (
                #[trigger] path_ids(paths@)[i]) is None && forall|j: int|
                    0 <= j < i ==> (#[trigger] path_ids(paths@)[j]) is Some,
            Ok(chosen) => exists|ids: Seq<u64>|
                #![auto]
                ids.len() == paths.len() && (forall|i: int|
                    0 <= i < ids.len() ==> path_ids(paths@)[i] == Some(ids[i])) && chosen.len()
                    == first_occurrences(ids).len() && forall|k: int|
                    0 <= k < chosen.len() ==> chosen[k].position == first_occurrences(ids)[k]
                        && chosen[k].doc_id == ids[chosen[k].position as int],
        },
{
    let mut ids: Vec<u64> = Vec::new();
    let mut i: usize = 0;
    while i < paths.len()
        invariant
            i <= paths.len(),
            ids.len() == i,
            forall|j: int| 0 <= j < i ==> (#[trigger] path_ids(paths@)[j]) == Some(ids@[j]),
        decreases paths.len() - i,
    {
        match id_of_path(paths[i].as_str()) {
            Some(id) => {
                ids.push(id);
            },
            None => {
                assert(path_ids(paths@)[i as int] is None);
                return Err(IngestError::MalformedPath(i));
            },
        }
        i += 1;
    }
    let kept = dedup_by_doc(&ids);
    proof {
        lemma_first_occurrences(ids@);
    }
    let mut chosen: Vec<Subtitle> = Vec::new();
    let mut k: usize = 0;
    while k < kept.len()
        invariant
            k <= kept.len(),
            chosen.len() == k,
            kept@ == first_occurrences(ids@),
            forall|x: int| 0 <= x < kept.len() ==> (#[trigger] kept@[x]) < ids.len(),
            forall|x: int|
                0 <= x < k ==> (#[trigger] chosen@[x]).position == kept@[x] && chosen@[x].doc_id
                    == ids@[kept@[x] as int],
        decreases kept.len() - k,
    {
        let position = kept[k];
        chosen.push(Subtitle { doc_id: ids[position], position });
        k += 1;
    }
    Ok(chosen)
}

/// What a subtitle parser reports, one event at a time.
#[derive(Clone, Debug, PartialEq, Eq)]
pub enum Event {
    /// A block of metadata, with the value that it gives for the original
    /// language of the source, if any.
    Meta(Option<String>),
    /// A sentence with this number begins.
    SentenceStart(u64),
    /// A sentence with this number ends.
    SentenceEnd(u64),
    /// A word with this number and text.
    Word(u64, String),
    /// Anything else that the parser reports.
    Other,
    /// The subtitle has been read to its end.
    End,
    /// The subtitle cannot be parsed.
    Error,
}

/// A term occurrence within one document.
#[derive(Clone, Debug, PartialEq, Eq)]
pub struct Token {
    pub term: Vec<u8>,
    pub sent_id: u64,
    pub word_id: u64,
}

/// The mathematical value of a token.
pub ghost struct TokenView {
    pub term: Seq<u8>,
    pub sent_id: u64,
    pub word_id: u64,
}

impl View for Token {
    type V = TokenView;

    open spec fn view(&self) -> TokenView {
        TokenView { term: self.term@, sent_id: self.sent_id, word_id: self.word_id }
    }
}

/// The mathematical values of tokens.
pub open spec fn tokens_view(v: Seq<Token>) -> Seq<TokenView> {
    Seq::new(v.len(), |i: int| v[i]@)
}

/// Where the reading of a subtitle stands.
pub ghost struct Reading {
    /// Whether the first metadata block kept the subtitle; `None` before
    /// any metadata block.
    pub kept: Option<bool>,
    /// The number of the sentence that was begun last.
    pub sentence: u64,
    /// The occurrences read so far.
    pub tokens: Seq<TokenView>,
}

/// The reading before any event.
pub open spec fn start_reading() -> Reading {
    Reading { kept: None, sentence: 0, tokens: Seq::empty() }
}

/// Whether the metadata value keeps the subtitle.
pub open spec fn keeps(original: Option<String>) -> bool {
    match original {
        Some(value) => occurs_in(encode_utf8(value@), kept_language()),
        None => false,
    }
}

/// The occurrences of a subtitle, given the reading before the event at
/// position `i`: `None` where the subtitle is skipped.
///
/// The first metadata block decides: the subtitle is kept where the value
/// it gives for the original language holds `Finnish`, and skipped at once
/// otherwise. A sentence start sets the sentence of the words that follow.
/// A word adds an occurrence of its normal form. A parser error skips the
/// subtitle. At the end of the events the subtitle is kept only if a
/// metadata block kept it.
pub open spec fn read_from(events: Seq<Event>, i: int, state: Reading, lowercase: bool) -> Option<
    Seq<TokenView>,
>
    decreases events.len() - i,
{
    if i < 0 || i >= events.len() {
        if state.kept == Some(true) {
            Some(state.tokens)
        } else {
            None
        }
    } else {
        match events[i] {
            Event::Meta(original) => {
                if state.kept is Some {
                    read_from(events, i + 1, state, lowercase)
                } else if keeps(original) {
                    read_from(events, i + 1, Reading { kept: Some(true), ..state }, lowercase)
                } else {
                    None
                }
            },
            Event::SentenceStart(id) => read_from(
                events,
                i + 1,
                Reading { sentence: id, ..state },
                lowercase,
            ),
            Event::Word(id, text) => read_from(
                events,
                i + 1,
                Reading {
                    tokens: state.tokens.push(
                        TokenView {
                            term: encode_utf8(normal_form(text@, lowercase)),
                            sent_id: state.sentence,
                            word_id: id,
                        },
                    ),
                    ..state
                },
                lowercase,
            ),
            Event::SentenceEnd(_) => read_from(events, i + 1, state, lowercase),
            Event::Other => read_from(events, i + 1, state, lowercase),
            Event::End => if state.kept == Some(true) {
                Some(state.tokens)
            } else {
                None
            },
            Event::Error => None,
        }
    }
}

/// The occurrences of a subtitle, or `None` where the subtitle is skipped.
pub open spec fn read_document(events: Seq<Event>, lowercase: bool) -> Option<Seq<TokenView>> {
    read_from(events, 0, start_reading(), lowercase)
}

/// Reads the events of one subtitle into its term occurrences.
///
/// The result is `None` where the subtitle is skipped: its first metadata
/// block does not keep it, it has none, or the parser failed.
pub fn ingest_document(events: &Vec<Event>, lowercase: bool) -> (r: Option<Vec<Token>>)
    ensures
        match r {
            Some(tokens) => read_document(events@, lowercase) == Some(tokens_view(tokens@)),
            None => read_document(events@, lowercase) is None,
        },
{
    let mut kept: Option<bool> = None;
    let mut sentence: u64 = 0;
    let mut tokens: Vec<Token> = Vec::new();
    let mut i: usize = 0;
    assert(tokens_view(tokens@) =~= Seq::<TokenView>::empty());
    while i < events.len()
        invariant
            i <= events.len(),
            read_document(events@, lowercase) == read_from(
                events@,
                i as int,
                Reading { kept, sentence, tokens: tokens_view(tokens@) },
                lowercase,
            ),
        decreases events.len() - i,
    {
        match &events[i] {
            Event::Meta(original) => {
                if kept.is_none() {
                    let value: Option<&str> = match original {
                        Some(value) => Some(value.as_str()),
                        None => None,
                    };
                    if is_kept_language(value) {
                        kept = Some(true);
                    } else {
                        return None;
                    }
                }
            },
            Event::SentenceStart(id) => {
                sentence = *id;
            },
            Event::Word(id, text) => {
                let word = normalize(text.as_str(), lowercase);
                let ghost before = tokens_view(tokens@);
                let token = Token {
                    term: word.as_str().as_bytes_vec(),
                    sent_id: sentence,
                    word_id: *id,
                };
                tokens.push(token);
                assert(tokens_view(tokens@) =~= before.push(token@));
            },
            Event::SentenceEnd(_) => {},
            Event::Other => {},
            Event::End => {
                return if kept == Some(true) {
                    Some(tokens)
                } else {
                    None
                };
            },
            Event::Error => {
                return None;
            },
        }
        i += 1;
    }
    if kept == Some(true) {
        Some(tokens)
    } else {
        None
    }
}

} // verus!
