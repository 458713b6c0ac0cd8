//! Text at the edges of the engine: splitting lines into tokens,
//! normalising tokens, and reading identifiers out of names.

use crate::term::copy_bytes;
use vstd::prelude::*;
use vstd::slice::slice_subrange;
use vstd::utf8::{
    decode_utf8, encode_utf8, encode_utf8_decode_utf8, encode_utf8_valid_utf8, is_char_boundary,
    is_char_boundary_iff_not_is_continuation_byte, is_char_boundary_start_end_of_seq,
    is_continuation_byte, valid_utf8,
};

verus! {

/// The space that separates tokens.
pub const SPACE: u8 = 0x20;

/// The place of the first `sep` in the bytes, or their length where there
/// is none.
pub open spec fn index_of(s: Seq<u8>, sep: u8) -> int
    decreases s.len(),
{
    if s.len() == 0 {
        0
    } else if s[0] == sep {
        0
    } else {
        1 + index_of(s.drop_first(), sep)
    }
}

/// The pieces between the occurrences of `sep`: one more piece than there
/// are separators, some of them perhaps empty.
pub open spec fn split_on(s: Seq<u8>, sep: u8) -> Seq<Seq<u8>>
    decreases s.len(),
{
    let p = index_of(s, sep);
    if 0 <= p < s.len() {
        seq![s.subrange(0, p)] + split_on(s.subrange(p + 1, s.len() as int), sep)
    } else {
        seq![s]
    }
}

/// Where the first separator stands.
pub proof fn lemma_index_of(s: Seq<u8>, sep: u8, k: int)
    requires
        0 <= k <= s.len(),
        forall|i: int| 0 <= i < k ==> s[i] != sep,
        k < s.len() ==> s[k] == sep,
    ensures
        index_of(s, sep) == k,
    decreases s.len(),
{
    if s.len() > 0 && k > 0 {
        let rest = s.drop_first();
        assert forall|i: int| 0 <= i < k - 1 implies rest[i] != sep by {
            assert(rest[i] == s[i + 1]);
        }
        lemma_index_of(rest, sep, k - 1);
    }
}

/// The first separator stands inside the bytes or at their end, and no
/// byte before it is a separator.
pub proof fn lemma_index_of_bounds(s: Seq<u8>, sep: u8)
    ensures
        0 <= index_of(s, sep) <= s.len(),
        forall|i: int| 0 <= i < index_of(s, sep) ==> s[i] != sep,
        index_of(s, sep) < s.len() ==> s[index_of(s, sep)] == sep,
    decreases s.len(),
{
    if s.len() > 0 && s[0] != sep {
        let rest = s.drop_first();
        lemma_index_of_bounds(rest, sep);
        assert forall|i: int| 0 <= i < index_of(s, sep) implies s[i] != sep by {
            if i > 0 {
                assert(rest[i - 1] == s[i]);
            }
        }
    }
}

/// No piece holds a separator.
pub proof fn lemma_split_pieces_clean(s: Seq<u8>, sep: u8)
    ensures
        split_on(s, sep).len() >= 1,
        forall|k: int, i: int|
            0 <= k < split_on(s, sep).len() && 0 <= i < split_on(s, sep)[k].len() ==> split_on(
                s,
                sep,
            )[k][i] != sep,
    decreases s.len(),
{
    let p = index_of(s, sep);
    lemma_index_of_bounds(s, sep);
    if 0 <= p < s.len() {
        let rest = s.subrange(p + 1, s.len() as int);
        lemma_split_pieces_clean(rest, sep);
        let pieces = split_on(s, sep);
        assert forall|k: int, i: int| 0 <= k < pieces.len() && 0 <= i < pieces[k].len() implies
            pieces[k][i] != sep by {
            if k == 0 {
                assert(pieces[0] == s.subrange(0, p));
            } else {
                assert(pieces[k] == split_on(rest, sep)[k - 1]);
            }
        }
    }
}

/// The pieces one after another, with `sep` between them.
pub open spec fn join_with(pieces: Seq<Seq<u8>>, sep: u8) -> Seq<u8>
    decreases pieces.len(),
{
    if pieces.len() == 0 {
        Seq::empty()
    } else if pieces.len() == 1 {
        pieces[0]
    } else {
        pieces[0] + seq![sep] + join_with(pieces.drop_first(), sep)
    }
}

/// Splitting loses nothing: the pieces, joined by the separator, are the
/// bytes that were split.
pub proof fn lemma_split_join(s: Seq<u8>, sep: u8)
    ensures
        join_with(split_on(s, sep), sep) == s,
    decreases s.len(),
{
    let p = index_of(s, sep);
    lemma_index_of_bounds(s, sep);
    if 0 <= p < s.len() {
        let rest = s.subrange(p + 1, s.len() as int);
        let pieces = split_on(s, sep);
        lemma_split_join(rest, sep);
        lemma_split_pieces_clean(rest, sep);
        assert(pieces.drop_first() =~= split_on(rest, sep));
        assert(pieces[0] == s.subrange(0, p));
        assert(s.subrange(0, p) + seq![sep] + rest =~= s);
    }
}

/// The place of the first `sep` at or after `from`, or the length where
/// there is none.
pub fn find_byte(bytes: &[u8], from: usize, sep: u8) -> (k: usize)
    requires
        from <= bytes@.len(),
    ensures
        from <= k <= bytes@.len(),
        k - from == index_of(bytes@.subrange(from as int, bytes@.len() as int), sep),
{
    let mut k: usize = from;
    while k < bytes.len() && bytes[k] != sep
        invariant
            from <= k <= bytes@.len(),
            forall|i: int| from <= i < k ==> bytes@[i] != sep,
        decreases bytes.len() - k,
    {
        k += 1;
    }
    proof {
        lemma_index_of(bytes@.subrange(from as int, bytes@.len() as int), sep, k - from);
    }
    k
}

/// The mathematical values of byte strings.
pub open spec fn pieces_view(v: Seq<Vec<u8>>) -> Seq<Seq<u8>> {
    Seq::new(v.len(), |i: int| v[i]@)
}

/// Splits the bytes at every `sep`.
pub fn split_bytes(bytes: &[u8], sep: u8) -> (pieces: Vec<Vec<u8>>)
    ensures
        pieces_view(pieces@) == split_on(bytes@, sep),
{
    let n = bytes.len();
    let mut pieces: Vec<Vec<u8>> = Vec::new();
    let mut from: usize = 0;
    assert(bytes@.subrange(0, n as int) =~= bytes@);
    loop
        invariant
            from <= n,
            n == bytes@.len(),
            split_on(bytes@, sep) == pieces_view(pieces@) + split_on(
                bytes@.subrange(from as int, n as int),
                sep,
            ),
        decreases n - from,
    {
        let ghost rest = bytes@.subrange(from as int, n as int);
        let ghost done = pieces_view(pieces@);
        let k = find_byte(bytes, from, sep);
        let piece = copy_bytes(slice_subrange(bytes, from, k));
        assert(piece@ =~= rest.subrange(0, k - from));
        pieces.push(piece);
        assert(pieces_view(pieces@) =~= done.push(piece@));
        if k >= n {
            assert(rest.subrange(0, k - from) =~= rest);
            assert(done + seq![rest] =~= done.push(rest));
            return pieces;
        }
        proof {
            let tail = rest.subrange(k - from + 1, rest.len() as int);
            assert(tail =~= bytes@.subrange(k + 1, n as int));
            assert(done + (seq![piece@] + split_on(tail, sep)) =~= done.push(piece@) + split_on(
                tail,
                sep,
            ));
        }
        from = k + 1;
    }
}

#[verifier::external_type_specification]
#[verifier::external_body]
pub struct ExUtf8Error(std::str::Utf8Error);

/// The text that the bytes encode, from `std::str::from_utf8`, which fails
/// where the bytes are not UTF-8.
///
/// Trusted: bytes that follow the UTF-8 grammar, and no others, are text,
/// and the text is their decoding.
#[verifier::external_body]
pub(crate) fn text_of(bytes: &[u8]) -> (r: Result<&str, std::str::Utf8Error>)
    ensures
        r is Ok <==> valid_utf8(bytes@),
        r is Ok ==> r->Ok_0@ == decode_utf8(bytes@),
{
    std::str::from_utf8(bytes)
}

/// Whether the bytes are UTF-8 text.
pub fn is_utf8(bytes: &[u8]) -> (b: bool)
    ensures
        b == valid_utf8(bytes@),
{
    text_of(bytes).is_ok()
}

/// The lowercase form of a string, as `str::to_lowercase` gives it.
pub uninterp spec fn lowercase_of(chars: Seq<char>) -> Seq<char>;

/// The lowercase form of a token, from `str::to_lowercase`.
///
/// Trusted: the result is the named lowercase form of the token, which
/// depends on the token alone.
#[verifier::external_body]
pub(crate) fn lower_token(token: &str) -> (r: String)
    ensures
        r@ == lowercase_of(token@),
{
    token.to_lowercase()
}

/// The normal form of a word: the word itself, or its lowercase form.
pub open spec fn normal_form(word: Seq<char>, lowercase: bool) -> Seq<char> {
    if lowercase {
        lowercase_of(word)
    } else {
        word
    }
}

/// The normal form of a word.
pub fn normalize(word: &str, lowercase: bool) -> (r: String)
    ensures
        r@ == normal_form(word@, lowercase),
{
    if lowercase {
        lower_token(word)
    } else {
        word.to_owned()
    }
}

/// The token that a piece of a line stands for: the normal form of its
/// text.
pub open spec fn token_of(piece: Seq<u8>, lowercase: bool) -> Seq<char> {
    normal_form(decode_utf8(piece), lowercase)
}

/// The mathematical values of strings.
pub open spec fn strings_view(v: Seq<String>) -> Seq<Seq<char>> {
    Seq::new(v.len(), |i: int| v[i]@)
}

/// The tokens of a line: its pieces between spaces, each made lowercase
/// where that is asked for.
pub open spec fn tokens_of(line: Seq<char>, lowercase: bool) -> Seq<Seq<char>> {
    let pieces = split_on(encode_utf8(line), SPACE);
    Seq::new(pieces.len(), |i: int| token_of(pieces[i], lowercase))
}

/// In UTF-8 text the byte behind a one-byte character starts a character.
proof fn lemma_boundary_after_ascii(bytes: Seq<u8>)
    requires
        valid_utf8(bytes),
        bytes.len() > 0,
        bytes[0] < 0x80,
    ensures
        is_char_boundary(bytes, 1),
{
    reveal_with_fuel(is_char_boundary, 2);
    let b: u8 = bytes[0];
    assert(b & 0x80 == 0) by (bit_vector)
        requires
            b < 0x80,
    ;
}

/// Splits a line into its tokens at every space, and makes each token
/// lowercase where that is asked for. A line without a space is one token,
/// and so is the empty line; two spaces in a row hold an empty token.
pub fn tokenize(line: &str, lowercase: bool) -> (tokens: Vec<String>)
    ensures
        strings_view(tokens@) == tokens_of(line@, lowercase),
{
    let ghost all = encode_utf8(line@);
    let mut tokens: Vec<String> = Vec::new();
    let mut rest: &str = line;
    loop
        invariant
            all == encode_utf8(line@),
            split_on(all, SPACE).len() == tokens.len() + split_on(encode_utf8(rest@), SPACE).len(),
            forall|i: int|
                0 <= i < tokens.len() ==> #[trigger] tokens@[i]@ == token_of(
                    split_on(all, SPACE)[i],
                    lowercase,
                ),
            forall|i: int|
                0 <= i < split_on(encode_utf8(rest@), SPACE).len() ==> split_on(all, SPACE)[tokens.len()
                    + i] == #[trigger] split_on(encode_utf8(rest@), SPACE)[i],
        decreases encode_utf8(rest@).len(),
    {
        let ghost bytes = encode_utf8(rest@);
        let ghost done = tokens.len();
        let raw = rest.as_bytes();
        let k = find_byte(raw, 0, SPACE);
        proof {
            encode_utf8_valid_utf8(rest@);
            assert(bytes.subrange(0, bytes.len() as int) =~= bytes);
            lemma_index_of_bounds(bytes, SPACE);
            if k < bytes.len() {
                assert(!is_continuation_byte(bytes[k as int])) by {
                    assert(0x20u8 & 0xC0 != 0x80) by (bit_vector);
                }
                is_char_boundary_iff_not_is_continuation_byte(bytes, k as int);
            } else {
                is_char_boundary_start_end_of_seq(bytes);
            }
        }
        let (piece, tail) = rest.split_at(k);
        proof {
            encode_utf8_decode_utf8(piece@);
            assert(split_on(bytes, SPACE)[0] == encode_utf8(piece@)) by {
                if k >= bytes.len() {
                    assert(bytes.subrange(0, k as int) =~= bytes);
                }
            }
            assert(split_on(all, SPACE)[done + 0] == split_on(bytes, SPACE)[0]);
        }
        let token = normalize(piece, lowercase);
        assert(token@ == token_of(split_on(all, SPACE)[done as int], lowercase));
        tokens.push(token);
        if k >= raw.len() {
            proof {
                assert(split_on(bytes, SPACE).len() == 1);
                assert(strings_view(tokens@) =~= tokens_of(line@, lowercase));
            }
            return tokens;
        }
        proof {
            let tail_bytes = encode_utf8(tail@);
            encode_utf8_valid_utf8(tail@);
            assert(tail_bytes[0] == SPACE);
            lemma_boundary_after_ascii(tail_bytes);
        }
        let (_, after) = tail.split_at(1);
        proof {
            let next = encode_utf8(after@);
            assert(next =~= bytes.subrange(k + 1, bytes.len() as int));
            assert forall|i: int| 0 <= i < split_on(next, SPACE).len() implies split_on(
                all,
                SPACE,
            )[tokens.len() + i] == #[trigger] split_on(next, SPACE)[i] by {
                assert(split_on(bytes, SPACE)[i + 1] == split_on(next, SPACE)[i]);
                assert(split_on(all, SPACE)[done + (i + 1)] == split_on(bytes, SPACE)[i + 1]);
            }
        }
        rest = after;
    }
}

/// A line without the carriage return that may end it.
pub open spec fn without_cr(line: Seq<u8>) -> Seq<u8> {
    if line.len() > 0 && line.last() == 0x0D {
        line.drop_last()
    } else {
        line
    }
}

/// The lines of a text: its pieces between line feeds, each without the
/// carriage return that may end it. A line feed at the end of the text
/// begins no further line.
pub open spec fn lines_of(text: Seq<u8>) -> Seq<Seq<u8>> {
    let pieces = split_on(text, 0x0A);
    let whole = if pieces.len() > 0 && pieces.last().len() == 0 {
        pieces.drop_last()
    } else {
        pieces
    };
    Seq::new(whole.len(), |i: int| without_cr(whole[i]))
}

/// The stopwords of a stopwords file: one to a line.
pub fn read_stopwords(content: &[u8]) -> (stopwords: Vec<Vec<u8>>)
    ensures
        pieces_view(stopwords@) == lines_of(content@),
{
    let pieces = split_bytes(content, 0x0A);
    let ghost pv = pieces_view(pieces@);
    let mut count = pieces.len();
    if count > 0 && pieces[count - 1].len() == 0 {
        count = count - 1;
    }
    let mut stopwords: Vec<Vec<u8>> = Vec::new();
    let mut i: usize = 0;
    while i < count
        invariant
            i <= count <= pieces.len(),
            pv == pieces_view(pieces@),
            stopwords.len() == i,
            forall|k: int| 0 <= k < i ==> (#[trigger] stopwords@[k])@ == without_cr(pv[k]),
        decreases count - i,
    {
        let piece = &pieces[i];
        let n = piece.len();
        let line = if n > 0 && piece[n - 1] == 0x0D {
            let cut = copy_bytes(slice_subrange(piece.as_slice(), 0, n - 1));
            assert(cut@ =~= piece@.drop_last());
            cut
        } else {
            copy_bytes(piece.as_slice())
        };
        stopwords.push(line);
        i += 1;
    }
    assert(pieces_view(stopwords@) =~= lines_of(content@));
    stopwords
}

} // verus!
