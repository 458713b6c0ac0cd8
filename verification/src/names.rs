//! What the names of files and directories say: which files are
//! subtitles, which document a subtitle belongs to, and which language a
//! subtitle was written in.

use crate::term::same_bytes;
use crate::text::{pieces_view, split_bytes, split_on};
use vstd::prelude::*;
use vstd::slice::slice_subrange;
use vstd::utf8::encode_utf8;

verus! {

/// The byte is an ASCII digit.
pub open spec fn is_digit(b: u8) -> bool {
    0x30 <= b <= 0x39
}

/// Every byte is an ASCII digit.
pub open spec fn all_digits(s: Seq<u8>) -> bool {
    forall|i: int| 0 <= i < s.len() ==> is_digit(#[trigger] s[i])
}

/// The number that a digit stands for; zero for any other byte.
pub open spec fn digit_value(b: u8) -> nat {
    if is_digit(b) {
        (b - 0x30) as nat
    } else {
        0
    }
}

/// The number that decimal digits stand for.
pub open spec fn decimal_value(s: Seq<u8>) -> nat
    decreases s.len(),
{
    if s.len() == 0 {
        0
    } else {
        10 * decimal_value(s.drop_last()) + digit_value(s.last())
    }
}

/// The digits of a number: the text without one leading plus sign.
pub open spec fn unsigned_part(s: Seq<u8>) -> Seq<u8> {
    if s.len() > 0 && s[0] == 0x2B {
        s.skip(1)
    } else {
        s
    }
}

/// The number that the text stands for: one or more decimal digits, after
/// at most one plus sign, whose value fits sixty-four bits.
pub open spec fn parse_u64_spec(s: Seq<u8>) -> Option<u64> {
    let digits = unsigned_part(s);
    if digits.len() > 0 && all_digits(digits) && decimal_value(digits) <= u64::MAX {
        Some(decimal_value(digits) as u64)
    } else {
        None
    }
}

/// More digits never stand for a smaller number.
pub proof fn lemma_decimal_value_grows(s: Seq<u8>, k: int)
    requires
        0 <= k <= s.len(),
    ensures
        decimal_value(s.take(k)) <= decimal_value(s),
    decreases s.len() - k,
{
    if k == s.len() {
        assert(s.take(k) =~= s);
    } else {
        lemma_decimal_value_grows(s, k + 1);
        assert(s.take(k + 1).drop_last() =~= s.take(k));
    }
}

/// Whether every byte is an ASCII digit.
pub fn digits_only(text: &[u8]) -> (b: bool)
    ensures
        b == all_digits(text@),
{
    let mut k: usize = 0;
    while k < text.len()
        invariant
            k <= text.len(),
            forall|i: int| 0 <= i < k ==> is_digit(#[trigger] text@[i]),
        decreases text.len() - k,
    {
        if text[k] < 0x30 || text[k] > 0x39 {
            assert(!is_digit(text@[k as int]));
            return false;
        }
        k += 1;
    }
    true
}

/// Reads a decimal number.
pub fn parse_u64(text: &[u8]) -> (r: Option<u64>)
    ensures
        r == parse_u64_spec(text@),
{
    let n = text.len();
    let start: usize = if n > 0 && text[0] == 0x2B {
        1
    } else {
        0
    };
    let ghost digits = unsigned_part(text@);
    assert(digits =~= text@.subrange(start as int, n as int));
    if start >= n {
        return None;
    }
    let mut value: u64 = 0;
    let mut k: usize = start;
    assert(digits.take(0) =~= Seq::<u8>::empty());
    while k < n
        invariant
            start <= k <= n,
            n == text@.len(),
            digits == unsigned_part(text@),
            digits == text@.subrange(start as int, n as int),
            all_digits(digits.take(k - start)),
            value == decimal_value(digits.take(k - start)),
        decreases n - k,
    {
        let b = text[k];
        let ghost seen = digits.take(k - start);
        let ghost next = digits.take(k - start + 1);
        proof {
            assert(next.drop_last() =~= seen);
            assert(next.last() == b);
            lemma_decimal_value_grows(digits, k - start + 1);
        }
        if b < 0x30 || b > 0x39 {
            assert(!is_digit(digits[k - start]));
            return None;
        }
        let d = (b - 0x30) as u64;
        let scaled = match value.checked_mul(10) {
            Some(scaled) => scaled,
            None => {
                return None;
            },
        };
        value = match scaled.checked_add(d) {
            Some(sum) => sum,
            None => {
                return None;
            },
        };
        assert(all_digits(next)) by {
            assert forall|i: int| 0 <= i < next.len() implies is_digit(#[trigger] next[i]) by {
                if i < seen.len() {
                    assert(seen[i] == next[i]);
                }
            }
        }
        k += 1;
    }
    assert(digits.take(n - start) =~= digits);
    Some(value)
}

/// The pieces that count as components of a path: those that are neither
/// empty nor a single dot.
pub open spec fn is_component(piece: Seq<u8>) -> bool {
    piece.len() > 0 && piece != seq![0x2Eu8]
}

/// The components among the pieces, in order.
pub open spec fn components_of(pieces: Seq<Seq<u8>>) -> Seq<Seq<u8>>
    decreases pieces.len(),
{
    if pieces.len() == 0 {
        Seq::empty()
    } else {
        let rest = components_of(pieces.drop_last());
        if is_component(pieces.last()) {
            rest.push(pieces.last())
        } else {
            rest
        }
    }
}

/// The components of a path: its pieces between slashes, without empty
/// pieces and single dots.
pub open spec fn path_components(path: Seq<u8>) -> Seq<Seq<u8>> {
    components_of(split_on(path, 0x2F))
}

/// The document that a subtitle path belongs to: the number that the
/// component two levels above the file stands for.
pub open spec fn id_of_path_spec(path: Seq<u8>) -> Option<u64> {
    let components = path_components(path);
    if components.len() >= 3 {
        parse_u64_spec(components[components.len() - 3])
    } else {
        None
    }
}

/// Whether the piece counts as a component of a path.
fn counts_as_component(piece: &Vec<u8>) -> (b: bool)
    ensures
        b == is_component(piece@),
{
    if piece.len() == 0 {
        return false;
    }
    if piece.len() == 1 && piece[0] == 0x2E {
        assert(piece@ =~= seq![0x2Eu8]);
        return false;
    }
    assert(piece@ != seq![0x2Eu8]) by {
        if piece@ == seq![0x2Eu8] {
            assert(seq![0x2Eu8].len() == 1);
            assert(seq![0x2Eu8][0] == 0x2E);
        }
    }
    true
}

/// The document identifier of a subtitle path.
///
/// A subtitle lies two levels below the directory that is named by its
/// document's number: `.../<number>/<anything>/<file>`. The result is that
/// number, and `None` where the path has no such directory or its name is
/// not a decimal number that fits sixty-four bits.
pub fn id_of_path(path: &str) -> (r: Option<u64>)
    ensures
        r == id_of_path_spec(encode_utf8(path@)),
{
    let pieces = split_bytes(path.as_bytes(), 0x2F);
    let ghost pv = pieces_view(pieces@);
    let mut kept: Vec<usize> = Vec::new();
    let mut i: usize = 0;
    assert(pv.take(0) =~= Seq::<Seq<u8>>::empty());
    while i < pieces.len()
        invariant
            i <= pieces.len(),
            pv == pieces_view(pieces@),
            kept.len() == components_of(pv.take(i as int)).len(),
            forall|k: int|
                0 <= k < kept.len() ==> (#[trigger] kept@[k]) < pieces.len() && pieces@[kept@[k] as int]@
                    == components_of(pv.take(i as int))[k],
        decreases pieces.len() - i,
    {
        proof {
            assert(pv.take(i + 1).drop_last() =~= pv.take(i as int));
            assert(pv.take(i + 1).last() == pieces@[i as int]@);
        }
        if counts_as_component(&pieces[i]) {
            kept.push(i);
        }
        i += 1;
    }
    assert(pv.take(i as int) =~= pv);
    if kept.len() < 3 {
        return None;
    }
    let at = kept[kept.len() - 3];
    parse_u64(pieces[at].as_slice())
}

/// The bytes end with the suffix.
pub open spec fn ends_with(s: Seq<u8>, suffix: Seq<u8>) -> bool {
    s.len() >= suffix.len() && s.subrange(s.len() - suffix.len(), s.len() as int) == suffix
}

/// The needle occurs in the bytes.
pub open spec fn occurs_in(s: Seq<u8>, needle: Seq<u8>) -> bool {
    exists|k: int| 0 <= k <= s.len() - needle.len() && #[trigger] s.subrange(k, k + needle.len()) == needle
}

/// The ending of a subtitle's name: `.xml.gz`.
pub open spec fn subtitle_suffix() -> Seq<u8> {
    seq![0x2Eu8, 0x78u8, 0x6Du8, 0x6Cu8, 0x2Eu8, 0x67u8, 0x7Au8]
}

/// The name of the language that is kept: `Finnish`.
pub open spec fn kept_language() -> Seq<u8> {
    seq![0x46u8, 0x69u8, 0x6Eu8, 0x6Eu8, 0x69u8, 0x73u8, 0x68u8]
}

/// Whether the bytes end with the suffix.
pub fn bytes_end_with(bytes: &[u8], suffix: &[u8]) -> (b: bool)
    ensures
        b == ends_with(bytes@, suffix@),
{
    if bytes.len() < suffix.len() {
        return false;
    }
    let from = bytes.len() - suffix.len();
    same_bytes(slice_subrange(bytes, from, bytes.len()), suffix)
}

/// Whether the needle occurs in the bytes.
pub fn bytes_contain(bytes: &[u8], needle: &[u8]) -> (b: bool)
    ensures
        b == occurs_in(bytes@, needle@),
{
    if bytes.len() < needle.len() {
        return false;
    }
    let n = bytes.len();
    let last = n - needle.len();
    let mut k: usize = 0;
    loop
        invariant
            k <= last,
            n == bytes@.len(),
            last + needle@.len() == n,
            forall|i: int| 0 <= i < k ==> #[trigger] bytes@.subrange(i, i + needle@.len()) != needle@,
        decreases last - k,
    {
        if same_bytes(slice_subrange(bytes, k, k + needle.len()), needle) {
            return true;
        }
        if k == last {
            return false;
        }
        k += 1;
    }
}

/// Whether a directory entry is a subtitle: a regular file whose name ends
/// in `.xml.gz`.
pub fn entry_is_subtitle(is_file: bool, file_name: &str) -> (b: bool)
    ensures
        b == (is_file && ends_with(encode_utf8(file_name@), subtitle_suffix())),
{
    let suffix: Vec<u8> = vec![0x2Eu8, 0x78u8, 0x6Du8, 0x6Cu8, 0x2Eu8, 0x67u8, 0x7Au8];
    assert(suffix@ =~= subtitle_suffix());
    is_file && bytes_end_with(file_name.as_bytes(), suffix.as_slice())
}

/// Whether a subtitle is kept for its language: its metadata names an
/// original language, and that name holds `Finnish`.
pub fn is_kept_language(original: Option<&str>) -> (b: bool)
    ensures
        b == match original {
            Some(value) => occurs_in(encode_utf8(value@), kept_language()),
            None => false,
        },
{
    match original {
        None => false,
        Some(value) => {
            let needle: Vec<u8> = vec![0x46u8, 0x69u8, 0x6Eu8, 0x6Eu8, 0x69u8, 0x73u8, 0x68u8];
            assert(needle@ =~= kept_language());
            bytes_contain(value.as_bytes(), needle.as_slice())
        },
    }
}

} // verus!
