//! Fixed-width integers on the wire: eight bytes, big-endian in the
//! preindex stream and little-endian in postings blobs.

use byteorder::{BigEndian, ByteOrder};
use vstd::bytes::{
    lemma_auto_spec_u64_to_from_le_bytes, spec_u64_from_le_bytes, spec_u64_to_le_bytes,
    u64_from_le_bytes, u64_to_le_bytes,
};
use vstd::prelude::*;
use vstd::slice::slice_subrange;

verus! {

/// The eight bytes of `n`, least significant first.
pub open spec fn le_bytes(n: u64) -> Seq<u8> {
    spec_u64_to_le_bytes(n)
}

/// The number that eight bytes hold, least significant first.
pub open spec fn le_value(bytes: Seq<u8>) -> u64 {
    spec_u64_from_le_bytes(bytes)
}

/// The eight bytes of `n`, most significant first.
pub open spec fn be_bytes(n: u64) -> Seq<u8> {
    spec_u64_to_le_bytes(n).reverse()
}

/// The number that eight bytes hold, most significant first.
pub open spec fn be_value(bytes: Seq<u8>) -> u64 {
    spec_u64_from_le_bytes(bytes.reverse())
}

/// Encoding a number takes eight bytes, and decoding them gives it back.
pub proof fn lemma_u64_roundtrip(n: u64)
    ensures
        le_bytes(n).len() == 8,
        be_bytes(n).len() == 8,
        le_value(le_bytes(n)) == n,
        be_value(be_bytes(n)) == n,
{
    lemma_auto_spec_u64_to_from_le_bytes();
    assert(spec_u64_to_le_bytes(n).reverse().reverse() =~= spec_u64_to_le_bytes(n));
}

/// Any eight bytes are the encoding of the number they decode to.
pub proof fn lemma_bytes_roundtrip(bytes: Seq<u8>)
    requires
        bytes.len() == 8,
    ensures
        le_bytes(le_value(bytes)) == bytes,
        be_bytes(be_value(bytes)) == bytes,
{
    lemma_auto_spec_u64_to_from_le_bytes();
    assert(bytes.reverse().len() == 8);
    assert(bytes.reverse().reverse() =~= bytes);
}

/// The big-endian bytes of `n`, from `byteorder::BigEndian::write_u64`.
///
/// Trusted: the result is the eight bytes of `n`, most significant first.
#[verifier::external_body]
pub(crate) fn u64_to_be(n: u64) -> (bytes: Vec<u8>)
    ensures
        bytes@ == be_bytes(n),
{
    let mut buf = [0u8; 8];
    BigEndian::write_u64(&mut buf, n);
    buf.to_vec()
}

/// The number in the first eight bytes, read by
/// `byteorder::BigEndian::read_u64`, which panics on fewer bytes.
///
/// Trusted: the result is the number that those bytes hold, most significant
/// first.
#[verifier::external_body]
pub(crate) fn u64_from_be(bytes: &[u8]) -> (n: u64)
    requires
        bytes@.len() >= 8,
    ensures
        n == be_value(bytes@.subrange(0, 8)),
{
    BigEndian::read_u64(bytes)
}

/// Appends `bytes` to `out`.
pub fn append_bytes(out: &mut Vec<u8>, bytes: &[u8])
    ensures
        final(out)@ == old(out)@ + bytes@,
{
    let mut k: usize = 0;
    while k < bytes.len()
        invariant
            k <= bytes.len(),
            out@ == old(out)@ + bytes@.take(k as int),
        decreases bytes.len() - k,
    {
        out.push(bytes[k]);
        assert(bytes@.take(k + 1) =~= bytes@.take(k as int).push(bytes@[k as int]));
        assert(out@ =~= old(out)@ + bytes@.take(k + 1));
        k += 1;
    }
    assert(bytes@.take(bytes.len() as int) =~= bytes@);
}

/// Appends the big-endian bytes of `n` to `out`.
pub fn put_u64_be(out: &mut Vec<u8>, n: u64)
    ensures
        final(out)@ == old(out)@ + be_bytes(n),
{
    let bytes = u64_to_be(n);
    append_bytes(out, bytes.as_slice());
}

/// Appends the little-endian bytes of `n` to `out`.
pub fn put_u64_le(out: &mut Vec<u8>, n: u64)
    ensures
        final(out)@ == old(out)@ + le_bytes(n),
{
    let bytes = u64_to_le_bytes(n);
    append_bytes(out, bytes.as_slice());
}

/// The big-endian number at `pos`, if eight bytes are left there.
pub fn get_u64_be(bytes: &[u8], pos: usize) -> (r: Option<u64>)
    ensures
        r == if pos + 8 <= bytes@.len() {
            Some(be_value(bytes@.subrange(pos as int, pos + 8)))
        } else {
            None
        },
{
    if pos > bytes.len() || bytes.len() - pos < 8 {
        return None;
    }
    let field = slice_subrange(bytes, pos, pos + 8);
    assert(field@.subrange(0, 8) =~= bytes@.subrange(pos as int, pos + 8));
    Some(u64_from_be(field))
}

/// The little-endian number at `pos`, if eight bytes are left there.
pub fn get_u64_le(bytes: &[u8], pos: usize) -> (r: Option<u64>)
    ensures
        r == if pos + 8 <= bytes@.len() {
            Some(le_value(bytes@.subrange(pos as int, pos + 8)))
        } else {
            None
        },
{
    if pos > bytes.len() || bytes.len() - pos < 8 {
        return None;
    }
    let field = slice_subrange(bytes, pos, pos + 8);
    assert(field@ =~= bytes@.subrange(pos as int, pos + 8));
    Some(u64_from_le_bytes(field))
}

} // verus!
