//! The preindex: the sorted stream of term occurrences that ingestion
//! writes and the dictionary builder reads.
//!
//! A record is the length of the term as eight bytes, the term's bytes, and
//! the document, sentence and word numbers as eight bytes each; all numbers
//! are big-endian. The stream is the records one after another.

use crate::error::PreindexReaderError;
use crate::order::Ranked;
use crate::posting::Posting;
use crate::term::{
    bytes_lt, compare_bytes, copy_bytes, lemma_bytes_lt_asymmetric, lemma_bytes_lt_transitive,
    lemma_bytes_lt_trichotomy, Rank,
};
use crate::text::is_utf8;
use crate::wire::{
    append_bytes, be_bytes, be_value, get_u64_be, lemma_u64_roundtrip, put_u64_be,
};
use vstd::prelude::*;
use vstd::slice::slice_subrange;
use vstd::utf8::valid_utf8;

verus! {

/// One occurrence of a term in the collection.
#[derive(Clone, Debug, PartialEq, Eq)]
pub struct Record {
    pub term: Vec<u8>,
    pub doc_id: u64,
    pub sent_id: u64,
    pub word_id: u64,
}

/// The mathematical value of a record.
pub ghost struct RecordView {
    pub term: Seq<u8>,
    pub doc_id: u64,
    pub sent_id: u64,
    pub word_id: u64,
}

impl View for Record {
    type V = RecordView;

    open spec fn view(&self) -> RecordView {
        RecordView {
            term: self.term@,
            doc_id: self.doc_id,
            sent_id: self.sent_id,
            word_id: self.word_id,
        }
    }
}

impl RecordView {
    /// Where the term occurs.
    pub open spec fn posting(self) -> Posting {
        Posting { doc_id: self.doc_id, sent_id: self.sent_id, word_id: self.word_id }
    }

    /// `self` comes strictly before `other` by term, then document, then
    /// sentence, then word.
    pub open spec fn lt(self, other: RecordView) -> bool {
        bytes_lt(self.term, other.term) || (self.term == other.term && self.posting().lt(
            &other.posting(),
        ))
    }

    /// `self` comes before `other` or equals it.
    pub open spec fn le(self, other: RecordView) -> bool {
        self.lt(other) || self == other
    }
}

/// The mathematical values of the records.
pub open spec fn records_view(s: Seq<Record>) -> Seq<RecordView> {
    Seq::new(s.len(), |i: int| s[i]@)
}

/// The stream never descends by term, document, sentence and word.
pub open spec fn stream_sorted(s: Seq<RecordView>) -> bool {
    forall|i: int, j: int| 0 <= i < j < s.len() ==> #[trigger] s[i].le(s[j])
}

impl Record {
    /// Where the term occurs.
    pub fn posting(&self) -> (p: Posting)
        ensures
            p == self@.posting(),
    {
        Posting { doc_id: self.doc_id, sent_id: self.sent_id, word_id: self.word_id }
    }
}

impl Ranked for Record {
    /// By term, then document, then sentence, then word.
    open spec fn before(&self, other: &Self) -> bool {
        self@.le(other@)
    }

    fn precedes(&self, other: &Self) -> (b: bool) {
        proof {
            lemma_bytes_lt_trichotomy(self.term@, other.term@);
            if bytes_lt(self.term@, other.term@) {
                lemma_bytes_lt_asymmetric(self.term@, other.term@);
            }
            if bytes_lt(other.term@, self.term@) {
                lemma_bytes_lt_asymmetric(other.term@, self.term@);
            }
        }
        match compare_bytes(self.term.as_slice(), other.term.as_slice()) {
            Rank::Before => true,
            Rank::After => false,
            Rank::Same => {
                let p = self.posting();
                let q = other.posting();
                p.precedes(&q)
            },
        }
    }

    proof fn lemma_total(a: &Self, b: &Self) {
        lemma_bytes_lt_trichotomy(a.term@, b.term@);
    }

    proof fn lemma_transitive(a: &Self, b: &Self, c: &Self) {
        lemma_record_le_transitive(a@, b@, c@);
    }
}

/// The order of records is transitive.
pub proof fn lemma_record_le_transitive(a: RecordView, b: RecordView, c: RecordView)
    requires
        a.le(b),
        b.le(c),
    ensures
        a.le(c),
{
    if bytes_lt(a.term, b.term) && bytes_lt(b.term, c.term) {
        lemma_bytes_lt_transitive(a.term, b.term, c.term);
    }
}

/// The bytes of one record on the wire.
pub open spec fn record_bytes(r: RecordView) -> Seq<u8> {
    be_bytes(r.term.len() as u64) + r.term + be_bytes(r.doc_id) + be_bytes(r.sent_id) + be_bytes(
        r.word_id,
    )
}

/// The bytes of a stream of records on the wire.
pub open spec fn stream_of(records: Seq<RecordView>) -> Seq<u8>
    decreases records.len(),
{
    if records.len() == 0 {
        Seq::empty()
    } else {
        record_bytes(records.first()) + stream_of(records.drop_first())
    }
}

/// A stream with one more record is the stream followed by that record's
/// bytes.
pub proof fn lemma_stream_push(records: Seq<RecordView>, r: RecordView)
    ensures
        stream_of(records.push(r)) == stream_of(records) + record_bytes(r),
    decreases records.len(),
{
    let next = records.push(r);
    if records.len() == 0 {
        assert(next.drop_first() =~= Seq::<RecordView>::empty());
        assert(next.first() == r);
        assert(stream_of(next.drop_first()) =~= Seq::<u8>::empty());
        assert(stream_of(records) =~= Seq::<u8>::empty());
        assert(stream_of(next) =~= stream_of(records) + record_bytes(r));
    } else {
        lemma_stream_push(records.drop_first(), r);
        assert(next.drop_first() =~= records.drop_first().push(r));
        assert(next.first() == records.first());
        assert(stream_of(next) =~= stream_of(records) + record_bytes(r));
    }
}

/// Appends the record's bytes to `out`.
pub fn put_record(out: &mut Vec<u8>, record: &Record)
    ensures
        final(out)@ == old(out)@ + record_bytes(record@),
{
    put_u64_be(out, record.term.len() as u64);
    append_bytes(out, record.term.as_slice());
    put_u64_be(out, record.doc_id);
    put_u64_be(out, record.sent_id);
    put_u64_be(out, record.word_id);
    assert(out@ =~= old(out)@ + record_bytes(record@));
}

/// The records as a preindex stream.
pub fn write_preindex(records: &Vec<Record>) -> (out: Vec<u8>)
    ensures
        out@ == stream_of(records_view(records@)),
{
    let ghost views = records_view(records@);
    let mut out: Vec<u8> = Vec::new();
    let mut i: usize = 0;
    while i < records.len()
        invariant
            i <= records.len(),
            views == records_view(records@),
            out@ == stream_of(views.take(i as int)),
        decreases records.len() - i,
    {
        put_record(&mut out, &records[i]);
        proof {
            lemma_stream_push(views.take(i as int), views[i as int]);
            assert(views.take(i + 1) =~= views.take(i as int).push(views[i as int]));
        }
        i += 1;
    }
    assert(views.take(i as int) =~= views);
    out
}

/// What stands at the head of a stream.
pub ghost enum Step {
    /// Fewer than eight bytes: the stream has ended.
    End,
    /// A record that is cut short or whose term is not UTF-8.
    Fault(PreindexReaderError),
    /// A record, and the number of bytes that it takes.
    Item(RecordView, nat),
}

/// Reads the head of a stream.
pub open spec fn parse_step(s: Seq<u8>) -> Step {
    if s.len() < 8 {
        Step::End
    } else {
        let n = be_value(s.subrange(0, 8)) as int;
        if s.len() - 8 < n {
            Step::Fault(PreindexReaderError::Io)
        } else if !valid_utf8(s.subrange(8, 8 + n)) {
            Step::Fault(PreindexReaderError::Utf8)
        } else if s.len() - 8 - n < 24 {
            Step::Fault(PreindexReaderError::Io)
        } else {
            Step::Item(
                RecordView {
                    term: s.subrange(8, 8 + n),
                    doc_id: be_value(s.subrange(8 + n, 16 + n)),
                    sent_id: be_value(s.subrange(16 + n, 24 + n)),
                    word_id: be_value(s.subrange(24 + n, 32 + n)),
                },
                (32 + n) as nat,
            )
        }
    }
}

/// Reads a whole stream: its records, or the first fault.
pub open spec fn parse_stream(s: Seq<u8>) -> Result<Seq<RecordView>, PreindexReaderError>
    decreases s.len(),
{
    match parse_step(s) {
        Step::End => Ok(Seq::empty()),
        Step::Fault(e) => Err(e),
        Step::Item(r, n) => {
            if 0 < n <= s.len() {
                match parse_stream(s.skip(n as int)) {
                    Ok(rest) => Ok(seq![r] + rest),
                    Err(e) => Err(e),
                }
            } else {
                Ok(Seq::empty())
            }
        },
    }
}

/// Every term is UTF-8.
pub open spec fn terms_utf8(records: Seq<RecordView>) -> bool {
    forall|i: int| 0 <= i < records.len() ==> valid_utf8((#[trigger] records[i]).term)
}

/// Every term's length fits the length field.
pub open spec fn terms_fit(records: Seq<RecordView>) -> bool {
    forall|i: int| 0 <= i < records.len() ==> (#[trigger] records[i]).term.len() <= u64::MAX
}

/// A record's bytes, whatever follows them, are read back as that record.
pub proof fn lemma_parse_record(r: RecordView, rest: Seq<u8>)
    requires
        valid_utf8(r.term),
        r.term.len() <= u64::MAX,
    ensures
        parse_step(record_bytes(r) + rest) == Step::Item(r, record_bytes(r).len()),
        record_bytes(r).len() == 32 + r.term.len(),
        (record_bytes(r) + rest).skip(record_bytes(r).len() as int) == rest,
{
    let n = r.term.len() as int;
    let s = record_bytes(r) + rest;
    lemma_u64_roundtrip(n as u64);
    lemma_u64_roundtrip(r.doc_id);
    lemma_u64_roundtrip(r.sent_id);
    lemma_u64_roundtrip(r.word_id);
    assert(s.subrange(0, 8) =~= be_bytes(n as u64));
    assert(s.subrange(8, 8 + n) =~= r.term);
    assert(s.subrange(8 + n, 16 + n) =~= be_bytes(r.doc_id));
    assert(s.subrange(16 + n, 24 + n) =~= be_bytes(r.sent_id));
    assert(s.subrange(24 + n, 32 + n) =~= be_bytes(r.word_id));
    assert(s.skip(32 + n) =~= rest);
}

/// Reading a written stream gives back the records that were written.
pub proof fn lemma_stream_roundtrip(records: Seq<RecordView>)
    requires
        terms_utf8(records),
        terms_fit(records),
    ensures
        parse_stream(stream_of(records)) == Ok::<Seq<RecordView>, PreindexReaderError>(records),
    decreases records.len(),
{
    if records.len() == 0 {
        assert(records =~= Seq::<RecordView>::empty());
    } else {
        let r = records.first();
        let rest = records.drop_first();
        assert forall|i: int| 0 <= i < rest.len() implies valid_utf8((#[trigger] rest[i]).term)
            && rest[i].term.len() <= u64::MAX by {
            assert(rest[i] == records[i + 1]);
        }
        lemma_stream_roundtrip(rest);
        lemma_parse_record(r, stream_of(rest));
        assert(seq![r] + rest =~= records);
    }
}

/// A cursor over a preindex stream.
pub struct PreindexReader {
    bytes: Vec<u8>,
    pos: usize,
}

impl PreindexReader {
    /// The cursor stands inside the stream.
    pub closed spec fn wf(&self) -> bool {
        self.pos <= self.bytes.len()
    }

    /// The bytes that have not been read.
    pub closed spec fn remaining(&self) -> Seq<u8> {
        self.bytes@.skip(self.pos as int)
    }

    /// A cursor at the start of the stream.
    pub fn new(bytes: Vec<u8>) -> (r: PreindexReader)
        ensures
            r.wf(),
            r.remaining() == bytes@,
    {
        assert(bytes@.skip(0) =~= bytes@);
        PreindexReader { bytes, pos: 0 }
    }

    /// Reads the next record.
    ///
    /// With fewer than eight bytes left the stream has ended and nothing is
    /// consumed. A record that is cut short or whose term is not UTF-8 is a
    /// fault, after which nothing is left to read. Otherwise the record at
    /// the head of the stream is returned and the cursor stands behind it.
    pub fn next(&mut self) -> (r: Option<Result<Record, PreindexReaderError>>)
        requires
            old(self).wf(),
        ensures
            final(self).wf(),
            match parse_step(old(self).remaining()) {
                Step::End => r is None && final(self).remaining() == old(self).remaining(),
                Step::Fault(e) => r == Some(Err::<Record, PreindexReaderError>(e))
                    && final(self).remaining() == Seq::<u8>::empty(),
                Step::Item(rec, n) => r is Some && r->Some_0 is Ok && r->Some_0->Ok_0@ == rec
                    && final(self).remaining() == old(self).remaining().skip(n as int),
            },
    {
        let ghost s = self.remaining();
        let len = self.bytes.len();
        let pos = self.pos;
        let left = len - pos;
        if left < 8 {
            return None;
        }
        let term_len = match get_u64_be(self.bytes.as_slice(), pos) {
            Some(n) => n,
            None => {
                assert(false);
                return None;
            },
        };
        assert(s.subrange(0, 8) =~= self.bytes@.subrange(pos as int, pos + 8));
        if term_len > (left - 8) as u64 {
            self.pos = len;
            assert(self.bytes@.skip(len as int) =~= Seq::<u8>::empty());
            return Some(Err(PreindexReaderError::Io));
        }
        let n = term_len as usize;
        let term_slice = slice_subrange(self.bytes.as_slice(), pos + 8, pos + 8 + n);
        assert(term_slice@ =~= s.subrange(8, 8 + n));
        if !is_utf8(term_slice) {
            self.pos = len;
            assert(self.bytes@.skip(len as int) =~= Seq::<u8>::empty());
            return Some(Err(PreindexReaderError::Utf8));
        }
        if left - 8 - n < 24 {
            self.pos = len;
            assert(self.bytes@.skip(len as int) =~= Seq::<u8>::empty());
            return Some(Err(PreindexReaderError::Io));
        }
        let term = copy_bytes(term_slice);
        let doc_id = get_u64_be(self.bytes.as_slice(), pos + 8 + n);
        let sent_id = get_u64_be(self.bytes.as_slice(), pos + 16 + n);
        let word_id = get_u64_be(self.bytes.as_slice(), pos + 24 + n);
        assert(s.subrange(8 + n, 16 + n) =~= self.bytes@.subrange(pos + 8 + n, pos + 16 + n));
        assert(s.subrange(16 + n, 24 + n) =~= self.bytes@.subrange(pos + 16 + n, pos + 24 + n));
        assert(s.subrange(24 + n, 32 + n) =~= self.bytes@.subrange(pos + 24 + n, pos + 32 + n));
        match (doc_id, sent_id, word_id) {
            (Some(doc_id), Some(sent_id), Some(word_id)) => {
                self.pos = pos + 32 + n;
                assert(self.bytes@.skip(pos + 32 + n) =~= s.skip(32 + n));
                Some(Ok(Record { term, doc_id, sent_id, word_id }))
            },
            _ => {
                assert(false);
                None
            },
        }
    }
}

/// Whether two results of reading agree: the same fault, or records of the
/// same value.
pub open spec fn reads_as(
    r: Result<Vec<Record>, PreindexReaderError>,
    expected: Result<Seq<RecordView>, PreindexReaderError>,
) -> bool {
    match (r, expected) {
        (Ok(v), Ok(s)) => records_view(v@) == s,
        (Err(e), Err(f)) => e == f,
        _ => false,
    }
}

/// Reads a whole preindex stream: its records in order, or the first fault.
pub fn read_preindex(bytes: Vec<u8>) -> (r: Result<Vec<Record>, PreindexReaderError>)
    ensures
        reads_as(r, parse_stream(bytes@)),
{
    let ghost all = bytes@;
    let mut reader = PreindexReader::new(bytes);
    let mut records: Vec<Record> = Vec::new();
    loop
        invariant
            all == bytes@,
            reader.wf(),
            reader.remaining().len() <= all.len(),
            match parse_stream(reader.remaining()) {
                Ok(rest) => parse_stream(all) == Ok::<Seq<RecordView>, PreindexReaderError>(
                    records_view(records@) + rest,
                ),
                Err(e) => parse_stream(all) == Err::<Seq<RecordView>, PreindexReaderError>(e),
            },
        decreases reader.remaining().len(),
    {
        let ghost before = reader.remaining();
        let ghost seen = records_view(records@);
        match reader.next() {
            None => {
                assert(parse_step(before) is End);
                assert(parse_stream(before) == Ok::<Seq<RecordView>, PreindexReaderError>(
                    Seq::empty(),
                ));
                assert(records_view(records@) + Seq::<RecordView>::empty() =~= records_view(
                    records@,
                ));
                return Ok(records);
            },
            Some(Err(e)) => {
                assert(parse_step(before) == Step::Fault(e));
                assert(parse_stream(before) == Err::<Seq<RecordView>, PreindexReaderError>(e));
                return Err(e);
            },
            Some(Ok(record)) => {
                records.push(record);
                proof {
                    let n = parse_step(before)->Item_1;
                    assert(0 < n <= before.len());
                    assert(records_view(records@) =~= seen.push(record@));
                    match parse_stream(before.skip(n as int)) {
                        Ok(rest) => {
                            assert(seen + (seq![record@] + rest) =~= seen.push(record@) + rest);
                        },
                        Err(e) => {},
                    }
                }
            },
        }
    }
}

} // verus!
