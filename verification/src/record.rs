//! Fields mode: decomposing one raw line into delimiter-separated fields,
//! selecting fields by position, and re-joining them for emission.
//!
//! A line arrives as raw bytes and is split at every occurrence of the
//! single configured delimiter byte. Each chunk must be valid text; a chunk
//! that is not makes the whole line a malformed record, reported per line and
//! never fatal to the lines around it.

use vstd::prelude::*;
use vstd::string::StringSliceAdditionalSpecFns;
use vstd::utf8::{decode_utf8, decode_utf8_encode_utf8, encode_utf8, valid_utf8};

use crate::seqs::{
    join_with, lemma_join_split_on, lemma_join_with_push, lemma_selected_take_step,
    lemma_split_on_head_sep, lemma_split_on_no_sep, selected, split_on,
};
use crate::text::utf8_to_string;

verus! {

/// The delimiter-separated byte chunks of one raw line.
pub open spec fn record_chunks(line: Seq<u8>, delimiter: u8) -> Seq<Seq<u8>> {
    split_on(line, delimiter)
}

/// A well-formed record: every chunk of the line is valid text.
pub open spec fn record_wf(line: Seq<u8>, delimiter: u8) -> bool {
    forall|i: int|
        0 <= i < record_chunks(line, delimiter).len() ==> valid_utf8(
            #[trigger] record_chunks(line, delimiter)[i],
        )
}

/// The decoded fields of a well-formed record, in order.
pub open spec fn record_fields(line: Seq<u8>, delimiter: u8) -> Seq<Seq<char>> {
    record_chunks(line, delimiter).map_values(|c: Seq<u8>| decode_utf8(c))
}

/// One line decomposed into delimiter-separated fields; built only by
/// [`decompose_record`], consumed by [`extract_fields`].
#[derive(Debug)]
pub struct Record {
    fields: Vec<String>,
}

impl View for Record {
    type V = Seq<Seq<char>>;

    closed spec fn view(&self) -> Seq<Seq<char>> {
        self.fields.deep_view()
    }
}

impl Record {
    /// Number of fields.
    pub fn len(&self) -> (n: usize)
        ensures
            n == self@.len(),
    {
        self.fields.len()
    }

    /// The field at position `i`.
    pub fn field(&self, i: usize) -> (f: &String)
        requires
            i < self@.len(),
        ensures
            f@ == self@[i as int],
    {
        &self.fields[i]
    }
}

/// Why one line failed to decompose.
#[derive(Debug, PartialEq, Eq, Structural)]
pub enum RecordError {
    /// The chunk at this field position is not valid text: the delimiter cut
    /// the line somewhere no field boundary can be.
    InvalidUtf8(usize),
}

/// `e` reports the first chunk of the line that is not valid text.
pub open spec fn record_error(line: Seq<u8>, delimiter: u8, e: RecordError) -> bool {
    let chunks = record_chunks(line, delimiter);
    &&& e matches RecordError::InvalidUtf8(i)
    &&& 0 <= i < chunks.len()
    &&& !valid_utf8(chunks[i as int])
    &&& (forall|j: int| 0 <= j < i ==> valid_utf8(#[trigger] chunks[j]))
}

/// Decomposes one raw line into its delimiter-separated fields.
///
/// Succeeds exactly when every chunk between delimiters is valid text, and
/// then the record holds the decoded fields in order. Fails on the first
/// chunk that is not, reporting its position; the caller skips the line and
/// goes on.
pub fn decompose_record(line: &[u8], delimiter: u8) -> (r: Result<Record, RecordError>)
    ensures
        r is Ok <==> record_wf(line@, delimiter),
        r matches Ok(rec) ==> rec@ == record_fields(line@, delimiter),
        r matches Err(e) ==> record_error(line@, delimiter, e),
{
    let n = line.len();
    let mut fields: Vec<String> = Vec::new();
    let mut start: usize = 0;
    let ghost chunks = record_chunks(line@, delimiter);
    let ghost mut ndone: int = 0;
    proof {
        assert(line@.skip(0) =~= line@);
        assert(chunks =~= chunks.take(0) + split_on(line@.skip(0), delimiter));
        assert(fields.deep_view() =~= chunks.take(0).map_values(|c: Seq<u8>| decode_utf8(c)));
    }
    loop
        invariant
            n == line@.len(),
            0 <= start <= n,
            0 <= ndone <= chunks.len(),
            chunks == record_chunks(line@, delimiter),
            chunks == chunks.take(ndone) + split_on(line@.skip(start as int), delimiter),
            forall|k: int| 0 <= k < ndone ==> valid_utf8(#[trigger] chunks[k]),
            fields.deep_view() == chunks.take(ndone).map_values(|c: Seq<u8>| decode_utf8(c)),
            fields@.len() == ndone,
        decreases n - start + 1,
    {
        let mut end: usize = start;
        while end < n && line[end] != delimiter
            invariant
                start <= end <= n,
                n == line@.len(),
                forall|j: int| start <= j < end ==> line@[j] != delimiter,
            decreases n - end,
        {
            end = end + 1;
        }
        let ghost chunk = line@.subrange(start as int, end as int);
        proof {
            let tail = line@.skip(start as int);
            if end < n {
                lemma_split_on_head_sep(tail, delimiter, end - start);
                assert(tail.take(end - start) =~= chunk);
                assert(tail.skip(end - start + 1) =~= line@.skip(end + 1));
            } else {
                assert(forall|j: int| 0 <= j < tail.len() ==> tail[j] != delimiter);
                lemma_split_on_no_sep(tail, delimiter);
                assert(tail =~= chunk);
            }
            assert(chunks[ndone] == chunk);
            assert(chunks.take(ndone + 1) =~= chunks.take(ndone).push(chunk));
        }
        let mut piece: Vec<u8> = Vec::new();
        let mut i: usize = start;
        while i < end
            invariant
                start <= i <= end <= n,
                n == line@.len(),
                piece@ == line@.subrange(start as int, i as int),
            decreases end - i,
        {
            piece.push(line[i]);
            i = i + 1;
            proof {
                assert(piece@ =~= line@.subrange(start as int, i as int));
            }
        }
        match utf8_to_string(piece) {
            Some(s) => {
                let ghost prev = fields.deep_view();
                let ghost sv = s@;
                fields.push(s);
                proof {
                    assert(fields.deep_view() =~= prev.push(sv));
                    assert(chunks.take(ndone + 1).map_values(|c: Seq<u8>| decode_utf8(c))
                        =~= prev.push(sv));
                    ndone = ndone + 1;
                }
            },
            None => {
                let bad = fields.len();
                proof {
                    assert(record_error(line@, delimiter, RecordError::InvalidUtf8(bad)));
                }
                return Err(RecordError::InvalidUtf8(bad));
            },
        }
        if end == n {
            proof {
                assert(chunks.take(ndone) =~= chunks);
            }
            return Ok(Record { fields });
        }
        start = end + 1;
    }
}

/// The fields of `record` at the positions in `field_pos`, in the order the
/// positions are listed; out-of-range positions are silently skipped, and a
/// repeated position repeats its field.
pub fn extract_fields(record: &Record, field_pos: &[usize]) -> (r: Vec<String>)
    ensures
        r.deep_view() == selected(record@, field_pos@),
{
    let mut out: Vec<String> = Vec::new();
    let mut k: usize = 0;
    while k < field_pos.len()
        invariant
            k <= field_pos@.len(),
            out.deep_view() == selected(record@, field_pos@.take(k as int)),
        decreases field_pos@.len() - k,
    {
        proof {
            lemma_selected_take_step(record@, field_pos@, k as int);
        }
        let p = field_pos[k];
        if p < record.len() {
            out.push(record.field(p).clone());
            proof {
                assert(out.deep_view() =~= selected(record@, field_pos@.take(k as int + 1)));
            }
        }
        k = k + 1;
    }
    proof {
        assert(field_pos@.take(field_pos@.len() as int) =~= field_pos@);
    }
    out
}

/// The bytes that emitting `fields` with `delimiter` between them produces.
pub open spec fn joined_bytes(fields: Seq<Seq<char>>, delimiter: u8) -> Seq<u8> {
    join_with(fields.map_values(|f: Seq<char>| encode_utf8(f)), delimiter)
}

/// Re-joins extracted fields with the same single-byte delimiter they were
/// split on, ready for emission.
pub fn join_fields(fields: &Vec<String>, delimiter: u8) -> (r: Vec<u8>)
    ensures
        r@ == joined_bytes(fields.deep_view(), delimiter),
{
    let mut out: Vec<u8> = Vec::new();
    let mut k: usize = 0;
    proof {
        assert(fields.deep_view().take(0).map_values(|f: Seq<char>| encode_utf8(f))
            =~= Seq::<Seq<u8>>::empty());
    }
    while k < fields.len()
        invariant
            k <= fields@.len(),
            fields.deep_view().len() == fields@.len(),
            out@ == joined_bytes(fields.deep_view().take(k as int), delimiter),
        decreases fields@.len() - k,
    {
        let ghost dv = fields.deep_view();
        let ghost m = dv.take(k as int).map_values(|f: Seq<char>| encode_utf8(f));
        if k > 0 {
            out.push(delimiter);
        }
        let piece: &[u8] = fields[k].as_str().as_bytes();
        proof {
            assert(piece@ == encode_utf8(dv[k as int]));
        }
        out.extend_from_slice(piece);
        proof {
            lemma_join_with_push(m, encode_utf8(dv[k as int]), delimiter);
            assert(dv.take(k as int + 1).map_values(|f: Seq<char>| encode_utf8(f)) =~= m.push(
                encode_utf8(dv[k as int]),
            ));
            assert(m.len() == k as int);
        }
        k = k + 1;
    }
    proof {
        assert(fields.deep_view().take(fields@.len() as int) =~= fields.deep_view());
    }
    out
}

/// Fields round-trip: decomposing a well-formed line and re-joining all its
/// fields with the same delimiter gives the original line back.
pub proof fn lemma_fields_roundtrip(line: Seq<u8>, delimiter: u8)
    requires
        record_wf(line, delimiter),
    ensures
        joined_bytes(record_fields(line, delimiter), delimiter) == line,
{
    let chunks = record_chunks(line, delimiter);
    let back = record_fields(line, delimiter).map_values(|f: Seq<char>| encode_utf8(f));
    assert forall|i: int| 0 <= i < chunks.len() implies back[i] == chunks[i] by {
        decode_utf8_encode_utf8(chunks[i]);
    }
    assert(back =~= chunks);
    lemma_join_split_on(line, delimiter);
}

/// Re-running field extraction with the same record and the same position
/// list always yields the same output: the result is pinned by the inputs.
pub proof fn lemma_extract_fields_deterministic(
    fields: Seq<Seq<char>>,
    pos: Seq<usize>,
    r1: Seq<Seq<char>>,
    r2: Seq<Seq<char>>,
)
    requires
        r1 == selected(fields, pos),
        r2 == selected(fields, pos),
    ensures
        r1 == r2,
{
}

/// A repeated position picks the same field repeatedly: selecting `[0, 0]`
/// from a non-empty record yields its first field twice.
pub proof fn lemma_repeated_index(fields: Seq<Seq<char>>)
    requires
        fields.len() > 0,
    ensures
        selected(fields, seq![0usize, 0usize]) == seq![fields[0], fields[0]],
{
    let pos = seq![0usize, 0usize];
    assert(selected(fields, Seq::<usize>::empty()) =~= Seq::<Seq<char>>::empty());
    assert(seq![0usize].drop_last() =~= Seq::<usize>::empty());
    assert(selected(fields, seq![0usize]) =~= seq![fields[0]]);
    assert(pos.drop_last() =~= seq![0usize]);
    assert(selected(fields, pos) =~= seq![fields[0], fields[0]]);
}

} // verus!
