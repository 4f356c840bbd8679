//! The ingestion pipeline: from corpus lines to the contents of the paired
//! index file and blob file.
//!
//! A corpus line is the word, a space, then whitespace-separated component
//! tokens. Token bytes are turned into 32-bit component patterns by the
//! caller (a concern of the numeric parser, outside this library); every
//! decision about the outcome is made here: a record is malformed exactly
//! when a line has no separator or a token did not parse.

use crate::codec::{enc_vec, encode_vector};
use crate::digits::{dec_str, fmt_usize, spec_parse_usize, parse_usize};
use crate::scan::{
    find_byte, find_from, join_lines, lemma_find_byte_at, lemma_find_byte_none, lemma_join_push,
    split_fields, split_fields_vec, split_lines, split_lines_vec,
};
use vstd::prelude::*;
use vstd::slice::{slice_index_get, slice_subrange, slice_to_vec};

verus! {

/// Declared corpus metadata: vocabulary size and vector dimension, as stated
/// by the corpus header line.
#[derive(Clone, Copy, Debug)]
pub struct Word2VecMeta {
    pub len: usize,
    pub dim: usize,
}

/// The error taxonomy of the store.
///
/// `IoError` arises only where files are opened, read or written, outside
/// this library's functions; `DeserializeError` names the condition that a
/// lookup recovers from by returning no value.
#[derive(Clone, Copy, PartialEq, Eq, Structural, Debug)]
pub enum W2vError {
    /// A file could not be opened, read or written.
    IoError,
    /// The metadata line is missing or unparseable.
    MalformedHeader,
    /// A corpus or index line is missing its separator or holds a bad token.
    MalformedRecord,
    /// Blob bytes at a recorded offset do not decode into a vector.
    DeserializeError,
}

/// One corpus record after the word/token split.
pub struct RawRecord {
    pub word: Vec<u8>,
    pub tokens: Vec<Vec<u8>>,
}

/// One record with its vector encoded for the blob file.
pub struct EncodedRecord {
    pub word: Vec<u8>,
    pub bytes: Vec<u8>,
}

/// One line of the index file: a word and its byte offset into the blob.
pub struct IndexEntry {
    pub word: Vec<u8>,
    pub offset: usize,
}

/// The header line parsed: vocabulary size, a space, then the dimension.
pub open spec fn spec_parse_header(line: Seq<u8>) -> Option<(usize, usize)> {
    match find_byte(line, 32) {
        Some(i) => match (spec_parse_usize(line.take(i)), spec_parse_usize(line.skip(i + 1))) {
            (Some(l), Some(d)) => Some((l, d)),
            _ => None,
        },
        None => None,
    }
}

/// A corpus line split at its first space into the word and the component
/// tokens; a line without a space is malformed.
pub open spec fn spec_split_record(line: Seq<u8>) -> Option<(Seq<u8>, Seq<Seq<u8>>)> {
    match find_byte(line, 32) {
        Some(i) => Some((line.take(i), split_fields(line.skip(i + 1)))),
        None => None,
    }
}

/// The vector of a record, from the parse result of each of its tokens: the
/// parsed components if all tokens parsed, nothing otherwise.
pub open spec fn spec_vector(parsed: Seq<Option<u32>>) -> Option<Seq<u32>> {
    if forall|i: int| 0 <= i < parsed.len() ==> (#[trigger] parsed[i]) is Some {
        Some(Seq::new(parsed.len(), |i: int| parsed[i]->Some_0))
    } else {
        None
    }
}

pub open spec fn word_views(words: Seq<Vec<u8>>) -> Seq<Seq<u8>> {
    words.map_values(|w: Vec<u8>| w@)
}

pub open spec fn parsed_views(parsed: Seq<Vec<Option<u32>>>) -> Seq<Seq<Option<u32>>> {
    parsed.map_values(|v: Vec<Option<u32>>| v@)
}

/// Every record's tokens all parsed.
pub open spec fn all_records_ok(pv: Seq<Seq<Option<u32>>>) -> bool {
    forall|i: int| 0 <= i < pv.len() ==> spec_vector(#[trigger] pv[i]) is Some
}

/// The vectors of a fully parsed corpus.
pub open spec fn spec_vectors(pv: Seq<Seq<Option<u32>>>) -> Seq<Seq<u32>> {
    Seq::new(pv.len(), |i: int| spec_vector(pv[i])->Some_0)
}

/// The blob file's bytes: the serialized vectors, concatenated in order.
pub open spec fn spec_blob(vecs: Seq<Seq<u32>>) -> Seq<u8>
    decreases vecs.len(),
{
    if vecs.len() == 0 {
        seq![]
    } else {
        spec_blob(vecs.drop_last()) + enc_vec(vecs.last())
    }
}

/// The blob offset of vector `i`: the length of everything written before it.
pub open spec fn spec_offset(vecs: Seq<Seq<u32>>, i: int) -> nat {
    spec_blob(vecs.take(i)).len()
}

/// The index file's header line (without its newline).
pub open spec fn header_line(len: nat, dim: nat) -> Seq<u8> {
    dec_str(len) + seq![32u8] + dec_str(dim)
}

/// One index entry line (without its newline): the word, a space, the offset.
pub open spec fn entry_line(word: Seq<u8>, off: nat) -> Seq<u8> {
    word + seq![32u8] + dec_str(off)
}

/// All entry lines of an ingested corpus, in write order.
pub open spec fn entry_lines(words: Seq<Seq<u8>>, vecs: Seq<Seq<u32>>) -> Seq<Seq<u8>> {
    Seq::new(words.len(), |i: int| entry_line(words[i], spec_offset(vecs, i)))
}

/// The index file's bytes: exactly one header line first, then one line per
/// entry, each line ended by a newline.
pub open spec fn spec_index_text(len: nat, dim: nat, words: Seq<Seq<u8>>, vecs: Seq<Seq<u32>>) -> Seq<u8> {
    join_lines(seq![header_line(len, dim)] + entry_lines(words, vecs))
}

/// Parse the corpus or index header line `"<len> <dim>"`.
pub fn parse_header_line(line: &[u8]) -> (r: Result<Word2VecMeta, W2vError>)
    ensures
        match r {
            Ok(m) => spec_parse_header(line@) == Some((m.len, m.dim)),
            Err(e) => e == W2vError::MalformedHeader && spec_parse_header(line@) is None,
        },
{
    match find_from(line, 0, 32) {
        Some(i) => {
            proof {
                lemma_find_byte_at(line@, 32, i as int);
                assert(i < line@.len());
                assert(line@.subrange(0, i as int) =~= line@.take(i as int));
                assert(line@.subrange(i + 1, line@.len() as int) =~= line@.skip(i + 1));
            }
            let end = line.len();
            let left = parse_usize(slice_subrange(line, 0, i));
            let right = parse_usize(slice_subrange(line, i + 1, end));
            match (left, right) {
                (Some(l), Some(d)) => Ok(Word2VecMeta { len: l, dim: d }),
                _ => Err(W2vError::MalformedHeader),
            }
        },
        None => {
            proof {
                lemma_find_byte_none(line@, 32);
            }
            Err(W2vError::MalformedHeader)
        },
    }
}

/// The compute side of reading a corpus: split it into lines, take the first
/// as the header, and hand back the metadata with the remaining lines.
pub fn read_corpus(corpus: &[u8]) -> (r: Result<(Word2VecMeta, Vec<Vec<u8>>), W2vError>)
    ensures
        ({
            let ls = split_lines(corpus@);
            match r {
                Ok(pair) => ls.len() >= 1 && spec_parse_header(ls[0]) == Some(
                    (pair.0.len, pair.0.dim),
                ) && pair.1@.map_values(|l: Vec<u8>| l@) == ls.skip(1),
                Err(e) => e == W2vError::MalformedHeader && (ls.len() == 0 || spec_parse_header(
                    ls[0],
                ) is None),
            }
        }),
{
    let mut lines = split_lines_vec(corpus);
    if lines.len() == 0 {
        return Err(W2vError::MalformedHeader);
    }
    let meta = match parse_header_line(slice_index_get(lines.as_slice(), 0).as_slice()) {
        Ok(m) => m,
        Err(e) => {
            return Err(e);
        },
    };
    lines.remove(0);
    proof {
        assert(lines@.map_values(|l: Vec<u8>| l@) =~= split_lines(corpus@).skip(1));
    }
    Ok((meta, lines))
}

/// Split one corpus line into its word and its component tokens.
pub fn split_record(line: &[u8]) -> (r: Result<RawRecord, W2vError>)
    ensures
        match r {
            Ok(rec) => spec_split_record(line@) == Some(
                (rec.word@, rec.tokens@.map_values(|t: Vec<u8>| t@)),
            ),
            Err(e) => e == W2vError::MalformedRecord && spec_split_record(line@) is None,
        },
{
    match find_from(line, 0, 32) {
        Some(i) => {
            proof {
                lemma_find_byte_at(line@, 32, i as int);
                assert(i < line@.len());
                assert(line@.subrange(0, i as int) =~= line@.take(i as int));
                assert(line@.subrange(i + 1, line@.len() as int) =~= line@.skip(i + 1));
            }
            let end = line.len();
            let word = slice_to_vec(slice_subrange(line, 0, i));
            let tokens = split_fields_vec(slice_subrange(line, i + 1, end));
            Ok(RawRecord { word, tokens })
        },
        None => {
            proof {
                lemma_find_byte_none(line@, 32);
            }
            Err(W2vError::MalformedRecord)
        },
    }
}

/// Collapse the per-token parse results of one record into its vector; a
/// record with any unparsed token is malformed and aborts the run.
pub fn vector_from_parsed(parsed: &Vec<Option<u32>>) -> (r: Result<Vec<u32>, W2vError>)
    ensures
        match r {
            Ok(v) => spec_vector(parsed@) == Some(v@),
            Err(e) => e == W2vError::MalformedRecord && spec_vector(parsed@) is None,
        },
{
    let n = parsed.len();
    let mut out: Vec<u32> = Vec::new();
    let mut i: usize = 0;
    while i < n
        invariant
            i <= n,
            n == parsed@.len(),
            out@.len() == i,
            forall|j: int| 0 <= j < i ==> (#[trigger] parsed@[j]) is Some && out@[j] == parsed@[j]->Some_0,
        decreases n - i,
    {
        match *slice_index_get(parsed.as_slice(), i) {
            Some(x) => {
                out.push(x);
            },
            None => {
                assert(parsed@[i as int] is None);
                return Err(W2vError::MalformedRecord);
            },
        }
        i = i + 1;
    }
    proof {
        let v = Seq::new(parsed@.len(), |j: int| parsed@[j]->Some_0);
        assert(out@ =~= v);
    }
    Ok(out)
}

/// Turn one record's word and token parse results into its encoded form.
pub fn encode_record(word: Vec<u8>, parsed: &Vec<Option<u32>>) -> (r: Result<
    EncodedRecord,
    W2vError,
>)
    ensures
        match r {
            Ok(er) => er.word@ == word@ && spec_vector(parsed@) is Some && er.bytes@ == enc_vec(
                spec_vector(parsed@)->Some_0,
            ),
            Err(e) => e == W2vError::MalformedRecord && spec_vector(parsed@) is None,
        },
{
    let bits = match vector_from_parsed(parsed) {
        Ok(b) => b,
        Err(e) => {
            return Err(e);
        },
    };
    let bytes = encode_vector(&bits);
    Ok(EncodedRecord { word, bytes })
}

/// The encoded bytes of a chunk of records.
pub open spec fn record_bytes(recs: Seq<EncodedRecord>) -> Seq<Seq<u8>> {
    recs.map_values(|r: EncodedRecord| r.bytes@)
}

/// Total length of a list of byte strings.
pub open spec fn total_bytes(bs: Seq<Seq<u8>>) -> nat
    decreases bs.len(),
{
    if bs.len() == 0 {
        0
    } else {
        total_bytes(bs.drop_last()) + bs.last().len()
    }
}

/// A prefix never holds more bytes than the whole.
pub proof fn lemma_total_bytes_prefix(bs: Seq<Seq<u8>>, j: int)
    requires
        0 <= j <= bs.len(),
    ensures
        total_bytes(bs.take(j)) <= total_bytes(bs),
    decreases bs.len() - j,
{
    if j == bs.len() {
        assert(bs.take(j) =~= bs);
    } else {
        assert(bs.take(j + 1).drop_last() =~= bs.take(j));
        lemma_total_bytes_prefix(bs, j + 1);
    }
}

/// Assign blob offsets to a chunk of encoded records, starting from the
/// writer's current end-of-file position: each record's offset is the
/// position of everything written before it, and the new position comes
/// back for the next chunk. Fails only when the position would overflow.
pub fn take_offsets(start: usize, records: &Vec<EncodedRecord>) -> (r: Option<
    (Vec<IndexEntry>, usize),
>)
    ensures
        ({
            let bs = record_bytes(records@);
            match r {
                Some(pair) => start + total_bytes(bs) <= usize::MAX && pair.1 == start
                    + total_bytes(bs) && pair.0@.len() == records@.len() && forall|i: int|
                    0 <= i < records@.len() ==> (#[trigger] pair.0@[i]).word@ == records@[i].word@
                        && pair.0@[i].offset == start + total_bytes(bs.take(i)),
                None => start + total_bytes(bs) > usize::MAX,
            }
        }),
{
    let ghost bs = record_bytes(records@);
    let n = records.len();
    let mut entries: Vec<IndexEntry> = Vec::new();
    let mut cur: usize = start;
    let mut i: usize = 0;
    proof {
        assert(bs.take(0) =~= Seq::<Seq<u8>>::empty());
    }
    while i < n
        invariant
            i <= n,
            n == records@.len(),
            bs == record_bytes(records@),
            cur == start + total_bytes(bs.take(i as int)),
            entries@.len() == i,
            forall|j: int|
                0 <= j < i ==> (#[trigger] entries@[j]).word@ == records@[j].word@
                    && entries@[j].offset == start + total_bytes(bs.take(j)),
        decreases n - i,
    {
        let rec = slice_index_get(records.as_slice(), i);
        entries.push(IndexEntry { word: slice_to_vec(rec.word.as_slice()), offset: cur });
        proof {
            assert(bs.take(i + 1).drop_last() =~= bs.take(i as int));
            assert(bs.take(i + 1).last() == records@[i as int].bytes@);
        }
        cur = match cur.checked_add(rec.bytes.len()) {
            Some(c) => c,
            None => {
                proof {
                    lemma_total_bytes_prefix(bs, i + 1);
                }
                return None;
            },
        };
        i = i + 1;
    }
    proof {
        assert(bs.take(n as int) =~= bs);
    }
    Some((entries, cur))
}

/// Append a byte slice to a vector.
fn append_bytes(dst: &mut Vec<u8>, src: &[u8])
    ensures
        final(dst)@ == old(dst)@ + src@,
{
    let n = src.len();
    let mut i: usize = 0;
    proof {
        assert(dst@ =~= old(dst)@ + src@.take(0));
    }
    while i < n
        invariant
            i <= n,
            n == src@.len(),
            dst@ == old(dst)@ + src@.take(i as int),
        decreases n - i,
    {
        dst.push(*slice_index_get(src, i));
        proof {
            assert(old(dst)@ + src@.take(i + 1) =~= (old(dst)@ + src@.take(i as int)).push(
                src@[i as int],
            ));
        }
        i = i + 1;
    }
    proof {
        assert(src@.take(n as int) =~= src@);
    }
}

/// Render the index file's header line, newline included.
pub fn render_header_line(meta: &Word2VecMeta) -> (r: Vec<u8>)
    ensures
        r@ == header_line(meta.len as nat, meta.dim as nat) + seq![10u8],
{
    let mut out = fmt_usize(meta.len);
    out.push(32);
    let dim = fmt_usize(meta.dim);
    append_bytes(&mut out, dim.as_slice());
    out.push(10);
    proof {
        assert(out@ =~= header_line(meta.len as nat, meta.dim as nat) + seq![10u8]);
    }
    out
}

/// Render one index entry line, newline included.
pub fn render_entry_line(word: &[u8], offset: usize) -> (r: Vec<u8>)
    ensures
        r@ == entry_line(word@, offset as nat) + seq![10u8],
{
    let mut out = slice_to_vec(word);
    out.push(32);
    let off = fmt_usize(offset);
    append_bytes(&mut out, off.as_slice());
    out.push(10);
    proof {
        assert(out@ =~= entry_line(word@, offset as nat) + seq![10u8]);
    }
    out
}

/// Serialize a fully split and token-parsed corpus into the index file's and
/// the blob file's bytes. The header goes out exactly once, before any entry;
/// each record's offset is the blob length just before its vector is
/// appended. Fails with `MalformedRecord` exactly when some token of some
/// record did not parse, as the whole run must then abort.
pub fn serialize_to_store(
    meta: &Word2VecMeta,
    words: &Vec<Vec<u8>>,
    parsed: &Vec<Vec<Option<u32>>>,
) -> (r: Result<(Vec<u8>, Vec<u8>), W2vError>)
    requires
        words@.len() == parsed@.len(),
    ensures
        ({
            let wv = word_views(words@);
            let pv = parsed_views(parsed@);
            match r {
                Ok(pair) => all_records_ok(pv) && pair.0@ == spec_index_text(
                    meta.len as nat,
                    meta.dim as nat,
                    wv,
                    spec_vectors(pv),
                ) && pair.1@ == spec_blob(spec_vectors(pv)),
                Err(e) => e == W2vError::MalformedRecord && !all_records_ok(pv),
            }
        }),
{
    let ghost wv = word_views(words@);
    let ghost pv = parsed_views(parsed@);
    let ghost vecs = spec_vectors(pv);
    let ghost hl = header_line(meta.len as nat, meta.dim as nat);
    let n = words.len();
    let mut blob: Vec<u8> = Vec::new();
    let mut idx: Vec<u8> = render_header_line(meta);
    proof {
        assert(vecs.take(0) =~= Seq::<Seq<u32>>::empty());
        assert(entry_lines(wv, vecs).take(0) =~= Seq::<Seq<u8>>::empty());
        assert(seq![hl] + entry_lines(wv, vecs).take(0) =~= seq![hl]);
        assert(seq![hl].skip(1) =~= Seq::<Seq<u8>>::empty());
        assert(join_lines(Seq::<Seq<u8>>::empty()) == Seq::<u8>::empty());
        assert(seq![hl][0] == hl);
        assert(join_lines(seq![hl]) =~= hl + seq![10u8]);
        assert(idx@ == join_lines(seq![hl] + entry_lines(wv, vecs).take(0)));
    }
    let mut i: usize = 0;
    while i < n
        invariant
            i <= n,
            n == words@.len() == parsed@.len(),
            wv == word_views(words@),
            pv == parsed_views(parsed@),
            vecs == spec_vectors(pv),
            hl == header_line(meta.len as nat, meta.dim as nat),
            forall|j: int| 0 <= j < i ==> spec_vector(#[trigger] pv[j]) is Some,
            blob@ == spec_blob(vecs.take(i as int)),
            idx@ == join_lines(seq![hl] + entry_lines(wv, vecs).take(i as int)),
        decreases n - i,
    {
        let bits = match vector_from_parsed(slice_index_get(parsed.as_slice(), i)) {
            Ok(b) => b,
            Err(e) => {
                proof {
                    assert(pv[i as int] == parsed@[i as int]@);
                    assert(spec_vector(pv[i as int]) is None);
                }
                return Err(e);
            },
        };
        let mut enc = encode_vector(&bits);
        let word_i = slice_index_get(words.as_slice(), i);
        let entry = render_entry_line(word_i.as_slice(), blob.len());
        proof {
            assert(pv[i as int] == parsed@[i as int]@);
            assert(vecs[i as int] == bits@);
            assert(vecs.take(i + 1).drop_last() =~= vecs.take(i as int));
            assert(vecs.take(i + 1).last() == vecs[i as int]);
            assert(wv[i as int] == words@[i as int]@);
            assert(entry_line(word_i@, blob@.len() as nat) == entry_line(
                wv[i as int],
                spec_offset(vecs, i as int),
            ));
            let done = seq![hl] + entry_lines(wv, vecs).take(i as int);
            lemma_join_push(done, entry_line(wv[i as int], spec_offset(vecs, i as int)));
            assert(done.push(entry_line(wv[i as int], spec_offset(vecs, i as int))) =~= seq![hl]
                + entry_lines(wv, vecs).take(i + 1));
        }
        append_bytes(&mut idx, entry.as_slice());
        blob.append(&mut enc);
        i = i + 1;
    }
    proof {
        assert(vecs.take(n as int) =~= vecs);
        assert(entry_lines(wv, vecs).take(n as int) =~= entry_lines(wv, vecs));
    }
    Ok((idx, blob))
}

} // verus!
