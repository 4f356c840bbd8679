//! Laws of the store, proved once and for all: the index text holds exactly
//! one header line, offsets partition the blob, and ingesting then reading
//! back returns every record's vector.

use crate::codec::{
    dec_vec, enc_vec, lemma_dec_enc, lemma_enc_vec_len, lemma_pow256_values, pow256,
};
use crate::digits::{
    all_digits, dec_str, is_digit, lemma_dec_str_digits, lemma_parse_dec_str, spec_parse_usize,
};
use crate::scan::{find_byte, lemma_find_byte, lemma_find_byte_at, lemma_split_join, split_lines};
use crate::store::{spec_lookup, spec_parse_entry, spec_parse_index, table_of};
use crate::word2vec::{
    entry_line, entry_lines, header_line, spec_blob, spec_index_text, spec_offset,
    spec_parse_header, spec_split_record, W2vError,
};
use vstd::prelude::*;

verus! {

/// Concatenating records concatenates their blobs.
pub proof fn lemma_blob_cat(a: Seq<Seq<u32>>, b: Seq<Seq<u32>>)
    ensures
        spec_blob(a + b) == spec_blob(a) + spec_blob(b),
    decreases b.len(),
{
    if b.len() == 0 {
        assert(a + b =~= a);
        assert(spec_blob(a) + spec_blob(b) =~= spec_blob(a));
    } else {
        assert((a + b).drop_last() =~= a + b.drop_last());
        assert((a + b).last() == b.last());
        lemma_blob_cat(a, b.drop_last());
        assert(spec_blob(a + b) =~= spec_blob(a) + spec_blob(b));
    }
}

/// An offset never lies past the end of the blob.
pub proof fn lemma_offset_in_blob(vecs: Seq<Seq<u32>>, i: int)
    requires
        0 <= i <= vecs.len(),
    ensures
        spec_offset(vecs, i) <= spec_blob(vecs).len(),
{
    assert(vecs =~= vecs.take(i) + vecs.skip(i));
    lemma_blob_cat(vecs.take(i), vecs.skip(i));
}

/// The blob splits at record `i` into what was written before it, its own
/// serialized vector, and what was written after it.
pub proof fn lemma_blob_decompose(vecs: Seq<Seq<u32>>, i: int)
    requires
        0 <= i < vecs.len(),
    ensures
        spec_blob(vecs) == spec_blob(vecs.take(i)) + enc_vec(vecs[i]) + spec_blob(
            vecs.skip(i + 1),
        ),
{
    assert(vecs =~= vecs.take(i + 1) + vecs.skip(i + 1));
    lemma_blob_cat(vecs.take(i + 1), vecs.skip(i + 1));
    assert(vecs.take(i + 1).drop_last() =~= vecs.take(i));
    assert(vecs.take(i + 1).last() == vecs[i]);
    assert(spec_blob(vecs) =~= spec_blob(vecs.take(i)) + enc_vec(vecs[i]) + spec_blob(
        vecs.skip(i + 1),
    ));
}

/// Offsets are strictly increasing in write order, and each record's
/// serialized vector occupies exactly the blob range from its offset to the
/// next one: sorted by offset, the entries partition the blob.
pub proof fn lemma_offsets_partition(vecs: Seq<Seq<u32>>, i: int)
    requires
        0 <= i < vecs.len(),
    ensures
        spec_offset(vecs, i + 1) == spec_offset(vecs, i) + enc_vec(vecs[i]).len(),
        spec_offset(vecs, i) < spec_offset(vecs, i + 1),
        spec_offset(vecs, i + 1) <= spec_blob(vecs).len(),
        spec_blob(vecs).subrange(
            spec_offset(vecs, i) as int,
            spec_offset(vecs, i + 1) as int,
        ) == enc_vec(vecs[i]),
        spec_offset(vecs, vecs.len() as int) == spec_blob(vecs).len(),
{
    lemma_blob_decompose(vecs, i);
    lemma_enc_vec_len(vecs[i]);
    assert(vecs.take(i + 1).drop_last() =~= vecs.take(i));
    assert(vecs.take(i + 1).last() == vecs[i]);
    lemma_offset_in_blob(vecs, i + 1);
    assert(spec_blob(vecs).subrange(
        spec_offset(vecs, i) as int,
        spec_offset(vecs, i + 1) as int,
    ) =~= enc_vec(vecs[i]));
    assert(vecs.take(vecs.len() as int) =~= vecs);
}

/// All recorded offsets are distinct: earlier records have smaller offsets.
pub proof fn lemma_offsets_increasing(vecs: Seq<Seq<u32>>, i: int, j: int)
    requires
        0 <= i < j < vecs.len(),
    ensures
        spec_offset(vecs, i) < spec_offset(vecs, j),
    decreases j - i,
{
    lemma_offsets_partition(vecs, i);
    if i + 1 < j {
        lemma_offsets_increasing(vecs, i + 1, j);
    }
}

/// A line of digit runs and spaces holds no newline.
proof fn lemma_num_line_clean(a: Seq<u8>, b: Seq<u8>)
    requires
        all_digits(a),
        all_digits(b),
    ensures
        forall|j: int| 0 <= j < (a + seq![32u8] + b).len() ==> (a + seq![32u8] + b)[j] != 10,
{
    let s = a + seq![32u8] + b;
    assert forall|j: int| 0 <= j < s.len() implies s[j] != 10 by {
        if j < a.len() {
            assert(s[j] == a[j]);
            assert(is_digit(a[j]));
        } else if j == a.len() {
            assert(s[j] == 32);
        } else {
            assert(s[j] == b[j - a.len() - 1]);
            assert(is_digit(b[j - a.len() - 1]));
        }
    }
}

/// The index text holds exactly one header line, at line 1, then one line
/// per entry, whatever the corpus size: splitting it into lines gives the
/// header first and the entry lines after it.
pub proof fn lemma_header_once(len: nat, dim: nat, words: Seq<Seq<u8>>, vecs: Seq<Seq<u32>>)
    requires
        forall|i: int, j: int|
            0 <= i < words.len() && 0 <= j < words[i].len() ==> #[trigger] words[i][j] != 10,
    ensures
        split_lines(spec_index_text(len, dim, words, vecs)) == seq![header_line(len, dim)]
            + entry_lines(words, vecs),
        split_lines(spec_index_text(len, dim, words, vecs)).len() == words.len() + 1,
        split_lines(spec_index_text(len, dim, words, vecs))[0] == header_line(len, dim),
{
    let lines = seq![header_line(len, dim)] + entry_lines(words, vecs);
    lemma_dec_str_digits(len);
    lemma_dec_str_digits(dim);
    lemma_num_line_clean(dec_str(len), dec_str(dim));
    assert forall|i: int, j: int|
        0 <= i < lines.len() && 0 <= j < lines[i].len() implies #[trigger] lines[i][j] != 10 by {
        if i == 0 {
            assert(lines[0] == header_line(len, dim));
        } else {
            let w = words[i - 1];
            let off = spec_offset(vecs, i - 1);
            assert(lines[i] == entry_line(w, off));
            lemma_dec_str_digits(off);
            if j < w.len() {
                assert(lines[i][j] == w[j]);
            } else if j == w.len() {
                assert(lines[i][j] == 32);
            } else {
                assert(lines[i][j] == dec_str(off)[j - w.len() - 1]);
                assert(is_digit(dec_str(off)[j - w.len() - 1]));
            }
        }
    }
    lemma_split_join(lines);
}

/// A rendered line of the shape `left <space> digits` parses back into its
/// two parts, provided `left` holds no space.
proof fn lemma_line_splits(left: Seq<u8>, n: usize)
    requires
        forall|j: int| 0 <= j < left.len() ==> left[j] != 32,
    ensures
        find_byte(left + seq![32u8] + dec_str(n as nat), 32) == Some(left.len() as int),
        (left + seq![32u8] + dec_str(n as nat)).take(left.len() as int) == left,
        (left + seq![32u8] + dec_str(n as nat)).skip(left.len() as int + 1) == dec_str(n as nat),
        spec_parse_usize(dec_str(n as nat)) == Some(n),
{
    let s = left + seq![32u8] + dec_str(n as nat);
    lemma_dec_str_digits(n as nat);
    assert(s[left.len() as int] == 32);
    assert forall|j: int| 0 <= j < left.len() implies s[j] != 32 by {
        assert(s[j] == left[j]);
    }
    lemma_find_byte_at(s, 32, left.len() as int);
    assert(s.take(left.len() as int) =~= left);
    assert(s.skip(left.len() as int + 1) =~= dec_str(n as nat));
    lemma_parse_dec_str(n);
}

/// The rendered index text parses back into its metadata and its entries,
/// in write order, provided no word holds a space or newline and the blob
/// is addressable.
pub proof fn lemma_index_text_parses(
    len: usize,
    dim: usize,
    words: Seq<Seq<u8>>,
    vecs: Seq<Seq<u32>>,
)
    requires
        words.len() == vecs.len(),
        forall|i: int, j: int|
            0 <= i < words.len() && 0 <= j < words[i].len() ==> #[trigger] words[i][j] != 10
                && words[i][j] != 32,
        spec_blob(vecs).len() <= usize::MAX,
    ensures
        spec_parse_index(spec_index_text(len as nat, dim as nat, words, vecs)) == Ok::<
            _,
            W2vError,
        >(
            (
                len,
                dim,
                Seq::new(
                    words.len() as nat,
                    |i: int| (words[i], (spec_offset(vecs, i) as usize)),
                ),
            ),
        ),
{
    let text = spec_index_text(len as nat, dim as nat, words, vecs);
    lemma_header_once(len as nat, dim as nat, words, vecs);
    let ls = split_lines(text);

    // line 1 parses as the header
    lemma_dec_str_digits(len as nat);
    lemma_line_splits(dec_str(len as nat), dim);
    lemma_parse_dec_str(len);
    assert(spec_parse_header(ls[0]) == Some((len, dim)));

    // every further line parses as its entry
    let rest = ls.skip(1);
    assert forall|i: int| 0 <= i < rest.len() implies spec_parse_entry(#[trigger] rest[i])
        == Some((words[i], (spec_offset(vecs, i) as usize))) by {
        assert(rest[i] == ls[i + 1]);
        assert(ls[i + 1] == entry_lines(words, vecs)[i]);
        let off = spec_offset(vecs, i);
        lemma_offset_in_blob(vecs, i);
        assert(off <= usize::MAX);
        lemma_line_splits(words[i], off as usize);
    }
    assert(Seq::new(rest.len(), |i: int| spec_parse_entry(rest[i])->Some_0) =~= Seq::new(
        words.len() as nat,
        |i: int| (words[i], (spec_offset(vecs, i) as usize)),
    ));
}

/// With distinct words, the table keeps every entry: building the table and
/// looking a word up gives that word's own offset.
pub proof fn lemma_table_distinct(entries: Seq<(Seq<u8>, usize)>, k: int)
    requires
        0 <= k < entries.len(),
        forall|i: int, j: int|
            0 <= i < j < entries.len() ==> (#[trigger] entries[i]).0 != (
            #[trigger] entries[j]).0,
    ensures
        table_of(entries).contains_key(entries[k].0),
        table_of(entries)[entries[k].0] == entries[k].1,
    decreases entries.len(),
{
    if k == entries.len() - 1 {
    } else {
        assert(entries[k].0 != entries[entries.len() - 1].0);
        assert(entries.drop_last()[k] == entries[k]);
        lemma_table_distinct(entries.drop_last(), k);
    }
}

/// A word split off a corpus line holds no space, and no newline if the
/// line holds none: every ingested word meets the round-trip law's
/// hypotheses on word shape.
pub proof fn lemma_split_word_clean(line: Seq<u8>)
    requires
        spec_split_record(line) is Some,
        forall|j: int| 0 <= j < line.len() ==> line[j] != 10,
    ensures
        ({
            let w = spec_split_record(line)->Some_0.0;
            forall|j: int| 0 <= j < w.len() ==> #[trigger] w[j] != 32 && w[j] != 10
        }),
{
    lemma_find_byte(line, 32);
    let i = find_byte(line, 32)->Some_0;
    let w = spec_split_record(line)->Some_0.0;
    assert(w == line.take(i));
    assert forall|j: int| 0 <= j < w.len() implies #[trigger] w[j] != 32 && w[j] != 10 by {
        assert(w[j] == line[j]);
    }
}

/// Round trip: ingest any corpus of distinct words, parse the produced index
/// text back, and look any of its words up in the resulting table over the
/// produced blob: the word's original vector comes back. Words hold no space
/// or newline, as corpus records never produce such words, and the blob fits
/// in memory, as any materialized blob does.
pub proof fn lemma_round_trip(
    len: usize,
    dim: usize,
    words: Seq<Seq<u8>>,
    vecs: Seq<Seq<u32>>,
    k: int,
)
    requires
        words.len() == vecs.len(),
        0 <= k < words.len(),
        forall|i: int, j: int| 0 <= i < j < words.len() ==> words[i] != words[j],
        forall|i: int, j: int|
            0 <= i < words.len() && 0 <= j < words[i].len() ==> #[trigger] words[i][j] != 10
                && words[i][j] != 32,
        spec_blob(vecs).len() <= usize::MAX,
    ensures
        ({
            let parsed = spec_parse_index(spec_index_text(len as nat, dim as nat, words, vecs));
            &&& parsed is Ok
            &&& spec_lookup(table_of(parsed->Ok_0.2), spec_blob(vecs), words[k]) == Some(vecs[k])
        }),
{
    lemma_index_text_parses(len, dim, words, vecs);
    let entries = Seq::new(
        words.len() as nat,
        |i: int| (words[i], (spec_offset(vecs, i) as usize)),
    );
    lemma_table_distinct(entries, k);
    assert(table_of(entries)[words[k]] == spec_offset(vecs, k) as usize);
    lemma_offset_in_blob(vecs, k);
    lemma_blob_decompose(vecs, k);
    let blob = spec_blob(vecs);
    let off = spec_offset(vecs, k);
    assert(blob.skip(off as int) =~= enc_vec(vecs[k]) + spec_blob(vecs.skip(k + 1)));
    lemma_enc_vec_len(vecs[k]);
    lemma_pow256_values();
    assert(vecs[k].len() < pow256(8)) by {
        assert(enc_vec(vecs[k]).len() <= blob.len());
    }
    lemma_dec_enc(vecs[k], spec_blob(vecs.skip(k + 1)));
    assert(dec_vec(blob.skip(off as int)) == Some(vecs[k]));
}

} // verus!
