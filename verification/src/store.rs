//! The memory-mapped read store: an in-memory word-to-offset index parsed
//! from the index file, over a read-only memory map of the blob file.
//!
//! A lookup finds the word's offset, reads the mapped bytes from that offset,
//! and decodes one vector there. A missing word, an offset past the end of
//! the blob, or bytes that do not decode all answer "no value": a single bad
//! entry must not abort a caller iterating many lookups.

use crate::codec::{dec_vec, decode_vector};
use crate::digits::spec_parse_usize;
use crate::scan::{
    bytes_eq, find_byte, find_from, lemma_find_byte_at, lemma_find_byte_none, split_lines,
    split_lines_vec,
};
use crate::word2vec::{parse_header_line, spec_parse_header, IndexEntry, W2vError, Word2VecMeta};
use vstd::prelude::*;
use vstd::slice::{slice_index_get, slice_subrange, slice_to_vec};

verus! {

#[verifier::external_type_specification]
#[verifier::external_body]
pub struct ExMmap(memmap::Mmap);

/// The bytes a read-only memory map holds; fixed for the map's lifetime.
pub uninterp spec fn mmap_bytes(m: memmap::Mmap) -> Seq<u8>;

/// Relies on memmap::Mmap dereferencing to the mapped `[u8]`: `len` is the
/// length of the mapped byte range.
#[verifier::external_body]
fn mmap_len(m: &memmap::Mmap) -> (r: usize)
    ensures
        r == mmap_bytes(*m).len(),
{
    m.len()
}

/// Relies on memmap::Mmap dereferencing to the mapped `[u8]`: an in-bounds
/// range of the map reads as those mapped bytes.
#[verifier::external_body]
fn mmap_range(m: &memmap::Mmap, start: usize, end: usize) -> (r: Vec<u8>)
    requires
        start <= end <= mmap_bytes(*m).len(),
    ensures
        r@ == mmap_bytes(*m).subrange(start as int, end as int),
{
    m[start..end].to_vec()
}

/// The views of a list of index entries.
pub open spec fn entry_views(s: Seq<IndexEntry>) -> Seq<(Seq<u8>, usize)> {
    s.map_values(|e: IndexEntry| (e.word@, e.offset))
}

/// The word-to-offset table a list of entries defines; a later entry for the
/// same word overwrites an earlier one.
pub open spec fn table_of(entries: Seq<(Seq<u8>, usize)>) -> Map<Seq<u8>, usize>
    decreases entries.len(),
{
    if entries.len() == 0 {
        Map::empty()
    } else {
        table_of(entries.drop_last()).insert(entries.last().0, entries.last().1)
    }
}

/// What a lookup answers over a table and the blob bytes: the vector decoded
/// at the word's offset, nothing for a missing word, an offset past the end,
/// or bytes that do not decode.
pub open spec fn spec_lookup(table: Map<Seq<u8>, usize>, blob: Seq<u8>, key: Seq<u8>) -> Option<
    Seq<u32>,
> {
    if table.contains_key(key) {
        if table[key] <= blob.len() {
            dec_vec(blob.skip(table[key] as int))
        } else {
            None
        }
    } else {
        None
    }
}

/// One index entry line parsed: the word, a space, the decimal offset.
pub open spec fn spec_parse_entry(line: Seq<u8>) -> Option<(Seq<u8>, usize)> {
    match find_byte(line, 32) {
        Some(i) => match spec_parse_usize(line.skip(i + 1)) {
            Some(off) => Some((line.take(i), off)),
            None => None,
        },
        None => None,
    }
}

/// The index file parsed: the header's metadata and every entry, in file
/// order. The header is malformed when the file is empty or its first line
/// does not parse; an entry line that does not parse is a malformed record.
pub open spec fn spec_parse_index(bytes: Seq<u8>) -> Result<
    (usize, usize, Seq<(Seq<u8>, usize)>),
    W2vError,
> {
    let ls = split_lines(bytes);
    if ls.len() == 0 {
        Err(W2vError::MalformedHeader)
    } else {
        match spec_parse_header(ls[0]) {
            None => Err(W2vError::MalformedHeader),
            Some(hd) => {
                let rest = ls.skip(1);
                if forall|i: int| 0 <= i < rest.len() ==> spec_parse_entry(#[trigger] rest[i]) is Some {
                    Ok(
                        (
                            hd.0,
                            hd.1,
                            Seq::new(rest.len(), |i: int| spec_parse_entry(rest[i])->Some_0),
                        ),
                    )
                } else {
                    Err(W2vError::MalformedRecord)
                }
            },
        }
    }
}

/// Parse one index entry line.
fn parse_entry_line(line: &[u8]) -> (r: Result<IndexEntry, W2vError>)
    ensures
        match r {
            Ok(e) => spec_parse_entry(line@) == Some((e.word@, e.offset)),
            Err(err) => err == W2vError::MalformedRecord && spec_parse_entry(line@) is None,
        },
{
    match find_from(line, 0, 32) {
        Some(i) => {
            proof {
                lemma_find_byte_at(line@, 32, i as int);
                assert(i < line@.len());
                assert(line@.subrange(0, i as int) =~= line@.take(i as int));
                assert(line@.subrange(i + 1, line@.len() as int) =~= line@.skip(i + 1));
            }
            let end = line.len();
            let word = slice_to_vec(slice_subrange(line, 0, i));
            match crate::digits::parse_usize(slice_subrange(line, i + 1, end)) {
                Some(off) => Ok(IndexEntry { word, offset: off }),
                None => Err(W2vError::MalformedRecord),
            }
        },
        None => {
            proof {
                lemma_find_byte_none(line@, 32);
            }
            Err(W2vError::MalformedRecord)
        },
    }
}

/// Parse the whole index file: the header line, then one entry per line.
pub fn parse_index(bytes: &[u8]) -> (r: Result<(Word2VecMeta, Vec<IndexEntry>), W2vError>)
    ensures
        match r {
            Ok(pair) => spec_parse_index(bytes@) == Ok::<_, W2vError>(
                (pair.0.len, pair.0.dim, entry_views(pair.1@)),
            ),
            Err(e) => spec_parse_index(bytes@) == Err::<(usize, usize, Seq<(Seq<u8>, usize)>), _>(
                e,
            ),
        },
{
    let ghost ls = split_lines(bytes@);
    let lines = split_lines_vec(bytes);
    if lines.len() == 0 {
        return Err(W2vError::MalformedHeader);
    }
    let meta = match parse_header_line(slice_index_get(lines.as_slice(), 0).as_slice()) {
        Ok(m) => m,
        Err(e) => {
            return Err(e);
        },
    };
    let n = lines.len();
    let mut entries: Vec<IndexEntry> = Vec::new();
    let mut i: usize = 1;
    while i < n
        invariant
            1 <= i <= n,
            n == lines@.len(),
            ls == split_lines(bytes@),
            lines@.map_values(|l: Vec<u8>| l@) == ls,
            spec_parse_header(ls[0]) == Some((meta.len, meta.dim)),
            entries@.len() == i - 1,
            forall|j: int|
                0 <= j < i - 1 ==> spec_parse_entry(ls.skip(1)[j]) == Some(
                    (#[trigger] entries@[j].word@, entries@[j].offset),
                ),
        decreases n - i,
    {
        proof {
            assert(ls.skip(1)[i - 1] == ls[i as int]);
            assert(ls[i as int] == lines@[i as int]@);
        }
        match parse_entry_line(slice_index_get(lines.as_slice(), i).as_slice()) {
            Ok(e) => {
                entries.push(e);
            },
            Err(err) => {
                proof {
                    assert(spec_parse_entry(ls.skip(1)[i - 1]) is None);
                }
                return Err(err);
            },
        }
        i = i + 1;
    }
    proof {
        let rest = ls.skip(1);
        assert forall|j: int| 0 <= j < rest.len() implies spec_parse_entry(
            #[trigger] rest[j],
        ) is Some by {
            assert(spec_parse_entry(rest[j]) == Some((entries@[j].word@, entries@[j].offset)));
        }
        assert(entry_views(entries@) =~= Seq::new(
            rest.len(),
            |j: int| spec_parse_entry(rest[j])->Some_0,
        ));
    }
    Ok((meta, entries))
}

/// A read-only store of word embeddings.
pub trait Word2VecStore: Sized {
    /// The word-to-offset table the store serves.
    spec fn index_view(&self) -> Map<Seq<u8>, usize>;

    /// The blob bytes the store reads vectors from.
    spec fn blob_view(&self) -> Seq<u8>;

    /// The declared vocabulary size and dimension.
    spec fn meta_view(&self) -> (usize, usize);

    /// Fetch the stored vector of a word, as its 32-bit component patterns.
    fn get(&self, key: &[u8]) -> (r: Option<Vec<u32>>)
        ensures
            match r {
                Some(v) => spec_lookup(self.index_view(), self.blob_view(), key@) == Some(v@),
                None => spec_lookup(self.index_view(), self.blob_view(), key@) is None,
            },
    ;

    /// The declared size of the store.
    fn len(&self) -> (r: usize)
        ensures
            r == self.meta_view().0,
    ;

    /// The declared number of dimensions.
    fn dim(&self) -> (r: usize)
        ensures
            r == self.meta_view().1,
    ;
}

/// Memory-mapped store over an ingested index/blob pair.
pub struct Word2VecMmap {
    index: Vec<IndexEntry>,
    store: memmap::Mmap,
    meta: Word2VecMeta,
}

impl Word2VecMmap {
    /// Build the store from the index file's bytes and the mapped blob file:
    /// parse the header and every entry line, keep the table in memory, and
    /// serve lookups from the map.
    pub fn load_from(idx_bytes: &[u8], store: memmap::Mmap) -> (r: Result<
        Word2VecMmap,
        W2vError,
    >)
        ensures
            match r {
                Ok(s) => ({
                    &&& spec_parse_index(idx_bytes@) matches Ok(parsed)
                        && s.index_view() == table_of(parsed.2) && s.meta_view() == (
                        parsed.0,
                        parsed.1,
                    )
                    &&& s.blob_view() == mmap_bytes(store)
                }),
                Err(e) => spec_parse_index(idx_bytes@) == Err::<
                    (usize, usize, Seq<(Seq<u8>, usize)>),
                    _,
                >(e),
            },
    {
        match parse_index(idx_bytes) {
            Ok((meta, index)) => Ok(Word2VecMmap { index, store, meta }),
            Err(e) => Err(e),
        }
    }
}

/// The table of entries before position `i` decides a key the same way as
/// the whole, when no entry at or after `i` holds the key.
proof fn lemma_table_untouched(entries: Seq<(Seq<u8>, usize)>, i: int, key: Seq<u8>)
    requires
        0 <= i <= entries.len(),
        forall|j: int| i <= j < entries.len() ==> (#[trigger] entries[j]).0 != key,
    ensures
        table_of(entries).contains_key(key) == table_of(entries.take(i)).contains_key(key),
        table_of(entries).contains_key(key) ==> table_of(entries)[key] == table_of(
            entries.take(i),
        )[key],
    decreases entries.len() - i,
{
    if i == entries.len() {
        assert(entries.take(i) =~= entries);
    } else {
        lemma_table_untouched(entries, i + 1, key);
        assert(entries.take(i + 1).drop_last() =~= entries.take(i));
        assert(entries.take(i + 1).last() == entries[i]);
    }
}

impl Word2VecStore for Word2VecMmap {
    closed spec fn index_view(&self) -> Map<Seq<u8>, usize> {
        table_of(entry_views(self.index@))
    }

    closed spec fn blob_view(&self) -> Seq<u8> {
        mmap_bytes(self.store)
    }

    closed spec fn meta_view(&self) -> (usize, usize) {
        (self.meta.len, self.meta.dim)
    }

    fn get(&self, key: &[u8]) -> (r: Option<Vec<u32>>) {
        let ghost ev = entry_views(self.index@);
        let n = self.index.len();
        let mut i: usize = n;
        while i > 0
            invariant
                i <= n,
                n == self.index@.len(),
                ev == entry_views(self.index@),
                forall|j: int| i <= j < n ==> (#[trigger] ev[j]).0 != key@,
            decreases i,
        {
            let e = slice_index_get(self.index.as_slice(), i - 1);
            if bytes_eq(e.word.as_slice(), key) {
                proof {
                    lemma_table_untouched(ev, i as int, key@);
                    assert(ev.take(i as int).drop_last() =~= ev.take(i - 1));
                    assert(ev.take(i as int).last() == ev[i - 1]);
                    assert(table_of(ev.take(i as int)).contains_key(key@));
                    assert(table_of(ev.take(i as int))[key@] == e.offset);
                }
                let off = e.offset;
                let blen = mmap_len(&self.store);
                if off <= blen {
                    let tail = mmap_range(&self.store, off, blen);
                    proof {
                        assert(tail@ =~= mmap_bytes(self.store).skip(off as int));
                    }
                    return decode_vector(tail.as_slice());
                } else {
                    return None;
                }
            }
            proof {
                assert(ev[i - 1].0 != key@);
            }
            i = i - 1;
        }
        proof {
            lemma_table_untouched(ev, 0, key@);
            assert(ev.take(0) =~= Seq::<(Seq<u8>, usize)>::empty());
            assert(!table_of(ev).contains_key(key@));
        }
        None
    }

    fn len(&self) -> (r: usize) {
        self.meta.len
    }

    fn dim(&self) -> (r: usize) {
        self.meta.dim
    }
}

} // verus!
