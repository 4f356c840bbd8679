//! End-to-end tests over the in-memory pipeline and the mapped store.

use vecdump::store::{Word2VecMmap, Word2VecStore};
use vecdump::word2vec::{read_corpus, serialize_to_store, split_record, W2vError};

fn parse_token(tok: &[u8]) -> Option<u32> {
    match lexical::parse::<f32, _>(tok) {
        Ok(x) => Some(x.to_bits()),
        Err(_) => None,
    }
}

fn ingest(corpus: &[u8]) -> Result<(Vec<u8>, Vec<u8>), W2vError> {
    let (meta, lines) = read_corpus(corpus)?;
    let mut words: Vec<Vec<u8>> = Vec::new();
    let mut parsed: Vec<Vec<Option<u32>>> = Vec::new();
    for line in &lines {
        let rec = split_record(line.as_slice())?;
        words.push(rec.word);
        parsed.push(rec.tokens.iter().map(|t| parse_token(t.as_slice())).collect());
    }
    serialize_to_store(&meta, &words, &parsed)
}

fn open_store(idx: &[u8], blob: &[u8]) -> Word2VecMmap {
    let len = if blob.is_empty() { 1 } else { blob.len() };
    let mut m = memmap::MmapMut::map_anon(len).unwrap();
    m[..blob.len()].copy_from_slice(blob);
    let map = m.make_read_only().unwrap();
    Word2VecMmap::load_from(idx, map).unwrap()
}

fn bits(x: f32) -> u32 {
    x.to_bits()
}

#[test]
fn concrete_scenario() {
    let corpus = b"2 3\napple 1.0 2.0 3.0\nbanana 4.0 5.0 6.0\n";
    let (idx, blob) = ingest(corpus).unwrap();
    // the index text: one header line, then one line per entry; each encoded
    // vector takes 8 + 3 * 4 = 20 bytes, so banana starts at offset 20
    assert_eq!(idx, b"2 3\napple 0\nbanana 20\n".to_vec());
    // the blob: an 8-byte little-endian count, then the component patterns
    let mut expected: Vec<u8> = Vec::new();
    for v in [[1.0f32, 2.0, 3.0], [4.0f32, 5.0, 6.0]] {
        expected.extend_from_slice(&3u64.to_le_bytes());
        for x in v {
            expected.extend_from_slice(&x.to_bits().to_le_bytes());
        }
    }
    assert_eq!(blob, expected);
    let store = open_store(&idx, &blob);
    assert_eq!(store.len(), 2);
    assert_eq!(store.dim(), 3);
    assert_eq!(
        store.get(&b"apple"[..]),
        Some(vec![bits(1.0), bits(2.0), bits(3.0)])
    );
    assert_eq!(
        store.get(&b"banana"[..]),
        Some(vec![bits(4.0), bits(5.0), bits(6.0)])
    );
}

#[test]
fn missing_key_returns_nothing() {
    let corpus = b"2 3\napple 1.0 2.0 3.0\nbanana 4.0 5.0 6.0\n";
    let (idx, blob) = ingest(corpus).unwrap();
    let store = open_store(&idx, &blob);
    assert_eq!(store.get(&b"nonexistent-word"[..]), None);
    assert_eq!(store.get(&b""[..]), None);
}

#[test]
fn corrupt_offset_returns_nothing() {
    let corpus = b"2 3\napple 1.0 2.0 3.0\nbanana 4.0 5.0 6.0\n";
    let (_, blob) = ingest(corpus).unwrap();
    // the banana entry's offset is mutated to point past end-of-file
    let idx = b"2 3\napple 0\nbanana 9999\n";
    let store = open_store(idx, &blob);
    assert_eq!(store.get(&b"banana"[..]), None);
    // the store stays usable for other keys
    assert_eq!(
        store.get(&b"apple"[..]),
        Some(vec![bits(1.0), bits(2.0), bits(3.0)])
    );
}

#[test]
fn truncated_blob_returns_nothing() {
    let corpus = b"1 3\napple 1.0 2.0 3.0\n";
    let (idx, blob) = ingest(corpus).unwrap();
    // cut the blob short: the recorded offset is in range, but the vector
    // does not decode
    let store = open_store(&idx, &blob[..10]);
    assert_eq!(store.get(&b"apple"[..]), None);
}

#[test]
fn round_trip_many_words() {
    let corpus =
        b"5 2\nalpha 1.5 -2.25\nbeta 0.0 3.75\ngamma -0.5 0.125\ndelta 8.0 9.5\nepsilon -1.0 2.0\n";
    let (idx, blob) = ingest(corpus).unwrap();
    let store = open_store(&idx, &blob);
    let expected: [(&[u8], [f32; 2]); 5] = [
        (b"alpha", [1.5, -2.25]),
        (b"beta", [0.0, 3.75]),
        (b"gamma", [-0.5, 0.125]),
        (b"delta", [8.0, 9.5]),
        (b"epsilon", [-1.0, 2.0]),
    ];
    for (word, v) in expected {
        assert_eq!(store.get(word), Some(vec![bits(v[0]), bits(v[1])]));
    }
}

#[test]
fn header_line_written_once() {
    let corpus = b"4 1\nw0 0.5\nw1 1.5\nw2 2.5\nw3 3.5\n";
    let (idx, _) = ingest(corpus).unwrap();
    let text = String::from_utf8(idx).unwrap();
    let lines: Vec<&str> = text.lines().collect();
    assert_eq!(lines.len(), 5);
    assert_eq!(lines[0], "4 1");
    assert_eq!(lines.iter().filter(|l| **l == "4 1").count(), 1);
}

#[test]
fn offsets_partition_the_blob() {
    let corpus = b"3 2\na 1.0 2.0\nb 3.0 4.0\nc 5.0 6.0\n";
    let (idx, blob) = ingest(corpus).unwrap();
    let text = String::from_utf8(idx).unwrap();
    let mut offsets: Vec<usize> = text
        .lines()
        .skip(1)
        .map(|l| l.split_once(' ').unwrap().1.parse().unwrap())
        .collect();
    let unsorted = offsets.clone();
    offsets.sort();
    // already monotone in write order, all distinct
    assert_eq!(offsets, unsorted);
    assert_eq!(offsets, vec![0, 16, 32]);
    // each serialized vector fills exactly the range to the next offset
    assert_eq!(blob.len(), 48);
    for off in offsets {
        assert_eq!(&blob[off..off + 8], &2u64.to_le_bytes());
    }
}

#[test]
fn later_duplicate_word_wins() {
    // duplicate keys: the in-memory table keeps the entry seen last
    let corpus = b"2 2\nw 1.0 2.0\nw 3.0 4.0\n";
    let (idx, blob) = ingest(corpus).unwrap();
    let store = open_store(&idx, &blob);
    assert_eq!(store.get(&b"w"[..]), Some(vec![bits(3.0), bits(4.0)]));
}

#[test]
fn empty_vector_round_trips() {
    let corpus = b"1 0\nword \n";
    let (idx, blob) = ingest(corpus).unwrap();
    assert_eq!(blob, 0u64.to_le_bytes().to_vec());
    let store = open_store(&idx, &blob);
    assert_eq!(store.get(&b"word"[..]), Some(vec![]));
    assert_eq!(store.dim(), 0);
}

#[test]
fn load_from_rejects_bad_index() {
    let blob = [0u8; 8];
    let len = blob.len();
    let mut m = memmap::MmapMut::map_anon(len).unwrap();
    m[..].copy_from_slice(&blob);
    let map = m.make_read_only().unwrap();
    let r = Word2VecMmap::load_from(b"1 0\nword noff\n", map);
    assert!(matches!(r, Err(W2vError::MalformedRecord)));
}

#[test]
fn load_from_rejects_missing_header() {
    let mut m = memmap::MmapMut::map_anon(1).unwrap();
    m[..].copy_from_slice(&[0u8]);
    let map = m.make_read_only().unwrap();
    let r = Word2VecMmap::load_from(b"", map);
    assert!(matches!(r, Err(W2vError::MalformedHeader)));
}
