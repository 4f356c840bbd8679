//! Tests of the ingestion pieces: header parsing, record splitting, token
//! collapse, encoding, offset assignment and the rendered index lines.

use vecdump::digits::{fmt_usize, parse_usize};
use vecdump::word2vec::{
    encode_record, parse_header_line, read_corpus, render_entry_line, render_header_line,
    serialize_to_store, split_record, take_offsets, vector_from_parsed, W2vError, Word2VecMeta,
};

fn parse_token(tok: &[u8]) -> Option<u32> {
    match lexical::parse::<f32, _>(tok) {
        Ok(x) => Some(x.to_bits()),
        Err(_) => None,
    }
}

#[test]
fn malformed_line_aborts_ingestion() {
    let corpus = b"3 3\napple 1.0 2.0 3.0\nbad x y\nbanana 4.0 5.0 6.0\n";
    let (meta, lines) = read_corpus(corpus).unwrap();
    let mut words: Vec<Vec<u8>> = Vec::new();
    let mut parsed: Vec<Vec<Option<u32>>> = Vec::new();
    for line in &lines {
        let rec = split_record(line.as_slice()).unwrap();
        words.push(rec.word);
        parsed.push(rec.tokens.iter().map(|t| parse_token(t.as_slice())).collect());
    }
    let r = serialize_to_store(&meta, &words, &parsed);
    assert!(matches!(r, Err(W2vError::MalformedRecord)));
}

#[test]
fn line_without_separator_is_malformed() {
    let r = split_record(b"loneword");
    assert!(matches!(r, Err(W2vError::MalformedRecord)));
    let r = split_record(b"");
    assert!(matches!(r, Err(W2vError::MalformedRecord)));
}

#[test]
fn header_parses() {
    let m = parse_header_line(b"12 345").unwrap();
    assert_eq!(m.len, 12);
    assert_eq!(m.dim, 345);
}

#[test]
fn header_without_space_is_malformed() {
    assert!(matches!(
        parse_header_line(b"123"),
        Err(W2vError::MalformedHeader)
    ));
}

#[test]
fn header_with_bad_number_is_malformed() {
    assert!(matches!(
        parse_header_line(b"a 3"),
        Err(W2vError::MalformedHeader)
    ));
    assert!(matches!(
        parse_header_line(b"2 3 4"),
        Err(W2vError::MalformedHeader)
    ));
    assert!(matches!(
        parse_header_line(b"2 -3"),
        Err(W2vError::MalformedHeader)
    ));
}

#[test]
fn empty_corpus_has_no_header() {
    assert!(matches!(read_corpus(b""), Err(W2vError::MalformedHeader)));
}

#[test]
fn corpus_reader_splits_header_and_lines() {
    let (meta, lines) = read_corpus(b"2 3\napple 1.0 2.0 3.0\nbanana 4.0 5.0 6.0\n").unwrap();
    assert_eq!(meta.len, 2);
    assert_eq!(meta.dim, 3);
    assert_eq!(lines.len(), 2);
    assert_eq!(lines[0], b"apple 1.0 2.0 3.0".to_vec());
    assert_eq!(lines[1], b"banana 4.0 5.0 6.0".to_vec());
}

#[test]
fn record_splits_on_runs_of_spaces() {
    let rec = split_record(b"apple  1.0   2.0 ").unwrap();
    assert_eq!(rec.word, b"apple".to_vec());
    assert_eq!(rec.tokens, vec![b"1.0".to_vec(), b"2.0".to_vec()]);
}

#[test]
fn vector_collapses_only_full_parses() {
    let ok = vector_from_parsed(&vec![Some(1u32), Some(2u32)]).unwrap();
    assert_eq!(ok, vec![1, 2]);
    let r = vector_from_parsed(&vec![Some(1u32), None]);
    assert!(matches!(r, Err(W2vError::MalformedRecord)));
}

#[test]
fn encoded_record_bytes_are_the_blob_format() {
    let parsed = vec![parse_token(b"1.0"), parse_token(b"-2.5")];
    let er = encode_record(b"w".to_vec(), &parsed).unwrap();
    let mut expected: Vec<u8> = 2u64.to_le_bytes().to_vec();
    expected.extend_from_slice(&1.0f32.to_bits().to_le_bytes());
    expected.extend_from_slice(&(-2.5f32).to_bits().to_le_bytes());
    assert_eq!(er.bytes, expected);
}

#[test]
fn take_offsets_assigns_cumulative_positions() {
    let parsed = vec![parse_token(b"1.0")];
    let a = encode_record(b"a".to_vec(), &parsed).unwrap();
    let b = encode_record(b"b".to_vec(), &parsed).unwrap();
    let records = vec![a, b];
    let (entries, end) = take_offsets(100, &records).unwrap();
    assert_eq!(entries.len(), 2);
    assert_eq!(entries[0].word, b"a".to_vec());
    assert_eq!(entries[0].offset, 100);
    assert_eq!(entries[1].word, b"b".to_vec());
    assert_eq!(entries[1].offset, 112);
    assert_eq!(end, 124);
}

#[test]
fn take_offsets_refuses_position_overflow() {
    let parsed = vec![parse_token(b"1.0")];
    let a = encode_record(b"a".to_vec(), &parsed).unwrap();
    let records = vec![a];
    assert!(take_offsets(usize::MAX - 3, &records).is_none());
}

#[test]
fn rendered_lines_match_the_text_format() {
    let meta = Word2VecMeta { len: 71, dim: 300 };
    assert_eq!(render_header_line(&meta), b"71 300\n".to_vec());
    assert_eq!(render_entry_line(b"apple", 1060), b"apple 1060\n".to_vec());
}

#[test]
fn decimal_formatting_round_trips() {
    for n in [0usize, 7, 10, 99, 100, 12345, usize::MAX] {
        let s = fmt_usize(n);
        assert_eq!(parse_usize(&s), Some(n));
    }
    assert_eq!(fmt_usize(0), b"0".to_vec());
    assert_eq!(fmt_usize(10903), b"10903".to_vec());
}

#[test]
fn decimal_parsing_rejects_bad_strings() {
    assert_eq!(parse_usize(b""), None);
    assert_eq!(parse_usize(b"12a"), None);
    assert_eq!(parse_usize(b"-1"), None);
    assert_eq!(parse_usize(b"99999999999999999999999999"), None);
    assert_eq!(parse_usize(b"007"), Some(7));
}
