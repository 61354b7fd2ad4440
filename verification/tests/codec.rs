use std::collections::VecDeque;

use lizard::decode::{decode, finalise_match};
use lizard::encode::{encode, find_match};
use lizard::header::Header;
use lizard::huffman::{build_tree, Bits, CodeMap, HuffmanTree};
use lizard::output_stream::OutputStream;
use lizard::{EncodedValue, LizardError, OffsetLen, MAX_LOOKBACK_BUFFER_LEN};

fn round_trip(input: Vec<u8>) {
    let (container, transcript) = encode(&input, MAX_LOOKBACK_BUFFER_LEN as u64, false).unwrap();
    assert!(transcript.is_none());
    assert_eq!(decode(&container).unwrap(), input);
}

#[test]
fn encode_decode_empty() {
    round_trip(Vec::new());
}

#[test]
fn encode_decode_single_byte() {
    round_trip(vec![42]);
}

#[test]
fn encode_decode_text() {
    round_trip(b"A_DEAD_DAD_CEDED_A_BAD_BABE_A_BEADED_ABACA_BED".to_vec());
}

#[test]
fn encode_decode_window_sized_input() {
    let mut input = Vec::new();
    for i in 0..MAX_LOOKBACK_BUFFER_LEN {
        input.push((i % 251) as u8);
    }
    assert_eq!(input.len(), MAX_LOOKBACK_BUFFER_LEN);
    round_trip(input);
}

#[test]
fn encode_decode_long_repetitive_input() {
    let mut input = Vec::new();
    let motif = b"the quick brown fox jumps over the lazy dog. ";
    while input.len() < 5000 {
        input.extend_from_slice(motif);
    }
    round_trip(input);
}

#[test]
fn encode_decode_binary_input() {
    let mut input = Vec::new();
    let mut state: u32 = 12345;
    for _ in 0..3000 {
        state = state.wrapping_mul(1103515245).wrapping_add(12345);
        input.push((state >> 16) as u8);
    }
    round_trip(input);
}

#[test]
fn encode_honors_configured_lookback() {
    let mut input = Vec::new();
    let motif = b"abcdefgh";
    while input.len() < 600 {
        input.extend_from_slice(motif);
    }
    let (container, _) = encode(&input, 64, false).unwrap();
    assert_eq!(decode(&container).unwrap(), input);
}

#[test]
fn encode_writes_transcript_on_request() {
    let (_, transcript) = encode(&b"ABABABABAB".to_vec(), 1000, true).unwrap();
    let transcript = transcript.unwrap();
    assert!(transcript.starts_with(b"<Header: Tree(size:"));
}

#[test]
fn decode_rejects_out_of_window_copy() {
    let mut stats = vec![0u64; 256];
    stats[65] = 1;
    let tree = build_tree(&stats).unwrap();
    let header = Header::new(tree, 1000);
    let mut container = header.to_bytes().unwrap();
    // a copy record asking for bytes no record has materialized
    container.extend_from_slice(&OffsetLen::new(5, 10).to_bytes_new());
    assert_eq!(decode(&container), Err(LizardError::RangeOutOfBounds));
}

#[test]
fn decode_rejects_unknown_marker() {
    let mut stats = vec![0u64; 256];
    stats[65] = 1;
    let tree = build_tree(&stats).unwrap();
    let header = Header::new(tree, 1000);
    let mut container = header.to_bytes().unwrap();
    container.push(0b0100_0000);
    assert_eq!(decode(&container), Err(LizardError::UnknownRecordMarker));
}

#[test]
fn decode_rejects_truncated_chunk() {
    let mut stats = vec![0u64; 256];
    stats[65] = 1;
    let tree = build_tree(&stats).unwrap();
    let header = Header::new(tree, 1000);
    let mut container = header.to_bytes().unwrap();
    container.push(0b1100_0011);
    container.push(1);
    assert_eq!(decode(&container), Err(LizardError::TruncatedStream));
}

#[test]
fn decode_rejects_truncated_header() {
    assert_eq!(decode(&vec![9]), Err(LizardError::TruncatedStream));
    assert_eq!(decode(&vec![0, 40, 1, 2]), Err(LizardError::TruncatedStream));
}

#[test]
fn decode_rejects_bad_header() {
    assert_eq!(decode(&vec![0, 2]), Err(LizardError::MalformedHeader));
}

#[test]
fn decode_of_empty_input_is_empty() {
    assert_eq!(decode(&Vec::new()).unwrap(), Vec::<u8>::new());
}

#[test]
fn finder_degrades_short_matches_to_literals() {
    let lookback: VecDeque<u8> = b"abc".iter().copied().collect();
    let pending: VecDeque<u8> = b"abcxyz".iter().copied().collect();
    match find_match(&pending, &lookback, false) {
        EncodedValue::RawU8(v) => assert_eq!(v, b'a'),
        EncodedValue::OffsetLen(_) => panic!("a three-byte run is below the match threshold"),
    }
}

#[test]
fn finder_reports_runs_inside_the_lookback_window() {
    let lookback: VecDeque<u8> = b"xyzhello".iter().copied().collect();
    let pending: VecDeque<u8> = b"helloworld".iter().copied().collect();
    match find_match(&pending, &lookback, false) {
        EncodedValue::OffsetLen(ol) => {
            assert_eq!(ol.offset, 3);
            assert_eq!(ol.len, 5);
            assert!(ol.offset + ol.len <= lookback.len() as u64);
            assert_eq!(ol.matched_bytes, Some(b"hello".to_vec()));
        },
        EncodedValue::RawU8(_) => panic!("a five-byte run should be proposed"),
    }
}

#[test]
fn finder_never_matches_without_a_window() {
    let lookback: VecDeque<u8> = VecDeque::new();
    let pending: VecDeque<u8> = b"aaaaaaaa".iter().copied().collect();
    match find_match(&pending, &lookback, false) {
        EncodedValue::RawU8(v) => assert_eq!(v, b'a'),
        EncodedValue::OffsetLen(_) => panic!("nothing to match against"),
    }
}

#[test]
fn copy_applies_inside_bounds_only() {
    let mut window: VecDeque<u8> = b"abcdef".iter().copied().collect();
    finalise_match(&mut window, &OffsetLen::new(1, 3)).unwrap();
    let grown: Vec<u8> = window.iter().copied().collect();
    assert_eq!(grown, b"abcdefbcd".to_vec());

    let mut window: VecDeque<u8> = b"ab".iter().copied().collect();
    assert_eq!(
        finalise_match(&mut window, &OffsetLen::new(1, 2)),
        Err(LizardError::RangeOutOfBounds)
    );
}

#[test]
fn helper_renderings() {
    let buffer: VecDeque<u8> = b"lizard".iter().copied().collect();
    assert_eq!(lizard::helpers::read_buffer_to_string(&buffer), "lizard");
    assert_eq!(lizard::helpers::u8_iter_str(&vec![0b1010, 0xff]), "00001010, 11111111");
    assert_eq!(lizard::error::LizardError::RangeOutOfBounds.describe(), "copy range out of bounds");
}

#[test]
fn literal_run_survives_a_chunk_split() {
    // A tree with one byte leaf: 'A' codes as a single 0 bit, the end
    // sentinel as 1. Six hundred literals pack into more than 63 bytes,
    // so the run leaves as several chunk records; the decoder must keep
    // its bit accumulator running across them.
    let tree = HuffmanTree::Node(Box::new(HuffmanTree::Leaf(65)), Box::new(HuffmanTree::End));
    let mut codes: Vec<Option<Bits>> = vec![None; 256];
    codes[65] = Some(Bits::from((0, 1)));
    let code_map = CodeMap::new(codes, Bits::from((1, 1)));

    let mut stream = OutputStream::new(code_map, false);
    for _ in 0..600 {
        stream.add(&EncodedValue::RawU8(65)).unwrap();
    }
    stream.finalise().unwrap();

    let header = Header::new(tree, 1000);
    let mut container = header.to_bytes().unwrap();
    container.extend_from_slice(&stream.output);
    assert_eq!(decode(&container).unwrap(), vec![65u8; 600]);
}
