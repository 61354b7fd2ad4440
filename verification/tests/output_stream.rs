use lizard::huffman::{Bits, CodeMap};
use lizard::output_stream::OutputStream;
use lizard::{helpers, EncodedValue};

fn two_code_map() -> CodeMap {
    let mut codes: Vec<Option<Bits>> = vec![None; 256];
    codes[1] = Some(Bits::from((0b00001011, 4)));
    codes[2] = Some(Bits::from((0b00001001, 4)));
    let end_code = Bits::from((0b00001111, 4));
    CodeMap::new(codes, end_code)
}

#[test]
fn expected_output() {
    let mut output_stream = OutputStream::new(two_code_map(), false);

    let values: [u8; 4] = [1, 2, 1, 1];
    for value in values.iter() {
        output_stream.add(&EncodedValue::RawU8(*value)).unwrap();
    }
    output_stream.finalise().unwrap();

    let expected = {
        // The chunk marker for 3 bytes
        let chunk_marker: u8 = 0b11000011;
        let encoded_bit: Vec<u8> = vec![chunk_marker, 0b10111001, 0b10111011, 0b11110000];
        helpers::u8_iter_str(&encoded_bit)
    };
    assert_eq!(expected, helpers::u8_iter_str(&output_stream.output));
}

fn eight_bit_code_map() -> CodeMap {
    // one symbol with an eight-bit code, so each literal packs to one
    // byte, plus an eight-bit end code
    let mut codes: Vec<Option<Bits>> = vec![None; 256];
    codes[65] = Some(Bits::from((0b10100101, 8)));
    let end_code = Bits::from((0b11000011, 8));
    CodeMap::new(codes, end_code)
}

#[test]
fn chunk_boundary_one_record() {
    // 62 literals pack to 62 bytes, and the end code fits: 63 packed
    // bytes leave as exactly one chunk record.
    let mut stream = OutputStream::new(eight_bit_code_map(), false);
    for _ in 0..62 {
        stream.add(&EncodedValue::RawU8(65)).unwrap();
    }
    stream.finalise().unwrap();
    assert_eq!(stream.output.len(), 64);
    assert_eq!(stream.output[0], 0b11111111);
}

#[test]
fn chunk_boundary_two_records() {
    // one more literal: 64 packed bytes leave as two chunk records,
    // split after the 63rd byte.
    let mut stream = OutputStream::new(eight_bit_code_map(), false);
    for _ in 0..63 {
        stream.add(&EncodedValue::RawU8(65)).unwrap();
    }
    stream.finalise().unwrap();
    assert_eq!(stream.output.len(), 66);
    assert_eq!(stream.output[0], 0b11111111);
    assert_eq!(stream.output[64], 0b11000001);
}

#[test]
fn copy_record_flushes_literals_first() {
    let mut stream = OutputStream::new(two_code_map(), false);
    stream.add(&EncodedValue::RawU8(1)).unwrap();
    stream
        .add(&EncodedValue::OffsetLen(lizard::OffsetLen::new(2, 4)))
        .unwrap();
    stream.finalise().unwrap();
    // a one-byte chunk (code 1011 then end 1111), then the raw record
    assert_eq!(stream.output, vec![0b11000001, 0b10111111, 0b10000000, 2, 4]);
}

#[test]
fn chunk_marker_wire_form() {
    let marker = lizard::ChunkMarker { len: 3 };
    assert_eq!(marker.to_u8(), 0b11000011);
    let back = lizard::ChunkMarker::from_encoded_u8(0b11000011);
    assert_eq!(back.len, 3);
    assert_eq!(marker.to_debug_bytes(), b"<3>".to_vec());
}

#[test]
fn encoded_value_bytes() {
    let raw = EncodedValue::RawU8(9);
    assert_eq!(raw.to_bytes(), vec![9]);
    let rec = EncodedValue::OffsetLen(lizard::OffsetLen::new(5, 10));
    assert_eq!(rec.to_bytes(), vec![0b1000_0000, 5, 10]);
}
