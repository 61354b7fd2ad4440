use std::io::{BufReader, Read};

use lizard::huffman::{
    build_tree, pack_to_u8, tree_to_code_map, unpack_bytes, BitStream, Bits, ByteStats, CodeMap,
};
use lizard::LizardError;

fn stats_of(input: &[u8]) -> ByteStats {
    let mut stats: ByteStats = vec![0u64; 256];
    for byte in input.iter() {
        stats[*byte as usize] += 1;
    }
    stats
}

#[test]
fn smol_round_trip() {
    let input = "ABA";

    // ENCODE
    let stats = stats_of(input.as_bytes());
    let tree = build_tree(&stats).unwrap();
    println!("Tree: {:?}", tree);
    println!("{}", tree.to_dot());
    let code_map = tree_to_code_map(&tree);
    println!("Code map: {:?}", code_map);
    let encoded_bytes = pack_to_u8(&code_map, &input.as_bytes().to_vec()).unwrap();

    // DECODE
    let output_bytes = unpack_bytes(&encoded_bytes, &tree);
    let output_string = String::from_utf8(output_bytes).unwrap();

    // Check
    assert_eq!(input, &output_string);
}

#[test]
fn round_trip() {
    let input = "A_DEAD_DAD_CEDED_A_BAD_BABE_A_BEADED_ABACA_BED";

    // ENCODE
    let stats = stats_of(input.as_bytes());
    let tree = build_tree(&stats).unwrap();
    println!("{}", tree.to_dot());
    let code_map = tree_to_code_map(&tree);
    let encoded_bytes = pack_to_u8(&code_map, &input.as_bytes().to_vec()).unwrap();

    for byte in encoded_bytes.iter() {
        println!("{:08b}", byte);
    }

    // DECODE
    let output_bytes = unpack_bytes(&encoded_bytes, &tree);
    let output_string = String::from_utf8(output_bytes).unwrap();

    // Check
    assert_eq!(input, &output_string);
}

#[test]
fn single_symbol_round_trip() {
    let input = vec![7u8; 40];
    let stats = stats_of(&input);
    let tree = build_tree(&stats).unwrap();
    let code_map = tree_to_code_map(&tree);
    let packed = pack_to_u8(&code_map, &input).unwrap();
    assert_eq!(unpack_bytes(&packed, &tree), input);
}

#[test]
fn pack_to_u8_big() {
    let code_map = {
        let mut codes: Vec<Option<Bits>> = vec![None; 256];
        codes[0b00000001] = Some(Bits::from((0b00001011, 4)));
        codes[0b00000010] = Some(Bits::from((0b00001001, 4)));
        codes[0b00000100] = Some(Bits::from((0b00111101, 6)));
        codes[0b00001000] = Some(Bits::from((0b10101011, 8)));
        codes[0b00000101] = Some(Bits::from((0b00000001, 3)));
        let end_code = Bits::from((0b11111111, 8));
        CodeMap::new(codes, end_code)
    };
    let input_bytes: Vec<u8> = vec![
        0b1,    // 4 [1011_]
        0b10,   // 8 [10111001]
        0b100,  // 14 [111101_]
        0b100,  // 20 [11110111][1101_]
        0b1,    // 24 [11011011]
        0b1000, // 32 [10101011]
        0b1000, // 40 [10101011]
        0b1000, // 48 [10101011]
        0b1000, // 56 [10101011]
        0b10,   // 60 [1001_]
        0b101,  // 63 [1001001_]
        0b100,  // 69 [10010011] [11101_]
    ];
    let expected_bytes: Vec<&str> = vec![
        "10111001", "11110111", "11011011", "10101011", "10101011", "10101011", "10101011",
        // Here we're at the last byte of the u64 and moving onto the next
        "10010011", "11101111", "11111000",
    ];
    let output = pack_to_u8(&code_map, &input_bytes).unwrap();
    assert_eq!(expected_bytes.join(", "), lizard::helpers::u8_iter_str(&output));
}

#[test]
fn bitstream_test() {
    let data: Vec<u8> = vec![0b10100101, 0b11110000];
    let mut bitstream = BitStream::new(&data);
    let mut as_bools: Vec<bool> = Vec::new();
    while let Some(b) = bitstream.next_bit() {
        as_bools.push(b);
    }
    let expected = {
        let mut first_byte = vec![true, false, true, false, false, true, false, true];
        let mut second_byte = vec![true, true, true, true, false, false, false, false];
        first_byte.append(&mut second_byte);
        first_byte
    };

    assert_eq!(expected, as_bools);
}

#[test]
fn bitstream_with_reader() {
    let data: [u8; 2] = [0b11111111, 0b10101010];
    let mut buffreader = BufReader::new(&data[..]);
    let mut collected: Vec<u8> = Vec::new();
    let mut buf: [u8; 1] = [0];
    loop {
        let read = buffreader.read(&mut buf);
        match read {
            Ok(1) => collected.push(buf[0]),
            Ok(0) => break,
            Ok(invalid_num_bytes) => panic!(
                "Bug, read invalid number of bytes for buff: {}",
                invalid_num_bytes
            ),
            Err(e) => panic!("Error reading bytes: {}", e),
        }
    }
    let mut bitstream = BitStream::new(&collected);
    let mut as_bools: Vec<bool> = Vec::new();
    while let Some(b) = bitstream.next_bit() {
        as_bools.push(b);
    }
    let expected = {
        let mut first_byte = vec![true, true, true, true, true, true, true, true];
        let mut second_byte = vec![true, false, true, false, true, false, true, false];
        first_byte.append(&mut second_byte);
        first_byte
    };

    assert_eq!(expected, as_bools);
}

#[test]
fn empty_model_is_rejected() {
    let stats: ByteStats = vec![0u64; 256];
    assert_eq!(build_tree(&stats), Err(LizardError::EmptyModel));
}

#[test]
fn missing_code_is_reported() {
    let codes: Vec<Option<Bits>> = vec![None; 256];
    let code_map = CodeMap::new(codes, Bits::from((0b1, 1)));
    assert_eq!(
        pack_to_u8(&code_map, &vec![42u8]),
        Err(LizardError::MissingCode)
    );
}

#[test]
fn tree_shape_helpers() {
    let stats = stats_of(b"ABA");
    let tree = build_tree(&stats).unwrap();
    // two byte leaves, the end sentinel, and two internal forks
    assert_eq!(tree.size(), 5);
    assert_eq!(tree.size_saturating(), 5);
}

#[test]
fn bits_growth() {
    let b = Bits::from((0b1011, 4));
    assert_eq!(b.set_bits, 0b1011);
    assert_eq!(b.bit_size, 4);
    let left = b.clone_with_increase(true);
    assert_eq!(left.set_bits, 0b10110);
    assert_eq!(left.bit_size, 5);
    let right = b.clone_with_increase(false);
    assert_eq!(right.set_bits, 0b10111);
    let empty = Bits::default();
    assert_eq!(empty.bit_size, 0);
}

#[test]
fn code_map_rendering() {
    let mut codes: Vec<Option<Bits>> = vec![None; 256];
    codes[65] = Some(Bits::from((0b0, 1)));
    let code_map = CodeMap::new(codes, Bits::from((0b1, 1)));
    let rendered = code_map.to_debug_string();
    assert_eq!(rendered, "Val : 65 -> 0\nEND: 1");
}
