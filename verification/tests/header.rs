use lizard::header::Header;
use lizard::huffman::{build_tree, ByteStats};

#[test]
fn test() {
    let input = "A_DEAD_DAD_CEDED_A_BAD_BABE_A_BEADED_ABACA_BED";
    // ENCODE
    let mut stats: ByteStats = vec![0u64; 256];
    for byte in input.as_bytes().iter() {
        stats[*byte as usize] += 1;
    }
    let huffman_tree = build_tree(&stats).unwrap();
    let header = Header {
        huffman_tree,
        lookback_buffer_len: lizard::MAX_LOOKBACK_BUFFER_LEN as u64,
    };

    let header_as_bytes = header.to_bytes().unwrap();
    // 2 length bytes, 8 lookback bytes, and the tree: six byte leaves
    // at 2 bytes each, the end sentinel at 1, six forks at 1 each.
    assert_eq!(29, header_as_bytes.len());
    let output_header = Header::from_bytes(&header_as_bytes).unwrap();

    assert_eq!(header, output_header);
}

#[test]
fn header_rejects_length_mismatch() {
    let mut stats: ByteStats = vec![0u64; 256];
    stats[65] = 3;
    let tree = build_tree(&stats).unwrap();
    let header = Header::new(tree, 1000);
    let mut bytes = header.to_bytes().unwrap();
    bytes.push(0);
    assert_eq!(
        Header::from_bytes(&bytes),
        Err(lizard::LizardError::MalformedHeader)
    );
}

#[test]
fn header_rejects_garbled_tree() {
    // declared length 11, matching the byte count, but the tree region
    // holds an unknown tag.
    let bytes: Vec<u8> = vec![0, 11, 0, 0, 0, 0, 0, 0, 0, 100, 9];
    assert_eq!(
        Header::from_bytes(&bytes),
        Err(lizard::LizardError::MalformedHeader)
    );
}

#[test]
fn header_debug_names_size_and_lookback() {
    let mut stats: ByteStats = vec![0u64; 256];
    stats[65] = 1;
    let tree = build_tree(&stats).unwrap();
    let header = Header::new(tree, 1000);
    let expected = "<Header: Tree(size:3), lookback buffer len: 1000, Tree dotgraph: \n\
                    digraph G {\n\nnode1 [label = \"A 0b01000001\"];\n\
                    node2 [label = \"END\"];\n\n\
                    node0 -> node1 [label=\"0\"];\nnode0 -> node2 [label=\"1\"];\n}\n>";
    assert_eq!(header.to_debug_bytes(), expected.as_bytes().to_vec());
}
