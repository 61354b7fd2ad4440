use lizard::OffsetLen;

#[test]
fn offset_len_round_trip() {
    let a = OffsetLen::new(5, 10);
    let bytes = a.to_bytes_new();
    println!("{:?}: {:?}", a, bytes);
    let b = OffsetLen::of_bytes_new(&bytes).unwrap();
    assert_eq!(a, b)
}

#[test]
fn two_byte_offset_len_round_trip() {
    let a = OffsetLen::new(2047, 2047);
    let bytes = a.to_bytes_new();
    println!("{:?}: {:?}", a, bytes);
    let b = OffsetLen::of_bytes_new(&bytes).unwrap();
    assert_eq!(a, b)
}

#[test]
fn three_byte_offset_len_round_trip() {
    let a = OffsetLen::new(0xff_ffff, 0xff_ffff);
    let bytes = a.to_bytes_new();
    println!("{:?}: {:?}", a, bytes);
    let b = OffsetLen::of_bytes_new(&bytes).unwrap();
    assert_eq!(a, b)
}

#[test]
fn all_bytes_offset_len_round_trip() {
    let sizes: [u64; 8] = [
        0xff,
        0xffff,
        0xff_ffff,
        0xffff_ffff,
        0xff_ffff_ffff,
        0xffff_ffff_ffff,
        0xff_ffff_ffff_ffff,
        u64::MAX,
    ];
    for size in sizes {
        let a = OffsetLen::new(size, size);
        let bytes = a.to_bytes_new();
        println!("{:?}: {:?}", a, bytes);
        let b = OffsetLen::of_bytes_new(&bytes).unwrap();
        assert_eq!(a, b)
    }
}

#[test]
fn values_above_each_width_boundary_round_trip() {
    let sizes: [u64; 7] = [
        0xff,
        0xffff,
        0xff_ffff,
        0xffff_ffff,
        0xff_ffff_ffff,
        0xffff_ffff_ffff,
        0xff_ffff_ffff_ffff,
    ];
    for size in sizes {
        let a = OffsetLen::new(size + 1, size + 1);
        let bytes = a.to_bytes_new();
        let b = OffsetLen::of_bytes_new(&bytes).unwrap();
        assert_eq!(a, b)
    }
}

#[test]
fn wire_form_layout() {
    // offset 5 and length 10 each fit one byte: marker 0b10_000_000,
    // then the two little-endian values.
    let a = OffsetLen::new(5, 10);
    assert_eq!(a.to_bytes_new(), vec![0b1000_0000, 5, 10]);
    // a two-byte offset: marker carries width 2 for the offset.
    let b = OffsetLen::new(0x1234, 7);
    assert_eq!(b.to_bytes_new(), vec![0b1000_1000, 0x34, 0x12, 7]);
}

#[test]
fn short_record_is_rejected() {
    let a = OffsetLen::new(300, 300);
    let mut bytes = a.to_bytes_new();
    bytes.pop();
    assert_eq!(
        OffsetLen::of_bytes_new(&bytes),
        Err(lizard::LizardError::TruncatedStream)
    );
}

#[test]
fn record_header_byte_widths() {
    let (no, nl) = OffsetLen::read_header_byte(0b1001_1010);
    assert_eq!(no, 4);
    assert_eq!(nl, 3);
}

#[test]
fn range_helpers() {
    let a = OffsetLen::new(4, 6);
    assert_eq!(a.range_end(), 10);
    assert_eq!(a.to_range(), (4, 10));
}

#[test]
fn debug_rendering() {
    let a = OffsetLen::new_with_match(3, 5, Some(vec![97, 98, 99]));
    assert_eq!(a.to_bytes_debug(), b"(3,5: \"abc\")".to_vec());
    let b = OffsetLen::new_with_match(3, 5, Some(vec![0, 255]));
    assert_eq!(b.to_bytes_debug(), b"(3,5: [0, 255])".to_vec());
    let c = OffsetLen::new(3, 5);
    assert_eq!(c.to_bytes_debug(), b"(3,5: No matched bytes recorded)".to_vec());
}
