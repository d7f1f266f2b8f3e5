use snappy::{
    compress, max_compressed_length, uncompress, uncompressed_length, validate_compressed_buffer,
    InvalidInput,
};

#[test]
fn valid() {
    let d = vec![0xde, 0xad, 0xd0, 0x0d];
    let c: &[u8] = &compress(&d);
    assert!(validate_compressed_buffer(c));
    assert!(uncompress(c) == Some(d));
}

#[test]
fn invalid() {
    let d = vec![0, 0, 0, 0];
    assert!(!validate_compressed_buffer(&d));
    assert!(uncompress(&d).is_none());
}

#[test]
fn empty() {
    let d = vec![];
    assert!(!validate_compressed_buffer(&d));
    assert!(uncompress(&d).is_none());
    let c = compress(&d);
    assert!(validate_compressed_buffer(&c));
    assert!(uncompress(&c) == Some(d));
}

fn pseudo_random(n: usize, seed: u32) -> Vec<u8> {
    let mut x = seed;
    let mut v = Vec::with_capacity(n);
    for _ in 0..n {
        x = x.wrapping_mul(1_103_515_245).wrapping_add(12_345);
        v.push((x >> 16) as u8);
    }
    v
}

fn check_round_trip(d: &[u8]) {
    let c = compress(d);
    assert_eq!(uncompress(&c), Some(d.to_vec()));
    assert!(validate_compressed_buffer(&c));
    assert_eq!(uncompressed_length(&c), Ok(d.len()));
    assert!(c.len() <= max_compressed_length(d.len()));
}

#[test]
fn concrete_frame_of_four_distinct_bytes() {
    let d = vec![0xde, 0xad, 0xd0, 0x0d];
    let c = compress(&d);
    assert_eq!(c, vec![4, 12, 0xde, 0xad, 0xd0, 0x0d]);
    assert_eq!(uncompressed_length(&c), Ok(4));
    assert_eq!(uncompress(&c), Some(d));
}

#[test]
fn empty_input_compresses_to_zero_header() {
    assert_eq!(compress(&[]), vec![0]);
    assert_eq!(uncompressed_length(&[]), Err(InvalidInput));
}

#[test]
fn all_zero_frame_is_rejected() {
    let d = [0u8, 0, 0, 0];
    assert!(!validate_compressed_buffer(&d));
    assert_eq!(uncompress(&d), None);
    assert_eq!(uncompressed_length(&d), Ok(0));
}

#[test]
fn self_overlapping_copy_repeats_one_byte() {
    // one literal byte, then a two-byte copy of offset 1 and length 10
    let frame = [11u8, 0x00, 0x61, 1 + 4 * 6, 0x01];
    assert!(validate_compressed_buffer(&frame));
    assert_eq!(uncompress(&frame), Some(vec![0x61; 11]));
    // the same with a three-byte copy
    let frame = [11u8, 0x00, 0x61, 2 + 4 * 9, 0x01, 0x00];
    assert_eq!(uncompress(&frame), Some(vec![0x61; 11]));
}

#[test]
fn five_byte_copy_token() {
    let frame = [5u8, 0x00, 0x61, 3 + 4 * 3, 1, 0, 0, 0];
    assert_eq!(uncompress(&frame), Some(vec![0x61; 5]));
}

#[test]
fn literal_with_length_byte() {
    let frame = [3u8, 240, 2, b'a', b'b', b'c'];
    assert!(validate_compressed_buffer(&frame));
    assert_eq!(uncompress(&frame), Some(b"abc".to_vec()));
}

#[test]
fn copy_with_zero_offset_is_rejected() {
    let frame = [5u8, 0x00, 0x61, 1, 0x00];
    assert!(!validate_compressed_buffer(&frame));
    assert_eq!(uncompress(&frame), None);
}

#[test]
fn copy_reaching_before_start_is_rejected() {
    let frame = [5u8, 0x00, 0x61, 1, 0x02];
    assert!(!validate_compressed_buffer(&frame));
    assert_eq!(uncompress(&frame), None);
}

#[test]
fn truncated_literal_is_rejected() {
    let frame = [3u8, 8, b'a', b'b'];
    assert!(!validate_compressed_buffer(&frame));
    assert_eq!(uncompress(&frame), None);
}

#[test]
fn truncated_copy_is_rejected() {
    let frame = [5u8, 0x00, 0x61, 2 + 4 * 3, 0x01];
    assert!(!validate_compressed_buffer(&frame));
    assert_eq!(uncompress(&frame), None);
}

#[test]
fn length_mismatch_is_rejected() {
    let frame = [2u8, 0x00, 0x61];
    assert!(!validate_compressed_buffer(&frame));
    assert_eq!(uncompress(&frame), None);
    let frame = [1u8, 0x04, 0x61, 0x62];
    assert!(!validate_compressed_buffer(&frame));
    assert_eq!(uncompress(&frame), None);
}

#[test]
fn trailing_bytes_are_rejected() {
    let mut c = compress(b"hello hello hello");
    c.push(0x00);
    assert!(!validate_compressed_buffer(&c));
    assert_eq!(uncompress(&c), None);
}

#[test]
fn header_varint_limits() {
    assert_eq!(uncompressed_length(&[0x80]), Err(InvalidInput));
    assert_eq!(uncompressed_length(&[0xff, 0xff, 0xff, 0xff, 0x0f]), Ok(0xFFFF_FFFF));
    assert_eq!(uncompressed_length(&[0xff, 0xff, 0xff, 0xff, 0x10]), Err(InvalidInput));
    assert_eq!(uncompressed_length(&[0xff, 0xff, 0xff, 0xff, 0xff, 0x00]), Err(InvalidInput));
    assert_eq!(uncompressed_length(&[0x80, 0x01]), Ok(128));
    assert_eq!(uncompressed_length(&[0xac, 0x02, 0x99]), Ok(300));
}

#[test]
fn max_compressed_length_values() {
    assert_eq!(max_compressed_length(0), 32);
    assert_eq!(max_compressed_length(6), 39);
    assert_eq!(max_compressed_length(100), 148);
}

#[test]
fn repeated_text_compresses_with_copies() {
    let d = b"abcdabcdabcdabcdabcdabcdabcdabcdabcdabcd".to_vec();
    let c = compress(&d);
    assert!(c.len() < d.len());
    check_round_trip(&d);
}

#[test]
fn long_run_of_one_byte() {
    let d = vec![7u8; 100_000];
    let c = compress(&d);
    assert!(c.len() < 10_000);
    check_round_trip(&d);
}

#[test]
fn incompressible_data_round_trips() {
    for &n in &[1usize, 3, 4, 5, 60, 61, 255, 256, 257, 65_536, 65_537, 300_000] {
        check_round_trip(&pseudo_random(n, n as u32));
    }
}

#[test]
fn mixed_data_round_trips() {
    let mut d = Vec::new();
    let block = pseudo_random(1000, 42);
    for i in 0..200 {
        d.extend_from_slice(&block[(i * 7) % 500..(i * 7) % 500 + 300]);
        d.extend_from_slice(&pseudo_random(i % 90, i as u32));
    }
    check_round_trip(&d);
    let far = [pseudo_random(70_000, 5), pseudo_random(100, 6)].concat();
    let mut d = far.clone();
    d.extend_from_slice(&far[..100]);
    check_round_trip(&d);
}

#[test]
fn thousand_zero_bytes_shrink() {
    let d = vec![0u8; 1000];
    let c = compress(&d);
    assert!(c.len() < 1000);
    check_round_trip(&d);
}

#[test]
fn header_of_three_hundred_bytes() {
    let c = compress(&vec![0u8; 300]);
    assert_eq!(c[0], 0xac);
    assert_eq!(c[1], 0x02);
}

#[test]
fn equal_inputs_give_equal_frames() {
    let a = pseudo_random(5000, 9);
    let b = a.clone();
    assert_eq!(compress(&a), compress(&b));
}

#[test]
fn short_inputs_give_one_literal() {
    assert_eq!(compress(&[7]), vec![1, 0, 7]);
    assert_eq!(compress(&[1, 2, 3]), vec![3, 8, 1, 2, 3]);
    assert_eq!(compress(&[5, 5, 5, 5]), vec![4, 12, 5, 5, 5, 5]);
}
