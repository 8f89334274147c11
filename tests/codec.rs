use qmx_postings::block;
use qmx_postings::delta::{prefix_sum, to_deltas};
use qmx_postings::qmx::{decode_deltas, encode_deltas, encode_into, estimate_capacity};
use qmx_postings::{decode, encode, CodecError, MetaData};

fn round_trip(docs: &[u32]) -> Vec<u32> {
    let bytes = encode(docs).unwrap();
    let mut buf = vec![0u32; docs.len()];
    decode(&bytes, &mut buf, docs.len() as u32).unwrap();
    buf
}

/// Ascending identifiers with gaps drawn from a fixed pseudo-random walk;
/// `shift` bounds the gap size.
fn sample(len: usize, shift: u32, seed: u64) -> Vec<u32> {
    let mut state = seed;
    let mut cur: u32 = 0;
    let mut out = Vec::new();
    for i in 0..len {
        state = state.wrapping_mul(6364136223846793005).wrapping_add(1442695040888963407);
        let gap = ((state >> 33) as u32) >> (31 - shift.min(31));
        let gap = if i == 0 { gap } else { gap.max(1) };
        cur = cur.checked_add(gap).unwrap();
        out.push(cur);
    }
    out
}

#[test]
fn demo_list_round_trips() {
    let docs = [127u32, 128, 129, 130];
    let bytes = encode(&docs).unwrap();
    assert_eq!(bytes, vec![4, 0, 0, 0, 0, 0, 0, 0, 0x04, 127, 1, 1, 1]);
    assert_eq!(round_trip(&docs), docs.to_vec());
}

#[test]
fn empty_list_encodes_to_nothing() {
    assert_eq!(encode(&[]).unwrap(), vec![0u8; 8]);
    let mut buf = [7u32; 3];
    decode(&[], &mut buf, 0).unwrap();
    assert_eq!(buf, [7, 7, 7]);
}

#[test]
fn zero_count_decode_is_a_no_op() {
    let mut buf = [9u32; 2];
    decode(&[0xff, 0x13, 0x00], &mut buf, 0).unwrap();
    assert_eq!(buf, [9, 9]);
}

#[test]
fn singleton_list() {
    assert_eq!(to_deltas(&[42]).unwrap(), vec![42]);
    let bytes = encode(&[42]).unwrap();
    assert_eq!(bytes, vec![1, 0, 0, 0, 0, 0, 0, 0, 0x04, 42, 0, 0, 0]);
    assert_eq!(round_trip(&[42]), vec![42]);
}

#[test]
fn huge_gap_goes_to_the_exception_list() {
    let docs = [1u32, 1_000_000_007];
    let bytes = encode(&docs).unwrap();
    assert_eq!(bytes, vec![2, 0, 0, 0, 1, 0, 0, 0, 0x11, 1, 0, 0, 0, 0x06, 0xCA, 0x9A, 0x3B]);
    assert_eq!(round_trip(&docs), docs.to_vec());
}

#[test]
fn two_bit_group_layout() {
    let bytes = encode(&[1, 3, 6, 9]).unwrap();
    assert_eq!(bytes, vec![4, 0, 0, 0, 0, 0, 0, 0, 0x02, 249]);
    assert_eq!(round_trip(&[1, 3, 6, 9]), vec![1, 3, 6, 9]);
}

#[test]
fn four_bit_group_layout() {
    let bytes = encode(&[15, 16, 18, 21]).unwrap();
    assert_eq!(bytes, vec![4, 0, 0, 0, 0, 0, 0, 0, 0x03, 31, 50]);
}

#[test]
fn sixteen_bit_group_layout() {
    let bytes = encode(&[300, 301, 302, 303]).unwrap();
    assert_eq!(bytes, vec![4, 0, 0, 0, 0, 0, 0, 0, 0x05, 0x2C, 0x01, 1, 0, 1, 0, 1, 0]);
}

#[test]
fn thirty_two_bit_group_without_exception() {
    let docs = [70_000u32, 140_000, 210_000, 280_000];
    let bytes = encode(&docs).unwrap();
    assert_eq!(bytes.len(), 25);
    assert_eq!(&bytes[..8], &[4, 0, 0, 0, 0, 0, 0, 0]);
    assert_eq!(bytes[8], 0x06);
    assert_eq!(&bytes[9..13], &[0x70, 0x11, 0x01, 0x00]);
    assert_eq!(round_trip(&docs), docs.to_vec());
}

#[test]
fn zero_gaps_use_the_empty_width() {
    let stream = vec![5u8, 0, 0, 0, 0, 0, 0, 0, 0x00, 0x00];
    assert_eq!(encode_deltas(&[0, 0, 0, 0, 0]), stream);
    assert_eq!(decode_deltas(&stream, 5).unwrap(), vec![0, 0, 0, 0, 0]);
}

#[test]
fn one_bit_group_lives_in_the_selector() {
    let stream = vec![4u8, 0, 0, 0, 0, 0, 0, 0, 0xD1];
    assert_eq!(encode_deltas(&[1, 0, 1, 1]), stream);
    assert_eq!(decode_deltas(&stream, 4).unwrap(), vec![1, 0, 1, 1]);
}

#[test]
fn round_trip_over_many_shapes() {
    for shift in [0u32, 1, 2, 4, 8, 12, 16, 20, 24] {
        for len in [1usize, 2, 3, 4, 5, 7, 8, 9, 31, 64, 101] {
            let docs = sample(len, shift, (shift as u64) * 1000 + len as u64);
            assert_eq!(round_trip(&docs), docs, "shift {} len {}", shift, len);
        }
    }
}

#[test]
fn round_trip_with_scattered_outliers() {
    let mut docs = Vec::new();
    let mut cur = 0u32;
    for i in 0..50u32 {
        cur += if i % 7 == 3 { 3_000_000 } else { 1 + i % 3 };
        docs.push(cur);
    }
    assert_eq!(round_trip(&docs), docs);
}

#[test]
fn largest_identifiers_round_trip() {
    let docs = [0u32, u32::MAX - 1, u32::MAX];
    assert_eq!(round_trip(&docs), docs.to_vec());
}

#[test]
fn encoding_is_deterministic() {
    let docs = sample(77, 10, 5);
    assert_eq!(encode(&docs).unwrap(), encode(&docs).unwrap());
}

#[test]
fn encoded_length_stays_within_estimate() {
    for len in 0usize..200 {
        for shift in [0u32, 7, 16, 20] {
            let docs = sample(len, shift, len as u64 + 17);
            let bytes = encode(&docs).unwrap();
            assert!(bytes.len() <= estimate_capacity(len));
        }
    }
}

#[test]
fn capacity_estimate_values() {
    assert_eq!(estimate_capacity(0), 512);
    assert_eq!(estimate_capacity(10), 592);
}

#[test]
fn unordered_input_is_rejected() {
    assert_eq!(encode(&[5, 5]), Err(CodecError::InvalidInputOrder));
    assert_eq!(encode(&[3, 9, 2]), Err(CodecError::InvalidInputOrder));
    assert_eq!(to_deltas(&[4, 1]), Err(CodecError::InvalidInputOrder));
    assert!(matches!(block::encode(1, &[2, 2]), Err(CodecError::InvalidInputOrder)));
}

#[test]
fn truncated_stream_is_corrupt() {
    let bytes = encode(&[300, 301, 302, 303]).unwrap();
    let mut buf = [5u32; 4];
    assert_eq!(decode(&bytes[..4], &mut buf, 4), Err(CodecError::DecodeCorruption));
    assert_eq!(buf, [5; 4]);
    assert_eq!(decode(&[], &mut buf, 1), Err(CodecError::DecodeCorruption));
}

#[test]
fn unknown_selector_is_corrupt() {
    let mut buf = [0u32; 4];
    let bad_code = [4u8, 0, 0, 0, 0, 0, 0, 0, 0x07];
    assert_eq!(decode(&bad_code, &mut buf, 4), Err(CodecError::DecodeCorruption));
    let bad_high_bits = [4u8, 0, 0, 0, 0, 0, 0, 0, 0x12, 0xFF];
    assert_eq!(decode(&bad_high_bits, &mut buf, 4), Err(CodecError::DecodeCorruption));
}

#[test]
fn bad_exception_list_is_corrupt() {
    // a position past the count
    let stream = [4u8, 0, 0, 0, 1, 0, 0, 0, 0x00, 9, 0, 0, 0, 1, 0, 0, 0];
    assert_eq!(decode_deltas(&stream, 4), Err(CodecError::DecodeCorruption));
    // a list that is not whole entries
    let stream = [4u8, 0, 0, 0, 1, 0, 0, 0, 0x00, 1, 0, 0, 0];
    assert_eq!(decode_deltas(&stream, 4), Err(CodecError::DecodeCorruption));
    // more entries than the header declares
    let stream = [3u8, 0, 0, 0, 0, 0, 0, 0, 0x00, 2, 0, 0, 0, 7, 0, 0, 0];
    assert_eq!(decode_deltas(&stream, 3), Err(CodecError::DecodeCorruption));
    // a valid entry patches its position
    let stream = [3u8, 0, 0, 0, 1, 0, 0, 0, 0x00, 2, 0, 0, 0, 7, 0, 0, 0];
    assert_eq!(decode_deltas(&stream, 3).unwrap(), vec![0, 0, 7]);
}

#[test]
fn identifiers_past_32_bits_are_corrupt() {
    let bytes = encode_deltas(&[u32::MAX, 1]);
    let mut buf = [3u32; 2];
    assert_eq!(decode(&bytes, &mut buf, 2), Err(CodecError::DecodeCorruption));
    assert_eq!(buf, [3, 3]);
}

#[test]
fn decode_leaves_the_rest_of_the_buffer() {
    let bytes = encode(&[10, 20]).unwrap();
    let mut buf = [99u32; 5];
    decode(&bytes, &mut buf, 2).unwrap();
    assert_eq!(buf, [10, 20, 99, 99, 99]);
}

#[test]
fn encode_into_reports_small_buffer() {
    let gaps = [127u32, 1, 1, 1];
    let mut small = [0xAAu8; 4];
    assert_eq!(encode_into(&gaps, &mut small), Err(CodecError::Capacity));
    assert_eq!(small, [0xAA; 4]);
    let mut big = vec![0xAAu8; estimate_capacity(gaps.len())];
    assert_eq!(encode_into(&gaps, &mut big), Ok(13));
    assert_eq!(&big[..14], &[4, 0, 0, 0, 0, 0, 0, 0, 0x04, 127, 1, 1, 1, 0xAA]);
}

#[test]
fn prefix_sum_rebuilds_identifiers() {
    let mut values = [1u32, 2, 3, 4, 9];
    prefix_sum(&mut values, 4);
    assert_eq!(values, [1, 3, 6, 10, 9]);
}

#[test]
fn block_carries_metadata() {
    let (meta, bytes) = block::encode(171, &[127, 128, 129, 130]).unwrap();
    assert_eq!(meta, MetaData { impact: 171, count: 4, bytes: 13 });
    assert_eq!(bytes.len(), 13);
    let mut buf = [0u32; 1000];
    decode(&bytes, &mut buf, meta.count).unwrap();
    assert_eq!(&buf[..4], &[127, 128, 129, 130]);
}

#[test]
fn empty_block_metadata() {
    let (meta, bytes) = block::encode(3, &[]).unwrap();
    assert_eq!(meta, MetaData { impact: 3, count: 0, bytes: 8 });
    assert_eq!(bytes, vec![0u8; 8]);
}

#[test]
fn count_larger_than_encoded_is_corrupt() {
    let (meta, bytes) = block::encode(1, &[0]).unwrap();
    assert_eq!(meta.count, 1);
    let mut buf = [8u32; 2];
    assert_eq!(decode(&bytes, &mut buf, 2), Err(CodecError::DecodeCorruption));
    assert_eq!(buf, [8, 8]);
}

#[test]
fn count_smaller_than_encoded_is_corrupt() {
    let bytes = encode(&[1, 2, 3]).unwrap();
    let mut buf = [0u32; 3];
    assert_eq!(decode(&bytes, &mut buf, 2), Err(CodecError::DecodeCorruption));
}

#[test]
fn stream_cut_at_an_entry_boundary_is_corrupt() {
    let docs = [1u32, 1_000_000_007];
    let bytes = encode(&docs).unwrap();
    let mut buf = [4u32; 2];
    assert_eq!(decode(&bytes[..9], &mut buf, 2), Err(CodecError::DecodeCorruption));
    assert_eq!(decode(&bytes[..1], &mut buf, 2), Err(CodecError::DecodeCorruption));
    assert_eq!(buf, [4, 4]);
}

#[test]
fn every_cut_of_a_stream_is_corrupt() {
    let docs = sample(37, 24, 9);
    let bytes = encode(&docs).unwrap();
    let mut buf = vec![0u32; docs.len()];
    for k in 0..bytes.len() {
        assert_eq!(
            decode(&bytes[..k], &mut buf, docs.len() as u32),
            Err(CodecError::DecodeCorruption),
            "cut at {}",
            k
        );
    }
}

#[test]
fn trailing_bytes_are_corrupt() {
    let mut bytes = encode(&[10, 20, 30]).unwrap();
    bytes.push(0);
    let mut buf = [0u32; 3];
    assert_eq!(decode(&bytes, &mut buf, 3), Err(CodecError::DecodeCorruption));
}

#[test]
fn zero_gap_after_the_first_is_corrupt() {
    let bytes = encode_deltas(&[5, 0, 3]);
    let mut buf = [6u32; 3];
    assert_eq!(decode(&bytes, &mut buf, 3), Err(CodecError::DecodeCorruption));
    assert_eq!(buf, [6, 6, 6]);
    let bytes = encode_deltas(&[0, 3]);
    decode(&bytes, &mut buf, 2).unwrap();
    assert_eq!(buf, [0, 3, 6]);
}
