//! End-to-end tests of the codec: round trips, spillover, degenerate
//! inputs, header fidelity, and the equivalence of the acceleration modes.

use bitcodec::bits::{bytes_to_bits, pack_bits};
use bitcodec::decode::decompress_data;
use bitcodec::encode::compress_data;
use bitcodec::freq::build_frequency_table;

fn round_trip(data: &[u8], chunksize: usize, zerofill: bool, hashing: bool) -> Vec<bool> {
    let encoded = compress_data(data, chunksize, zerofill, hashing).expect("encode failed");
    assert_eq!(encoded.len() % 8, 0);
    let packed = pack_bits(&encoded);
    decompress_data(&packed, hashing).expect("decode failed")
}

#[test]
fn round_trip_bytes_chunk_eight() {
    let data: Vec<u8> = vec![1, 2, 3, 2, 1, 2, 3, 9];
    for &zerofill in &[false, true] {
        for &hashing in &[false, true] {
            let decoded = round_trip(&data, 8, zerofill, hashing);
            assert_eq!(decoded, bytes_to_bits(&data));
        }
    }
}

#[test]
fn round_trip_chunk_divides_bit_length() {
    // 16 input bits, chunks of 4 bits: no zero fill is needed.
    let data: Vec<u8> = vec![0xAB, 0xCD];
    let decoded = round_trip(&data, 4, false, false);
    assert_eq!(decoded, bytes_to_bits(&data));
}

#[test]
fn round_trip_with_zero_fill_padding() {
    // 16 input bits, chunks of 3 bits: the decoded stream carries the
    // original bits plus two zero-fill bits.
    let data: Vec<u8> = vec![0xF0, 0x0F];
    let decoded = round_trip(&data, 3, true, false);
    let original = bytes_to_bits(&data);
    assert_eq!(decoded.len(), 18);
    assert_eq!(&decoded[..16], &original[..]);
    assert_eq!(&decoded[16..], &[false, false]);
}

#[test]
fn round_trip_empty_input() {
    let data: Vec<u8> = Vec::new();
    for &hashing in &[false, true] {
        let decoded = round_trip(&data, 8, false, hashing);
        assert!(decoded.is_empty());
    }
}

#[test]
fn round_trip_single_byte() {
    let data: Vec<u8> = vec![0x42];
    let decoded = round_trip(&data, 8, false, false);
    assert_eq!(decoded, bytes_to_bits(&data));
}

#[test]
fn spillover_reports_shortfall() {
    // A 10-bit input with 3-bit chunks falls two bits short of a chunk.
    let bits: Vec<bool> = vec![
        true, false, true, true, false, false, true, false, true, true,
    ];
    let err = build_frequency_table(&bits, 3, false).unwrap_err();
    assert_eq!(err.missing_bits, 2);
    assert!(build_frequency_table(&bits, 3, true).is_ok());
}

#[test]
fn spillover_from_whole_encode() {
    // 8 input bits with 3-bit chunks fall one bit short of a chunk.
    let data: Vec<u8> = vec![0x5A];
    let err = compress_data(&data, 3, false, false).unwrap_err();
    assert_eq!(err.missing_bits, 1);
    assert!(compress_data(&data, 3, true, false).is_ok());
}

#[test]
fn single_symbol_input() {
    // One hundred identical chunks: a single distinct symbol whose code is
    // one bit, so the payload is one hundred bits.
    let data: Vec<u8> = vec![0xAA; 100];
    let encoded = compress_data(&data, 8, false, false).expect("encode failed");
    // Header (13 bits), shape (2 bits), leaf values (16 bits), payload
    // (100 bits), padded to 136 bits.
    assert_eq!(encoded.len(), 136);
    let packed = pack_bits(&encoded);
    let decoded = decompress_data(&packed, false).expect("decode failed");
    assert_eq!(decoded, bytes_to_bits(&data));
}

#[test]
fn header_fidelity_one_byte_count() {
    // A chunk size of 1 serializes with the 1-byte-count code `00`.
    let data: Vec<u8> = vec![0x0F];
    let encoded = compress_data(&data, 1, false, false).expect("encode failed");
    assert_eq!(&encoded[..2], &[false, false]);
    let packed = pack_bits(&encoded);
    let decoded = decompress_data(&packed, false).expect("decode failed");
    assert_eq!(decoded, bytes_to_bits(&data));
}

#[test]
fn header_fidelity_two_byte_count() {
    // A chunk size of 257 serializes with the 2-byte-count code `01` and
    // round-trips exactly.
    let data: Vec<u8> = vec![7; 40];
    let encoded = compress_data(&data, 257, true, false).expect("encode failed");
    assert_eq!(&encoded[..2], &[false, true]);
    // The chunk size itself follows, big-endian over two bytes.
    let k_bits: Vec<bool> = encoded[2..18].to_vec();
    let k_value = k_bits.iter().fold(0usize, |acc, &b| acc * 2 + b as usize);
    assert_eq!(k_value, 257);
    let packed = pack_bits(&encoded);
    let decoded = decompress_data(&packed, false).expect("decode failed");
    let original = bytes_to_bits(&data);
    assert_eq!(&decoded[..original.len()], &original[..]);
}

#[test]
fn acceleration_equivalence_encode() {
    let samples: Vec<Vec<u8>> = vec![
        vec![],
        vec![0x42],
        vec![1, 2, 3, 4, 5, 6, 7, 8],
        vec![0xFF; 32],
        (0u8..=255).collect(),
    ];
    for data in &samples {
        for &(k, zf) in &[(8usize, false), (3usize, true), (16usize, false)] {
            let plain = compress_data(data, k, zf, false);
            let accel = compress_data(data, k, zf, true);
            match (plain, accel) {
                (Ok(a), Ok(b)) => assert_eq!(a, b),
                (Err(_), Err(_)) => {}
                _ => panic!("acceleration changed the outcome"),
            }
        }
    }
}

#[test]
fn acceleration_equivalence_decode() {
    let data: Vec<u8> = vec![9, 8, 7, 6, 5, 4, 3, 2, 1, 0, 1, 2, 3];
    let encoded = compress_data(&data, 8, false, false).expect("encode failed");
    let packed = pack_bits(&encoded);
    let walk = decompress_data(&packed, false).expect("decode failed");
    let accel = decompress_data(&packed, true).expect("decode failed");
    assert_eq!(walk, accel);
}

#[test]
fn malformed_stream_too_short() {
    assert!(decompress_data(&[], false).is_err());
}

#[test]
fn malformed_stream_zero_chunk_size() {
    // Byte-count code 00 declares one byte of chunk size, which reads zero.
    assert!(decompress_data(&[0x00, 0x00, 0x00], false).is_err());
}

#[test]
fn malformed_stream_truncated_tree() {
    // A valid header declaring an 8-bit chunk size, but no bits remain for
    // the tree shape beyond a single internal-node marker.
    // Bits: 00 | 00001000 | 000 | 0 0000 (padding declared as zero).
    let packed = vec![0b0000_0010, 0b0000_0000];
    assert!(decompress_data(&packed, false).is_err());
}

#[test]
fn encoded_stream_is_whole_bytes() {
    let data: Vec<u8> = vec![1, 1, 2, 2, 3, 3, 4];
    for &k in &[1usize, 2, 5, 8, 13] {
        let encoded = compress_data(&data, k, true, false).expect("encode failed");
        assert_eq!(encoded.len() % 8, 0);
    }
}
