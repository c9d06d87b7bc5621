//! Unit tests of the bit vector utilities: byte-to-bit expansion, bit
//! packing with loss-aware tail truncation, and their round trip.

use bitcodec::bits::{bytes_to_bits, pack_bits};

#[test]
fn bytes_expand_most_significant_bit_first() {
    let bits = bytes_to_bits(&[0b1010_0001]);
    assert_eq!(
        bits,
        vec![true, false, true, false, false, false, false, true],
    );
}

#[test]
fn bytes_expand_empty() {
    assert!(bytes_to_bits(&[]).is_empty());
}

#[test]
fn pack_whole_bytes() {
    let bits = vec![
        true, false, true, false, false, false, false, true, // 0xA1
        false, false, false, false, true, true, true, true, // 0x0F
    ];
    assert_eq!(pack_bits(&bits), vec![0xA1, 0x0F]);
}

#[test]
fn pack_drops_partial_trailing_byte() {
    // Eleven bits: the three past the last whole byte are dropped.
    let mut bits = vec![false, true, false, false, false, false, true, false];
    bits.extend_from_slice(&[true, true, true]);
    assert_eq!(pack_bits(&bits), vec![0x42]);
}

#[test]
fn pack_fewer_than_eight_bits_gives_nothing() {
    let bits = vec![true, true, true, true, true];
    assert_eq!(pack_bits(&bits), Vec::<u8>::new());
}

#[test]
fn pack_then_expand_round_trips() {
    let data: Vec<u8> = vec![0x00, 0xFF, 0x5A, 0xA5, 0x13];
    let bits = bytes_to_bits(&data);
    assert_eq!(pack_bits(&bits), data);
    assert_eq!(bytes_to_bits(&pack_bits(&bits)), bits);
}
