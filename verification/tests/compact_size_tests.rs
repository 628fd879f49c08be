use bitcoin_codec::{BitcoinError, CompactSize};

#[test]
fn encode_zero_is_single_zero_byte() {
    assert_eq!(CompactSize::new(0).to_bytes(), vec![0x00u8]);
}

#[test]
fn encode_ffff_uses_fd_marker() {
    assert_eq!(CompactSize::new(0xFFFF).to_bytes(), vec![0xFDu8, 0xFF, 0xFF]);
}

#[test]
fn encode_10000_uses_fe_marker() {
    assert_eq!(
        CompactSize::new(0x10000).to_bytes(),
        vec![0xFEu8, 0x00, 0x00, 0x01, 0x00]
    );
}

#[test]
fn boundary_values_land_on_width_transitions() {
    let cases: [(u64, usize); 6] = [
        (0xFC, 1),
        (0xFD, 3),
        (0xFFFF, 3),
        (0x10000, 5),
        (0xFFFF_FFFF, 5),
        (0x1_0000_0000, 9),
    ];
    for (value, width) in cases {
        let encoded = CompactSize::new(value).to_bytes();
        assert_eq!(encoded.len(), width);
        let (decoded, consumed) = CompactSize::from_bytes(&encoded).unwrap();
        assert_eq!(decoded.value, value);
        assert_eq!(consumed, width);
    }
}

#[test]
fn round_trip_ignores_trailing_bytes() {
    let mut encoded = CompactSize::new(300).to_bytes();
    encoded.push(0xAA);
    encoded.push(0xBB);
    let (decoded, consumed) = CompactSize::from_bytes(&encoded).unwrap();
    assert_eq!(decoded.value, 300);
    assert_eq!(consumed, 3);
}

#[test]
fn decode_single_byte_value() {
    let (decoded, consumed) = CompactSize::from_bytes(&[0x05, 0xAA]).unwrap();
    assert_eq!(decoded.value, 5);
    assert_eq!(consumed, 1);
}

#[test]
fn decode_empty_input_is_insufficient() {
    assert_eq!(
        CompactSize::from_bytes(&[]),
        Err(BitcoinError::InsufficientBytes)
    );
}

#[test]
fn decode_non_canonical_fd_is_invalid_format() {
    assert_eq!(
        CompactSize::from_bytes(&[0xFD, 0x05, 0x00]),
        Err(BitcoinError::InvalidFormat)
    );
}

#[test]
fn decode_non_canonical_fe_is_invalid_format() {
    assert_eq!(
        CompactSize::from_bytes(&[0xFE, 0xFF, 0xFF, 0x00, 0x00]),
        Err(BitcoinError::InvalidFormat)
    );
}

#[test]
fn decode_non_canonical_ff_is_invalid_format() {
    assert_eq!(
        CompactSize::from_bytes(&[0xFF, 0xFF, 0xFF, 0xFF, 0xFF, 0x00, 0x00, 0x00, 0x00]),
        Err(BitcoinError::InvalidFormat)
    );
}

#[test]
fn decode_truncated_payloads_are_insufficient() {
    assert_eq!(
        CompactSize::from_bytes(&[0xFD, 0xFF]),
        Err(BitcoinError::InsufficientBytes)
    );
    assert_eq!(
        CompactSize::from_bytes(&[0xFE, 0x00, 0x00, 0x01]),
        Err(BitcoinError::InsufficientBytes)
    );
    assert_eq!(
        CompactSize::from_bytes(&[0xFF, 0x00, 0x00, 0x00, 0x00, 0x01, 0x00, 0x00]),
        Err(BitcoinError::InsufficientBytes)
    );
}

#[test]
fn every_strict_prefix_of_an_encoding_is_insufficient() {
    for value in [0u64, 0xFC, 0xFD, 0xFFFF, 0x10000, 0xFFFF_FFFF, 0x1_0000_0000, u64::MAX] {
        let encoded = CompactSize::new(value).to_bytes();
        for cut in 0..encoded.len() {
            assert_eq!(
                CompactSize::from_bytes(&encoded[..cut]),
                Err(BitcoinError::InsufficientBytes)
            );
        }
    }
}

#[test]
fn encode_max_value_round_trips() {
    let encoded = CompactSize::new(u64::MAX).to_bytes();
    assert_eq!(encoded.len(), 9);
    assert_eq!(encoded[0], 0xFF);
    let (decoded, consumed) = CompactSize::from_bytes(&encoded).unwrap();
    assert_eq!(decoded.value, u64::MAX);
    assert_eq!(consumed, 9);
}
