use bitcoin_codec::{BitcoinError, BitcoinTransaction, OutPoint, Script, TransactionInput};

fn sample_txid(seed: u8) -> [u8; 32] {
    let mut arr = [0u8; 32];
    let mut i = 0;
    while i < 32 {
        arr[i] = seed.wrapping_add(i as u8);
        i += 1;
    }
    arr
}

fn sample_transaction() -> BitcoinTransaction {
    let first = TransactionInput::new(
        OutPoint::new(sample_txid(1), 0),
        Script::new(vec![0x76, 0xA9]),
        0xFFFF_FFFF,
    );
    let second = TransactionInput::new(
        OutPoint::new(sample_txid(0x80), 5),
        Script::new(Vec::new()),
        0,
    );
    BitcoinTransaction::new(2, vec![first, second], 600_000)
}

#[test]
fn empty_transaction_encodes_to_nine_bytes() {
    let tx = BitcoinTransaction::new(1, Vec::new(), 0);
    assert_eq!(
        tx.to_bytes(),
        vec![0x01u8, 0x00, 0x00, 0x00, 0x00, 0x00, 0x00, 0x00, 0x00]
    );
}

#[test]
fn decoding_empty_buffer_is_insufficient() {
    assert_eq!(
        BitcoinTransaction::from_bytes(&[]),
        Err(BitcoinError::InsufficientBytes)
    );
}

#[test]
fn empty_transaction_round_trip() {
    let tx = BitcoinTransaction::new(1, Vec::new(), 0);
    let encoded = tx.to_bytes();
    assert_eq!(BitcoinTransaction::from_bytes(&encoded), Ok((tx, 9)));
}

#[test]
fn transaction_round_trip_with_inputs() {
    let tx = sample_transaction();
    let encoded = tx.to_bytes();
    let expected_len = 4 + 1 + (36 + 3 + 4) + (36 + 1 + 4) + 4;
    assert_eq!(encoded.len(), expected_len);
    assert_eq!(
        BitcoinTransaction::from_bytes(&encoded),
        Ok((tx, expected_len))
    );
}

#[test]
fn transaction_round_trip_ignores_trailing_bytes() {
    let tx = sample_transaction();
    let mut encoded = tx.to_bytes();
    let expected_len = encoded.len();
    encoded.extend_from_slice(&[0xDE, 0xAD]);
    assert_eq!(
        BitcoinTransaction::from_bytes(&encoded),
        Ok((tx, expected_len))
    );
}

#[test]
fn transaction_every_strict_prefix_is_insufficient() {
    let encoded = sample_transaction().to_bytes();
    for cut in 0..encoded.len() {
        assert_eq!(
            BitcoinTransaction::from_bytes(&encoded[..cut]),
            Err(BitcoinError::InsufficientBytes)
        );
    }
}

#[test]
fn declared_count_overrunning_buffer_is_insufficient() {
    // Version, a count of two, but only one complete input and a lock time.
    let input = TransactionInput::new(
        OutPoint::new(sample_txid(3), 1),
        Script::new(vec![0x51]),
        0,
    );
    let mut bytes = vec![0x01u8, 0x00, 0x00, 0x00, 0x02];
    bytes.extend_from_slice(&input.to_bytes());
    bytes.extend_from_slice(&[0x00, 0x00, 0x00, 0x00]);
    assert_eq!(
        BitcoinTransaction::from_bytes(&bytes),
        Err(BitcoinError::InsufficientBytes)
    );
}

#[test]
fn non_canonical_input_count_is_invalid_format() {
    // A count of zero spelled with the 0xFD marker instead of a single byte.
    let bytes = [
        0x01u8, 0x00, 0x00, 0x00, 0xFD, 0x00, 0x00, 0x00, 0x00, 0x00, 0x00,
    ];
    assert_eq!(
        BitcoinTransaction::from_bytes(&bytes),
        Err(BitcoinError::InvalidFormat)
    );
}

#[test]
fn decoded_transaction_preserves_field_values() {
    let tx = sample_transaction();
    let encoded = tx.to_bytes();
    let (decoded, _) = BitcoinTransaction::from_bytes(&encoded).unwrap();
    assert_eq!(decoded.version, 2);
    assert_eq!(decoded.lock_time, 600_000);
    assert_eq!(decoded.inputs.len(), 2);
    assert_eq!(decoded.inputs[0].sequence, 0xFFFF_FFFF);
    assert_eq!(decoded.inputs[0].script_sig.bytes, vec![0x76, 0xA9]);
    assert_eq!(decoded.inputs[1].previous_output.vout, 5);
    assert_eq!(decoded.inputs[1].previous_output.txid.0, sample_txid(0x80));
}
