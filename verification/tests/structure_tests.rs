use bitcoin_codec::{BitcoinError, OutPoint, Script, TransactionInput};

fn sample_txid() -> [u8; 32] {
    let mut arr = [0u8; 32];
    let mut i = 0;
    while i < 32 {
        arr[i] = (7 * i + 1) as u8;
        i += 1;
    }
    arr
}

#[test]
fn outpoint_encodes_to_36_bytes() {
    let op = OutPoint::new(sample_txid(), 0x0102_0304);
    let encoded = op.to_bytes();
    assert_eq!(encoded.len(), 36);
    assert_eq!(&encoded[..32], &sample_txid()[..]);
    assert_eq!(&encoded[32..], &[0x04, 0x03, 0x02, 0x01]);
}

#[test]
fn outpoint_round_trip() {
    let op = OutPoint::new(sample_txid(), 42);
    let encoded = op.to_bytes();
    assert_eq!(OutPoint::from_bytes(&encoded), Ok((op, 36)));
}

#[test]
fn outpoint_35_bytes_is_insufficient() {
    let encoded = OutPoint::new(sample_txid(), 42).to_bytes();
    assert_eq!(
        OutPoint::from_bytes(&encoded[..35]),
        Err(BitcoinError::InsufficientBytes)
    );
}

#[test]
fn script_round_trip() {
    let script = Script::new(vec![0x76, 0xA9, 0x14, 0x00, 0xFF]);
    let encoded = script.to_bytes();
    assert_eq!(encoded.len(), 6);
    assert_eq!(encoded[0], 5);
    assert_eq!(Script::from_bytes(&encoded), Ok((script, 6)));
}

#[test]
fn empty_script_round_trip() {
    let script = Script::new(Vec::new());
    let encoded = script.to_bytes();
    assert_eq!(encoded, vec![0x00u8]);
    assert_eq!(Script::from_bytes(&encoded), Ok((script, 1)));
}

#[test]
fn script_declared_length_exceeding_buffer_is_insufficient() {
    // Declares 5 payload bytes but supplies only 3.
    assert_eq!(
        Script::from_bytes(&[0x05, 0x01, 0x02, 0x03]),
        Err(BitcoinError::InsufficientBytes)
    );
}

#[test]
fn script_every_strict_prefix_is_insufficient() {
    let script = Script::new(vec![1, 2, 3, 4, 5, 6, 7]);
    let encoded = script.to_bytes();
    for cut in 0..encoded.len() {
        assert_eq!(
            Script::from_bytes(&encoded[..cut]),
            Err(BitcoinError::InsufficientBytes)
        );
    }
}

#[test]
fn input_round_trip() {
    let input = TransactionInput::new(
        OutPoint::new(sample_txid(), 3),
        Script::new(vec![0xAA, 0xBB]),
        0xFFFF_FFFF,
    );
    let encoded = input.to_bytes();
    assert_eq!(encoded.len(), 36 + 3 + 4);
    assert_eq!(TransactionInput::from_bytes(&encoded), Ok((input, 43)));
}

#[test]
fn input_every_strict_prefix_is_insufficient() {
    let input = TransactionInput::new(
        OutPoint::new(sample_txid(), 9),
        Script::new(vec![0x51]),
        7,
    );
    let encoded = input.to_bytes();
    for cut in 0..encoded.len() {
        assert_eq!(
            TransactionInput::from_bytes(&encoded[..cut]),
            Err(BitcoinError::InsufficientBytes)
        );
    }
}
