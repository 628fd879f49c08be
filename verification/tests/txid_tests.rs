use bitcoin_codec::{BitcoinError, Txid};

fn sample_bytes() -> [u8; 32] {
    let mut arr = [0u8; 32];
    let mut i = 0;
    while i < 32 {
        arr[i] = i as u8;
        i += 1;
    }
    arr
}

#[test]
fn to_hex_is_64_lowercase_characters() {
    let txid = Txid(sample_bytes());
    let hex_form = txid.to_hex();
    assert_eq!(
        hex_form,
        "000102030405060708090a0b0c0d0e0f101112131415161718191a1b1c1d1e1f"
    );
    assert_eq!(hex_form.len(), 64);
}

#[test]
fn hex_round_trip_reproduces_bytes() {
    let txid = Txid(sample_bytes());
    let decoded = Txid::from_hex(&txid.to_hex()).unwrap();
    assert_eq!(decoded, txid);
}

#[test]
fn hex_round_trip_all_byte_values() {
    let mut arr = [0u8; 32];
    let mut i = 0;
    while i < 32 {
        arr[i] = (0xFF - 3 * i) as u8;
        i += 1;
    }
    let txid = Txid(arr);
    assert_eq!(Txid::from_hex(&txid.to_hex()), Ok(txid));
}

#[test]
fn from_hex_accepts_uppercase() {
    let upper = "AB".repeat(32);
    let decoded = Txid::from_hex(&upper).unwrap();
    assert_eq!(decoded, Txid([0xAB; 32]));
}

#[test]
fn from_hex_63_chars_is_invalid_format() {
    let s = "0".repeat(63);
    assert_eq!(Txid::from_hex(&s), Err(BitcoinError::InvalidFormat));
}

#[test]
fn from_hex_65_chars_is_invalid_format() {
    let s = "0".repeat(65);
    assert_eq!(Txid::from_hex(&s), Err(BitcoinError::InvalidFormat));
}

#[test]
fn from_hex_non_hex_character_is_invalid_format() {
    let mut s = "0".repeat(64);
    s.replace_range(10..11, "g");
    assert_eq!(Txid::from_hex(&s), Err(BitcoinError::InvalidFormat));
}

#[test]
fn from_hex_empty_string_is_invalid_format() {
    assert_eq!(Txid::from_hex(""), Err(BitcoinError::InvalidFormat));
}
