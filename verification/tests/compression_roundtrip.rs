use mailfang::compression::{compress, decompress, gzip_round_trip};

#[test]
fn round_trip_returns_the_input() {
    let data: Vec<u8> = (0u16..600).map(|i| (i % 251) as u8).collect();
    let packed = compress(&data).unwrap();
    assert_ne!(packed, data, "compression must actually transform the bytes");
    let unpacked = decompress(&packed).unwrap();
    assert_eq!(unpacked, data);
    assert_eq!(gzip_round_trip(&data), data);
}

#[test]
fn round_trip_of_empty_input() {
    let data: Vec<u8> = Vec::new();
    assert_eq!(gzip_round_trip(&data), data);
}

#[test]
fn decompress_rejects_garbage() {
    assert!(decompress(&[1u8, 2, 3, 4]).is_err());
}

#[test]
fn hex_and_hmac_material() {
    // the CRAM-MD5 hex form of a known digest: hmac of an empty key and message
    let hex: String = mailfang::encoding::to_hex_lower(&vec![0xde, 0xad, 0xbe, 0xef])
        .into_iter()
        .collect();
    assert_eq!(hex, "deadbeef");
    let hmac: String = mailfang::auth::hmac_md5_hex(b"key", b"message").into_iter().collect();
    assert_eq!(hmac, hex::encode(raw_hmac(b"key", b"message")));
}

fn raw_hmac(key: &[u8], message: &[u8]) -> [u8; 16] {
    let mut key_padded = [0u8; 64];
    key_padded[..key.len()].copy_from_slice(key);
    let mut ipad = key_padded;
    for b in &mut ipad {
        *b ^= 0x36;
    }
    let mut inner = ipad.to_vec();
    inner.extend_from_slice(message);
    let inner_hash = md5::compute(&inner);
    let mut opad = key_padded;
    for b in &mut opad {
        *b ^= 0x5c;
    }
    let mut outer = opad.to_vec();
    outer.extend_from_slice(&inner_hash.0);
    md5::compute(&outer).0
}
