use actionkv::codec::decode_at;
use actionkv::codec::encode;
use actionkv::Decoded;

// CRC-32/CKSUM carries the catalog check value 0x765e7680 for the input
// "123456789"; a record for key "1234" and value "56789" must store exactly
// those four bytes, little-endian, in front of the two length words.
#[test]
fn encode_exact_bytes() {
    let rec = encode(b"1234", b"56789");
    assert_eq!(rec.len(), 12 + 4 + 5);
    assert_eq!(&rec[0..4], &[0x80, 0x76, 0x5e, 0x76]);
    assert_eq!(&rec[4..8], &[4, 0, 0, 0]);
    assert_eq!(&rec[8..12], &[5, 0, 0, 0]);
    assert_eq!(&rec[12..21], b"123456789");
}

#[test]
fn encode_empty_key_and_value() {
    let rec = encode(b"", b"");
    assert_eq!(rec.len(), 12);
    assert_eq!(&rec[4..8], &[0, 0, 0, 0]);
    assert_eq!(&rec[8..12], &[0, 0, 0, 0]);
}

#[test]
fn decode_returns_encoded_record() {
    let rec = encode(b"key", b"value");
    match decode_at(&rec, 0) {
        Decoded::Record { kv, next } => {
            assert_eq!(kv.key, b"key".to_vec());
            assert_eq!(kv.value, b"value".to_vec());
            assert_eq!(next, rec.len() as u64);
        },
        _ => panic!("expected a record"),
    }
}

#[test]
fn decode_empty_log_is_end() {
    let log: Vec<u8> = Vec::new();
    assert!(matches!(decode_at(&log, 0), Decoded::EndOfLog));
}

#[test]
fn decode_partial_header_is_end() {
    let rec = encode(b"abc", b"xyz");
    for cut in 0..12 {
        let partial: Vec<u8> = rec[0..cut].to_vec();
        assert!(matches!(decode_at(&partial, 0), Decoded::EndOfLog));
    }
}

#[test]
fn decode_partial_payload_is_end() {
    let rec = encode(b"abc", b"xyz");
    for cut in 12..rec.len() {
        let partial: Vec<u8> = rec[0..cut].to_vec();
        assert!(matches!(decode_at(&partial, 0), Decoded::EndOfLog));
    }
}

#[test]
fn decode_detects_payload_corruption() {
    let rec = encode(b"abc", b"xyz");
    for i in 12..rec.len() {
        for bit in 0..8 {
            let mut bad = rec.clone();
            bad[i] ^= 1 << bit;
            match decode_at(&bad, 0) {
                Decoded::Corrupt { stored, computed } => {
                    assert_ne!(stored, computed);
                },
                _ => panic!("corruption not detected"),
            }
        }
    }
}

#[test]
fn decode_detects_checksum_field_corruption() {
    let rec = encode(b"abc", b"xyz");
    for bit in 0..8 {
        let mut bad = rec.clone();
        bad[0] ^= 1 << bit;
        assert!(matches!(decode_at(&bad, 0), Decoded::Corrupt { .. }));
    }
}
