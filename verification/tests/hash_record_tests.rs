use bitrust::hash::hash_file;
use bitrust::record::{decode_record, encode_record, File};

#[test]
fn digest_matches_xxh3_one_shot() {
    let data: Vec<u8> = (0u32..10000).map(|i| (i % 251) as u8).collect();
    assert_eq!(hash_file(&data), xxhash_rust::xxh3::xxh3_64(&data));
}

#[test]
fn digest_empty_matches_xxh3_one_shot() {
    assert_eq!(hash_file(&[]), xxhash_rust::xxh3::xxh3_64(&[]));
}

#[test]
fn digest_deterministic_across_calls() {
    let data = b"the same bytes every time".to_vec();
    let copy = data.clone();
    let h1 = hash_file(&data);
    let h2 = hash_file(&data);
    let h3 = hash_file(&copy);
    assert_eq!(h1, h2);
    assert_eq!(h1, h3);
}

#[test]
fn digest_differs_for_different_bytes() {
    assert_ne!(hash_file(b"abc"), hash_file(b"abd"));
}

#[test]
fn record_round_trip() {
    let f = File {
        modified: 1_234_567_890_123,
        hash: 0xdead_beef_cafe_f00d,
    };
    let bytes = encode_record(&f);
    assert_eq!(bytes.len(), 16);
    assert_eq!(decode_record(&bytes), Some(f));
}

#[test]
fn record_encoding_is_little_endian() {
    let f = File { modified: 2, hash: 1 };
    let bytes = encode_record(&f);
    let mut expected = vec![1u8, 0, 0, 0, 0, 0, 0, 0];
    expected.extend_from_slice(&[2u8, 0, 0, 0, 0, 0, 0, 0]);
    assert_eq!(bytes, expected);
}

#[test]
fn decode_rejects_wrong_length() {
    assert_eq!(decode_record(&[0u8; 15]), None);
    assert_eq!(decode_record(&[0u8; 17]), None);
    assert_eq!(decode_record(&[]), None);
}
