//! Tests of the embedding byte codec.

use ragstore::codec::{decode_embedding, encode_embedding};
use ragstore::errors::DecodeError;

fn bits(v: &[f32]) -> Vec<u32> {
    v.iter().map(|x| x.to_bits()).collect()
}

#[test]
fn encode_is_little_endian_per_word() {
    let words = bits(&[1.0]);
    let bytes = encode_embedding(&words);
    assert_eq!(bytes, vec![0x00, 0x00, 0x80, 0x3f]);
}

#[test]
fn encode_length_is_four_per_word() {
    let words = bits(&[0.1, 0.2, 0.3, 0.4]);
    let bytes = encode_embedding(&words);
    assert_eq!(bytes.len(), 16);
}

#[test]
fn decode_inverts_encode() {
    let words = bits(&[0.1, -0.2, 3.5e7, -0.0, f32::INFINITY]);
    let bytes = encode_embedding(&words);
    let back = decode_embedding(&bytes).unwrap();
    assert_eq!(back, words);
}

#[test]
fn decode_of_empty_blob_is_empty() {
    let back = decode_embedding(&Vec::new()).unwrap();
    assert!(back.is_empty());
}

#[test]
fn decode_rejects_misaligned_length() {
    for len in [1usize, 2, 3, 5, 7, 9] {
        let blob: Vec<u8> = vec![0xab; len];
        let r = decode_embedding(&blob);
        assert_eq!(r, Err(DecodeError::BadLength));
    }
}
