use bakare::error_correcting_encoder::{decode, encode};
use rand::RngCore;

#[test]
fn encode_small_amounts_of_data() {
    let mut original: Vec<u8> = vec![0u8; 32];
    rand::thread_rng().fill_bytes(&mut original);

    let decoded = decode(&encode(&original).unwrap()).unwrap();

    assert_eq!(decoded, original);
}

#[test]
fn encode_large_amounts_of_data() {
    let mut original: Vec<u8> = vec![0u8; 1024 * 1024];
    rand::thread_rng().fill_bytes(&mut original);

    let decoded = decode(&encode(&original).unwrap()).unwrap();

    assert_eq!(decoded, original);
}

#[test]
fn survive_data_corruption() {
    let mut original: Vec<u8> = vec![0u8; 32];
    rand::thread_rng().fill_bytes(&mut original);

    let encoded = encode(&original).unwrap();

    let size = encoded.len();
    let corrupt_byte_index = (rand::thread_rng().next_u32() as usize) % size;

    let mut corrupted = encoded.clone();
    corrupted[corrupt_byte_index] = corrupted[corrupt_byte_index].wrapping_add(1);

    let decoded = decode(&corrupted).unwrap();

    assert_eq!(decoded, original);
}

#[test]
fn encode_empty_data() {
    let original: Vec<u8> = Vec::new();
    let encoded = encode(&original).unwrap();
    assert_eq!(encoded.len(), 0);
    let decoded = decode(&encoded).unwrap();
    assert_eq!(decoded, original);
}

#[test]
fn add_parity_per_block() {
    let original: Vec<u8> = vec![7u8; 247];
    let encoded = encode(&original).unwrap();
    assert_eq!(encoded.len(), 255);
    let longer: Vec<u8> = vec![7u8; 248];
    let encoded2 = encode(&longer).unwrap();
    assert_eq!(encoded2.len(), 255 + 1 + 8);
}
