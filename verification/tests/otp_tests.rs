use ciphers::error::CipherError;
use ciphers::otp::combine;

#[test]
fn combine_xors_byte_by_byte() {
    let out = combine(&[0x01, 0xFF, 0x55], &[0x0F, 0x0F, 0xAA]).unwrap();
    assert_eq!(out, vec![0x0E, 0xF0, 0xFF]);
}

#[test]
fn combine_is_self_inverse_on_equal_lengths() {
    let data = b"one time pad payload".to_vec();
    let key = b"equally long key!!!!".to_vec();
    assert_eq!(data.len(), key.len());
    let once = combine(&data, &key).unwrap();
    let twice = combine(&once, &key).unwrap();
    assert_eq!(twice, data);
}

#[test]
fn combine_accepts_a_longer_key() {
    let out = combine(&[0xAB], &[0xAB, 0xCD, 0xEF]).unwrap();
    assert_eq!(out, vec![0x00]);
}

#[test]
fn combine_rejects_a_shorter_key() {
    assert_eq!(
        combine(&[1, 2, 3], &[1, 2]),
        Err(CipherError::LengthMismatch)
    );
}

#[test]
fn combine_of_empty_data_is_empty() {
    assert_eq!(combine(&[], &[]).unwrap(), Vec::<u8>::new());
}
