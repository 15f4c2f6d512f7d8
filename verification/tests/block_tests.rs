use ciphers::block::{decrypt, default_iv, derive_key, encrypt};
use ciphers::error::CipherError;

#[test]
fn derive_key_truncates_the_sha256_digest() {
    // SHA-256 of the empty input starts e3b0c44298fc1c149afbf4c8996fb924.
    assert_eq!(
        derive_key(b""),
        [
            0xe3, 0xb0, 0xc4, 0x42, 0x98, 0xfc, 0x1c, 0x14, 0x9a, 0xfb, 0xf4, 0xc8, 0x99, 0x6f,
            0xb9, 0x24
        ]
    );
}

#[test]
fn derive_key_is_deterministic() {
    assert_eq!(derive_key(b"passphrase"), derive_key(b"passphrase"));
    assert_ne!(derive_key(b"passphrase"), derive_key(b"other"));
}

#[test]
fn first_block_matches_the_aes128_test_vector() {
    // FIPS-197 appendix C.1: AES-128 of 00112233445566778899aabbccddeeff
    // under key 000102030405060708090a0b0c0d0e0f. With an all-zero vector
    // the first ciphertext block is exactly that encryption.
    let key: [u8; 16] = [
        0x00, 0x01, 0x02, 0x03, 0x04, 0x05, 0x06, 0x07, 0x08, 0x09, 0x0a, 0x0b, 0x0c, 0x0d, 0x0e,
        0x0f,
    ];
    let plain: [u8; 16] = [
        0x00, 0x11, 0x22, 0x33, 0x44, 0x55, 0x66, 0x77, 0x88, 0x99, 0xaa, 0xbb, 0xcc, 0xdd, 0xee,
        0xff,
    ];
    let expected: [u8; 16] = [
        0x69, 0xc4, 0xe0, 0xd8, 0x6a, 0x7b, 0x04, 0x30, 0xd8, 0xcd, 0xb7, 0x80, 0x70, 0xb4, 0xc5,
        0x5a,
    ];
    let ciphertext = encrypt(&plain, &key, &[0u8; 16]);
    assert_eq!(ciphertext.len(), 32);
    assert_eq!(&ciphertext[..16], &expected);
}

#[test]
fn encrypt_then_decrypt_round_trips() {
    let key = derive_key(b"a passphrase");
    let iv = default_iv();
    let plain = b"block cipher round trip payload".to_vec();
    let ciphertext = encrypt(&plain, &key, &iv);
    assert_eq!(ciphertext.len() % 16, 0);
    assert!(ciphertext.len() > plain.len());
    assert_eq!(decrypt(&ciphertext, &key, &iv).unwrap(), plain);
}

#[test]
fn encrypt_pads_an_exact_multiple_with_a_full_block() {
    let key = derive_key(b"k");
    let iv = default_iv();
    let plain = [7u8; 32];
    let ciphertext = encrypt(&plain, &key, &iv);
    assert_eq!(ciphertext.len(), 48);
    assert_eq!(decrypt(&ciphertext, &key, &iv).unwrap(), plain.to_vec());
}

#[test]
fn empty_plaintext_becomes_one_padded_block() {
    let key = derive_key(b"k");
    let iv = default_iv();
    let ciphertext = encrypt(b"", &key, &iv);
    assert_eq!(ciphertext.len(), 16);
    assert_eq!(decrypt(&ciphertext, &key, &iv).unwrap(), Vec::<u8>::new());
}

#[test]
fn decrypt_rejects_lengths_that_are_not_multiples_of_16() {
    let key = derive_key(b"k");
    let iv = default_iv();
    let ciphertext = encrypt(b"some plaintext", &key, &iv);
    let truncated = &ciphertext[..ciphertext.len() - 1];
    assert_eq!(
        decrypt(truncated, &key, &iv),
        Err(CipherError::MalformedPadding)
    );
    assert_eq!(
        decrypt(&[0xAAu8; 17], &key, &iv),
        Err(CipherError::MalformedPadding)
    );
}

#[test]
fn decrypt_rejects_the_empty_ciphertext() {
    let key = derive_key(b"k");
    assert_eq!(
        decrypt(b"", &key, &default_iv()),
        Err(CipherError::MalformedPadding)
    );
}

#[test]
fn the_vector_matters() {
    let key = derive_key(b"k");
    let a = encrypt(b"same plaintext", &key, &default_iv());
    let b = encrypt(b"same plaintext", &key, &[9u8; 16]);
    assert_ne!(a, b);
}
