use ciphers::error::CipherError;
use ciphers::rc4::Rc4;

#[test]
fn keystream_matches_the_published_test_vector() {
    let mut cipher = Rc4::new(b"Key").unwrap();
    let out = cipher.process(b"Plaintext");
    assert_eq!(out, vec![0xBB, 0xF3, 0x16, 0xE8, 0xD9, 0x40, 0xAF, 0x0A, 0xD3]);
}

#[test]
fn keystream_matches_a_second_published_vector() {
    let mut cipher = Rc4::new(b"Wiki").unwrap();
    let out = cipher.process(b"pedia");
    assert_eq!(out, vec![0x10, 0x21, 0xBF, 0x04, 0x20]);
}

#[test]
fn keystream_matches_a_third_published_vector() {
    let mut cipher = Rc4::new(b"Secret").unwrap();
    let out = cipher.process(b"Attack at dawn");
    assert_eq!(
        out,
        vec![
            0x45, 0xA0, 0x1F, 0x64, 0x5F, 0xC3, 0x5B, 0x38, 0x35, 0x52, 0x54, 0x4B, 0x9B, 0xF5
        ]
    );
}

#[test]
fn processing_twice_from_the_same_key_restores_the_input() {
    let data = b"stream ciphers are self-inverse".to_vec();
    let mut enc = Rc4::new(b"a shared key").unwrap();
    let encrypted = enc.process(&data);
    assert_ne!(encrypted, data);
    let mut dec = Rc4::new(b"a shared key").unwrap();
    assert_eq!(dec.process(&encrypted), data);
}

#[test]
fn empty_key_is_rejected() {
    assert!(matches!(Rc4::new(b""), Err(CipherError::InvalidKey)));
}

#[test]
fn output_length_equals_input_length() {
    let mut cipher = Rc4::new(b"k").unwrap();
    assert_eq!(cipher.process(b"").len(), 0);
    let mut cipher = Rc4::new(b"k").unwrap();
    assert_eq!(cipher.process(&[0u8; 300]).len(), 300);
}
