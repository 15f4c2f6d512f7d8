use ciphers::caesar::{
    brute_force, caesar_cipher, caesar_decipher, count_real_words, dictionary_attack,
    key_from_open_and_encrypted,
};

#[test]
fn encode_shifts_letters_and_keeps_the_rest() {
    assert_eq!(caesar_cipher(b"Hello, World!", 3), b"Khoor, Zruog!".to_vec());
    assert_eq!(caesar_cipher(b"abc xyz", 3), b"def abc".to_vec());
    assert_eq!(caesar_cipher(b"1234 ?!", 13), b"1234 ?!".to_vec());
}

#[test]
fn encode_normalizes_the_shift() {
    assert_eq!(caesar_cipher(b"abc", 26), b"abc".to_vec());
    assert_eq!(caesar_cipher(b"abc", 29), caesar_cipher(b"abc", 3));
    assert_eq!(caesar_cipher(b"abc", -1), b"zab".to_vec());
    assert_eq!(caesar_cipher(b"abc", -27), b"zab".to_vec());
}

#[test]
fn decode_round_trips() {
    let text = b"The Quick Brown Fox, 1984!".to_vec();
    for shift in 0..26 {
        let encoded = caesar_cipher(&text, shift);
        assert_eq!(caesar_decipher(&encoded, shift), text);
    }
}

#[test]
fn decode_accepts_out_of_range_shifts() {
    let text = b"attack at dawn".to_vec();
    let encoded = caesar_cipher(&text, 5);
    assert_eq!(caesar_decipher(&encoded, 31), text);
    assert_eq!(caesar_decipher(&encoded, -21), text);
}

#[test]
fn known_plaintext_recovers_the_shift() {
    let encoded = caesar_cipher(b"HELLO", 3);
    assert_eq!(key_from_open_and_encrypted(b"HELLO", &encoded), Some(3));
}

#[test]
fn known_plaintext_rejects_empty_inputs() {
    assert_eq!(key_from_open_and_encrypted(b"", b"ABC"), None);
    assert_eq!(key_from_open_and_encrypted(b"ABC", b""), None);
    assert_eq!(key_from_open_and_encrypted(b"", b""), None);
}

#[test]
fn brute_force_lists_all_shifts_in_order() {
    let text = b"meet me at noon".to_vec();
    let encoded = caesar_cipher(&text, 11);
    let candidates = brute_force(&encoded);
    assert_eq!(candidates.len(), 26);
    for (i, (shift, _)) in candidates.iter().enumerate() {
        assert_eq!(*shift as usize, i);
    }
    assert_eq!(candidates[11].1, text);
}

#[test]
fn count_real_words_strips_and_matches() {
    let dict = vec![b"the".to_vec(), b"cat".to_vec(), b"sat".to_vec()];
    assert_eq!(count_real_words(b"the cat sat!", &dict), 3);
    assert_eq!(count_real_words(b"th3e c4at dog", &dict), 2);
    assert_eq!(count_real_words(b"", &dict), 0);
    assert_eq!(count_real_words(b"   ", &dict), 0);
    assert_eq!(count_real_words(b"THE", &dict), 0);
}

#[test]
fn dictionary_attack_scores_the_true_shift_highest() {
    let dict = vec![
        b"the".to_vec(),
        b"quick".to_vec(),
        b"brown".to_vec(),
        b"fox".to_vec(),
        b"jumps".to_vec(),
        b"over".to_vec(),
        b"lazy".to_vec(),
        b"dog".to_vec(),
    ];
    let text = b"the quick brown fox jumps over the lazy dog".to_vec();
    let encoded = caesar_cipher(&text, 7);
    let results = dictionary_attack(&encoded, &dict);
    assert_eq!(results.len(), 26);
    assert_eq!(results[7].0, 7);
    assert_eq!(results[7].1, 9);
    assert_eq!(results[7].2, text);
    for (_, matches, _) in results.iter() {
        assert!(*matches <= results[7].1);
    }
}
