//! The crypto envelope against the real AEAD: round trips, tampering,
//! nonce discipline, and the passphrase length-fit.

use tripwirs::bytes::{u128_from_be_bytes, u128_to_be_bytes};
use tripwirs::crypto::{
    get_compatible_passphrase, read_decrypted, save_encrypted, CryptoError, FixedNonceSequence,
    NONCE_MAX,
};

fn embedded_nonce(file: &Vec<u8>) -> u128 {
    let suffix: Vec<u8> = file[file.len() - 16..].to_vec();
    u128_from_be_bytes(&suffix)
}

#[test]
fn fresh_save_uses_nonce_one() {
    let plain = b"hello record".to_vec();
    let pass = b"swordfish".to_vec();
    let file = save_encrypted(&plain, None, &pass).unwrap();
    // ciphertext as long as the plaintext, 16-byte tag, 16-byte nonce suffix
    assert_eq!(file.len(), plain.len() + 32);
    assert_eq!(embedded_nonce(&file), 1);
}

#[test]
fn envelope_round_trip() {
    let plain = b"the quick brown fox".to_vec();
    let pass = b"correct horse".to_vec();
    let file = save_encrypted(&plain, None, &pass).unwrap();
    let opened = read_decrypted(&file, &pass).unwrap();
    assert_eq!(opened, plain);
}

#[test]
fn wrong_passphrase_is_rejected() {
    let plain = b"secret contents".to_vec();
    let pass = b"right".to_vec();
    let file = save_encrypted(&plain, None, &pass).unwrap();
    let r = read_decrypted(&file, &b"wrong".to_vec());
    assert_eq!(r, Err(CryptoError::WrongPassphrase));
}

#[test]
fn single_bit_flips_are_rejected() {
    let plain = b"integrity matters".to_vec();
    let pass = b"passphrase".to_vec();
    let file = save_encrypted(&plain, None, &pass).unwrap();
    // one bit in the ciphertext, one in the tag, one in the nonce suffix
    let positions = [0, file.len() - 17, file.len() - 1];
    for &pos in positions.iter() {
        let mut tampered = file.clone();
        tampered[pos] ^= 0x01;
        let r = read_decrypted(&tampered, &pass);
        assert_eq!(r, Err(CryptoError::WrongPassphrase), "flip at {}", pos);
    }
}

#[test]
fn short_file_is_truncated_error() {
    let pass = b"p".to_vec();
    let r = read_decrypted(&vec![0u8; 15], &pass);
    assert_eq!(r, Err(CryptoError::EncryptedDataTooShort));
    let r2 = read_decrypted(&Vec::new(), &pass);
    assert_eq!(r2, Err(CryptoError::EncryptedDataTooShort));
}

#[test]
fn nonces_advance_across_overwrites() {
    let plain = b"same record each time".to_vec();
    let pass = b"stable pass".to_vec();
    let file1 = save_encrypted(&plain, None, &pass).unwrap();
    let file2 = save_encrypted(&plain, Some(&file1), &pass).unwrap();
    let file3 = save_encrypted(&plain, Some(&file2), &pass).unwrap();
    let (n1, n2, n3) = (embedded_nonce(&file1), embedded_nonce(&file2), embedded_nonce(&file3));
    assert_eq!(n1, 1);
    assert!(n2 > n1);
    assert!(n3 > n2);
    // different nonces give different ciphertexts for the same plaintext
    assert_ne!(file1[..file1.len() - 16], file2[..file2.len() - 16]);
    // and each file still opens to the same record
    assert_eq!(read_decrypted(&file2, &pass).unwrap(), plain);
    assert_eq!(read_decrypted(&file3, &pass).unwrap(), plain);
}

#[test]
fn corrupted_target_refuses_overwrite() {
    let plain = b"do not reuse nonces".to_vec();
    let pass = b"pw".to_vec();
    let file = save_encrypted(&plain, None, &pass).unwrap();
    let mut corrupted = file.clone();
    let len = corrupted.len();
    corrupted[len - 5] ^= 0xff; // inside the trailing 16 nonce bytes
    let r = save_encrypted(&plain, Some(&corrupted), &pass);
    assert_eq!(r, Err(CryptoError::CannotGetNonceFromExistingFile));
}

#[test]
fn too_short_target_refuses_overwrite() {
    let plain = b"x".to_vec();
    let pass = b"pw".to_vec();
    let r = save_encrypted(&plain, Some(&vec![1u8, 2, 3]), &pass);
    assert_eq!(r, Err(CryptoError::CannotGetNonceFromExistingFile));
}

#[test]
fn length_fit_repeats_and_truncates() {
    let short = get_compatible_passphrase(&b"abc".to_vec());
    assert_eq!(short, b"abcabcabcabcabcabcabcabcabcabcab".to_vec());
    assert_eq!(short.len(), 32);
    let exact = get_compatible_passphrase(&b"abcabcabcabcabcabcabcabcabcabcab".to_vec());
    assert_eq!(exact, short);
    let long = get_compatible_passphrase(&b"0123456789012345678901234567890123456789".to_vec());
    assert_eq!(long, b"01234567890123456789012345678901".to_vec());
}

#[test]
fn equivalent_passphrases_share_a_key() {
    // the length-fit maps "abc" and its own 32-byte expansion to one key,
    // so a record sealed under one opens under the other
    let plain = b"fingerprint collision".to_vec();
    let file = save_encrypted(&plain, None, &b"abc".to_vec()).unwrap();
    let opened = read_decrypted(&file, &b"abcabcabcabcabcabcabcabcabcabcab".to_vec()).unwrap();
    assert_eq!(opened, plain);
}

#[test]
fn nonce_counter_advances_and_wraps() {
    let mut seq = FixedNonceSequence::new(0);
    seq.advance();
    assert_eq!(seq.counter, 1);
    seq.advance();
    assert_eq!(seq.counter, 2);
    let mut at_max = FixedNonceSequence::new(NONCE_MAX);
    at_max.advance();
    assert_eq!(at_max.counter, 1);
    let mut near_max = FixedNonceSequence::new(NONCE_MAX - 1);
    near_max.advance();
    assert_eq!(near_max.counter, NONCE_MAX);
}

#[test]
fn nonce_bytes_are_low_twelve_little_endian() {
    let seq = FixedNonceSequence::new(0x0102030405060708090a0b0cu128);
    let nb = seq.nonce_bytes();
    assert_eq!(nb, vec![0x0c, 0x0b, 0x0a, 0x09, 0x08, 0x07, 0x06, 0x05, 0x04, 0x03, 0x02, 0x01]);
}

#[test]
fn u128_big_endian_round_trip() {
    for &x in [0u128, 1, 255, 256, u128::MAX, 0xdead_beef_cafe_f00du128].iter() {
        let b = u128_to_be_bytes(x);
        assert_eq!(b.len(), 16);
        assert_eq!(u128_from_be_bytes(&b), x);
    }
    let one = u128_to_be_bytes(1);
    let mut expected = vec![0u8; 16];
    expected[15] = 1;
    assert_eq!(one, expected);
}
