use sf_ope::utils::crypt_utils::{combine_keys, concat_arrays, decrypt_u64, encrypt_u64, CryptError};
use sf_ope::utils::env_parser::key_from_bytes;

const KEY: [u8; 32] = *b"0123456789abcdef0123456789abcdef";
const OTHER_KEY: [u8; 32] = *b"fedcba9876543210fedcba9876543210";

#[test]
fn combine_keys_puts_seed_first() {
    let combined = combine_keys(*b"secret_senso", [1, 2, 3, 4]);
    assert_eq!(&combined, b"\x01\x02\x03\x04secret_senso");
}

#[test]
fn concat_arrays_joins_in_order() {
    let out: [u16; 5] = concat_arrays([1u16, 2], [3u16, 4, 5]);
    assert_eq!(out, [1, 2, 3, 4, 5]);
    let empty: [u8; 0] = concat_arrays::<u8, 0, 0, 0>([], []);
    assert_eq!(empty.len(), 0);
}

#[test]
fn encrypt_u64_round_trips() {
    for item in [0u64, 1, 10430, u64::MAX] {
        let sealed = encrypt_u64(item, &KEY).unwrap();
        assert_eq!(decrypt_u64(sealed, &KEY), Ok(item));
    }
}

#[test]
fn encrypt_u64_does_not_leak_the_plaintext() {
    let sealed = encrypt_u64(0x0102_0304_0506_0708, &KEY).unwrap();
    assert_ne!(&sealed[..8], &[1, 2, 3, 4, 5, 6, 7, 8]);
    // The same value under the same key always gives the same ciphertext.
    assert_eq!(sealed, encrypt_u64(0x0102_0304_0506_0708, &KEY).unwrap());
    assert_ne!(sealed, encrypt_u64(0x0102_0304_0506_0708, &OTHER_KEY).unwrap());
}

#[test]
fn decrypt_u64_refuses_wrong_key_and_tampering() {
    let sealed = encrypt_u64(42, &KEY).unwrap();
    assert_eq!(decrypt_u64(sealed, &OTHER_KEY), Err(CryptError::DecryptionFailed));
    let mut tampered = sealed;
    tampered[3] ^= 1;
    assert_eq!(decrypt_u64(tampered, &KEY), Err(CryptError::DecryptionFailed));
}

#[test]
fn key_from_bytes_needs_exactly_32_bytes() {
    assert_eq!(key_from_bytes(&KEY), Some(KEY));
    assert_eq!(key_from_bytes(&KEY[..31]), None);
    assert_eq!(key_from_bytes(b""), None);
    let mut long = KEY.to_vec();
    long.push(0);
    assert_eq!(key_from_bytes(&long), None);
}
