use chacha20poly1305::aead::{Aead, OsRng};
use chacha20poly1305::{AeadCore, ChaCha20Poly1305, Key, KeyInit, Nonce};

use vstd::prelude::*;

use crate::utils::byte_order::{read_u64_be, u64_be_bytes, u64_from_be, write_u64_be};

verus! {

/// Concatenates `a` and `b` into one array of length `C`.
pub fn concat_arrays<T: Copy + Default, const A: usize, const B: usize, const C: usize>(
    a: [T; A],
    b: [T; B],
) -> (out: [T; C])
    requires
        A + B == C,
    ensures
        out@ == a@ + b@,
{
    let mut out = [T::default(); C];
    let mut i: usize = 0;
    while i < A
        invariant
            A + B == C,
            i <= A,
            forall|j: int| 0 <= j < i ==> out@[j] == a@[j],
        decreases A - i,
    {
        out[i] = a[i];
        i += 1;
    }
    let mut k: usize = 0;
    while k < B
        invariant
            A + B == C,
            k <= B,
            forall|j: int| 0 <= j < A ==> out@[j] == a@[j],
            forall|j: int| 0 <= j < k ==> out@[A + j] == b@[j],
        decreases B - k,
    {
        out[A + k] = b[k];
        k += 1;
    }
    assert(out@ =~= a@ + b@);
    out
}

/// Builds the key for order-preserving encryption: the seed followed by the key.
pub fn combine_keys(key: [u8; 12], seed: [u8; 4]) -> (combined: [u8; 16])
    ensures
        combined@ == seed@ + key@,
{
    concat_arrays(seed, key)
}


/// The ciphertext with its 16-byte tag that `Aead::encrypt` of
/// `ChaCha20Poly1305` returns for a key, a 12-byte nonce and a plaintext, with
/// no associated data.
pub uninterp spec fn chacha20poly1305_seal(key: Seq<u8>, nonce: Seq<u8>, plaintext: Seq<u8>) -> Seq<u8>;

/// What `Aead::decrypt` of `ChaCha20Poly1305` returns for a key, a 12-byte
/// nonce and a ciphertext with its tag, with no associated data: the plaintext,
/// or `None` where it reports an error.
pub uninterp spec fn chacha20poly1305_open(key: Seq<u8>, nonce: Seq<u8>, ciphertext: Seq<u8>) -> Option<Seq<u8>>;

/// The longest plaintext, plus one, that ChaCha20Poly1305 takes: its block
/// counter stops at `u32::MAX` blocks of 64 bytes.
pub open spec fn chacha20poly1305_limit() -> nat {
    64 * 0xffff_ffff
}

/// Encrypts `plaintext` under `key` and `nonce` with `ChaCha20Poly1305::new`
/// and `Aead::encrypt` of chacha20poly1305 0.10, with no associated data.
/// Claimed: on a plaintext shorter than the cipher's limit the call succeeds
/// and returns the named ciphertext, which is the plaintext's length plus the
/// 16-byte tag; on a longer one it fails.
#[verifier::external_body]
pub(crate) fn aead_encrypt(key: &[u8; 32], nonce: &[u8; 12], plaintext: &[u8]) -> (r: Option<Vec<u8>>)
    ensures
        r is Some <==> plaintext@.len() < chacha20poly1305_limit(),
        r matches Some(c) ==> c@ == chacha20poly1305_seal(key@, nonce@, plaintext@),
        r matches Some(c) ==> c@.len() == plaintext@.len() + 16,
{
    let cipher = ChaCha20Poly1305::new(Key::from_slice(key));
    cipher.encrypt(Nonce::from_slice(nonce), plaintext).ok()
}

/// Decrypts `ciphertext` under `key` and `nonce` with `ChaCha20Poly1305::new`
/// and `Aead::decrypt` of chacha20poly1305 0.10, with no associated data.
/// Claimed: the result is the named one; a plaintext is 16 bytes shorter than
/// the ciphertext, so a ciphertext under 16 bytes fails; a ciphertext opens
/// only when its tag authenticates it, that is when it is the seal of the
/// plaintext it opens to; and what `aead_encrypt` sealed under the same key
/// and nonce opens to its plaintext.
#[verifier::external_body]
pub(crate) fn aead_decrypt(key: &[u8; 32], nonce: &[u8; 12], ciphertext: &[u8]) -> (r: Option<Vec<u8>>)
    ensures
        r matches Some(p) ==> chacha20poly1305_open(key@, nonce@, ciphertext@) == Some(p@),
        r is None ==> chacha20poly1305_open(key@, nonce@, ciphertext@) is None,
        r matches Some(p) ==> p@.len() + 16 == ciphertext@.len(),
        r matches Some(p) ==> ciphertext@ == chacha20poly1305_seal(key@, nonce@, p@),
        r matches Some(p) ==> forall|pt: Seq<u8>|
            pt.len() < chacha20poly1305_limit() && ciphertext@ == #[trigger] chacha20poly1305_seal(
                key@,
                nonce@,
                pt,
            ) ==> p@ == pt,
        r is None ==> forall|pt: Seq<u8>|
            pt.len() < chacha20poly1305_limit() ==> ciphertext@ != #[trigger] chacha20poly1305_seal(
                key@,
                nonce@,
                pt,
            ),
{
    let cipher = ChaCha20Poly1305::new(Key::from_slice(key));
    cipher.decrypt(Nonce::from_slice(nonce), ciphertext).ok()
}

/// A fresh nonce from `AeadCore::generate_nonce` of `ChaCha20Poly1305` with
/// the operating system's random generator. Nothing is claimed of its bytes.
#[verifier::external_body]
pub(crate) fn random_nonce() -> (r: [u8; 12]) {
    ChaCha20Poly1305::generate_nonce(&mut OsRng).into()
}

/// The fixed nonce under which single values are encrypted end to end.
pub open spec fn value_nonce() -> Seq<u8> {
    Seq::new(12, |i: int| 5u8)
}

/// Why encrypting or decrypting a single value failed.
#[derive(PartialEq, Eq, Debug, Clone, Copy)]
pub enum CryptError {
    /// The cipher refused to encrypt.
    EncryptionFailed,
    /// The ciphertext did not authenticate under the key.
    DecryptionFailed,
}

/// The ciphertext of one value: its eight big-endian bytes sealed under the
/// fixed nonce.
pub open spec fn sealed_u64(item: u64, key: Seq<u8>) -> Seq<u8> {
    chacha20poly1305_seal(key, value_nonce(), u64_be_bytes(item))
}

/// The value that a ciphertext opens to under the fixed nonce.
pub open spec fn opened_u64(payload: Seq<u8>, key: Seq<u8>) -> Result<u64, CryptError> {
    match chacha20poly1305_open(key, value_nonce(), payload) {
        Some(p) => Ok(u64_from_be(p)),
        None => Err(CryptError::DecryptionFailed),
    }
}

fn fixed_nonce() -> (n: [u8; 12])
    ensures
        n@ == value_nonce(),
{
    let n = [5u8; 12];
    assert(n@ =~= value_nonce());
    n
}

/// Encrypts one value end to end: its eight big-endian bytes, sealed with
/// ChaCha20Poly1305 under `key` and a fixed nonce, give 24 bytes.
pub fn encrypt_u64(item: u64, key: &[u8; 32]) -> (r: Result<[u8; 24], CryptError>)
    ensures
        r is Ok,
        r matches Ok(c) ==> c@ == sealed_u64(item, key@),
{
    let nonce = fixed_nonce();
    let mut buf: Vec<u8> = Vec::new();
    write_u64_be(&mut buf, item);
    proof {
        assert(buf@ =~= u64_be_bytes(item));
    }
    match aead_encrypt(key, &nonce, buf.as_slice()) {
        Some(encrypted) => {
            let mut encrypted_arr = [0u8; 24];
            let mut i: usize = 0;
            while i < 24
                invariant
                    encrypted@.len() == 24,
                    i <= 24,
                    forall|j: int| 0 <= j < i ==> encrypted_arr@[j] == encrypted@[j],
                decreases 24 - i,
            {
                encrypted_arr[i] = encrypted[i];
                i += 1;
            }
            assert(encrypted_arr@ =~= encrypted@);
            Ok(encrypted_arr)
        },
        None => Err(CryptError::EncryptionFailed),
    }
}

/// Decrypts one value encrypted by `encrypt_u64`: fails where the payload does
/// not authenticate under `key`.
pub fn decrypt_u64(payload: [u8; 24], key: &[u8; 32]) -> (r: Result<u64, CryptError>)
    ensures
        r == opened_u64(payload@, key@),
        forall|item: u64| payload@ == #[trigger] sealed_u64(item, key@) ==> r == Ok::<u64, CryptError>(item),
        r matches Ok(item) ==> payload@ == sealed_u64(item, key@),
        r is Ok <==> exists|item: u64| payload@ == #[trigger] sealed_u64(item, key@),
{
    let nonce = fixed_nonce();
    match aead_decrypt(key, &nonce, &payload) {
        Some(decrypted) => {
            let decoded = read_u64_be(decrypted.as_slice(), 0);
            assert(decrypted@.subrange(0, 8) =~= decrypted@);
            proof {
                crate::utils::byte_order::lemma_u64_be_bytes_roundtrip(decrypted@);
                assert(payload@ == sealed_u64(decoded, key@));
            }
            proof {
                assert forall|item: u64| payload@ == #[trigger] sealed_u64(item, key@) implies decoded == item by {
                    crate::utils::byte_order::lemma_u64_be_roundtrip(item);
                }
            }
            Ok(decoded)
        },
        None => {
            proof {
                assert forall|item: u64| payload@ != #[trigger] sealed_u64(item, key@) by {
                    crate::utils::byte_order::lemma_u64_be_roundtrip(item);
                }
            }
            Err(CryptError::DecryptionFailed)
        },
    }
}

} // verus!
