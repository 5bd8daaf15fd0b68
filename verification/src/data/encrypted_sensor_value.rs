use vstd::prelude::*;

use crate::data::sensor_value::SensorValue;
use crate::network::packet::PacketError;
use crate::utils::byte_order::{
    lemma_u64_be_bytes_roundtrip, lemma_u64_be_roundtrip, read_u64_be, u64_be_bytes, u64_from_be,
    write_u64_be,
};
use crate::utils::crypt_utils::{decrypt_u64, opened_u64, CryptError};

verus! {

/// A sensor interval as the collector sees it: both bounds under
/// order-preserving encryption, and both bounds again under end-to-end
/// authenticated encryption for the client.
#[derive(PartialEq, Eq, Debug, Clone, Copy)]
pub struct EncryptedSensorValue {
    pub lower_bound: u64,
    pub upper_bound: u64,
    pub enc_lower_bound: [u8; 24],
    pub enc_upper_bound: [u8; 24],
}

/// Length of an encoded `EncryptedSensorValue`.
pub const ENCODED_VALUE_SIZE: usize = 64;

/// The wire form of a value: both order-preserving bounds in big-endian
/// order, then the two end-to-end ciphertexts.
pub open spec fn value_bytes(v: EncryptedSensorValue) -> Seq<u8> {
    u64_be_bytes(v.lower_bound) + u64_be_bytes(v.upper_bound) + v.enc_lower_bound@
        + v.enc_upper_bound@
}

/// Distinct values have distinct wire forms.
pub proof fn lemma_value_bytes_injective(v: EncryptedSensorValue, w: EncryptedSensorValue)
    requires
        value_bytes(v) == value_bytes(w),
    ensures
        v == w,
{
    lemma_u64_be_roundtrip(v.lower_bound);
    lemma_u64_be_roundtrip(v.upper_bound);
    lemma_u64_be_roundtrip(w.lower_bound);
    lemma_u64_be_roundtrip(w.upper_bound);
    let b = value_bytes(v);
    assert(b.subrange(0, 8) =~= u64_be_bytes(v.lower_bound));
    assert(value_bytes(w).subrange(0, 8) =~= u64_be_bytes(w.lower_bound));
    assert(b.subrange(8, 16) =~= u64_be_bytes(v.upper_bound));
    assert(value_bytes(w).subrange(8, 16) =~= u64_be_bytes(w.upper_bound));
    assert(b.subrange(16, 40) =~= v.enc_lower_bound@);
    assert(value_bytes(w).subrange(16, 40) =~= w.enc_lower_bound@);
    assert(b.subrange(40, 64) =~= v.enc_upper_bound@);
    assert(value_bytes(w).subrange(40, 64) =~= w.enc_upper_bound@);
    assert(v.enc_lower_bound =~= w.enc_lower_bound);
    assert(v.enc_upper_bound =~= w.enc_upper_bound);
}

/// The end-to-end plaintext of a value under `key`: both bounds must
/// authenticate.
pub open spec fn decrypted_value(v: EncryptedSensorValue, key: Seq<u8>) -> Option<SensorValue> {
    match (opened_u64(v.enc_lower_bound@, key), opened_u64(v.enc_upper_bound@, key)) {
        (Ok(lower_bound), Ok(upper_bound)) => Some(SensorValue { lower_bound, upper_bound }),
        _ => None,
    }
}

/// Copies the 24 bytes at `pos` into an array.
fn read_array_24(data: &[u8], pos: usize) -> (a: [u8; 24])
    requires
        pos + 24 <= data@.len(),
    ensures
        a@ == data@.subrange(pos as int, pos + 24),
{
    let mut a = [0u8; 24];
    let mut i: usize = 0;
    while i < 24
        invariant
            pos + 24 <= data@.len(),
            data@.len() == data.len(),
            i <= 24,
            forall|j: int| 0 <= j < i ==> a@[j] == data@[pos + j],
        decreases 24 - i,
    {
        a[i] = data[pos + i];
        i += 1;
    }
    assert(a@ =~= data@.subrange(pos as int, pos + 24));
    a
}

impl EncryptedSensorValue {
    /// Appends the wire form of the value to `buf`.
    pub fn encode(&self, buf: &mut Vec<u8>)
        ensures
            final(buf)@ == old(buf)@ + value_bytes(*self),
    {
        write_u64_be(buf, self.lower_bound);
        write_u64_be(buf, self.upper_bound);
        buf.extend_from_slice(&self.enc_lower_bound);
        buf.extend_from_slice(&self.enc_upper_bound);
        assert(buf@ =~= old(buf)@ + value_bytes(*self));
    }

    /// Reads a value from exactly its 64-byte wire form; any other length is
    /// refused.
    pub fn decode(data: &[u8]) -> (r: Result<EncryptedSensorValue, PacketError>)
        ensures
            data@.len() == ENCODED_VALUE_SIZE ==> r is Ok,
            r matches Ok(v) ==> data@ == value_bytes(v),
            r matches Err(e) ==> e == (PacketError::ValueSizeMismatch { actual: data@.len() as usize }),
    {
        if data.len() != ENCODED_VALUE_SIZE {
            return Err(PacketError::ValueSizeMismatch { actual: data.len() });
        }
        let lower_bound = read_u64_be(data, 0);
        let upper_bound = read_u64_be(data, 8);
        let enc_lower_bound = read_array_24(data, 16);
        let enc_upper_bound = read_array_24(data, 40);
        let v = EncryptedSensorValue { lower_bound, upper_bound, enc_lower_bound, enc_upper_bound };
        proof {
            lemma_u64_be_bytes_roundtrip(data@.subrange(0, 8));
            lemma_u64_be_bytes_roundtrip(data@.subrange(8, 16));
            assert(data@ =~= value_bytes(v));
        }
        Ok(v)
    }

    /// Decrypts both end-to-end ciphertexts under the client's `key`.
    pub fn decrypt(&self, key: &[u8; 32]) -> (r: SensorValue)
        requires
            decrypted_value(*self, key@) is Some,
        ensures
            decrypted_value(*self, key@) == Some(r),
    {
        let lower_bound = match decrypt_u64(self.enc_lower_bound, key) {
            Ok(v) => v,
            Err(_) => 0,
        };
        let upper_bound = match decrypt_u64(self.enc_upper_bound, key) {
            Ok(v) => v,
            Err(_) => 0,
        };
        SensorValue { lower_bound, upper_bound }
    }

    /// Decrypts both end-to-end ciphertexts under `key`, or gives `None` where
    /// either does not authenticate.
    pub fn try_decrypt(&self, key: &[u8; 32]) -> (r: Option<SensorValue>)
        ensures
            r == decrypted_value(*self, key@),
    {
        let lower: Result<u64, CryptError> = decrypt_u64(self.enc_lower_bound, key);
        let upper: Result<u64, CryptError> = decrypt_u64(self.enc_upper_bound, key);
        if lower.is_ok() && upper.is_ok() {
            Some(self.decrypt(key))
        } else {
            None
        }
    }
}

} // verus!
