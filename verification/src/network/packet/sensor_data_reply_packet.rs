use vstd::prelude::*;

use crate::data::encrypted_sensor_value::{
    lemma_value_bytes_injective, value_bytes, EncryptedSensorValue,
};
use crate::network::packet::{key_view, Packet, PacketError};
use crate::utils::crypt_utils::{
    aead_decrypt, aead_encrypt, chacha20poly1305_open, chacha20poly1305_seal, random_nonce,
};

verus! {

/// Carries an encrypted sensor value, sealed as a whole with
/// ChaCha20Poly1305 under the key shared by the two ends of the link.
#[derive(PartialEq, Eq, Debug, Clone, Copy)]
pub struct SensorDataReplyPacket {
    pub encrypted_value: EncryptedSensorValue,
}

/// Length of the nonce that precedes the sealed payload.
pub const NONCE_SIZE: usize = 12;

/// Length of the sealed payload: the 64-byte value and its 16-byte tag.
pub const SEALED_PAYLOAD_SIZE: usize = 80;

/// The value whose wire form `p` is, if any.
pub open spec fn value_from_bytes(p: Seq<u8>) -> Result<EncryptedSensorValue, PacketError> {
    if exists|v: EncryptedSensorValue| #[trigger] value_bytes(v) == p {
        Ok(choose|v: EncryptedSensorValue| #[trigger] value_bytes(v) == p)
    } else {
        Err(PacketError::ValueSizeMismatch { actual: p.len() as usize })
    }
}

/// The body of a reply under `key` and `nonce`: the nonce, then the wire form
/// of the value sealed under both.
pub open spec fn reply_body(v: EncryptedSensorValue, key: Seq<u8>, nonce: Seq<u8>) -> Seq<u8> {
    nonce + chacha20poly1305_seal(key, nonce, value_bytes(v))
}

proof fn lemma_value_bytes_len(v: EncryptedSensorValue)
    ensures
        value_bytes(v).len() == 64,
{
    crate::utils::byte_order::lemma_u64_be_roundtrip(v.lower_bound);
    crate::utils::byte_order::lemma_u64_be_roundtrip(v.upper_bound);
}

/// Copies the 12 bytes at the start of `data` into an array.
fn read_nonce(data: &[u8]) -> (a: [u8; 12])
    requires
        12 <= data@.len(),
    ensures
        a@ == data@.subrange(0, 12),
{
    let a = [
        data[0],
        data[1],
        data[2],
        data[3],
        data[4],
        data[5],
        data[6],
        data[7],
        data[8],
        data[9],
        data[10],
        data[11],
    ];
    assert(a@ =~= data@.subrange(0, 12));
    a
}

impl SensorDataReplyPacket {
    /// Appends the body of the packet to `buf`, sealed under `key` with the
    /// given `nonce`.
    pub fn encode_with_nonce(&self, buf: &mut Vec<u8>, key: &[u8; 32], nonce: [u8; 12])
        ensures
            final(buf)@ == old(buf)@ + reply_body(self.encrypted_value, key@, nonce@),
            reply_body(self.encrypted_value, key@, nonce@).len() == 92,
    {
        let mut ope_values: Vec<u8> = Vec::new();
        self.encrypted_value.encode(&mut ope_values);
        proof {
            lemma_value_bytes_len(self.encrypted_value);
            assert(ope_values@ =~= value_bytes(self.encrypted_value));
        }
        let encrypted = aead_encrypt(key, &nonce, ope_values.as_slice()).unwrap();
        // Encode nonce
        buf.extend_from_slice(&nonce);
        // Encode encrypted payload
        buf.extend_from_slice(encrypted.as_slice());
        assert(buf@ =~= old(buf)@ + reply_body(self.encrypted_value, key@, nonce@));
    }
}

impl Packet for SensorDataReplyPacket {
    open spec fn spec_packet_id() -> u8 {
        0x01
    }

    open spec fn spec_size() -> nat {
        32 + 12 + 24 + 24
    }

    /// The body is the reply body under the key and some 12-byte nonce.
    open spec fn encodes_as(&self, bytes: Seq<u8>, key: Option<Seq<u8>>) -> bool {
        &&& key is Some
        &&& exists|nonce: Seq<u8>|
            nonce.len() == 12 && bytes == reply_body(self.encrypted_value, key->Some_0, nonce)
        &&& bytes.len() == 92
    }

    /// Reads the nonce and the sealed payload, opens the payload under the
    /// key and reads the value from it.
    open spec fn decoded(data: Seq<u8>, key: Option<Seq<u8>>) -> Result<Self, PacketError> {
        if data.len() < 92 {
            Err(PacketError::ShortRead)
        } else {
            match chacha20poly1305_open(key->Some_0, data.subrange(0, 12), data.subrange(12, 92)) {
                None => Err(PacketError::DecryptionFailed),
                Some(p) => match value_from_bytes(p) {
                    Ok(v) => Ok(SensorDataReplyPacket { encrypted_value: v }),
                    Err(e) => Err(e),
                },
            }
        }
    }

    open spec fn encode_requires(key: Option<Seq<u8>>) -> bool {
        key is Some
    }

    /// A key is needed once the body is complete.
    open spec fn decode_requires(data: Seq<u8>, key: Option<Seq<u8>>) -> bool {
        key is Some || data.len() < 92
    }

    open spec fn is_blank(&self) -> bool {
        &&& self.encrypted_value.lower_bound == 0
        &&& self.encrypted_value.upper_bound == 0
        &&& self.encrypted_value.enc_lower_bound@ == Seq::new(24, |i: int| 0u8)
        &&& self.encrypted_value.enc_upper_bound@ == Seq::new(24, |i: int| 0u8)
    }

    fn packet_id() -> (r: u8) {
        0x01
    }

    fn encode(&self, buf: &mut Vec<u8>, key: Option<&[u8; 32]>) {
        let key = key.unwrap();
        // 96-bits; unique per message
        let nonce = random_nonce();
        let ghost old_len = buf@.len();
        self.encode_with_nonce(buf, key, nonce);
        assert(buf@.subrange(0, old_len as int) =~= old(buf)@);
        assert(buf@.subrange(old_len as int, buf@.len() as int) =~= reply_body(
            self.encrypted_value,
            key@,
            nonce@,
        ));
    }

    fn decode(&mut self, data: &[u8], key: Option<&[u8; 32]>) -> (r: Result<(), PacketError>) {
        if data.len() < NONCE_SIZE {
            return Err(PacketError::ShortRead);
        }
        let nonce = read_nonce(data);
        if data.len() < NONCE_SIZE + SEALED_PAYLOAD_SIZE {
            return Err(PacketError::ShortRead);
        }
        let encrypted_payload = &data[12..92];
        let k = key.unwrap();
        let decrypted_payload = aead_decrypt(k, &nonce, encrypted_payload);
        proof {
            assert forall|p: Self| #[trigger] p.encodes_as(data@, key_view(key)) implies Self::decoded(data@, key_view(key))
                == Ok::<Self, PacketError>(p) by {
                let n = choose|n: Seq<u8>|
                    n.len() == 12 && data@ == reply_body(p.encrypted_value, k@, n);
                assert(data@.subrange(0, 12) =~= n);
                assert(encrypted_payload@ =~= chacha20poly1305_seal(k@, n, value_bytes(p.encrypted_value)));
                lemma_value_bytes_len(p.encrypted_value);
                let w = choose|v: EncryptedSensorValue| #[trigger] value_bytes(v) == value_bytes(p.encrypted_value);
                lemma_value_bytes_injective(w, p.encrypted_value);
            }
        }
        match decrypted_payload {
            None => Err(PacketError::DecryptionFailed),
            Some(payload) => {
                match EncryptedSensorValue::decode(payload.as_slice()) {
                    Ok(v) => {
                        self.encrypted_value = v;
                        proof {
                            let w = choose|x: EncryptedSensorValue| #[trigger] value_bytes(x) == payload@;
                            lemma_value_bytes_injective(w, v);
                        }
                        Ok(())
                    },
                    Err(e) => {
                        proof {
                            if exists|x: EncryptedSensorValue| #[trigger] value_bytes(x) == payload@ {
                                let w = choose|x: EncryptedSensorValue| #[trigger] value_bytes(x) == payload@;
                                lemma_value_bytes_len(w);
                            }
                        }
                        Err(e)
                    },
                }
            },
        }
    }

    fn new() -> (r: Self) {
        let zeros: [u8; 24] = [0u8, 0u8, 0u8, 0u8, 0u8, 0u8, 0u8, 0u8, 0u8, 0u8, 0u8, 0u8, 0u8, 0u8, 0u8, 0u8, 0u8, 0u8, 0u8, 0u8, 0u8, 0u8, 0u8, 0u8];
        assert(zeros@ =~= Seq::new(24, |i: int| 0u8));
        let r = SensorDataReplyPacket {
            encrypted_value: EncryptedSensorValue {
                lower_bound: 0,
                upper_bound: 0,
                enc_lower_bound: zeros,
                enc_upper_bound: zeros,
            },
        };
        r
    }

    fn size() -> (r: usize) {
        32 + 12 + 24 + 24
    }
}

} // verus!
