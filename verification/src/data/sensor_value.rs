use ope::get_ope;
use rand::Rng;

use vstd::prelude::*;

use crate::data::encrypted_sensor_value::EncryptedSensorValue;
use crate::utils::crypt_utils::{encrypt_u64, sealed_u64};

verus! {

/// A sensor reading as an interval of plain values.
#[derive(PartialEq, Eq, Debug, Clone, Copy)]
pub struct SensorValue {
    pub lower_bound: u64,
    pub upper_bound: u64,
}

/// The value an honest sensor measures; its interval is centred on it.
pub const MEASURED_VALUE: u64 = 10430;

/// The largest plaintext in the domain of the order-preserving encryption:
/// `get_ope` builds its cipher over the plaintexts `0..=u16::MAX - 1`.
pub const OPE_MAX_PLAINTEXT: u64 = 65534;

/// What `Ope::encrypt` of the ope crate returns for `plaintext` under the
/// cipher that `get_ope` makes from `key`; `None` where it reports an error.
pub uninterp spec fn ope_ciphertext(key: Seq<u8>, plaintext: u64) -> Option<u64>;

/// Encrypts `plaintext` with `get_ope(key).encrypt(plaintext)` of ope 0.1.1,
/// within the domain that `get_ope` gives the cipher (its `DOMAIN`, plaintexts
/// up to 65534); above it the crate's sampling can underflow or fail to end.
/// Claimed: the result is the named one, and a smaller plaintext has a smaller
/// ciphertext: each plaintext of the domain ends in its own leaf of the
/// sampling tree, and the leaves' ciphertext ranges are disjoint and ordered.
#[verifier::external_body]
fn ope_encrypt(key: &[u8; 16], plaintext: u64) -> (r: Option<u64>)
    requires
        plaintext <= OPE_MAX_PLAINTEXT,
    ensures
        r == ope_ciphertext(key@, plaintext),
        r matches Some(c) ==> forall|p: u64|
            p < plaintext <= OPE_MAX_PLAINTEXT && (#[trigger] ope_ciphertext(key@, p)) is Some
                ==> ope_ciphertext(key@, p)->Some_0 < c,
        r matches Some(c) ==> forall|p: u64|
            plaintext < p <= OPE_MAX_PLAINTEXT && (#[trigger] ope_ciphertext(key@, p)) is Some
                ==> c < ope_ciphertext(key@, p)->Some_0,
{
    get_ope(key).encrypt(plaintext).ok()
}

/// A number drawn by `Rng::gen_range(low..high)` from `rand::thread_rng()`.
/// Claimed: it lies in `low..high`.
#[verifier::external_body]
fn random_in_range(low: u64, high: u64) -> (r: u64)
    requires
        low < high,
    ensures
        low <= r < high,
{
    rand::thread_rng().gen_range(low..high)
}

/// A number drawn by `Rng::gen::<u16>()` from `rand::thread_rng()`. Nothing is
/// claimed of it beyond its type.
#[verifier::external_body]
fn random_u16() -> (r: u16) {
    rand::thread_rng().gen::<u16>()
}

/// `c`, the ciphertext of `m` under `key`, sits in the order of plaintexts:
/// it is above the ciphertext of every smaller plaintext of the domain and
/// below that of every larger one.
pub open spec fn keeps_order(key: Seq<u8>, m: u64, c: u64) -> bool {
    forall|p: u64|
        p <= OPE_MAX_PLAINTEXT && (#[trigger] ope_ciphertext(key, p)) is Some ==> {
            &&& p < m ==> ope_ciphertext(key, p)->Some_0 < c
            &&& m < p ==> c < ope_ciphertext(key, p)->Some_0
        }
}

/// Ciphertexts under one key compare as their plaintexts do, within the
/// domain: so the bounds of different readings encrypted under one key keep
/// their order and their equalities.
pub proof fn lemma_ciphertexts_compare(key: Seq<u8>, x: u64, cx: u64, y: u64, cy: u64)
    requires
        x <= OPE_MAX_PLAINTEXT,
        y <= OPE_MAX_PLAINTEXT,
        ope_ciphertext(key, x) == Some(cx),
        ope_ciphertext(key, y) == Some(cy),
        keeps_order(key, x, cx),
    ensures
        x < y <==> cx < cy,
        x == y <==> cx == cy,
{
    assert(ope_ciphertext(key, y) is Some);
}

/// The order-preserving ciphertexts and end-to-end ciphertexts of a reading;
/// `None` for a bound outside the domain of the order-preserving encryption.
pub open spec fn encrypted_value(
    v: SensorValue,
    ope_key: Seq<u8>,
    client_key: Seq<u8>,
) -> Option<EncryptedSensorValue> {
    if v.lower_bound > OPE_MAX_PLAINTEXT || v.upper_bound > OPE_MAX_PLAINTEXT {
        None
    } else {
    match (ope_ciphertext(ope_key, v.lower_bound), ope_ciphertext(ope_key, v.upper_bound)) {
        (Some(lower_bound), Some(upper_bound)) => {
            if exists|a: [u8; 24], b: [u8; 24]|
                a@ == sealed_u64(v.lower_bound, client_key) && b@ == sealed_u64(
                    v.upper_bound,
                    client_key,
                ) {
                let (a, b) = choose|a: [u8; 24], b: [u8; 24]|
                    a@ == sealed_u64(v.lower_bound, client_key) && b@ == sealed_u64(
                        v.upper_bound,
                        client_key,
                    );
                Some(
                    EncryptedSensorValue {
                        lower_bound,
                        upper_bound,
                        enc_lower_bound: a,
                        enc_upper_bound: b,
                    },
                )
            } else {
                None
            }
        },
        _ => None,
    }
    }
}

/// A reading that `SensorValue::generate` can give: an honest sensor's
/// interval is centred on the measured value with a half-width from 1 to
/// 4999; a malicious sensor's bounds are any 16-bit numbers.
pub open spec fn generated_reading(v: SensorValue, faulty: bool) -> bool {
    if faulty {
        v.lower_bound <= u16::MAX && v.upper_bound <= u16::MAX
    } else {
        &&& 1 <= MEASURED_VALUE - v.lower_bound < 5000
        &&& v.upper_bound - MEASURED_VALUE == MEASURED_VALUE - v.lower_bound
    }
}

impl SensorValue {
    /// The honest reading for an interval half-width of `interval_size`.
    pub fn from_interval_size(interval_size: u64) -> (r: SensorValue)
        requires
            interval_size <= MEASURED_VALUE,
        ensures
            r.lower_bound == MEASURED_VALUE - interval_size,
            r.upper_bound == MEASURED_VALUE + interval_size,
    {
        SensorValue {
            lower_bound: MEASURED_VALUE - interval_size,
            upper_bound: MEASURED_VALUE + interval_size,
        }
    }

    /// The reading of a malicious sensor: two arbitrary 16-bit bounds.
    pub fn from_random_bounds(lower: u16, upper: u16) -> (r: SensorValue)
        ensures
            r.lower_bound == lower,
            r.upper_bound == upper,
    {
        SensorValue { lower_bound: lower as u64, upper_bound: upper as u64 }
    }

    /// Generates a reading: an honest sensor reports the measured value with
    /// a random half-width between 1 and 4999 (so that the width of the
    /// ciphertext interval tells little); a malicious one reports two random
    /// 16-bit bounds.
    pub fn generate(faulty: bool) -> (r: SensorValue)
        ensures
            generated_reading(r, faulty),
    {
        if faulty {
            return Self::_generate_faulty();
        }
        let interval_size = random_in_range(1, 5000);
        Self::from_interval_size(interval_size)
    }

    fn _generate_faulty() -> (r: SensorValue)
        ensures
            r.lower_bound <= u16::MAX && r.upper_bound <= u16::MAX,
    {
        let lower_bound = random_u16();
        let upper_bound = random_u16();
        Self::from_random_bounds(lower_bound, upper_bound)
    }

    /// Encrypts the reading: each bound under order-preserving encryption
    /// with `ope_key` for the collector, and under ChaCha20Poly1305 with
    /// `client_key` for the client. Order-preserving encryption keeps a lower
    /// bound below its upper bound, and each ciphertext in the order of all
    /// plaintexts of its domain under the same key.
    pub fn encrypt(self, ope_key: [u8; 16], client_key: &[u8; 32]) -> (r: EncryptedSensorValue)
        requires
            self.lower_bound <= OPE_MAX_PLAINTEXT,
            self.upper_bound <= OPE_MAX_PLAINTEXT,
            ope_ciphertext(ope_key@, self.lower_bound) is Some,
            ope_ciphertext(ope_key@, self.upper_bound) is Some,
        ensures
            encrypted_value(self, ope_key@, client_key@) == Some(r),
            Some(r.lower_bound) == ope_ciphertext(ope_key@, self.lower_bound),
            Some(r.upper_bound) == ope_ciphertext(ope_key@, self.upper_bound),
            r.enc_lower_bound@ == sealed_u64(self.lower_bound, client_key@),
            r.enc_upper_bound@ == sealed_u64(self.upper_bound, client_key@),
            self.lower_bound < self.upper_bound ==> r.lower_bound < r.upper_bound,
            keeps_order(ope_key@, self.lower_bound, r.lower_bound),
            keeps_order(ope_key@, self.upper_bound, r.upper_bound),
    {
        let lower_bound = match ope_encrypt(&ope_key, self.lower_bound) {
            Some(c) => c,
            None => 0,
        };
        let upper_bound = match ope_encrypt(&ope_key, self.upper_bound) {
            Some(c) => c,
            None => 0,
        };
        let enc_lower_bound = match encrypt_u64(self.lower_bound, client_key) {
            Ok(c) => c,
            Err(_) => [0u8; 24],
        };
        let enc_upper_bound = match encrypt_u64(self.upper_bound, client_key) {
            Ok(c) => c,
            Err(_) => [0u8; 24],
        };
        let r = EncryptedSensorValue { lower_bound, upper_bound, enc_lower_bound, enc_upper_bound };
        proof {
            let (a, b) = choose|a: [u8; 24], b: [u8; 24]|
                a@ == sealed_u64(self.lower_bound, client_key@) && b@ == sealed_u64(
                    self.upper_bound,
                    client_key@,
                );
            assert(a =~= enc_lower_bound);
            assert(b =~= enc_upper_bound);
        }
        r
    }

    /// Encrypts the reading as `encrypt` does, or gives `None` where a bound
    /// lies outside the domain of the order-preserving encryption or that
    /// encryption refuses it.
    pub fn try_encrypt(self, ope_key: [u8; 16], client_key: &[u8; 32]) -> (r: Option<
        EncryptedSensorValue,
    >)
        ensures
            r == encrypted_value(self, ope_key@, client_key@),
            r matches Some(e) ==> keeps_order(ope_key@, self.lower_bound, e.lower_bound),
            r matches Some(e) ==> keeps_order(ope_key@, self.upper_bound, e.upper_bound),
    {
        if self.lower_bound > OPE_MAX_PLAINTEXT || self.upper_bound > OPE_MAX_PLAINTEXT {
            return None;
        }
        let lower = ope_encrypt(&ope_key, self.lower_bound);
        let upper = ope_encrypt(&ope_key, self.upper_bound);
        if lower.is_some() && upper.is_some() {
            Some(self.encrypt(ope_key, client_key))
        } else {
            None
        }
    }
}

} // verus!
