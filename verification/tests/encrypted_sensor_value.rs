use sf_ope::data::encrypted_sensor_value::EncryptedSensorValue;
use sf_ope::data::sensor_value::SensorValue;
use sf_ope::network::packet::PacketError;
use sf_ope::utils::crypt_utils::encrypt_u64;

const KEY: [u8; 32] = *b"0123456789abcdef0123456789abcdef";
const OTHER_KEY: [u8; 32] = *b"fedcba9876543210fedcba9876543210";

fn sample() -> EncryptedSensorValue {
    let mut enc_lower_bound = [0u8; 24];
    let mut enc_upper_bound = [0u8; 24];
    for i in 0..24 {
        enc_lower_bound[i] = i as u8;
        enc_upper_bound[i] = 100 + i as u8;
    }
    EncryptedSensorValue {
        lower_bound: 0x0102_0304_0506_0708,
        upper_bound: 0x1112_1314_1516_1718,
        enc_lower_bound,
        enc_upper_bound,
    }
}

#[test]
fn encode_writes_big_endian_bounds_then_ciphertexts() {
    let v = sample();
    let mut buf = vec![0xaa];
    v.encode(&mut buf);
    assert_eq!(buf.len(), 65);
    assert_eq!(buf[0], 0xaa);
    assert_eq!(&buf[1..9], &[1, 2, 3, 4, 5, 6, 7, 8]);
    assert_eq!(&buf[9..17], &[0x11, 0x12, 0x13, 0x14, 0x15, 0x16, 0x17, 0x18]);
    assert_eq!(&buf[17..41], &v.enc_lower_bound);
    assert_eq!(&buf[41..65], &v.enc_upper_bound);
}

#[test]
fn decode_reads_back_what_encode_wrote() {
    let v = sample();
    let mut buf = Vec::new();
    v.encode(&mut buf);
    assert_eq!(EncryptedSensorValue::decode(&buf), Ok(v));
}

#[test]
fn decode_refuses_other_lengths() {
    let v = sample();
    let mut buf = Vec::new();
    v.encode(&mut buf);
    assert_eq!(
        EncryptedSensorValue::decode(&buf[..63]),
        Err(PacketError::ValueSizeMismatch { actual: 63 })
    );
    buf.push(0);
    assert_eq!(
        EncryptedSensorValue::decode(&buf),
        Err(PacketError::ValueSizeMismatch { actual: 65 })
    );
    assert_eq!(
        EncryptedSensorValue::decode(&[]),
        Err(PacketError::ValueSizeMismatch { actual: 0 })
    );
}

#[test]
fn decrypt_recovers_the_plain_interval() {
    let v = EncryptedSensorValue {
        lower_bound: 7,
        upper_bound: 9,
        enc_lower_bound: encrypt_u64(10000, &KEY).unwrap(),
        enc_upper_bound: encrypt_u64(10860, &KEY).unwrap(),
    };
    let expected = SensorValue { lower_bound: 10000, upper_bound: 10860 };
    assert_eq!(v.decrypt(&KEY), expected);
    assert_eq!(v.try_decrypt(&KEY), Some(expected));
}

#[test]
fn try_decrypt_refuses_a_wrong_key() {
    let v = EncryptedSensorValue {
        lower_bound: 7,
        upper_bound: 9,
        enc_lower_bound: encrypt_u64(10000, &KEY).unwrap(),
        enc_upper_bound: encrypt_u64(10860, &KEY).unwrap(),
    };
    assert_eq!(v.try_decrypt(&OTHER_KEY), None);
    let mixed = EncryptedSensorValue { enc_upper_bound: encrypt_u64(1, &OTHER_KEY).unwrap(), ..v };
    assert_eq!(mixed.try_decrypt(&KEY), None);
}
