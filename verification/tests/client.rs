use sf_ope::client::{read_optimal_value, ClientError};
use sf_ope::data::encrypted_sensor_value::EncryptedSensorValue;
use sf_ope::data::sensor_value::SensorValue;
use sf_ope::network::manager::Packets;
use sf_ope::network::packet::request_sensor_data_packet::RequestSensorDataPacket;
use sf_ope::network::packet::sensor_data_reply_packet::SensorDataReplyPacket;
use sf_ope::utils::crypt_utils::encrypt_u64;

const E2E_KEY: [u8; 32] = *b"end-to-end-key-0123456789abcdefg";
const OTHER_KEY: [u8; 32] = *b"fedcba9876543210fedcba9876543210";

fn reply() -> Packets {
    Packets::SensorDataReply(SensorDataReplyPacket {
        encrypted_value: EncryptedSensorValue {
            lower_bound: 5,
            upper_bound: 6,
            enc_lower_bound: encrypt_u64(10400, &E2E_KEY).unwrap(),
            enc_upper_bound: encrypt_u64(10460, &E2E_KEY).unwrap(),
        },
    })
}

#[test]
fn client_decrypts_the_optimal_value() {
    assert_eq!(
        read_optimal_value(&reply(), &E2E_KEY),
        Ok(SensorValue { lower_bound: 10400, upper_bound: 10460 })
    );
}

#[test]
fn client_refuses_a_wrong_key_or_a_request() {
    assert_eq!(read_optimal_value(&reply(), &OTHER_KEY), Err(ClientError::DecryptionFailed));
    let request = Packets::RequestSensorData(RequestSensorDataPacket { seed: [1, 2, 3, 4] });
    assert_eq!(read_optimal_value(&request, &E2E_KEY), Err(ClientError::InvalidPacket));
}
