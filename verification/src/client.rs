use vstd::prelude::*;

use crate::data::encrypted_sensor_value::decrypted_value;
use crate::data::sensor_value::SensorValue;
use crate::network::manager::Packets;

verus! {

/// Why the client could not read the collector's answer.
#[derive(PartialEq, Eq, Debug, Clone, Copy)]
pub enum ClientError {
    /// The answer is not a reply carrying a sensor value.
    InvalidPacket,
    /// The end-to-end ciphertexts do not authenticate under the client's key.
    DecryptionFailed,
}

/// What the client reads from the collector's answer: the interval of a
/// reply packet, decrypted with the end-to-end key.
pub fn read_optimal_value(packet: &Packets, e2e_key: &[u8; 32]) -> (r: Result<SensorValue, ClientError>)
    ensures
        match packet {
            Packets::SensorDataReply(p) => match decrypted_value(p.encrypted_value, e2e_key@) {
                Some(v) => r == Ok::<SensorValue, ClientError>(v),
                None => r == Err::<SensorValue, ClientError>(ClientError::DecryptionFailed),
            },
            Packets::RequestSensorData(_) => r == Err::<SensorValue, ClientError>(
                ClientError::InvalidPacket,
            ),
        },
{
    match packet {
        Packets::SensorDataReply(p) => match p.encrypted_value.try_decrypt(e2e_key) {
            Some(v) => Ok(v),
            None => Err(ClientError::DecryptionFailed),
        },
        Packets::RequestSensorData(_) => Err(ClientError::InvalidPacket),
    }
}

} // verus!
