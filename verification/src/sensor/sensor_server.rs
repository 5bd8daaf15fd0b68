use vstd::prelude::*;

use crate::data::encrypted_sensor_value::EncryptedSensorValue;
use crate::data::sensor_value::{encrypted_value, generated_reading, keeps_order, SensorValue};
use crate::network::manager::{handle_packet_requires, parsed_packet, HandleError, PacketManager, Packets};
use crate::network::packet::sensor_data_reply_packet::SensorDataReplyPacket;
use crate::network::packet::{key_view, Packet};
use crate::utils::crypt_utils::combine_keys;

verus! {

/// A sensor: answers each request for data with a fresh, encrypted reading.
pub struct SensorServer {
    pub port: u16,
    pub faulty: bool,
    pub collector_key: [u8; 32],
    pub e2e_key: [u8; 32],
}

/// The fixed part of the order-preserving key, after the request's seed.
pub fn sensor_key_suffix() -> (r: [u8; 12])
    ensures
        r@ == sensor_key_suffix_spec(),
{
    let r = [115u8, 101, 99, 114, 101, 116, 95, 115, 101, 110, 115, 111];
    assert(r@ =~= sensor_key_suffix_spec());
    r
}

/// The ASCII bytes of `secret_senso`.
pub open spec fn sensor_key_suffix_spec() -> Seq<u8> {
    seq![115u8, 101u8, 99u8, 114u8, 101u8, 116u8, 95u8, 115u8, 101u8, 110u8, 115u8, 111u8]
}

impl SensorServer {
    /// Encrypts `value` for the request with this `seed`: the order-preserving
    /// key is the seed followed by the fixed suffix, the end-to-end key is the
    /// one shared with the client.
    pub fn reply_value(&self, seed: [u8; 4], value: SensorValue) -> (r: Option<EncryptedSensorValue>)
        ensures
            r == encrypted_value(value, seed@ + sensor_key_suffix_spec(), self.e2e_key@),
            r matches Some(e) ==> keeps_order(
                seed@ + sensor_key_suffix_spec(),
                value.lower_bound,
                e.lower_bound,
            ),
            r matches Some(e) ==> keeps_order(
                seed@ + sensor_key_suffix_spec(),
                value.upper_bound,
                e.upper_bound,
            ),
    {
        let combined: [u8; 16] = combine_keys(sensor_key_suffix(), seed);
        assert(combined@ == seed@ + sensor_key_suffix_spec());
        value.try_encrypt(combined, &self.e2e_key)
    }

    /// Handles one packet received by the sensor. A request for data is
    /// answered with a reply packet, sealed under the collector's key, that
    /// carries a freshly generated reading encrypted for this request; any
    /// other packet is refused.
    pub fn handle_packet(&self, rdr: &[u8]) -> (r: Result<Vec<u8>, HandleError>)
        requires
            handle_packet_requires(rdr@, None),
        ensures
            parsed_packet(rdr@, None) matches Err(e) ==> r == Err::<Vec<u8>, HandleError>(
                HandleError::Packet(e),
            ),
            parsed_packet(rdr@, None) matches Ok(Packets::SensorDataReply(_)) ==> r == Err::<
                Vec<u8>,
                HandleError,
            >(HandleError::UnhandledPacket),
            parsed_packet(rdr@, None) matches Ok(Packets::RequestSensorData(p)) ==> exists|
                v: SensorValue,
            |
                #![trigger generated_reading(v, self.faulty)]
                {
                    &&& generated_reading(v, self.faulty)
                    &&& match encrypted_value(v, p.seed@ + sensor_key_suffix_spec(), self.e2e_key@) {
                        None => r == Err::<Vec<u8>, HandleError>(HandleError::EncryptionRefused),
                        Some(ev) => r matches Ok(bytes) && bytes@.len() >= 1 && bytes@[0] == 0x01
                            && (SensorDataReplyPacket { encrypted_value: ev }).encodes_as(
                            bytes@.subrange(1, bytes@.len() as int),
                            Some(self.collector_key@),
                        ),
                    }
                },
    {
        let no_key: Option<&[u8; 32]> = None;
        let mapped_packet = PacketManager::handle_packet(rdr, no_key);
        assert(key_view(no_key) == None::<Seq<u8>>);
        match mapped_packet {
            Err(e) => Err(HandleError::Packet(e)),
            Ok(Packets::RequestSensorData(packet)) => {
                let value = SensorValue::generate(self.faulty);
                assert(generated_reading(value, self.faulty));
                match self.reply_value(packet.seed, value) {
                    None => Err(HandleError::EncryptionRefused),
                    Some(encrypted_value) => {
                        let encoded = PacketManager::construct_packet(
                            SensorDataReplyPacket { encrypted_value },
                            Some(&self.collector_key),
                        );
                        Ok(encoded)
                    },
                }
            },
            Ok(Packets::SensorDataReply(_)) => Err(HandleError::UnhandledPacket),
        }
    }
}

} // verus!
