use vstd::prelude::*;

use crate::data::encrypted_sensor_value::EncryptedSensorValue;
use crate::network::manager::{handle_packet_requires, parsed_packet, HandleError, PacketManager, Packets};
use crate::network::packet::sensor_data_reply_packet::SensorDataReplyPacket;
use crate::network::packet::{key_view, Packet};

verus! {

/// The collector's side towards the client.
pub struct CollectorServer {
    pub port: u16,
}

impl CollectorServer {
    /// Handles one packet from the client: a request for data gives the seed
    /// with which the sensors are to be asked; any other packet is refused.
    pub fn handle_packet(&self, rdr: &[u8]) -> (r: Result<[u8; 4], HandleError>)
        requires
            handle_packet_requires(rdr@, None),
        ensures
            parsed_packet(rdr@, None) matches Err(e) ==> r == Err::<[u8; 4], HandleError>(
                HandleError::Packet(e),
            ),
            parsed_packet(rdr@, None) matches Ok(Packets::SensorDataReply(_)) ==> r == Err::<
                [u8; 4],
                HandleError,
            >(HandleError::UnhandledPacket),
            parsed_packet(rdr@, None) matches Ok(Packets::RequestSensorData(p)) ==> r == Ok::<
                [u8; 4],
                HandleError,
            >(p.seed),
    {
        let no_key: Option<&[u8; 32]> = None;
        let mapped_packet = PacketManager::handle_packet(rdr, no_key);
        assert(key_view(no_key) == None::<Seq<u8>>);
        match mapped_packet {
            Err(e) => Err(HandleError::Packet(e)),
            Ok(Packets::RequestSensorData(packet)) => Ok(packet.seed),
            Ok(Packets::SensorDataReply(_)) => Err(HandleError::UnhandledPacket),
        }
    }

    /// The answer to the client once the sensors were collected: the optimal
    /// interval in a reply packet sealed under the client's key, or nothing
    /// where Marzullo's algorithm found no interval.
    pub fn answer(&self, result: Option<EncryptedSensorValue>, client_key: &[u8; 32]) -> (r: Option<Vec<u8>>)
        ensures
            r is None <==> result is None,
            r matches Some(bytes) ==> {
                &&& bytes@.len() >= 1
                &&& bytes@[0] == 0x01
                &&& (SensorDataReplyPacket { encrypted_value: result->Some_0 }).encodes_as(
                    bytes@.subrange(1, bytes@.len() as int),
                    Some(client_key@),
                )
            },
    {
        match result {
            None => None,
            Some(optimal) => {
                let encoded = PacketManager::construct_packet(
                    SensorDataReplyPacket { encrypted_value: optimal },
                    Some(client_key),
                );
                Some(encoded)
            },
        }
    }
}

} // verus!
