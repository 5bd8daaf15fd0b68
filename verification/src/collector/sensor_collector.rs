use vstd::prelude::*;

use crate::collector::fault_tolerant_handler::{
    counts_fit_i8, event_list, marzullo, sort_by_key, FaultTolerantHandler,
};
use crate::data::encrypted_sensor_value::EncryptedSensorValue;
use crate::network::manager::{parsed_packet, HandleError, PacketManager, Packets};
use crate::network::packet::request_sensor_data_packet::RequestSensorDataPacket;
use crate::network::packet::{key_view, Packet};

verus! {

/// The sensors that the collector asks, each with the key of its link.
pub struct SensorCollector<'a> {
    pub sensors: Vec<&'a str>,
    pub keys: Vec<[u8; 32]>,
}

impl<'a> SensorCollector<'a> {
    pub fn new(address_list: Vec<&'a str>, key_list: Vec<[u8; 32]>) -> (r: Self)
        ensures
            r.sensors@ == address_list@,
            r.keys@ == key_list@,
    {
        SensorCollector { sensors: address_list, keys: key_list }
    }

    /// The request sent to sensor `idx`: the id of a request for data, then
    /// the seed.
    pub fn request_packet(&self, idx: usize, seed: [u8; 4]) -> (r: Vec<u8>)
        requires
            idx < self.keys@.len(),
        ensures
            r@ == seq![0x00u8] + seed@,
    {
        let key = &self.keys[idx];
        let r = PacketManager::construct_packet(RequestSensorDataPacket { seed }, Some(key));
        assert(r@ =~= seq![0x00u8] + seed@);
        r
    }

    /// Reads the answer of sensor `idx`, opened under that sensor's key: it
    /// must be a reply packet, whose value is returned.
    pub fn read_reply(&self, idx: usize, rdr: &[u8]) -> (r: Result<EncryptedSensorValue, HandleError>)
        requires
            idx < self.keys@.len(),
        ensures
            parsed_packet(rdr@, Some(self.keys@[idx as int]@)) matches Err(e) ==> r == Err::<
                EncryptedSensorValue,
                HandleError,
            >(HandleError::Packet(e)),
            parsed_packet(rdr@, Some(self.keys@[idx as int]@)) matches Ok(
                Packets::RequestSensorData(_),
            ) ==> r == Err::<EncryptedSensorValue, HandleError>(HandleError::UnhandledPacket),
            parsed_packet(rdr@, Some(self.keys@[idx as int]@)) matches Ok(
                Packets::SensorDataReply(p),
            ) ==> r == Ok::<EncryptedSensorValue, HandleError>(p.encrypted_value),
    {
        let key = &self.keys[idx];
        let wrapped_packet = PacketManager::handle_packet(rdr, Some(key));
        match wrapped_packet {
            Ok(Packets::SensorDataReply(packet)) => Ok(packet.encrypted_value),
            Ok(Packets::RequestSensorData(_)) => Err(HandleError::UnhandledPacket),
            Err(e) => Err(HandleError::Packet(e)),
        }
    }

    /// Runs Marzullo's algorithm over the readings that arrived.
    pub fn fuse(results: Vec<EncryptedSensorValue>) -> (r: Option<EncryptedSensorValue>)
        requires
            counts_fit_i8(sort_by_key(event_list(results@))),
        ensures
            r == marzullo(results@),
    {
        FaultTolerantHandler { results }.calculate_marzullo()
    }
}

} // verus!
