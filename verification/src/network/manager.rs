use vstd::prelude::*;

use crate::network::packet::request_sensor_data_packet::RequestSensorDataPacket;
use crate::network::packet::sensor_data_reply_packet::SensorDataReplyPacket;
use crate::network::packet::{key_view, Packet, PacketError};

verus! {

/// A packet read from the network.
#[derive(PartialEq, Eq, Debug, Clone, Copy)]
pub enum Packets {
    RequestSensorData(RequestSensorDataPacket),
    SensorDataReply(SensorDataReplyPacket),
}

/// Why a server or the collector could not use a packet it received.
#[derive(PartialEq, Eq, Debug, Clone, Copy)]
pub enum HandleError {
    /// The bytes are not a packet.
    Packet(PacketError),
    /// The packet is well formed but not one this end answers.
    UnhandledPacket,
    /// The order-preserving encryption refused a bound of the reading.
    EncryptionRefused,
}

/// Frames packets for the wire and reads them back.
pub struct PacketManager {}

/// What `decode_packet` reads as a `T` from the bytes after the id.
pub open spec fn decoded_body<T: Packet>(body: Seq<u8>, key: Option<Seq<u8>>) -> Result<T, PacketError> {
    if body.len() != T::spec_size() {
        Err(
            PacketError::SizeMismatch {
                packet_id: T::spec_packet_id(),
                expected: T::spec_size() as usize,
                actual: body.len() as usize,
            },
        )
    } else {
        T::decoded(body, key)
    }
}

/// What `handle_packet` reads from `data`: the id byte selects the packet,
/// whose body must fill the rest exactly.
pub open spec fn parsed_packet(data: Seq<u8>, key: Option<Seq<u8>>) -> Result<Packets, PacketError> {
    if data.len() == 0 {
        Err(PacketError::MissingPacketId)
    } else {
        let body = data.subrange(1, data.len() as int);
        if data[0] == 0x00 {
            match decoded_body::<RequestSensorDataPacket>(body, key) {
                Ok(p) => Ok(Packets::RequestSensorData(p)),
                Err(e) => Err(e),
            }
        } else if data[0] == 0x01 {
            match decoded_body::<SensorDataReplyPacket>(body, key) {
                Ok(p) => Ok(Packets::SensorDataReply(p)),
                Err(e) => Err(e),
            }
        } else {
            Err(PacketError::UnhandledPacket { packet_id: data[0] })
        }
    }
}

/// The inputs on which `handle_packet` can run: a complete reply needs a key.
pub open spec fn handle_packet_requires(data: Seq<u8>, key: Option<Seq<u8>>) -> bool {
    !(data.len() == 93 && data[0] == 0x01 && key is None)
}

impl PacketManager {
    /// Transforms a packet to its wire form: its id, then its body.
    pub fn construct_packet<T: Packet>(packet: T, key: Option<&[u8; 32]>) -> (buf: Vec<u8>)
        requires
            T::encode_requires(key_view(key)),
        ensures
            buf@.len() >= 1,
            buf@[0] == T::spec_packet_id(),
            packet.encodes_as(buf@.subrange(1, buf@.len() as int), key_view(key)),
    {
        let mut buf: Vec<u8> = Vec::new();
        buf.push(T::packet_id());
        packet.encode(&mut buf, key);
        assert(buf@[0] == buf@.subrange(0, 1)[0]);
        buf
    }

    /// Decodes a packet from the bytes after its id, which must be exactly
    /// the packet's size.
    fn decode_packet<T: Packet>(rdr: &[u8], key: Option<&[u8; 32]>) -> (r: Result<T, PacketError>)
        requires
            rdr@.len() == T::spec_size() ==> T::decode_requires(rdr@, key_view(key)),
        ensures
            r == decoded_body::<T>(rdr@, key_view(key)),
            forall|p: T|
                rdr@.len() == T::spec_size() && #[trigger] p.encodes_as(rdr@, key_view(key)) ==> r
                    == Ok::<T, PacketError>(p),
    {
        let expected_size = T::size();
        let readable_bytes = rdr.len();
        // Check whether the buffer size matches the expected packet size
        if readable_bytes != expected_size {
            return Err(
                PacketError::SizeMismatch {
                    packet_id: T::packet_id(),
                    expected: expected_size,
                    actual: readable_bytes,
                },
            );
        }
        // Create new packet and decode
        let mut packet = T::new();
        match packet.decode(rdr, key) {
            Ok(()) => Ok(packet),
            Err(e) => Err(e),
        }
    }

    /// Reads a packet from bytes received from the network. Whatever
    /// `construct_packet` framed under the same key reads back as the packet
    /// that was framed.
    pub fn handle_packet(rdr: &[u8], key: Option<&[u8; 32]>) -> (r: Result<Packets, PacketError>)
        requires
            handle_packet_requires(rdr@, key_view(key)),
        ensures
            r == parsed_packet(rdr@, key_view(key)),
            forall|p: RequestSensorDataPacket|
                rdr@.len() >= 1 && rdr@[0] == 0x00 && #[trigger] p.encodes_as(
                    rdr@.subrange(1, rdr@.len() as int),
                    key_view(key),
                ) ==> r == Ok::<Packets, PacketError>(Packets::RequestSensorData(p)),
            forall|p: SensorDataReplyPacket|
                rdr@.len() >= 1 && rdr@[0] == 0x01 && #[trigger] p.encodes_as(
                    rdr@.subrange(1, rdr@.len() as int),
                    key_view(key),
                ) ==> r == Ok::<Packets, PacketError>(Packets::SensorDataReply(p)),
    {
        if rdr.len() == 0 {
            return Err(PacketError::MissingPacketId);
        }
        let packet_id = rdr[0];
        let body = &rdr[1..rdr.len()];
        assert(body@ == rdr@.subrange(1, rdr@.len() as int));
        if packet_id == 0x00 {
            let r = Self::decode_packet::<RequestSensorDataPacket>(body, key);
            match r {
                Ok(packet) => Ok(Packets::RequestSensorData(packet)),
                Err(e) => Err(e),
            }
        } else if packet_id == 0x01 {
            let r = Self::decode_packet::<SensorDataReplyPacket>(body, key);
            match r {
                Ok(packet) => Ok(Packets::SensorDataReply(packet)),
                Err(e) => Err(e),
            }
        } else {
            Err(PacketError::UnhandledPacket { packet_id })
        }
    }
}

} // verus!
