use vstd::prelude::*;

use crate::network::packet::{key_view, Packet, PacketError};

verus! {

/// Asks a sensor (or the collector) for a reading; the seed enters the key of
/// the order-preserving encryption.
#[derive(PartialEq, Eq, Debug, Clone, Copy)]
pub struct RequestSensorDataPacket {
    pub seed: [u8; 4],
}

impl Packet for RequestSensorDataPacket {
    open spec fn spec_packet_id() -> u8 {
        0x00
    }

    open spec fn spec_size() -> nat {
        4
    }

    /// The body is the seed.
    open spec fn encodes_as(&self, bytes: Seq<u8>, key: Option<Seq<u8>>) -> bool {
        bytes == self.seed@
    }

    /// The seed is the first four bytes; fewer bytes are refused.
    open spec fn decoded(data: Seq<u8>, key: Option<Seq<u8>>) -> Result<Self, PacketError> {
        if data.len() < 4 {
            Err(PacketError::ShortRead)
        } else {
            Ok(choose|p: RequestSensorDataPacket| p.seed@ == data.subrange(0, 4))
        }
    }

    open spec fn encode_requires(key: Option<Seq<u8>>) -> bool {
        true
    }

    open spec fn decode_requires(data: Seq<u8>, key: Option<Seq<u8>>) -> bool {
        true
    }

    open spec fn is_blank(&self) -> bool {
        self.seed@ == seq![0u8, 0u8, 0u8, 0u8]
    }

    fn packet_id() -> (r: u8) {
        0x00
    }

    fn encode(&self, buf: &mut Vec<u8>, _key: Option<&[u8; 32]>) {
        let ghost old_len = buf@.len();
        buf.extend_from_slice(&self.seed);
        assert(buf@.subrange(0, old_len as int) =~= old(buf)@);
        assert(buf@.subrange(old_len as int, buf@.len() as int) =~= self.seed@);
    }

    fn decode(&mut self, data: &[u8], _key: Option<&[u8; 32]>) -> (r: Result<(), PacketError>) {
        if data.len() < 4 {
            return Err(PacketError::ShortRead);
        }
        let seed = [data[0], data[1], data[2], data[3]];
        self.seed = seed;
        proof {
            assert(self.seed@ =~= data@.subrange(0, 4));
            let c = choose|p: RequestSensorDataPacket| p.seed@ == data@.subrange(0, 4);
            assert(c.seed =~= self.seed);
            assert forall|p: RequestSensorDataPacket| #[trigger] p.encodes_as(data@, key_view(_key)) implies Self::decoded(data@, key_view(_key)) == Ok::<Self, PacketError>(p) by {
                assert(p.seed =~= self.seed);
            }
        }
        Ok(())
    }

    fn new() -> (r: Self) {
        let r = RequestSensorDataPacket { seed: [0, 0, 0, 0] };
        assert(r.seed@ =~= seq![0u8, 0u8, 0u8, 0u8]);
        r
    }

    fn size() -> (r: usize) {
        4
    }
}

} // verus!
