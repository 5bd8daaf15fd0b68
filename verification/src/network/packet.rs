pub mod request_sensor_data_packet;
pub mod sensor_data_reply_packet;

use vstd::prelude::*;

verus! {

/// Why bytes received from the network could not be read as a packet.
#[derive(PartialEq, Eq, Debug, Clone, Copy)]
pub enum PacketError {
    /// There was no byte to hold the packet id.
    MissingPacketId,
    /// The bytes after the id do not have the length the packet needs.
    SizeMismatch { packet_id: u8, expected: usize, actual: usize },
    /// No packet has this id.
    UnhandledPacket { packet_id: u8 },
    /// Fewer bytes than a field needs.
    ShortRead,
    /// The encrypted payload did not authenticate under the key.
    DecryptionFailed,
    /// The decrypted payload is not the 64 bytes of an encrypted sensor value.
    ValueSizeMismatch { actual: usize },
}

/// The bytes of an optional key.
pub open spec fn key_view(key: Option<&[u8; 32]>) -> Option<Seq<u8>> {
    match key {
        Some(k) => Some(k@),
        None => None,
    }
}

/// A message of the sensor network: an id byte followed by a body of fixed
/// size.
pub trait Packet: Sized {
    /// The id byte sent before the body.
    spec fn spec_packet_id() -> u8;

    /// The length of the body.
    spec fn spec_size() -> nat;

    /// `bytes` is a body that `encode` may write for `self` under `key`.
    spec fn encodes_as(&self, bytes: Seq<u8>, key: Option<Seq<u8>>) -> bool;

    /// What `decode` reads from `data` under `key`.
    spec fn decoded(data: Seq<u8>, key: Option<Seq<u8>>) -> Result<Self, PacketError>;

    /// The keys under which `encode` can run.
    spec fn encode_requires(key: Option<Seq<u8>>) -> bool;

    /// The inputs on which `decode` can run.
    spec fn decode_requires(data: Seq<u8>, key: Option<Seq<u8>>) -> bool;

    /// `self` is the packet that `new` makes.
    spec fn is_blank(&self) -> bool;

    fn packet_id() -> (r: u8)
        ensures
            r == Self::spec_packet_id(),
    ;

    /// Appends the body of the packet to `buf`.
    fn encode(&self, buf: &mut Vec<u8>, key: Option<&[u8; 32]>)
        requires
            Self::encode_requires(key_view(key)),
        ensures
            old(buf)@.len() <= final(buf)@.len(),
            final(buf)@.subrange(0, old(buf)@.len() as int) == old(buf)@,
            self.encodes_as(final(buf)@.subrange(old(buf)@.len() as int, final(buf)@.len() as int), key_view(key)),
    ;

    /// Reads the body from the start of `data` into `self`; on an error `self`
    /// is left as it was. A body that `encode` wrote reads back as its packet.
    fn decode(&mut self, data: &[u8], key: Option<&[u8; 32]>) -> (r: Result<(), PacketError>)
        requires
            Self::decode_requires(data@, key_view(key)),
        ensures
            match Self::decoded(data@, key_view(key)) {
                Ok(p) => r is Ok && *final(self) == p,
                Err(e) => r == Err::<(), PacketError>(e) && *final(self) == *old(self),
            },
            forall|p: Self| #[trigger] p.encodes_as(data@, key_view(key)) ==> Self::decoded(data@, key_view(key)) == Ok::<Self, PacketError>(p),
    ;

    fn new() -> (r: Self)
        ensures
            r.is_blank(),
    ;

    fn size() -> (r: usize)
        ensures
            r == Self::spec_size(),
    ;
}

} // verus!
