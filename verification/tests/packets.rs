use sf_ope::data::encrypted_sensor_value::EncryptedSensorValue;
use sf_ope::network::manager::{PacketManager, Packets};
use sf_ope::network::packet::request_sensor_data_packet::RequestSensorDataPacket;
use sf_ope::network::packet::sensor_data_reply_packet::SensorDataReplyPacket;
use sf_ope::network::packet::{Packet, PacketError};

const KEY: [u8; 32] = *b"0123456789abcdef0123456789abcdef";
const OTHER_KEY: [u8; 32] = *b"fedcba9876543210fedcba9876543210";

fn value() -> EncryptedSensorValue {
    EncryptedSensorValue {
        lower_bound: 123456,
        upper_bound: 654321,
        enc_lower_bound: [7u8; 24],
        enc_upper_bound: [9u8; 24],
    }
}

#[test]
fn request_packet_is_id_then_seed() {
    let bytes = PacketManager::construct_packet(RequestSensorDataPacket { seed: [9, 8, 7, 6] }, None);
    assert_eq!(bytes, vec![0x00, 9, 8, 7, 6]);
    let keyed = PacketManager::construct_packet(RequestSensorDataPacket { seed: [9, 8, 7, 6] }, Some(&KEY));
    assert_eq!(keyed, bytes);
}

#[test]
fn request_packet_round_trips() {
    let packet = RequestSensorDataPacket { seed: [1, 2, 3, 4] };
    let bytes = PacketManager::construct_packet(packet, None);
    assert_eq!(PacketManager::handle_packet(&bytes, None), Ok(Packets::RequestSensorData(packet)));
}

#[test]
fn reply_packet_round_trips_under_its_key() {
    let packet = SensorDataReplyPacket { encrypted_value: value() };
    let bytes = PacketManager::construct_packet(packet, Some(&KEY));
    assert_eq!(bytes.len(), 93);
    assert_eq!(bytes[0], 0x01);
    assert_eq!(PacketManager::handle_packet(&bytes, Some(&KEY)), Ok(Packets::SensorDataReply(packet)));
}

#[test]
fn reply_packet_hides_the_value() {
    let packet = SensorDataReplyPacket { encrypted_value: value() };
    let bytes = PacketManager::construct_packet(packet, Some(&KEY));
    let mut plain = Vec::new();
    value().encode(&mut plain);
    assert!(!bytes.windows(24).any(|w| w == &[7u8; 24]));
    assert_ne!(&bytes[13..77], &plain[..]);
    // Fresh nonces: the same packet is sealed differently each time.
    let again = PacketManager::construct_packet(packet, Some(&KEY));
    assert_ne!(bytes, again);
}

#[test]
fn reply_packet_under_another_key_is_refused() {
    let bytes = PacketManager::construct_packet(SensorDataReplyPacket { encrypted_value: value() }, Some(&KEY));
    assert_eq!(PacketManager::handle_packet(&bytes, Some(&OTHER_KEY)), Err(PacketError::DecryptionFailed));
}

#[test]
fn handle_packet_refuses_bad_framing() {
    assert_eq!(PacketManager::handle_packet(&[], None), Err(PacketError::MissingPacketId));
    assert_eq!(
        PacketManager::handle_packet(&[0x07, 1, 2], None),
        Err(PacketError::UnhandledPacket { packet_id: 7 })
    );
    assert_eq!(
        PacketManager::handle_packet(&[0x00, 1, 2, 3], None),
        Err(PacketError::SizeMismatch { packet_id: 0, expected: 4, actual: 3 })
    );
    assert_eq!(
        PacketManager::handle_packet(&[0x00, 1, 2, 3, 4, 5], None),
        Err(PacketError::SizeMismatch { packet_id: 0, expected: 4, actual: 5 })
    );
    assert_eq!(
        PacketManager::handle_packet(&[0x01; 40], Some(&KEY)),
        Err(PacketError::SizeMismatch { packet_id: 1, expected: 92, actual: 39 })
    );
}

#[test]
fn packet_sizes_and_ids() {
    assert_eq!(RequestSensorDataPacket::packet_id(), 0x00);
    assert_eq!(RequestSensorDataPacket::size(), 4);
    assert_eq!(SensorDataReplyPacket::packet_id(), 0x01);
    assert_eq!(SensorDataReplyPacket::size(), 92);
    assert_eq!(RequestSensorDataPacket::new(), RequestSensorDataPacket { seed: [0; 4] });
    assert_eq!(
        SensorDataReplyPacket::new().encrypted_value,
        EncryptedSensorValue { lower_bound: 0, upper_bound: 0, enc_lower_bound: [0; 24], enc_upper_bound: [0; 24] }
    );
}

#[test]
fn decode_leaves_packet_unchanged_on_short_input() {
    let mut packet = RequestSensorDataPacket { seed: [5, 5, 5, 5] };
    assert_eq!(packet.decode(&[1, 2], None), Err(PacketError::ShortRead));
    assert_eq!(packet.seed, [5, 5, 5, 5]);
    assert_eq!(packet.decode(&[1, 2, 3, 4, 99], None), Ok(()));
    assert_eq!(packet.seed, [1, 2, 3, 4]);

    let mut reply = SensorDataReplyPacket { encrypted_value: value() };
    assert_eq!(reply.decode(&[0u8; 50], None), Err(PacketError::ShortRead));
    assert_eq!(reply.encrypted_value, value());
    assert_eq!(reply.decode(&[0u8; 92], Some(&KEY)), Err(PacketError::DecryptionFailed));
    assert_eq!(reply.encrypted_value, value());
}

#[test]
fn encode_with_nonce_is_nonce_then_sealed_value() {
    let packet = SensorDataReplyPacket { encrypted_value: value() };
    let mut buf = vec![0x01];
    packet.encode_with_nonce(&mut buf, &KEY, [3u8; 12]);
    assert_eq!(buf.len(), 93);
    assert_eq!(&buf[1..13], &[3u8; 12]);
    let mut again = vec![0x01];
    packet.encode_with_nonce(&mut again, &KEY, [3u8; 12]);
    assert_eq!(buf, again);
    assert_eq!(PacketManager::handle_packet(&buf, Some(&KEY)), Ok(Packets::SensorDataReply(packet)));
}
