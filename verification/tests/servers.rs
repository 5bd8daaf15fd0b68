use sf_ope::collector::collector_server::CollectorServer;
use sf_ope::collector::sensor_collector::SensorCollector;
use sf_ope::data::encrypted_sensor_value::EncryptedSensorValue;
use sf_ope::data::sensor_value::MEASURED_VALUE;
use sf_ope::network::manager::{HandleError, PacketManager, Packets};
use sf_ope::network::packet::request_sensor_data_packet::RequestSensorDataPacket;
use sf_ope::network::packet::sensor_data_reply_packet::SensorDataReplyPacket;
use sf_ope::network::packet::PacketError;
use sf_ope::sensor::sensor_server::{sensor_key_suffix, SensorServer};

const COLLECTOR_KEY: [u8; 32] = *b"collector-key-0123456789abcdefgh";
const E2E_KEY: [u8; 32] = *b"end-to-end-key-0123456789abcdefg";
const CLIENT_KEY: [u8; 32] = *b"client-key-0123456789abcdefghijk";

fn sensor(faulty: bool) -> SensorServer {
    SensorServer { port: 13301, faulty, collector_key: COLLECTOR_KEY, e2e_key: E2E_KEY }
}

#[test]
fn key_suffix_is_secret_senso() {
    assert_eq!(&sensor_key_suffix(), b"secret_senso");
}

#[test]
fn sensor_answers_a_request_with_an_honest_encrypted_reading() {
    let request = PacketManager::construct_packet(RequestSensorDataPacket { seed: [1, 2, 3, 4] }, None);
    let reply = sensor(false).handle_packet(&request).unwrap();
    let value = match PacketManager::handle_packet(&reply, Some(&COLLECTOR_KEY)) {
        Ok(Packets::SensorDataReply(p)) => p.encrypted_value,
        other => panic!("unexpected {:?}", other),
    };
    assert!(value.lower_bound < value.upper_bound);
    let plain = value.try_decrypt(&E2E_KEY).unwrap();
    let half = MEASURED_VALUE - plain.lower_bound;
    assert!((1..5000).contains(&half));
    assert_eq!(plain.upper_bound - MEASURED_VALUE, half);
}

#[test]
fn sensor_refuses_other_packets() {
    let s = sensor(false);
    assert_eq!(s.handle_packet(&[]), Err(HandleError::Packet(PacketError::MissingPacketId)));
    assert_eq!(
        s.handle_packet(&[0x05]),
        Err(HandleError::Packet(PacketError::UnhandledPacket { packet_id: 5 }))
    );
    assert_eq!(
        s.handle_packet(&[0x01, 0, 0]),
        Err(HandleError::Packet(PacketError::SizeMismatch { packet_id: 1, expected: 92, actual: 2 }))
    );
}

#[test]
fn reply_value_encrypts_under_seed_and_suffix() {
    let s = sensor(false);
    let v = sf_ope::data::sensor_value::SensorValue { lower_bound: 10000, upper_bound: 10860 };
    let mut ope_key = [0u8; 16];
    ope_key[..4].copy_from_slice(&[4, 3, 2, 1]);
    ope_key[4..].copy_from_slice(b"secret_senso");
    assert_eq!(s.reply_value([4, 3, 2, 1], v), v.try_encrypt(ope_key, &E2E_KEY));
}

#[test]
fn collector_reads_the_seed_of_a_client_request() {
    let server = CollectorServer { port: 12999 };
    let request = PacketManager::construct_packet(RequestSensorDataPacket { seed: [5, 6, 7, 8] }, Some(&CLIENT_KEY));
    assert_eq!(server.handle_packet(&request), Ok([5, 6, 7, 8]));
    assert_eq!(
        server.handle_packet(&[0x00, 1]),
        Err(HandleError::Packet(PacketError::SizeMismatch { packet_id: 0, expected: 4, actual: 1 }))
    );
}

#[test]
fn collector_answers_only_with_a_result() {
    let server = CollectorServer { port: 12999 };
    assert_eq!(server.answer(None, &CLIENT_KEY), None);
    let optimal = EncryptedSensorValue { lower_bound: 1, upper_bound: 2, enc_lower_bound: [3; 24], enc_upper_bound: [4; 24] };
    let bytes = server.answer(Some(optimal), &CLIENT_KEY).unwrap();
    assert_eq!(
        PacketManager::handle_packet(&bytes, Some(&CLIENT_KEY)),
        Ok(Packets::SensorDataReply(SensorDataReplyPacket { encrypted_value: optimal }))
    );
}

#[test]
fn collector_fuses_sensor_replies() {
    let keys = vec![[1u8; 32], [2u8; 32], [3u8; 32]];
    let collector = SensorCollector::new(vec!["127.0.0.1:13301", "127.0.0.1:13302", "127.0.0.1:13303"], keys.clone());
    assert_eq!(collector.request_packet(1, [9, 9, 9, 9]), vec![0, 9, 9, 9, 9]);

    let mut results = Vec::new();
    for (idx, key) in keys.iter().enumerate() {
        let s = SensorServer { port: 0, faulty: false, collector_key: *key, e2e_key: E2E_KEY };
        let reply = s.handle_packet(&collector.request_packet(idx, [9, 9, 9, 9])).unwrap();
        results.push(collector.read_reply(idx, &reply).unwrap());
        // Another sensor's key does not open the reply.
        let other = (idx + 1) % keys.len();
        assert_eq!(
            collector.read_reply(other, &reply),
            Err(HandleError::Packet(PacketError::DecryptionFailed))
        );
    }
    let fused = SensorCollector::fuse(results.clone()).unwrap();
    let plain = fused.try_decrypt(&E2E_KEY).unwrap();
    // The fused interval lies inside every honest interval.
    for r in &results {
        let p = r.try_decrypt(&E2E_KEY).unwrap();
        assert!(p.lower_bound <= plain.lower_bound && plain.upper_bound <= p.upper_bound);
    }
    assert!(plain.lower_bound <= MEASURED_VALUE && MEASURED_VALUE <= plain.upper_bound);
}

#[test]
fn collector_refuses_a_request_as_sensor_reply() {
    let collector = SensorCollector::new(vec!["127.0.0.1:1"], vec![[1u8; 32]]);
    let request = collector.request_packet(0, [1, 1, 1, 1]);
    assert_eq!(collector.read_reply(0, &request), Err(HandleError::UnhandledPacket));
}
