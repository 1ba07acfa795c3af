use p2p_core::address::PeerAddr;
use p2p_core::handshake::Handshake;

use p2p_core::object::{ObjectRequest, ObjectResponse};
use p2p_core::packet::{check_packet_size, decode_packet, to_frame_bytes, Packet};
use p2p_core::reader::{Reader, ReaderError};
use p2p_core::error::P2pError;
use p2p_core::serializer::Serializer;
use p2p_core::writer::Writer;

fn sample_handshake(peers: Vec<PeerAddr>) -> Handshake {
    Handshake::new(
        String::from("0.1.0"),
        None,
        vec![0u8; 16],
        42,
        2125,
        1_700_000_000,
        0,
        p2p_core::hash::Hash::zero(),
        peers,
    )
}

#[test]
fn handshake_round_trip() {
    let original = sample_handshake(vec![]);
    let bytes = original.to_bytes();
    assert_eq!(&bytes[0..8], &[0x05, 0x30, 0x2E, 0x31, 0x2E, 0x30, 0x00, 0x00]);
    let mut reader = Reader::new(&bytes);
    let decoded = Handshake::read(&mut reader).expect("decode");
    assert_eq!(decoded, original);
    assert_eq!(reader.total_read(), bytes.len());
}

#[test]
fn handshake_round_trip_with_tag_and_peers() {
    let peers = vec![
        PeerAddr::V4 { ip: 0x7f000001, port: 2125 },
        PeerAddr::V6 { ip: 1, port: 9999 },
    ];
    let original = Handshake::new(
        String::from("1.2.3"),
        Some(String::from("node-tag")),
        vec![7u8; 16],
        977,
        18_000,
        1_700_000_123,
        55,
        p2p_core::hash::Hash::max(),
        peers,
    );
    let bytes = original.to_bytes();
    let mut reader = Reader::new(&bytes);
    let decoded = Handshake::read(&mut reader).expect("decode");
    assert_eq!(decoded, original);
    assert_eq!(reader.total_read(), bytes.len());
    assert_eq!(decoded.get_peers().len(), 2);
    assert_eq!(decoded.get_peer_id(), 977);
    assert_eq!(decoded.get_local_port(), 18_000);
}

#[test]
fn handshake_version_length_zero_is_invalid_size() {
    // 00 version length, then enough zero bytes for the fixed fields.
    let mut bytes = vec![0u8];
    bytes.extend(vec![0u8; 80]);
    let mut reader = Reader::new(&bytes);
    assert_eq!(Handshake::read(&mut reader), Err(ReaderError::InvalidSize));
}

#[test]
fn handshake_version_length_over_sixteen_is_invalid_size() {
    let mut bytes = vec![17u8];
    bytes.extend(vec![b'a'; 17]);
    bytes.extend(vec![0u8; 80]);
    let mut reader = Reader::new(&bytes);
    assert_eq!(Handshake::read(&mut reader), Err(ReaderError::InvalidSize));
}

#[test]
fn handshake_seventeen_peers_is_invalid_size() {
    // A valid handshake except that the peer count byte says 17.
    let valid = sample_handshake(vec![]).to_bytes();
    let mut bytes = valid[..valid.len() - 1].to_vec();
    bytes.push(17);
    bytes.extend(vec![0u8; 17 * 7]);
    let mut reader = Reader::new(&bytes);
    assert_eq!(Handshake::read(&mut reader), Err(ReaderError::InvalidSize));
}

#[test]
fn handshake_bad_utf8_version_is_invalid_value() {
    let mut bytes = vec![2u8, 0xff, 0xff];
    bytes.extend(vec![0u8; 80]);
    let mut reader = Reader::new(&bytes);
    assert_eq!(Handshake::read(&mut reader), Err(ReaderError::InvalidValue));
}

#[test]
fn object_request_round_trip() {
    let request = ObjectRequest::Block(p2p_core::hash::Hash::new(vec![9u8; 32]));
    let bytes = request.to_bytes();
    assert_eq!(bytes.len(), 33);
    assert_eq!(bytes[0], 0);
    let mut reader = Reader::new(&bytes);
    let decoded = ObjectRequest::read(&mut reader).expect("decode");
    assert_eq!(decoded, request);
    assert_eq!(reader.total_read(), 33);
}

#[test]
fn object_request_unknown_kind_is_invalid_value() {
    let mut bytes = vec![2u8];
    bytes.extend(vec![0u8; 32]);
    let mut reader = Reader::new(&bytes);
    assert_eq!(ObjectRequest::read(&mut reader), Err(ReaderError::InvalidValue));
}

#[test]
fn object_response_round_trip_each_variant() {
    let cases = vec![
        ObjectResponse::Block(vec![1, 2, 3]),
        ObjectResponse::Transaction(vec![]),
        ObjectResponse::NotFound(ObjectRequest::Transaction(p2p_core::hash::Hash::zero())),
    ];
    for original in cases {
        let bytes = original.to_bytes();
        let mut reader = Reader::new(&bytes);
        let decoded = ObjectResponse::read(&mut reader).expect("decode");
        assert_eq!(decoded, original);
        assert_eq!(reader.total_read(), bytes.len());
    }
}

#[test]
fn peer_addr_round_trip() {
    for original in [
        PeerAddr::V4 { ip: 0x01020304, port: 256 },
        PeerAddr::V6 { ip: u128::MAX, port: 0 },
    ] {
        let mut writer = Writer::new();
        original.write(&mut writer);
        let bytes = writer.to_bytes();
        let mut reader = Reader::new(&bytes);
        let decoded = PeerAddr::read(&mut reader).expect("decode");
        assert_eq!(decoded, original);
        assert_eq!(reader.total_read(), bytes.len());
    }
}

#[test]
fn peer_addr_unknown_kind_byte_is_rejected() {
    let bytes = vec![2u8, 0, 0, 0, 0, 0, 0];
    let mut reader = Reader::new(&bytes);
    assert_eq!(PeerAddr::read(&mut reader), Err(ReaderError::InvalidValue));
}

#[test]
fn packet_round_trip_through_decode_packet() {
    let packet = Packet::ObjectRequest(ObjectRequest::Transaction(p2p_core::hash::Hash::new(vec![3u8; 32])));
    let bytes = packet.to_bytes();
    let decoded = decode_packet(&bytes).expect("decode");
    assert_eq!(decoded, packet);
    // Re-encoding what was decoded gives back the same bytes.
    assert_eq!(decoded.to_bytes(), bytes);
}

#[test]
fn packet_handshake_round_trip() {
    let packet = Packet::Handshake(sample_handshake(vec![PeerAddr::V4 { ip: 1, port: 2 }]));
    let bytes = packet.to_bytes();
    let decoded = decode_packet(&bytes).expect("decode");
    assert_eq!(decoded, packet);
}

#[test]
fn packet_unknown_tag_is_invalid_packet() {
    let bytes = vec![3u8, 0, 0];
    assert_eq!(decode_packet(&bytes), Err(P2pError::InvalidPacket));
}

#[test]
fn packet_trailing_bytes_are_not_full_read() {
    let packet = Packet::ObjectRequest(ObjectRequest::Block(p2p_core::hash::Hash::zero()));
    let mut bytes = packet.to_bytes();
    bytes.push(0xaa);
    assert_eq!(decode_packet(&bytes), Err(P2pError::InvalidPacketNotFullRead));
}

#[test]
fn frame_length_prefix_counts_the_rest() {
    let packet = Packet::ObjectRequest(ObjectRequest::Block(p2p_core::hash::Hash::zero()));
    let frame = to_frame_bytes(&packet);
    let len = u32::from_be_bytes([frame[0], frame[1], frame[2], frame[3]]) as usize;
    assert_eq!(len, frame.len() - 4);
    assert_eq!(len, 34);
    assert_eq!(decode_packet(&frame[4..]).expect("decode"), packet);
}

#[test]
fn frame_size_zero_is_invalid_packet_size() {
    assert_eq!(check_packet_size(0, 1024), Err(P2pError::InvalidPacketSize));
}

#[test]
fn frame_size_over_limit_is_invalid_packet_size() {
    assert_eq!(check_packet_size(1025, 1024), Err(P2pError::InvalidPacketSize));
    assert_eq!(
        check_packet_size(p2p_core::MAX_PACKET_SIZE + 1, p2p_core::MAX_PACKET_SIZE),
        Err(P2pError::InvalidPacketSize)
    );
    assert_eq!(check_packet_size(1024, 1024), Ok(()));
    assert_eq!(check_packet_size(1, 1024), Ok(()));
}

#[test]
fn reader_primitives_read_big_endian() {
    let bytes = vec![
        0x12, // u8
        0x01, // bool: true
        0xAB, 0xCD, // u16
        0x00, 0x00, 0x00, 0x2A, // u32
        0x00, 0x00, 0x00, 0x00, 0x00, 0x00, 0x00, 0x2B, // u64
    ];
    let mut reader = Reader::new(&bytes);
    assert_eq!(reader.read_u8(), Ok(0x12));
    assert_eq!(reader.read_bool(), Ok(true));
    assert_eq!(reader.read_u16(), Ok(0xABCD));
    assert_eq!(reader.read_u32(), Ok(42));
    assert_eq!(reader.read_u64(), Ok(43));
    assert_eq!(reader.size(), 0);
    assert_eq!(reader.total_read(), bytes.len());
    assert_eq!(reader.total_size(), bytes.len());
    assert_eq!(reader.read_u8(), Err(ReaderError::InvalidSize));
}

#[test]
fn reader_bool_is_true_only_on_one() {
    let bytes = vec![0u8, 1, 2];
    let mut reader = Reader::new(&bytes);
    assert_eq!(reader.read_bool(), Ok(false));
    assert_eq!(reader.read_bool(), Ok(true));
    assert_eq!(reader.read_bool(), Ok(false));
}

#[test]
fn reader_u128_round_trip() {
    let mut writer = Writer::new();
    writer.write_u128(0x0102030405060708090A0B0C0D0E0F10);
    let bytes = writer.to_bytes();
    assert_eq!(bytes.len(), 16);
    let mut reader = Reader::new(&bytes);
    assert_eq!(reader.read_u128(), Ok(0x0102030405060708090A0B0C0D0E0F10));
}

#[test]
fn reader_strings() {
    let mut writer = Writer::new();
    writer.write_string("hello");
    writer.write_optional_string(&None);
    writer.write_optional_string(&Some(String::from("tag")));
    let bytes = writer.to_bytes();
    let mut reader = Reader::new(&bytes);
    assert_eq!(reader.read_string(), Ok(String::from("hello")));
    assert_eq!(reader.read_optional_string(), Ok(None));
    assert_eq!(reader.read_optional_string(), Ok(Some(String::from("tag"))));
}

#[test]
fn reader_string_bad_utf8_is_invalid_value() {
    let bytes = vec![2u8, 0xC0, 0x00];
    let mut reader = Reader::new(&bytes);
    assert_eq!(reader.read_string(), Err(ReaderError::InvalidValue));
}

#[test]
fn reader_string_short_buffer_is_invalid_size() {
    let bytes = vec![5u8, b'a'];
    let mut reader = Reader::new(&bytes);
    assert_eq!(reader.read_string(), Err(ReaderError::InvalidSize));
}

#[test]
fn reader_bytes_and_hash() {
    let mut payload = vec![0xEEu8; 32];
    payload.extend(vec![0x11u8; 64]);
    let mut reader = Reader::new(&payload);
    let h = reader.read_hash().expect("hash");
    assert_eq!(h, p2p_core::hash::Hash::new(vec![0xEE; 32]));
    let rest = reader.read_bytes_64().expect("bytes");
    assert_eq!(rest, vec![0x11u8; 64]);
    assert_eq!(reader.read_bytes(1), Err(ReaderError::InvalidSize));
}

#[test]
fn hash_round_trips_through_the_codec() {
    let original = p2p_core::hash::Hash::new((0u8..32).collect());
    let bytes = original.clone().to_bytes();
    assert_eq!(bytes.len(), 32);
    let mut reader = Reader::new(&bytes);
    let decoded = p2p_core::hash::Hash::read(&mut reader).expect("decode");
    assert_eq!(decoded, original);
}

#[test]
fn writer_accumulates_all_primitives() {
    let mut writer = Writer::new();
    writer.write_u8(1);
    writer.write_bool(false);
    writer.write_u16(2);
    writer.write_u32(3);
    writer.write_u64(4);
    writer.write_bytes(&[9, 9]);
    writer.write_hash(&p2p_core::hash::Hash::zero());
    assert_eq!(writer.total_write(), 1 + 1 + 2 + 4 + 8 + 2 + 32);
    assert_eq!(writer.bytes()[0], 1);
    assert_eq!(writer.bytes()[1], 0);
    assert_eq!(writer.bytes()[2..4], [0, 2]);
}
