use token_ring::err::TokenRingError;
use token_ring::id::WorkStationId;
use token_ring::packet::{JoinAnswerResult, Packet, PacketHeader, PacketType};
use token_ring::serialize::Serializable;
use token_ring::signature::{generate_keypair, Signed};
use token_ring::token::{
    Token, TokenFrame, TokenFrameId, TokenFrameType, TokenHeader, TokenSendMode,
};

fn create_packet() -> Packet {
    let keypair = generate_keypair();
    let header = PacketHeader::new(WorkStationId::new("Bob".to_owned()));
    let signed_header = Signed::new(&keypair, header).unwrap();
    Packet::new(signed_header,
        PacketType::JoinReply(JoinAnswerResult::Confirm(WorkStationId::new("Alice".to_owned()))))
}

fn create_token_stub() -> Token {
    let keypair = generate_keypair();
    let header = TokenHeader::new(WorkStationId::new("Test".to_owned()));
    let signed_header = Signed::new(&keypair, header).unwrap();
    let mut token = Token::new(signed_header);
    let frame = TokenFrame::new(TokenFrameId::new(WorkStationId::new("Some Station".to_owned())),
        TokenFrameType::Data { send_mode: TokenSendMode::Broadcast, seq: 0, payload: vec![0, 1, 2] });
    token.frames.push(frame);
    token
}

fn round_trip_packet(content: PacketType) {
    let keypair = generate_keypair();
    let header = Signed::new(&keypair, PacketHeader::new(WorkStationId::new("x".to_owned()))).unwrap();
    let packet = Packet::new(header, content);
    let bytes = packet.serialize().unwrap();
    let back = Packet::deserialize(&bytes).unwrap();
    assert_eq!(packet, back);
}

#[test]
fn packet_deserialize() {
    let packet = create_packet();
    let mut buf = vec![];
    assert!(packet.write(&mut buf).is_ok());

    let new_packet = Packet::read(buf.as_slice(), 0).unwrap().0;
    assert_eq!(packet, new_packet)
}

#[test]
fn serialize() {
    let token = create_token_stub();
    let mut buf = vec![];
    token.write(&mut buf).unwrap();
}

#[test]
fn token_deserialize() {
    let token = create_token_stub();
    let mut buf = vec![];
    assert!(token.write(&mut buf).is_ok());

    let new_token = Token::read(buf.as_slice(), 0).unwrap().0;
    assert_eq!(token, new_token)
}

#[test]
fn every_packet_type_round_trips() {
    round_trip_packet(PacketType::JoinRequest("hunter2".to_owned()));
    round_trip_packet(PacketType::JoinReply(JoinAnswerResult::Confirm(WorkStationId::new("m".to_owned()))));
    round_trip_packet(PacketType::JoinReply(JoinAnswerResult::Deny("Already joined".to_owned())));
    round_trip_packet(PacketType::TokenPass(create_token_stub()));
    round_trip_packet(PacketType::Leave);
}

#[test]
fn every_frame_type_round_trips() {
    let types = vec![
        TokenFrameType::Empty,
        TokenFrameType::Data { send_mode: TokenSendMode::Unicast(WorkStationId::new("bob".to_owned())), seq: 7, payload: vec![] },
        TokenFrameType::Data { send_mode: TokenSendMode::Broadcast, seq: 65535, payload: b"hi".to_vec() },
        TokenFrameType::DataReceived { source: WorkStationId::new("alice".to_owned()), seq: 3 },
    ];
    for t in types {
        let frame = TokenFrame::new(TokenFrameId { source: WorkStationId::new("a".to_owned()), timestamp: 42 }, t);
        let mut buf = vec![];
        frame.write(&mut buf).unwrap();
        let (back, p) = TokenFrame::read(&buf, 0).unwrap();
        assert_eq!(back, frame);
        assert_eq!(p, buf.len());
    }
}

#[test]
fn token_with_no_frames_round_trips() {
    let keypair = generate_keypair();
    let header = Signed::new(&keypair, TokenHeader { origin: WorkStationId::new("m".to_owned()), timestamp: 1 }).unwrap();
    let token = Token::new(header);
    let mut buf = vec![];
    token.write(&mut buf).unwrap();
    // key, signature, 2-byte length, header (3-byte id, 8-byte time), 4-byte count
    assert_eq!(buf.len(), 32 + 64 + 2 + 3 + 8 + 4);
    assert_eq!(&buf[buf.len() - 4..], &[0, 0, 0, 0]);
    let (back, _) = Token::read(&buf, 0).unwrap();
    assert_eq!(back, token);
}

#[test]
fn frame_wire_layout() {
    let frame = TokenFrame::new(TokenFrameId { source: WorkStationId::new("a".to_owned()), timestamp: 2 },
        TokenFrameType::Data { send_mode: TokenSendMode::Broadcast, seq: 0x0102, payload: vec![5] });
    let mut buf = vec![];
    frame.write(&mut buf).unwrap();
    assert_eq!(buf, vec![0, 1, b'a', 0, 0, 0, 0, 0, 0, 0, 2, 1, 1, 1, 2, 0, 1, 5]);
}

#[test]
fn packet_wire_layout() {
    let keypair = generate_keypair();
    let header = Signed::new(&keypair, PacketHeader::new(WorkStationId::new("ab".to_owned()))).unwrap();
    let packet = Packet::new(header, PacketType::Leave);
    let bytes = packet.serialize().unwrap();
    assert_eq!(bytes.len(), 32 + 64 + 2 + 4 + 1);
    assert_eq!(&bytes[96..], &[0, 4, 0, 2, b'a', b'b', 3]);
}

#[test]
fn unknown_tags_are_refused() {
    let packet = create_packet();
    let mut bytes = packet.serialize().unwrap();
    let n = bytes.len();
    // the packet type tag follows the header: key, signature, length, "bob"
    let tag_at = 32 + 64 + 2 + 5;
    assert_eq!(bytes[tag_at], 1);
    bytes[tag_at] = 4;
    assert!(matches!(Packet::deserialize(&bytes), Err(TokenRingError::InvalidPacketHeader)));
    bytes[tag_at] = 1;
    bytes[tag_at + 1] = 9;
    assert!(matches!(Packet::deserialize(&bytes), Err(TokenRingError::InvalidPacketHeader)));
    assert!(Packet::deserialize(&bytes[..n - 1]).is_err());
}

#[test]
fn truncated_packets_are_refused() {
    let bytes = create_packet().serialize().unwrap();
    for cut in 0..bytes.len() {
        assert!(matches!(Packet::deserialize(&bytes[..cut]), Err(TokenRingError::InvalidPacketHeader)));
    }
    assert!(Packet::deserialize(&bytes).is_ok());
}

#[test]
fn size_matches_encoding() {
    let packet = create_packet();
    let bytes = packet.serialize().unwrap();
    assert_eq!(packet.size(), bytes.len());
    let token = create_token_stub();
    let mut buf = vec![];
    token.write(&mut buf).unwrap();
    assert_eq!(token.size(), buf.len());
    let keypair = generate_keypair();
    let header = Signed::new(&keypair, PacketHeader::new(WorkStationId::new("Bob".to_owned()))).unwrap();
    let leave = Packet::new(header, PacketType::Leave);
    assert_eq!(leave.size(), 32 + 64 + 2 + 5 + 1);
}
