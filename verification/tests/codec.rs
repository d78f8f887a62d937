use lightyear::hex::decode_hex;
use lightyear::message::decode_message;
use lightyear::message::encode_message;
use lightyear::message::CompValue;
use lightyear::message::EntityAction;
use lightyear::message::EntityUpdate;
use lightyear::message::Message;
use lightyear::packet::decode_header;
use lightyear::packet::encode_header;
use lightyear::packet::parse_frames;
use lightyear::packet::parse_packet;
use lightyear::packet::append_frame;
use lightyear::packet::build_packet;
use lightyear::packet::decode_reliable_body;
use lightyear::packet::encode_reliable_body;
use lightyear::packet::PacketError;
use lightyear::packet::PacketHeader;
use lightyear::packet::ReliableFrameHeader;

fn roundtrip(m: Message) -> Message {
    let bytes = encode_message(&m);
    decode_message(&bytes).expect("a serialized message must deserialize")
}

#[test]
fn handshake_round_trip() {
    let m = roundtrip(Message::Handshake { protocol_id: 0x1122_3344_5566_7788, session_key: 42 });
    match m {
        Message::Handshake { protocol_id, session_key } => {
            assert_eq!(protocol_id, 0x1122_3344_5566_7788);
            assert_eq!(session_key, 42);
        }
        _ => panic!("wrong variant"),
    }
}

#[test]
fn handshake_ack_round_trip() {
    let m = roundtrip(Message::HandshakeAck { client_id: u64::MAX });
    match m {
        Message::HandshakeAck { client_id } => assert_eq!(client_id, u64::MAX),
        _ => panic!("wrong variant"),
    }
}

#[test]
fn input_round_trip() {
    let diffs: Vec<(u8, i16)> = vec![(0, 17), (3, -1000), (7, i16::MIN), (9, i16::MAX)];
    let m = roundtrip(Message::Input { target_tick: 65535, diffs: diffs.clone() });
    match m {
        Message::Input { target_tick, diffs: d2 } => {
            assert_eq!(target_tick, 65535);
            assert_eq!(d2, diffs);
        }
        _ => panic!("wrong variant"),
    }
}

#[test]
fn entity_actions_round_trip() {
    let actions = vec![
        EntityAction::Spawn { entity: 1 },
        EntityAction::AddComponent { entity: 1, comp: 7 },
        EntityAction::RemoveComponent { entity: 1, comp: 7 },
        EntityAction::Despawn { entity: 0xdead_beef },
    ];
    let m = roundtrip(Message::EntityActions { tick: 500, actions });
    match m {
        Message::EntityActions { tick, actions } => {
            assert_eq!(tick, 500);
            assert_eq!(actions.len(), 4);
            match &actions[1] {
                EntityAction::AddComponent { entity, comp } => {
                    assert_eq!(*entity, 1);
                    assert_eq!(*comp, 7);
                }
                _ => panic!("wrong action"),
            }
            match &actions[3] {
                EntityAction::Despawn { entity } => assert_eq!(*entity, 0xdead_beef),
                _ => panic!("wrong action"),
            }
        }
        _ => panic!("wrong variant"),
    }
}

#[test]
fn entity_updates_round_trip() {
    let updates = vec![
        EntityUpdate {
            entity: 9,
            comps: vec![
                CompValue { comp_id: 1, data: vec![1, 2, 3] },
                CompValue { comp_id: 2, data: vec![] },
            ],
        },
        EntityUpdate { entity: 10, comps: vec![] },
    ];
    let m = roundtrip(Message::EntityUpdates { tick: 0, updates });
    match m {
        Message::EntityUpdates { tick, updates } => {
            assert_eq!(tick, 0);
            assert_eq!(updates.len(), 2);
            assert_eq!(updates[0].entity, 9);
            assert_eq!(updates[0].comps.len(), 2);
            assert_eq!(updates[0].comps[0].comp_id, 1);
            assert_eq!(updates[0].comps[0].data, vec![1, 2, 3]);
            assert_eq!(updates[0].comps[1].data.len(), 0);
            assert_eq!(updates[1].entity, 10);
            assert_eq!(updates[1].comps.len(), 0);
        }
        _ => panic!("wrong variant"),
    }
}

#[test]
fn small_messages_round_trip() {
    match roundtrip(Message::Ack { ack: 70, ack_bits: 0xffff_0001 }) {
        Message::Ack { ack, ack_bits } => {
            assert_eq!(ack, 70);
            assert_eq!(ack_bits, 0xffff_0001);
        }
        _ => panic!("wrong variant"),
    }
    match roundtrip(Message::Ping { nonce: 5 }) {
        Message::Ping { nonce } => assert_eq!(nonce, 5),
        _ => panic!("wrong variant"),
    }
    match roundtrip(Message::Pong { nonce: 6 }) {
        Message::Pong { nonce } => assert_eq!(nonce, 6),
        _ => panic!("wrong variant"),
    }
    match roundtrip(Message::SyncRequest { client_send_time: 123_456 }) {
        Message::SyncRequest { client_send_time } => assert_eq!(client_send_time, 123_456),
        _ => panic!("wrong variant"),
    }
    match roundtrip(Message::SyncResponse {
        client_send_time: 1,
        server_tick: 2,
        server_recv_time: 3,
        server_send_time: 4,
    }) {
        Message::SyncResponse { client_send_time, server_tick, server_recv_time, server_send_time } => {
            assert_eq!((client_send_time, server_tick, server_recv_time, server_send_time), (1, 2, 3, 4));
        }
        _ => panic!("wrong variant"),
    }
    assert!(matches!(roundtrip(Message::Disconnect), Message::Disconnect));
}

#[test]
fn garbage_does_not_decode() {
    assert!(decode_message(&vec![]).is_none());
    assert!(decode_message(&vec![200]).is_none());
    // a valid message with a trailing byte is rejected
    let mut bytes = encode_message(&Message::Ping { nonce: 5 });
    bytes.push(0);
    assert!(decode_message(&bytes).is_none());
    // a truncated message is rejected
    let bytes = encode_message(&Message::Ping { nonce: 5 });
    let shorter = bytes[..bytes.len() - 1].to_vec();
    assert!(decode_message(&shorter).is_none());
}

#[test]
fn input_wire_layout() {
    // target_tick little-endian, then the diff count, then the diffs
    let bytes = encode_message(&Message::Input { target_tick: 0x0102, diffs: vec![(5, 256)] });
    assert_eq!(bytes, vec![2, 0x02, 0x01, 1, 5, 0x00, 0x01]);
}

#[test]
fn header_round_trip() {
    let h = PacketHeader { protocol_id: 77, seq: 65535, ack: 0, ack_bits: 0x8000_0001 };
    let bytes = encode_header(&h);
    assert_eq!(bytes.len(), 16);
    let h2 = decode_header(&bytes, 77).expect("header must parse");
    assert_eq!(h2.seq, 65535);
    assert_eq!(h2.ack, 0);
    assert_eq!(h2.ack_bits, 0x8000_0001);
}

#[test]
fn header_rejects_wrong_protocol() {
    let h = PacketHeader { protocol_id: 77, seq: 1, ack: 2, ack_bits: 3 };
    let bytes = encode_header(&h);
    assert_eq!(decode_header(&bytes, 78), Err(PacketError::ChecksumMismatch));
    assert_eq!(decode_header(&vec![1, 2, 3], 77), Err(PacketError::TooShort));
}

#[test]
fn frames_round_trip() {
    let mut body: Vec<u8> = Vec::new();
    append_frame(&mut body, 0, &vec![9, 9, 9]);
    append_frame(&mut body, 3, &vec![]);
    append_frame(&mut body, 1, &vec![1]);
    let frames = parse_frames(&body, 0).expect("frames must parse");
    assert_eq!(frames.len(), 3);
    assert_eq!(frames[0], (0, vec![9, 9, 9]));
    assert_eq!(frames[1], (3, vec![]));
    assert_eq!(frames[2], (1, vec![1]));
    // a truncated body is rejected
    let shorter = body[..body.len() - 1].to_vec();
    assert!(parse_frames(&shorter, 0).is_none());
}

#[test]
fn hex_decoding() {
    assert_eq!(decode_hex(&b"00ff10Ab".to_vec()), Some(vec![0x00, 0xff, 0x10, 0xab]));
    assert_eq!(decode_hex(&b"".to_vec()), Some(vec![]));
    assert_eq!(decode_hex(&b"abc".to_vec()), None);
    assert_eq!(decode_hex(&b"zz".to_vec()), None);
}

#[test]
fn reliable_body_round_trip() {
    let h = ReliableFrameHeader { message_id: 65535, fragment_idx: 2, fragment_count: 5 };
    let body = encode_reliable_body(&h, &vec![7, 8, 9]);
    let (h2, data) = decode_reliable_body(&body).expect("a reliable body must parse");
    assert_eq!(h2, h);
    assert_eq!(data, vec![7, 8, 9]);
    assert!(decode_reliable_body(&vec![1, 2, 3]).is_none());
}

#[test]
fn whole_packet_round_trip() {
    let h = PacketHeader { protocol_id: 7, seq: 1, ack: 9, ack_bits: 3 };
    let packet = build_packet(&h, &vec![(0, vec![1, 2]), (3, vec![])]);
    let h2 = decode_header(&packet, 7).expect("the header must parse");
    assert_eq!(h2, h);
    let body = packet[16..].to_vec();
    let frames = parse_frames(&body, 0).expect("the frames must parse");
    assert_eq!(frames, vec![(0, vec![1, 2]), (3, vec![])]);
}

#[test]
fn packet_parse_errors() {
    let h = PacketHeader { protocol_id: 7, seq: 1, ack: 9, ack_bits: 3 };
    let good = build_packet(&h, &vec![(2, vec![5])]);
    let (h2, frames) = parse_packet(&good, 7).expect("a built packet must parse");
    assert_eq!(h2, h);
    assert_eq!(frames, vec![(2, vec![5])]);
    assert_eq!(parse_packet(&vec![0; 4], 7), Err(PacketError::TooShort));
    assert_eq!(parse_packet(&good, 8), Err(PacketError::ChecksumMismatch));
    let mut truncated = good.clone();
    truncated.pop();
    assert_eq!(parse_packet(&truncated, 7), Err(PacketError::Malformed));
}
