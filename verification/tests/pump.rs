use lightyear::channel::SequencedReceiver;
use lightyear::channel::UnorderedReceiver;
use lightyear::delta::delta_decode;
use lightyear::message::encode_message;
use lightyear::message::CompValue;
use lightyear::message::EntityAction;
use lightyear::message::EntityUpdate;
use lightyear::message::Message;
use lightyear::packet::build_packet;
use lightyear::packet::encode_reliable_body;
use lightyear::packet::PacketHeader;
use lightyear::packet::ReliableFrameHeader;
use lightyear::pump::PacketPump;
use lightyear::pump::SendError;
use lightyear::sender::ActionQueue;
use lightyear::sender::DeltaBaseline;
use lightyear::sender::component_changed;

const PID: u64 = 7;
const MTU: usize = 1200;

#[test]
fn ack_keys_on_packet_sequences_not_message_ids() {
    let mut a = PacketPump::new();
    let mut b = PacketPump::new();
    // six ping-only packets consume packet sequences 0 through 5, so
    // packet sequences and message ids diverge from the start
    for _ in 0..6 {
        a.send_unreliable(encode_message(&Message::Ping { nonce: 0 }), MTU).unwrap();
        for p in a.flush(PID, MTU) {
            b.handle_datagram(&p, PID);
        }
    }
    // the first reliable message gets id 0 but rides packet sequence 6
    let first = a.send_reliable(encode_message(&Message::Pong { nonce: 1 }));
    assert_eq!(first, 0);
    let pkts = a.flush(PID, MTU);
    assert_eq!(pkts.len(), 1);
    for p in pkts {
        let out = b.handle_datagram(&p, PID);
        assert_eq!(out.len(), 1);
    }
    // a second reliable message is queued but never flushed
    let unsent = a.send_reliable(encode_message(&Message::Pong { nonce: 2 }));
    assert_eq!(unsent, 1);
    // the ack for packet sequence 6 rides back on one of b's packets
    b.send_unreliable(encode_message(&Message::Ping { nonce: 9 }), MTU).unwrap();
    for p in b.flush(PID, MTU) {
        a.handle_datagram(&p, PID);
    }
    // the sent message is acknowledged away; the unsent one must stay:
    // an ack resolves against recorded packet sequences, never ids
    assert_eq!(a.reliable_out.pending.len(), 1);
    assert_eq!(a.reliable_out.pending[0].0, 1);
}

#[test]
fn lost_packet_requeues_under_fresh_id() {
    let mut a = PacketPump::new();
    let mut b = PacketPump::new();
    // the first reliable message rides packet sequence 0, which is lost
    let first = a.send_reliable(encode_message(&Message::Pong { nonce: 1 }));
    assert_eq!(first, 0);
    let lost = a.flush(PID, MTU);
    assert_eq!(lost.len(), 1);
    drop(lost);
    // forty ping-only packets push b's ack far past sequence 0
    for _ in 0..40 {
        a.send_unreliable(encode_message(&Message::Ping { nonce: 0 }), MTU).unwrap();
        for p in a.flush(PID, MTU) {
            b.handle_datagram(&p, PID);
        }
    }
    b.send_unreliable(encode_message(&Message::Ping { nonce: 9 }), MTU).unwrap();
    for p in b.flush(PID, MTU) {
        a.handle_datagram(&p, PID);
    }
    // the message is still pending, under a fresh id: inferred lost,
    // never silently dropped
    assert_eq!(a.reliable_out.pending.len(), 1);
    assert_ne!(a.reliable_out.pending[0].0, 0);
    // the next flush carries it and it finally arrives
    let pkts = a.flush(PID, MTU);
    let mut delivered = 0;
    for p in pkts {
        delivered += b.handle_datagram(&p, PID).len();
    }
    assert_eq!(delivered, 1);
}

#[test]
fn pump_round_trip_in_order() {
    let mut a = PacketPump::new();
    let mut b = PacketPump::new();
    for n in 0..5u32 {
        a.send_reliable(encode_message(&Message::Ping { nonce: n }));
    }
    let mut nonces = Vec::new();
    for p in a.flush(PID, MTU) {
        for m in b.handle_datagram(&p, PID) {
            match m {
                Message::Ping { nonce } => nonces.push(nonce),
                _ => panic!("wrong message"),
            }
        }
    }
    assert_eq!(nonces, vec![0, 1, 2, 3, 4]);
    // replaying the same datagrams delivers nothing twice
    let mut a2 = PacketPump::new();
    for n in 0..5u32 {
        a2.send_reliable(encode_message(&Message::Ping { nonce: n }));
    }
    let pkts = a2.flush(PID, MTU);
    for p in pkts.iter() {
        b.handle_datagram(p, PID);
    }
    for p in pkts.iter() {
        assert_eq!(b.handle_datagram(p, PID).len(), 0);
    }
}

#[test]
fn pump_fragments_large_messages() {
    let mut a = PacketPump::new();
    let mut b = PacketPump::new();
    let big = Message::EntityUpdates {
        tick: 9,
        updates: vec![EntityUpdate {
            entity: 1,
            comps: vec![CompValue { comp_id: 2, data: (0u16..5000).map(|x| (x % 251) as u8).collect() }],
        }],
    };
    a.send_reliable(encode_message(&big));
    let mut pkts = a.flush(PID, MTU);
    assert!(pkts.len() > 1, "an oversized message must fragment");
    for p in pkts.iter() {
        assert!(p.len() <= MTU);
    }
    // fragments arrive in reversed order; the message still comes out
    // whole, exactly once
    pkts.reverse();
    let mut out = Vec::new();
    for p in pkts {
        out.extend(b.handle_datagram(&p, PID));
    }
    assert_eq!(out.len(), 1);
    match &out[0] {
        Message::EntityUpdates { tick, updates } => {
            assert_eq!(*tick, 9);
            assert_eq!(updates[0].comps[0].data.len(), 5000);
        }
        _ => panic!("wrong message"),
    }
}

#[test]
fn pump_rejects_alien_datagrams() {
    let mut b = PacketPump::new();
    assert_eq!(b.handle_datagram(&vec![1, 2, 3], PID).len(), 0);
    let mut a = PacketPump::new();
    a.send_unreliable(encode_message(&Message::Ping { nonce: 0 }), MTU).unwrap();
    for p in a.flush(PID + 1, MTU) {
        // wrong protocol id: dropped and counted
        assert_eq!(b.handle_datagram(&p, PID).len(), 0);
    }
    assert!(b.violations >= 1);
}

#[test]
fn unordered_receiver_is_exactly_once() {
    let mut r = UnorderedReceiver::new();
    assert_eq!(r.on_message(5, vec![5]), Some(vec![5]));
    assert_eq!(r.on_message(3, vec![3]), Some(vec![3]));
    assert_eq!(r.on_message(5, vec![5]), None);
    assert_eq!(r.on_message(3, vec![3]), None);
    assert_eq!(r.on_message(4, vec![4]), Some(vec![4]));
    assert_eq!(r.on_message(4, vec![4]), None);
}

#[test]
fn sequenced_receiver_drops_old_slots() {
    let mut r = SequencedReceiver::new();
    assert!(r.on_sequence(10));
    assert!(!r.on_sequence(10));
    assert!(!r.on_sequence(7));
    assert!(r.on_sequence(11));
    // wrapping: 2 is newer than 65535
    let mut r = SequencedReceiver::new();
    assert!(r.on_sequence(65535));
    assert!(r.on_sequence(2));
    assert!(!r.on_sequence(65535));
}

#[test]
fn action_queue_drains_into_one_message() {
    let mut q = ActionQueue::new();
    q.push(EntityAction::Spawn { entity: 4 });
    q.push(EntityAction::AddComponent { entity: 4, comp: 2 });
    let m = q.drain(77);
    match m {
        Message::EntityActions { tick, actions } => {
            assert_eq!(tick, 77);
            assert_eq!(actions, vec![
                EntityAction::Spawn { entity: 4 },
                EntityAction::AddComponent { entity: 4, comp: 2 },
            ]);
        }
        _ => panic!("wrong message"),
    }
    assert_eq!(q.queue.len(), 0);
}

#[test]
fn delta_baseline_advances_only_on_ack() {
    let mut base = DeltaBaseline::new();
    let v1: Vec<u8> = vec![1, 2, 3, 4];
    // nothing acknowledged yet: the raw value goes out
    let (is_delta, payload) = base.encode(&v1);
    assert!(!is_delta);
    assert_eq!(payload, v1);
    // still nothing acknowledged: a second send is still full state
    let v2: Vec<u8> = vec![1, 2, 9, 4];
    let (is_delta, payload) = base.encode(&v2);
    assert!(!is_delta);
    assert_eq!(payload, v2);
    // the packet carrying v1 is acknowledged: deltas encode against it
    base.on_acked(v1.clone());
    let (is_delta, payload) = base.encode(&v2);
    assert!(is_delta);
    assert_eq!(delta_decode(&payload, &v1), v2);
    assert!(component_changed(&v2, &v1));
    assert!(!component_changed(&v2, &v2));
}

#[test]
fn oversized_unfragmentable_frames_are_refused() {
    let mut a = PacketPump::new();
    // the unreliable channel cannot fragment: too wide is an error
    assert_eq!(a.send_unreliable(vec![0; MTU], MTU), Err(SendError::FrameTooLarge));
    assert_eq!(a.send_unreliable(vec![0; MTU - 19], MTU), Ok(()));
    // the sequenced channel carries a 2-byte sequence, so two fewer fit
    assert_eq!(a.send_sequenced(vec![0; MTU - 20], MTU), Err(SendError::FrameTooLarge));
    assert_eq!(a.send_sequenced(vec![0; MTU - 21], MTU), Ok(()));
}

#[test]
fn sequenced_channel_drops_superseded_slots() {
    let mut a = PacketPump::new();
    let mut b = PacketPump::new();
    a.send_sequenced(encode_message(&Message::Ping { nonce: 1 }), MTU).unwrap();
    let first = a.flush(PID, MTU);
    a.send_sequenced(encode_message(&Message::Ping { nonce: 2 }), MTU).unwrap();
    let second = a.flush(PID, MTU);
    // the newer datagram overtakes the older one
    let mut out = Vec::new();
    for p in second.iter().chain(first.iter()) {
        out.extend(b.handle_datagram(p, PID));
    }
    assert_eq!(out.len(), 1, "the superseded slot is dropped");
    match out[0] {
        Message::Ping { nonce } => assert_eq!(nonce, 2),
        _ => panic!("wrong message"),
    }
}

#[test]
fn unordered_channel_delivers_any_order_once() {
    let mut b = PacketPump::new();
    let mut packets = Vec::new();
    for (seq, id) in [(0u16, 7u16), (1, 9), (2, 7)] {
        let h = PacketHeader { protocol_id: PID, seq, ack: 0, ack_bits: 0 };
        let rh = ReliableFrameHeader { message_id: id, fragment_idx: 0, fragment_count: 1 };
        let body = encode_reliable_body(&rh, &encode_message(&Message::Ping { nonce: id as u32 }));
        packets.push(build_packet(&h, &vec![(1, body)]));
    }
    // id 9 first, then 7, then the duplicate of 7 on a fresh packet
    let mut nonces = Vec::new();
    for p in [&packets[1], &packets[0], &packets[2]] {
        for m in b.handle_datagram(p, PID) {
            match m {
                Message::Ping { nonce } => nonces.push(nonce),
                _ => panic!("wrong message"),
            }
        }
    }
    assert_eq!(nonces, vec![9, 7], "any order, each id exactly once");
}
