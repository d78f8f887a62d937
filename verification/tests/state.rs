use lightyear::clock::compute_rtt_us;
use lightyear::clock::input_lead_ticks;
use lightyear::clock::server_tick_estimate;
use lightyear::clock::ClientClock;
use lightyear::clock::SpeedAdjust;
use lightyear::config::Config;
use lightyear::connection::ConnAction;
use lightyear::connection::ConnEvent;
use lightyear::connection::ConnState;
use lightyear::connection::Connection;
use lightyear::delta::delta_decode;
use lightyear::delta::delta_encode;
use lightyear::fragment::split_message;
use lightyear::fragment::Reassembly;
use lightyear::input::apply_diff;
use lightyear::input::diff_snapshots;
use lightyear::input::InputBuffer;
use lightyear::interp::Interpolator;
use lightyear::timeline::mismatched_entities;
use lightyear::input::InputSnapshot;
use lightyear::sender::greedy_take;
use lightyear::sender::priority_score;

#[test]
fn delta_encode_then_decode_restores_value() {
    let old_value: Vec<u8> = vec![0, 1, 2, 250, 255];
    let new_value: Vec<u8> = vec![9, 1, 3, 250, 0];
    let delta = delta_encode(&new_value, &old_value);
    assert_eq!(delta_decode(&delta, &old_value), new_value);
    // an unchanged value yields an all-zero delta
    let zero = delta_encode(&old_value, &old_value);
    assert!(zero.iter().all(|b| *b == 0));
}

#[test]
fn input_diff_chain_reconstructs_bit_exactly() {
    let s0: Vec<i16> = vec![0, 0, 0, 0];
    let s1: Vec<i16> = vec![1, 0, 0, 0];
    let s2: Vec<i16> = vec![1, -5, 0, 0];
    let s3: Vec<i16> = vec![1, -5, 0, 700];
    let d01 = diff_snapshots(&s0, &s1);
    let d12 = diff_snapshots(&s1, &s2);
    let d23 = diff_snapshots(&s2, &s3);
    // apply the chain in order from the snapshot at the start
    let r1 = apply_diff(&s0, &d01);
    let r2 = apply_diff(&r1, &d12);
    let r3 = apply_diff(&r2, &d23);
    assert_eq!(r3, s3);
    // each diff carries exactly the changed actions
    assert_eq!(d01.len(), 1);
    assert_eq!(d12, vec![(1, -5)]);
    let empty = diff_snapshots(&s3, &s3);
    assert_eq!(empty.len(), 0);
}

#[test]
fn input_buffer_sticky_read() {
    let mut buf = InputBuffer::new(8);
    buf.record(100, InputSnapshot { values: vec![1, 2] });
    buf.record(103, InputSnapshot { values: vec![3, 4] });
    // the exact tick
    let (t, s) = buf.read(103).expect("tick 103 is recorded");
    assert_eq!(t, 103);
    assert_eq!(s.values, vec![3, 4]);
    // a missing tick falls back to the most recent earlier snapshot
    let before = buf.missed;
    let (t, s) = buf.read(102).expect("tick 100 backs tick 102");
    assert_eq!(t, 100);
    assert_eq!(s.values, vec![1, 2]);
    assert_eq!(buf.missed, before + 1);
    // far in the past: nothing
    assert!(buf.read(90).is_none());
}

#[test]
fn fragment_reassembly_in_permuted_order() {
    let data: Vec<u8> = (0u16..1000).map(|x| (x % 251) as u8).collect();
    let frags = split_message(&data, 300);
    assert_eq!(frags.len(), 4);
    let count = frags.len() as u8;
    // insert the fragments in a scrambled order
    let order = [2usize, 0, 3, 1];
    let mut re = Reassembly::new(count);
    for &idx in order.iter() {
        assert!(!re.complete());
        assert!(re.insert(idx as u8, frags[idx].clone()));
    }
    // a duplicate fragment changes nothing
    assert!(!re.insert(2, frags[2].clone()));
    assert!(re.complete());
    assert_eq!(re.assemble(), data);
}

#[test]
fn fragment_split_shapes() {
    let data: Vec<u8> = vec![7; 600];
    let frags = split_message(&data, 300);
    assert_eq!(frags.len(), 2);
    assert_eq!(frags[0].len(), 300);
    assert_eq!(frags[1].len(), 300);
    let frags = split_message(&Vec::new(), 300);
    assert_eq!(frags.len(), 1);
    assert_eq!(frags[0].len(), 0);
}

#[test]
fn rtt_and_input_lead_formulas() {
    // 100 ms round trip with 4 ms server processing
    let rtt = compute_rtt_us(150_000, 46_000, 500, 4_500);
    assert_eq!(rtt, 100_000);
    // inconsistent timestamps yield zero
    assert_eq!(compute_rtt_us(10, 20, 0, 0), 0);
    // RTT 100 ms, tick 15.625 ms: ceil(50 / 15.625) = 4 ticks of lead
    let cfg = Config::default();
    let lead = input_lead_ticks(100_000, 0, cfg.tick_duration_us, cfg.input_lead_ticks_min, cfg.input_lead_ticks_max);
    assert_eq!(lead, 4);
    // the clamp floor applies for tiny round trips
    let lead = input_lead_ticks(1_000, 0, cfg.tick_duration_us, cfg.input_lead_ticks_min, cfg.input_lead_ticks_max);
    assert_eq!(lead, 2);
    // half the round trip rounds to the nearest tick
    assert_eq!(server_tick_estimate(1000, 100_000, cfg.tick_duration_us), 1003);
}

#[test]
fn clock_never_decreases_except_resync() {
    let mut c = ClientClock::new(65534);
    c.advance();
    assert_eq!(c.tick, 65535);
    c.advance();
    assert_eq!(c.tick, 0);
    // nudging decides a speed, not a tick change
    assert_eq!(c.nudge(0), SpeedAdjust::Nominal);
    assert_eq!(c.nudge(5), SpeedAdjust::SpeedUp);
    assert_eq!(c.nudge(65530), SpeedAdjust::SlowDown);
    assert_eq!(c.tick, 0);
    // drift beyond the threshold forces a resync, the one backwards step
    assert!(!c.needs_resync(30, 30));
    assert!(c.needs_resync(31, 30));
    c.resync(31);
    assert_eq!(c.tick, 31);
    assert_eq!(c.resync_count, 1);
}

#[test]
fn connection_lifecycle() {
    let mut c = Connection::new();
    assert_eq!(c.step(ConnEvent::ConnectRequest), ConnAction::SendHandshake);
    assert_eq!(c.state, ConnState::Connecting);
    // handshake retries are budgeted
    assert!(c.try_handshake(3));
    assert!(c.try_handshake(3));
    assert!(c.try_handshake(3));
    assert!(!c.try_handshake(3));
    assert_eq!(c.step(ConnEvent::HandshakeAck), ConnAction::BeginSync);
    assert_eq!(c.state, ConnState::Handshaking);
    assert_eq!(c.step(ConnEvent::SyncCompleted), ConnAction::EmitConnected);
    assert_eq!(c.state, ConnState::Connected);
    // silence past the keepalive timeout
    c.on_receive(1_000_000);
    assert!(!c.timed_out(5_000_000, 5_000_000));
    assert!(c.timed_out(6_000_001, 5_000_000));
    assert_eq!(c.step(ConnEvent::Timeout), ConnAction::EmitDisconnected);
    assert_eq!(c.state, ConnState::Disconnecting);
    assert_eq!(c.step(ConnEvent::DisconnectRequest), ConnAction::SendDisconnect);
    assert_eq!(c.state, ConnState::Disconnected);
}

#[test]
fn connection_ping_cadence() {
    let mut c = Connection::new();
    c.step(ConnEvent::ConnectRequest);
    c.step(ConnEvent::HandshakeAck);
    c.step(ConnEvent::SyncCompleted);
    c.on_send(1_000_000);
    assert!(!c.ping_due(1_500_000, 1_000_000));
    assert!(c.ping_due(2_000_000, 1_000_000));
}

#[test]
fn packing_is_oldest_first_within_budget() {
    // each frame costs its size plus a 3-byte frame header
    let sizes: Vec<usize> = vec![100, 200, 500, 10];
    assert_eq!(greedy_take(&sizes, 1200), 4);
    assert_eq!(greedy_take(&sizes, 800), 2);
    assert_eq!(greedy_take(&sizes, 50), 0);
    assert_eq!(priority_score(10, 3), 30);
    assert_eq!(priority_score(0, 1000), 0);
}

#[test]
fn diff_chain_reconstructs_last_snapshot() {
    let snaps: Vec<Vec<i16>> = vec![
        vec![0, 0, 0],
        vec![5, 0, 0],
        vec![5, -2, 0],
        vec![5, -2, 9],
        vec![0, 0, 0],
    ];
    let chain = lightyear::input::diff_chain(&snaps);
    assert_eq!(chain.len(), 4);
    let rebuilt = lightyear::input::apply_chain(&snaps[0], &chain);
    assert_eq!(rebuilt, snaps[4]);
}

#[test]
fn input_chain_range_reconstructs_and_is_idempotent() {
    let mut buf = InputBuffer::new(16);
    let base: Vec<i16> = vec![0, 0, 0];
    let chain: Vec<Vec<(u8, i16)>> = vec![vec![(0, 5)], vec![(2, -9)]];
    buf.apply_chain_range(100, &base, &chain);
    let (t, s) = buf.read(102).expect("the final tick of the run is recorded");
    assert_eq!(t, 102);
    assert_eq!(s.values, vec![5, 0, -9]);
    let (t, s) = buf.read(101).expect("the middle tick is recorded");
    assert_eq!((t, s.values), (101, vec![5, 0, 0]));
    // replaying the same payload is idempotent
    buf.apply_chain_range(100, &base, &chain);
    let (_, s) = buf.read(102).unwrap();
    assert_eq!(s.values, vec![5, 0, -9]);
}

#[test]
fn nearest_sampling_picks_the_closer_keyframe() {
    let mut it = Interpolator::new();
    it.add_sample(10, 0);
    it.add_sample(12, 200);
    // exactly halfway rounds to the newer keyframe
    let (v, idx) = it.sample_nearest(11, 0);
    assert_eq!((v, idx), (200, Some(0)));
    // just past the older keyframe stays with it
    let (v, _) = it.sample_nearest(10, 100);
    assert_eq!(v, 0);
    // outside the range: hold and stall, like the linear sampler
    let stalls = it.stall_count;
    let (v, idx) = it.sample_nearest(20, 0);
    assert_eq!((v, idx), (200, None));
    assert_eq!(it.stall_count, stalls + 1);
}

#[test]
fn mismatch_set_scopes_partial_rollback() {
    let predicted: Vec<(u32, Vec<u8>)> = vec![(1, vec![1]), (2, vec![2])];
    let confirmed: Vec<(u32, Vec<u8>)> = vec![(1, vec![1]), (2, vec![9]), (3, vec![3])];
    let set = mismatched_entities(&predicted, &confirmed);
    assert_eq!(set, vec![2, 3], "only the diverged entities need rolling back");
    let clean = mismatched_entities(&confirmed, &confirmed);
    assert_eq!(clean.len(), 0);
}

#[test]
fn input_range_serializes_and_reapplies() {
    let mut client = InputBuffer::new(16);
    client.record(50, InputSnapshot { values: vec![1, 2] });
    client.record(51, InputSnapshot { values: vec![1, 3] });
    client.record(52, InputSnapshot { values: vec![0, 3] });
    let (base, chain) = client.serialize_range(50, 2).expect("every tick of the range is recorded");
    assert_eq!(base, vec![1, 2]);
    assert_eq!(chain.len(), 2);
    // the server reconstructs the run from the redundant payload
    let mut server = InputBuffer::new(16);
    server.apply_chain_range(50, &base, &chain);
    let (t, s) = server.read(52).expect("the final tick is recorded");
    assert_eq!((t, s.values), (52, vec![0, 3]));
    let (t, s) = server.read(51).expect("the middle tick is recorded");
    assert_eq!((t, s.values), (51, vec![1, 3]));
    // a range with an unrecorded tick cannot be serialized
    assert!(client.serialize_range(49, 2).is_none());
}
