use lightyear::channel::ChannelReceipt;
use lightyear::channel::OrderedReceiver;
use lightyear::channel::ReliableSender;
use lightyear::clock::ClientClock;
use lightyear::input::{InputBuffer, InputSnapshot};
use lightyear::interp::Interpolator;
use lightyear::timeline::ApplyResult;
use lightyear::timeline::ConfirmedTimeline;
use lightyear::timeline::PredictedTimeline;
use lightyear::timeline::RollbackDecision;

/// A deterministic stand-in simulation: one entity whose state bytes
/// are a function of the tick and the inputs applied so far.
fn sim_state(tick: u16, force: i32) -> Vec<(u32, Vec<u8>)> {
    let pos: i32 = (tick as i32) * 3 + force;
    vec![(1, pos.to_le_bytes().to_vec())]
}

#[test]
fn lossless_lockstep_no_rollbacks() {
    // two clients, no loss, no latency: after 1000 ticks the confirmed
    // and predicted timelines agree at every retained tick, and no
    // rollback was ever decided
    for _client in 0..2 {
        let mut confirmed = ConfirmedTimeline::new(64);
        let mut predicted = PredictedTimeline::new(64);
        let mut rollbacks = 0u32;
        for tick in 0..1000u16 {
            let server_state = sim_state(tick, 0);
            let client_state = sim_state(tick, 0);
            predicted.record(tick, client_state);
            assert_eq!(confirmed.apply(tick, server_state.clone(), 30), ApplyResult::Applied);
            match predicted.reconcile(tick, &server_state, tick) {
                RollbackDecision::Clean => {}
                _ => rollbacks += 1,
            }
        }
        assert_eq!(rollbacks, 0);
        // every tick still in the window agrees
        for tick in (1000 - 64)..1000u16 {
            let c = confirmed.timeline.get(tick).expect("confirmed holds the tick");
            let p = predicted.timeline.get(tick).expect("predicted holds the tick");
            assert_eq!(c, p);
        }
    }
}

#[test]
fn bounded_loss_reliable_delivery() {
    // every fifth datagram is lost (20%); each reliable message still
    // arrives, exactly once, within five send rounds
    let total: u16 = 50;
    let mut sender = ReliableSender::new(0);
    for i in 0..total {
        sender.send(vec![i as u8]);
    }
    let mut receiver = OrderedReceiver::new(0);
    let mut delivered: Vec<u16> = Vec::new();
    let mut datagrams: u32 = 0;
    let mut rounds: u32 = 0;
    while !sender.pending.is_empty() {
        rounds += 1;
        assert!(rounds <= 5, "all messages must arrive within five rounds");
        let in_flight: Vec<(u16, Vec<u8>)> = sender.pending.clone();
        for (id, data) in in_flight {
            datagrams += 1;
            if datagrams % 5 == 0 {
                continue; // this datagram is lost
            }
            match receiver.on_message(id, data) {
                ChannelReceipt::Deliver => delivered.push(id),
                ChannelReceipt::Held => {}
                ChannelReceipt::AlreadyHeld | ChannelReceipt::Duplicate => {}
            }
            while let Some((rid, _)) = receiver.pop_ready() {
                delivered.push(rid);
            }
            // the ack rides back losslessly here
            sender.mark_delivered(id);
        }
    }
    assert_eq!(delivered.len(), total as usize);
    for (k, id) in delivered.iter().enumerate() {
        assert_eq!(*id, k as u16, "delivery is in order and exactly once");
    }
}

#[test]
fn rollback_on_mispredict() {
    let mut predicted = PredictedTimeline::new(64);
    let client_tick: u16 = 110;
    // the client predicts without the server-side force
    for tick in 100..=client_tick {
        predicted.record(tick, sim_state(tick, 0));
    }
    // the server applied a force at tick 104: its state differs
    let mispredict_tick: u16 = 104;
    let server_state = sim_state(mispredict_tick, 7);
    match predicted.reconcile(mispredict_tick, &server_state, client_tick) {
        RollbackDecision::Rollback { restore, through } => {
            assert_eq!(restore, mispredict_tick);
            assert_eq!(through, client_tick);
        }
        _ => panic!("a diverged tick must decide a rollback"),
    }
    // reconciliation already overwrote the restore tick with server truth
    assert_eq!(predicted.timeline.get(mispredict_tick), Some(&server_state));
    // the replay runs the simulation forward with the force applied
    for tick in (mispredict_tick + 1)..=client_tick {
        predicted.record(tick, sim_state(tick, 7));
    }
    for tick in mispredict_tick..=client_tick {
        assert_eq!(predicted.timeline.get(tick), Some(&sim_state(tick, 7)));
    }
    // a second reconciliation at that tick is clean: no rollback loop
    assert!(matches!(
        predicted.reconcile(mispredict_tick, &server_state, client_tick),
        RollbackDecision::Clean
    ));
}

#[test]
fn mismatch_outside_window_forces_resync() {
    let mut predicted = PredictedTimeline::new(64);
    for tick in 200..264u16 {
        predicted.record(tick, sim_state(tick, 0));
    }
    // tick 100 left the window long ago
    let decision = predicted.reconcile(100, &sim_state(100, 7), 263);
    assert!(matches!(decision, RollbackDecision::Resync));
}

#[test]
fn confirmed_timeline_is_stable() {
    let mut confirmed = ConfirmedTimeline::new(64);
    for tick in 0..100u16 {
        assert_eq!(confirmed.apply(tick, sim_state(tick, 0), 30), ApplyResult::Applied);
    }
    assert_eq!(confirmed.confirmed, 99);
    // a slot more than the stability threshold behind the confirmed
    // tick is settled: a late reordered update for it is dropped, even
    // though the slot is still inside the retained window
    let stale_before = confirmed.stale_count;
    assert_eq!(confirmed.apply(59, sim_state(59, 9), 30), ApplyResult::Stale);
    assert_eq!(confirmed.stale_count, stale_before + 1);
    assert_eq!(confirmed.timeline.get(59), Some(&sim_state(59, 0)));
    // far older than the window: dropped too
    assert_eq!(confirmed.apply(20, sim_state(20, 9), 30), ApplyResult::Stale);
    // a correction inside the stability threshold replaces only its own tick
    assert_eq!(confirmed.apply(90, sim_state(90, 1), 30), ApplyResult::Applied);
    assert_eq!(confirmed.timeline.get(90), Some(&sim_state(90, 1)));
    assert_eq!(confirmed.timeline.get(91), Some(&sim_state(91, 0)));
    assert_eq!(confirmed.timeline.get(99), Some(&sim_state(99, 0)));
    assert_eq!(confirmed.confirmed, 99);
}

#[test]
fn interpolation_stall_holds_value_and_recovers() {
    let mut it = Interpolator::new();
    it.add_sample(10, 0);
    it.add_sample(12, 200);
    // inside the range: a linear blend
    let (v, idx) = it.sample_at(11, 0);
    assert_eq!(idx, Some(0));
    assert_eq!(v, 100);
    let (v, _) = it.sample_at(10, 128); // half a tick past sample 10
    assert_eq!(v, 50);
    // all packets stop: render time runs past the newest keyframe
    let stalls_before = it.stall_count;
    let (v, idx) = it.sample_at(20, 0);
    assert_eq!(idx, None);
    assert_eq!(v, 200, "the last known value is held");
    assert_eq!(it.stall_count, stalls_before + 1);
    // recovery: new keyframes arrive and sampling resumes smoothly
    it.add_sample(24, 220);
    it.add_sample(26, 240);
    let (v, idx) = it.sample_at(25, 0);
    assert_eq!(idx, Some(2));
    assert_eq!(v, 230, "interpolation catches up without teleporting");
}

#[test]
fn pause_beyond_threshold_resyncs() {
    let threshold: u16 = 30;
    let mut clock = ClientClock::new(500);
    // the client pauses while the server runs on for 2x the threshold
    let target = 500 + 2 * threshold;
    assert!(clock.needs_resync(target, threshold));
    clock.resync(target);
    assert_eq!(clock.tick, target);
    assert_eq!(clock.resync_count, 1);
    // predicted state is rebuilt from confirmed truth
    let mut confirmed = ConfirmedTimeline::new(64);
    assert_eq!(confirmed.apply(target, sim_state(target, 0), 30), ApplyResult::Applied);
    let mut predicted = PredictedTimeline::new(64);
    let truth = confirmed.timeline.get(target).expect("confirmed holds the resync tick").clone();
    predicted.record(target, truth);
    assert!(matches!(
        predicted.reconcile(target, &sim_state(target, 0), target),
        RollbackDecision::Clean
    ));
}

#[test]
fn redundant_inputs_survive_datagram_loss() {
    // inputs ride unreliable datagrams with the last four ticks in
    // each; with every fifth datagram lost, the server still sees an
    // input for every tick: redundancy, not reliability, covers loss
    let mut client = InputBuffer::new(64);
    let mut server = InputBuffer::new(64);
    let mut datagrams: u32 = 0;
    let ticks: u16 = 500;
    for tick in 1..=ticks {
        client.record(tick, InputSnapshot { values: vec![tick as i16] });
        datagrams += 1;
        if datagrams % 5 == 0 {
            continue; // this datagram is lost
        }
        // the datagram carries the snapshots of the last four ticks
        let from = tick.saturating_sub(3).max(1);
        for t in from..=tick {
            if let Some((ht, snap)) = client.read(t) {
                if ht == t {
                    server.apply(t, snap);
                }
            }
        }
    }
    // the server replays each tick; count the reads that had to fall
    // back to an earlier tick
    let mut missed: u32 = 0;
    for tick in (ticks - 63)..=ticks {
        let (ht, _) = server.read(tick).expect("some input backs every tick");
        if ht != tick {
            missed += 1;
        }
    }
    assert!(missed * 50 <= 64, "the input-miss rate stays at or under 2%");
}
