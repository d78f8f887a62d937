use lightyear::ack::AckWindow;
use lightyear::ack::Receipt;
use lightyear::channel::ChannelReceipt;
use lightyear::channel::OrderedReceiver;
use lightyear::channel::ReliableSender;
use lightyear::tick::tick_add;
use lightyear::tick::tick_diff;
use lightyear::tick::tick_newer;
use lightyear::tick::tick_sub;

#[test]
fn tick_comparison_across_wraparound() {
    // 2 is three ticks after 65535
    assert_eq!(tick_diff(2, 65535), 3);
    assert_eq!(tick_diff(65535, 2), -3);
    assert!(tick_newer(2, 65535));
    assert!(!tick_newer(65535, 2));
    assert_eq!(tick_add(65535, 3), 2);
    assert_eq!(tick_sub(2, 3), 65535);
    assert_eq!(tick_diff(0, 0x8000), -0x8000);
    assert_eq!(tick_diff(5, 5), 0);
}

#[test]
fn ack_window_accepts_fresh_and_detects_duplicates() {
    let mut w = AckWindow::new();
    assert_eq!(w.on_receive(10), Receipt::Fresh);
    assert_eq!(w.on_receive(11), Receipt::Fresh);
    assert_eq!(w.on_receive(11), Receipt::Duplicate);
    assert_eq!(w.on_receive(10), Receipt::Duplicate);
    // out-of-order arrival inside the window
    assert_eq!(w.on_receive(5), Receipt::Fresh);
    assert_eq!(w.on_receive(5), Receipt::Duplicate);
    assert!(w.is_acked(5));
    assert!(w.is_acked(10));
    assert!(w.is_acked(11));
    assert!(!w.is_acked(7));
}

#[test]
fn ack_window_boundary() {
    let mut w = AckWindow::new();
    assert_eq!(w.on_receive(100), Receipt::Fresh);
    // exactly 32 behind the latest is still inside the window
    assert_eq!(w.on_receive(68), Receipt::Fresh);
    assert_eq!(w.on_receive(68), Receipt::Duplicate);
    // 33 behind is outside
    assert_eq!(w.on_receive(67), Receipt::Stale);
    // jumping far ahead clears the old marks out of the window
    assert_eq!(w.on_receive(200), Receipt::Fresh);
    assert_eq!(w.on_receive(100), Receipt::Stale);
}

#[test]
fn ack_window_sequence_wraparound() {
    let mut w = AckWindow::new();
    assert_eq!(w.on_receive(65534), Receipt::Fresh);
    assert_eq!(w.on_receive(1), Receipt::Fresh);
    assert_eq!(w.on_receive(65535), Receipt::Fresh);
    assert_eq!(w.on_receive(65534), Receipt::Duplicate);
    assert_eq!(w.on_receive(65535), Receipt::Duplicate);
    assert_eq!(w.on_receive(1), Receipt::Duplicate);
    assert_eq!(w.on_receive(0), Receipt::Fresh);
    assert!(w.is_acked(65534));
    assert!(w.is_acked(0));
}

#[test]
fn ordered_receiver_delivers_in_order_exactly_once() {
    let mut r = OrderedReceiver::new(0);
    // id 2 arrives early: held
    assert_eq!(r.on_message(2, vec![2]), ChannelReceipt::Held);
    assert_eq!(r.on_message(2, vec![2]), ChannelReceipt::AlreadyHeld);
    assert!(r.pop_ready().is_none());
    // id 0 arrives: delivered at once
    assert_eq!(r.on_message(0, vec![0]), ChannelReceipt::Deliver);
    assert!(r.pop_ready().is_none());
    // id 1 closes the gap: delivered at once, and 2 pops right after
    assert_eq!(r.on_message(1, vec![1]), ChannelReceipt::Deliver);
    let (id2, d2) = r.pop_ready().expect("id 2 is ready");
    assert_eq!((id2, d2), (2, vec![2]));
    assert!(r.pop_ready().is_none());
    // everything delivered arrives again: duplicates, never re-delivered
    assert_eq!(r.on_message(0, vec![0]), ChannelReceipt::Duplicate);
    assert_eq!(r.on_message(1, vec![1]), ChannelReceipt::Duplicate);
    assert_eq!(r.on_message(2, vec![2]), ChannelReceipt::Duplicate);
}

#[test]
fn ordered_receiver_message_id_wraparound() {
    let mut r = OrderedReceiver::new(65535);
    assert_eq!(r.on_message(0, vec![10]), ChannelReceipt::Held);
    assert_eq!(r.on_message(65535, vec![9]), ChannelReceipt::Deliver);
    let (id, data) = r.pop_ready().expect("the wrapped id is ready");
    assert_eq!(id, 0);
    assert_eq!(data, vec![10]);
    assert_eq!(r.on_message(65535, vec![9]), ChannelReceipt::Duplicate);
}

#[test]
fn reliable_sender_keeps_unacked_messages() {
    let mut s = ReliableSender::new(0);
    let a = s.send(vec![1]);
    let b = s.send(vec![2]);
    let c = s.send(vec![3]);
    assert_eq!((a, b, c), (0, 1, 2));
    assert_eq!(s.pending.len(), 3);
    // acknowledging the middle message removes exactly it
    assert!(s.mark_delivered(b));
    assert_eq!(s.pending.len(), 2);
    assert!(!s.mark_delivered(b));
    // a lost message is re-queued under a fresh id, payload intact
    let fresh = s.reassign_for_resend(c).expect("c is still pending");
    assert_eq!(fresh, 3);
    assert_eq!(s.pending.len(), 2);
    assert!(s.mark_delivered(fresh));
    assert!(s.mark_delivered(a));
    assert_eq!(s.pending.len(), 0);
}
