//! Per-connection protocol composition: one arriving datagram in, the
//! messages it releases out; queued messages in, assembled packets
//! out. This is spec work the transport must not touch: the
//! acknowledgement protocol keys on packet sequence numbers through a
//! map of which reliable message ids each packet carried — never on
//! the message ids themselves — and a reliable message leaves the send
//! queue only when a packet recorded as carrying it is acknowledged,
//! or is re-queued under a fresh id when its packet is inferred lost.
use vstd::prelude::*;
use crate::ack::ack_covers;
use crate::ack::win_acked;
use crate::ack::AckWindow;
use crate::ack::Receipt;
use crate::bytes::le_val;
use crate::bytes::lemma_le_bytes_len;
use crate::bytes::lemma_le_round;
use crate::bytes::lemma_pow256_values;
use crate::channel::has_id;
use crate::channel::ChannelReceipt;
use crate::channel::OrderedReceiver;
use crate::channel::ReliableSender;
use crate::channel::SequencedReceiver;
use crate::channel::UnorderedReceiver;
use crate::fragment::Reassembly;
use crate::message::decode_message;
use crate::message::spec_decode;
use crate::message::Message;
use crate::message::MessageView;
use crate::packet::build_packet;
use crate::packet::dec_frames;
use crate::packet::decode_reliable_body;
use crate::packet::enc_header;
use crate::packet::encode_reliable_body;
use crate::packet::frames_size;
use crate::packet::lemma_packet_shape;
use crate::packet::rf_count;
use crate::packet::rf_data;
use crate::packet::rf_id;
use crate::packet::FrameView;
use crate::packet::PacketHeader;
use crate::packet::ReliableFrameHeader;
use crate::tick::tick_delta;
use crate::tick::tick_diff;

verus! {

/// Channel id of the reliable-ordered stream on the wire.
pub const CHANNEL_RELIABLE_ORDERED: u8 = 0;

/// Channel id of the reliable-unordered stream on the wire.
pub const CHANNEL_RELIABLE_UNORDERED: u8 = 1;

/// Channel id of the drop-old sequenced stream on the wire.
pub const CHANNEL_UNRELIABLE_SEQUENCED: u8 = 2;

/// Channel id of the best-effort stream on the wire.
pub const CHANNEL_UNRELIABLE: u8 = 3;

/// The packet sequence of a datagram, read from its header bytes.
pub open spec fn hdr_seq(s: Seq<u8>) -> u16 {
    le_val(s.subrange(8, 10)) as u16
}

/// The piggybacked ack of a datagram.
pub open spec fn hdr_ack(s: Seq<u8>) -> u16 {
    le_val(s.subrange(10, 12)) as u16
}

/// The piggybacked ack bitfield of a datagram.
pub open spec fn hdr_bits(s: Seq<u8>) -> u32 {
    le_val(s.subrange(12, 16)) as u32
}

/// Message id `id` is acknowledged through `carried`: some recorded
/// packet covered by the ack pair carried it.
pub open spec fn acked_via(carried: Seq<(u16, Vec<u16>)>, ack: u16, bits: u32, id: u16) -> bool {
    exists|k: int, j: int|
        {
            &&& 0 <= k < carried.len()
            &&& win_acked(ack, bits, carried[k].0)
            &&& 0 <= j < carried[k].1@.len()
            &&& (#[trigger] carried[k].1@[j]) == id
        }
}

/// Message id `id` rode a packet whose sequence has fallen out of the
/// peer's ack window: that packet can never be acknowledged and counts
/// as lost.
pub open spec fn lost_via(carried: Seq<(u16, Vec<u16>)>, ack: u16, id: u16) -> bool {
    exists|k: int, j: int|
        {
            &&& 0 <= k < carried.len()
            &&& tick_delta(ack, carried[k].0) > 32
            &&& 0 <= j < carried[k].1@.len()
            &&& (#[trigger] carried[k].1@[j]) == id
        }
}

/// The datagram is acceptable (well-formed, our protocol, a sequence
/// not seen before) and consists of exactly one unfragmented
/// reliable-ordered frame carrying the next expected message id, not
/// already held, whose bytes decode to a message: the plainest case in
/// which delivery upward is owed outright.
pub open spec fn sole_frontier_frame(pump: PacketPump, s: Seq<u8>, protocol_id: u64) -> bool {
    let fr = dec_frames(s.skip(16));
    &&& s.len() >= 16
    &&& le_val(s.take(8)) == protocol_id
    &&& !pump.acks.acked(hdr_seq(s))
    &&& !(pump.acks.started && tick_delta(hdr_seq(s), pump.acks.latest) < -32)
    &&& fr is Some
    &&& fr.unwrap().len() == 1
    &&& fr.unwrap()[0].0 == CHANNEL_RELIABLE_ORDERED
    &&& fr.unwrap()[0].1.len() >= 4
    &&& rf_count(fr.unwrap()[0].1) <= 1
    &&& rf_id(fr.unwrap()[0].1) == pump.reliable_in.next_id
    &&& !has_id(pump.reliable_in.held@, rf_id(fr.unwrap()[0].1))
    &&& spec_decode(rf_data(fr.unwrap()[0].1)) is Some
}

/// The message such a frame carries.
pub open spec fn sole_frame_message(s: Seq<u8>) -> MessageView {
    spec_decode(rf_data(dec_frames(s.skip(16)).unwrap()[0].1)).unwrap()
}

/// The header bytes of an accepted datagram pin the spec-level header
/// fields.
proof fn lemma_header_fields(s: Seq<u8>, h: PacketHeader)
    requires
        s.len() >= 16,
        s.take(16) == enc_header(h),
    ensures
        hdr_seq(s) == h.seq,
        hdr_ack(s) == h.ack,
        hdr_bits(s) == h.ack_bits,
{
    lemma_pow256_values();
    lemma_le_bytes_len(h.protocol_id as int, 8);
    lemma_le_bytes_len(h.seq as int, 2);
    lemma_le_bytes_len(h.ack as int, 2);
    lemma_le_bytes_len(h.ack_bits as int, 4);
    assert(s.subrange(8, 10) =~= crate::bytes::le_bytes(h.seq as int, 2)) by {
        assert(s.take(16).subrange(8, 10) =~= s.subrange(8, 10));
    }
    assert(s.subrange(10, 12) =~= crate::bytes::le_bytes(h.ack as int, 2)) by {
        assert(s.take(16).subrange(10, 12) =~= s.subrange(10, 12));
    }
    assert(s.subrange(12, 16) =~= crate::bytes::le_bytes(h.ack_bits as int, 4)) by {
        assert(s.take(16).subrange(12, 16) =~= s.subrange(12, 16));
    }
    lemma_le_round(h.seq as int, 2);
    lemma_le_round(h.ack as int, 2);
    lemma_le_round(h.ack_bits as int, 4);
}

/// Removing an entry that carries a different id keeps `id` present.
proof fn lemma_has_id_remove(s: Seq<(u16, Vec<u8>)>, k: int, id: u16)
    requires
        0 <= k < s.len(),
        s[k].0 != id,
        has_id(s, id),
    ensures
        has_id(s.remove(k), id),
{
    let j = choose|j: int| 0 <= j < s.len() && (#[trigger] s[j]).0 == id;
    if j < k {
        assert(s.remove(k)[j] == s[j]);
    } else {
        assert(s.remove(k)[j - 1] == s[j]);
    }
}

/// Updating an entry that carries a different id keeps `id` present.
proof fn lemma_has_id_update(s: Seq<(u16, Vec<u8>)>, k: int, e: (u16, Vec<u8>), id: u16)
    requires
        0 <= k < s.len(),
        s[k].0 != id,
        has_id(s, id),
    ensures
        has_id(s.update(k, e), id),
{
    let j = choose|j: int| 0 <= j < s.len() && (#[trigger] s[j]).0 == id;
    assert(j != k);
    assert(s.update(k, e)[j] == s[j]);
}

/// Why a message cannot be queued on its channel.
#[derive(Clone, Copy, Debug, PartialEq, Eq, Structural)]
pub enum SendError {
    /// An unfragmentable message wider than one packet's budget.
    FrameTooLarge,
}

/// One connection's verified protocol state: acknowledgement window,
/// reliable channel ends, fragment reassembly, and the record of which
/// reliable message ids each in-flight packet carried.
pub struct PacketPump {
    /// Receive-side window over peer packet sequences; also the ack
    /// fields our own packets carry back.
    pub acks: AckWindow,
    /// Reliable-ordered send side.
    pub reliable_out: ReliableSender,
    /// Reliable-ordered receive side.
    pub reliable_in: OrderedReceiver,
    /// Reliable-unordered receive side: any order, each id once.
    pub unordered_in: UnorderedReceiver,
    /// Drop-old gate of the unreliable-sequenced stream.
    pub sequenced_in: SequencedReceiver,
    /// Sequence of the next outbound sequenced frame.
    pub sequenced_next: u16,
    /// Sequenced frames waiting for the next flush.
    pub sequenced_out: Vec<Vec<u8>>,
    /// Packet sequence to the reliable message ids it carried.
    pub carried: Vec<(u16, Vec<u16>)>,
    /// Reassembly buffers of fragmented messages, by message id.
    pub partial: Vec<(u16, Reassembly)>,
    /// Best-effort frames waiting for the next flush.
    pub unreliable_out: Vec<Vec<u8>>,
    /// Sequence of the next outbound packet.
    pub next_seq: u16,
    /// Malformed or alien datagrams dropped.
    pub violations: u32,
}

impl PacketPump {
    pub open spec fn wf(self) -> bool {
        &&& self.reliable_in.wf()
        &&& forall|k: int|
            0 <= k < self.partial@.len() ==> (#[trigger] self.partial@[k]).1.wf()
    }

    pub fn new() -> (r: PacketPump)
        ensures
            r.wf(),
            r.reliable_out.pending@.len() == 0,
            r.carried@.len() == 0,
            r.unreliable_out@.len() == 0,
            r.sequenced_out@.len() == 0,
            r.violations == 0,
    {
        PacketPump {
            acks: AckWindow::new(),
            reliable_out: ReliableSender::new(0),
            reliable_in: OrderedReceiver::new(0),
            unordered_in: UnorderedReceiver::new(),
            sequenced_in: SequencedReceiver::new(),
            sequenced_next: 0,
            sequenced_out: Vec::new(),
            carried: Vec::new(),
            partial: Vec::new(),
            unreliable_out: Vec::new(),
            next_seq: 0,
            violations: 0,
        }
    }

    /// Queue a message's bytes on the reliable-ordered channel.
    pub fn send_reliable(&mut self, data: Vec<u8>) -> (id: u16)
        requires
            old(self).wf(),
        ensures
            final(self).wf(),
            id == old(self).reliable_out.next_id,
            final(self).reliable_out.pending@ == old(self).reliable_out.pending@.push((id, data)),
            final(self).reliable_in == old(self).reliable_in,
            final(self).carried == old(self).carried,
            final(self).acks == old(self).acks,
    {
        self.reliable_out.send(data)
    }

    /// Queue a message's bytes on the best-effort channel. A message
    /// that cannot ride one packet at this MTU is refused outright:
    /// the unreliable channel does not fragment.
    pub fn send_unreliable(&mut self, data: Vec<u8>, mtu: usize) -> (r: Result<(), SendError>)
        requires
            old(self).wf(),
            64 <= mtu,
        ensures
            final(self).wf(),
            (r matches Err(e) && e is FrameTooLarge) <==> data@.len() + 19 > mtu,
            r is Err ==> *final(self) == *old(self),
            r is Ok ==> final(self).unreliable_out@ == old(self).unreliable_out@.push(data),
            final(self).reliable_out == old(self).reliable_out,
            final(self).reliable_in == old(self).reliable_in,
            final(self).carried == old(self).carried,
            final(self).acks == old(self).acks,
    {
        if data.len() > mtu - 19 {
            return Err(SendError::FrameTooLarge);
        }
        self.unreliable_out.push(data);
        Ok(())
    }

    /// Queue a message's bytes on the unreliable-sequenced channel: it
    /// rides behind the next sequence number, and the peer drops it if
    /// something newer already arrived. This channel does not fragment
    /// either.
    pub fn send_sequenced(&mut self, data: Vec<u8>, mtu: usize) -> (r: Result<(), SendError>)
        requires
            old(self).wf(),
            64 <= mtu,
        ensures
            final(self).wf(),
            (r matches Err(e) && e is FrameTooLarge) <==> data@.len() + 21 > mtu,
            r is Err ==> *final(self) == *old(self),
            r is Ok ==> {
                &&& final(self).sequenced_out@.len() == old(self).sequenced_out@.len() + 1
                &&& final(self).sequenced_out@.last()@ == crate::bytes::le_bytes(
                    old(self).sequenced_next as int,
                    2,
                ) + data@
                &&& final(self).sequenced_next == crate::tick::tick_plus(
                    old(self).sequenced_next,
                    1,
                )
            },
            final(self).reliable_out == old(self).reliable_out,
            final(self).reliable_in == old(self).reliable_in,
            final(self).carried == old(self).carried,
            final(self).acks == old(self).acks,
    {
        if data.len() > mtu - 21 {
            return Err(SendError::FrameTooLarge);
        }
        let mut frame: Vec<u8> = Vec::new();
        crate::bytes::push_u16(&mut frame, self.sequenced_next);
        crate::bytes::push_bytes(&mut frame, &data);
        self.sequenced_next = crate::tick::tick_add(self.sequenced_next, 1);
        self.sequenced_out.push(frame);
        Ok(())
    }

    /// Process the piggybacked acknowledgement of an accepted packet:
    /// every recorded packet the ack pair covers has its carried
    /// messages marked delivered; every recorded packet that has
    /// fallen out of the ack window is lost, and its carried messages
    /// are re-queued under fresh ids. A pending id leaves the queue in
    /// no other way.
    fn process_acks(&mut self, ack: u16, bits: u32)
        ensures
            final(self).acks == old(self).acks,
            final(self).reliable_in == old(self).reliable_in,
            final(self).partial == old(self).partial,
            final(self).unreliable_out == old(self).unreliable_out,
            final(self).next_seq == old(self).next_seq,
            final(self).violations == old(self).violations,
            forall|id: u16|
                #[trigger] has_id(old(self).reliable_out.pending@, id) ==> has_id(
                    final(self).reliable_out.pending@,
                    id,
                ) || acked_via(old(self).carried@, ack, bits, id) || lost_via(
                    old(self).carried@,
                    ack,
                    id,
                ),
    {
        let ghost carried0 = self.carried@;
        let ghost pending0 = self.reliable_out.pending@;
        let mut kept: Vec<(u16, Vec<u16>)> = Vec::new();
        let mut k: usize = 0;
        while k < self.carried.len()
            invariant
                k <= self.carried@.len(),
                self.carried@ == carried0,
                self.acks == old(self).acks,
                self.reliable_in == old(self).reliable_in,
                self.partial == old(self).partial,
                self.unreliable_out == old(self).unreliable_out,
                self.next_seq == old(self).next_seq,
                self.violations == old(self).violations,
                forall|id: u16|
                    #[trigger] has_id(pending0, id) ==> has_id(
                        self.reliable_out.pending@,
                        id,
                    ) || acked_via(carried0, ack, bits, id) || lost_via(carried0, ack, id),
            decreases self.carried@.len() - k,
        {
            let seq = self.carried[k].0;
            let covered = ack_covers(ack, bits, seq);
            let lost = !covered && tick_diff(ack, seq) > 32;
            if covered || lost {
                let n = self.carried[k].1.len();
                let mut j: usize = 0;
                while j < n
                    invariant
                        j <= n,
                        k < carried0.len(),
                        n == carried0[k as int].1@.len(),
                        self.carried@ == carried0,
                        self.acks == old(self).acks,
                        self.reliable_in == old(self).reliable_in,
                        self.partial == old(self).partial,
                        self.unreliable_out == old(self).unreliable_out,
                        self.next_seq == old(self).next_seq,
                        self.violations == old(self).violations,
                        covered ==> win_acked(ack, bits, carried0[k as int].0),
                        lost ==> tick_delta(ack, carried0[k as int].0) > 32,
                        covered || lost,
                        forall|id: u16|
                            #[trigger] has_id(pending0, id) ==> has_id(
                                self.reliable_out.pending@,
                                id,
                            ) || acked_via(carried0, ack, bits, id) || lost_via(
                                carried0,
                                ack,
                                id,
                            ),
                    decreases n - j,
                {
                    let id = self.carried[k].1[j];
                    let ghost before = self.reliable_out.pending@;
                    let ghost before_next = self.reliable_out.next_id;
                    proof {
                        if covered {
                            assert(acked_via(carried0, ack, bits, id)) by {
                                assert(carried0[k as int].1@[j as int] == id);
                            }
                        } else {
                            assert(lost_via(carried0, ack, id)) by {
                                assert(carried0[k as int].1@[j as int] == id);
                            }
                        }
                    }
                    if covered {
                        let found = self.reliable_out.mark_delivered(id);
                        proof {
                            if found {
                                let kk = choose|kk: int|
                                    0 <= kk < before.len() && (#[trigger] before[kk]).0 == id
                                        && self.reliable_out.pending@ == before.remove(kk);
                                assert forall|id2: u16|
                                    has_id(before, id2) && id2 != id implies has_id(
                                    self.reliable_out.pending@,
                                    id2,
                                ) by {
                                    lemma_has_id_remove(before, kk, id2);
                                }
                            }
                        }
                    } else {
                        let res = self.reliable_out.reassign_for_resend(id);
                        proof {
                            if res is Some {
                                let new_id = res.unwrap();
                                let kk = choose|kk: int|
                                    0 <= kk < before.len() && (#[trigger] before[kk]).0 == id
                                        && self.reliable_out.pending@ == before.update(
                                        kk,
                                        (new_id, before[kk].1),
                                    );
                                assert forall|id2: u16|
                                    has_id(before, id2) && id2 != id implies has_id(
                                    self.reliable_out.pending@,
                                    id2,
                                ) by {
                                    lemma_has_id_update(before, kk, (new_id, before[kk].1), id2);
                                }
                            }
                        }
                    }
                    j = j + 1;
                }
            } else {
                let seq_copy = self.carried[k].0;
                let ids_copy = copy_ids(&self.carried[k].1);
                kept.push((seq_copy, ids_copy));
            }
            k = k + 1;
        }
        self.carried = kept;
    }
}

fn copy_ids(v: &Vec<u16>) -> (r: Vec<u16>)
    ensures
        r@ == v@,
{
    let mut r: Vec<u16> = Vec::new();
    let mut i: usize = 0;
    while i < v.len()
        invariant
            i <= v@.len(),
            r@ == v@.take(i as int),
        decreases v@.len() - i,
    {
        let x = v[i];
        r.push(x);
        proof {
            assert(v@.take(i + 1) =~= v@.take(i as int).push(x));
        }
        i = i + 1;
    }
    proof {
        assert(v@.take(v@.len() as int) =~= v@);
    }
    r
}

impl PacketPump {
    /// Handle one arriving datagram. A datagram that is too short,
    /// carries a foreign protocol id, or whose body is not an exact
    /// run of frames is dropped and counted. A packet sequence seen
    /// before is dropped whole. An accepted packet first settles the
    /// acknowledgement bookkeeping (`process_acks`), then releases the
    /// messages its frames complete, reliable ones in ascending id
    /// order through the ordered receiver, fragments through their
    /// reassembly buffers.
    pub fn handle_datagram(&mut self, bytes: &Vec<u8>, protocol_id: u64) -> (out: Vec<Message>)
        requires
            old(self).wf(),
        ensures
            final(self).wf(),
            forall|id: u16|
                #[trigger] has_id(old(self).reliable_out.pending@, id) ==> has_id(
                    final(self).reliable_out.pending@,
                    id,
                ) || acked_via(old(self).carried@, hdr_ack(bytes@), hdr_bits(bytes@), id)
                    || lost_via(old(self).carried@, hdr_ack(bytes@), id),
            (bytes@.len() < 16 || le_val(bytes@.take(8)) != protocol_id) ==> {
                &&& final(self).acks == old(self).acks
                &&& final(self).reliable_out == old(self).reliable_out
                &&& final(self).reliable_in == old(self).reliable_in
                &&& final(self).unordered_in == old(self).unordered_in
                &&& final(self).sequenced_in == old(self).sequenced_in
                &&& final(self).carried == old(self).carried
                &&& final(self).partial == old(self).partial
                &&& out@.len() == 0
            },
            old(self).acks.acked(hdr_seq(bytes@)) && bytes@.len() >= 16 ==> {
                &&& final(self).reliable_out == old(self).reliable_out
                &&& final(self).reliable_in == old(self).reliable_in
                &&& final(self).unordered_in == old(self).unordered_in
                &&& final(self).sequenced_in == old(self).sequenced_in
                &&& final(self).carried == old(self).carried
                &&& final(self).partial == old(self).partial
                &&& out@.len() == 0
            },
            // a packet sequence already behind the receive window is
            // dropped whole
            old(self).acks.started && tick_delta(hdr_seq(bytes@), old(self).acks.latest) < -32
                && bytes@.len() >= 16 ==> {
                &&& final(self).reliable_out == old(self).reliable_out
                &&& final(self).reliable_in == old(self).reliable_in
                &&& final(self).unordered_in == old(self).unordered_in
                &&& final(self).sequenced_in == old(self).sequenced_in
                &&& final(self).carried == old(self).carried
                &&& final(self).partial == old(self).partial
                &&& out@.len() == 0
            },
            // an acceptable datagram is really taken in: its sequence is
            // recorded (or it was already behind the window)
            bytes@.len() >= 16 && le_val(bytes@.take(8)) == protocol_id && dec_frames(
                bytes@.skip(16),
            ) is Some ==> final(self).acks.acked(hdr_seq(bytes@)) || (old(self).acks.started
                && tick_delta(hdr_seq(bytes@), old(self).acks.latest) < -32),
            // delivery is owed, not optional: an acceptable packet whose
            // one reliable frame carries the next expected message
            // releases that message upward, first
            sole_frontier_frame(*old(self), bytes@, protocol_id) ==> out@.len() >= 1 && out@[0]@
                == sole_frame_message(bytes@),
    {
        let ghost special = sole_frontier_frame(*old(self), bytes@, protocol_id);
        let mut out: Vec<Message> = Vec::new();
        let parsed = crate::packet::parse_packet(bytes, protocol_id);
        let (header, frames) = match parsed {
            Ok(p) => p,
            Err(_) => {
                self.violations = self.violations.saturating_add(1);
                return out;
            },
        };
        proof {
            lemma_header_fields(bytes@, header);
            assert(le_val(bytes@.take(8)) == protocol_id) by {
                lemma_pow256_values();
                lemma_le_bytes_len(header.protocol_id as int, 8);
                assert(bytes@.take(8) =~= crate::bytes::le_bytes(header.protocol_id as int, 8)) by {
                    assert(bytes@.take(16).take(8) =~= bytes@.take(8));
                }
                lemma_le_round(header.protocol_id as int, 8);
            }
        }
        let receipt = self.acks.on_receive(header.seq);
        proof {
            if old(self).acks.acked(header.seq) {
                crate::tick::lemma_tick_delta_antisym(old(self).acks.latest, header.seq);
            }
        }
        if receipt != Receipt::Fresh {
            return out;
        }
        let ghost rob = self.reliable_out.pending@;
        let ghost cab = self.carried@;
        proof {
            assert(rob == old(self).reliable_out.pending@);
            assert(cab == old(self).carried@);
        }
        self.process_acks(header.ack, header.ack_bits);
        let ghost pending_after_acks = self.reliable_out;
        let ghost acks_after = self.acks;
        proof {
            assert(acks_after.acked(header.seq));
        }
        proof {
            assert forall|id: u16| #[trigger] has_id(old(self).reliable_out.pending@, id) implies (
            has_id(pending_after_acks.pending@, id) || acked_via(
                old(self).carried@,
                hdr_ack(bytes@),
                hdr_bits(bytes@),
                id,
            ) || lost_via(old(self).carried@, hdr_ack(bytes@), id)) by {
                assert(hdr_ack(bytes@) == header.ack);
                assert(hdr_bits(bytes@) == header.ack_bits);
                assert(has_id(rob, id));
                assert(has_id(pending_after_acks.pending@, id) || acked_via(
                    cab,
                    header.ack,
                    header.ack_bits,
                    id,
                ) || lost_via(cab, header.ack, id));
            }
        }
        let mut f: usize = 0;
        proof {
            if special {
                assert(frames@.map_values(|fr: (u8, Vec<u8>)| (fr.0, fr.1@)).len() == 1);
            }
        }
        while f < frames.len()
            invariant
                self.wf(),
                self.reliable_out == pending_after_acks,
                self.acks == acks_after,
                special == sole_frontier_frame(*old(self), bytes@, protocol_id),
                special ==> dec_frames(bytes@.skip(16)) == Some(
                    frames@.map_values(|fr: (u8, Vec<u8>)| (fr.0, fr.1@)),
                ),
                special ==> frames@.len() == 1,
                special && f == 0 ==> out@.len() == 0 && self.reliable_in == old(self).reliable_in,
                special && f >= 1 ==> out@.len() >= 1 && out@[0]@ == sole_frame_message(bytes@),
            decreases frames@.len() - f,
        {
            let channel = frames[f].0;
            if channel == CHANNEL_RELIABLE_ORDERED {
                match decode_reliable_body(&frames[f].1) {
                    Some((rh, body)) => {
                        let whole: Option<Vec<u8>> = if rh.fragment_count <= 1 {
                            Some(body)
                        } else if rh.fragment_idx >= rh.fragment_count {
                            self.violations = self.violations.saturating_add(1);
                            None
                        } else {
                            self.feed_fragment(rh.message_id, rh.fragment_idx, rh.fragment_count, body)
                        };
                        match whole {
                            Some(data) => {
                                let m_opt = decode_message(&data);
                                match self.reliable_in.on_message(rh.message_id, data) {
                                    ChannelReceipt::Deliver => {
                                        match m_opt {
                                            Some(m) => {
                                                out.push(m);
                                            },
                                            None => {
                                                self.violations = self.violations.saturating_add(
                                                    1,
                                                );
                                            },
                                        }
                                        let mut popping = true;
                                        while popping
                                            invariant
                                                self.wf(),
                                                self.reliable_out == pending_after_acks,
                                                self.acks == acks_after,
                                                special ==> out@.len() >= 1 && out@[0]@
                                                    == sole_frame_message(bytes@),
                                            decreases self.reliable_in.held@.len() + if popping {
                                                1int
                                            } else {
                                                0int
                                            },
                                        {
                                            match self.reliable_in.pop_ready() {
                                                Some((_, ready)) => {
                                                    match decode_message(&ready) {
                                                        Some(m2) => {
                                                            out.push(m2);
                                                        },
                                                        None => {
                                                            self.violations =
                                                                self.violations.saturating_add(1);
                                                        },
                                                    }
                                                },
                                                None => {
                                                    popping = false;
                                                },
                                            }
                                        }
                                    },
                                    _ => {},
                                }
                            },
                            None => {},
                        }
                    },
                    None => {
                        self.violations = self.violations.saturating_add(1);
                    },
                }
            } else if channel == CHANNEL_RELIABLE_UNORDERED {
                match decode_reliable_body(&frames[f].1) {
                    Some((rh, body)) => {
                        let whole: Option<Vec<u8>> = if rh.fragment_count <= 1 {
                            Some(body)
                        } else if rh.fragment_idx >= rh.fragment_count {
                            self.violations = self.violations.saturating_add(1);
                            None
                        } else {
                            self.feed_fragment(rh.message_id, rh.fragment_idx, rh.fragment_count, body)
                        };
                        match whole {
                            Some(data) => {
                                match self.unordered_in.on_message(rh.message_id, data) {
                                    Some(payload) => {
                                        match decode_message(&payload) {
                                            Some(m) => {
                                                out.push(m);
                                            },
                                            None => {
                                                self.violations = self.violations.saturating_add(
                                                    1,
                                                );
                                            },
                                        }
                                    },
                                    None => {},
                                }
                            },
                            None => {},
                        }
                    },
                    None => {
                        self.violations = self.violations.saturating_add(1);
                    },
                }
            } else if channel == CHANNEL_UNRELIABLE_SEQUENCED {
                if frames[f].1.len() < 2 {
                    self.violations = self.violations.saturating_add(1);
                } else {
                    let seq = crate::bytes::read_u16(&frames[f].1, 0);
                    if self.sequenced_in.on_sequence(seq) {
                        let body = crate::bytes::copy_range(&frames[f].1, 2, frames[f].1.len());
                        match decode_message(&body) {
                            Some(m) => {
                                out.push(m);
                            },
                            None => {
                                self.violations = self.violations.saturating_add(1);
                            },
                        }
                    }
                }
            } else {
                match decode_message(&frames[f].1) {
                    Some(m) => {
                        out.push(m);
                    },
                    None => {
                        self.violations = self.violations.saturating_add(1);
                    },
                }
            }
            f = f + 1;
        }
        out
    }

    /// Store one fragment; the whole message comes back once its last
    /// fragment lands.
    fn feed_fragment(&mut self, id: u16, idx: u8, count: u8, body: Vec<u8>) -> (r: Option<Vec<u8>>)
        requires
            old(self).wf(),
            idx < count,
            count >= 1,
        ensures
            final(self).wf(),
            final(self).reliable_out == old(self).reliable_out,
            final(self).reliable_in == old(self).reliable_in,
            final(self).carried == old(self).carried,
            final(self).acks == old(self).acks,
    {
        let mut pi: usize = 0;
        let mut found = false;
        while pi < self.partial.len() && !found
            invariant
                self.wf(),
                *self == *old(self),
                pi <= self.partial@.len(),
                found ==> pi < self.partial@.len() && self.partial@[pi as int].0 == id,
            decreases self.partial@.len() - pi + if found {
                0int
            } else {
                1int
            },
        {
            if self.partial[pi].0 == id {
                found = true;
            } else {
                pi = pi + 1;
            }
        }
        if !found {
            self.partial.push((id, Reassembly::new(count)));
            pi = self.partial.len() - 1;
            proof {
                assert forall|k: int|
                    0 <= k < self.partial@.len() implies (#[trigger] self.partial@[k]).1.wf() by {
                    if k < self.partial@.len() - 1 {
                        assert(self.partial@[k] == old(self).partial@[k]);
                    }
                }
            }
        }
        let (pid, mut re) = self.partial.remove(pi);
        proof {
            assert(old(self).partial@.len() == 0 || true);
            assert forall|k: int|
                0 <= k < self.partial@.len() implies (#[trigger] self.partial@[k]).1.wf() by {}
            assert(re.wf());
        }
        if re.count != count {
            self.partial.insert(pi, (pid, re));
            self.violations = self.violations.saturating_add(1);
            proof {
                assert forall|k: int|
                    0 <= k < self.partial@.len() implies (#[trigger] self.partial@[k]).1.wf() by {}
            }
            return None;
        }
        re.insert(idx, body);
        if re.complete() {
            let whole = re.assemble();
            proof {
                assert forall|k: int|
                    0 <= k < self.partial@.len() implies (#[trigger] self.partial@[k]).1.wf() by {}
            }
            return Some(whole);
        }
        self.partial.insert(pi, (pid, re));
        proof {
            assert forall|k: int|
                0 <= k < self.partial@.len() implies (#[trigger] self.partial@[k]).1.wf() by {}
        }
        None
    }
}

/// The fields `flush` never touches.
pub open spec fn same_channels(a: PacketPump, b: PacketPump) -> bool {
    &&& a.reliable_out == b.reliable_out
    &&& a.reliable_in == b.reliable_in
    &&& a.unordered_in == b.unordered_in
    &&& a.sequenced_in == b.sequenced_in
    &&& a.acks == b.acks
    &&& a.partial == b.partial
}

impl PacketPump {
    /// Assemble the outbound packets for this turn, each within the
    /// MTU. Reliable frames go first, oldest first; a message too wide
    /// for one packet goes out as fragments, one packet each; frames
    /// of the best-effort queue ride in the room left in the lead
    /// packet and overflow is dropped, as backpressure drops
    /// unreliable traffic first. Each packet's sequence and the
    /// reliable ids it carries are recorded in `carried`, which is
    /// what later acknowledgements are resolved against.
    #[verifier::rlimit(100)]
    pub fn flush(&mut self, protocol_id: u64, mtu: usize) -> (pkts: Vec<Vec<u8>>)
        requires
            old(self).wf(),
            64 <= mtu <= 65535,
        ensures
            final(self).wf(),
            final(self).reliable_out == old(self).reliable_out,
            final(self).reliable_in == old(self).reliable_in,
            final(self).acks == old(self).acks,
            final(self).partial == old(self).partial,
            final(self).unreliable_out@.len() == 0,
            final(self).sequenced_out@.len() == 0,
            forall|p: int|
                0 <= p < pkts@.len() ==> {
                    &&& (#[trigger] pkts@[p])@.len() <= mtu
                    &&& le_val(pkts@[p]@.take(8)) == protocol_id
                    &&& dec_frames(pkts@[p]@.skip(16)) is Some
                },
            old(self).carried@.len() <= final(self).carried@.len(),
            forall|k: int|
                0 <= k < old(self).carried@.len() ==> #[trigger] final(self).carried@[k] == old(
                    self,
                ).carried@[k],
            forall|k: int, j: int|
                old(self).carried@.len() <= k < final(self).carried@.len() && 0 <= j
                    < final(self).carried@[k].1@.len() ==> has_id(
                    old(self).reliable_out.pending@,
                    #[trigger] final(self).carried@[k].1@[j],
                ),
            old(self).reliable_out.pending@.len() > 0 && old(
                self,
            ).reliable_out.pending@[0].1@.len() + 7 <= mtu - 16 ==> pkts@.len() > 0,
            // what ships is on the record: the oldest fitting pending
            // message's id stands in a fresh `carried` entry, so a later
            // ack can release it
            old(self).reliable_out.pending@.len() > 0 && old(
                self,
            ).reliable_out.pending@[0].1@.len() + 7 <= mtu - 16 ==> exists|k: int, j: int|
                {
                    &&& old(self).carried@.len() <= k < final(self).carried@.len()
                    &&& 0 <= j < final(self).carried@[k].1@.len()
                    &&& (#[trigger] final(self).carried@[k].1@[j]) == old(
                        self,
                    ).reliable_out.pending@[0].0
                },
    {
        let mut pkts: Vec<Vec<u8>> = Vec::new();
        let budget: usize = mtu - 16;
        let mut frames: Vec<(u8, Vec<u8>)> = Vec::new();
        let mut ids: Vec<u16> = Vec::new();
        let mut used: usize = 0;
        let n = self.reliable_out.pending.len();
        let mut i: usize = 0;
        proof {
            assert(frames_size(frames@.map_values(|f: (u8, Vec<u8>)| (f.0, f.1@))) == 0) by {
                assert(frames@.map_values(|f: (u8, Vec<u8>)| (f.0, f.1@)) =~= Seq::<
                    FrameView,
                >::empty());
            }
        }
        while i < n
            invariant
                self.wf(),
                same_channels(*self, *old(self)),
                self.unreliable_out == old(self).unreliable_out,
                i <= n,
                n == self.reliable_out.pending@.len(),
                64 <= mtu <= 65535,
                budget == mtu - 16,
                used == frames_size(frames@.map_values(|f: (u8, Vec<u8>)| (f.0, f.1@))),
                used <= budget,
                forall|q: int|
                    0 <= q < frames@.len() ==> (#[trigger] frames@[q]).1@.len() <= 65535,
                forall|j: int|
                    0 <= j < ids@.len() ==> has_id(
                        old(self).reliable_out.pending@,
                        #[trigger] ids@[j],
                    ),
                forall|p: int|
                    0 <= p < pkts@.len() ==> {
                        &&& (#[trigger] pkts@[p])@.len() <= mtu
                        &&& le_val(pkts@[p]@.take(8)) == protocol_id
                        &&& dec_frames(pkts@[p]@.skip(16)) is Some
                    },
                old(self).carried@.len() <= self.carried@.len(),
                forall|k: int|
                    0 <= k < old(self).carried@.len() ==> #[trigger] self.carried@[k] == old(
                        self,
                    ).carried@[k],
                forall|k: int, j: int|
                    old(self).carried@.len() <= k < self.carried@.len() && 0 <= j
                        < self.carried@[k].1@.len() ==> has_id(
                        old(self).reliable_out.pending@,
                        #[trigger] self.carried@[k].1@[j],
                    ),
                i == 0 ==> frames@.len() == 0 && ids@.len() == 0 && used == 0,
                (i > 0 && n > 0 && old(self).reliable_out.pending@[0].1@.len() + 7 <= budget)
                    ==> frames@.len() > 0 && ids@.len() > 0 && ids@[0] == old(
                    self,
                ).reliable_out.pending@[0].0,
            decreases n - i,
        {
            let id = self.reliable_out.pending[i].0;
            proof {
                assert(has_id(old(self).reliable_out.pending@, id)) by {
                    assert((old(self).reliable_out.pending@[i as int]).0 == id);
                }
            }
            let dlen = self.reliable_out.pending[i].1.len();
            if dlen <= 65531 && used + 7 + dlen <= budget {
                let h = ReliableFrameHeader { message_id: id, fragment_idx: 0, fragment_count: 1 };
                let body = encode_reliable_body(&h, &self.reliable_out.pending[i].1);
                proof {
                    let fv = frames@.map_values(|f: (u8, Vec<u8>)| (f.0, f.1@));
                    let fv2 = frames@.push((CHANNEL_RELIABLE_ORDERED, body)).map_values(
                        |f: (u8, Vec<u8>)| (f.0, f.1@),
                    );
                    assert(fv2 =~= fv.push((CHANNEL_RELIABLE_ORDERED, body@)));
                    lemma_frames_size_push(fv, (CHANNEL_RELIABLE_ORDERED, body@));
                    assert(body@.len() == 4 + dlen) by {
                        crate::bytes::lemma_le_bytes_len(id as int, 2);
                        crate::bytes::lemma_le_bytes_len(0 as int, 1);
                        crate::bytes::lemma_le_bytes_len(1 as int, 1);
                    }
                }
                frames.push((CHANNEL_RELIABLE_ORDERED, body));
                ids.push(id);
                used = used + 7 + dlen;
            } else if dlen > budget - 7 {
                let max_frag = budget - 7;
                if dlen <= 255 * max_frag {
                    let frags = crate::fragment::split_message(
                        &self.reliable_out.pending[i].1,
                        max_frag,
                    );
                    let count = frags.len() as u8;
                    let mut fx: usize = 0;
                    while fx < frags.len()
                        invariant
                            self.wf(),
                            same_channels(*self, *old(self)),
                            self.unreliable_out == old(self).unreliable_out,
                            fx <= frags@.len(),
                            1 <= frags@.len() <= 255,
                            count == frags@.len() as u8,
                            64 <= mtu <= 65535,
                            budget == mtu - 16,
                            max_frag == budget - 7,
                            forall|q: int|
                                0 <= q < frags@.len() ==> (#[trigger] frags@[q])@.len()
                                    <= max_frag,
                            has_id(old(self).reliable_out.pending@, id),
                            forall|p: int|
                                0 <= p < pkts@.len() ==> {
                                    &&& (#[trigger] pkts@[p])@.len() <= mtu
                                    &&& le_val(pkts@[p]@.take(8)) == protocol_id
                                    &&& dec_frames(pkts@[p]@.skip(16)) is Some
                                },
                            old(self).carried@.len() <= self.carried@.len(),
                            forall|k: int|
                                0 <= k < old(self).carried@.len() ==> #[trigger] self.carried@[k]
                                    == old(self).carried@[k],
                            forall|k: int, j: int|
                                old(self).carried@.len() <= k < self.carried@.len() && 0 <= j
                                    < self.carried@[k].1@.len() ==> has_id(
                                    old(self).reliable_out.pending@,
                                    #[trigger] self.carried@[k].1@[j],
                                ),
                        decreases frags@.len() - fx,
                    {
                        let fh = ReliableFrameHeader {
                            message_id: id,
                            fragment_idx: fx as u8,
                            fragment_count: count,
                        };
                        let fbody = encode_reliable_body(&fh, &frags[fx]);
                        proof {
                            crate::bytes::lemma_le_bytes_len(id as int, 2);
                            crate::bytes::lemma_le_bytes_len(fx as int, 1);
                            crate::bytes::lemma_le_bytes_len(count as int, 1);
                            assert(fbody@.len() <= 4 + max_frag);
                        }
                        let mut one: Vec<(u8, Vec<u8>)> = Vec::new();
                        one.push((CHANNEL_RELIABLE_ORDERED, fbody));
                        let hp = PacketHeader {
                            protocol_id,
                            seq: self.next_seq,
                            ack: self.acks.latest,
                            ack_bits: self.acks.bits,
                        };
                        self.next_seq = crate::tick::tick_add(self.next_seq, 1);
                        let pkt = build_packet(&hp, &one);
                        proof {
                            let ov = one@.map_values(|f: (u8, Vec<u8>)| (f.0, f.1@));
                            lemma_packet_shape(pkt@, hp, ov);
                            assert(frames_size(ov) <= budget) by {
                                assert(ov =~= Seq::<FrameView>::empty().push(
                                    (CHANNEL_RELIABLE_ORDERED, ov[0].1),
                                ));
                                lemma_frames_size_push(
                                    Seq::<FrameView>::empty(),
                                    (CHANNEL_RELIABLE_ORDERED, ov[0].1),
                                );
                            }
                        }
                        let mut one_id: Vec<u16> = Vec::new();
                        one_id.push(id);
                        self.carried.push((hp.seq, one_id));
                        pkts.push(pkt);
                        fx = fx + 1;
                    }
                }
            }
            i = i + 1;
        }
        while self.sequenced_out.len() > 0
            invariant
                self.wf(),
                same_channels(*self, *old(self)),
                64 <= mtu <= 65535,
                budget == mtu - 16,
                used == frames_size(frames@.map_values(|f: (u8, Vec<u8>)| (f.0, f.1@))),
                used <= budget,
                forall|q: int|
                    0 <= q < frames@.len() ==> (#[trigger] frames@[q]).1@.len() <= 65535,
                forall|j: int|
                    0 <= j < ids@.len() ==> has_id(
                        old(self).reliable_out.pending@,
                        #[trigger] ids@[j],
                    ),
                forall|p: int|
                    0 <= p < pkts@.len() ==> {
                        &&& (#[trigger] pkts@[p])@.len() <= mtu
                        &&& le_val(pkts@[p]@.take(8)) == protocol_id
                        &&& dec_frames(pkts@[p]@.skip(16)) is Some
                    },
                old(self).carried@.len() <= self.carried@.len(),
                forall|k: int|
                    0 <= k < old(self).carried@.len() ==> #[trigger] self.carried@[k] == old(
                        self,
                    ).carried@[k],
                forall|k: int, j: int|
                    old(self).carried@.len() <= k < self.carried@.len() && 0 <= j
                        < self.carried@[k].1@.len() ==> has_id(
                        old(self).reliable_out.pending@,
                        #[trigger] self.carried@[k].1@[j],
                    ),
                (old(self).reliable_out.pending@.len() > 0 && old(
                    self,
                ).reliable_out.pending@[0].1@.len() + 7 <= budget) ==> frames@.len() > 0
                    && ids@.len() > 0 && ids@[0] == old(self).reliable_out.pending@[0].0,
            decreases self.sequenced_out@.len(),
        {
            let data = self.sequenced_out.remove(0);
            let dlen = data.len();
            if dlen <= 65535 && used + 3 + dlen <= budget {
                proof {
                    let fv = frames@.map_values(|f: (u8, Vec<u8>)| (f.0, f.1@));
                    let fv2 = frames@.push((CHANNEL_UNRELIABLE_SEQUENCED, data)).map_values(
                        |f: (u8, Vec<u8>)| (f.0, f.1@),
                    );
                    assert(fv2 =~= fv.push((CHANNEL_UNRELIABLE_SEQUENCED, data@)));
                    lemma_frames_size_push(fv, (CHANNEL_UNRELIABLE_SEQUENCED, data@));
                }
                frames.push((CHANNEL_UNRELIABLE_SEQUENCED, data));
                used = used + 3 + dlen;
            }
        }
        while self.unreliable_out.len() > 0
            invariant
                self.wf(),
                same_channels(*self, *old(self)),
                self.sequenced_out@.len() == 0,
                64 <= mtu <= 65535,
                budget == mtu - 16,
                used == frames_size(frames@.map_values(|f: (u8, Vec<u8>)| (f.0, f.1@))),
                used <= budget,
                forall|q: int|
                    0 <= q < frames@.len() ==> (#[trigger] frames@[q]).1@.len() <= 65535,
                forall|j: int|
                    0 <= j < ids@.len() ==> has_id(
                        old(self).reliable_out.pending@,
                        #[trigger] ids@[j],
                    ),
                forall|p: int|
                    0 <= p < pkts@.len() ==> {
                        &&& (#[trigger] pkts@[p])@.len() <= mtu
                        &&& le_val(pkts@[p]@.take(8)) == protocol_id
                        &&& dec_frames(pkts@[p]@.skip(16)) is Some
                    },
                old(self).carried@.len() <= self.carried@.len(),
                forall|k: int|
                    0 <= k < old(self).carried@.len() ==> #[trigger] self.carried@[k] == old(
                        self,
                    ).carried@[k],
                forall|k: int, j: int|
                    old(self).carried@.len() <= k < self.carried@.len() && 0 <= j
                        < self.carried@[k].1@.len() ==> has_id(
                        old(self).reliable_out.pending@,
                        #[trigger] self.carried@[k].1@[j],
                    ),
                (old(self).reliable_out.pending@.len() > 0 && old(
                    self,
                ).reliable_out.pending@[0].1@.len() + 7 <= budget) ==> frames@.len() > 0
                    && ids@.len() > 0 && ids@[0] == old(self).reliable_out.pending@[0].0,
            decreases self.unreliable_out@.len(),
        {
            let data = self.unreliable_out.remove(0);
            let dlen = data.len();
            if dlen <= 65535 && used + 3 + dlen <= budget {
                proof {
                    let fv = frames@.map_values(|f: (u8, Vec<u8>)| (f.0, f.1@));
                    let fv2 = frames@.push((CHANNEL_UNRELIABLE, data)).map_values(
                        |f: (u8, Vec<u8>)| (f.0, f.1@),
                    );
                    assert(fv2 =~= fv.push((CHANNEL_UNRELIABLE, data@)));
                    lemma_frames_size_push(fv, (CHANNEL_UNRELIABLE, data@));
                }
                frames.push((CHANNEL_UNRELIABLE, data));
                used = used + 3 + dlen;
            }
        }
        if frames.len() > 0 {
            let hp = PacketHeader {
                protocol_id,
                seq: self.next_seq,
                ack: self.acks.latest,
                ack_bits: self.acks.bits,
            };
            self.next_seq = crate::tick::tick_add(self.next_seq, 1);
            let pkt = build_packet(&hp, &frames);
            proof {
                let fv = frames@.map_values(|f: (u8, Vec<u8>)| (f.0, f.1@));
                lemma_packet_shape(pkt@, hp, fv);
            }
            if ids.len() > 0 {
                let ghost id0 = ids@[0];
                self.carried.push((hp.seq, ids));
                proof {
                    let k = self.carried@.len() - 1;
                    assert(self.carried@[k].1@[0] == id0);
                }
            }
            pkts.push(pkt);
        }
        pkts
    }
}

proof fn lemma_frames_size_push(l: Seq<FrameView>, x: FrameView)
    ensures
        frames_size(l.push(x)) == frames_size(l) + 3 + x.1.len(),
    decreases l.len(),
{
    let p = l.push(x);
    if l.len() == 0 {
        assert(p.drop_first() =~= Seq::<FrameView>::empty());
        assert(frames_size(Seq::<FrameView>::empty()) == 0);
        assert(p[0] == x);
        assert(frames_size(p) == 3 + x.1.len() + frames_size(p.drop_first()));
    } else {
        assert(p.drop_first() =~= l.drop_first().push(x));
        lemma_frames_size_push(l.drop_first(), x);
        assert(p[0] == l[0]);
        assert(frames_size(p) == 3 + p[0].1.len() + frames_size(p.drop_first()));
        assert(frames_size(l) == 3 + l[0].1.len() + frames_size(l.drop_first()));
    }
}

} // verus!
