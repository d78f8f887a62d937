//! Reliable channel endpoints. The sender keeps every unacknowledged
//! message queued until it is acknowledged or explicitly reassigned a
//! fresh id for resend: no message is dropped silently. The ordered
//! receiver delivers each message id exactly once, in ascending order.
use vstd::prelude::*;
use crate::tick::lemma_tick_delta_additive;
use crate::tick::lemma_tick_delta_antisym;
use crate::tick::lemma_tick_delta_of_add;
use crate::tick::lemma_tick_delta_range;
use crate::tick::lemma_tick_delta_zero;
use crate::tick::tick_add;
use crate::tick::tick_delta;
use crate::tick::tick_diff;
use crate::tick::tick_plus;

verus! {

/// Whether some entry of `s` carries message id `id`.
pub open spec fn has_id(s: Seq<(u16, Vec<u8>)>, id: u16) -> bool {
    exists|k: int| 0 <= k < s.len() && (#[trigger] s[k]).0 == id
}

/// The payload of the entry carrying `id` (ids are unique in a
/// well-formed queue).
pub open spec fn payload_of(s: Seq<(u16, Vec<u8>)>, id: u16) -> Seq<u8> {
    let k = choose|k: int| 0 <= k < s.len() && (#[trigger] s[k]).0 == id;
    s[k].1@
}

/// Ids are pairwise distinct.
pub open spec fn ids_distinct(s: Seq<(u16, Vec<u8>)>) -> bool {
    forall|k1: int, k2: int|
        0 <= k1 < k2 < s.len() ==> (#[trigger] s[k1]).0 != (#[trigger] s[k2]).0
}

/// Sending side of one reliable channel.
pub struct ReliableSender {
    /// The id the next message will get.
    pub next_id: u16,
    /// Sent and not yet acknowledged, in send order.
    pub pending: Vec<(u16, Vec<u8>)>,
}

impl ReliableSender {
    pub fn new(first_id: u16) -> (r: ReliableSender)
        ensures
            r.next_id == first_id,
            r.pending@.len() == 0,
    {
        ReliableSender { next_id: first_id, pending: Vec::new() }
    }

    /// Queue a message: it gets the next id and stays pending until
    /// acknowledged.
    pub fn send(&mut self, data: Vec<u8>) -> (id: u16)
        ensures
            id == old(self).next_id,
            final(self).next_id == tick_plus(old(self).next_id, 1),
            final(self).pending@ == old(self).pending@.push((id, data)),
    {
        let id = self.next_id;
        self.next_id = tick_add(self.next_id, 1);
        self.pending.push((id, data));
        id
    }

    /// The peer acknowledged `id`: exactly the first entry carrying it
    /// leaves the queue; every other pending message stays.
    pub fn mark_delivered(&mut self, id: u16) -> (found: bool)
        ensures
            final(self).next_id == old(self).next_id,
            found <==> has_id(old(self).pending@, id),
            !found ==> *final(self) == *old(self),
            found ==> exists|k: int|
                {
                    &&& 0 <= k < old(self).pending@.len()
                    &&& (#[trigger] old(self).pending@[k]).0 == id
                    &&& final(self).pending@ == old(self).pending@.remove(k)
                },
    {
        let mut k: usize = 0;
        while k < self.pending.len()
            invariant
                k <= self.pending@.len(),
                *self == *old(self),
                forall|j: int| 0 <= j < k ==> (#[trigger] self.pending@[j]).0 != id,
            decreases self.pending@.len() - k,
        {
            if self.pending[k].0 == id {
                self.pending.remove(k);
                proof {
                    assert((old(self).pending@[k as int]).0 == id);
                    assert(exists|kk: int|
                        0 <= kk < old(self).pending@.len() && (#[trigger] old(
                            self,
                        ).pending@[kk]).0 == id && final(self).pending@ == old(
                            self,
                        ).pending@.remove(kk)) by {
                        assert(final(self).pending@ == old(self).pending@.remove(k as int));
                    }
                }
                return true;
            }
            k = k + 1;
        }
        false
    }

    /// A packet carrying `id` was inferred lost: the message is
    /// reassigned a fresh id for resend. Its payload stays queued; the
    /// fresh id is returned.
    pub fn reassign_for_resend(&mut self, id: u16) -> (r: Option<u16>)
        ensures
            r matches Some(new_id) ==> {
                &&& new_id == old(self).next_id
                &&& final(self).next_id == tick_plus(old(self).next_id, 1)
                &&& exists|k: int|
                    {
                        &&& 0 <= k < old(self).pending@.len()
                        &&& (#[trigger] old(self).pending@[k]).0 == id
                        &&& final(self).pending@ == old(self).pending@.update(
                            k,
                            (new_id, old(self).pending@[k].1),
                        )
                    }
            },
            r is None ==> *final(self) == *old(self) && !has_id(old(self).pending@, id),
    {
        let mut k: usize = 0;
        while k < self.pending.len()
            invariant
                k <= self.pending@.len(),
                *self == *old(self),
                forall|j: int| 0 <= j < k ==> (#[trigger] self.pending@[j]).0 != id,
            decreases self.pending@.len() - k,
        {
            if self.pending[k].0 == id {
                let new_id = self.next_id;
                self.next_id = tick_add(self.next_id, 1);
                let (_, data) = self.pending.remove(k);
                self.pending.insert(k, (new_id, data));
                proof {
                    assert((old(self).pending@[k as int]).0 == id);
                    assert(final(self).pending@ =~= old(self).pending@.update(
                        k as int,
                        (new_id, old(self).pending@[k as int].1),
                    ));
                    assert(exists|kk: int|
                        0 <= kk < old(self).pending@.len() && (#[trigger] old(
                            self,
                        ).pending@[kk]).0 == id && final(self).pending@ == old(
                            self,
                        ).pending@.update(kk, (new_id, old(self).pending@[kk].1)));
                }
                return Some(new_id);
            }
            k = k + 1;
        }
        None
    }
}

/// Advancing the reference tick by one lowers every strictly-ahead
/// delta by exactly one.
proof fn lemma_delta_after_advance(h: u16, next: u16)
    requires
        tick_delta(h, next) > 0,
    ensures
        tick_delta(h, tick_plus(next, 1)) == tick_delta(h, next) - 1,
{
    lemma_tick_delta_of_add(next, 1);
    lemma_tick_delta_antisym(tick_plus(next, 1), next);
    lemma_tick_delta_range(h, next);
    lemma_tick_delta_additive(h, next, tick_plus(next, 1));
}

/// How the ordered receiver classified an arriving message.
#[derive(Clone, Copy, Debug, PartialEq, Eq, Structural)]
pub enum ChannelReceipt {
    /// The next expected id: deliver it upward now.
    Deliver,
    /// Ahead of the expected id: held until its turn.
    Held,
    /// Already held: dropped.
    AlreadyHeld,
    /// Behind the expected id, so already delivered: dropped.
    Duplicate,
}

/// Receiving side of a reliable-ordered channel: messages go upward by
/// ascending id, each exactly once.
pub struct OrderedReceiver {
    /// The id the next delivery must carry.
    pub next_id: u16,
    /// Messages that arrived ahead of their turn.
    pub held: Vec<(u16, Vec<u8>)>,
}

impl OrderedReceiver {
    pub open spec fn wf(self) -> bool {
        &&& ids_distinct(self.held@)
        &&& forall|k: int|
            0 <= k < self.held@.len() ==> tick_delta((#[trigger] self.held@[k]).0, self.next_id)
                >= 0
    }

    pub fn new(first_id: u16) -> (r: OrderedReceiver)
        ensures
            r.wf(),
            r.next_id == first_id,
            r.held@.len() == 0,
    {
        OrderedReceiver { next_id: first_id, held: Vec::new() }
    }

    /// Classify an arriving message. The expected id is delivered at
    /// once (the caller passes it upward and then drains `pop_ready`);
    /// an id ahead of its turn is held, once; an id behind the
    /// expected one was delivered before and is dropped.
    pub fn on_message(&mut self, id: u16, data: Vec<u8>) -> (r: ChannelReceipt)
        requires
            old(self).wf(),
        ensures
            final(self).wf(),
            (r is Duplicate) <==> tick_delta(id, old(self).next_id) < 0,
            (r is AlreadyHeld) <==> (tick_delta(id, old(self).next_id) >= 0 && has_id(
                old(self).held@,
                id,
            )),
            (r is Deliver) <==> (id == old(self).next_id && !has_id(old(self).held@, id)),
            r is Deliver ==> final(self).next_id == tick_plus(old(self).next_id, 1)
                && final(self).held@ == old(self).held@,
            r is Held ==> final(self).next_id == old(self).next_id
                && final(self).held@ == old(self).held@.push((id, data)),
            (r is Duplicate || r is AlreadyHeld) ==> *final(self) == *old(self),
    {
        let d = tick_diff(id, self.next_id);
        proof {
            lemma_tick_delta_zero(id, self.next_id);
        }
        if d < 0 {
            return ChannelReceipt::Duplicate;
        }
        let mut k: usize = 0;
        while k < self.held.len()
            invariant
                self.wf(),
                *self == *old(self),
                k <= self.held@.len(),
                forall|j: int| 0 <= j < k ==> (#[trigger] self.held@[j]).0 != id,
            decreases self.held@.len() - k,
        {
            if self.held[k].0 == id {
                proof {
                    assert(has_id(old(self).held@, id));
                }
                return ChannelReceipt::AlreadyHeld;
            }
            k = k + 1;
        }
        proof {
            assert(!has_id(old(self).held@, id));
        }
        if d == 0 {
            self.next_id = tick_add(self.next_id, 1);
            proof {
                assert forall|j: int| 0 <= j < self.held@.len() implies tick_delta(
                    (#[trigger] self.held@[j]).0,
                    self.next_id,
                ) >= 0 by {
                    let h = self.held@[j].0;
                    lemma_tick_delta_zero(h, old(self).next_id);
                    assert(h != id);
                    lemma_delta_after_advance(h, old(self).next_id);
                }
            }
            return ChannelReceipt::Deliver;
        }
        self.held.push((id, data));
        proof {
            assert forall|k1: int, k2: int|
                0 <= k1 < k2 < self.held@.len() implies (#[trigger] self.held@[k1]).0 != (
            #[trigger] self.held@[k2]).0 by {
                if k2 == self.held@.len() - 1 {
                    assert(self.held@[k1] == old(self).held@[k1]);
                }
            }
        }
        ChannelReceipt::Held
    }

    /// Deliver the held message whose turn has come, if it is here:
    /// the one carrying exactly the next expected id. Delivery removes
    /// it and advances the expected id, so each id goes upward at most
    /// once and in ascending order.
    pub fn pop_ready(&mut self) -> (r: Option<(u16, Vec<u8>)>)
        requires
            old(self).wf(),
        ensures
            final(self).wf(),
            r matches Some(p) ==> {
                &&& p.0 == old(self).next_id
                &&& final(self).held@.len() == old(self).held@.len() - 1
                &&& has_id(old(self).held@, p.0)
                &&& payload_of(old(self).held@, p.0) == p.1@
                &&& final(self).next_id == tick_plus(old(self).next_id, 1)
                &&& !has_id(final(self).held@, p.0)
                &&& forall|id2: u16|
                    id2 != p.0 ==> has_id(final(self).held@, id2) == has_id(
                        old(self).held@,
                        id2,
                    )
            },
            r is None ==> *final(self) == *old(self) && !has_id(old(self).held@, old(self).next_id),
    {
        let expected = self.next_id;
        let mut k: usize = 0;
        while k < self.held.len()
            invariant
                self.wf(),
                expected == self.next_id,
                *self == *old(self),
                k <= self.held@.len(),
                forall|j: int| 0 <= j < k ==> (#[trigger] self.held@[j]).0 != expected,
            decreases self.held@.len() - k,
        {
            if self.held[k].0 == expected {
                let (id, data) = self.held.remove(k);
                self.next_id = tick_add(self.next_id, 1);
                proof {
                    assert(has_id(old(self).held@, expected)) by {
                        assert((old(self).held@[k as int]).0 == expected);
                    }
                    let kk = choose|kk: int|
                        0 <= kk < old(self).held@.len() && (#[trigger] old(
                            self,
                        ).held@[kk]).0 == expected;
                    assert(kk == k) by {
                        if kk != k {
                            assert(false);
                        }
                    }
                    assert(payload_of(old(self).held@, expected) == data@);
                    assert forall|j: int| 0 <= j < self.held@.len() implies (
                    #[trigger] self.held@[j]).0 != expected by {
                        if j < k {
                            assert(self.held@[j] == old(self).held@[j]);
                        } else {
                            assert(self.held@[j] == old(self).held@[j + 1]);
                        }
                    }
                    assert(!has_id(self.held@, expected));
                    assert forall|id2: u16| id2 != expected implies has_id(self.held@, id2)
                        == has_id(old(self).held@, id2) by {
                        if has_id(old(self).held@, id2) {
                            let j = choose|j: int|
                                0 <= j < old(self).held@.len() && (#[trigger] old(
                                    self,
                                ).held@[j]).0 == id2;
                            if j < k {
                                assert(self.held@[j] == old(self).held@[j]);
                                assert(has_id(self.held@, id2));
                            } else {
                                assert(j != k);
                                assert(self.held@[j - 1] == old(self).held@[j]);
                                assert(has_id(self.held@, id2));
                            }
                        }
                        if has_id(self.held@, id2) {
                            let j = choose|j: int|
                                0 <= j < self.held@.len() && (#[trigger] self.held@[j]).0 == id2;
                            if j < k {
                                assert(old(self).held@[j] == self.held@[j]);
                                assert(has_id(old(self).held@, id2));
                            } else {
                                assert(old(self).held@[j + 1] == self.held@[j]);
                                assert(has_id(old(self).held@, id2));
                            }
                        }
                    }
                    assert forall|k1: int, k2: int|
                        0 <= k1 < k2 < self.held@.len() implies (#[trigger] self.held@[k1]).0 != (
                    #[trigger] self.held@[k2]).0 by {
                        let o1: int = if k1 < k { k1 } else { k1 + 1 };
                        let o2: int = if k2 < k { k2 } else { k2 + 1 };
                        assert(self.held@[k1] == old(self).held@[o1]);
                        assert(self.held@[k2] == old(self).held@[o2]);
                    }
                    assert forall|j: int| 0 <= j < self.held@.len() implies tick_delta(
                        (#[trigger] self.held@[j]).0,
                        self.next_id,
                    ) >= 0 by {
                        let h = self.held@[j].0;
                        let o: int = if j < k {
                            j
                        } else {
                            j + 1
                        };
                        assert(self.held@[j] == old(self).held@[o]);
                        assert(h != expected);
                        lemma_tick_delta_zero(h, old(self).next_id);
                        lemma_delta_after_advance(h, old(self).next_id);
                    }
                }
                return Some((id, data));
            }
            k = k + 1;
        }
        None
    }
}

/// Receiving side of a reliable-unordered channel: every message id is
/// delivered exactly once, in whatever order it arrives. Receipt
/// bookkeeping rides on a sliding window over the ids.
pub struct UnorderedReceiver {
    pub seen: crate::ack::AckWindow,
}

impl UnorderedReceiver {
    pub fn new() -> (r: UnorderedReceiver)
        ensures
            !r.seen.started,
            forall|id: u16| !r.seen.acked(id),
    {
        UnorderedReceiver { seen: crate::ack::AckWindow::new() }
    }

    /// Deliver an arriving message unless its id was seen before: the
    /// payload comes back exactly on the first receipt, and the id is
    /// marked so a copy inside the window is never delivered again.
    pub fn on_message(&mut self, id: u16, data: Vec<u8>) -> (r: Option<Vec<u8>>)
        ensures
            r matches Some(d) ==> {
                &&& d == data
                &&& !old(self).seen.acked(id)
                &&& final(self).seen.acked(id)
            },
            r is None ==> (old(self).seen.acked(id) || (old(self).seen.started && tick_delta(
                id,
                old(self).seen.latest,
            ) < -32)),
            r is None ==> *final(self) == *old(self),
            forall|id2: u16|
                old(self).seen.acked(id2) && 0 <= tick_delta(final(self).seen.latest, id2) <= 32
                    ==> final(self).seen.acked(id2),
    {
        proof {
            if old(self).seen.acked(id) {
                lemma_tick_delta_antisym(old(self).seen.latest, id);
            }
        }
        match self.seen.on_receive(id) {
            crate::ack::Receipt::Fresh => Some(data),
            _ => None,
        }
    }
}

/// Receiving side of an unreliable-sequenced channel: a newer sequence
/// supersedes everything before it; an old or repeated sequence is
/// dropped, so each slot is accepted at most once.
pub struct SequencedReceiver {
    pub started: bool,
    /// Newest accepted sequence.
    pub latest: u16,
}

impl SequencedReceiver {
    pub fn new() -> (r: SequencedReceiver)
        ensures
            !r.started,
    {
        SequencedReceiver { started: false, latest: 0 }
    }

    /// Whether an arriving sequence supersedes the newest seen. Only a
    /// strictly newer sequence is accepted, so no slot is accepted
    /// twice and the accepted sequence never moves backwards.
    pub fn on_sequence(&mut self, seq: u16) -> (accept: bool)
        ensures
            accept <==> (!old(self).started || tick_delta(seq, old(self).latest) > 0),
            accept ==> final(self).started && final(self).latest == seq,
            !accept ==> *final(self) == *old(self),
    {
        if !self.started || tick_diff(seq, self.latest) > 0 {
            self.started = true;
            self.latest = seq;
            true
        } else {
            false
        }
    }
}

} // verus!
