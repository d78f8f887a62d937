//! The server-side replication sender's per-tick build step: the
//! queue of structural actions drained into a reliable message, the
//! per-component delta baseline that advances only on acknowledgement,
//! the changed-since test, the priority score that orders entities
//! when the MTU budget runs out, and the greedy oldest-first packing
//! of queued frames into a packet.
use vstd::prelude::*;
use crate::delta::xor_bytes;
use crate::message::action_view;
use crate::message::EntityAction;
use crate::message::Message;
use crate::message::MessageView;

verus! {

/// Priority of an entity for the next update: how long since it was
/// last updated, weighted by its declared importance. Lowest scores
/// defer when the budget is exhausted.
pub fn priority_score(distance_since_last_update: u32, importance: u32) -> (r: u64)
    ensures
        r == distance_since_last_update as int * importance as int,
{
    proof {
        assert(0 <= (distance_since_last_update as int) * (importance as int)
            < 0x1_0000_0000_0000_0000) by (nonlinear_arith)
            requires
                0 <= (distance_since_last_update as int) < 0x1_0000_0000,
                0 <= (importance as int) < 0x1_0000_0000,
        ;
    }
    let r: u64 = (distance_since_last_update as u64) * (importance as u64);
    r
}

/// Bytes the first `n` queued frames occupy in a packet, each with its
/// 3-byte frame header.
pub open spec fn packed_size(sizes: Seq<usize>, n: int) -> int
    decreases n,
{
    if n <= 0 {
        0
    } else {
        packed_size(sizes, n - 1) + sizes[n - 1] + 3
    }
}

/// How many of the queued frames fit in `budget` bytes, taking them
/// oldest first: the longest prefix whose packed size stays within the
/// budget. Within a channel no frame jumps the queue.
pub fn greedy_take(sizes: &Vec<usize>, budget: usize) -> (n: usize)
    requires
        forall|i: int| 0 <= i < sizes@.len() ==> #[trigger] sizes@[i] <= 65535,
        budget <= 0x10000,
    ensures
        n <= sizes@.len(),
        packed_size(sizes@, n as int) <= budget,
        n < sizes@.len() ==> packed_size(sizes@, n + 1) > budget,
{
    let mut n: usize = 0;
    let mut used: usize = 0;
    while n < sizes.len()
        invariant
            n <= sizes@.len(),
            used == packed_size(sizes@, n as int),
            used <= budget,
            budget <= 0x10000,
            forall|i: int| 0 <= i < sizes@.len() ==> #[trigger] sizes@[i] <= 65535,
        decreases sizes@.len() - n,
    {
        let sz = sizes[n];
        if used + sz + 3 > budget {
            return n;
        }
        used = used + sz + 3;
        n = n + 1;
    }
    n
}

/// Queue of structural actions (spawns, despawns, component changes)
/// awaiting the next tick's reliable-ordered message.
pub struct ActionQueue {
    pub queue: Vec<EntityAction>,
}

impl ActionQueue {
    pub fn new() -> (r: ActionQueue)
        ensures
            r.queue@.len() == 0,
    {
        ActionQueue { queue: Vec::new() }
    }

    /// Record a structural change for the next drain.
    pub fn push(&mut self, a: EntityAction)
        ensures
            final(self).queue@ == old(self).queue@.push(a),
    {
        self.queue.push(a)
    }

    /// Drain the whole queue into the tick's `EntityActions` message,
    /// in the order the actions were recorded.
    pub fn drain(&mut self, tick: u16) -> (m: Message)
        requires
            old(self).queue@.len() <= 65535,
        ensures
            final(self).queue@.len() == 0,
            m@ == (MessageView::EntityActions {
                tick,
                actions: old(self).queue@.map_values(|a: EntityAction| action_view(a)),
            }),
    {
        let mut taken: Vec<EntityAction> = Vec::new();
        proof {
            assert(taken@ + self.queue@ =~= old(self).queue@);
        }
        while self.queue.len() > 0
            invariant
                taken@ + self.queue@ == old(self).queue@,
            decreases self.queue@.len(),
        {
            let ghost tq = taken@;
            let ghost qq = self.queue@;
            let a = self.queue.remove(0);
            taken.push(a);
            proof {
                assert(self.queue@ =~= qq.drop_first());
                assert(taken@ =~= tq.push(a));
                assert(tq.push(a) + qq.drop_first() =~= tq + qq);
            }
        }
        proof {
            assert(taken@ =~= old(self).queue@);
    }
        let m = Message::EntityActions { tick, actions: taken };
        proof {
            assert(taken@.map_values(|a: EntityAction| action_view(a)) == old(
                self,
            ).queue@.map_values(|a: EntityAction| action_view(a)));
        }
        m
    }
}

/// Per-client, per-component baseline for delta replication: the last
/// value the peer acknowledged. It advances only on acknowledgement,
/// so a delta is always encoded against a value the peer holds.
pub struct DeltaBaseline {
    pub last_acked: Option<Vec<u8>>,
}

impl DeltaBaseline {
    pub fn new() -> (r: DeltaBaseline)
        ensures
            r.last_acked is None,
    {
        DeltaBaseline { last_acked: None }
    }

    /// Encode the current value for the wire: a delta against the
    /// acknowledged baseline when one of matching width exists, the
    /// raw value otherwise. The flag says which.
    pub fn encode(&self, current: &Vec<u8>) -> (r: (bool, Vec<u8>))
        ensures
            r.0 <==> (self.last_acked matches Some(b) && b@.len() == current@.len()),
            r.0 ==> (self.last_acked matches Some(b) && r.1@ == xor_bytes(current@, b@)),
            !r.0 ==> r.1@ == current@,
    {
        match &self.last_acked {
            Some(b) => {
                if b.len() == current.len() {
                    (true, crate::delta::delta_encode(current, b))
                } else {
                    let c = crate::bytes::copy_range(current, 0, current.len());
                    proof {
                        assert(current@.subrange(0, current@.len() as int) =~= current@);
                    }
                    (false, c)
                }
            },
            None => {
                let c = crate::bytes::copy_range(current, 0, current.len());
                proof {
                    assert(current@.subrange(0, current@.len() as int) =~= current@);
                }
                (false, c)
            },
        }
    }

    /// The packet carrying `value` was acknowledged: it becomes the
    /// new baseline. Nothing moves the baseline before that.
    pub fn on_acked(&mut self, value: Vec<u8>)
        ensures
            final(self).last_acked == Some(value),
    {
        self.last_acked = Some(value);
    }
}

/// Whether a component's value changed against what was last sent:
/// only changed components are emitted.
pub fn component_changed(current: &Vec<u8>, last_sent: &Vec<u8>) -> (r: bool)
    ensures
        r == (current@ != last_sent@),
{
    !crate::timeline::bytes_equal(current, last_sent)
}

} // verus!
