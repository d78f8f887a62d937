//! Sliding acknowledgement window over wrapping 16-bit packet
//! sequences: the highest sequence seen plus a 32-bit bitfield for the
//! 32 sequences before it. Classifies every arriving sequence as fresh,
//! duplicate, or stale (outside the window), so that a packet is
//! accepted at most once.
use vstd::prelude::*;
use crate::tick::lemma_tick_delta_additive;
use crate::tick::lemma_tick_delta_additive_wrapped;
use crate::tick::lemma_tick_delta_antisym;
use crate::tick::lemma_tick_delta_injective;
use crate::tick::lemma_tick_delta_range;
use crate::tick::lemma_tick_delta_zero;
use crate::tick::tick_delta;
use crate::tick::tick_diff;

verus! {

/// Whether bit `k` of `bits` is set.
pub open spec fn seq_bit(bits: u32, k: u32) -> bool {
    bits & (1u32 << k) != 0
}

/// Whether sequence `s` is covered by an ack pair `(latest, bits)`:
/// either the latest sequence itself, or one of the 32 before it whose
/// bit is set.
pub open spec fn win_acked(latest: u16, bits: u32, s: u16) -> bool {
    let d = tick_delta(latest, s);
    if d == 0 {
        true
    } else if 1 <= d <= 32 {
        seq_bit(bits, (d - 1) as u32)
    } else {
        false
    }
}

/// How the window classified an arriving sequence.
#[derive(Clone, Copy, Debug, PartialEq, Eq, Structural)]
pub enum Receipt {
    /// Seen for the first time.
    Fresh,
    /// Already inside the window: drop, but do not count as loss.
    Duplicate,
    /// Older than the window allows: drop.
    Stale,
}

/// Receiver-side acknowledgement state for one connection.
pub struct AckWindow {
    /// No sequence seen yet.
    pub started: bool,
    /// Highest sequence seen, in the wrapping order.
    pub latest: u16,
    /// Bit `k` set means `latest - 1 - k` was seen.
    pub bits: u32,
}

proof fn bv_zero_bit(j: u32)
    by (bit_vector)
    requires
        j < 32,
    ensures
        0u32 & (1u32 << j) == 0,
{
}

proof fn bv_or_bit(bits: u32, k: u32, j: u32)
    by (bit_vector)
    requires
        k < 32,
        j < 32,
    ensures
        ((bits | (1u32 << k)) & (1u32 << j) != 0) <==> ((bits & (1u32 << j) != 0) || j == k),
{
}

proof fn bv_new_bits(bits: u32, nb: u32, du: u32, j: u32)
    by (bit_vector)
    requires
        1 <= du <= 32,
        j < 32,
        du < 32 ==> nb == (bits << du) | (1u32 << ((du - 1) as u32)),
        du == 32 ==> nb == 0u32 | (1u32 << 31),
    ensures
        (nb & (1u32 << j) != 0) ==> (j == du - 1 || (j >= du && du < 32 && bits & (1u32 << ((j
            - du) as u32)) != 0)),
        j == du - 1 ==> nb & (1u32 << j) != 0,
        (j >= du && du < 32 && bits & (1u32 << ((j - du) as u32)) != 0) ==> nb & (1u32 << j) != 0,
{
}

/// Whether `(latest, bits)` covers `s`, as carried in a packet header.
pub fn ack_covers(latest: u16, bits: u32, s: u16) -> (r: bool)
    ensures
        r == win_acked(latest, bits, s),
{
    let d = tick_diff(latest, s);
    if d == 0 {
        true
    } else if 1 <= d && d <= 32 {
        bits & (1u32 << ((d - 1) as u32)) != 0
    } else {
        false
    }
}

impl AckWindow {
    /// Whether the window has recorded sequence `s`.
    pub open spec fn acked(self, s: u16) -> bool {
        self.started && win_acked(self.latest, self.bits, s)
    }

    /// A window that has seen nothing.
    pub fn new() -> (w: AckWindow)
        ensures
            !w.started,
            forall|s: u16| !w.acked(s),
    {
        AckWindow { started: false, latest: 0, bits: 0 }
    }

    /// Whether the window has recorded sequence `s`.
    pub fn is_acked(&self, s: u16) -> (r: bool)
        ensures
            r == self.acked(s),
    {
        if !self.started {
            return false;
        }
        ack_covers(self.latest, self.bits, s)
    }

    /// Record an arriving packet sequence and classify it. A sequence
    /// is reported `Fresh` at most once: afterwards it is either still
    /// inside the window and reported `Duplicate`, or it has fallen out
    /// of the window and is reported `Stale`.
    pub fn on_receive(&mut self, seq: u16) -> (r: Receipt)
        ensures
            final(self).started,
            (r is Stale) <==> (old(self).started && tick_delta(seq, old(self).latest) < -32),
            (r is Duplicate) <==> (old(self).acked(seq) && tick_delta(seq, old(self).latest)
                >= -32),
            r is Fresh ==> final(self).acked(seq),
            !(r is Fresh) ==> *final(self) == *old(self),
            old(self).started ==> tick_delta(final(self).latest, old(self).latest) >= 0,
            !old(self).started ==> final(self).latest == seq,
            forall|s: u16| final(self).acked(s) ==> old(self).acked(s) || s == seq,
            forall|s: u16|
                old(self).acked(s) && 0 <= tick_delta(final(self).latest, s) <= 32
                    ==> final(self).acked(s),
    {
        if !self.started {
            self.started = true;
            self.latest = seq;
            self.bits = 0;
            proof {
                lemma_tick_delta_zero(seq, seq);
                assert forall|s: u16| win_acked(seq, 0u32, s) implies s == seq by {
                    if s != seq {
                        lemma_tick_delta_zero(seq, s);
                        let d = tick_delta(seq, s);
                        if 1 <= d <= 32 {
                            bv_zero_bit((d - 1) as u32);
                        }
                    }
                }
            }
            return Receipt::Fresh;
        }
        let ghost latest0 = self.latest;
        let ghost bits0 = self.bits;
        let d = tick_diff(seq, self.latest);
        if d < -32 {
            proof {
                lemma_tick_delta_zero(latest0, latest0);
            }
            return Receipt::Stale;
        }
        if d <= 0 {
            let k: u32 = (-d) as u32;
            proof {
                lemma_tick_delta_antisym(seq, self.latest);
                assert(tick_delta(latest0, seq) == k);
                lemma_tick_delta_zero(latest0, latest0);
            }
            if k == 0 {
                return Receipt::Duplicate;
            }
            let mask: u32 = 1u32 << (k - 1);
            if self.bits & mask != 0 {
                return Receipt::Duplicate;
            }
            self.bits = self.bits | mask;
            proof {
                bv_or_bit(bits0, (k - 1) as u32, (k - 1) as u32);
                assert forall|s: u16| win_acked(latest0, self.bits, s) implies win_acked(
                    latest0,
                    bits0,
                    s,
                ) || s == seq by {
                    let ds = tick_delta(latest0, s);
                    if 1 <= ds <= 32 {
                        bv_or_bit(bits0, (k - 1) as u32, (ds - 1) as u32);
                        if ds - 1 == k - 1 {
                            lemma_tick_delta_injective(latest0, s, seq);
                        }
                    }
                }
                assert forall|s: u16| win_acked(latest0, bits0, s) implies win_acked(
                    latest0,
                    self.bits,
                    s,
                ) by {
                    let ds = tick_delta(latest0, s);
                    if 1 <= ds <= 32 {
                        bv_or_bit(bits0, (k - 1) as u32, (ds - 1) as u32);
                    }
                }
            }
            return Receipt::Fresh;
        }
        let du: u32 = d as u32;
        let shifted: u32 = if du >= 32 {
            0
        } else {
            self.bits << du
        };
        let newbits: u32 = if du >= 33 {
            shifted
        } else {
            shifted | (1u32 << (du - 1))
        };
        self.bits = newbits;
        self.latest = seq;
        proof {
            lemma_tick_delta_zero(seq, seq);
            lemma_tick_delta_antisym(seq, latest0);
            assert(tick_delta(latest0, seq) == -(du as int));
            assert forall|s: u16| win_acked(seq, newbits, s) implies win_acked(latest0, bits0, s)
                || s == seq by {
                let ds = tick_delta(seq, s);
                if ds == 0 {
                    lemma_tick_delta_zero(seq, s);
                } else if 1 <= ds <= 32 {
                    if du >= 33 {
                        bv_zero_bit((ds - 1) as u32);
                    } else {
                        bv_new_bits(bits0, newbits, du, (ds - 1) as u32);
                        if ds - 1 == du - 1 {
                            lemma_tick_delta_injective(seq, s, latest0);
                            lemma_tick_delta_zero(latest0, latest0);
                        } else {
                            lemma_tick_delta_additive(latest0, seq, s);
                        }
                    }
                }
            }
            assert forall|s: u16|
                win_acked(latest0, bits0, s) && 0 <= tick_delta(seq, s) <= 32 implies win_acked(
                seq,
                newbits,
                s,
            ) by {
                let d_old = tick_delta(latest0, s);
                let ds = tick_delta(seq, s);
                lemma_tick_delta_range(latest0, s);
                if du + d_old < 0x8000 {
                    lemma_tick_delta_additive(seq, latest0, s);
                    assert(ds == du + d_old);
                    if d_old == 0 {
                        bv_new_bits(bits0, newbits, du, (du - 1) as u32);
                    } else {
                        bv_new_bits(bits0, newbits, du, (ds - 1) as u32);
                    }
                } else {
                    lemma_tick_delta_additive_wrapped(seq, latest0, s);
                }
            }
        }
        Receipt::Fresh
    }
}

} // verus!
