//! Tick clock and time synchronization. All wall-time quantities are
//! microseconds, so the arithmetic of the synchronization formulas is
//! exact. The client clock is speed-nudged toward its target and never
//! steps backwards except at an explicit resync.
use vstd::prelude::*;
use crate::tick::tick_add;
use crate::tick::tick_delta;
use crate::tick::tick_diff;
use crate::tick::tick_plus;

verus! {

/// Rounded-up quotient.
pub open spec fn ceil_div(a: int, b: int) -> int {
    (a + b - 1) / b
}

/// Rounded-to-nearest quotient.
pub open spec fn round_div(a: int, b: int) -> int {
    (a + b / 2) / b
}

/// Round-trip time from a sync exchange: the elapsed client time minus
/// the server's processing time. Zero when the timestamps are
/// inconsistent.
pub fn compute_rtt_us(now: u64, client_send: u64, server_recv: u64, server_send: u64) -> (r: u64)
    ensures
        client_send <= now && server_recv <= server_send && server_send - server_recv <= now
            - client_send ==> r == (now - client_send) - (server_send - server_recv),
        !(client_send <= now && server_recv <= server_send && server_send - server_recv <= now
            - client_send) ==> r == 0,
{
    if client_send > now || server_recv > server_send {
        return 0;
    }
    let elapsed = now - client_send;
    let processing = server_send - server_recv;
    if processing > elapsed {
        return 0;
    }
    elapsed - processing
}

/// How many ticks ahead of the estimated server tick the client must
/// run so that its inputs arrive in time: the rounded-up quotient of
/// half the round trip plus the jitter margin by the tick duration,
/// clamped to the configured range.
pub fn input_lead_ticks(rtt_us: u64, jitter_us: u64, tick_us: u64, lead_min: u16, lead_max: u16)
    -> (r: u16)
    requires
        1 <= tick_us,
        rtt_us <= 0x1_0000_0000,
        jitter_us <= 0x1_0000_0000,
        tick_us <= 0x1_0000_0000,
        lead_min <= lead_max,
    ensures
        ({
            let raw = ceil_div(rtt_us / 2 + jitter_us, tick_us as int);
            if raw < lead_min {
                r == lead_min
            } else if raw > lead_max {
                r == lead_max
            } else {
                r == raw
            }
        }),
{
    let raw: u64 = (rtt_us / 2 + jitter_us + (tick_us - 1)) / tick_us;
    if raw < lead_min as u64 {
        lead_min
    } else if raw > lead_max as u64 {
        lead_max
    } else {
        raw as u16
    }
}

/// The server tick as it should read right now: the tick the server
/// reported, advanced by half the round trip in ticks, rounded to
/// nearest.
pub fn server_tick_estimate(server_tick: u16, rtt_us: u64, tick_us: u64) -> (r: u16)
    requires
        1 <= tick_us,
        rtt_us <= 0x1_0000_0000,
        tick_us <= 0x1_0000_0000,
        round_div(rtt_us as int / 2, tick_us as int) < 0x8000,
    ensures
        r == tick_plus(server_tick, round_div(rtt_us as int / 2, tick_us as int)),
{
    let half: u64 = rtt_us / 2;
    let ticks: u64 = (half + tick_us / 2) / tick_us;
    tick_add(server_tick, ticks as u16)
}

/// How the clock should run for the coming interval.
#[derive(Clone, Copy, Debug, PartialEq, Eq, Structural)]
pub enum SpeedAdjust {
    /// Within one tick of the target: run at nominal speed.
    Nominal,
    /// More than a tick ahead: run a few percent slower.
    SlowDown,
    /// More than a tick behind: run a few percent faster.
    SpeedUp,
}

/// The client's simulation clock.
pub struct ClientClock {
    /// Current client tick.
    pub tick: u16,
    /// Resyncs performed so far.
    pub resync_count: u32,
}

impl ClientClock {
    pub fn new(start: u16) -> (c: ClientClock)
        ensures
            c.tick == start,
            c.resync_count == 0,
    {
        ClientClock { tick: start, resync_count: 0 }
    }

    /// One fixed-timestep step: the tick advances by exactly one and
    /// never decreases.
    pub fn advance(&mut self)
        ensures
            final(self).tick == tick_plus(old(self).tick, 1),
            tick_delta(final(self).tick, old(self).tick) == 1,
            final(self).resync_count == old(self).resync_count,
    {
        self.tick = tick_add(self.tick, 1);
    }

    /// Decide the speed nudge against the target tick. The counter
    /// itself does not move: only the step rate changes, so the tick
    /// never decreases here.
    pub fn nudge(&self, target: u16) -> (r: SpeedAdjust)
        ensures
            (r is SlowDown) <==> tick_delta(self.tick, target) > 1,
            (r is SpeedUp) <==> tick_delta(self.tick, target) < -1,
            (r is Nominal) <==> -1 <= tick_delta(self.tick, target) <= 1,
    {
        let d = tick_diff(self.tick, target);
        if d > 1 {
            SpeedAdjust::SlowDown
        } else if d < -1 {
            SpeedAdjust::SpeedUp
        } else {
            SpeedAdjust::Nominal
        }
    }

    /// Whether the clock has drifted beyond the resync threshold and
    /// must snap instead of nudge.
    pub fn needs_resync(&self, target: u16, resync_threshold: u16) -> (r: bool)
        requires
            resync_threshold < 0x8000,
        ensures
            r == (tick_delta(self.tick, target) > resync_threshold || tick_delta(
                self.tick,
                target,
            ) < -(resync_threshold as int)),
    {
        let d = tick_diff(self.tick, target);
        d > resync_threshold as i32 || d < -(resync_threshold as i32)
    }

    /// Snap the clock to the target: the one operation that may move
    /// the tick backwards, and it counts as a resync.
    pub fn resync(&mut self, target: u16)
        ensures
            final(self).tick == target,
            final(self).resync_count as int == if old(self).resync_count < 0xffff_ffff {
                old(self).resync_count + 1
            } else {
                old(self).resync_count as int
            },
    {
        self.tick = target;
        if self.resync_count < 0xffff_ffff {
            self.resync_count = self.resync_count + 1;
        }
    }
}

} // verus!
