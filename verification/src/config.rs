//! Configuration of the replication core. Durations are microseconds,
//! so the synchronization arithmetic stays exact.
use vstd::prelude::*;

verus! {

/// Recognized options, with their defaults.
pub struct Config {
    /// Simulation step, in microseconds (default 1/64 s).
    pub tick_duration_us: u64,
    /// Ticks of per-tick history kept for rollback and input replay.
    pub history_window_ticks: u16,
    /// Smallest allowed input lead.
    pub input_lead_ticks_min: u16,
    /// Largest allowed input lead.
    pub input_lead_ticks_max: u16,
    /// Silence after which a connection times out, in microseconds.
    pub keepalive_timeout_us: u64,
    /// Largest datagram the transport will carry.
    pub mtu_bytes: u16,
    /// Largest reliable message (fragmented if over the MTU budget).
    pub max_message_size_bytes: u16,
    /// How far behind the confirmed tick interpolation renders.
    pub interpolation_delay_ticks: u16,
    /// Drift beyond which the clock snaps instead of nudging.
    pub resync_threshold_ticks: u16,
}

impl Config {
    /// The values every option takes when not set otherwise.
    pub open spec fn is_default(self) -> bool {
        &&& self.tick_duration_us == 15625
        &&& self.history_window_ticks == 64
        &&& self.input_lead_ticks_min == 2
        &&& self.input_lead_ticks_max == 16
        &&& self.keepalive_timeout_us == 5_000_000
        &&& self.mtu_bytes == 1200
        &&& self.max_message_size_bytes == 65535
        &&& self.interpolation_delay_ticks == 2
        &&& self.resync_threshold_ticks == 30
    }

    /// Bounds the rest of the crate relies on.
    pub open spec fn wf(self) -> bool {
        &&& 1 <= self.tick_duration_us
        &&& 1 <= self.history_window_ticks <= 0x8000
        &&& self.input_lead_ticks_min <= self.input_lead_ticks_max
        &&& self.resync_threshold_ticks < 0x8000
        &&& 64 <= self.mtu_bytes
    }
}

impl Default for Config {
    fn default() -> (c: Config)
        ensures
            c.is_default(),
            c.wf(),
    {
        Config {
            tick_duration_us: 15625,
            history_window_ticks: 64,
            input_lead_ticks_min: 2,
            input_lead_ticks_max: 16,
            keepalive_timeout_us: 5_000_000,
            mtu_bytes: 1200,
            max_message_size_bytes: 65535,
            interpolation_delay_ticks: 2,
            resync_threshold_ticks: 30,
        }
    }
}

} // verus!
