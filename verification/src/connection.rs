//! Per-connection lifecycle: handshake, synchronization, keepalive,
//! and disconnect, as a pure state machine. The caller performs the
//! actions the machine asks for and feeds the events back in.
use vstd::prelude::*;

verus! {

/// Lifecycle states of a connection.
#[derive(Clone, Copy, Debug, PartialEq, Eq, Structural)]
pub enum ConnState {
    Disconnected,
    /// Sending handshakes, waiting for the acknowledgement.
    Connecting,
    /// Handshake acknowledged; running sync exchanges.
    Handshaking,
    Connected,
    /// Saying goodbye; the explicit or peer disconnect completes the
    /// return to `Disconnected`.
    Disconnecting,
}

/// What happened.
#[derive(Clone, Copy, Debug, PartialEq, Eq, Structural)]
pub enum ConnEvent {
    /// The application asked to connect.
    ConnectRequest,
    /// A valid handshake acknowledgement arrived.
    HandshakeAck,
    /// A sync exchange completed with an acceptable round trip.
    SyncCompleted,
    /// Nothing arrived within the keepalive timeout.
    Timeout,
    /// The application asked to disconnect.
    DisconnectRequest,
    /// The peer said goodbye.
    PeerDisconnect,
}

/// What the caller must do after a transition.
#[derive(Clone, Copy, Debug, PartialEq, Eq, Structural)]
pub enum ConnAction {
    Nothing,
    /// Start sending handshake messages.
    SendHandshake,
    /// Start the sync-request exchanges.
    BeginSync,
    /// Surface the connect event to the application.
    EmitConnected,
    /// Send a best-effort disconnect message.
    SendDisconnect,
    /// Surface the disconnect to the application.
    EmitDisconnected,
}

/// The transition table: next state and required action for a state
/// and an event.
pub open spec fn spec_step(s: ConnState, e: ConnEvent) -> (ConnState, ConnAction) {
    match (s, e) {
        (ConnState::Disconnected, ConnEvent::ConnectRequest) => (
            ConnState::Connecting,
            ConnAction::SendHandshake,
        ),
        (ConnState::Connecting, ConnEvent::HandshakeAck) => (
            ConnState::Handshaking,
            ConnAction::BeginSync,
        ),
        (ConnState::Handshaking, ConnEvent::SyncCompleted) => (
            ConnState::Connected,
            ConnAction::EmitConnected,
        ),
        (_, ConnEvent::DisconnectRequest) => (
            ConnState::Disconnected,
            ConnAction::SendDisconnect,
        ),
        (_, ConnEvent::PeerDisconnect) => (ConnState::Disconnected, ConnAction::EmitDisconnected),
        (ConnState::Connected, ConnEvent::Timeout) => (
            ConnState::Disconnecting,
            ConnAction::EmitDisconnected,
        ),
        (ConnState::Connecting, ConnEvent::Timeout) => (
            ConnState::Disconnected,
            ConnAction::EmitDisconnected,
        ),
        (ConnState::Handshaking, ConnEvent::Timeout) => (
            ConnState::Disconnected,
            ConnAction::EmitDisconnected,
        ),
        _ => (s, ConnAction::Nothing),
    }
}

/// One connection endpoint with its timers and retry budget.
pub struct Connection {
    pub state: ConnState,
    /// Handshakes sent while `Connecting`.
    pub handshake_sent: u32,
    /// When the last datagram arrived, in microseconds.
    pub last_recv_us: u64,
    /// When the last datagram was sent, in microseconds.
    pub last_send_us: u64,
}

impl Connection {
    pub fn new() -> (c: Connection)
        ensures
            c.state is Disconnected,
            c.handshake_sent == 0,
    {
        Connection { state: ConnState::Disconnected, handshake_sent: 0, last_recv_us: 0, last_send_us: 0 }
    }

    /// Feed one event through the transition table.
    pub fn step(&mut self, e: ConnEvent) -> (a: ConnAction)
        ensures
            (final(self).state, a) == spec_step(old(self).state, e),
            final(self).last_recv_us == old(self).last_recv_us,
            final(self).last_send_us == old(self).last_send_us,
            final(self).handshake_sent == old(self).handshake_sent,
    {
        let (next, action): (ConnState, ConnAction) = match (self.state, e) {
            (ConnState::Disconnected, ConnEvent::ConnectRequest) => (
                ConnState::Connecting,
                ConnAction::SendHandshake,
            ),
            (ConnState::Connecting, ConnEvent::HandshakeAck) => (
                ConnState::Handshaking,
                ConnAction::BeginSync,
            ),
            (ConnState::Handshaking, ConnEvent::SyncCompleted) => (
                ConnState::Connected,
                ConnAction::EmitConnected,
            ),
            (_, ConnEvent::DisconnectRequest) => (
                ConnState::Disconnected,
                ConnAction::SendDisconnect,
            ),
            (_, ConnEvent::PeerDisconnect) => (
                ConnState::Disconnected,
                ConnAction::EmitDisconnected,
            ),
            (ConnState::Connected, ConnEvent::Timeout) => (
                ConnState::Disconnecting,
                ConnAction::EmitDisconnected,
            ),
            (ConnState::Connecting, ConnEvent::Timeout) => (
                ConnState::Disconnected,
                ConnAction::EmitDisconnected,
            ),
            (ConnState::Handshaking, ConnEvent::Timeout) => (
                ConnState::Disconnected,
                ConnAction::EmitDisconnected,
            ),
            (s, _) => (s, ConnAction::Nothing),
        };
        self.state = next;
        action
    }

    /// A datagram arrived: the keepalive timer resets.
    pub fn on_receive(&mut self, now_us: u64)
        ensures
            final(self).last_recv_us == now_us,
            final(self).state == old(self).state,
            final(self).last_send_us == old(self).last_send_us,
            final(self).handshake_sent == old(self).handshake_sent,
    {
        self.last_recv_us = now_us;
    }

    /// A datagram left: the ping timer resets.
    pub fn on_send(&mut self, now_us: u64)
        ensures
            final(self).last_send_us == now_us,
            final(self).state == old(self).state,
            final(self).last_recv_us == old(self).last_recv_us,
            final(self).handshake_sent == old(self).handshake_sent,
    {
        self.last_send_us = now_us;
    }

    /// While `Connecting`: whether another handshake may go out, or
    /// the retry budget is spent. Spends one retry when it grants one.
    pub fn try_handshake(&mut self, retries_max: u32) -> (granted: bool)
        requires
            old(self).state is Connecting,
        ensures
            granted <==> old(self).handshake_sent < retries_max,
            granted ==> final(self).handshake_sent == old(self).handshake_sent + 1,
            !granted ==> *final(self) == *old(self),
            final(self).state == old(self).state,
    {
        if self.handshake_sent < retries_max {
            self.handshake_sent = self.handshake_sent + 1;
            true
        } else {
            false
        }
    }

    /// Whether the connection has been silent past the keepalive
    /// timeout.
    pub fn timed_out(&self, now_us: u64, keepalive_timeout_us: u64) -> (r: bool)
        ensures
            r == (self.state is Connected && now_us >= self.last_recv_us && now_us
                - self.last_recv_us > keepalive_timeout_us),
    {
        match self.state {
            ConnState::Connected => now_us >= self.last_recv_us && now_us - self.last_recv_us
                > keepalive_timeout_us,
            _ => false,
        }
    }

    /// Whether a ping is due: connected, and nothing has been sent for
    /// the ping interval.
    pub fn ping_due(&self, now_us: u64, ping_interval_us: u64) -> (r: bool)
        ensures
            r == (self.state is Connected && now_us >= self.last_send_us && now_us
                - self.last_send_us >= ping_interval_us),
    {
        match self.state {
            ConnState::Connected => now_us >= self.last_send_us && now_us - self.last_send_us
                >= ping_interval_us,
            _ => false,
        }
    }
}

} // verus!
