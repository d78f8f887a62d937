//! Transport-level messages and their wire codec. All multi-byte
//! integers ride little-endian. Deserializing a serialized message
//! yields the original message: the round-trip law is proved against
//! the byte-level parser.
use vstd::prelude::*;
use crate::bytes::le_bytes;
use crate::bytes::le_val;
use crate::bytes::lemma_le_bytes_len;
use crate::bytes::lemma_le_round;
use crate::bytes::lemma_le_val_range;
use crate::bytes::lemma_pow256_values;
use crate::bytes::pow256;

verus! {

/// A structural change to an entity, replicated reliably in order.
#[derive(Clone, Copy, Debug, PartialEq, Eq, Structural)]
pub enum EntityAction {
    Spawn { entity: u32 },
    Despawn { entity: u32 },
    AddComponent { entity: u32, comp: u16 },
    RemoveComponent { entity: u32, comp: u16 },
}

/// One replicated component value (raw or delta-encoded bytes).
pub struct CompValue {
    pub comp_id: u16,
    pub data: Vec<u8>,
}

/// All component changes of one entity at one tick.
pub struct EntityUpdate {
    pub entity: u32,
    pub comps: Vec<CompValue>,
}

/// The transport-level unit of this protocol.
pub enum Message {
    Handshake { protocol_id: u64, session_key: u64 },
    HandshakeAck { client_id: u64 },
    Input { target_tick: u16, diffs: Vec<(u8, i16)> },
    EntityActions { tick: u16, actions: Vec<EntityAction> },
    EntityUpdates { tick: u16, updates: Vec<EntityUpdate> },
    Ack { ack: u16, ack_bits: u32 },
    Ping { nonce: u32 },
    Pong { nonce: u32 },
    SyncRequest { client_send_time: u32 },
    SyncResponse {
        client_send_time: u32,
        server_tick: u16,
        server_recv_time: u32,
        server_send_time: u32,
    },
    Disconnect,
}

/// Mathematical image of an `EntityAction`: `(kind, entity, comp)`.
pub type ActionView = (u8, u32, u16);

/// Mathematical image of a `CompValue`.
pub type CompView = (u16, Seq<u8>);

/// Mathematical image of an `EntityUpdate`.
pub type UpdateView = (u32, Seq<CompView>);

/// Mathematical image of a `Message`.
pub enum MessageView {
    Handshake { protocol_id: u64, session_key: u64 },
    HandshakeAck { client_id: u64 },
    Input { target_tick: u16, diffs: Seq<(u8, i16)> },
    EntityActions { tick: u16, actions: Seq<ActionView> },
    EntityUpdates { tick: u16, updates: Seq<UpdateView> },
    Ack { ack: u16, ack_bits: u32 },
    Ping { nonce: u32 },
    Pong { nonce: u32 },
    SyncRequest { client_send_time: u32 },
    SyncResponse {
        client_send_time: u32,
        server_tick: u16,
        server_recv_time: u32,
        server_send_time: u32,
    },
    Disconnect,
}

pub open spec fn action_view(a: EntityAction) -> ActionView {
    match a {
        EntityAction::Spawn { entity } => (0u8, entity, 0u16),
        EntityAction::Despawn { entity } => (1u8, entity, 0u16),
        EntityAction::AddComponent { entity, comp } => (2u8, entity, comp),
        EntityAction::RemoveComponent { entity, comp } => (3u8, entity, comp),
    }
}

pub open spec fn comp_view(c: CompValue) -> CompView {
    (c.comp_id, c.data@)
}

pub open spec fn update_view(u: EntityUpdate) -> UpdateView {
    (u.entity, u.comps@.map_values(|c: CompValue| comp_view(c)))
}

impl View for Message {
    type V = MessageView;

    open spec fn view(&self) -> MessageView {
        match *self {
            Message::Handshake { protocol_id, session_key } => MessageView::Handshake {
                protocol_id,
                session_key,
            },
            Message::HandshakeAck { client_id } => MessageView::HandshakeAck { client_id },
            Message::Input { target_tick, diffs } => MessageView::Input {
                target_tick,
                diffs: diffs@,
            },
            Message::EntityActions { tick, actions } => MessageView::EntityActions {
                tick,
                actions: actions@.map_values(|a: EntityAction| action_view(a)),
            },
            Message::EntityUpdates { tick, updates } => MessageView::EntityUpdates {
                tick,
                updates: updates@.map_values(|u: EntityUpdate| update_view(u)),
            },
            Message::Ack { ack, ack_bits } => MessageView::Ack { ack, ack_bits },
            Message::Ping { nonce } => MessageView::Ping { nonce },
            Message::Pong { nonce } => MessageView::Pong { nonce },
            Message::SyncRequest { client_send_time } => MessageView::SyncRequest {
                client_send_time,
            },
            Message::SyncResponse {
                client_send_time,
                server_tick,
                server_recv_time,
                server_send_time,
            } => MessageView::SyncResponse {
                client_send_time,
                server_tick,
                server_recv_time,
                server_send_time,
            },
            Message::Disconnect => MessageView::Disconnect,
        }
    }
}

/// Counts that must fit their wire-format width.
pub open spec fn msg_wf(m: MessageView) -> bool {
    match m {
        MessageView::Input { diffs, .. } => diffs.len() <= 255,
        MessageView::EntityActions { actions, .. } => {
            &&& actions.len() <= 65535
            &&& forall|i: int| 0 <= i < actions.len() ==> (#[trigger] actions[i]).0 <= 3
        },
        MessageView::EntityUpdates { updates, .. } => {
            &&& updates.len() <= 65535
            &&& forall|i: int|
                0 <= i < updates.len() ==> {
                    &&& (#[trigger] updates[i]).1.len() <= 255
                    &&& forall|j: int|
                        0 <= j < updates[i].1.len() ==> (#[trigger] updates[i].1[j]).1.len()
                            <= 65535
                }
        },
        _ => true,
    }
}

pub open spec fn enc_diff(p: (u8, i16)) -> Seq<u8> {
    le_bytes(p.0 as int, 1) + le_bytes(p.1 as u16 as int, 2)
}

pub open spec fn enc_diffs(l: Seq<(u8, i16)>) -> Seq<u8>
    decreases l.len(),
{
    if l.len() == 0 {
        Seq::empty()
    } else {
        enc_diff(l[0]) + enc_diffs(l.drop_first())
    }
}

pub open spec fn enc_action(a: ActionView) -> Seq<u8> {
    if a.0 == 2 || a.0 == 3 {
        le_bytes(a.0 as int, 1) + le_bytes(a.1 as int, 4) + le_bytes(a.2 as int, 2)
    } else {
        le_bytes(a.0 as int, 1) + le_bytes(a.1 as int, 4)
    }
}

pub open spec fn enc_actions(l: Seq<ActionView>) -> Seq<u8>
    decreases l.len(),
{
    if l.len() == 0 {
        Seq::empty()
    } else {
        enc_action(l[0]) + enc_actions(l.drop_first())
    }
}

pub open spec fn enc_comp(c: CompView) -> Seq<u8> {
    le_bytes(c.0 as int, 2) + le_bytes(c.1.len() as int, 2) + c.1
}

pub open spec fn enc_comps(l: Seq<CompView>) -> Seq<u8>
    decreases l.len(),
{
    if l.len() == 0 {
        Seq::empty()
    } else {
        enc_comp(l[0]) + enc_comps(l.drop_first())
    }
}

pub open spec fn enc_update(u: UpdateView) -> Seq<u8> {
    le_bytes(u.0 as int, 4) + le_bytes(u.1.len() as int, 1) + enc_comps(u.1)
}

pub open spec fn enc_updates(l: Seq<UpdateView>) -> Seq<u8>
    decreases l.len(),
{
    if l.len() == 0 {
        Seq::empty()
    } else {
        enc_update(l[0]) + enc_updates(l.drop_first())
    }
}

/// The wire bytes of a message.
pub open spec fn spec_encode(m: MessageView) -> Seq<u8> {
    match m {
        MessageView::Handshake { protocol_id, session_key } => le_bytes(0, 1) + le_bytes(
            protocol_id as int,
            8,
        ) + le_bytes(session_key as int, 8),
        MessageView::HandshakeAck { client_id } => le_bytes(1, 1) + le_bytes(client_id as int, 8),
        MessageView::Input { target_tick, diffs } => le_bytes(2, 1) + le_bytes(
            target_tick as int,
            2,
        ) + le_bytes(diffs.len() as int, 1) + enc_diffs(diffs),
        MessageView::EntityActions { tick, actions } => le_bytes(3, 1) + le_bytes(tick as int, 2)
            + le_bytes(actions.len() as int, 2) + enc_actions(actions),
        MessageView::EntityUpdates { tick, updates } => le_bytes(4, 1) + le_bytes(tick as int, 2)
            + le_bytes(updates.len() as int, 2) + enc_updates(updates),
        MessageView::Ack { ack, ack_bits } => le_bytes(5, 1) + le_bytes(ack as int, 2) + le_bytes(
            ack_bits as int,
            4,
        ),
        MessageView::Ping { nonce } => le_bytes(6, 1) + le_bytes(nonce as int, 4),
        MessageView::Pong { nonce } => le_bytes(7, 1) + le_bytes(nonce as int, 4),
        MessageView::SyncRequest { client_send_time } => le_bytes(8, 1) + le_bytes(
            client_send_time as int,
            4,
        ),
        MessageView::SyncResponse {
            client_send_time,
            server_tick,
            server_recv_time,
            server_send_time,
        } => le_bytes(9, 1) + le_bytes(client_send_time as int, 4) + le_bytes(server_tick as int, 2)
            + le_bytes(server_recv_time as int, 4) + le_bytes(server_send_time as int, 4),
        MessageView::Disconnect => le_bytes(10, 1),
    }
}

/// Read an `n`-byte little-endian integer off the front of `s`.
pub open spec fn dec_uint(s: Seq<u8>, n: nat) -> Option<(int, Seq<u8>)> {
    if s.len() >= n {
        Some((le_val(s.take(n as int)), s.skip(n as int)))
    } else {
        None
    }
}

/// Reading an integer off its own encoding followed by anything else
/// recovers the integer and leaves the rest.
pub proof fn lemma_dec_uint_prefix(x: int, n: nat, rest: Seq<u8>)
    requires
        0 <= x < pow256(n),
    ensures
        dec_uint(le_bytes(x, n) + rest, n) == Some((x, rest)),
{
    lemma_le_bytes_len(x, n);
    assert((le_bytes(x, n) + rest).take(n as int) =~= le_bytes(x, n));
    assert((le_bytes(x, n) + rest).skip(n as int) =~= rest);
    lemma_le_round(x, n);
}

pub open spec fn dec_diffs(s: Seq<u8>, n: nat) -> Option<(Seq<(u8, i16)>, Seq<u8>)>
    decreases n,
{
    if n == 0 {
        Some((Seq::empty(), s))
    } else {
        match dec_uint(s, 1) {
            Some((a, s1)) => match dec_uint(s1, 2) {
                Some((v, s2)) => match dec_diffs(s2, (n - 1) as nat) {
                    Some((tail, s3)) => Some(
                        (seq![(a as u8, v as u16 as i16)] + tail, s3),
                    ),
                    None => None,
                },
                None => None,
            },
            None => None,
        }
    }
}

pub open spec fn dec_actions(s: Seq<u8>, n: nat) -> Option<(Seq<ActionView>, Seq<u8>)>
    decreases n,
{
    if n == 0 {
        Some((Seq::empty(), s))
    } else {
        match dec_uint(s, 1) {
            Some((k, s1)) => {
                if k > 3 {
                    None
                } else {
                    match dec_uint(s1, 4) {
                        Some((e, s2)) => {
                            if k == 2 || k == 3 {
                                match dec_uint(s2, 2) {
                                    Some((c, s3)) => match dec_actions(s3, (n - 1) as nat) {
                                        Some((tail, s4)) => Some(
                                            (seq![(k as u8, e as u32, c as u16)] + tail, s4),
                                        ),
                                        None => None,
                                    },
                                    None => None,
                                }
                            } else {
                                match dec_actions(s2, (n - 1) as nat) {
                                    Some((tail, s3)) => Some(
                                        (seq![(k as u8, e as u32, 0u16)] + tail, s3),
                                    ),
                                    None => None,
                                }
                            }
                        },
                        None => None,
                    }
                }
            },
            None => None,
        }
    }
}

pub open spec fn dec_comps(s: Seq<u8>, n: nat) -> Option<(Seq<CompView>, Seq<u8>)>
    decreases n,
{
    if n == 0 {
        Some((Seq::empty(), s))
    } else {
        match dec_uint(s, 2) {
            Some((cid, s1)) => match dec_uint(s1, 2) {
                Some((len, s2)) => {
                    if s2.len() >= len {
                        match dec_comps(s2.skip(len), (n - 1) as nat) {
                            Some((tail, s3)) => Some(
                                (seq![(cid as u16, s2.take(len))] + tail, s3),
                            ),
                            None => None,
                        }
                    } else {
                        None
                    }
                },
                None => None,
            },
            None => None,
        }
    }
}

pub open spec fn dec_updates(s: Seq<u8>, n: nat) -> Option<(Seq<UpdateView>, Seq<u8>)>
    decreases n,
{
    if n == 0 {
        Some((Seq::empty(), s))
    } else {
        match dec_uint(s, 4) {
            Some((e, s1)) => match dec_uint(s1, 1) {
                Some((m, s2)) => match dec_comps(s2, m as nat) {
                    Some((comps, s3)) => match dec_updates(s3, (n - 1) as nat) {
                        Some((tail, s4)) => Some((seq![(e as u32, comps)] + tail, s4)),
                        None => None,
                    },
                    None => None,
                },
                None => None,
            },
            None => None,
        }
    }
}

/// The message parsed from `s`, if `s` is exactly one well-formed
/// message.
pub open spec fn spec_decode(s: Seq<u8>) -> Option<MessageView> {
    match dec_uint(s, 1) {
        Some((tag, s1)) => {
            if tag == 0 {
                match dec_uint(s1, 8) {
                    Some((pid, s2)) => match dec_uint(s2, 8) {
                        Some((key, s3)) => {
                            if s3.len() == 0 {
                                Some(
                                    MessageView::Handshake {
                                        protocol_id: pid as u64,
                                        session_key: key as u64,
                                    },
                                )
                            } else {
                                None
                            }
                        },
                        None => None,
                    },
                    None => None,
                }
            } else if tag == 1 {
                match dec_uint(s1, 8) {
                    Some((cid, s2)) => {
                        if s2.len() == 0 {
                            Some(MessageView::HandshakeAck { client_id: cid as u64 })
                        } else {
                            None
                        }
                    },
                    None => None,
                }
            } else if tag == 2 {
                match dec_uint(s1, 2) {
                    Some((t, s2)) => match dec_uint(s2, 1) {
                        Some((n, s3)) => match dec_diffs(s3, n as nat) {
                            Some((diffs, s4)) => {
                                if s4.len() == 0 {
                                    Some(MessageView::Input { target_tick: t as u16, diffs })
                                } else {
                                    None
                                }
                            },
                            None => None,
                        },
                        None => None,
                    },
                    None => None,
                }
            } else if tag == 3 {
                match dec_uint(s1, 2) {
                    Some((t, s2)) => match dec_uint(s2, 2) {
                        Some((n, s3)) => match dec_actions(s3, n as nat) {
                            Some((actions, s4)) => {
                                if s4.len() == 0 {
                                    Some(MessageView::EntityActions { tick: t as u16, actions })
                                } else {
                                    None
                                }
                            },
                            None => None,
                        },
                        None => None,
                    },
                    None => None,
                }
            } else if tag == 4 {
                match dec_uint(s1, 2) {
                    Some((t, s2)) => match dec_uint(s2, 2) {
                        Some((n, s3)) => match dec_updates(s3, n as nat) {
                            Some((updates, s4)) => {
                                if s4.len() == 0 {
                                    Some(MessageView::EntityUpdates { tick: t as u16, updates })
                                } else {
                                    None
                                }
                            },
                            None => None,
                        },
                        None => None,
                    },
                    None => None,
                }
            } else if tag == 5 {
                match dec_uint(s1, 2) {
                    Some((a, s2)) => match dec_uint(s2, 4) {
                        Some((b, s3)) => {
                            if s3.len() == 0 {
                                Some(MessageView::Ack { ack: a as u16, ack_bits: b as u32 })
                            } else {
                                None
                            }
                        },
                        None => None,
                    },
                    None => None,
                }
            } else if tag == 6 {
                match dec_uint(s1, 4) {
                    Some((x, s2)) => {
                        if s2.len() == 0 {
                            Some(MessageView::Ping { nonce: x as u32 })
                        } else {
                            None
                        }
                    },
                    None => None,
                }
            } else if tag == 7 {
                match dec_uint(s1, 4) {
                    Some((x, s2)) => {
                        if s2.len() == 0 {
                            Some(MessageView::Pong { nonce: x as u32 })
                        } else {
                            None
                        }
                    },
                    None => None,
                }
            } else if tag == 8 {
                match dec_uint(s1, 4) {
                    Some((x, s2)) => {
                        if s2.len() == 0 {
                            Some(MessageView::SyncRequest { client_send_time: x as u32 })
                        } else {
                            None
                        }
                    },
                    None => None,
                }
            } else if tag == 9 {
                match dec_uint(s1, 4) {
                    Some((cst, s2)) => match dec_uint(s2, 2) {
                        Some((st, s3)) => match dec_uint(s3, 4) {
                            Some((srt, s4)) => match dec_uint(s4, 4) {
                                Some((sst, s5)) => {
                                    if s5.len() == 0 {
                                        Some(
                                            MessageView::SyncResponse {
                                                client_send_time: cst as u32,
                                                server_tick: st as u16,
                                                server_recv_time: srt as u32,
                                                server_send_time: sst as u32,
                                            },
                                        )
                                    } else {
                                        None
                                    }
                                },
                                None => None,
                            },
                            None => None,
                        },
                        None => None,
                    },
                    None => None,
                }
            } else if tag == 10 {
                if s1.len() == 0 {
                    Some(MessageView::Disconnect)
                } else {
                    None
                }
            } else {
                None
            }
        },
        None => None,
    }
}

pub proof fn lemma_dec_diffs_prefix(l: Seq<(u8, i16)>, rest: Seq<u8>)
    ensures
        dec_diffs(enc_diffs(l) + rest, l.len()) == Some((l, rest)),
    decreases l.len(),
{
    lemma_pow256_values();
    if l.len() == 0 {
        assert(enc_diffs(l) + rest =~= rest);
    } else {
        let p = l[0];
        let tail = l.drop_first();
        assert(enc_diffs(l) + rest =~= le_bytes(p.0 as int, 1) + (le_bytes(p.1 as u16 as int, 2)
            + (enc_diffs(tail) + rest)));
        lemma_dec_uint_prefix(p.0 as int, 1, le_bytes(p.1 as u16 as int, 2) + (enc_diffs(tail)
            + rest));
        lemma_dec_uint_prefix(p.1 as u16 as int, 2, enc_diffs(tail) + rest);
        lemma_dec_diffs_prefix(tail, rest);
        let v = p.1;
        assert(v as u16 as i16 == v) by (bit_vector);
        assert(seq![(p.0, p.1)] + tail =~= l);
    }
}

#[verifier::rlimit(60)]
pub proof fn lemma_dec_actions_prefix(l: Seq<ActionView>, rest: Seq<u8>)
    requires
        forall|i: int| 0 <= i < l.len() ==> (#[trigger] l[i]).0 <= 3,
        forall|i: int| 0 <= i < l.len() ==> ((#[trigger] l[i]).0 == 0 || l[i].0 == 1 ==> l[i].2 == 0),
    ensures
        dec_actions(enc_actions(l) + rest, l.len()) == Some((l, rest)),
    decreases l.len(),
{
    lemma_pow256_values();
    if l.len() == 0 {
        assert(enc_actions(l) + rest =~= rest);
    } else {
        let a = l[0];
        let tail = l.drop_first();
        lemma_dec_actions_prefix(tail, rest);
        if a.0 == 2 || a.0 == 3 {
            assert(enc_actions(l) + rest =~= le_bytes(a.0 as int, 1) + (le_bytes(a.1 as int, 4)
                + (le_bytes(a.2 as int, 2) + (enc_actions(tail) + rest))));
            lemma_dec_uint_prefix(a.0 as int, 1, le_bytes(a.1 as int, 4) + (le_bytes(a.2 as int, 2)
                + (enc_actions(tail) + rest)));
            lemma_dec_uint_prefix(a.1 as int, 4, le_bytes(a.2 as int, 2) + (enc_actions(tail)
                + rest));
            lemma_dec_uint_prefix(a.2 as int, 2, enc_actions(tail) + rest);
            assert(seq![(a.0, a.1, a.2)] + tail =~= l);
        } else {
            assert(enc_actions(l) + rest =~= le_bytes(a.0 as int, 1) + (le_bytes(a.1 as int, 4)
                + (enc_actions(tail) + rest)));
            lemma_dec_uint_prefix(a.0 as int, 1, le_bytes(a.1 as int, 4) + (enc_actions(tail)
                + rest));
            lemma_dec_uint_prefix(a.1 as int, 4, enc_actions(tail) + rest);
            assert(a.2 == 0);
            assert(seq![(a.0, a.1, 0u16)] + tail =~= l);
        }
    }
}

pub proof fn lemma_dec_comps_prefix(l: Seq<CompView>, rest: Seq<u8>)
    requires
        forall|i: int| 0 <= i < l.len() ==> (#[trigger] l[i]).1.len() <= 65535,
    ensures
        dec_comps(enc_comps(l) + rest, l.len()) == Some((l, rest)),
    decreases l.len(),
{
    lemma_pow256_values();
    if l.len() == 0 {
        assert(enc_comps(l) + rest =~= rest);
    } else {
        let c = l[0];
        let tail = l.drop_first();
        lemma_dec_comps_prefix(tail, rest);
        let dlen = c.1.len() as int;
        assert(enc_comps(l) + rest =~= le_bytes(c.0 as int, 2) + (le_bytes(dlen, 2) + (c.1
            + (enc_comps(tail) + rest))));
        lemma_dec_uint_prefix(c.0 as int, 2, le_bytes(dlen, 2) + (c.1 + (enc_comps(tail) + rest)));
        lemma_dec_uint_prefix(dlen, 2, c.1 + (enc_comps(tail) + rest));
        let s2 = c.1 + (enc_comps(tail) + rest);
        assert(s2.take(dlen) =~= c.1);
        assert(s2.skip(dlen) =~= enc_comps(tail) + rest);
        assert(seq![(c.0, c.1)] + tail =~= l);
    }
}

pub proof fn lemma_dec_updates_prefix(l: Seq<UpdateView>, rest: Seq<u8>)
    requires
        forall|i: int|
            0 <= i < l.len() ==> {
                &&& (#[trigger] l[i]).1.len() <= 255
                &&& forall|j: int| 0 <= j < l[i].1.len() ==> (#[trigger] l[i].1[j]).1.len() <= 65535
            },
    ensures
        dec_updates(enc_updates(l) + rest, l.len()) == Some((l, rest)),
    decreases l.len(),
{
    lemma_pow256_values();
    if l.len() == 0 {
        assert(enc_updates(l) + rest =~= rest);
    } else {
        let u = l[0];
        let tail = l.drop_first();
        lemma_dec_updates_prefix(tail, rest);
        let m = u.1.len() as int;
        assert(enc_updates(l) + rest =~= le_bytes(u.0 as int, 4) + (le_bytes(m, 1) + (enc_comps(u.1)
            + (enc_updates(tail) + rest))));
        lemma_dec_uint_prefix(u.0 as int, 4, le_bytes(m, 1) + (enc_comps(u.1) + (enc_updates(tail)
            + rest)));
        lemma_dec_uint_prefix(m, 1, enc_comps(u.1) + (enc_updates(tail) + rest));
        assert(l[0].1 =~= u.1);
        lemma_dec_comps_prefix(u.1, enc_updates(tail) + rest);
        assert(seq![(u.0, u.1)] + tail =~= l);
    }
}

/// Deserializing the serialization of any well-formed message yields
/// that message back: the round-trip law of the message codec.
#[verifier::rlimit(100)]
pub proof fn lemma_message_round_trip(m: MessageView)
    requires
        msg_wf(m),
        msg_canonical(m),
    ensures
        spec_decode(spec_encode(m)) == Some(m),
{
    lemma_pow256_values();
    let e = spec_encode(m);
    match m {
        MessageView::Handshake { protocol_id, session_key } => {
            assert(e =~= le_bytes(0, 1) + (le_bytes(protocol_id as int, 8) + (le_bytes(
                session_key as int,
                8,
            ) + Seq::<u8>::empty())));
            lemma_dec_uint_prefix(0, 1, le_bytes(protocol_id as int, 8) + (le_bytes(
                session_key as int,
                8,
            ) + Seq::<u8>::empty()));
            lemma_dec_uint_prefix(protocol_id as int, 8, le_bytes(session_key as int, 8)
                + Seq::<u8>::empty());
            lemma_dec_uint_prefix(session_key as int, 8, Seq::<u8>::empty());
        },
        MessageView::HandshakeAck { client_id } => {
            assert(e =~= le_bytes(1, 1) + (le_bytes(client_id as int, 8) + Seq::<u8>::empty()));
            lemma_dec_uint_prefix(1, 1, le_bytes(client_id as int, 8) + Seq::<u8>::empty());
            lemma_dec_uint_prefix(client_id as int, 8, Seq::<u8>::empty());
        },
        MessageView::Input { target_tick, diffs } => {
            assert(e =~= le_bytes(2, 1) + (le_bytes(target_tick as int, 2) + (le_bytes(
                diffs.len() as int,
                1,
            ) + (enc_diffs(diffs) + Seq::<u8>::empty()))));
            lemma_dec_uint_prefix(2, 1, le_bytes(target_tick as int, 2) + (le_bytes(
                diffs.len() as int,
                1,
            ) + (enc_diffs(diffs) + Seq::<u8>::empty())));
            lemma_dec_uint_prefix(target_tick as int, 2, le_bytes(diffs.len() as int, 1) + (
            enc_diffs(diffs) + Seq::<u8>::empty()));
            lemma_dec_uint_prefix(diffs.len() as int, 1, enc_diffs(diffs) + Seq::<u8>::empty());
            lemma_dec_diffs_prefix(diffs, Seq::<u8>::empty());
        },
        MessageView::EntityActions { tick, actions } => {
            assert(e =~= le_bytes(3, 1) + (le_bytes(tick as int, 2) + (le_bytes(
                actions.len() as int,
                2,
            ) + (enc_actions(actions) + Seq::<u8>::empty()))));
            lemma_dec_uint_prefix(3, 1, le_bytes(tick as int, 2) + (le_bytes(actions.len() as int, 2)
                + (enc_actions(actions) + Seq::<u8>::empty())));
            lemma_dec_uint_prefix(tick as int, 2, le_bytes(actions.len() as int, 2) + (enc_actions(
                actions,
            ) + Seq::<u8>::empty()));
            lemma_dec_uint_prefix(actions.len() as int, 2, enc_actions(actions)
                + Seq::<u8>::empty());
            lemma_dec_actions_prefix(actions, Seq::<u8>::empty());
        },
        MessageView::EntityUpdates { tick, updates } => {
            assert(e =~= le_bytes(4, 1) + (le_bytes(tick as int, 2) + (le_bytes(
                updates.len() as int,
                2,
            ) + (enc_updates(updates) + Seq::<u8>::empty()))));
            lemma_dec_uint_prefix(4, 1, le_bytes(tick as int, 2) + (le_bytes(updates.len() as int, 2)
                + (enc_updates(updates) + Seq::<u8>::empty())));
            lemma_dec_uint_prefix(tick as int, 2, le_bytes(updates.len() as int, 2) + (enc_updates(
                updates,
            ) + Seq::<u8>::empty()));
            lemma_dec_uint_prefix(updates.len() as int, 2, enc_updates(updates)
                + Seq::<u8>::empty());
            lemma_dec_updates_prefix(updates, Seq::<u8>::empty());
        },
        MessageView::Ack { ack, ack_bits } => {
            assert(e =~= le_bytes(5, 1) + (le_bytes(ack as int, 2) + (le_bytes(ack_bits as int, 4)
                + Seq::<u8>::empty())));
            lemma_dec_uint_prefix(5, 1, le_bytes(ack as int, 2) + (le_bytes(ack_bits as int, 4)
                + Seq::<u8>::empty()));
            lemma_dec_uint_prefix(ack as int, 2, le_bytes(ack_bits as int, 4) + Seq::<u8>::empty());
            lemma_dec_uint_prefix(ack_bits as int, 4, Seq::<u8>::empty());
        },
        MessageView::Ping { nonce } => {
            assert(e =~= le_bytes(6, 1) + (le_bytes(nonce as int, 4) + Seq::<u8>::empty()));
            lemma_dec_uint_prefix(6, 1, le_bytes(nonce as int, 4) + Seq::<u8>::empty());
            lemma_dec_uint_prefix(nonce as int, 4, Seq::<u8>::empty());
        },
        MessageView::Pong { nonce } => {
            assert(e =~= le_bytes(7, 1) + (le_bytes(nonce as int, 4) + Seq::<u8>::empty()));
            lemma_dec_uint_prefix(7, 1, le_bytes(nonce as int, 4) + Seq::<u8>::empty());
            lemma_dec_uint_prefix(nonce as int, 4, Seq::<u8>::empty());
        },
        MessageView::SyncRequest { client_send_time } => {
            assert(e =~= le_bytes(8, 1) + (le_bytes(client_send_time as int, 4)
                + Seq::<u8>::empty()));
            lemma_dec_uint_prefix(8, 1, le_bytes(client_send_time as int, 4) + Seq::<u8>::empty());
            lemma_dec_uint_prefix(client_send_time as int, 4, Seq::<u8>::empty());
        },
        MessageView::SyncResponse {
            client_send_time,
            server_tick,
            server_recv_time,
            server_send_time,
        } => {
            assert(e =~= le_bytes(9, 1) + (le_bytes(client_send_time as int, 4) + (le_bytes(
                server_tick as int,
                2,
            ) + (le_bytes(server_recv_time as int, 4) + (le_bytes(server_send_time as int, 4)
                + Seq::<u8>::empty())))));
            lemma_dec_uint_prefix(9, 1, le_bytes(client_send_time as int, 4) + (le_bytes(
                server_tick as int,
                2,
            ) + (le_bytes(server_recv_time as int, 4) + (le_bytes(server_send_time as int, 4)
                + Seq::<u8>::empty()))));
            lemma_dec_uint_prefix(client_send_time as int, 4, le_bytes(server_tick as int, 2) + (
            le_bytes(server_recv_time as int, 4) + (le_bytes(server_send_time as int, 4)
                + Seq::<u8>::empty())));
            lemma_dec_uint_prefix(server_tick as int, 2, le_bytes(server_recv_time as int, 4) + (
            le_bytes(server_send_time as int, 4) + Seq::<u8>::empty()));
            lemma_dec_uint_prefix(server_recv_time as int, 4, le_bytes(server_send_time as int, 4)
                + Seq::<u8>::empty());
            lemma_dec_uint_prefix(server_send_time as int, 4, Seq::<u8>::empty());
        },
        MessageView::Disconnect => {
            assert(e =~= le_bytes(10, 1) + Seq::<u8>::empty());
            lemma_dec_uint_prefix(10, 1, Seq::<u8>::empty());
        },
    }
}

/// The unused component field of a spawn or despawn action is zero:
/// what `action_view` produces, and what decoding yields.
pub open spec fn msg_canonical(m: MessageView) -> bool {
    match m {
        MessageView::EntityActions { actions, .. } => forall|i: int|
            0 <= i < actions.len() ==> ((#[trigger] actions[i]).0 == 0 || actions[i].0 == 1
                ==> actions[i].2 == 0),
        _ => true,
    }
}

/// The view of a built message is always canonical.
pub proof fn lemma_view_canonical(m: Message)
    ensures
        msg_canonical(m@),
{
    match m {
        Message::EntityActions { tick, actions } => {
            let av = actions@.map_values(|a: EntityAction| action_view(a));
            assert forall|i: int|
                0 <= i < av.len() && ((#[trigger] av[i]).0 == 0 || av[i].0 == 1) implies av[i].2
                == 0 by {
                let a = actions@[i];
                assert(av[i] == action_view(a));
            }
        },
        _ => {},
    }
}

proof fn lemma_enc_diffs_push(l: Seq<(u8, i16)>, x: (u8, i16))
    ensures
        enc_diffs(l.push(x)) == enc_diffs(l) + enc_diff(x),
    decreases l.len(),
{
    let p = l.push(x);
    if l.len() == 0 {
        assert(p.drop_first() =~= Seq::<(u8, i16)>::empty());
        assert(enc_diffs(p.drop_first()) == Seq::<u8>::empty());
        assert(enc_diffs(p) == enc_diff(p[0]) + enc_diffs(p.drop_first()));
        assert(enc_diff(x) + Seq::<u8>::empty() =~= enc_diff(x));
        assert(enc_diffs(l) + enc_diff(x) =~= enc_diff(x));
    } else {
        assert(p.drop_first() =~= l.drop_first().push(x));
        lemma_enc_diffs_push(l.drop_first(), x);
        assert(enc_diffs(p) == enc_diff(l[0]) + (enc_diffs(l.drop_first()) + enc_diff(x)));
        assert(enc_diff(l[0]) + (enc_diffs(l.drop_first()) + enc_diff(x)) =~= (enc_diff(l[0]) + enc_diffs(
            l.drop_first(),
        )) + enc_diff(x));
    }
}

proof fn lemma_enc_actions_push(l: Seq<ActionView>, x: ActionView)
    ensures
        enc_actions(l.push(x)) == enc_actions(l) + enc_action(x),
    decreases l.len(),
{
    let p = l.push(x);
    if l.len() == 0 {
        assert(p.drop_first() =~= Seq::<ActionView>::empty());
        assert(enc_actions(p.drop_first()) == Seq::<u8>::empty());
        assert(enc_actions(p) == enc_action(p[0]) + enc_actions(p.drop_first()));
        assert(enc_action(x) + Seq::<u8>::empty() =~= enc_action(x));
        assert(enc_actions(l) + enc_action(x) =~= enc_action(x));
    } else {
        assert(p.drop_first() =~= l.drop_first().push(x));
        lemma_enc_actions_push(l.drop_first(), x);
        assert(enc_actions(p) == enc_action(l[0]) + (enc_actions(l.drop_first()) + enc_action(x)));
        assert(enc_action(l[0]) + (enc_actions(l.drop_first()) + enc_action(x)) =~= (enc_action(l[0]) + enc_actions(
            l.drop_first(),
        )) + enc_action(x));
    }
}

proof fn lemma_enc_comps_push(l: Seq<CompView>, x: CompView)
    ensures
        enc_comps(l.push(x)) == enc_comps(l) + enc_comp(x),
    decreases l.len(),
{
    let p = l.push(x);
    if l.len() == 0 {
        assert(p.drop_first() =~= Seq::<CompView>::empty());
        assert(enc_comps(p.drop_first()) == Seq::<u8>::empty());
        assert(enc_comps(p) == enc_comp(p[0]) + enc_comps(p.drop_first()));
        assert(enc_comp(x) + Seq::<u8>::empty() =~= enc_comp(x));
        assert(enc_comps(l) + enc_comp(x) =~= enc_comp(x));
    } else {
        assert(p.drop_first() =~= l.drop_first().push(x));
        lemma_enc_comps_push(l.drop_first(), x);
        assert(enc_comps(p) == enc_comp(l[0]) + (enc_comps(l.drop_first()) + enc_comp(x)));
        assert(enc_comp(l[0]) + (enc_comps(l.drop_first()) + enc_comp(x)) =~= (enc_comp(l[0]) + enc_comps(
            l.drop_first(),
        )) + enc_comp(x));
    }
}

proof fn lemma_enc_updates_push(l: Seq<UpdateView>, x: UpdateView)
    ensures
        enc_updates(l.push(x)) == enc_updates(l) + enc_update(x),
    decreases l.len(),
{
    let p = l.push(x);
    if l.len() == 0 {
        assert(p.drop_first() =~= Seq::<UpdateView>::empty());
        assert(enc_updates(p.drop_first()) == Seq::<u8>::empty());
        assert(enc_updates(p) == enc_update(p[0]) + enc_updates(p.drop_first()));
        assert(enc_update(x) + Seq::<u8>::empty() =~= enc_update(x));
        assert(enc_updates(l) + enc_update(x) =~= enc_update(x));
    } else {
        assert(p.drop_first() =~= l.drop_first().push(x));
        lemma_enc_updates_push(l.drop_first(), x);
        assert(enc_updates(p) == enc_update(l[0]) + (enc_updates(l.drop_first()) + enc_update(x)));
        assert(enc_update(l[0]) + (enc_updates(l.drop_first()) + enc_update(x)) =~= (enc_update(l[0]) + enc_updates(
            l.drop_first(),
        )) + enc_update(x));
    }
}

fn encode_comps(out: &mut Vec<u8>, comps: &Vec<CompValue>)
    requires
        forall|j: int| 0 <= j < comps@.len() ==> (#[trigger] comps@[j]).data@.len() <= 65535,
    ensures
        final(out)@ == old(out)@ + enc_comps(comps@.map_values(|c: CompValue| comp_view(c))),
{
    let ghost cv = comps@.map_values(|c: CompValue| comp_view(c));
    let mut i: usize = 0;
    proof {
        assert(out@ + enc_comps(cv.take(0)) =~= out@);
    }
    while i < comps.len()
        invariant
            i <= comps@.len(),
            cv == comps@.map_values(|c: CompValue| comp_view(c)),
            forall|j: int| 0 <= j < comps@.len() ==> (#[trigger] comps@[j]).data@.len() <= 65535,
            out@ == old(out)@ + enc_comps(cv.take(i as int)),
        decreases comps@.len() - i,
    {
        let c = &comps[i];
        crate::bytes::push_u16(out, c.comp_id);
        crate::bytes::push_u16(out, c.data.len() as u16);
        crate::bytes::push_bytes(out, &c.data);
        proof {
            assert(cv.take(i + 1) =~= cv.take(i as int).push(cv[i as int]));
            lemma_enc_comps_push(cv.take(i as int), cv[i as int]);
            assert(cv[i as int] == comp_view(comps@[i as int]));
            assert(out@ =~= old(out)@ + enc_comps(cv.take(i + 1)));
        }
        i = i + 1;
    }
    proof {
        assert(cv.take(cv.len() as int) =~= cv);
    }
}

/// Serialize a message into its wire bytes.
pub fn encode_message(m: &Message) -> (out: Vec<u8>)
    requires
        msg_wf(m@),
    ensures
        out@ == spec_encode(m@),
{
    let mut out: Vec<u8> = Vec::new();
    match m {
        Message::Handshake { protocol_id, session_key } => {
            crate::bytes::push_u8(&mut out, 0);
            crate::bytes::push_u64(&mut out, *protocol_id);
            crate::bytes::push_u64(&mut out, *session_key);
            proof {
                assert(out@ =~= spec_encode(m@));
            }
        },
        Message::HandshakeAck { client_id } => {
            crate::bytes::push_u8(&mut out, 1);
            crate::bytes::push_u64(&mut out, *client_id);
            proof {
                assert(out@ =~= spec_encode(m@));
            }
        },
        Message::Input { target_tick, diffs } => {
            crate::bytes::push_u8(&mut out, 2);
            crate::bytes::push_u16(&mut out, *target_tick);
            crate::bytes::push_u8(&mut out, diffs.len() as u8);
            let ghost base = out@;
            let mut i: usize = 0;
            proof {
                assert(base + enc_diffs(diffs@.take(0)) =~= base);
            }
            while i < diffs.len()
                invariant
                    i <= diffs@.len(),
                    out@ == base + enc_diffs(diffs@.take(i as int)),
                decreases diffs@.len() - i,
            {
                let (a, v) = diffs[i];
                crate::bytes::push_u8(&mut out, a);
                crate::bytes::push_u16(&mut out, v as u16);
                proof {
                    assert(diffs@.take(i + 1) =~= diffs@.take(i as int).push(diffs@[i as int]));
                    lemma_enc_diffs_push(diffs@.take(i as int), diffs@[i as int]);
                    assert(out@ =~= base + enc_diffs(diffs@.take(i + 1)));
                }
                i = i + 1;
            }
            proof {
                assert(diffs@.take(diffs@.len() as int) =~= diffs@);
                assert(out@ =~= spec_encode(m@));
            }
        },
        Message::EntityActions { tick, actions } => {
            crate::bytes::push_u8(&mut out, 3);
            crate::bytes::push_u16(&mut out, *tick);
            crate::bytes::push_u16(&mut out, actions.len() as u16);
            let ghost base = out@;
            let ghost av = actions@.map_values(|a: EntityAction| action_view(a));
            let mut i: usize = 0;
            proof {
                assert(base + enc_actions(av.take(0)) =~= base);
            }
            while i < actions.len()
                invariant
                    i <= actions@.len(),
                    av == actions@.map_values(|a: EntityAction| action_view(a)),
                    out@ == base + enc_actions(av.take(i as int)),
                decreases actions@.len() - i,
            {
                match &actions[i] {
                    EntityAction::Spawn { entity } => {
                        crate::bytes::push_u8(&mut out, 0);
                        crate::bytes::push_u32(&mut out, *entity);
                    },
                    EntityAction::Despawn { entity } => {
                        crate::bytes::push_u8(&mut out, 1);
                        crate::bytes::push_u32(&mut out, *entity);
                    },
                    EntityAction::AddComponent { entity, comp } => {
                        crate::bytes::push_u8(&mut out, 2);
                        crate::bytes::push_u32(&mut out, *entity);
                        crate::bytes::push_u16(&mut out, *comp);
                    },
                    EntityAction::RemoveComponent { entity, comp } => {
                        crate::bytes::push_u8(&mut out, 3);
                        crate::bytes::push_u32(&mut out, *entity);
                        crate::bytes::push_u16(&mut out, *comp);
                    },
                }
                proof {
                    assert(av.take(i + 1) =~= av.take(i as int).push(av[i as int]));
                    lemma_enc_actions_push(av.take(i as int), av[i as int]);
                    assert(av[i as int] == action_view(actions@[i as int]));
                    assert(out@ =~= base + enc_actions(av.take(i + 1)));
                }
                i = i + 1;
            }
            proof {
                assert(av.take(av.len() as int) =~= av);
                assert(out@ =~= spec_encode(m@));
            }
        },
        Message::EntityUpdates { tick, updates } => {
            crate::bytes::push_u8(&mut out, 4);
            crate::bytes::push_u16(&mut out, *tick);
            crate::bytes::push_u16(&mut out, updates.len() as u16);
            let ghost base = out@;
            let ghost uv = updates@.map_values(|u: EntityUpdate| update_view(u));
            let mut i: usize = 0;
            proof {
                assert(base + enc_updates(uv.take(0)) =~= base);
            }
            while i < updates.len()
                invariant
                    i <= updates@.len(),
                    uv == updates@.map_values(|u: EntityUpdate| update_view(u)),
                    msg_wf(MessageView::EntityUpdates { tick: *tick, updates: uv }),
                    out@ == base + enc_updates(uv.take(i as int)),
                decreases updates@.len() - i,
            {
                let u = &updates[i];
                proof {
                    assert(uv[i as int] == update_view(updates@[i as int]));
                    assert(uv[i as int].1.len() <= 255);
                    assert forall|j: int| 0 <= j < u.comps@.len() implies (#[trigger] u.comps@[j]).data@.len()
                        <= 65535 by {
                        assert(uv[i as int].1[j] == comp_view(u.comps@[j]));
                        assert(uv[i as int].1[j].1.len() <= 65535);
                    }
                }
                crate::bytes::push_u32(&mut out, u.entity);
                crate::bytes::push_u8(&mut out, u.comps.len() as u8);
                encode_comps(&mut out, &u.comps);
                proof {
                    assert(uv.take(i + 1) =~= uv.take(i as int).push(uv[i as int]));
                    lemma_enc_updates_push(uv.take(i as int), uv[i as int]);
                    assert(out@ =~= base + enc_updates(uv.take(i + 1)));
                }
                i = i + 1;
            }
            proof {
                assert(uv.take(uv.len() as int) =~= uv);
                assert(out@ =~= spec_encode(m@));
            }
        },
        Message::Ack { ack, ack_bits } => {
            crate::bytes::push_u8(&mut out, 5);
            crate::bytes::push_u16(&mut out, *ack);
            crate::bytes::push_u32(&mut out, *ack_bits);
            proof {
                assert(out@ =~= spec_encode(m@));
            }
        },
        Message::Ping { nonce } => {
            crate::bytes::push_u8(&mut out, 6);
            crate::bytes::push_u32(&mut out, *nonce);
            proof {
                assert(out@ =~= spec_encode(m@));
            }
        },
        Message::Pong { nonce } => {
            crate::bytes::push_u8(&mut out, 7);
            crate::bytes::push_u32(&mut out, *nonce);
            proof {
                assert(out@ =~= spec_encode(m@));
            }
        },
        Message::SyncRequest { client_send_time } => {
            crate::bytes::push_u8(&mut out, 8);
            crate::bytes::push_u32(&mut out, *client_send_time);
            proof {
                assert(out@ =~= spec_encode(m@));
            }
        },
        Message::SyncResponse {
            client_send_time,
            server_tick,
            server_recv_time,
            server_send_time,
        } => {
            crate::bytes::push_u8(&mut out, 9);
            crate::bytes::push_u32(&mut out, *client_send_time);
            crate::bytes::push_u16(&mut out, *server_tick);
            crate::bytes::push_u32(&mut out, *server_recv_time);
            crate::bytes::push_u32(&mut out, *server_send_time);
            proof {
                assert(out@ =~= spec_encode(m@));
            }
        },
        Message::Disconnect => {
            crate::bytes::push_u8(&mut out, 10);
            proof {
                assert(out@ =~= spec_encode(m@));
            }
        },
    }
    out
}

fn parse_diffs(buf: &Vec<u8>, pos: usize, n: usize) -> (r: Option<(Vec<(u8, i16)>, usize)>)
    requires
        pos <= buf@.len(),
    ensures
        r matches Some(p) ==> {
            &&& pos <= p.1 <= buf@.len()
            &&& dec_diffs(buf@.skip(pos as int), n as nat) == Some(
                (p.0@, buf@.skip(p.1 as int)),
            )
        },
        r is None ==> dec_diffs(buf@.skip(pos as int), n as nat) is None,
{
    let blen: usize = buf.len();
    let mut acc: Vec<(u8, i16)> = Vec::new();
    let mut p: usize = pos;
    let mut i: usize = 0;
    proof {
        let s0 = buf@.skip(pos as int);
        match dec_diffs(s0, n as nat) {
            Some(t) => {
                assert(acc@ + t.0 =~= t.0);
            },
            None => {},
        }
    }
    while i < n
        invariant
            pos <= p <= blen,
            blen == buf@.len(),
            i <= n,
            ({
                let goal = dec_diffs(buf@.skip(pos as int), n as nat);
                let rem = dec_diffs(buf@.skip(p as int), (n - i) as nat);
                match rem {
                    Some(t) => goal == Some((acc@ + t.0, t.1)),
                    None => goal is None,
                }
            }),
        decreases n - i,
    {
        let ghost s = buf@.skip(p as int);
        if blen - p < 3 {
            proof {
                assert(s.len() < 3);
                assert(dec_diffs(s, (n - i) as nat) is None);
            }
            return None;
        }
        let a: u8 = buf[p];
        let v: u16 = crate::bytes::read_u16(buf, p + 1);
        let ghost s2 = buf@.skip(p + 3);
        proof {
            lemma_pow256_values();
            assert(s.take(1) =~= buf@.subrange(p as int, p + 1));
            assert(s.skip(1) =~= buf@.skip(p + 1));
            assert(s.skip(1).take(2) =~= buf@.subrange(p + 1, p + 3));
            assert(s.skip(1).skip(2) =~= s2);
            assert(le_val(s.take(1)) == a) by {
                assert(s.take(1) =~= seq![a]);
                assert(s.take(1).drop_first() =~= Seq::<u8>::empty());
                assert(le_val(Seq::<u8>::empty()) == 0);
            }
            lemma_le_val_range(buf@.subrange(p + 1, p + 3));
            let x = (a, #[verifier::truncate] (v as i16));
            assert(v as i16 as u16 == v) by (bit_vector);
            match dec_diffs(s2, (n - i - 1) as nat) {
                Some(t) => {
                    assert(dec_diffs(s, (n - i) as nat) == Some((seq![x] + t.0, t.1)));
                    assert(acc@ + (seq![x] + t.0) =~= acc@.push(x) + t.0);
                },
                None => {
                    assert(dec_diffs(s, (n - i) as nat) is None);
                },
            }
        }
        acc.push((a, #[verifier::truncate] (v as i16)));
        p = p + 3;
        i = i + 1;
    }
    proof {
        let sf = buf@.skip(p as int);
        assert(dec_diffs(sf, 0) == Some((Seq::<(u8, i16)>::empty(), sf)));
        assert(acc@ + Seq::<(u8, i16)>::empty() =~= acc@);
    }
    Some((acc, p))
}

fn parse_comps(buf: &Vec<u8>, pos: usize, n: usize) -> (r: Option<(Vec<CompValue>, usize)>)
    requires
        pos <= buf@.len(),
    ensures
        r matches Some(p) ==> {
            &&& pos <= p.1 <= buf@.len()
            &&& dec_comps(buf@.skip(pos as int), n as nat) == Some(
                (p.0@.map_values(|c: CompValue| comp_view(c)), buf@.skip(p.1 as int)),
            )
        },
        r is None ==> dec_comps(buf@.skip(pos as int), n as nat) is None,
{
    let blen: usize = buf.len();
    let mut acc: Vec<CompValue> = Vec::new();
    let mut p: usize = pos;
    let mut i: usize = 0;
    proof {
        let s0 = buf@.skip(pos as int);
        match dec_comps(s0, n as nat) {
            Some(t) => {
                assert(acc@.map_values(|c: CompValue| comp_view(c)) + t.0 =~= t.0);
            },
            None => {},
        }
    }
    while i < n
        invariant
            pos <= p <= blen,
            blen == buf@.len(),
            i <= n,
            ({
                let goal = dec_comps(buf@.skip(pos as int), n as nat);
                let rem = dec_comps(buf@.skip(p as int), (n - i) as nat);
                let accv = acc@.map_values(|c: CompValue| comp_view(c));
                match rem {
                    Some(t) => goal == Some((accv + t.0, t.1)),
                    None => goal is None,
                }
            }),
        decreases n - i,
    {
        let ghost s = buf@.skip(p as int);
        if blen - p < 4 {
            proof {
                if s.len() >= 2 {
                    assert(s.skip(2).len() < 2);
                }
                assert(dec_comps(s, (n - i) as nat) is None);
            }
            return None;
        }
        let cid: u16 = crate::bytes::read_u16(buf, p);
        let dlen: u16 = crate::bytes::read_u16(buf, p + 2);
        proof {
            assert(s.take(2) =~= buf@.subrange(p as int, p + 2));
            assert(s.skip(2) =~= buf@.skip(p + 2));
            lemma_pow256_values();
            lemma_le_val_range(buf@.subrange(p as int, p + 2));
            lemma_le_val_range(buf@.subrange(p + 2, p + 4));
            assert(s.skip(2).take(2) =~= buf@.subrange(p + 2, p + 4));
            assert(s.skip(2).skip(2) =~= buf@.skip(p + 4));
        }
        if blen - p - 4 < dlen as usize {
            proof {
                assert(buf@.skip(p + 4).len() < dlen);
                assert(dec_comps(s, (n - i) as nat) is None);
            }
            return None;
        }
        let data = crate::bytes::copy_range(buf, p + 4, p + 4 + dlen as usize);
        let c = CompValue { comp_id: cid, data };
        let ghost s2 = buf@.skip(p + 4 + dlen as int);
        proof {
            let sd = buf@.skip(p + 4);
            assert(sd.take(dlen as int) =~= buf@.subrange(p + 4, p + 4 + dlen as int));
            assert(sd.skip(dlen as int) =~= s2);
            assert(comp_view(c) == (cid, buf@.subrange(p + 4, p + 4 + dlen as int)));
            let accv = acc@.map_values(|cc: CompValue| comp_view(cc));
            match dec_comps(s2, (n - i - 1) as nat) {
                Some(t) => {
                    assert(dec_comps(s, (n - i) as nat) == Some(
                        (seq![comp_view(c)] + t.0, t.1),
                    ));
                    assert(accv + (seq![comp_view(c)] + t.0) =~= accv.push(comp_view(c)) + t.0);
                    assert(acc@.push(c).map_values(|cc: CompValue| comp_view(cc)) =~= accv.push(
                        comp_view(c),
                    ));
                },
                None => {
                    assert(dec_comps(s, (n - i) as nat) is None);
                },
            }
        }
        acc.push(c);
        p = p + 4 + dlen as usize;
        i = i + 1;
    }
    proof {
        let sf = buf@.skip(p as int);
        assert(dec_comps(sf, 0) == Some((Seq::<CompView>::empty(), sf)));
        assert(acc@.map_values(|c: CompValue| comp_view(c)) + Seq::<CompView>::empty()
            =~= acc@.map_values(|c: CompValue| comp_view(c)));
    }
    Some((acc, p))
}

fn parse_updates(buf: &Vec<u8>, pos: usize, n: usize) -> (r: Option<(Vec<EntityUpdate>, usize)>)
    requires
        pos <= buf@.len(),
    ensures
        r matches Some(p) ==> {
            &&& pos <= p.1 <= buf@.len()
            &&& dec_updates(buf@.skip(pos as int), n as nat) == Some(
                (p.0@.map_values(|u: EntityUpdate| update_view(u)), buf@.skip(p.1 as int)),
            )
        },
        r is None ==> dec_updates(buf@.skip(pos as int), n as nat) is None,
{
    let blen: usize = buf.len();
    let mut acc: Vec<EntityUpdate> = Vec::new();
    let mut p: usize = pos;
    let mut i: usize = 0;
    proof {
        let s0 = buf@.skip(pos as int);
        match dec_updates(s0, n as nat) {
            Some(t) => {
                assert(acc@.map_values(|u: EntityUpdate| update_view(u)) + t.0 =~= t.0);
            },
            None => {},
        }
    }
    while i < n
        invariant
            pos <= p <= blen,
            blen == buf@.len(),
            i <= n,
            ({
                let goal = dec_updates(buf@.skip(pos as int), n as nat);
                let rem = dec_updates(buf@.skip(p as int), (n - i) as nat);
                let accv = acc@.map_values(|u: EntityUpdate| update_view(u));
                match rem {
                    Some(t) => goal == Some((accv + t.0, t.1)),
                    None => goal is None,
                }
            }),
        decreases n - i,
    {
        let ghost s = buf@.skip(p as int);
        if blen - p < 5 {
            proof {
                if s.len() >= 4 {
                    assert(s.skip(4).len() < 1);
                }
                assert(dec_updates(s, (n - i) as nat) is None);
            }
            return None;
        }
        let entity: u32 = crate::bytes::read_u32(buf, p);
        let m: u8 = crate::bytes::read_u8(buf, p + 4);
        proof {
            assert(s.take(4) =~= buf@.subrange(p as int, p + 4));
            assert(s.skip(4) =~= buf@.skip(p + 4));
            lemma_pow256_values();
            lemma_le_val_range(buf@.subrange(p as int, p + 4));
            assert(s.skip(4).take(1) =~= buf@.subrange(p + 4, p + 5));
            assert(s.skip(4).skip(1) =~= buf@.skip(p + 5));
        }
        let sub = parse_comps(buf, p + 5, m as usize);
        match sub {
            Some(pair) => {
                let (comps, p2) = pair;
                let u = EntityUpdate { entity, comps };
                let ghost s2 = buf@.skip(p2 as int);
                proof {
                    assert(update_view(u) == (entity, u.comps@.map_values(
                        |c: CompValue| comp_view(c),
                    )));
                    let accv = acc@.map_values(|uu: EntityUpdate| update_view(uu));
                    match dec_updates(s2, (n - i - 1) as nat) {
                        Some(t) => {
                            assert(dec_updates(s, (n - i) as nat) == Some(
                                (seq![update_view(u)] + t.0, t.1),
                            ));
                            assert(accv + (seq![update_view(u)] + t.0) =~= accv.push(
                                update_view(u),
                            ) + t.0);
                            assert(acc@.push(u).map_values(|uu: EntityUpdate| update_view(uu))
                                =~= accv.push(update_view(u)));
                        },
                        None => {
                            assert(dec_updates(s, (n - i) as nat) is None);
                        },
                    }
                }
                acc.push(u);
                p = p2;
                i = i + 1;
            },
            None => {
                proof {
                    assert(dec_updates(s, (n - i) as nat) is None);
                }
                return None;
            },
        }
    }
    proof {
        let sf = buf@.skip(p as int);
        assert(dec_updates(sf, 0) == Some((Seq::<UpdateView>::empty(), sf)));
        assert(acc@.map_values(|u: EntityUpdate| update_view(u)) + Seq::<UpdateView>::empty()
            =~= acc@.map_values(|u: EntityUpdate| update_view(u)));
    }
    Some((acc, p))
}

#[verifier::rlimit(60)]
fn parse_actions(buf: &Vec<u8>, pos: usize, n: usize) -> (r: Option<(Vec<EntityAction>, usize)>)
    requires
        pos <= buf@.len(),
    ensures
        r matches Some(p) ==> {
            &&& pos <= p.1 <= buf@.len()
            &&& dec_actions(buf@.skip(pos as int), n as nat) == Some(
                (p.0@.map_values(|a: EntityAction| action_view(a)), buf@.skip(p.1 as int)),
            )
        },
        r is None ==> dec_actions(buf@.skip(pos as int), n as nat) is None,
{
    let blen: usize = buf.len();
    let mut acc: Vec<EntityAction> = Vec::new();
    let mut p: usize = pos;
    let mut i: usize = 0;
    proof {
        let s0 = buf@.skip(pos as int);
        match dec_actions(s0, n as nat) {
            Some(t) => {
                assert(acc@.map_values(|a: EntityAction| action_view(a)) + t.0 =~= t.0);
            },
            None => {},
        }
    }
    while i < n
        invariant
            pos <= p <= blen,
            blen == buf@.len(),
            i <= n,
            ({
                let goal = dec_actions(buf@.skip(pos as int), n as nat);
                let rem = dec_actions(buf@.skip(p as int), (n - i) as nat);
                let accv = acc@.map_values(|a: EntityAction| action_view(a));
                match rem {
                    Some(t) => goal == Some((accv + t.0, t.1)),
                    None => goal is None,
                }
            }),
        decreases n - i,
    {
        let ghost s = buf@.skip(p as int);
        if blen - p < 1 {
            proof {
                assert(dec_actions(s, (n - i) as nat) is None);
            }
            return None;
        }
        let k: u8 = crate::bytes::read_u8(buf, p);
        proof {
            assert(s.take(1) =~= buf@.subrange(p as int, p + 1));
            assert(s.skip(1) =~= buf@.skip(p + 1));
        }
        if k > 3 {
            proof {
                assert(dec_actions(s, (n - i) as nat) is None);
            }
            return None;
        }
        if blen - p < 5 {
            proof {
                assert(s.skip(1).len() < 4);
                assert(dec_actions(s, (n - i) as nat) is None);
            }
            return None;
        }
        let entity: u32 = crate::bytes::read_u32(buf, p + 1);
        proof {
            lemma_pow256_values();
            lemma_le_val_range(buf@.subrange(p + 1, p + 5));
            assert(s.skip(1).take(4) =~= buf@.subrange(p + 1, p + 5));
            assert(s.skip(1).skip(4) =~= buf@.skip(p + 5));
        }
        if k >= 2 {
            if blen - p < 7 {
                proof {
                    assert(buf@.skip(p + 5).len() < 2);
                    assert(dec_actions(s, (n - i) as nat) is None);
                }
                return None;
            }
            let comp: u16 = crate::bytes::read_u16(buf, p + 5);
            let a: EntityAction = if k == 2 {
                EntityAction::AddComponent { entity, comp }
            } else {
                EntityAction::RemoveComponent { entity, comp }
            };
            let ghost s2 = buf@.skip(p + 7);
            proof {
                lemma_le_val_range(buf@.subrange(p + 5, p + 7));
                assert(buf@.skip(p + 5).take(2) =~= buf@.subrange(p + 5, p + 7));
                assert(buf@.skip(p + 5).skip(2) =~= s2);
                assert(action_view(a) == (k, entity, comp));
                let accv = acc@.map_values(|aa: EntityAction| action_view(aa));
                match dec_actions(s2, (n - i - 1) as nat) {
                    Some(t) => {
                        assert(dec_actions(s, (n - i) as nat) == Some(
                            (seq![action_view(a)] + t.0, t.1),
                        ));
                        assert(accv + (seq![action_view(a)] + t.0) =~= accv.push(action_view(a))
                            + t.0);
                        assert(acc@.push(a).map_values(|aa: EntityAction| action_view(aa))
                            =~= accv.push(action_view(a)));
                    },
                    None => {
                        assert(dec_actions(s, (n - i) as nat) is None);
                    },
                }
            }
            acc.push(a);
            p = p + 7;
        } else {
            let a: EntityAction = if k == 0 {
                EntityAction::Spawn { entity }
            } else {
                EntityAction::Despawn { entity }
            };
            let ghost s2 = buf@.skip(p + 5);
            proof {
                assert(action_view(a) == (k, entity, 0u16));
                let accv = acc@.map_values(|aa: EntityAction| action_view(aa));
                match dec_actions(s2, (n - i - 1) as nat) {
                    Some(t) => {
                        assert(dec_actions(s, (n - i) as nat) == Some(
                            (seq![action_view(a)] + t.0, t.1),
                        ));
                        assert(accv + (seq![action_view(a)] + t.0) =~= accv.push(action_view(a))
                            + t.0);
                        assert(acc@.push(a).map_values(|aa: EntityAction| action_view(aa))
                            =~= accv.push(action_view(a)));
                    },
                    None => {
                        assert(dec_actions(s, (n - i) as nat) is None);
                    },
                }
            }
            acc.push(a);
            p = p + 5;
        }
        i = i + 1;
    }
    proof {
        let sf = buf@.skip(p as int);
        assert(dec_actions(sf, 0) == Some((Seq::<ActionView>::empty(), sf)));
        assert(acc@.map_values(|a: EntityAction| action_view(a)) + Seq::<ActionView>::empty()
            =~= acc@.map_values(|a: EntityAction| action_view(a)));
    }
    Some((acc, p))
}

/// Deserialize one message from exactly the whole buffer. Returns the
/// message the byte-level parser defines, and nothing on any byte
/// string that is not exactly one well-formed message.
#[verifier::rlimit(100)]
pub fn decode_message(buf: &Vec<u8>) -> (r: Option<Message>)
    ensures
        r matches Some(m) ==> spec_decode(buf@) == Some(m@),
        r is None ==> spec_decode(buf@) is None,
{
    let blen: usize = buf.len();
    if blen < 1 {
        return None;
    }
    let tag: u8 = crate::bytes::read_u8(buf, 0);
    let ghost s1 = buf@.skip(1);
    proof {
        lemma_pow256_values();
        assert(buf@.take(1) =~= buf@.subrange(0, 1));
        assert(buf@.skip(1) =~= s1);
        assert(s1.len() == blen - 1);
    }
    if tag == 0 {
        if blen != 17 {
            proof {
                if s1.len() >= 8 {
                    assert(s1.skip(8).len() == blen - 9);
                    if s1.skip(8).len() >= 8 {
                        assert(s1.skip(8).skip(8).len() == blen - 17);
                    }
                }
            }
            return None;
        }
        let pid: u64 = crate::bytes::read_u64(buf, 1);
        let key: u64 = crate::bytes::read_u64(buf, 9);
        proof {
            assert(s1.take(8) =~= buf@.subrange(1, 9));
            assert(s1.skip(8) =~= buf@.skip(9));
            assert(buf@.skip(9).take(8) =~= buf@.subrange(9, 17));
            assert(buf@.skip(9).skip(8).len() == 0);
            lemma_le_val_range(buf@.subrange(1, 9));
            lemma_le_val_range(buf@.subrange(9, 17));
        }
        return Some(Message::Handshake { protocol_id: pid, session_key: key });
    }
    if tag == 1 {
        if blen != 9 {
            proof {
                if s1.len() >= 8 {
                    assert(s1.skip(8).len() == blen - 9);
                }
            }
            return None;
        }
        let cid: u64 = crate::bytes::read_u64(buf, 1);
        proof {
            assert(s1.take(8) =~= buf@.subrange(1, 9));
            assert(s1.skip(8).len() == 0);
            lemma_le_val_range(buf@.subrange(1, 9));
        }
        return Some(Message::HandshakeAck { client_id: cid });
    }
    if tag == 2 {
        if blen < 4 {
            proof {
                if s1.len() >= 2 {
                    assert(s1.skip(2).len() == blen - 3);
                }
            }
            return None;
        }
        let t: u16 = crate::bytes::read_u16(buf, 1);
        let nd: u8 = crate::bytes::read_u8(buf, 3);
        proof {
            assert(s1.take(2) =~= buf@.subrange(1, 3));
            assert(s1.skip(2) =~= buf@.skip(3));
            assert(buf@.skip(3).take(1) =~= buf@.subrange(3, 4));
            assert(buf@.skip(3).skip(1) =~= buf@.skip(4));
            lemma_le_val_range(buf@.subrange(1, 3));
            lemma_le_val_range(buf@.subrange(3, 4));
        }
        match parse_diffs(buf, 4, nd as usize) {
            Some(pair) => {
                let (diffs, p2) = pair;
                if p2 != blen {
                    proof {
                        assert(buf@.skip(p2 as int).len() > 0);
                    }
                    return None;
                }
                proof {
                    assert(buf@.skip(p2 as int).len() == 0);
                }
                return Some(Message::Input { target_tick: t, diffs });
            },
            None => {
                return None;
            },
        }
    }
    if tag == 3 {
        if blen < 5 {
            proof {
                if s1.len() >= 2 {
                    assert(s1.skip(2).len() == blen - 3);
                }
            }
            return None;
        }
        let t: u16 = crate::bytes::read_u16(buf, 1);
        let na: u16 = crate::bytes::read_u16(buf, 3);
        proof {
            assert(s1.take(2) =~= buf@.subrange(1, 3));
            assert(s1.skip(2) =~= buf@.skip(3));
            assert(buf@.skip(3).take(2) =~= buf@.subrange(3, 5));
            assert(buf@.skip(3).skip(2) =~= buf@.skip(5));
            lemma_le_val_range(buf@.subrange(1, 3));
            lemma_le_val_range(buf@.subrange(3, 5));
        }
        match parse_actions(buf, 5, na as usize) {
            Some(pair) => {
                let (actions, p2) = pair;
                if p2 != blen {
                    proof {
                        assert(buf@.skip(p2 as int).len() > 0);
                    }
                    return None;
                }
                proof {
                    assert(buf@.skip(p2 as int).len() == 0);
                }
                return Some(Message::EntityActions { tick: t, actions });
            },
            None => {
                return None;
            },
        }
    }
    if tag == 4 {
        if blen < 5 {
            proof {
                if s1.len() >= 2 {
                    assert(s1.skip(2).len() == blen - 3);
                }
            }
            return None;
        }
        let t: u16 = crate::bytes::read_u16(buf, 1);
        let nu: u16 = crate::bytes::read_u16(buf, 3);
        proof {
            assert(s1.take(2) =~= buf@.subrange(1, 3));
            assert(s1.skip(2) =~= buf@.skip(3));
            assert(buf@.skip(3).take(2) =~= buf@.subrange(3, 5));
            assert(buf@.skip(3).skip(2) =~= buf@.skip(5));
            lemma_le_val_range(buf@.subrange(1, 3));
            lemma_le_val_range(buf@.subrange(3, 5));
        }
        match parse_updates(buf, 5, nu as usize) {
            Some(pair) => {
                let (updates, p2) = pair;
                if p2 != blen {
                    proof {
                        assert(buf@.skip(p2 as int).len() > 0);
                    }
                    return None;
                }
                proof {
                    assert(buf@.skip(p2 as int).len() == 0);
                }
                return Some(Message::EntityUpdates { tick: t, updates });
            },
            None => {
                return None;
            },
        }
    }
    if tag == 5 {
        if blen != 7 {
            proof {
                if s1.len() >= 2 {
                    assert(s1.skip(2).len() == blen - 3);
                    if s1.skip(2).len() >= 4 {
                        assert(s1.skip(2).skip(4).len() == blen - 7);
                    }
                }
            }
            return None;
        }
        let a: u16 = crate::bytes::read_u16(buf, 1);
        let b: u32 = crate::bytes::read_u32(buf, 3);
        proof {
            assert(s1.take(2) =~= buf@.subrange(1, 3));
            assert(s1.skip(2) =~= buf@.skip(3));
            assert(buf@.skip(3).take(4) =~= buf@.subrange(3, 7));
            assert(buf@.skip(3).skip(4).len() == 0);
            lemma_le_val_range(buf@.subrange(1, 3));
            lemma_le_val_range(buf@.subrange(3, 7));
        }
        return Some(Message::Ack { ack: a, ack_bits: b });
    }
    if tag == 6 || tag == 7 || tag == 8 {
        if blen != 5 {
            proof {
                if s1.len() >= 4 {
                    assert(s1.skip(4).len() == blen - 5);
                }
            }
            return None;
        }
        let x: u32 = crate::bytes::read_u32(buf, 1);
        proof {
            assert(s1.take(4) =~= buf@.subrange(1, 5));
            assert(s1.skip(4).len() == 0);
            lemma_le_val_range(buf@.subrange(1, 5));
        }
        if tag == 6 {
            return Some(Message::Ping { nonce: x });
        }
        if tag == 7 {
            return Some(Message::Pong { nonce: x });
        }
        return Some(Message::SyncRequest { client_send_time: x });
    }
    if tag == 9 {
        if blen != 15 {
            proof {
                if s1.len() >= 4 {
                    assert(s1.skip(4).len() == blen - 5);
                    if s1.skip(4).len() >= 2 {
                        assert(s1.skip(4).skip(2).len() == blen - 7);
                        if s1.skip(4).skip(2).len() >= 4 {
                            assert(s1.skip(4).skip(2).skip(4).len() == blen - 11);
                            if s1.skip(4).skip(2).skip(4).len() >= 4 {
                                assert(s1.skip(4).skip(2).skip(4).skip(4).len() == blen - 15);
                            }
                        }
                    }
                }
            }
            return None;
        }
        let cst: u32 = crate::bytes::read_u32(buf, 1);
        let st: u16 = crate::bytes::read_u16(buf, 5);
        let srt: u32 = crate::bytes::read_u32(buf, 7);
        let sst: u32 = crate::bytes::read_u32(buf, 11);
        proof {
            assert(s1.take(4) =~= buf@.subrange(1, 5));
            assert(s1.skip(4) =~= buf@.skip(5));
            assert(buf@.skip(5).take(2) =~= buf@.subrange(5, 7));
            assert(buf@.skip(5).skip(2) =~= buf@.skip(7));
            assert(buf@.skip(7).take(4) =~= buf@.subrange(7, 11));
            assert(buf@.skip(7).skip(4) =~= buf@.skip(11));
            assert(buf@.skip(11).take(4) =~= buf@.subrange(11, 15));
            assert(buf@.skip(11).skip(4).len() == 0);
            lemma_le_val_range(buf@.subrange(1, 5));
            lemma_le_val_range(buf@.subrange(5, 7));
            lemma_le_val_range(buf@.subrange(7, 11));
            lemma_le_val_range(buf@.subrange(11, 15));
        }
        return Some(
            Message::SyncResponse {
                client_send_time: cst,
                server_tick: st,
                server_recv_time: srt,
                server_send_time: sst,
            },
        );
    }
    if tag == 10 {
        if blen != 1 {
            return None;
        }
        return Some(Message::Disconnect);
    }
    None
}

} // verus!
