//! Datagram-level framing: the packet header (protocol id, wrapping
//! packet sequence, piggybacked acknowledgement) and the channel
//! frames concatenated behind it.
use vstd::prelude::*;
use crate::bytes::le_bytes;
use crate::bytes::le_val;
use crate::bytes::lemma_le_bytes_len;
use crate::bytes::lemma_le_round;
use crate::bytes::lemma_le_val_range;
use crate::bytes::lemma_pow256_values;

verus! {

/// Leading bytes of every datagram.
#[derive(Clone, Copy, Debug, PartialEq, Eq, Structural)]
pub struct PacketHeader {
    /// Must match on both ends; a mismatch drops the datagram.
    pub protocol_id: u64,
    /// Per-connection wrapping sequence number of this packet.
    pub seq: u16,
    /// Highest peer sequence seen.
    pub ack: u16,
    /// Receipt bits for the 32 sequences before `ack`.
    pub ack_bits: u32,
}

/// Why a datagram was rejected.
#[derive(Clone, Copy, Debug, PartialEq, Eq, Structural)]
pub enum PacketError {
    /// Shorter than a packet header.
    TooShort,
    /// The protocol id does not match ours.
    ChecksumMismatch,
    /// The frame section is not a valid concatenation of frames.
    Malformed,
}

/// Number of bytes of the packet header on the wire.
pub const HEADER_BYTES: usize = 16;

pub open spec fn enc_header(h: PacketHeader) -> Seq<u8> {
    le_bytes(h.protocol_id as int, 8) + le_bytes(h.seq as int, 2) + le_bytes(h.ack as int, 2)
        + le_bytes(h.ack_bits as int, 4)
}

/// One channel frame: `(channel id, payload)`.
pub type FrameView = (u8, Seq<u8>);

pub open spec fn enc_frame(f: FrameView) -> Seq<u8> {
    le_bytes(f.0 as int, 1) + le_bytes(f.1.len() as int, 2) + f.1
}

pub open spec fn enc_frames(l: Seq<FrameView>) -> Seq<u8>
    decreases l.len(),
{
    if l.len() == 0 {
        Seq::empty()
    } else {
        enc_frame(l[0]) + enc_frames(l.drop_first())
    }
}

/// Split a byte string into its channel frames; nothing may be left
/// over.
pub open spec fn dec_frames(s: Seq<u8>) -> Option<Seq<FrameView>>
    decreases s.len(),
{
    if s.len() == 0 {
        Some(Seq::empty())
    } else if s.len() < 3 {
        None
    } else {
        let ch = s[0];
        let flen = le_val(s.subrange(1, 3));
        if 0 <= flen && s.len() - 3 >= flen {
            match dec_frames(s.skip(3 + flen)) {
                Some(t) => Some(seq![(ch, s.subrange(3, 3 + flen))] + t),
                None => None,
            }
        } else {
            None
        }
    }
}

proof fn lemma_enc_frames_push(l: Seq<FrameView>, x: FrameView)
    ensures
        enc_frames(l.push(x)) == enc_frames(l) + enc_frame(x),
    decreases l.len(),
{
    let p = l.push(x);
    if l.len() == 0 {
        assert(p.drop_first() =~= Seq::<FrameView>::empty());
        assert(enc_frames(p.drop_first()) == Seq::<u8>::empty());
        assert(enc_frames(p) == enc_frame(p[0]) + enc_frames(p.drop_first()));
        assert(enc_frame(x) + Seq::<u8>::empty() =~= enc_frame(x));
        assert(enc_frames(l) + enc_frame(x) =~= enc_frame(x));
    } else {
        assert(p.drop_first() =~= l.drop_first().push(x));
        lemma_enc_frames_push(l.drop_first(), x);
        assert(enc_frames(p) == enc_frame(l[0]) + (enc_frames(l.drop_first()) + enc_frame(x)));
        assert(enc_frame(l[0]) + (enc_frames(l.drop_first()) + enc_frame(x)) =~= (enc_frame(l[0])
            + enc_frames(l.drop_first())) + enc_frame(x));
    }
}

/// Splitting the concatenation of well-formed frames yields those
/// frames back.
pub proof fn lemma_frames_round_trip(l: Seq<FrameView>)
    requires
        forall|i: int| 0 <= i < l.len() ==> (#[trigger] l[i]).1.len() <= 65535,
    ensures
        dec_frames(enc_frames(l)) == Some(l),
    decreases l.len(),
{
    lemma_pow256_values();
    if l.len() == 0 {
    } else {
        let f = l[0];
        let tail = l.drop_first();
        lemma_frames_round_trip(tail);
        let e = enc_frames(l);
        let flen = f.1.len() as int;
        lemma_le_bytes_len(f.0 as int, 1);
        lemma_le_bytes_len(flen, 2);
        lemma_le_bytes_len(f.1.len() as int, 2);
        assert(e =~= le_bytes(f.0 as int, 1) + (le_bytes(flen, 2) + (f.1 + enc_frames(tail))));
        assert(e.len() == 3 + flen + enc_frames(tail).len());
        assert(e.subrange(0, 1) =~= le_bytes(f.0 as int, 1));
        assert(e.subrange(1, 3) =~= le_bytes(flen, 2));
        assert(e.subrange(3, 3 + flen) =~= f.1);
        assert(e.skip(3 + flen) =~= enc_frames(tail));
        lemma_le_round(f.0 as int, 1);
        lemma_le_round(flen, 2);
        assert(e[0] == le_bytes(f.0 as int, 1)[0]);
        assert(le_val(seq![e[0]]) == e[0]) by {
            assert(seq![e[0]].drop_first() =~= Seq::<u8>::empty());
            assert(le_val(Seq::<u8>::empty()) == 0);
        }
        assert(le_val(le_bytes(f.0 as int, 1)) == f.0) by {
            lemma_le_round(f.0 as int, 1);
        }
        assert(e[0] == f.0) by {
            assert(le_bytes(f.0 as int, 1) =~= seq![(f.0 as int % 256) as u8]);
            assert(f.0 as int % 256 == f.0 as int);
        }
        assert(seq![(f.0, e.subrange(3, 3 + flen))] + dec_frames(e.skip(3 + flen)).unwrap() =~= l);
    }
}

/// Serialize a packet header.
pub fn encode_header(h: &PacketHeader) -> (out: Vec<u8>)
    ensures
        out@ == enc_header(*h),
        out@.len() == HEADER_BYTES,
{
    let mut out: Vec<u8> = Vec::new();
    crate::bytes::push_u64(&mut out, h.protocol_id);
    crate::bytes::push_u16(&mut out, h.seq);
    crate::bytes::push_u16(&mut out, h.ack);
    crate::bytes::push_u32(&mut out, h.ack_bits);
    proof {
        assert(out@ =~= enc_header(*h));
        lemma_le_bytes_len(h.protocol_id as int, 8);
        lemma_le_bytes_len(h.seq as int, 2);
        lemma_le_bytes_len(h.ack as int, 2);
        lemma_le_bytes_len(h.ack_bits as int, 4);
    }
    out
}

/// Parse and validate the header of an arriving datagram. Rejects a
/// datagram shorter than a header, and one whose protocol id is not
/// `expected_protocol`.
pub fn decode_header(buf: &Vec<u8>, expected_protocol: u64) -> (r: Result<PacketHeader, PacketError>)
    ensures
        r matches Ok(h) ==> {
            &&& buf@.len() >= HEADER_BYTES
            &&& h.protocol_id == expected_protocol
            &&& buf@.take(HEADER_BYTES as int) == enc_header(h)
        },
        r matches Err(e) ==> (e is TooShort <==> buf@.len() < HEADER_BYTES),
        r matches Err(e) ==> (e is TooShort || e is ChecksumMismatch),
        buf@.len() >= HEADER_BYTES && le_val(buf@.take(8)) == expected_protocol ==> r is Ok,
{
    if buf.len() < HEADER_BYTES {
        return Err(PacketError::TooShort);
    }
    let pid: u64 = crate::bytes::read_u64(buf, 0);
    proof {
        lemma_pow256_values();
        assert(buf@.subrange(0, 8) =~= buf@.take(8));
        lemma_le_val_range(buf@.take(8));
    }
    if pid != expected_protocol {
        return Err(PacketError::ChecksumMismatch);
    }
    let seq: u16 = crate::bytes::read_u16(buf, 8);
    let ack: u16 = crate::bytes::read_u16(buf, 10);
    let ack_bits: u32 = crate::bytes::read_u32(buf, 12);
    let h = PacketHeader { protocol_id: pid, seq, ack, ack_bits };
    proof {
        lemma_le_val_range(buf@.subrange(8, 10));
        lemma_le_val_range(buf@.subrange(10, 12));
        lemma_le_val_range(buf@.subrange(12, 16));
        lemma_le_bytes_len(pid as int, 8);
        lemma_le_bytes_len(seq as int, 2);
        lemma_le_bytes_len(ack as int, 2);
        lemma_le_bytes_len(ack_bits as int, 4);
        assert(le_val(le_bytes(pid as int, 8)) == pid) by {
            lemma_le_round(pid as int, 8);
        }
        assert(buf@.take(16) =~= enc_header(h)) by {
            lemma_bytes_of_val(buf@.subrange(0, 8), 8);
            lemma_bytes_of_val(buf@.subrange(8, 10), 2);
            lemma_bytes_of_val(buf@.subrange(10, 12), 2);
            lemma_bytes_of_val(buf@.subrange(12, 16), 4);
        }
    }
    Ok(h)
}

/// A byte string is the little-endian encoding of its own value.
pub proof fn lemma_bytes_of_val(s: Seq<u8>, n: nat)
    requires
        s.len() == n,
    ensures
        le_bytes(le_val(s), n) == s,
    decreases n,
{
    if n > 0 {
        lemma_le_val_range(s.drop_first());
        let v = le_val(s);
        assert(v == s[0] + 256 * le_val(s.drop_first()));
        assert(v % 256 == s[0] && v / 256 == le_val(s.drop_first())) by (nonlinear_arith)
            requires
                v == s[0] + 256 * le_val(s.drop_first()),
                0 <= s[0] < 256,
                0 <= le_val(s.drop_first()),
        ;
        lemma_bytes_of_val(s.drop_first(), (n - 1) as nat);
        assert(le_bytes(v, n) =~= s);
    }
}

/// Append one channel frame to a packet body.
pub fn append_frame(out: &mut Vec<u8>, channel_id: u8, payload: &Vec<u8>)
    requires
        payload@.len() <= 65535,
    ensures
        final(out)@ == old(out)@ + enc_frame((channel_id, payload@)),
{
    proof {
        lemma_pow256_values();
    }
    crate::bytes::push_u8(out, channel_id);
    crate::bytes::push_u16(out, payload.len() as u16);
    crate::bytes::push_bytes(out, payload);
    proof {
        assert(out@ =~= old(out)@ + enc_frame((channel_id, payload@)));
    }
}

/// Split a packet body into its channel frames. Fails on any byte
/// string that is not an exact concatenation of frames.
pub fn parse_frames(buf: &Vec<u8>, pos: usize) -> (r: Option<Vec<(u8, Vec<u8>)>>)
    requires
        pos <= buf@.len(),
    ensures
        r matches Some(fs) ==> dec_frames(buf@.skip(pos as int)) == Some(
            fs@.map_values(|f: (u8, Vec<u8>)| (f.0, f.1@)),
        ),
        r is None ==> dec_frames(buf@.skip(pos as int)) is None,
{
    let blen: usize = buf.len();
    let mut acc: Vec<(u8, Vec<u8>)> = Vec::new();
    let mut p: usize = pos;
    proof {
        let s0 = buf@.skip(pos as int);
        match dec_frames(s0) {
            Some(t) => {
                assert(acc@.map_values(|f: (u8, Vec<u8>)| (f.0, f.1@)) + t =~= t);
            },
            None => {},
        }
    }
    while p < blen
        invariant
            pos <= p <= blen,
            blen == buf@.len(),
            ({
                let goal = dec_frames(buf@.skip(pos as int));
                let rem = dec_frames(buf@.skip(p as int));
                let accv = acc@.map_values(|f: (u8, Vec<u8>)| (f.0, f.1@));
                match rem {
                    Some(t) => goal == Some(accv + t),
                    None => goal is None,
                }
            }),
        decreases blen - p,
    {
        let ghost s = buf@.skip(p as int);
        if blen - p < 3 {
            proof {
                assert(dec_frames(s) is None);
            }
            return None;
        }
        let ch: u8 = crate::bytes::read_u8(buf, p);
        let flen: u16 = crate::bytes::read_u16(buf, p + 1);
        proof {
            lemma_pow256_values();
            assert(s[0] == buf@[p as int]);
            assert(buf@.subrange(p as int, p + 1) =~= seq![s[0]]);
            assert(le_val(seq![s[0]]) == s[0]) by {
                assert(seq![s[0]].drop_first() =~= Seq::<u8>::empty());
                assert(le_val(Seq::<u8>::empty()) == 0);
            }
            assert(s.subrange(1, 3) =~= buf@.subrange(p + 1, p + 3));
            lemma_le_val_range(buf@.subrange(p + 1, p + 3));
        }
        if blen - p - 3 < flen as usize {
            proof {
                assert(dec_frames(s) is None);
            }
            return None;
        }
        let payload = crate::bytes::copy_range(buf, p + 3, p + 3 + flen as usize);
        let ghost s2 = buf@.skip(p + 3 + flen as int);
        proof {
            assert(s.subrange(3, 3 + flen as int) =~= buf@.subrange(p + 3, p + 3 + flen as int));
            assert(s.skip(3 + flen as int) =~= s2);
            let x: FrameView = (ch, payload@);
            let accv = acc@.map_values(|f: (u8, Vec<u8>)| (f.0, f.1@));
            match dec_frames(s2) {
                Some(t) => {
                    assert(dec_frames(s) == Some(seq![x] + t));
                    assert(accv + (seq![x] + t) =~= accv.push(x) + t);
                    assert(acc@.push((ch, payload)).map_values(|f: (u8, Vec<u8>)| (f.0, f.1@))
                        =~= accv.push(x));
                },
                None => {
                    assert(dec_frames(s) is None);
                },
            }
        }
        acc.push((ch, payload));
        p = p + 3 + flen as usize;
    }
    proof {
        let sf = buf@.skip(p as int);
        assert(sf.len() == 0);
        assert(sf =~= Seq::<u8>::empty());
        assert(dec_frames(sf) == Some(Seq::<FrameView>::empty()));
        assert(acc@.map_values(|f: (u8, Vec<u8>)| (f.0, f.1@)) + Seq::<FrameView>::empty()
            =~= acc@.map_values(|f: (u8, Vec<u8>)| (f.0, f.1@)));
    }
    Some(acc)
}

/// Header of a frame on a reliable channel: the message id and the
/// fragment coordinates of the bytes that follow.
#[derive(Clone, Copy, Debug, PartialEq, Eq, Structural)]
pub struct ReliableFrameHeader {
    /// Per-channel wrapping message id.
    pub message_id: u16,
    /// Which fragment of the message this is.
    pub fragment_idx: u8,
    /// How many fragments the message was split into.
    pub fragment_count: u8,
}

/// Bytes of a reliable frame body header on the wire.
pub const RELIABLE_HEADER_BYTES: usize = 4;

pub open spec fn enc_reliable_header(h: ReliableFrameHeader) -> Seq<u8> {
    le_bytes(h.message_id as int, 2) + le_bytes(h.fragment_idx as int, 1) + le_bytes(
        h.fragment_count as int,
        1,
    )
}

/// Serialize a reliable frame body: its header, then the fragment
/// bytes.
pub fn encode_reliable_body(h: &ReliableFrameHeader, data: &Vec<u8>) -> (out: Vec<u8>)
    ensures
        out@ == enc_reliable_header(*h) + data@,
{
    proof {
        lemma_pow256_values();
    }
    let mut out: Vec<u8> = Vec::new();
    crate::bytes::push_u16(&mut out, h.message_id);
    crate::bytes::push_u8(&mut out, h.fragment_idx);
    crate::bytes::push_u8(&mut out, h.fragment_count);
    crate::bytes::push_bytes(&mut out, data);
    proof {
        assert(out@ =~= enc_reliable_header(*h) + data@);
    }
    out
}

/// The message id of a reliable frame body.
pub open spec fn rf_id(s: Seq<u8>) -> u16 {
    le_val(s.subrange(0, 2)) as u16
}

/// The fragment index of a reliable frame body.
pub open spec fn rf_idx(s: Seq<u8>) -> u8 {
    s[2]
}

/// The fragment count of a reliable frame body.
pub open spec fn rf_count(s: Seq<u8>) -> u8 {
    s[3]
}

/// The fragment bytes of a reliable frame body.
pub open spec fn rf_data(s: Seq<u8>) -> Seq<u8> {
    s.skip(4)
}

/// Parse a reliable frame body back into its header and fragment
/// bytes. Exactly the bodies the encoder produces parse, to the same
/// values, and the fields are the body's own bytes.
pub fn decode_reliable_body(buf: &Vec<u8>) -> (r: Option<(ReliableFrameHeader, Vec<u8>)>)
    ensures
        r matches Some(p) ==> buf@ == enc_reliable_header(p.0) + p.1@,
        r matches Some(p) ==> {
            &&& p.0.message_id == rf_id(buf@)
            &&& p.0.fragment_idx == rf_idx(buf@)
            &&& p.0.fragment_count == rf_count(buf@)
            &&& p.1@ == rf_data(buf@)
        },
        r is Some <==> buf@.len() >= RELIABLE_HEADER_BYTES,
{
    if buf.len() < RELIABLE_HEADER_BYTES {
        return None;
    }
    let message_id: u16 = crate::bytes::read_u16(buf, 0);
    let fragment_idx: u8 = crate::bytes::read_u8(buf, 2);
    let fragment_count: u8 = crate::bytes::read_u8(buf, 3);
    let data = crate::bytes::copy_range(buf, 4, buf.len());
    let h = ReliableFrameHeader { message_id, fragment_idx, fragment_count };
    proof {
        lemma_pow256_values();
        lemma_le_val_range(buf@.subrange(0, 2));
        lemma_le_bytes_len(message_id as int, 2);
        lemma_le_bytes_len(fragment_idx as int, 1);
        lemma_le_bytes_len(fragment_count as int, 1);
        lemma_bytes_of_val(buf@.subrange(0, 2), 2);
        lemma_bytes_of_val(buf@.subrange(2, 3), 1);
        lemma_bytes_of_val(buf@.subrange(3, 4), 1);
        assert(buf@ =~= enc_reliable_header(h) + buf@.subrange(4, buf@.len() as int));
    }
    Some((h, data))
}

/// Assemble a whole datagram: the header, then the channel frames in
/// the order given.
pub fn build_packet(h: &PacketHeader, frames: &Vec<(u8, Vec<u8>)>) -> (out: Vec<u8>)
    requires
        forall|i: int| 0 <= i < frames@.len() ==> (#[trigger] frames@[i]).1@.len() <= 65535,
    ensures
        out@ == enc_header(*h) + enc_frames(
            frames@.map_values(|f: (u8, Vec<u8>)| (f.0, f.1@)),
        ),
{
    let ghost fv = frames@.map_values(|f: (u8, Vec<u8>)| (f.0, f.1@));
    let mut out = encode_header(h);
    let mut i: usize = 0;
    proof {
        assert(out@ + enc_frames(fv.take(0)) =~= out@);
    }
    while i < frames.len()
        invariant
            i <= frames@.len(),
            fv == frames@.map_values(|f: (u8, Vec<u8>)| (f.0, f.1@)),
            forall|j: int| 0 <= j < frames@.len() ==> (#[trigger] frames@[j]).1@.len() <= 65535,
            out@ == enc_header(*h) + enc_frames(fv.take(i as int)),
        decreases frames@.len() - i,
    {
        let f = &frames[i];
        append_frame(&mut out, f.0, &f.1);
        proof {
            assert(fv.take(i + 1) =~= fv.take(i as int).push(fv[i as int]));
            lemma_enc_frames_push(fv.take(i as int), fv[i as int]);
            assert(fv[i as int] == (frames@[i as int].0, frames@[i as int].1@));
            assert(out@ =~= enc_header(*h) + enc_frames(fv.take(i + 1)));
        }
        i = i + 1;
    }
    proof {
        assert(fv.take(fv.len() as int) =~= fv);
    }
    out
}

/// Parse a whole arriving datagram: validate the header, then split
/// the body into channel frames. Rejects short datagrams, a foreign
/// protocol id, and a body that is not an exact run of frames.
pub fn parse_packet(buf: &Vec<u8>, expected_protocol: u64) -> (r: Result<
    (PacketHeader, Vec<(u8, Vec<u8>)>),
    PacketError,
>)
    ensures
        r matches Ok(p) ==> {
            &&& buf@.len() >= HEADER_BYTES
            &&& p.0.protocol_id == expected_protocol
            &&& buf@.take(HEADER_BYTES as int) == enc_header(p.0)
            &&& dec_frames(buf@.skip(HEADER_BYTES as int)) == Some(
                p.1@.map_values(|f: (u8, Vec<u8>)| (f.0, f.1@)),
            )
        },
        r matches Err(e) ==> (e is TooShort <==> buf@.len() < HEADER_BYTES),
        r matches Err(e) ==> (e is Malformed ==> dec_frames(
            buf@.skip(HEADER_BYTES as int),
        ) is None),
        buf@.len() >= HEADER_BYTES && le_val(buf@.take(8)) == expected_protocol && dec_frames(
            buf@.skip(HEADER_BYTES as int),
        ) is Some ==> r is Ok,
{
    let h = match decode_header(buf, expected_protocol) {
        Ok(h) => h,
        Err(e) => {
            return Err(e);
        },
    };
    match parse_frames(buf, HEADER_BYTES) {
        Some(frames) => Ok((h, frames)),
        None => Err(PacketError::Malformed),
    }
}

/// Bytes a run of frames occupies on the wire: each payload plus its
/// 3-byte frame header.
pub open spec fn frames_size(l: Seq<FrameView>) -> int
    decreases l.len(),
{
    if l.len() == 0 {
        0
    } else {
        3 + l[0].1.len() + frames_size(l.drop_first())
    }
}

pub proof fn lemma_enc_frames_len(l: Seq<FrameView>)
    ensures
        enc_frames(l).len() == frames_size(l),
    decreases l.len(),
{
    if l.len() > 0 {
        lemma_le_bytes_len(l[0].0 as int, 1);
        lemma_le_bytes_len(l[0].1.len() as int, 2);
        lemma_enc_frames_len(l.drop_first());
    }
}

/// A datagram assembled from a header and frames starts with the
/// protocol id and splits back into exactly those frames.
pub proof fn lemma_packet_shape(out: Seq<u8>, h: PacketHeader, fv: Seq<FrameView>)
    requires
        out == enc_header(h) + enc_frames(fv),
        forall|i: int| 0 <= i < fv.len() ==> (#[trigger] fv[i]).1.len() <= 65535,
    ensures
        out.len() == HEADER_BYTES + frames_size(fv),
        le_val(out.take(8)) == h.protocol_id,
        dec_frames(out.skip(HEADER_BYTES as int)) == Some(fv),
{
    lemma_pow256_values();
    lemma_le_bytes_len(h.protocol_id as int, 8);
    lemma_le_bytes_len(h.seq as int, 2);
    lemma_le_bytes_len(h.ack as int, 2);
    lemma_le_bytes_len(h.ack_bits as int, 4);
    lemma_enc_frames_len(fv);
    assert(out.take(8) =~= le_bytes(h.protocol_id as int, 8));
    lemma_le_round(h.protocol_id as int, 8);
    assert(out.skip(HEADER_BYTES as int) =~= enc_frames(fv));
    lemma_frames_round_trip(fv);
}

} // verus!
