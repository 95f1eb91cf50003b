use vstd::prelude::*;

use crate::packets::{
    frame_bytes, handshake_bytes, lemma_handshake_round_trip, lemma_skip_append, parse_handshake,
    skip, HandshakeC2SPacket, HandshakeView, MinecraftPacket, PacketDeserializer,
};
use crate::routing::{
    accepts, find_upstream, is_route_for, no_route, MinecraftServerDescription, MineginxConfig,
    DEFAULT_FORWARD_BUFFER_SIZE,
};
use crate::serialization::{before_nul, read_var_i32, ReadingError, SlicedStream};
use crate::stream::{consumed, MinecraftStream};
use crate::varint::{
    lemma_var_i32_len, lemma_var_i32_prefix_stable, lemma_var_i32_round_trip, parse_var_i32,
    var_i32_bytes,
};
use vstd::utf8::encode_utf8;

verus! {

/// The handshake frame at the front of `b` and the number of bytes it takes.
///
/// The frame's length must not be negative and its packet id must be 0. The
/// handshake's fields are decoded from the frame's payload alone, once the
/// whole frame is there; fields that do not fit in it make the frame
/// invalid, and payload bytes after them are skipped with the frame.
pub open spec fn parse_handshake_frame(b: Seq<u8>) -> Result<(HandshakeView, nat), ReadingError> {
    match parse_var_i32(b) {
        Err(e) => Err(e),
        Ok((length, n1)) => if length < 0 {
            Err(ReadingError::Invalid)
        } else {
            match parse_var_i32(skip(b, n1)) {
                Err(e) => Err(e),
                Ok((packet_id, n2)) => if packet_id != 0 || length < n2 {
                    Err(ReadingError::Invalid)
                } else if b.len() < n1 + length {
                    Err(ReadingError::Insufficient)
                } else {
                    match parse_handshake(b.subrange((n1 + n2) as int, n1 + length)) {
                        Ok((h, _)) => Ok((h, (n1 + length) as nat)),
                        Err(_) => Err(ReadingError::Invalid),
                    }
                },
            }
        },
    }
}

/// Decodes the client's handshake frame from the buffered bytes alone.
/// `Insufficient` asks for another network read and the same call again;
/// nothing is consumed unless it succeeds.
pub fn read_handshake_packet(stream: &mut MinecraftStream) -> (r: Result<
    HandshakeC2SPacket,
    ReadingError,
>)
    requires
        old(stream).wf(),
    ensures
        final(stream).wf(),
        final(stream).capacity() == old(stream).capacity(),
        final(stream).room() == old(stream).room(),
        consumed(r, old(stream)@, final(stream)@, parse_handshake_frame(old(stream)@)),
        r is Err ==> *final(stream) == *old(stream),
{
    let ghost b = stream@;
    let mut cursor = stream.window();
    let length = match read_var_i32(&mut cursor) {
        Ok(x) => x,
        Err(e) => return Err(e),
    };
    if length < 0 {
        return Err(ReadingError::Invalid);
    }
    let n1 = cursor.get_position();
    assert(cursor.rest() =~= skip(b, n1 as nat));
    let packet_id = match read_var_i32(&mut cursor) {
        Ok(x) => x,
        Err(e) => return Err(e),
    };
    let n2 = cursor.get_position() - n1;
    if packet_id != 0 || (length as usize) < n2 {
        return Err(ReadingError::Invalid);
    }
    let body_len = length as usize - n2;
    if cursor.remain_len() < body_len {
        return Err(ReadingError::Insufficient);
    }
    let body = cursor.take(body_len);
    assert(body@ =~= b.subrange((n1 + n2) as int, n1 + length));
    let mut fields = SlicedStream::new(body);
    match HandshakeC2SPacket::from_raw(&mut fields) {
        Ok(h) => {
            let n = cursor.get_position();
            assert(cursor.rest() =~= b.subrange(n as int, b.len() as int));
            stream.advance(n);
            Ok(h)
        },
        Err(_) => Err(ReadingError::Invalid),
    }
}

/// What the connection does once its handshake is in: dial `proxy_pass`,
/// send it `replay`, then forward both ways through buffers of `buffer_size`.
pub struct UpstreamPlan {
    pub proxy_pass: String,
    pub buffer_size: usize,
    pub replay: Vec<u8>,
}

/// A handshake's encoding is never longer than a few bytes past 2^31.
proof fn lemma_handshake_bytes_len(h: HandshakeView)
    ensures
        handshake_bytes(h) matches Some(b) ==> b.len() <= 0x8000_0010,
{
    lemma_var_i32_round_trip(h.protocol_version, Seq::empty());
    lemma_var_i32_round_trip(h.next_state, Seq::empty());
    let d = encode_utf8(h.domain);
    if d.len() <= i32::MAX {
        lemma_var_i32_round_trip(d.len() as i32, Seq::empty());
    }
}

/// The domain a handshake is routed by: its domain's bytes up to the first NUL.
pub open spec fn routed_domain(h: HandshakeView) -> Seq<u8> {
    before_nul(encode_utf8(h.domain))
}

/// `p` sends `frame` then `pending` to the backend of `server`, through
/// buffers of the size the route asks for.
pub open spec fn plan_for(
    p: UpstreamPlan,
    server: MinecraftServerDescription,
    frame: Seq<u8>,
    pending: Seq<u8>,
) -> bool {
    &&& p.replay@ == frame + pending
    &&& p.proxy_pass@ == server.proxy_pass@
    &&& p.buffer_size == match server.buffer_size {
        Some(n) => n as usize,
        None => DEFAULT_FORWARD_BUFFER_SIZE,
    }
}

/// Decides where a client goes once its handshake is decoded: the first
/// route that accepts the handshake's domain (cut at its first NUL). The
/// backend is sent the handshake again as a frame of its own, followed by
/// every byte the client sent after it, in order. None when no route
/// accepts the domain, or the handshake cannot be framed again.
pub fn plan_upstream(
    handshake: &HandshakeC2SPacket,
    stream: &MinecraftStream,
    config: &MineginxConfig,
) -> (r: Option<UpstreamPlan>)
    requires
        stream.wf(),
    ensures
        no_route(*config, routed_domain(handshake@)) ==> r is None,
        forall|i: int| #[trigger]
            is_route_for(*config, i, routed_domain(handshake@)) ==> match frame_bytes(
                0,
                handshake_bytes(handshake@),
            ) {
                Some(f) => r matches Some(p) && plan_for(p, config.servers@[i], f, stream@),
                None => r is None,
            },
{
    let route = match find_upstream(handshake.domain.as_str(), config) {
        Some(s) => s,
        None => return None,
    };
    proof {
        let d = routed_domain(handshake@);
        lemma_handshake_bytes_len(handshake@);
        assert forall|i: int| #[trigger]
            is_route_for(*config, i, d) implies config.servers@[i] == *route by {
            let j = choose|j: int|
                is_route_for(*config, j, d) && #[trigger] config.servers@[j] == *route;
            if i < j {
                assert(!accepts(config.servers@[i], d));
            } else if j < i {
                assert(!accepts(config.servers@[j], d));
            }
        }
    }
    let mut replay = match MinecraftPacket::make_raw(0, handshake) {
        Some(v) => v,
        None => return None,
    };
    let mut pending = stream.take_buffer();
    replay.append(&mut pending);
    Some(
        UpstreamPlan {
            proxy_pass: route.proxy_pass.clone(),
            buffer_size: route.forward_buffer_size(),
            replay,
        },
    )
}

/// What one forwarding direction met since its last step.
#[derive(Debug, Clone, Copy, PartialEq, Eq, Structural)]
pub enum ForwardEvent {
    /// The opposite direction has finished and said so.
    PeerClosed,
    /// A read gave this many bytes; zero is the end of the stream.
    Received(usize),
    /// The bytes last received were all written.
    Written,
    /// A read or a write failed.
    Failed,
}

/// What one forwarding direction does next.
#[derive(Debug, Clone, Copy, PartialEq, Eq, Structural)]
pub enum ForwardAction {
    /// Read the next bytes (after looking for the opposite direction's signal).
    Read,
    /// Write the `n` bytes just read, all of them, in order.
    Write(usize),
    /// Signal the opposite direction, shut this direction's write half, and stop.
    Shutdown,
    /// Do nothing more.
    Stop,
}

/// Whether one forwarding direction still runs.
#[derive(Debug, Clone, Copy, PartialEq, Eq, Structural)]
pub enum ForwardState {
    Running,
    Finished,
}

/// One step of a forwarding direction: bytes read are written out before the
/// next read; the end of the stream, a failure or the opposite direction's
/// signal finishes it, and only a direction that finishes while running
/// shuts its write half and signals.
pub open spec fn forward_next(state: ForwardState, event: ForwardEvent) -> (
    ForwardState,
    ForwardAction,
) {
    match state {
        ForwardState::Finished => (ForwardState::Finished, ForwardAction::Stop),
        ForwardState::Running => match event {
            ForwardEvent::Received(n) => if n == 0 {
                (ForwardState::Finished, ForwardAction::Shutdown)
            } else {
                (ForwardState::Running, ForwardAction::Write(n))
            },
            ForwardEvent::Written => (ForwardState::Running, ForwardAction::Read),
            ForwardEvent::PeerClosed => (ForwardState::Finished, ForwardAction::Shutdown),
            ForwardEvent::Failed => (ForwardState::Finished, ForwardAction::Shutdown),
        },
    }
}

/// Takes one step of a forwarding direction.
pub fn forward_step(state: ForwardState, event: ForwardEvent) -> (r: (ForwardState, ForwardAction))
    ensures
        r == forward_next(state, event),
{
    match state {
        ForwardState::Finished => (ForwardState::Finished, ForwardAction::Stop),
        ForwardState::Running => match event {
            ForwardEvent::Received(n) => if n == 0 {
                (ForwardState::Finished, ForwardAction::Shutdown)
            } else {
                (ForwardState::Running, ForwardAction::Write(n))
            },
            ForwardEvent::Written => (ForwardState::Running, ForwardAction::Read),
            ForwardEvent::PeerClosed => (ForwardState::Finished, ForwardAction::Shutdown),
            ForwardEvent::Failed => (ForwardState::Finished, ForwardAction::Shutdown),
        },
    }
}

/// Half-close ends both directions: a running direction that reads the end
/// of its stream shuts its write half and signals; the other direction,
/// whatever its next read meets (that signal, the end of its own stream, or a
/// reset), finishes at that step; a finished direction does nothing more.
pub proof fn lemma_half_close_ends_both(
    other: ForwardState,
    next: ForwardEvent,
    later: ForwardEvent,
)
    requires
        next == ForwardEvent::PeerClosed || next == ForwardEvent::Received(0) || next
            == ForwardEvent::Failed,
    ensures
        forward_next(ForwardState::Running, ForwardEvent::Received(0)) == (
            ForwardState::Finished,
            ForwardAction::Shutdown,
        ),
        forward_next(other, next).0 == ForwardState::Finished,
        forward_next(forward_next(other, next).0, later) == (
            ForwardState::Finished,
            ForwardAction::Stop,
        ),
{
}

/// A handshake frame that is decoded, or found invalid, from some bytes is
/// decoded the same way whatever bytes come after them.
pub proof fn lemma_handshake_frame_prefix_stable(b: Seq<u8>, more: Seq<u8>)
    requires
        parse_handshake_frame(b) != Err::<(HandshakeView, nat), ReadingError>(
            ReadingError::Insufficient,
        ),
    ensures
        parse_handshake_frame(b + more) == parse_handshake_frame(b),
{
    lemma_var_i32_prefix_stable(b, more);
    lemma_var_i32_len(b);
    if let Ok((length, n1)) = parse_var_i32(b) {
        if length >= 0 {
            lemma_skip_append(b, more, n1);
            lemma_var_i32_prefix_stable(skip(b, n1), more);
            lemma_var_i32_len(skip(b, n1));
            if let Ok((packet_id, n2)) = parse_var_i32(skip(b, n1)) {
                if packet_id == 0 && length >= n2 && b.len() >= n1 + length {
                    assert((b + more).subrange((n1 + n2) as int, n1 + length) =~= b.subrange(
                        (n1 + n2) as int,
                        n1 + length,
                    ));
                }
            }
        }
    }
}

/// Refill and retry: whatever the bytes of a connection and however the
/// network splits them, a decode of the handshake frame retried on what has
/// arrived so far either asks for more bytes or gives exactly what decoding
/// all of them at once gives. Retried after every single byte, it therefore
/// gives the same handshake as one read of the whole.
pub proof fn lemma_handshake_any_split(whole: Seq<u8>, arrived: nat)
    requires
        arrived <= whole.len(),
    ensures
        parse_handshake_frame(whole.subrange(0, arrived as int)) == Err::<
            (HandshakeView, nat),
            ReadingError,
        >(ReadingError::Insufficient) || parse_handshake_frame(whole.subrange(0, arrived as int))
            == parse_handshake_frame(whole),
{
    let prefix = whole.subrange(0, arrived as int);
    let more = whole.subrange(arrived as int, whole.len() as int);
    assert(prefix + more =~= whole);
    if parse_handshake_frame(prefix) != Err::<(HandshakeView, nat), ReadingError>(
        ReadingError::Insufficient,
    ) {
        lemma_handshake_frame_prefix_stable(prefix, more);
    }
}

/// The frame sent to the backend carries the client's handshake: decoding
/// it, followed by whatever the client sent next, gives the handshake back
/// and consumes exactly the frame.
pub proof fn lemma_replayed_handshake(h: HandshakeView, rest: Seq<u8>)
    requires
        frame_bytes(0, handshake_bytes(h)) is Some,
    ensures
        frame_bytes(0, handshake_bytes(h)) matches Some(f) && parse_handshake_frame(f + rest)
            == Ok::<(HandshakeView, nat), ReadingError>((h, f.len())),
{
    let p = handshake_bytes(h).unwrap();
    let id = var_i32_bytes(0);
    let body = id + p;
    let len = body.len() as i32;
    let head = var_i32_bytes(len);
    let f = head + body;
    let all = f + rest;
    lemma_var_i32_round_trip(len, body + rest);
    assert(all =~= head + (body + rest));
    assert(skip(all, head.len()) =~= id + (p + rest));
    lemma_var_i32_round_trip(0, p + rest);
    assert(all.subrange((head.len() + id.len()) as int, head.len() + len) =~= p);
    lemma_handshake_round_trip(h, Seq::empty());
    assert(p + Seq::<u8>::empty() =~= p);
}

} // verus!
