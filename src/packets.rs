use vstd::prelude::*;
use vstd::slice::slice_to_vec;

use crate::buffer::Buffer;
use crate::serialization::{
    fits_after, lemma_fixed_fields_prefix_stable, lemma_string_prefix_stable,
    lemma_string_round_trip, parse_bool, parse_string, parse_u16, parse_uuid, read_outcome,
    string_bytes, write_bytes, write_outcome, FieldWriter, ReadingError, SlicedStream, Uuid,
};
use crate::varint::{
    lemma_var_i32_len, lemma_var_i32_prefix_stable, lemma_var_i32_round_trip, parse_var_i32,
    var_i32_bytes,
};

verus! {

/// The bytes of `b` from `n` on.
pub open spec fn skip(b: Seq<u8>, n: nat) -> Seq<u8> {
    b.subrange(n as int, b.len() as int)
}

/// A packet decoded field by field, in declaration order.
pub trait PacketDeserializer: Sized + View {
    /// The packet at the front of `data`, as a view, and the number of bytes it takes.
    spec fn parse(data: Seq<u8>) -> Result<(Self::V, nat), ReadingError>;

    /// Decodes each field in turn and stops at the first field that fails;
    /// the cursor moves only when every field was decoded.
    fn from_raw(stream: &mut SlicedStream) -> (r: Result<Self, ReadingError>)
        requires
            old(stream).wf(),
        ensures
            read_outcome(r, *old(stream), *final(stream), Self::parse(old(stream).rest())),
    ;

    /// A packet that is decoded, or found invalid, from some bytes is decoded
    /// the same way whatever bytes come after them.
    proof fn lemma_prefix_stable(data: Seq<u8>, more: Seq<u8>)
        requires
            Self::parse(data) != Err::<(Self::V, nat), ReadingError>(ReadingError::Insufficient),
        ensures
            Self::parse(data + more) == Self::parse(data),
    ;
}

/// A packet encoded field by field, in declaration order.
pub trait PacketSerializer: View {
    /// The bytes of a packet's fields, or none when a field has no encoding.
    spec fn encode(v: Self::V) -> Option<Seq<u8>>;

    /// Appends each field in turn and stops at the first field that fails.
    fn to_raw(&self, stream: &mut Buffer) -> (r: Option<()>)
        requires
            old(stream).wf(),
            fits_after(Self::encode(self@), old(stream)@),
        ensures
            final(stream).wf(),
            write_outcome(r, old(stream)@, final(stream)@, Self::encode(self@)),
    ;
}

/// A whole frame: the length of id and payload, the id, the payload. None when
/// the payload has no encoding or the length does not fit an int32.
pub open spec fn frame_bytes(id: i32, payload: Option<Seq<u8>>) -> Option<Seq<u8>> {
    match payload {
        Some(p) => {
            let body = var_i32_bytes(id) + p;
            if body.len() <= i32::MAX {
                Some(var_i32_bytes(body.len() as i32) + body)
            } else {
                None
            }
        },
        None => None,
    }
}

pub struct MinecraftPacket {}

impl MinecraftPacket {
    /// Builds the frame that carries `packet` under the packet id `id`.
    pub fn make_raw<T: PacketSerializer>(id: i32, packet: &T) -> (r: Option<Vec<u8>>)
        requires
            fits_after(T::encode(packet@), Seq::empty()),
        ensures
            match frame_bytes(id, T::encode(packet@)) {
                Some(f) => r matches Some(v) && v@ == f,
                None => r is None,
            },
    {
        let mut data_buffer = Buffer::new(1024);
        assert(Seq::<u8>::empty() + Seq::<u8>::empty() =~= Seq::<u8>::empty());
        match packet.to_raw(&mut data_buffer) {
            Some(_) => {},
            None => return None,
        }
        assert(data_buffer@ =~= T::encode(packet@).unwrap());
        proof {
            lemma_var_i32_round_trip(id, Seq::empty());
        }
        let mut packet_id_buffer = Buffer::new(5);
        id.write(&mut packet_id_buffer);
        assert(packet_id_buffer@ =~= var_i32_bytes(id));
        let d2 = packet_id_buffer.take();
        let d3 = data_buffer.take();
        if d3.len() > i32::MAX as usize - d2.len() {
            return None;
        }
        let length = (d2.len() + d3.len()) as i32;
        proof {
            lemma_var_i32_round_trip(length, Seq::empty());
        }
        let mut packet_length_buffer = Buffer::new(5);
        length.write(&mut packet_length_buffer);
        assert(packet_length_buffer@ =~= var_i32_bytes(length));
        let d1 = packet_length_buffer.take();
        let mut frame = Buffer::new(d1.len() + d2.len() + d3.len());
        write_bytes(d1, &mut frame);
        write_bytes(d2, &mut frame);
        write_bytes(d3, &mut frame);
        assert(frame@ =~= d1@ + (d2@ + d3@));
        Some(slice_to_vec(frame.take()))
    }
}

/// The first packet a client sends: the protocol version, the server domain it
/// dialled, the port, and the state it asks for next (1 status, 2 login).
pub struct HandshakeC2SPacket {
    pub protocol_version: i32,
    pub domain: String,
    pub server_port: u16,
    pub next_state: i32,
}

/// A handshake as plain values.
pub struct HandshakeView {
    pub protocol_version: i32,
    pub domain: Seq<char>,
    pub server_port: u16,
    pub next_state: i32,
}

impl View for HandshakeC2SPacket {
    type V = HandshakeView;

    open spec fn view(&self) -> HandshakeView {
        HandshakeView {
            protocol_version: self.protocol_version,
            domain: self.domain@,
            server_port: self.server_port,
            next_state: self.next_state,
        }
    }
}

/// A handshake's fields at the front of `b`: VarInt, string, u16, VarInt.
pub open spec fn parse_handshake(b: Seq<u8>) -> Result<(HandshakeView, nat), ReadingError> {
    match parse_var_i32(b) {
        Err(e) => Err(e),
        Ok((protocol_version, n1)) => match parse_string(skip(b, n1)) {
            Err(e) => Err(e),
            Ok((domain, n2)) => match parse_u16(skip(b, n1 + n2)) {
                Err(e) => Err(e),
                Ok((server_port, n3)) => match parse_var_i32(skip(b, n1 + n2 + n3)) {
                    Err(e) => Err(e),
                    Ok((next_state, n4)) => Ok(
                        (
                            HandshakeView { protocol_version, domain, server_port, next_state },
                            n1 + n2 + n3 + n4,
                        ),
                    ),
                },
            },
        },
    }
}

/// The bytes of a handshake's fields; none when the domain has no encoding.
pub open spec fn handshake_bytes(h: HandshakeView) -> Option<Seq<u8>> {
    match string_bytes(h.domain) {
        Some(d) => Some(
            var_i32_bytes(h.protocol_version) + d + seq![
                (h.server_port / 256) as u8,
                (h.server_port % 256) as u8,
            ] + var_i32_bytes(h.next_state),
        ),
        None => None,
    }
}

impl PacketDeserializer for HandshakeC2SPacket {
    open spec fn parse(data: Seq<u8>) -> Result<(HandshakeView, nat), ReadingError> {
        parse_handshake(data)
    }

    fn from_raw(stream: &mut SlicedStream) -> (r: Result<HandshakeC2SPacket, ReadingError>) {
        let ghost b = stream.rest();
        let mut probe = *stream;
        let protocol_version = match probe.read_field::<i32>() {
            Ok(x) => x,
            Err(e) => return Err(e),
        };
        let ghost n1 = probe.pos() - stream.pos();
        assert(probe.rest() =~= skip(b, n1 as nat));
        let domain = match probe.read_field::<String>() {
            Ok(x) => x,
            Err(e) => return Err(e),
        };
        let ghost n2 = probe.pos() - stream.pos() - n1;
        assert(probe.rest() =~= skip(b, (n1 + n2) as nat));
        let server_port = match probe.read_field::<u16>() {
            Ok(x) => x,
            Err(e) => return Err(e),
        };
        let ghost n3 = probe.pos() - stream.pos() - n1 - n2;
        assert(probe.rest() =~= skip(b, (n1 + n2 + n3) as nat));
        let next_state = match probe.read_field::<i32>() {
            Ok(x) => x,
            Err(e) => return Err(e),
        };
        let ghost n4 = probe.pos() - stream.pos() - n1 - n2 - n3;
        assert(probe.rest() =~= skip(b, (n1 + n2 + n3 + n4) as nat));
        *stream = probe;
        Ok(HandshakeC2SPacket { protocol_version, domain, server_port, next_state })
    }

    proof fn lemma_prefix_stable(data: Seq<u8>, more: Seq<u8>) {
        lemma_handshake_prefix_stable(data, more);
    }
}

impl PacketSerializer for HandshakeC2SPacket {
    open spec fn encode(v: HandshakeView) -> Option<Seq<u8>> {
        handshake_bytes(v)
    }

    fn to_raw(&self, stream: &mut Buffer) -> (r: Option<()>) {
        if self.domain.as_str().as_bytes().len() > i32::MAX as usize {
            return None;
        }
        proof {
            lemma_var_i32_round_trip(self.protocol_version, Seq::empty());
            lemma_var_i32_round_trip(self.next_state, Seq::empty());
        }
        let ghost start = stream@;
        assert(string_bytes(self.domain@) is Some);
        assert(handshake_bytes(self@) is Some);
        match stream.write_field(&self.protocol_version) {
            Some(_) => {},
            None => return None,
        }
        match stream.write_field(&self.domain) {
            Some(_) => {},
            None => {
                return None;
            },
        }
        match stream.write_field(&self.server_port) {
            Some(_) => {},
            None => return None,
        }
        match stream.write_field(&self.next_state) {
            Some(_) => {},
            None => return None,
        }
        assert(stream@ =~= start + handshake_bytes(self@).unwrap());
        Some(())
    }
}

/// The packet that starts a login: the player's name and, when present, UUID.
pub struct LoginC2SPacket {
    pub name: String,
    pub has_uuid: bool,
    pub player_uuid: Uuid,
}

/// A login packet as plain values.
pub struct LoginView {
    pub name: Seq<char>,
    pub has_uuid: bool,
    pub player_uuid: Seq<u8>,
}

impl View for LoginC2SPacket {
    type V = LoginView;

    open spec fn view(&self) -> LoginView {
        LoginView { name: self.name@, has_uuid: self.has_uuid, player_uuid: self.player_uuid@ }
    }
}

/// A login packet's fields at the front of `b`: string, bool, UUID.
pub open spec fn parse_login(b: Seq<u8>) -> Result<(LoginView, nat), ReadingError> {
    match parse_string(b) {
        Err(e) => Err(e),
        Ok((name, n1)) => match parse_bool(skip(b, n1)) {
            Err(e) => Err(e),
            Ok((has_uuid, n2)) => match parse_uuid(skip(b, n1 + n2)) {
                Err(e) => Err(e),
                Ok((player_uuid, n3)) => Ok(
                    (LoginView { name, has_uuid, player_uuid }, n1 + n2 + n3),
                ),
            },
        },
    }
}

impl PacketDeserializer for LoginC2SPacket {
    open spec fn parse(data: Seq<u8>) -> Result<(LoginView, nat), ReadingError> {
        parse_login(data)
    }

    fn from_raw(stream: &mut SlicedStream) -> (r: Result<LoginC2SPacket, ReadingError>) {
        let ghost b = stream.rest();
        let mut probe = *stream;
        let name = match probe.read_field::<String>() {
            Ok(x) => x,
            Err(e) => return Err(e),
        };
        let ghost n1 = probe.pos() - stream.pos();
        assert(probe.rest() =~= skip(b, n1 as nat));
        let has_uuid = match probe.read_field::<bool>() {
            Ok(x) => x,
            Err(e) => return Err(e),
        };
        let ghost n2 = probe.pos() - stream.pos() - n1;
        assert(probe.rest() =~= skip(b, (n1 + n2) as nat));
        let player_uuid = match probe.read_field::<Uuid>() {
            Ok(x) => x,
            Err(e) => return Err(e),
        };
        let ghost n3 = probe.pos() - stream.pos() - n1 - n2;
        assert(probe.rest() =~= skip(b, (n1 + n2 + n3) as nat));
        *stream = probe;
        Ok(LoginC2SPacket { name, has_uuid, player_uuid })
    }

    proof fn lemma_prefix_stable(data: Seq<u8>, more: Seq<u8>) {
        lemma_login_prefix_stable(data, more);
    }
}

/// Dropping the first `n` bytes commutes with appending more bytes, when
/// there are at least `n` bytes.
pub proof fn lemma_skip_append(b: Seq<u8>, more: Seq<u8>, n: nat)
    requires
        n <= b.len(),
    ensures
        skip(b + more, n) == skip(b, n) + more,
{
    assert(skip(b + more, n) =~= skip(b, n) + more);
}

/// A handshake that is decoded, or found invalid, from some bytes is decoded
/// the same way whatever bytes come after them.
pub proof fn lemma_handshake_prefix_stable(b: Seq<u8>, more: Seq<u8>)
    requires
        parse_handshake(b) != Err::<(HandshakeView, nat), ReadingError>(ReadingError::Insufficient),
    ensures
        parse_handshake(b + more) == parse_handshake(b),
{
    lemma_var_i32_prefix_stable(b, more);
    lemma_var_i32_len(b);
    if let Ok((_, n1)) = parse_var_i32(b) {
        let b1 = skip(b, n1);
        lemma_skip_append(b, more, n1);
        lemma_string_prefix_stable(b1, more);
        if let Ok((_, n2)) = parse_string(b1) {
            assert(skip(b, n1 + n2) =~= skip(b1, n2));
            assert(skip(b + more, n1 + n2) =~= skip(b1 + more, n2));
            let b2 = skip(b1, n2);
            lemma_skip_append(b1, more, n2);
            lemma_fixed_fields_prefix_stable(b2, more);
            if let Ok((_, n3)) = parse_u16(b2) {
                assert(skip(b, n1 + n2 + n3) =~= skip(b2, n3));
                assert(skip(b + more, n1 + n2 + n3) =~= skip(b2 + more, n3));
                lemma_skip_append(b2, more, n3);
                lemma_var_i32_prefix_stable(skip(b2, n3), more);
            }
        }
    }
}

/// Decoding a handshake's encoding, followed by any bytes, gives the
/// handshake back and consumes exactly the encoding.
pub proof fn lemma_handshake_round_trip(h: HandshakeView, rest: Seq<u8>)
    requires
        handshake_bytes(h) is Some,
    ensures
        handshake_bytes(h) matches Some(b) && parse_handshake(b + rest) == Ok::<
            (HandshakeView, nat),
            ReadingError,
        >((h, b.len())),
{
    let d = string_bytes(h.domain).unwrap();
    let p = var_i32_bytes(h.protocol_version);
    let port = seq![(h.server_port / 256) as u8, (h.server_port % 256) as u8];
    let ns = var_i32_bytes(h.next_state);
    let b = p + d + port + ns;
    let all = b + rest;
    lemma_var_i32_round_trip(h.protocol_version, d + port + ns + rest);
    assert(all =~= p + (d + port + ns + rest));
    assert(skip(all, p.len()) =~= d + (port + ns + rest));
    lemma_string_round_trip(h.domain, port + ns + rest);
    assert(skip(all, p.len() + d.len()) =~= port + (ns + rest));
    assert(skip(all, p.len() + d.len() + 2) =~= ns + rest);
    lemma_var_i32_round_trip(h.next_state, rest);
    assert(((h.server_port / 256) as u8) * 256 + ((h.server_port % 256) as u8) == h.server_port);
}

/// A login packet that is decoded, or found invalid, from some bytes is
/// decoded the same way whatever bytes come after them.
pub proof fn lemma_login_prefix_stable(b: Seq<u8>, more: Seq<u8>)
    requires
        parse_login(b) != Err::<(LoginView, nat), ReadingError>(ReadingError::Insufficient),
    ensures
        parse_login(b + more) == parse_login(b),
{
    lemma_string_prefix_stable(b, more);
    if let Ok((_, n1)) = parse_string(b) {
        let b1 = skip(b, n1);
        lemma_skip_append(b, more, n1);
        lemma_fixed_fields_prefix_stable(b1, more);
        if let Ok((_, n2)) = parse_bool(b1) {
            assert(skip(b, n1 + n2) =~= skip(b1, n2));
            assert(skip(b + more, n1 + n2) =~= skip(b1 + more, n2));
            lemma_skip_append(b1, more, n2);
            lemma_fixed_fields_prefix_stable(skip(b1, n2), more);
        }
    }
}

} // verus!
