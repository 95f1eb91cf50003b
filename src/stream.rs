use vstd::prelude::*;
use vstd::slice::{slice_subrange, slice_to_vec};

use crate::buffer::Buffer;
use crate::packets::{
    frame_bytes, handshake_bytes, lemma_handshake_round_trip, lemma_skip_append, skip,
    HandshakeC2SPacket, HandshakeView, PacketDeserializer,
};
use crate::serialization::{
    read_outcome, read_var_i32, FieldReader, FieldWriter, ReadingError, SlicedStream,
};
use crate::varint::{
    lemma_var_i32_len, lemma_var_i32_prefix_stable, lemma_var_i32_round_trip, parse_var_i32,
    var_i32_bytes,
};

verus! {

/// The header of a frame: the byte count of packet id and payload, and the packet id.
#[derive(Debug, Clone, Copy, PartialEq, Eq, Structural)]
pub struct Signature {
    pub length: usize,
    pub packet_id: i32,
}

impl View for Signature {
    type V = Signature;

    open spec fn view(&self) -> Signature {
        *self
    }
}

/// The signature at the front of `b` and the number of bytes it takes. A
/// negative length is invalid as soon as it is decoded.
pub open spec fn parse_signature(b: Seq<u8>) -> Result<(Signature, nat), ReadingError> {
    match parse_var_i32(b) {
        Ok((length, n1)) => if length < 0 {
            Err(ReadingError::Invalid)
        } else {
            match parse_var_i32(b.subrange(n1 as int, b.len() as int)) {
                Ok((packet_id, n2)) => Ok(
                    (Signature { length: length as usize, packet_id }, (n1 + n2) as nat),
                ),
                Err(e) => Err(e),
            }
        },
        Err(e) => Err(e),
    }
}

/// The number of payload bytes a frame announces: its length less the bytes
/// of its packet id (none when the length is shorter than that).
pub open spec fn payload_len(s: Signature) -> nat {
    if s.length >= var_i32_bytes(s.packet_id).len() {
        (s.length - var_i32_bytes(s.packet_id).len()) as nat
    } else {
        0
    }
}

/// The bytes of a signature on the wire; none when the length does not fit an int32.
pub open spec fn signature_bytes(s: Signature) -> Option<Seq<u8>> {
    if s.length <= i32::MAX {
        Some(var_i32_bytes(s.length as i32) + var_i32_bytes(s.packet_id))
    } else {
        None
    }
}

impl FieldWriter for Signature {
    open spec fn encode(v: Signature) -> Option<Seq<u8>> {
        signature_bytes(v)
    }

    fn write(&self, stream: &mut Buffer) -> (r: Option<()>) {
        if self.length > i32::MAX as usize {
            return None;
        }
        proof {
            lemma_var_i32_round_trip(self.length as i32, Seq::empty());
        }
        (self.length as i32).write(stream);
        self.packet_id.write(stream);
        assert(stream@ =~= old(stream)@ + (var_i32_bytes(self.length as i32) + var_i32_bytes(
            self.packet_id,
        )));
        Some(())
    }
}

/// The receive side of one connection: a single reusable array of bytes.
///
/// `array[position..free]` holds the bytes received and not consumed yet,
/// `array[free..]` is room for the next read, and what lies before
/// `position` was consumed and may be overwritten. When the room runs out,
/// the unconsumed bytes move to the front; the array grows only when that
/// leaves no room.
pub struct MinecraftStream {
    buffer: Vec<u8>,
    free: usize,
    position: usize,
}

impl View for MinecraftStream {
    type V = Seq<u8>;

    /// The bytes received and not consumed yet.
    closed spec fn view(&self) -> Seq<u8> {
        self.buffer@.subrange(self.position as int, self.free as int)
    }
}

impl MinecraftStream {
    pub closed spec fn wf(&self) -> bool {
        self.position <= self.free <= self.buffer@.len()
    }

    /// How many bytes the array holds, consumed or not.
    pub closed spec fn capacity(&self) -> nat {
        self.buffer@.len()
    }

    /// Where the unconsumed bytes start in the array.
    pub closed spec fn start(&self) -> nat {
        self.position as nat
    }

    /// The room left after the unconsumed bytes.
    pub open spec fn room(&self) -> nat {
        (self.capacity() - self.start() - self@.len()) as nat
    }

    pub fn new(init_buffer_size: usize) -> (r: MinecraftStream)
        ensures
            r.wf(),
            r@ == Seq::<u8>::empty(),
            r.capacity() == init_buffer_size,
            r.start() == 0,
    {
        let r = MinecraftStream { buffer: vec![0u8; init_buffer_size], free: 0, position: 0 };
        assert(r@ =~= Seq::<u8>::empty());
        r
    }

    /// Where the unconsumed bytes start in the array.
    pub fn get_position(&self) -> (r: usize)
        ensures
            r == self.start(),
    {
        self.position
    }

    /// The number of bytes received and not consumed yet.
    pub fn data_len(&self) -> (r: usize)
        requires
            self.wf(),
        ensures
            r == self@.len(),
    {
        self.free - self.position
    }

    /// A copy of the bytes received and not consumed yet; consumes nothing.
    pub fn take_buffer(&self) -> (r: Vec<u8>)
        requires
            self.wf(),
        ensures
            r@ == self@,
    {
        slice_to_vec(slice_subrange(self.buffer.as_slice(), self.position, self.free))
    }

    /// Moves the unconsumed bytes to the front of the array.
    fn copy_buffer_to_start(&mut self)
        requires
            old(self).wf(),
        ensures
            final(self).wf(),
            final(self)@ == old(self)@,
            final(self).start() == 0,
            final(self).capacity() == old(self).capacity(),
    {
        let data_len = self.free - self.position;
        let position = self.position;
        let free = self.free;
        let mut i: usize = 0;
        while i < data_len
            invariant
                position == old(self).position,
                free == old(self).free,
                self.free == free,
                self.position == position,
                data_len == free - position,
                position <= free <= self.buffer@.len(),
                self.buffer@.len() == old(self).buffer@.len(),
                i <= data_len,
                forall|j: int| 0 <= j < i ==> self.buffer@[j] == old(self).buffer@[position + j],
                forall|j: int| position + i <= j < free ==> self.buffer@[j] == old(self).buffer@[j],
            decreases data_len - i,
        {
            let byte = self.buffer[position + i];
            self.buffer.set(i, byte);
            i = i + 1;
        }
        self.free = data_len;
        self.position = 0;
        assert(self@ =~= old(self)@);
    }

    /// Doubles the array (to one byte when it is empty), keeping its bytes.
    fn expand_buffer(&mut self)
        requires
            old(self).wf(),
            old(self).buffer@.len() < usize::MAX,
        ensures
            final(self).wf(),
            final(self)@ == old(self)@,
            final(self).start() == old(self).start(),
            final(self).capacity() > old(self).capacity(),
    {
        let len = self.buffer.len();
        let new_len: usize = if len == 0 {
            1
        } else if len > usize::MAX / 2 {
            usize::MAX
        } else {
            len * 2
        };
        let mut new_buffer = vec![0u8; new_len];
        let mut i: usize = 0;
        while i < len
            invariant
                len == self.buffer@.len(),
                len < new_len,
                new_buffer@.len() == new_len,
                i <= len,
                forall|j: int| 0 <= j < i ==> new_buffer@[j] == self.buffer@[j],
            decreases len - i,
        {
            new_buffer.set(i, self.buffer[i]);
            i = i + 1;
        }
        self.buffer = new_buffer;
        assert(self@ =~= old(self)@);
    }

    /// Makes room for the next read, when there is none, without losing a
    /// byte: moves the unconsumed bytes to the front, or grows the array when
    /// they already start there. Gives the room there is for that read.
    pub fn reserve_for_read(&mut self) -> (room: usize)
        requires
            old(self).wf(),
            old(self)@.len() < usize::MAX,
        ensures
            final(self).wf(),
            final(self)@ == old(self)@,
            room == final(self).room(),
            room > 0,
            old(self).room() > 0 ==> *final(self) == *old(self),
            old(self).room() == 0 && old(self).start() > 0 ==> final(self).start() == 0
                && final(self).capacity() == old(self).capacity(),
            old(self).room() == 0 && old(self).start() == 0 ==> final(self).capacity()
                > old(self).capacity(),
    {
        if self.free >= self.buffer.len() {
            if self.position != 0 {
                self.copy_buffer_to_start();
            } else {
                self.expand_buffer();
            }
        }
        self.buffer.len() - self.free
    }

    /// Takes what one network read gave. An empty read means the peer
    /// closed: `Closed`, and nothing changes. Otherwise the bytes are
    /// appended, and the result says whether at least `required` bytes are
    /// now buffered, so that the caller knows whether to read again.
    pub fn fill_buffer_from_source(&mut self, chunk: &[u8], required: usize) -> (r: Result<
        bool,
        ReadingError,
    >)
        requires
            old(self).wf(),
            chunk@.len() <= old(self).room(),
        ensures
            final(self).wf(),
            final(self).capacity() == old(self).capacity(),
            chunk@.len() == 0 ==> r == Err::<bool, ReadingError>(ReadingError::Closed),
            chunk@.len() == 0 ==> *final(self) == *old(self),
            chunk@.len() > 0 ==> final(self)@ == old(self)@ + chunk@,
            chunk@.len() > 0 ==> r == Ok::<bool, ReadingError>(final(self)@.len() >= required),
    {
        if chunk.len() == 0 {
            return Err(ReadingError::Closed);
        }
        let free = self.free;
        let cap = self.buffer.len();
        let mut i: usize = 0;
        while i < chunk.len()
            invariant
                cap == self.buffer@.len(),
                self.position == old(self).position,
                self.free == free,
                free == old(self).free,
                self.buffer@.len() == old(self).buffer@.len(),
                free + chunk@.len() <= self.buffer@.len(),
                i <= chunk@.len(),
                forall|j: int| 0 <= j < free ==> self.buffer@[j] == old(self).buffer@[j],
                forall|j: int| 0 <= j < i ==> self.buffer@[free + j] == chunk@[j],
            decreases chunk@.len() - i,
        {
            self.buffer.set(free + i, chunk[i]);
            i = i + 1;
        }
        self.free = free + chunk.len();
        assert(self@ =~= old(self)@ + chunk@);
        Ok(self.free - self.position >= required)
    }

    /// Consumes `n` bytes.
    pub(crate) fn advance(&mut self, n: usize)
        requires
            old(self).wf(),
            n <= old(self)@.len(),
        ensures
            final(self).wf(),
            final(self)@ == old(self)@.subrange(n as int, old(self)@.len() as int),
            final(self).capacity() == old(self).capacity(),
            final(self).room() == old(self).room(),
    {
        self.position = self.position + n;
        assert(self@ =~= old(self)@.subrange(n as int, old(self)@.len() as int));
    }

    /// A cursor over the unconsumed bytes.
    pub(crate) fn window(&self) -> (r: SlicedStream)
        requires
            self.wf(),
        ensures
            r.wf(),
            r.pos() == 0,
            r.rest() == self@,
            r.bytes() == self@,
    {
        SlicedStream::new(slice_subrange(self.buffer.as_slice(), self.position, self.free))
    }

    /// Decodes one field from the buffered bytes alone. On failure nothing is
    /// consumed, so after `Insufficient` the same call can be made again once
    /// more bytes are buffered.
    pub fn read_field<T: FieldReader>(&mut self) -> (r: Result<T, ReadingError>)
        requires
            old(self).wf(),
        ensures
            final(self).wf(),
            final(self).capacity() == old(self).capacity(),
            final(self).room() == old(self).room(),
            consumed(r, old(self)@, final(self)@, T::parse(old(self)@)),
            r is Err ==> *final(self) == *old(self),
    {
        let mut cursor = self.window();
        let r = T::read(&mut cursor);
        if r.is_ok() {
            let n = cursor.get_position();
            self.advance(n);
        }
        r
    }

    /// Decodes the signature of the next frame, length then packet id, from
    /// the buffered bytes alone; consumes nothing on failure. A negative
    /// length is `Invalid` at once, since no later byte can mend it.
    pub fn read_signature(&mut self) -> (r: Result<Signature, ReadingError>)
        requires
            old(self).wf(),
        ensures
            final(self).wf(),
            final(self).capacity() == old(self).capacity(),
            final(self).room() == old(self).room(),
            consumed(r, old(self)@, final(self)@, parse_signature(old(self)@)),
            r is Err ==> *final(self) == *old(self),
            parse_var_i32(old(self)@) matches Ok((length, _)) && length < 0 ==> r == Err::<
                Signature,
                ReadingError,
            >(ReadingError::Invalid),
    {
        let mut cursor = self.window();
        let r = read_signature_at(&mut cursor);
        if r.is_ok() {
            let n = cursor.get_position();
            self.advance(n);
        }
        r
    }

    /// Decodes a frame's data once its whole payload is buffered, that is the
    /// signature's length less the bytes of its packet id; `Insufficient`
    /// before that. The decoder itself is not held to the payload's length.
    /// Consumes nothing on failure.
    pub fn read_data<T: PacketDeserializer>(&mut self, signature: Signature) -> (r: Result<
        T,
        ReadingError,
    >)
        requires
            old(self).wf(),
        ensures
            final(self).wf(),
            final(self).capacity() == old(self).capacity(),
            final(self).room() == old(self).room(),
            consumed(
                r,
                old(self)@,
                final(self)@,
                if payload_len(signature) > old(self)@.len() {
                    Err(ReadingError::Insufficient)
                } else {
                    T::parse(old(self)@)
                },
            ),
            r is Err ==> *final(self) == *old(self),
    {
        if data_bytes(signature) > self.data_len() {
            return Err(ReadingError::Insufficient);
        }
        let mut cursor = self.window();
        let r = T::from_raw(&mut cursor);
        if r.is_ok() {
            let n = cursor.get_position();
            self.advance(n);
        }
        r
    }

    /// Decodes a whole frame, signature then data, ignoring the packet id;
    /// consumes nothing unless it succeeds.
    pub fn read_packet<T: PacketDeserializer>(&mut self) -> (r: Result<T, ReadingError>)
        requires
            old(self).wf(),
        ensures
            final(self).wf(),
            final(self).capacity() == old(self).capacity(),
            final(self).room() == old(self).room(),
            consumed(r, old(self)@, final(self)@, parse_frame::<T>(old(self)@)),
            r is Err ==> *final(self) == *old(self),
    {
        let ghost b = self@;
        let mut cursor = self.window();
        let signature = match read_signature_at(&mut cursor) {
            Ok(s) => s,
            Err(e) => return Err(e),
        };
        if data_bytes(signature) > cursor.remain_len() {
            return Err(ReadingError::Insufficient);
        }
        let r = T::from_raw(&mut cursor);
        if r.is_ok() {
            let n = cursor.get_position();
            assert(cursor.rest() =~= b.subrange(n as int, b.len() as int));
            self.advance(n);
        }
        r
    }
}

/// The number of payload bytes a frame announces.
fn data_bytes(signature: Signature) -> (r: usize)
    ensures
        r == payload_len(signature),
{
    let mut id = Buffer::new(5);
    proof {
        lemma_var_i32_round_trip(signature.packet_id, Seq::empty());
    }
    signature.packet_id.write(&mut id);
    assert(id@ =~= var_i32_bytes(signature.packet_id));
    let id_len = id.take().len();
    if signature.length >= id_len {
        signature.length - id_len
    } else {
        0
    }
}

/// Decodes a signature at the cursor; on failure the cursor does not move.
fn read_signature_at(cursor: &mut SlicedStream) -> (r: Result<Signature, ReadingError>)
    requires
        old(cursor).wf(),
    ensures
        read_outcome(r, *old(cursor), *final(cursor), parse_signature(old(cursor).rest())),
{
    let ghost b = cursor.rest();
    let mut probe = *cursor;
    let length = match read_var_i32(&mut probe) {
        Ok(x) => x,
        Err(e) => return Err(e),
    };
    if length < 0 {
        return Err(ReadingError::Invalid);
    }
    let ghost n1 = probe.pos() - cursor.pos();
    let packet_id = match read_var_i32(&mut probe) {
        Ok(x) => x,
        Err(e) => return Err(e),
    };
    let ghost n2 = probe.pos() - cursor.pos() - n1;
    assert(probe.rest() =~= b.subrange(n1 + n2, b.len() as int));
    *cursor = probe;
    Ok(Signature { length: length as usize, packet_id })
}

/// The outcome of a decode against the unconsumed bytes `old`: on success the
/// value has the expected view and exactly its bytes were consumed; on failure
/// nothing was.
pub open spec fn consumed<T: View>(
    r: Result<T, ReadingError>,
    old: Seq<u8>,
    new: Seq<u8>,
    expected: Result<(T::V, nat), ReadingError>,
) -> bool {
    match expected {
        Ok((v, n)) => match r {
            Ok(x) => x@ == v && n <= old.len() && new == old.subrange(n as int, old.len() as int),
            Err(_) => false,
        },
        Err(e) => r == Err::<T, ReadingError>(e) && new == old,
    }
}

/// A whole frame at the front of `b`, its packet id ignored: the signature,
/// then the data once the whole payload is there.
pub open spec fn parse_frame<T: PacketDeserializer>(b: Seq<u8>) -> Result<
    (T::V, nat),
    ReadingError,
> {
    match parse_signature(b) {
        Ok((s, n1)) => {
            let rest = b.subrange(n1 as int, b.len() as int);
            if payload_len(s) > rest.len() {
                Err(ReadingError::Insufficient)
            } else {
                match T::parse(rest) {
                    Ok((v, n2)) => Ok((v, n1 + n2)),
                    Err(e) => Err(e),
                }
            }
        },
        Err(e) => Err(e),
    }
}

/// A signature that is decoded, or found invalid, from some bytes is decoded
/// the same way whatever bytes come after them.
pub proof fn lemma_signature_prefix_stable(b: Seq<u8>, more: Seq<u8>)
    requires
        parse_signature(b) != Err::<(Signature, nat), ReadingError>(ReadingError::Insufficient),
    ensures
        parse_signature(b + more) == parse_signature(b),
{
    lemma_var_i32_prefix_stable(b, more);
    lemma_var_i32_len(b);
    if let Ok((length, n1)) = parse_var_i32(b) {
        if length >= 0 {
            lemma_skip_append(b, more, n1);
            lemma_var_i32_prefix_stable(skip(b, n1), more);
        }
    }
}

/// Refill and retry, for whole frames of any packet type: whatever the bytes
/// and however the network splits them, a decode retried on what has arrived
/// so far either asks for more bytes or gives exactly what decoding all of
/// them gives.
pub proof fn lemma_frame_any_split<T: PacketDeserializer>(whole: Seq<u8>, arrived: nat)
    requires
        arrived <= whole.len(),
    ensures
        parse_frame::<T>(whole.subrange(0, arrived as int)) == Err::<(T::V, nat), ReadingError>(
            ReadingError::Insufficient,
        ) || parse_frame::<T>(whole.subrange(0, arrived as int)) == parse_frame::<T>(whole),
{
    let b = whole.subrange(0, arrived as int);
    let more = whole.subrange(arrived as int, whole.len() as int);
    assert(b + more =~= whole);
    if parse_frame::<T>(b) != Err::<(T::V, nat), ReadingError>(ReadingError::Insufficient) {
        lemma_signature_prefix_stable(b, more);
        if let Ok((s, n1)) = parse_signature(b) {
            lemma_signature_len(b);
            lemma_skip_append(b, more, n1);
            T::lemma_prefix_stable(skip(b, n1), more);
        }
    }
}

/// A decoded signature takes no more bytes than there are.
proof fn lemma_signature_len(b: Seq<u8>)
    ensures
        parse_signature(b) matches Ok((_, n)) ==> n <= b.len(),
{
    lemma_var_i32_len(b);
    if let Ok((_, n1)) = parse_var_i32(b) {
        lemma_var_i32_len(skip(b, n1));
    }
}

/// A handshake framed under any packet id is read back whole: decoding the
/// frame, followed by any bytes, gives the handshake and consumes exactly
/// the frame.
pub proof fn lemma_handshake_frame_round_trip(id: i32, h: HandshakeView, rest: Seq<u8>)
    requires
        frame_bytes(id, handshake_bytes(h)) is Some,
    ensures
        frame_bytes(id, handshake_bytes(h)) matches Some(f) && parse_frame::<HandshakeC2SPacket>(
            f + rest,
        ) == Ok::<(HandshakeView, nat), ReadingError>((h, f.len())),
{
    let p = handshake_bytes(h).unwrap();
    let idb = var_i32_bytes(id);
    let body = idb + p;
    let len = body.len() as i32;
    let head = var_i32_bytes(len);
    let all = head + body + rest;
    let n = head.len() + idb.len();
    assert(parse_var_i32(all) == Ok::<(i32, nat), ReadingError>((len, head.len()))) by {
        lemma_var_i32_round_trip(len, body + rest);
        assert(all =~= head + (body + rest));
    }
    assert(parse_var_i32(skip(all, head.len())) == Ok::<(i32, nat), ReadingError>(
        (id, idb.len()),
    )) by {
        lemma_var_i32_round_trip(id, p + rest);
        assert(skip(all, head.len()) =~= idb + (p + rest));
    }
    let sig = Signature { length: len as usize, packet_id: id };
    assert(parse_signature(all) == Ok::<(Signature, nat), ReadingError>((sig, n as nat)));
    assert(payload_len(sig) == p.len());
    assert(skip(all, n as nat) =~= p + rest);
    lemma_handshake_round_trip(h, rest);
}

} // verus!
