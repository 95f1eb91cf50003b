use vstd::prelude::*;
use vstd::string::StringSliceAdditionalSpecFns;
use vstd::slice::{slice_subrange, slice_to_vec};
use vstd::utf8::{decode_utf8, encode_utf8, valid_utf8};

use crate::buffer::Buffer;
use crate::varint::{
    group_weight, lemma_var_i32_prefix_stable, lemma_var_i32_round_trip, parse_var_i32, signed_of,
    var_i32_bytes, varint_bytes, varint_parse,
};

verus! {

/// Why a decode did not produce a value.
#[derive(Debug, Clone, Copy, PartialEq, Eq, Structural)]
pub enum ReadingError {
    /// The buffered bytes end before the value does: refill and retry the same call.
    Insufficient,
    /// The bytes can never form a value: drop the connection.
    Invalid,
    /// The peer or the transport went away.
    Closed,
}

/// A read cursor over a byte slice.
#[derive(Clone, Copy)]
pub struct SlicedStream<'a> {
    stream: &'a [u8],
    position: usize,
}

impl<'a> SlicedStream<'a> {
    /// All the bytes under the cursor, read or not.
    pub closed spec fn bytes(&self) -> Seq<u8> {
        self.stream@
    }

    /// How many bytes were read.
    pub closed spec fn pos(&self) -> nat {
        self.position as nat
    }

    pub closed spec fn wf(&self) -> bool {
        self.position <= self.stream@.len()
    }

    /// The bytes not read yet.
    pub open spec fn rest(&self) -> Seq<u8> {
        self.bytes().subrange(self.pos() as int, self.bytes().len() as int)
    }

    /// The cursor advanced by `n` bytes from `old`.
    pub open spec fn advanced(&self, old: SlicedStream<'a>, n: nat) -> bool {
        &&& self.wf()
        &&& self.bytes() == old.bytes()
        &&& self.pos() == old.pos() + n
        &&& n <= old.rest().len()
        &&& self.rest() == old.rest().subrange(n as int, old.rest().len() as int)
    }

    pub fn new(stream: &'a [u8]) -> (r: SlicedStream<'a>)
        ensures
            r.wf(),
            r.bytes() == stream@,
            r.pos() == 0,
            r.rest() == stream@,
    {
        let r = SlicedStream { stream, position: 0 };
        assert(r.rest() =~= stream@);
        r
    }

    pub fn get_position(&self) -> (r: usize)
        ensures
            r == self.pos(),
    {
        self.position
    }

    /// The number of bytes not read yet.
    pub fn remain_len(&self) -> (r: usize)
        requires
            self.wf(),
        ensures
            r == self.rest().len(),
    {
        self.stream.len() - self.position
    }

    /// Decodes one field at the cursor; on failure the cursor does not move.
    pub fn read_field<T: FieldReader>(&mut self) -> (r: Result<T, ReadingError>)
        requires
            old(self).wf(),
        ensures
            read_outcome(r, *old(self), *final(self), T::parse(old(self).rest())),
    {
        T::read(self)
    }

    /// Reads the next `length` bytes.
    pub fn take(&mut self, length: usize) -> (r: &'a [u8])
        requires
            old(self).wf(),
            length <= old(self).rest().len(),
        ensures
            r@ == old(self).rest().subrange(0, length as int),
            final(self).advanced(*old(self), length as nat),
    {
        let position = self.position;
        let remain = self.stream.len() - position;
        assert(length <= remain);
        self.position = position + length;
        let r = slice_subrange(self.stream, position, position + length);
        assert(r@ =~= old(self).rest().subrange(0, length as int));
        let ghost before = old(self).rest();
        assert(self.rest() =~= before.subrange(length as int, before.len() as int));
        r
    }
}

/// The outcome of reading with a cursor at `old`: on success the value has the
/// expected view and the cursor has moved past what was read; on failure the
/// cursor has not moved.
pub open spec fn read_outcome<'a, T: View>(
    r: Result<T, ReadingError>,
    old: SlicedStream<'a>,
    new: SlicedStream<'a>,
    expected: Result<(T::V, nat), ReadingError>,
) -> bool {
    match expected {
        Ok((v, n)) => match r {
            Ok(x) => x@ == v && new.advanced(old, n),
            Err(_) => false,
        },
        Err(e) => r == Err::<T, ReadingError>(e) && new == old,
    }
}

/// The single byte at the front of `b`.
pub open spec fn parse_byte(b: Seq<u8>) -> Result<(u8, nat), ReadingError> {
    if b.len() == 0 {
        Err(ReadingError::Insufficient)
    } else {
        Ok((b[0], 1))
    }
}

/// Reads one byte.
pub fn read_byte(slice: &mut SlicedStream) -> (r: Result<u8, ReadingError>)
    requires
        old(slice).wf(),
    ensures
        read_outcome(r, *old(slice), *final(slice), parse_byte(old(slice).rest())),
{
    if slice.position >= slice.stream.len() {
        return Err(ReadingError::Insufficient);
    }
    let position = slice.position;
    slice.position = position + 1;
    assert(slice.rest() =~= old(slice).rest().subrange(1, old(slice).rest().len() as int));
    Ok(slice.stream[position])
}

/// Reads an int32 VarInt: at most five bytes, seven bits from each.
pub fn read_var_i32(slice: &mut SlicedStream) -> (r: Result<i32, ReadingError>)
    requires
        old(slice).wf(),
    ensures
        read_outcome(r, *old(slice), *final(slice), parse_var_i32(old(slice).rest())),
{
    let ghost b = old(slice).rest();
    let start = slice.position;
    let len = slice.stream.len();
    let mut index: usize = start;
    let mut value: u64 = 0;
    let mut weight: u64 = 1;
    let mut k: usize = 0;
    assert(b.subrange(0, b.len() as int) =~= b);
    loop
        invariant
            slice.wf(),
            *slice == *old(slice),
            start == slice.pos(),
            len == slice.bytes().len(),
            b == slice.rest(),
            index == start + k,
            index <= len,
            k <= 4,
            weight == group_weight(k as nat),
            value < weight,
            weight <= 0x1000_0000,
            varint_parse(b, 4) == match varint_parse(
                b.subrange(k as int, b.len() as int),
                (4 - k) as nat,
            ) {
                Ok((v, n)) => Ok::<(nat, nat), ReadingError>(
                    ((value + weight * v) as nat, (n + k) as nat),
                ),
                Err(e) => Err(e),
            },
        decreases 4 - k,
    {
        let ghost tail = b.subrange(k as int, b.len() as int);
        if index >= len {
            assert(tail.len() == 0);
            return Err(ReadingError::Insufficient);
        }
        let byte = slice.stream[index];
        assert(tail[0] == byte);
        assert(tail.drop_first() =~= b.subrange(k + 1, b.len() as int));
        if byte < 128 {
            let digit: u64 = byte as u64;
            assert(digit * weight < 128 * weight) by (nonlinear_arith)
                requires
                    digit < 128,
                    weight > 0,
            ;
            let ghost prev = value;
            value = value + digit * weight;
            assert(prev + weight * (byte as nat) == value) by (nonlinear_arith)
                requires
                    value == prev + digit * weight,
                    digit == byte,
            ;
            slice.position = index + 1;
            assert(slice.rest() =~= b.subrange(k + 1, b.len() as int));
            let low: u64 = value % 0x1_0000_0000;
            let r: i32 = if low < 0x8000_0000 {
                low as i32
            } else {
                (low as i64 - 0x1_0000_0000) as i32
            };
            assert(varint_parse(b, 4) == Ok::<(nat, nat), ReadingError>(
                (value as nat, (k + 1) as nat),
            ));
            assert(r == signed_of((value as nat) % 0x1_0000_0000));
            return Ok(r);
        }
        if k == 4 {
            return Err(ReadingError::Invalid);
        }
        let ghost old_value = value;
        let digit: u64 = (byte - 128) as u64;
        assert(digit * weight <= 127 * weight) by (nonlinear_arith)
            requires
                digit < 128,
        ;
        value = value + digit * weight;
        proof {
            reveal_with_fuel(group_weight, 5);
            assert(k == 0 || k == 1 || k == 2 || k == 3);
            if let Ok((v, n)) = varint_parse(b.subrange(k + 1, b.len() as int), (3 - k) as nat) {
                assert(old_value + weight * ((byte - 128) + 128 * v) == value + (weight * 128) * v)
                    by (nonlinear_arith)
                    requires
                        value == old_value + digit * weight,
                        digit == byte - 128,
                ;
            }
        }
        weight = weight * 128;
        index = index + 1;
        k = k + 1;
    }
}

/// The string at the front of `b`: a VarInt byte length, then that many bytes
/// of UTF-8. A negative length or malformed UTF-8 can never be read.
pub open spec fn parse_string(b: Seq<u8>) -> Result<(Seq<char>, nat), ReadingError> {
    match parse_var_i32(b) {
        Ok((len, n)) => if len < 0 {
            Err(ReadingError::Invalid)
        } else if n + len > b.len() {
            Err(ReadingError::Insufficient)
        } else if !valid_utf8(b.subrange(n as int, n + len)) {
            Err(ReadingError::Invalid)
        } else {
            Ok((decode_utf8(b.subrange(n as int, n + len)), (n + len) as nat))
        },
        Err(e) => Err(e),
    }
}

/// Relies on `String::from_utf8`: it succeeds exactly on valid UTF-8, and the
/// string it gives holds those bytes.
#[verifier::external_body]
fn string_from_utf8(bytes: Vec<u8>) -> (r: Option<String>)
    ensures
        r is Some <==> valid_utf8(bytes@),
        r matches Some(s) ==> encode_utf8(s@) == bytes@,
{
    String::from_utf8(bytes).ok()
}

/// Reads a string: a VarInt byte length, then that many bytes of UTF-8.
pub fn read_string(slice: &mut SlicedStream) -> (r: Result<String, ReadingError>)
    requires
        old(slice).wf(),
    ensures
        read_outcome(r, *old(slice), *final(slice), parse_string(old(slice).rest())),
{
    let ghost b = slice.rest();
    let mut probe = *slice;
    let length = match read_var_i32(&mut probe) {
        Ok(x) => x,
        Err(e) => return Err(e),
    };
    let ghost n = probe.pos() - slice.pos();
    if length < 0 {
        return Err(ReadingError::Invalid);
    }
    let length = length as usize;
    if length > probe.remain_len() {
        return Err(ReadingError::Insufficient);
    }
    let bytes = probe.take(length);
    assert(bytes@ =~= b.subrange(n as int, n + length));
    match string_from_utf8(slice_to_vec(bytes)) {
        Some(value) => {
            proof {
                vstd::utf8::encode_utf8_decode_utf8(value@);
            }
            assert(probe.rest() =~= b.subrange(n + length, b.len() as int));
            *slice = probe;
            Ok(value)
        },
        None => Err(ReadingError::Invalid),
    }
}

/// A big-endian u16 at the front of `b`.
pub open spec fn parse_u16(b: Seq<u8>) -> Result<(u16, nat), ReadingError> {
    if b.len() < 2 {
        Err(ReadingError::Insufficient)
    } else {
        Ok(((b[0] * 256 + b[1]) as u16, 2))
    }
}

/// A bool at the front of `b`: one byte, true unless zero.
pub open spec fn parse_bool(b: Seq<u8>) -> Result<(bool, nat), ReadingError> {
    if b.len() == 0 {
        Err(ReadingError::Insufficient)
    } else {
        Ok((b[0] != 0, 1))
    }
}

/// A UUID at the front of `b`: sixteen raw bytes.
pub open spec fn parse_uuid(b: Seq<u8>) -> Result<(Seq<u8>, nat), ReadingError> {
    if b.len() < 16 {
        Err(ReadingError::Insufficient)
    } else {
        Ok((b.subrange(0, 16), 16))
    }
}

/// A 128-bit UUID, kept as its sixteen bytes in wire order.
#[derive(Clone, Copy, Debug, PartialEq, Eq)]
pub struct Uuid {
    pub bytes: [u8; 16],
}

impl View for Uuid {
    type V = Seq<u8>;

    open spec fn view(&self) -> Seq<u8> {
        self.bytes@
    }
}

/// A field type that can be decoded from the front of the buffered bytes.
///
/// Every decoder is all-or-nothing: when it fails the cursor has not moved,
/// so the same call can be made again once more bytes are buffered.
pub trait FieldReader: Sized + View {
    /// The value at the front of `data`, as a view, and the number of bytes it takes.
    spec fn parse(data: Seq<u8>) -> Result<(Self::V, nat), ReadingError>;

    fn read(stream: &mut SlicedStream) -> (r: Result<Self, ReadingError>)
        requires
            old(stream).wf(),
        ensures
            read_outcome(r, *old(stream), *final(stream), Self::parse(old(stream).rest())),
    ;

    /// A value that is decoded, or found invalid, from some bytes is decoded
    /// the same way whatever bytes come after them.
    proof fn lemma_prefix_stable(data: Seq<u8>, more: Seq<u8>)
        requires
            Self::parse(data) != Err::<(Self::V, nat), ReadingError>(ReadingError::Insufficient),
        ensures
            Self::parse(data + more) == Self::parse(data),
    ;
}

/// Refill and retry, for any field type: whatever the bytes and however the
/// network splits them, a decode retried on what has arrived so far either
/// asks for more bytes or gives exactly what decoding all of them gives.
pub proof fn lemma_field_any_split<T: FieldReader>(whole: Seq<u8>, arrived: nat)
    requires
        arrived <= whole.len(),
    ensures
        T::parse(whole.subrange(0, arrived as int)) == Err::<(T::V, nat), ReadingError>(
            ReadingError::Insufficient,
        ) || T::parse(whole.subrange(0, arrived as int)) == T::parse(whole),
{
    let prefix = whole.subrange(0, arrived as int);
    let more = whole.subrange(arrived as int, whole.len() as int);
    assert(prefix + more =~= whole);
    if T::parse(prefix) != Err::<(T::V, nat), ReadingError>(ReadingError::Insufficient) {
        T::lemma_prefix_stable(prefix, more);
    }
}

/// A field type that can be appended to a byte sink.
pub trait FieldWriter: View {
    /// The bytes that encode a value, or none when the wire format cannot hold it.
    spec fn encode(v: Self::V) -> Option<Seq<u8>>;

    fn write(&self, stream: &mut Buffer) -> (r: Option<()>)
        requires
            old(stream).wf(),
            fits_after(Self::encode(self@), old(stream)@),
        ensures
            write_outcome(r, old(stream)@, final(stream)@, Self::encode(self@)),
            final(stream).wf(),
    ;
}

/// Appending `bytes` (when there are any) to `written` keeps the length within `usize`.
pub open spec fn fits_after(bytes: Option<Seq<u8>>, written: Seq<u8>) -> bool {
    match bytes {
        Some(b) => written.len() + b.len() <= usize::MAX,
        None => true,
    }
}

/// The outcome of a write: the encoding appended and `Some`, or nothing
/// written and `None` when there is no encoding.
pub open spec fn write_outcome(
    r: Option<()>,
    old: Seq<u8>,
    new: Seq<u8>,
    bytes: Option<Seq<u8>>,
) -> bool {
    match bytes {
        Some(b) => r is Some && new == old + b,
        None => r is None && new == old,
    }
}

impl FieldReader for u8 {
    open spec fn parse(data: Seq<u8>) -> Result<(u8, nat), ReadingError> {
        parse_byte(data)
    }

    fn read(stream: &mut SlicedStream) -> (r: Result<u8, ReadingError>) {
        read_byte(stream)
    }

    proof fn lemma_prefix_stable(data: Seq<u8>, more: Seq<u8>) {
        lemma_fixed_fields_prefix_stable(data, more);
    }
}

impl FieldReader for i32 {
    open spec fn parse(data: Seq<u8>) -> Result<(i32, nat), ReadingError> {
        parse_var_i32(data)
    }

    fn read(stream: &mut SlicedStream) -> (r: Result<i32, ReadingError>) {
        read_var_i32(stream)
    }

    proof fn lemma_prefix_stable(data: Seq<u8>, more: Seq<u8>) {
        lemma_var_i32_prefix_stable(data, more);
    }
}

impl FieldReader for String {
    open spec fn parse(data: Seq<u8>) -> Result<(Seq<char>, nat), ReadingError> {
        parse_string(data)
    }

    fn read(stream: &mut SlicedStream) -> (r: Result<String, ReadingError>) {
        read_string(stream)
    }

    proof fn lemma_prefix_stable(data: Seq<u8>, more: Seq<u8>) {
        lemma_string_prefix_stable(data, more);
    }
}

impl FieldReader for bool {
    open spec fn parse(data: Seq<u8>) -> Result<(bool, nat), ReadingError> {
        parse_bool(data)
    }

    fn read(stream: &mut SlicedStream) -> (r: Result<bool, ReadingError>) {
        let byte = match read_byte(stream) {
            Ok(x) => x,
            Err(e) => return Err(e),
        };
        Ok(byte != 0)
    }

    proof fn lemma_prefix_stable(data: Seq<u8>, more: Seq<u8>) {
        lemma_fixed_fields_prefix_stable(data, more);
    }
}

impl FieldReader for u16 {
    open spec fn parse(data: Seq<u8>) -> Result<(u16, nat), ReadingError> {
        parse_u16(data)
    }

    fn read(stream: &mut SlicedStream) -> (r: Result<u16, ReadingError>) {
        if stream.remain_len() < 2 {
            return Err(ReadingError::Insufficient);
        }
        let ghost b = stream.rest();
        let b1 = match read_byte(stream) {
            Ok(x) => x,
            Err(e) => return Err(e),
        };
        let b2 = match read_byte(stream) {
            Ok(x) => x,
            Err(e) => return Err(e),
        };
        assert(stream.rest() =~= b.subrange(2, b.len() as int));
        Ok((b1 as u16) * 256 + b2 as u16)
    }

    proof fn lemma_prefix_stable(data: Seq<u8>, more: Seq<u8>) {
        lemma_fixed_fields_prefix_stable(data, more);
    }
}

impl FieldReader for Uuid {
    open spec fn parse(data: Seq<u8>) -> Result<(Seq<u8>, nat), ReadingError> {
        parse_uuid(data)
    }

    fn read(stream: &mut SlicedStream) -> (r: Result<Uuid, ReadingError>) {
        if stream.remain_len() < 16 {
            return Err(ReadingError::Insufficient);
        }
        let src = stream.take(16);
        let mut bytes = [0u8; 16];
        let mut i: usize = 0;
        while i < 16
            invariant
                src@.len() == 16,
                i <= 16,
                forall|j: int| 0 <= j < i ==> bytes@[j] == src@[j],
            decreases 16 - i,
        {
            bytes[i] = src[i];
            i = i + 1;
        }
        let r = Uuid { bytes };
        assert(r@ =~= src@);
        Ok(r)
    }

    proof fn lemma_prefix_stable(data: Seq<u8>, more: Seq<u8>) {
        lemma_fixed_fields_prefix_stable(data, more);
    }
}

/// The bytes of a string on the wire: its UTF-8 byte length as a VarInt, then
/// the UTF-8 bytes; none when that length does not fit an int32.
pub open spec fn string_bytes(s: Seq<char>) -> Option<Seq<u8>> {
    let b = encode_utf8(s);
    if b.len() <= i32::MAX {
        Some(var_i32_bytes(b.len() as i32) + b)
    } else {
        None
    }
}

/// Appends the VarInt encoding of `value`.
pub fn write_var_i32(value: i32, stream: &mut Buffer)
    requires
        old(stream).wf(),
        old(stream)@.len() + var_i32_bytes(value).len() <= usize::MAX,
    ensures
        final(stream).wf(),
        final(stream)@ == old(stream)@ + var_i32_bytes(value),
{
    let mut u: u32 = if value >= 0 {
        value as u32
    } else {
        (value as i64 + 0x1_0000_0000) as u32
    };
    assert(stream@ + var_i32_bytes(value) == stream@ + varint_bytes(u as nat));
    loop
        invariant
            stream.wf(),
            old(stream)@ + var_i32_bytes(value) == stream@ + varint_bytes(u as nat),
            stream@.len() + varint_bytes(u as nat).len() <= usize::MAX,
        decreases u,
    {
        let ghost before = stream@;
        if u < 128 {
            stream.write_byte(u as u8);
            assert(stream@ =~= before + varint_bytes(u as nat));
            return;
        }
        let ghost u0 = u;
        let byte: u8 = (u % 128 + 128) as u8;
        assert(varint_bytes(u0 as nat) == seq![byte] + varint_bytes((u0 / 128) as nat));
        stream.write_byte(byte);
        u = u / 128;
        assert(before + varint_bytes(u0 as nat) =~= stream@ + varint_bytes(u as nat));
    }
}

/// Appends `bytes` one by one.
pub(crate) fn write_bytes(bytes: &[u8], stream: &mut Buffer)
    requires
        old(stream).wf(),
        old(stream)@.len() + bytes@.len() <= usize::MAX,
    ensures
        final(stream).wf(),
        final(stream)@ == old(stream)@ + bytes@,
{
    let mut i: usize = 0;
    while i < bytes.len()
        invariant
            stream.wf(),
            i <= bytes@.len(),
            stream@ == old(stream)@ + bytes@.subrange(0, i as int),
            old(stream)@.len() + bytes@.len() <= usize::MAX,
        decreases bytes@.len() - i,
    {
        stream.write_byte(bytes[i]);
        assert(bytes@.subrange(0, i + 1) =~= bytes@.subrange(0, i as int).push(bytes@[i as int]));
        i = i + 1;
    }
    assert(bytes@.subrange(0, i as int) =~= bytes@);
}

impl FieldWriter for i32 {
    open spec fn encode(v: i32) -> Option<Seq<u8>> {
        Some(var_i32_bytes(v))
    }

    fn write(&self, stream: &mut Buffer) -> (r: Option<()>) {
        write_var_i32(*self, stream);
        Some(())
    }
}

impl FieldWriter for String {
    open spec fn encode(v: Seq<char>) -> Option<Seq<u8>> {
        string_bytes(v)
    }

    fn write(&self, stream: &mut Buffer) -> (r: Option<()>) {
        let bytes = self.as_str().as_bytes();
        if bytes.len() > i32::MAX as usize {
            return None;
        }
        let length = bytes.len() as i32;
        proof {
            lemma_var_i32_round_trip(length, Seq::empty());
        }
        write_var_i32(length, stream);
        write_bytes(bytes, stream);
        assert(stream@ =~= old(stream)@ + (var_i32_bytes(length) + bytes@));
        Some(())
    }
}

impl FieldWriter for u16 {
    open spec fn encode(v: u16) -> Option<Seq<u8>> {
        Some(seq![(v / 256) as u8, (v % 256) as u8])
    }

    fn write(&self, stream: &mut Buffer) -> (r: Option<()>) {
        stream.write_byte((*self / 256) as u8);
        stream.write_byte((*self % 256) as u8);
        assert(stream@ =~= old(stream)@ + seq![(*self / 256) as u8, (*self % 256) as u8]);
        Some(())
    }
}

impl FieldWriter for bool {
    open spec fn encode(v: bool) -> Option<Seq<u8>> {
        Some(seq![if v { 1u8 } else { 0u8 }])
    }

    fn write(&self, stream: &mut Buffer) -> (r: Option<()>) {
        stream.write_byte(if *self { 1 } else { 0 });
        assert(stream@ =~= old(stream)@ + seq![if *self { 1u8 } else { 0u8 }]);
        Some(())
    }
}

impl FieldWriter for Uuid {
    open spec fn encode(v: Seq<u8>) -> Option<Seq<u8>> {
        Some(v)
    }

    fn write(&self, stream: &mut Buffer) -> (r: Option<()>) {
        write_bytes(self.bytes.as_slice(), stream);
        Some(())
    }
}

impl Buffer {
    /// Appends the encoding of `value`, or nothing when it has none.
    pub fn write_field<T: FieldWriter>(&mut self, value: &T) -> (r: Option<()>)
        requires
            old(self).wf(),
            fits_after(T::encode(value@), old(self)@),
        ensures
            write_outcome(r, old(self)@, final(self)@, T::encode(value@)),
            final(self).wf(),
    {
        value.write(self)
    }
}

/// For every string whose UTF-8 form is shorter than 2^31 bytes, decoding
/// its encoding, followed by any bytes, gives the string back and consumes
/// exactly the encoding.
pub proof fn lemma_string_round_trip(s: Seq<char>, rest: Seq<u8>)
    requires
        encode_utf8(s).len() < 0x8000_0000,
    ensures
        string_bytes(s) matches Some(b) && parse_string(b + rest) == Ok::<
            (Seq<char>, nat),
            ReadingError,
        >((s, b.len())),
{
    let body = encode_utf8(s);
    let len = body.len() as i32;
    let head = var_i32_bytes(len);
    let b = head + body;
    lemma_var_i32_round_trip(len, body + rest);
    assert(b + rest =~= head + (body + rest));
    assert((b + rest).subrange(head.len() as int, head.len() + len) =~= body);
    vstd::utf8::encode_utf8_valid_utf8(s);
    vstd::utf8::encode_utf8_decode_utf8(s);
}

/// `b` up to its first zero byte, or all of `b` when it has none.
pub open spec fn before_nul(b: Seq<u8>) -> Seq<u8>
    decreases b.len(),
{
    if b.len() == 0 {
        b
    } else if b[0] == 0 {
        Seq::empty()
    } else {
        seq![b[0]] + before_nul(b.drop_first())
    }
}

/// `value` cut at its first NUL character; all of it when it has none.
pub fn truncate_to_zero(value: &str) -> (r: &str)
    ensures
        r.spec_bytes() == before_nul(value.spec_bytes()),
{
    let bytes = value.as_bytes();
    let ghost b = bytes@;
    let mut index: usize = 0;
    assert(b.subrange(0, b.len() as int) =~= b);
    assert(b.subrange(0, 0) + before_nul(b) =~= before_nul(b));
    while index < bytes.len() && bytes[index] != 0
        invariant
            b == bytes@,
            index <= b.len(),
            forall|j: int| 0 <= j < index ==> b[j] != 0,
            before_nul(b) == b.subrange(0, index as int) + before_nul(
                b.subrange(index as int, b.len() as int),
            ),
        decreases b.len() - index,
    {
        let ghost tail = b.subrange(index as int, b.len() as int);
        assert(tail.drop_first() =~= b.subrange(index + 1, b.len() as int));
        assert(b.subrange(0, index + 1) =~= b.subrange(0, index as int) + seq![b[index as int]]);
        index = index + 1;
    }
    proof {
        let tail = b.subrange(index as int, b.len() as int);
        assert(before_nul(tail) =~= Seq::<u8>::empty());
        vstd::utf8::encode_utf8_valid_utf8(value@);
        vstd::utf8::is_char_boundary_start_end_of_seq(b);
        if index < b.len() {
            vstd::utf8::is_char_boundary_iff_not_is_continuation_byte(b, index as int);
        }
        assert(b.subrange(0, index as int) + Seq::<u8>::empty() =~= b.subrange(0, index as int));
    }
    let (head, _) = value.split_at(index);
    head
}

/// A string that is decoded, or found invalid, from some bytes is decoded
/// the same way whatever bytes come after them.
pub proof fn lemma_string_prefix_stable(b: Seq<u8>, more: Seq<u8>)
    requires
        parse_string(b) != Err::<(Seq<char>, nat), ReadingError>(ReadingError::Insufficient),
    ensures
        parse_string(b + more) == parse_string(b),
{
    lemma_var_i32_prefix_stable(b, more);
    if let Ok((len, n)) = parse_var_i32(b) {
        if len >= 0 && n + len <= b.len() {
            assert((b + more).subrange(n as int, n + len) =~= b.subrange(n as int, n + len));
        }
    }
}

/// The fixed-size fields (byte, bool, u16, UUID) read the same way whatever
/// bytes come after the ones they need.
pub proof fn lemma_fixed_fields_prefix_stable(b: Seq<u8>, more: Seq<u8>)
    ensures
        parse_byte(b) is Ok ==> parse_byte(b + more) == parse_byte(b),
        parse_bool(b) is Ok ==> parse_bool(b + more) == parse_bool(b),
        parse_u16(b) is Ok ==> parse_u16(b + more) == parse_u16(b),
        parse_uuid(b) != Err::<(Seq<u8>, nat), ReadingError>(ReadingError::Insufficient)
            ==> parse_uuid(b + more) == parse_uuid(b),
{
    if b.len() >= 2 {
        assert((b + more)[0] == b[0] && (b + more)[1] == b[1]);
    }
    if b.len() >= 16 {
        assert((b + more).subrange(0, 16) =~= b.subrange(0, 16));
    }
}

} // verus!
