use mineginx::buffer::Buffer;
use mineginx::serialization::{
    read_byte, read_string, read_var_i32, FieldReader, FieldWriter, ReadingError, SlicedStream,
    Uuid,
};

#[test]
fn bool_write_true() {
    let mut buffer = Buffer::new(1024);
    true.write(&mut buffer);
    assert_eq!(buffer.take()[0], 1);
}

#[test]
fn bool_write_false() {
    let mut buffer = Buffer::new(1024);
    false.write(&mut buffer);
    assert_eq!(buffer.take()[0], 0);
}

#[test]
fn i32_write_positive() {
    let mut buffer = Buffer::new(1024);
    300.write(&mut buffer);
    let bytes = buffer.take();
    // 300 in VarInt: 0xAC 0x02
    assert_eq!(bytes, &[0xAC, 0x02]);
}

#[test]
fn i32_write_negative_one() {
    let mut buffer = Buffer::new(1024);
    (-1_i32).write(&mut buffer);
    let bytes = buffer.take();
    assert_eq!(bytes.len(), 5);
    assert_eq!(bytes, &[0xFF, 0xFF, 0xFF, 0xFF, 0x0F]);
}

#[test]
fn i32_write_zero() {
    let mut buffer = Buffer::new(1024);
    0.write(&mut buffer);
    let bytes = buffer.take();
    assert_eq!(bytes, &[0x00]);
}

fn encode_i32(v: i32) -> Vec<u8> {
    let mut buffer = Buffer::new(8);
    v.write(&mut buffer);
    buffer.take().to_vec()
}

fn decode_i32(bytes: &[u8]) -> (Result<i32, ReadingError>, usize) {
    let mut slice = SlicedStream::new(bytes);
    let r = read_var_i32(&mut slice);
    (r, slice.get_position())
}

#[test]
fn var_i32_round_trip_on_edges() {
    for v in [0, 1, 127, 128, 255, 300, 25565, -1, -2, i32::MAX, i32::MIN, -1599979007] {
        let bytes = encode_i32(v);
        assert!(!bytes.is_empty() && bytes.len() <= 5);
        assert_eq!(decode_i32(&bytes), (Ok(v), bytes.len()));
    }
}

#[test]
fn var_i32_exact_encodings() {
    assert_eq!(encode_i32(127), vec![0x7F]);
    assert_eq!(encode_i32(128), vec![0x80, 0x01]);
    assert_eq!(encode_i32(i32::MAX), vec![0xFF, 0xFF, 0xFF, 0xFF, 0x07]);
    assert_eq!(encode_i32(i32::MIN), vec![0x80, 0x80, 0x80, 0x80, 0x08]);
}

#[test]
fn var_i32_decode_errors() {
    assert_eq!(decode_i32(&[]), (Err(ReadingError::Insufficient), 0));
    assert_eq!(decode_i32(&[0x80, 0x80]), (Err(ReadingError::Insufficient), 0));
    assert_eq!(decode_i32(&[0xFF, 0xFF, 0xFF, 0xFF, 0xFF, 0x01]), (Err(ReadingError::Invalid), 0));
    // a sixth byte is never looked at: the fifth one already continues
    assert_eq!(decode_i32(&[0x80, 0x80, 0x80, 0x80, 0x80]), (Err(ReadingError::Invalid), 0));
}

#[test]
fn var_i32_decode_leaves_following_bytes() {
    assert_eq!(decode_i32(&[0xAC, 0x02, 0x07]), (Ok(300), 2));
}

fn encode_string(s: &str) -> Vec<u8> {
    let mut buffer = Buffer::new(0);
    assert_eq!(s.to_string().write(&mut buffer), Some(()));
    buffer.take().to_vec()
}

#[test]
fn string_round_trip() {
    for s in ["", "net", "mc.kaydax.xyz", "héllo wörld ✓ 🎮", "a\0b"] {
        let bytes = encode_string(s);
        let mut slice = SlicedStream::new(&bytes);
        assert_eq!(read_string(&mut slice), Ok(s.to_string()));
        assert_eq!(slice.remain_len(), 0);
    }
}

#[test]
fn string_encoding_is_length_then_utf8() {
    assert_eq!(encode_string("net"), vec![0x03, b'n', b'e', b't']);
    assert_eq!(encode_string("é"), vec![0x02, 0xC3, 0xA9]);
}

#[test]
fn string_decode_errors_leave_cursor() {
    // declared length longer than what is there
    let bytes = [0x05, b'a', b'b'];
    let mut slice = SlicedStream::new(&bytes);
    assert_eq!(read_string(&mut slice), Err(ReadingError::Insufficient));
    assert_eq!(slice.get_position(), 0);
    // malformed UTF-8 is never a string
    let bytes = [0x02, 0xC3, 0x28];
    let mut slice = SlicedStream::new(&bytes);
    assert_eq!(read_string(&mut slice), Err(ReadingError::Invalid));
    assert_eq!(slice.get_position(), 0);
    // a negative length is never a string
    let bytes = [0xFF, 0xFF, 0xFF, 0xFF, 0x0F, b'a'];
    let mut slice = SlicedStream::new(&bytes);
    assert_eq!(read_string(&mut slice), Err(ReadingError::Invalid));
    assert_eq!(slice.get_position(), 0);
}

#[test]
fn u16_is_big_endian() {
    let mut buffer = Buffer::new(2);
    25565_u16.write(&mut buffer);
    assert_eq!(buffer.take(), &[0x63, 0xDD]);
    let bytes = buffer.take().to_vec();
    let mut slice = SlicedStream::new(&bytes);
    assert_eq!(u16::read(&mut slice), Ok(25565));
    let short = [0x63];
    let mut slice = SlicedStream::new(&short);
    assert_eq!(u16::read(&mut slice), Err(ReadingError::Insufficient));
    assert_eq!(slice.get_position(), 0);
}

#[test]
fn bool_and_byte_reads() {
    let bytes = [0x00, 0x02];
    let mut slice = SlicedStream::new(&bytes);
    assert_eq!(bool::read(&mut slice), Ok(false));
    assert_eq!(bool::read(&mut slice), Ok(true));
    assert_eq!(bool::read(&mut slice), Err(ReadingError::Insufficient));
    let mut slice = SlicedStream::new(&bytes);
    assert_eq!(read_byte(&mut slice), Ok(0));
    assert_eq!(read_byte(&mut slice), Ok(2));
    assert_eq!(read_byte(&mut slice), Err(ReadingError::Insufficient));
}

#[test]
fn uuid_round_trip() {
    let mut raw = [0u8; 16];
    for (i, b) in raw.iter_mut().enumerate() {
        *b = (i as u8) * 17;
    }
    let id = Uuid { bytes: raw };
    let mut buffer = Buffer::new(4);
    id.write(&mut buffer);
    assert_eq!(buffer.take(), &raw);
    let bytes = buffer.take().to_vec();
    let mut slice = SlicedStream::new(&bytes);
    assert_eq!(Uuid::read(&mut slice), Ok(id));
    let mut slice = SlicedStream::new(&bytes[..15]);
    assert_eq!(Uuid::read(&mut slice), Err(ReadingError::Insufficient));
}

#[test]
fn buffer_grows_from_empty_and_resets() {
    let mut buffer = Buffer::new(0);
    for i in 0..100u8 {
        buffer.write_byte(i);
    }
    assert_eq!(buffer.take().len(), 100);
    assert_eq!(buffer.take()[99], 99);
    buffer.reset();
    assert!(buffer.take().is_empty());
    buffer.write_byte(7);
    assert_eq!(buffer.take(), &[7]);
}

#[test]
fn sliced_stream_take() {
    let bytes = [1u8, 2, 3, 4];
    let mut slice = SlicedStream::new(&bytes);
    assert_eq!(slice.take(3), &[1, 2, 3]);
    assert_eq!(slice.remain_len(), 1);
    assert_eq!(slice.get_position(), 3);
}
