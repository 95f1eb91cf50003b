use mineginx::buffer::Buffer;
use mineginx::connection::read_handshake_packet;
use mineginx::packets::{HandshakeC2SPacket, LoginC2SPacket, MinecraftPacket};
use mineginx::serialization::{FieldWriter, ReadingError, Uuid};
use mineginx::stream::{MinecraftStream, Signature};

/// Hands `bytes` to the stream in reads of at most `chunk` bytes.
fn feed(stream: &mut MinecraftStream, bytes: &[u8], chunk: usize) {
    let mut at = 0;
    while at < bytes.len() {
        let room = stream.reserve_for_read();
        let n = room.min(chunk).min(bytes.len() - at);
        assert!(stream.fill_buffer_from_source(&bytes[at..at + n], 0).is_ok());
        at += n;
    }
}

fn make_minecraft_stream(array: Vec<u8>) -> MinecraftStream {
    let mut stream = MinecraftStream::new(1024);
    feed(&mut stream, &array, 1024);
    stream
}

const HANDSHAKE: [u8; 10] = [
    0x09, // signature: packet length
    0x00, // signature: packet id
    0x10, // protocol version
    0x3, 0x6E, 0x65, 0x74, // domain string
    0xFF, 0xFF, // server port
    0x02, // next state
];

#[test]
fn read_handshake() {
    let mut minecraft = make_minecraft_stream(HANDSHAKE.to_vec());
    let handshake = minecraft.read_packet::<HandshakeC2SPacket>().unwrap();
    assert_eq!(handshake.protocol_version, 16);
    assert_eq!(handshake.domain, "net");
    assert_eq!(handshake.server_port, 65535);
    assert_eq!(handshake.next_state, 2);
    assert_eq!(minecraft.data_len(), 0);
}

#[test]
fn read_signature() {
    let array: Vec<u8> = vec![
        0x80, 0x01, // signature: packet length
        0x0B, // signature: packet id
    ];
    let mut minecraft = make_minecraft_stream(array);
    let signature = minecraft.read_signature().unwrap();
    assert_eq!(signature.length, 128);
    assert_eq!(signature.packet_id, 11);
}

fn write_then_read(packet: &HandshakeC2SPacket) -> HandshakeC2SPacket {
    let frame = MinecraftPacket::make_raw(0, packet).unwrap();
    let mut minecraft = make_minecraft_stream(frame);
    minecraft.read_packet::<HandshakeC2SPacket>().unwrap()
}

#[test]
fn write_packet() {
    let packet = write_then_read(&HandshakeC2SPacket {
        protocol_version: 16,
        domain: "net".to_owned(),
        server_port: 65535,
        next_state: 2,
    });
    assert_eq!(packet.protocol_version, 16);
    assert_eq!(packet.domain, "net");
    assert_eq!(packet.server_port, 65535);
    assert_eq!(packet.next_state, 2);
}

#[test]
fn write_packet_with_negative_protocol_version() {
    let packet = write_then_read(&HandshakeC2SPacket {
        protocol_version: -1,
        domain: "mc.kaydax.xyz".to_owned(),
        server_port: 25565,
        next_state: 1,
    });
    assert_eq!(packet.protocol_version, -1);
    assert_eq!(packet.domain, "mc.kaydax.xyz");
    assert_eq!(packet.server_port, 25565);
    assert_eq!(packet.next_state, 1);
}

#[test]
fn i32_write_and_read_large_negative() {
    let packet = write_then_read(&HandshakeC2SPacket {
        protocol_version: 1,
        domain: "mc.kaydax.xyz".to_owned(),
        server_port: 25565,
        next_state: -1599979007,
    });
    assert_eq!(packet.protocol_version, 1);
    assert_eq!(packet.domain, "mc.kaydax.xyz");
    assert_eq!(packet.server_port, 25565);
    assert_eq!(packet.next_state, -1599979007);
}

#[test]
fn make_raw_builds_the_exact_frame() {
    let frame = MinecraftPacket::make_raw(
        0,
        &HandshakeC2SPacket {
            protocol_version: 16,
            domain: "net".to_owned(),
            server_port: 65535,
            next_state: 2,
        },
    )
    .unwrap();
    assert_eq!(frame, HANDSHAKE.to_vec());
}

#[test]
fn handshake_end_to_end_through_proxy_reader() {
    let mut stream = make_minecraft_stream(HANDSHAKE.to_vec());
    let handshake = read_handshake_packet(&mut stream).unwrap();
    assert_eq!(handshake.protocol_version, 16);
    assert_eq!(handshake.domain, "net");
    assert_eq!(handshake.server_port, 65535);
    assert_eq!(handshake.next_state, 2);
    assert_eq!(stream.data_len(), 0);
}

#[test]
fn handshake_in_one_byte_reads() {
    let mut stream = MinecraftStream::new(4);
    let mut decoded = None;
    for (i, byte) in HANDSHAKE.iter().enumerate() {
        let room = stream.reserve_for_read();
        assert!(room > 0);
        stream.fill_buffer_from_source(&[*byte], 0).unwrap();
        match read_handshake_packet(&mut stream) {
            Ok(h) => {
                assert_eq!(i, HANDSHAKE.len() - 1);
                decoded = Some(h);
            }
            Err(e) => {
                assert_eq!(e, ReadingError::Insufficient);
                assert_eq!(stream.data_len(), i + 1);
            }
        }
    }
    let h = decoded.unwrap();
    assert_eq!(h.protocol_version, 16);
    assert_eq!(h.domain, "net");
    assert_eq!(h.server_port, 65535);
    assert_eq!(h.next_state, 2);
}

#[test]
fn read_packet_in_one_byte_reads() {
    let mut stream = MinecraftStream::new(0);
    let mut decoded = None;
    for byte in HANDSHAKE.iter() {
        stream.reserve_for_read();
        stream.fill_buffer_from_source(&[*byte], 0).unwrap();
        if let Ok(h) = stream.read_packet::<HandshakeC2SPacket>() {
            decoded = Some(h);
        }
    }
    let h = decoded.unwrap();
    assert_eq!((h.protocol_version, h.domain.as_str(), h.server_port, h.next_state), (16, "net", 65535, 2));
}

#[test]
fn insufficient_leaves_bytes_and_retry_succeeds() {
    let mut stream = make_minecraft_stream(HANDSHAKE[..6].to_vec());
    assert_eq!(stream.read_packet::<HandshakeC2SPacket>().err(), Some(ReadingError::Insufficient));
    assert_eq!(stream.data_len(), 6);
    assert_eq!(stream.take_buffer(), HANDSHAKE[..6].to_vec());
    feed(&mut stream, &HANDSHAKE[6..], 1024);
    let h = stream.read_packet::<HandshakeC2SPacket>().unwrap();
    assert_eq!(h.domain, "net");
}

#[test]
fn negative_signature_length_is_invalid() {
    // length -1, then a packet id
    let mut stream = make_minecraft_stream(vec![0xFF, 0xFF, 0xFF, 0xFF, 0x0F, 0x00]);
    assert_eq!(stream.read_signature(), Err(ReadingError::Invalid));
    assert_eq!(stream.data_len(), 6);
    // invalid even before the packet id arrives
    let mut stream = make_minecraft_stream(vec![0xFF, 0xFF, 0xFF, 0xFF, 0x0F]);
    assert_eq!(stream.read_signature(), Err(ReadingError::Invalid));
    let mut stream = make_minecraft_stream(vec![0xFF, 0xFF, 0xFF, 0xFF, 0x0F, 0x00]);
    assert_eq!(read_handshake_packet(&mut stream).err(), Some(ReadingError::Invalid));
}

#[test]
fn signature_needs_both_fields() {
    let mut stream = make_minecraft_stream(vec![0x80, 0x01]);
    assert_eq!(stream.read_signature(), Err(ReadingError::Insufficient));
    assert_eq!(stream.data_len(), 2);
}

#[test]
fn signature_write() {
    let mut buffer = Buffer::new(0);
    assert_eq!(Signature { length: 128, packet_id: 11 }.write(&mut buffer), Some(()));
    assert_eq!(buffer.take(), &[0x80, 0x01, 0x0B]);
    let mut buffer = Buffer::new(0);
    let too_long = Signature { length: (i32::MAX as usize) + 1, packet_id: 0 };
    assert_eq!(too_long.write(&mut buffer), None);
    assert!(buffer.take().is_empty());
}

#[test]
fn read_data_waits_for_the_declared_length() {
    let mut stream = make_minecraft_stream(HANDSHAKE[..8].to_vec());
    let signature = stream.read_signature().unwrap();
    assert_eq!(signature, Signature { length: 9, packet_id: 0 });
    assert_eq!(stream.read_data::<HandshakeC2SPacket>(signature).err(), Some(ReadingError::Insufficient));
    assert_eq!(stream.data_len(), 6);
    feed(&mut stream, &HANDSHAKE[8..], 1024);
    feed(&mut stream, &[0x01, 0x00], 1024);
    let h = stream.read_data::<HandshakeC2SPacket>(signature).unwrap();
    assert_eq!(h.next_state, 2);
    assert_eq!(stream.take_buffer(), vec![0x01, 0x00]);
}

#[test]
fn handshake_with_other_packet_id_is_invalid() {
    let mut bytes = HANDSHAKE.to_vec();
    bytes[1] = 0x01;
    let mut stream = make_minecraft_stream(bytes);
    assert_eq!(read_handshake_packet(&mut stream).err(), Some(ReadingError::Invalid));
}

#[test]
fn handshake_frame_too_short_for_its_fields_is_invalid() {
    // the frame says 4 bytes, the fields need 8
    let bytes = vec![0x04, 0x00, 0x10, 0x03, b'n', b'e', b't', 0xFF, 0xFF, 0x02];
    let mut stream = make_minecraft_stream(bytes);
    assert_eq!(read_handshake_packet(&mut stream).err(), Some(ReadingError::Invalid));
}

#[test]
fn bytes_after_handshake_stay_buffered() {
    let mut bytes = HANDSHAKE.to_vec();
    bytes.extend_from_slice(&[0x01, 0x00, 0xAA]);
    let mut stream = make_minecraft_stream(bytes);
    read_handshake_packet(&mut stream).unwrap();
    assert_eq!(stream.take_buffer(), vec![0x01, 0x00, 0xAA]);
}

#[test]
fn fill_compacts_then_grows() {
    let mut stream = MinecraftStream::new(4);
    assert_eq!(stream.reserve_for_read(), 4);
    assert_eq!(stream.fill_buffer_from_source(&[0x01, 0x02, 0x03, 0x04], 4), Ok(true));
    assert_eq!(stream.read_signature(), Ok(Signature { length: 1, packet_id: 2 }));
    assert_eq!(stream.get_position(), 2);
    // full: the two unread bytes move to the front
    assert_eq!(stream.reserve_for_read(), 2);
    assert_eq!(stream.get_position(), 0);
    assert_eq!(stream.fill_buffer_from_source(&[0x05, 0x06], 5), Ok(false));
    // full with nothing consumed: the array grows
    assert!(stream.reserve_for_read() > 0);
    assert_eq!(stream.fill_buffer_from_source(&[0x07], 5), Ok(true));
    assert_eq!(stream.take_buffer(), vec![0x03, 0x04, 0x05, 0x06, 0x07]);
}

#[test]
fn empty_read_means_closed() {
    let mut stream = make_minecraft_stream(vec![0x01]);
    stream.reserve_for_read();
    assert_eq!(stream.fill_buffer_from_source(&[], 0), Err(ReadingError::Closed));
    assert_eq!(stream.take_buffer(), vec![0x01]);
}

#[test]
fn read_field_on_stream() {
    let mut stream = make_minecraft_stream(vec![0xAC, 0x02, 0x03, b'n', b'e']);
    assert_eq!(stream.read_field::<i32>(), Ok(300));
    assert_eq!(stream.read_field::<String>(), Err(ReadingError::Insufficient));
    assert_eq!(stream.data_len(), 3);
}

#[test]
fn login_packet_decodes() {
    let raw: Vec<u8> = (0..16u8).collect();
    // length 22: packet id, name "bob", has_uuid, sixteen UUID bytes
    let mut bytes = vec![22, 0x00, 0x03, b'b', b'o', b'b', 0x01];
    bytes.extend_from_slice(&raw);
    let mut stream = make_minecraft_stream(bytes);
    let login = stream.read_packet::<LoginC2SPacket>().unwrap();
    assert_eq!(login.name, "bob");
    assert!(login.has_uuid);
    let mut expected = [0u8; 16];
    expected.copy_from_slice(&raw);
    assert_eq!(login.player_uuid, Uuid { bytes: expected });
}
