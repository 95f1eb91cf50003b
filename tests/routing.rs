use mineginx::connection::{
    forward_step, plan_upstream, read_handshake_packet, ForwardAction, ForwardEvent, ForwardState,
};
use mineginx::packets::{HandshakeC2SPacket, MinecraftPacket};
use mineginx::routing::{find_upstream, names_match, MinecraftServerDescription, MineginxConfig};
use mineginx::serialization::truncate_to_zero;
use mineginx::stream::MinecraftStream;
use mineginx::upstream::{ResolvedUpstream, UpstreamCache};

#[test]
fn with_zero() {
    let actual = truncate_to_zero("hello\0world");
    assert_eq!(actual, "hello");
}

#[test]
fn without_zero() {
    let actual = truncate_to_zero("no-zero");
    assert_eq!(actual, "no-zero");
}

#[test]
fn regular_domain() {
    let actual = truncate_to_zero("folleach.net");
    assert_eq!(actual, "folleach.net");
}

#[test]
fn trailing_zeros() {
    let actual = truncate_to_zero("sinya.ru\0\0\0\0");
    assert_eq!(actual, "sinya.ru");
}

#[test]
fn emptry_string() {
    let actual = truncate_to_zero("");
    assert_eq!(actual, "");
}

#[test]
fn truncate_keeps_multibyte_text() {
    assert_eq!(truncate_to_zero("héllo\0FML\0"), "héllo");
    assert_eq!(truncate_to_zero("\0x"), "");
}

#[test]
fn virtual_host_with_trailing_dot_matches() {
    assert!(names_match("Example.com.", "example.com"));
    assert!(names_match("example.com", "EXAMPLE.COM..."));
    assert!(!names_match("example.com", "example.org"));
    assert!(!names_match("example.com", "example.co"));
    assert!(!names_match("exämple.com", "EXÄMPLE.com"));
}

fn server(listen: &str, names: &[&str], proxy_pass: &str, buffer_size: Option<u32>) -> MinecraftServerDescription {
    MinecraftServerDescription {
        listen: listen.to_string(),
        server_names: names.iter().map(|n| n.to_string()).collect(),
        proxy_pass: proxy_pass.to_string(),
        buffer_size,
    }
}

fn config() -> MineginxConfig {
    MineginxConfig {
        handshake_timeout_ms: None,
        servers: vec![
            server("0.0.0.0:25565", &["Example.com.", "play.example.com"], "10.0.0.1:25565", None),
            server("0.0.0.0:25565", &["example.com", "other.net"], "10.0.0.2:25565", Some(1024)),
        ],
    }
}

#[test]
fn first_matching_route_wins() {
    let config = config();
    let route = find_upstream("example.com", &config).unwrap();
    assert_eq!(route.proxy_pass, "10.0.0.1:25565");
    let route = find_upstream("OTHER.net\0FML\0", &config).unwrap();
    assert_eq!(route.proxy_pass, "10.0.0.2:25565");
    assert!(find_upstream("unknown.org", &config).is_none());
    assert!(find_upstream("", &config).is_none());
}

#[test]
fn timeout_and_buffer_defaults() {
    let mut config = config();
    assert_eq!(config.handshake_timeout(), 10000);
    config.handshake_timeout_ms = Some(250);
    assert_eq!(config.handshake_timeout(), 250);
    assert_eq!(config.servers[0].forward_buffer_size(), 8192);
    assert_eq!(config.servers[1].forward_buffer_size(), 1024);
}

#[test]
fn plan_replays_handshake_then_buffered_bytes() {
    let config = config();
    let mut bytes = vec![
        0x11, 0x00, 0x10, 0x0B, b'E', b'x', b'a', b'm', b'p', b'l', b'e', b'.', b'c', b'o', b'm',
        0x63, 0xDD, 0x02,
    ];
    bytes.extend_from_slice(&[0x01, 0x00, 0x42]);
    let mut stream = MinecraftStream::new(1024);
    let room = stream.reserve_for_read();
    assert!(bytes.len() <= room);
    stream.fill_buffer_from_source(&bytes, 0).unwrap();
    let handshake = read_handshake_packet(&mut stream).unwrap();
    assert_eq!(handshake.domain, "Example.com");
    let plan = plan_upstream(&handshake, &stream, &config).unwrap();
    assert_eq!(plan.proxy_pass, "10.0.0.1:25565");
    assert_eq!(plan.buffer_size, 8192);
    assert_eq!(plan.replay, bytes);
}

#[test]
fn plan_without_route_is_none() {
    let config = config();
    let stream = MinecraftStream::new(8);
    let handshake = HandshakeC2SPacket {
        protocol_version: 760,
        domain: "nowhere.example".to_string(),
        server_port: 25565,
        next_state: 2,
    };
    assert!(plan_upstream(&handshake, &stream, &config).is_none());
    let frame = MinecraftPacket::make_raw(0, &handshake).unwrap();
    assert_eq!(frame[0] as usize, frame.len() - 1);
}

#[test]
fn forwarding_copies_then_half_close_ends_both() {
    let a = ForwardState::Running;
    assert_eq!(forward_step(a, ForwardEvent::Received(10)), (ForwardState::Running, ForwardAction::Write(10)));
    assert_eq!(forward_step(a, ForwardEvent::Written), (ForwardState::Running, ForwardAction::Read));
    // one direction reads the end of its stream: it shuts its write half
    let (a, action) = forward_step(a, ForwardEvent::Received(0));
    assert_eq!((a, action), (ForwardState::Finished, ForwardAction::Shutdown));
    // the other ends at its next read, whatever that read meets
    for next in [ForwardEvent::PeerClosed, ForwardEvent::Received(0), ForwardEvent::Failed] {
        let (b, _) = forward_step(ForwardState::Running, next);
        assert_eq!(b, ForwardState::Finished);
        assert_eq!(forward_step(b, ForwardEvent::Received(5)), (ForwardState::Finished, ForwardAction::Stop));
    }
}

#[test]
fn upstream_cache_keeps_first_resolution() {
    let mut cache: UpstreamCache<u32> = UpstreamCache::new();
    let a = "10.0.0.1:25565".to_string();
    assert!(cache.get(&a).is_none());
    assert!(cache.insert(ResolvedUpstream { address: a.clone(), resolved: 7, buffer_size: None }));
    assert!(!cache.insert(ResolvedUpstream { address: a.clone(), resolved: 9, buffer_size: Some(1) }));
    assert_eq!(cache.len(), 1);
    assert_eq!(cache.get(&a).unwrap().resolved, 7);
    assert!(cache.insert(ResolvedUpstream { address: "b:1".to_string(), resolved: 3, buffer_size: Some(64) }));
    assert_eq!(cache.get(&"b:1".to_string()).unwrap().buffer_size, Some(64));
    assert_eq!(cache.len(), 2);
}
