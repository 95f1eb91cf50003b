use vstd::prelude::*;
use vstd::string::StringSliceAdditionalSpecFns;
use vstd::utf8::encode_utf8;

use crate::serialization::{before_nul, truncate_to_zero};

verus! {

/// One route: where to listen, the virtual-host names it accepts, and the
/// backend to forward to, with an optional forward buffer size.
#[derive(Debug, PartialEq)]
pub struct MinecraftServerDescription {
    pub listen: String,
    pub server_names: Vec<String>,
    pub proxy_pass: String,
    pub buffer_size: Option<u32>,
}

/// The routes, in the order in which they are tried, and the handshake timeout.
#[derive(Debug, PartialEq)]
pub struct MineginxConfig {
    pub handshake_timeout_ms: Option<u64>,
    pub servers: Vec<MinecraftServerDescription>,
}

/// How long a client may take over its handshake when the configuration sets no limit.
pub const DEFAULT_HANDSHAKE_TIMEOUT_MS: u64 = 10000;

/// The size of each forwarding buffer when the route sets none.
pub const DEFAULT_FORWARD_BUFFER_SIZE: usize = 8192;

impl MineginxConfig {
    /// The handshake timeout in milliseconds.
    pub fn handshake_timeout(&self) -> (r: u64)
        ensures
            r == match self.handshake_timeout_ms {
                Some(ms) => ms,
                None => DEFAULT_HANDSHAKE_TIMEOUT_MS,
            },
    {
        match self.handshake_timeout_ms {
            Some(ms) => ms,
            None => DEFAULT_HANDSHAKE_TIMEOUT_MS,
        }
    }
}

impl MinecraftServerDescription {
    /// The size of each forwarding buffer for this route.
    pub fn forward_buffer_size(&self) -> (r: usize)
        ensures
            r == match self.buffer_size {
                Some(n) => n as usize,
                None => DEFAULT_FORWARD_BUFFER_SIZE,
            },
    {
        match self.buffer_size {
            Some(n) => n as usize,
            None => DEFAULT_FORWARD_BUFFER_SIZE,
        }
    }
}

/// An ASCII letter folded to lower case; any other byte unchanged.
pub open spec fn ascii_lower(b: u8) -> u8 {
    if 65 <= b <= 90 {
        (b + 32) as u8
    } else {
        b
    }
}

/// `b` without its trailing dots.
pub open spec fn without_trailing_dots(b: Seq<u8>) -> Seq<u8>
    decreases b.len(),
{
    if b.len() > 0 && b.last() == 0x2e {
        without_trailing_dots(b.drop_last())
    } else {
        b
    }
}

/// The form in which host names are compared: trailing dots dropped, ASCII
/// letters in lower case.
pub open spec fn host_key(b: Seq<u8>) -> Seq<u8> {
    without_trailing_dots(b).map_values(|x: u8| ascii_lower(x))
}

/// Whether the host name `name` stands for the domain `domain` (both UTF-8).
pub open spec fn host_matches(name: Seq<u8>, domain: Seq<u8>) -> bool {
    host_key(name) == host_key(domain)
}

/// Whether the route accepts the domain `domain` under one of its names.
pub open spec fn accepts(server: MinecraftServerDescription, domain: Seq<u8>) -> bool {
    exists|j: int|
        0 <= j < server.server_names@.len() && host_matches(
            encode_utf8(#[trigger] server.server_names@[j]@),
            domain,
        )
}

fn ascii_lower_byte(b: u8) -> (r: u8)
    ensures
        r == ascii_lower(b),
{
    if 65 <= b && b <= 90 {
        b + 32
    } else {
        b
    }
}

/// The length of `b` once its trailing dots are dropped.
fn length_without_trailing_dots(b: &[u8]) -> (n: usize)
    ensures
        n <= b@.len(),
        without_trailing_dots(b@) == b@.subrange(0, n as int),
{
    let mut n = b.len();
    assert(b@.subrange(0, n as int) =~= b@);
    while n > 0 && b[n - 1] == 0x2e
        invariant
            n <= b@.len(),
            without_trailing_dots(b@) == without_trailing_dots(b@.subrange(0, n as int)),
        decreases n,
    {
        assert(b@.subrange(0, n as int).drop_last() =~= b@.subrange(0, n - 1));
        n = n - 1;
    }
    n
}

/// Whether the configured host name `name` stands for the observed `domain`:
/// trailing dots do not count, nor does the case of ASCII letters.
pub fn names_match(name: &str, domain: &str) -> (r: bool)
    ensures
        r == host_matches(name.spec_bytes(), domain.spec_bytes()),
{
    let a = name.as_bytes();
    let b = domain.as_bytes();
    let la = length_without_trailing_dots(a);
    let lb = length_without_trailing_dots(b);
    let ghost ka = host_key(a@);
    let ghost kb = host_key(b@);
    if la != lb {
        assert(ka.len() != kb.len());
        return false;
    }
    let mut i: usize = 0;
    while i < la
        invariant
            a@ == name.spec_bytes(),
            b@ == domain.spec_bytes(),
            ka == host_key(a@),
            kb == host_key(b@),
            la == lb,
            la <= a@.len(),
            lb <= b@.len(),
            ka.len() == la,
            kb.len() == lb,
            ka == a@.subrange(0, la as int).map_values(|x: u8| ascii_lower(x)),
            kb == b@.subrange(0, lb as int).map_values(|x: u8| ascii_lower(x)),
            i <= la,
            forall|j: int| 0 <= j < i ==> ka[j] == kb[j],
        decreases la - i,
    {
        if ascii_lower_byte(a[i]) != ascii_lower_byte(b[i]) {
            assert(ka[i as int] != kb[i as int]);
            assert(ka != kb);
            return false;
        }
        i = i + 1;
    }
    assert(ka =~= kb);
    true
}

/// Whether one of the names of `server` stands for `domain`.
fn server_accepts(server: &MinecraftServerDescription, domain: &str) -> (r: bool)
    ensures
        r == accepts(*server, domain.spec_bytes()),
{
    let mut j: usize = 0;
    while j < server.server_names.len()
        invariant
            j <= server.server_names@.len(),
            forall|k: int|
                0 <= k < j ==> !host_matches(
                    encode_utf8(#[trigger] server.server_names@[k]@),
                    domain.spec_bytes(),
                ),
        decreases server.server_names@.len() - j,
    {
        if names_match(server.server_names[j].as_str(), domain) {
            return true;
        }
        j = j + 1;
    }
    false
}

/// Route `i` is the first of the configuration that accepts `domain`.
pub open spec fn is_route_for(config: MineginxConfig, i: int, domain: Seq<u8>) -> bool {
    &&& 0 <= i < config.servers@.len()
    &&& accepts(config.servers@[i], domain)
    &&& forall|k: int| 0 <= k < i ==> !accepts(#[trigger] config.servers@[k], domain)
}

/// No route of the configuration accepts `domain`.
pub open spec fn no_route(config: MineginxConfig, domain: Seq<u8>) -> bool {
    forall|i: int|
        0 <= i < config.servers@.len() ==> !accepts(#[trigger] config.servers@[i], domain)
}

/// The route for the domain a client declared: the domain is cut at its
/// first NUL, and the first route with a name that stands for it wins.
pub fn find_upstream<'a>(domain: &str, config: &'a MineginxConfig) -> (r: Option<
    &'a MinecraftServerDescription,
>)
    ensures
        r is None <==> no_route(*config, before_nul(domain.spec_bytes())),
        r matches Some(s) ==> exists|i: int|
            is_route_for(*config, i, before_nul(domain.spec_bytes()))
                && #[trigger] config.servers@[i] == *s,
{
    let host = truncate_to_zero(domain);
    let mut i: usize = 0;
    while i < config.servers.len()
        invariant
            i <= config.servers@.len(),
            host.spec_bytes() == before_nul(domain.spec_bytes()),
            forall|k: int|
                0 <= k < i ==> !accepts(#[trigger] config.servers@[k], host.spec_bytes()),
        decreases config.servers@.len() - i,
    {
        let server = &config.servers[i];
        if server_accepts(server, host) {
            assert(config.servers@[i as int] == *server);
            assert(accepts(config.servers@[i as int], host.spec_bytes()));
            return Some(server);
        }
        i = i + 1;
    }
    None
}

} // verus!
