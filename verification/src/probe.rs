//! One probe of a peer as two state machines: the handshake, and the collection of what the
//! peer tells afterwards. The caller moves the bytes; what to send, when to stop and what was
//! learnt is decided here. The dialogue with a SOCKS5 proxy is here too.
use vstd::prelude::*;

use crate::addr::{IpAddr, Ipv4Addr, SocketAddr};
use crate::bytes::{be16, push_all, push_be16, WireError};
use crate::p2p::{
    addr_peers, addrv2_peers, build_getheaders, build_message, getheaders_payload, header_views,
    headers_of, message, no_address, parse_addr, parse_addrv2, parse_headers,
    parse_version_payload, peer_views, version_of, Peer, PeerHeader, PeerVersion, PeerVersionView,
    PeerView,
};
use crate::text::same_text;
use vstd::utf8::encode_utf8;

verus! {

/// Messages by their bytes.
pub open spec fn wire(v: Seq<Vec<u8>>) -> Seq<Seq<u8>> {
    v.map(|i: int, m: Vec<u8>| m@)
}

fn one(m: Vec<u8>) -> (r: Vec<Vec<u8>>)
    ensures
        wire(r@) == seq![m@],
{
    let mut r: Vec<Vec<u8>> = Vec::new();
    r.push(m);
    assert(wire(r@) =~= seq![m@]);
    r
}

fn none() -> (r: Vec<Vec<u8>>)
    ensures
        wire(r@) == Seq::<Seq<u8>>::empty(),
{
    let r: Vec<Vec<u8>> = Vec::new();
    assert(wire(r@) =~= Seq::<Seq<u8>>::empty());
    r
}

// ---- handshake ----------------------------------------------------------------------------

/// How many messages a handshake reads at most.
pub const HANDSHAKE_MESSAGES: u32 = 20;

/// A handshake in progress.
pub struct Handshake {
    /// How many messages may still be read.
    pub left: u32,
    /// What the peer said of itself, once it has.
    pub version: Option<PeerVersion>,
    /// Whether the peer has acknowledged us.
    pub got_verack: bool,
}

/// What the peer said of itself, by its view.
pub open spec fn said(v: Option<PeerVersion>) -> Option<PeerVersionView> {
    match v {
        Some(p) => Some(p@),
        None => None,
    }
}

/// The names of the messages that a handshake reacts to are different texts.
proof fn lemma_commands()
    ensures
        "version"@ != "verack"@,
        "version"@ != "ping"@,
        "verack"@ != "ping"@,
        "addr"@ != "addrv2"@,
        "addr"@ != "headers"@,
        "addr"@ != "ping"@,
        "addrv2"@ != "headers"@,
        "addrv2"@ != "ping"@,
        "headers"@ != "ping"@,
{
    reveal_strlit("version");
    reveal_strlit("verack");
    reveal_strlit("ping");
    reveal_strlit("addr");
    reveal_strlit("addrv2");
    reveal_strlit("headers");
    assert("version"@.len() == 7 && "verack"@.len() == 6 && "ping"@.len() == 4 && "addr"@.len() == 4
        && "addrv2"@.len() == 6 && "headers"@.len() == 7);
    assert("addr"@[0] != "ping"@[0]);
}

impl Handshake {
    /// Both sides have introduced themselves.
    pub open spec fn complete(self) -> bool {
        self.version.is_some() && self.got_verack
    }

    /// Whether another message is to be read.
    pub open spec fn open(self) -> bool {
        self.left > 0 && !self.complete()
    }

    /// The beginning of a handshake, right after our own `version` went out.
    pub fn new() -> (r: Handshake)
        ensures
            r.left == HANDSHAKE_MESSAGES,
            r.version.is_none(),
            !r.got_verack,
    {
        Handshake { left: HANDSHAKE_MESSAGES, version: None, got_verack: false }
    }

    /// Whether another message is to be read.
    pub fn wants_message(&self) -> (r: bool)
        ensures
            r == self.open(),
    {
        self.left > 0 && !(self.version.is_some() && self.got_verack)
    }

    /// Takes one message and says what to send in reply. The peer's `version` is answered with
    /// `sendaddrv2` and `verack`, in this order; a `ping` with a `pong` of the same payload;
    /// nothing else is answered. A `version` that cannot be read ends the handshake.
    pub fn on_message(&mut self, magic: [u8; 4], command: &str, payload: &[u8]) -> (r: Result<
        Vec<Vec<u8>>,
        WireError,
    >)
        requires
            old(self).open(),
        ensures
            final(self).left == old(self).left - 1,
            command@ == "version"@ ==> match version_of(payload@) {
                Ok(v) => said(final(self).version) == Some(v) && final(self).got_verack == old(self).got_verack && (r matches Ok(out) && wire(out@) == seq![
                    message(magic@, "sendaddrv2"@, Seq::empty()),
                    message(magic@, "verack"@, Seq::empty()),
                ]),
                Err(e) => r == Err::<Vec<Vec<u8>>, WireError>(e) && final(self).version == old(self).version && final(self).got_verack == old(self).got_verack,
            },
            command@ != "version"@ ==> final(self).version == old(self).version && r.is_ok(),
            command@ == "verack"@ ==> final(self).got_verack && (r matches Ok(out) && wire(out@)
                == Seq::<Seq<u8>>::empty()),
            command@ != "verack"@ ==> final(self).got_verack == old(self).got_verack,
            command@ == "ping"@ ==> (r matches Ok(out) && wire(out@) == seq![
                message(magic@, "pong"@, payload@),
            ]),
            command@ != "version"@ && command@ != "ping"@ ==> (r matches Ok(out) && wire(out@)
                == Seq::<Seq<u8>>::empty()),
    {
        proof {
            lemma_commands();
        }
        self.left = self.left - 1;
        let nothing: [u8; 0] = [];
        assert(nothing@ == Seq::<u8>::empty());
        if same_text(command, "version") {
            match parse_version_payload(payload) {
                Err(e) => {
                    return Err(e);
                },
                Ok(v) => {
                    self.version = Some(v);
                    let a = build_message(magic, "sendaddrv2", &nothing);
                    let b = build_message(magic, "verack", &nothing);
                    let mut out: Vec<Vec<u8>> = Vec::new();
                    out.push(a);
                    out.push(b);
                    assert(wire(out@) =~= seq![a@, b@]);
                    return Ok(out);
                },
            }
        }
        if same_text(command, "verack") {
            self.got_verack = true;
            return Ok(none());
        }
        if same_text(command, "ping") {
            return Ok(one(build_message(magic, "pong", payload)));
        }
        Ok(none())
    }
}

// ---- collection ---------------------------------------------------------------------------

/// How many discovered peers are enough.
pub const ENOUGH_PEERS: usize = 1000;

/// What a peer has told after the handshake.
pub struct Collection {
    pub discovered: Vec<Peer>,
    pub headers: Vec<PeerHeader>,
    /// Whether the headers came, or were not asked for.
    pub got_headers: bool,
}

/// The messages that open the collection: `getaddr`, and `getheaders` where there is a locator.
pub open spec fn opening(magic: Seq<u8>, locator: Seq<[u8; 32]>) -> Seq<Seq<u8>> {
    let ask = message(magic, "getaddr"@, Seq::empty());
    if locator.len() == 0 {
        seq![ask]
    } else {
        seq![ask, message(magic, "getheaders"@, getheaders_payload(locator))]
    }
}

/// The messages that open the collection.
pub fn opening_messages(magic: [u8; 4], locator: &[[u8; 32]]) -> (r: Vec<Vec<u8>>)
    ensures
        wire(r@) == opening(magic@, locator@),
{
    let nothing: [u8; 0] = [];
    assert(nothing@ == Seq::<u8>::empty());
    let ask = build_message(magic, "getaddr", &nothing);
    let mut r = one(ask);
    if locator.len() > 0 {
        let ghost was = r@;
        let m = build_getheaders(magic, locator);
        r.push(m);
        assert(wire(r@) =~= wire(was).push(m@));
        assert(wire(r@) =~= opening(magic@, locator@));
    }
    r
}

impl Collection {
    /// The beginning of a collection.
    pub fn new(want_headers: bool) -> (r: Collection)
        ensures
            peer_views(r.discovered@) == Seq::<PeerView>::empty(),
            header_views(r.headers@).len() == 0,
            r.got_headers == !want_headers,
    {
        let r = Collection {
            discovered: Vec::new(),
            headers: Vec::new(),
            got_headers: !want_headers,
        };
        assert(peer_views(r.discovered@) =~= Seq::<PeerView>::empty());
        r
    }

    /// Enough was learnt: the headers are there, and so are a thousand peers.
    pub fn done(&self) -> (r: bool)
        ensures
            r == (self.discovered@.len() >= ENOUGH_PEERS && self.got_headers),
    {
        self.discovered.len() >= ENOUGH_PEERS && self.got_headers
    }

    /// Takes one message and says what to send in reply. The peers of `addr` and `addrv2` are
    /// added in their order; the last `headers` counts; a `ping` is answered with a `pong` of
    /// the same payload.
    pub fn on_message(
        &mut self,
        magic: [u8; 4],
        default_port: u16,
        command: &str,
        payload: &[u8],
    ) -> (r: Vec<Vec<u8>>)
        ensures
            peer_views(final(self).discovered@) == peer_views(old(self).discovered@) + (if command@
                == "addr"@ {
                addr_peers(payload@, default_port)
            } else if command@ == "addrv2"@ {
                addrv2_peers(payload@, default_port)
            } else {
                Seq::empty()
            }),
            command@ == "headers"@ ==> final(self).got_headers && header_views(
                final(self).headers@,
            ) == headers_of(payload@),
            command@ != "headers"@ ==> final(self).got_headers == old(self).got_headers && final(self).headers == old(self).headers,
            command@ == "ping"@ ==> wire(r@) == seq![message(magic@, "pong"@, payload@)],
            command@ != "ping"@ ==> wire(r@) == Seq::<Seq<u8>>::empty(),
    {
        proof {
            lemma_commands();
        }
        let ghost was = self.discovered@;
        if same_text(command, "addr") {
            let mut found = parse_addr(payload, default_port);
            let ghost f = found@;
            self.discovered.append(&mut found);
            assert(peer_views(self.discovered@) =~= peer_views(was) + peer_views(f));
            return none();
        }
        if same_text(command, "addrv2") {
            let mut found = parse_addrv2(payload, default_port);
            let ghost f = found@;
            self.discovered.append(&mut found);
            assert(peer_views(self.discovered@) =~= peer_views(was) + peer_views(f));
            return none();
        }
        assert(peer_views(was) + Seq::<PeerView>::empty() =~= peer_views(was));
        if same_text(command, "headers") {
            self.headers = parse_headers(payload);
            self.got_headers = true;
            return none();
        }
        if same_text(command, "ping") {
            return one(build_message(magic, "pong", payload));
        }
        none()
    }
}

// ---- dialling -----------------------------------------------------------------------------

/// Time limits of a probe, in milliseconds.
#[derive(Clone, Copy, Debug, PartialEq, Eq, Structural)]
pub struct Timeouts {
    pub connect: u64,
    pub io: u64,
    pub collect: u64,
}

/// The greater of two numbers.
pub open spec fn at_least(a: u64, b: u64) -> u64 {
    if a < b {
        b
    } else {
        a
    }
}

fn greater(a: u64, b: u64) -> (r: u64)
    ensures
        r == at_least(a, b),
{
    if a < b {
        b
    } else {
        a
    }
}

/// The limits for a peer: circuits to onion services are slow to build, so these get at least
/// 20 s to connect, 20 s to read and write, and 8 s to answer.
pub fn timeouts_for(onion: bool, t: Timeouts) -> (r: Timeouts)
    ensures
        onion ==> r == (Timeouts {
            connect: at_least(t.connect, 20000),
            io: at_least(t.io, 20000),
            collect: at_least(t.collect, 8000),
        }),
        !onion ==> r == t,
{
    if onion {
        Timeouts {
            connect: greater(t.connect, 20000),
            io: greater(t.io, 20000),
            collect: greater(t.collect, 8000),
        }
    } else {
        t
    }
}

/// The longest a read may take while collecting: not beyond the collection window.
pub fn collect_read_timeout(t: Timeouts) -> (r: u64)
    ensures
        r == t.io || r == t.collect,
        r <= t.io,
        r <= t.collect,
{
    if t.io < t.collect {
        t.io
    } else {
        t.collect
    }
}

/// How to reach a peer.
pub enum Dial {
    /// Straight to this socket.
    Direct(SocketAddr),
    /// Through this proxy, to this host and port.
    Proxy(SocketAddr, String, u16),
    /// An onion peer, and there is no proxy.
    NeedsProxy,
}

/// How to reach `peer`, and the address and port to name in the `version` message: an onion
/// peer has no address to name.
pub fn dial(peer: &Peer, tor_proxy: Option<SocketAddr>) -> (r: (Dial, IpAddr, u16))
    ensures
        match *peer {
            Peer::Clearnet(sa) => r == (Dial::Direct(sa), sa.ip_addr(), sa.port_number()),
            Peer::Onion(host, port) => r.1 == no_address() && r.2 == port && (match tor_proxy {
                Some(proxy) => r.0 matches Dial::Proxy(x, h, q) && x == proxy && h@ == host@ && q
                    == port,
                None => r.0 is NeedsProxy,
            }),
        },
{
    match peer {
        Peer::Clearnet(sa) => (Dial::Direct(*sa), sa.ip(), sa.port()),
        Peer::Onion(host, port) => {
            let unspecified = IpAddr::V4(Ipv4Addr { a: 0, b: 0, c: 0, d: 0 });
            match tor_proxy {
                Some(proxy) => (Dial::Proxy(proxy, host.clone(), *port), unspecified, *port),
                None => (Dial::NeedsProxy, unspecified, *port),
            }
        },
    }
}

/// The greeting to a SOCKS5 proxy: version 5, one method, no authentication.
pub fn socks5_greeting() -> (r: [u8; 3])
    ensures
        r@ == seq![5u8, 1, 0],
{
    let r: [u8; 3] = [5, 1, 0];
    assert(r@ == seq![5u8, 1, 0]);
    r
}

/// Whether the proxy accepts to go without authentication.
pub fn socks5_accepts(greet: &[u8; 2]) -> (r: bool)
    ensures
        r == (greet@ == seq![5u8, 0]),
{
    let r = greet[0] == 5 && greet[1] == 0;
    proof {
        if r {
            assert(greet@ == seq![5u8, 0]);
        }
    }
    r
}

/// The request to connect to `host` by name: at most 255 bytes of it, then the port.
pub fn socks5_request(host: &str, port: u16) -> (r: Option<Vec<u8>>)
    ensures
        match r {
            Some(v) => encode_utf8(host@).len() <= 255 && v@ == seq![
                5u8,
                1,
                0,
                3,
                encode_utf8(host@).len() as u8,
            ] + encode_utf8(host@) + be16(port),
            None => encode_utf8(host@).len() > 255,
        },
{
    let name = host.as_bytes();
    if name.len() > 255 {
        return None;
    }
    let mut v: Vec<u8> = Vec::new();
    v.push(5);
    v.push(1);
    v.push(0);
    v.push(3);
    v.push(name.len() as u8);
    assert(v@ == seq![5u8, 1, 0, 3, name@.len() as u8]);
    push_all(&mut v, name);
    push_be16(&mut v, port);
    Some(v)
}

/// What follows the first four bytes of a proxy's reply.
#[derive(Clone, Copy, Debug, PartialEq, Eq, Structural)]
pub enum Socks5Rest {
    /// So many bytes: an address and a port.
    Bytes(usize),
    /// One byte with the length of a name, then the name and a port.
    LengthFirst,
    /// Nothing: the proxy could not connect, for this reason.
    Failed(u8),
    /// Nothing that can be read: this is no kind of address.
    UnknownAddress(u8),
}

/// Reads the first four bytes of a proxy's reply.
pub fn socks5_reply(head: &[u8; 4]) -> (r: Socks5Rest)
    ensures
        r == (if head@[1] != 0 {
            Socks5Rest::Failed(head@[1])
        } else if head@[3] == 1 {
            Socks5Rest::Bytes(6)
        } else if head@[3] == 4 {
            Socks5Rest::Bytes(18)
        } else if head@[3] == 3 {
            Socks5Rest::LengthFirst
        } else {
            Socks5Rest::UnknownAddress(head@[3])
        }),
{
    if head[1] != 0 {
        Socks5Rest::Failed(head[1])
    } else if head[3] == 1 {
        Socks5Rest::Bytes(6)
    } else if head[3] == 4 {
        Socks5Rest::Bytes(18)
    } else if head[3] == 3 {
        Socks5Rest::LengthFirst
    } else {
        Socks5Rest::UnknownAddress(head[3])
    }
}

/// How many bytes follow the length of a name in a proxy's reply: the name and a port.
pub fn socks5_name_rest(len: u8) -> (r: usize)
    ensures
        r == len + 2,
{
    len as usize + 2
}

/// Behind the handshake a peer is asked for addresses, and for headers where the crawl has a
/// locator.
pub proof fn law_opening(magic: Seq<u8>, locator: Seq<[u8; 32]>)
    ensures
        opening(magic, locator).len() == (if locator.len() == 0 {
            1int
        } else {
            2int
        }),
        opening(magic, locator)[0] == message(magic, "getaddr"@, Seq::empty()),
        locator.len() > 0 ==> opening(magic, locator)[1] == message(
            magic,
            "getheaders"@,
            getheaders_payload(locator),
        ),
{
}

/// The greater of two times; a handshake takes twenty messages, and a thousand peers are enough.
pub proof fn law_limits(a: u64, b: u64)
    ensures
        at_least(a, b) >= a && at_least(a, b) >= b,
        at_least(a, b) == a || at_least(a, b) == b,
        HANDSHAKE_MESSAGES == 20,
        ENOUGH_PEERS == 1000,
{
}

/// A handshake is complete once the version and the acknowledgement have both come, in either
/// order, and no more messages are wanted then.
pub proof fn law_handshake_is_complete(h: Handshake)
    ensures
        h.complete() <==> h.version.is_some() && h.got_verack,
        h.complete() ==> !h.open(),
        h.left == 0 ==> !h.open(),
        h.left > 0 && !h.got_verack ==> h.open(),
        h.left > 0 && h.version.is_none() ==> h.open(),
{
}

} // verus!
