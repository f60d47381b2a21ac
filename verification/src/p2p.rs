//! The part of the Bitcoin wire protocol that a crawl needs: message framing, the `version`
//! message, `getheaders` / `headers`, and the addresses in `addr` and `addrv2`.
use vstd::prelude::*;

use crate::addr::{
    law_socket_text_read_back, socket_of, socket_text, IpAddr, Ipv4Addr, Ipv6Addr, SocketAddr,
};
use crate::bytes::{
    array32, be16, be16_value, from_be16, le_at, le_bytes, le_value, lemma_pow256, push_all,
    push_be16, push_le, read_varint, signed32, sub_bytes, to_signed32, to_unsigned32, unsigned32,
    varint, varint_at, write_varint, WireError,
};
use crate::hash::{double_sha256, double_sha256_of, sha3_256, sha3_256_digest};
use crate::number::{
    decimal, decimal_text, digit, digit_char, digit_value, parse_unsigned, unsigned_of,
};
use crate::text::{chars_of, ends_in, ends_with_text, joined, last_of, part, rfind_char, string_of};
use vstd::utf8::{decode_utf8, encode_utf8, valid_utf8};

verus! {

// ---- peers ------------------------------------------------------------------------------

/// A peer that can be dialled: a clearnet socket, or a Tor v3 onion service by host and port.
#[derive(Debug)]
pub enum Peer {
    Clearnet(SocketAddr),
    Onion(String, u16),
}

/// A peer, with its host name as a sequence of characters.
pub enum PeerView {
    Clearnet(SocketAddr),
    Onion(Seq<char>, u16),
}

impl View for Peer {
    type V = PeerView;

    open spec fn view(&self) -> PeerView {
        match *self {
            Peer::Clearnet(sa) => PeerView::Clearnet(sa),
            Peer::Onion(h, p) => PeerView::Onion(h@, p),
        }
    }
}

impl Clone for Peer {
    fn clone(&self) -> (r: Self)
        ensures
            r == *self,
    {
        match self {
            Peer::Clearnet(sa) => Peer::Clearnet(*sa),
            Peer::Onion(h, p) => Peer::Onion(h.clone(), *p),
        }
    }
}

/// The text of a peer, `host:port`.
pub open spec fn peer_text(p: PeerView) -> Seq<char> {
    match p {
        PeerView::Clearnet(sa) => socket_text(sa),
        PeerView::Onion(h, port) => h + seq![':'] + decimal(port as nat),
    }
}

/// The peer that `s` writes: a socket address, an `.onion` host with a port, or an `.onion`
/// host alone, which gets the default port.
pub open spec fn peer_of(s: Seq<char>, default_port: u16) -> Option<PeerView> {
    let i = last_of(s, ':');
    if socket_of(s).is_some() {
        Some(PeerView::Clearnet(socket_of(s).unwrap()))
    } else if i >= 0 && ends_in(s.take(i), ".onion"@) && unsigned_of(
        s.skip(i + 1),
        10,
        65535,
    ).is_some() {
        Some(PeerView::Onion(s.take(i), unsigned_of(s.skip(i + 1), 10, 65535).unwrap() as u16))
    } else if ends_in(s, ".onion"@) {
        Some(PeerView::Onion(s, default_port))
    } else {
        None
    }
}

/// A peer that text can stand for: an onion host ends in `.onion`.
pub open spec fn dialable(p: PeerView) -> bool {
    match p {
        PeerView::Clearnet(_) => true,
        PeerView::Onion(h, _) => ends_in(h, ".onion"@),
    }
}

impl Peer {
    /// Whether the peer is an onion service.
    pub open spec fn onion(self) -> bool {
        self is Onion
    }

    /// Whether the peer is an onion service.
    pub fn is_onion(&self) -> (r: bool)
        ensures
            r == self.onion(),
    {
        match self {
            Peer::Clearnet(_) => false,
            Peer::Onion(_, _) => true,
        }
    }

    /// Parses `ip:port`, `[ipv6]:port`, `*.onion:port` or `*.onion`.
    pub fn parse(s: &str, default_port: u16) -> (r: Option<Peer>)
        ensures
            match r {
                Some(p) => peer_of(s@, default_port) == Some(p@) && dialable(p@),
                None => peer_of(s@, default_port).is_none(),
            },
    {
        if let Some(sa) = SocketAddr::parse(s) {
            return Some(Peer::Clearnet(sa));
        }
        let x = chars_of(s);
        if let Some(i) = rfind_char(&x, ':') {
            let host = part(&x, 0, i);
            let tail = part(&x, i + 1, x.len());
            assert(host@ == s@.take(i as int));
            assert(tail@ == s@.skip(i + 1));
            let name = string_of(&host);
            if ends_with_text(name.as_str(), ".onion") {
                if let Some(p) = parse_unsigned(&tail, 10, 65535) {
                    return Some(Peer::Onion(name, p as u16));
                }
            }
        }
        if ends_with_text(s, ".onion") {
            return Some(Peer::Onion(s.to_owned(), default_port));
        }
        None
    }

    /// The text of the peer.
    pub fn to_string(&self) -> (r: String)
        ensures
            r@ == peer_text(self@),
    {
        match self {
            Peer::Clearnet(sa) => sa.to_text(),
            Peer::Onion(h, p) => {
                let mut r: String = h.clone();
                r.push(':');
                let d = decimal_text(*p as u64);
                r.append(d.as_str());
                assert(r@ == h@ + seq![':'] + decimal(*p as nat));
                r
            },
        }
    }
}

/// A socket address ends in a colon and decimal digits, with a digit or a bracket before the
/// colon.
proof fn lemma_socket_tail(s: Seq<char>)
    requires
        socket_of(s).is_some(),
    ensures
        last_of(s, ':') >= 1,
        digit_value(s[last_of(s, ':') - 1], 10).is_some() || s[last_of(s, ':') - 1] == ']',
{
    let p: int = match crate::addr::v4_at(s, 0) {
        Some((ip, e)) => e,
        None => {
            let (ip, e) = crate::addr::v6_at(s, 1).unwrap();
            crate::addr::scope_at(s, e).1 + 1
        },
    };
    let form = crate::addr::port_form();
    assert(crate::addr::port_tail(s, p).is_some());
    let (n, e) = crate::number::number_at(s, p + 1, form).unwrap();
    crate::number::lemma_run_end(s, p + 1, 10);
    assert forall|j: int| p < j < s.len() implies s[j] != ':' by {
        assert(digit_value(s[j], 10).is_some());
    }
    crate::text::lemma_last_of_is(s, ':', p);
    if crate::addr::v4_at(s, 0).is_some() {
        lemma_v4_ends_in_digit(s);
    }
}

proof fn lemma_v4_ends_in_digit(s: Seq<char>)
    requires
        crate::addr::v4_at(s, 0).is_some(),
    ensures
        1 <= crate::addr::v4_at(s, 0).unwrap().1 <= s.len(),
        digit_value(s[crate::addr::v4_at(s, 0).unwrap().1 - 1], 10).is_some(),
{
    let f = crate::addr::octet_form();
    crate::number::lemma_run_end(s, 0, 10);
    let (a, p1) = crate::number::number_at(s, 0, f).unwrap();
    crate::number::lemma_run_end(s, p1 + 1, 10);
    let (b, p2) = crate::number::number_at(s, p1 + 1, f).unwrap();
    crate::number::lemma_run_end(s, p2 + 1, 10);
    let (c, p3) = crate::number::number_at(s, p2 + 1, f).unwrap();
    crate::number::lemma_run_end(s, p3 + 1, 10);
}

/// Parsing the text of a peer gives the peer back, whatever the default port.
pub proof fn law_peer_text_read_back(p: PeerView, default_port: u16)
    requires
        dialable(p),
    ensures
        peer_of(peer_text(p), default_port) == Some(p),
{
    match p {
        PeerView::Clearnet(sa) => {
            law_socket_text_read_back(sa);
        },
        PeerView::Onion(h, port) => {
            let s = peer_text(p);
            let d = decimal(port as nat);
            let i = h.len() as int;
            reveal_strlit(".onion");
            assert(h.subrange(h.len() - 6, h.len() as int)[5] == 'n');
            assert(s[i - 1] == 'n');
            assert(s[i] == ':');
            crate::number::lemma_in_base(port as nat, 10);
            assert forall|j: int| i < j < s.len() implies s[j] != ':' by {
                assert(s[j] == d[j - i - 1]);
                assert(digit_value(d[j - i - 1], 10).is_some());
            }
            crate::text::lemma_last_of_is(s, ':', i);
            if socket_of(s).is_some() {
                lemma_socket_tail(s);
            }
            assert(s.take(i) == h);
            assert(s.skip(i + 1) == d);
            crate::number::law_decimal_read_back(port as u64, 65535);
        },
    }
}

/// Peers with the same text are the same peer.
pub proof fn law_peer_text_is_unique(a: PeerView, b: PeerView)
    requires
        dialable(a),
        dialable(b),
        peer_text(a) == peer_text(b),
    ensures
        a == b,
{
    law_peer_text_read_back(a, 0);
    law_peer_text_read_back(b, 0);
}

// ---- onion hosts ------------------------------------------------------------------------

/// Bit `j` of a byte, the most significant first.
pub open spec fn byte_bit(b: u8, j: int) -> int {
    let p: int = if j == 0 {
        128
    } else if j == 1 {
        64
    } else if j == 2 {
        32
    } else if j == 3 {
        16
    } else if j == 4 {
        8
    } else if j == 5 {
        4
    } else if j == 6 {
        2
    } else {
        1
    };
    (b as int / p) % 2
}

/// Bit `i` of `data`, the most significant first; zeros follow the last one.
pub open spec fn bit_of(data: Seq<u8>, i: int) -> int {
    if 0 <= i / 8 < data.len() {
        byte_bit(data[i / 8], i % 8)
    } else {
        0
    }
}

/// The character for five bits.
pub open spec fn base32_char(v: int) -> char {
    if v < 26 {
        (97 + v) as char
    } else {
        (24 + v) as char
    }
}

/// RFC 4648 base32 in lower case without padding: one character for every five bits.
pub open spec fn base32(data: Seq<u8>) -> Seq<char> {
    Seq::new(
        ((data.len() * 8 + 4) / 5) as nat,
        |k: int|
            base32_char(
                16 * bit_of(data, 5 * k) + 8 * bit_of(data, 5 * k + 1) + 4 * bit_of(
                    data,
                    5 * k + 2,
                ) + 2 * bit_of(data, 5 * k + 3) + bit_of(data, 5 * k + 4),
            ),
    )
}

/// Bit `i` of `data`.
pub fn bit_at(data: &[u8], i: u128) -> (r: u8)
    ensures
        r == bit_of(data@, i as int),
        r <= 1,
{
    let at: u128 = i / 8;
    if at >= data.len() as u128 {
        return 0;
    }
    let b: u8 = data[at as usize];
    let j: u128 = i % 8;
    let p: u8 = if j == 0 {
        128
    } else if j == 1 {
        64
    } else if j == 2 {
        32
    } else if j == 3 {
        16
    } else if j == 4 {
        8
    } else if j == 5 {
        4
    } else if j == 6 {
        2
    } else {
        1
    };
    (b / p) % 2
}

/// RFC 4648 base32 in lower case without padding.
pub fn base32_lower(data: &[u8]) -> (r: String)
    ensures
        r@ == base32(data@),
{
    let n: u128 = (data.len() as u128 * 8 + 4) / 5;
    let mut out: Vec<char> = Vec::new();
    let mut k: u128 = 0;
    while k < n
        invariant
            k <= n,
            n == (data@.len() * 8 + 4) / 5,
            n <= 0x2_0000_0000_0000_0000,
            out@.len() == k,
            forall|j: int| 0 <= j < k ==> out@[j] == #[trigger] base32(data@)[j],
        decreases n - k,
    {
        let v: u8 = 16 * bit_at(data, 5 * k) + 8 * bit_at(data, 5 * k + 1) + 4 * bit_at(
            data,
            5 * k + 2,
        ) + 2 * bit_at(data, 5 * k + 3) + bit_at(data, 5 * k + 4);
        let c: char = if v < 26 {
            (97 + v) as char
        } else {
            (24 + v) as char
        };
        assert(c == base32(data@)[k as int]);
        out.push(c);
        k = k + 1;
    }
    assert(out@ == base32(data@));
    string_of(&out)
}

/// What the checksum of an onion host is taken over.
pub open spec fn onion_checksum_input(pubkey: Seq<u8>) -> Seq<u8> {
    encode_utf8(".onion checksum"@) + pubkey + seq![3u8]
}

/// The host of a Tor v3 onion service: base32 of the key, two bytes of checksum and the
/// version, then `.onion`.
pub open spec fn onion_host(pubkey: Seq<u8>) -> Seq<char> {
    base32(pubkey + sha3_256(onion_checksum_input(pubkey)).take(2) + seq![3u8]) + ".onion"@
}

/// The host of the onion service with this ed25519 key; a key has 32 bytes.
pub fn onion_v3_host(pubkey: &[u8]) -> (r: Option<String>)
    ensures
        match r {
            Some(h) => pubkey.len() == 32 && h@ == onion_host(pubkey@),
            None => pubkey.len() != 32,
        },
{
    if pubkey.len() != 32 {
        return None;
    }
    let mut input: Vec<u8> = Vec::new();
    push_all(&mut input, ".onion checksum".as_bytes());
    push_all(&mut input, pubkey);
    input.push(3);
    assert(input@ == onion_checksum_input(pubkey@));
    let sum = sha3_256_digest(&input);
    let mut data: Vec<u8> = Vec::new();
    push_all(&mut data, pubkey);
    data.push(sum[0]);
    data.push(sum[1]);
    data.push(3);
    assert(data@ == pubkey@ + sum@.take(2) + seq![3u8]);
    let name = base32_lower(&data);
    Some(joined(name.as_str(), ".onion"))
}

// ---- networks ---------------------------------------------------------------------------

/// The magic bytes and the default port of a network.
#[derive(Clone, Copy, Debug)]
pub struct NetworkParams {
    pub magic: [u8; 4],
    pub default_port: u16,
    pub name: &'static str,
}

/// The name that a network goes by here, for each of the names that it may be called.
pub open spec fn network_name(name: Seq<char>) -> Option<Seq<char>> {
    if name == "main"@ || name == "mainnet"@ {
        Some("main"@)
    } else if name == "test"@ || name == "testnet"@ || name == "testnet3"@ {
        Some("test"@)
    } else if name == "signet"@ {
        Some("signet"@)
    } else if name == "regtest"@ {
        Some("regtest"@)
    } else {
        None
    }
}

/// The magic bytes of a network.
pub open spec fn network_magic(name: Seq<char>) -> Seq<u8> {
    if network_name(name) == Some("main"@) {
        seq![0xF9u8, 0xBE, 0xB4, 0xD9]
    } else if network_name(name) == Some("test"@) {
        seq![0x0Bu8, 0x11, 0x09, 0x07]
    } else if network_name(name) == Some("signet"@) {
        seq![0x0Au8, 0x03, 0xCF, 0x40]
    } else {
        seq![0xFAu8, 0xBF, 0xB5, 0xDA]
    }
}

/// The default port of a network.
pub open spec fn network_port(name: Seq<char>) -> u16 {
    if network_name(name) == Some("main"@) {
        8333
    } else if network_name(name) == Some("test"@) {
        18333
    } else if network_name(name) == Some("signet"@) {
        38333
    } else {
        18444
    }
}

/// The names of the networks are four different texts.
proof fn lemma_network_names()
    ensures
        "main"@ != "test"@,
        "main"@ != "signet"@,
        "main"@ != "regtest"@,
        "test"@ != "signet"@,
        "test"@ != "regtest"@,
        "signet"@ != "regtest"@,
{
    reveal_strlit("main");
    reveal_strlit("test");
    reveal_strlit("signet");
    reveal_strlit("regtest");
    assert("main"@[0] != "test"@[0]);
    assert("main"@.len() == 4 && "test"@.len() == 4 && "signet"@.len() == 6 && "regtest"@.len()
        == 7);
}

impl NetworkParams {
    /// The network that goes by `name`, or `None` where there is no such network.
    pub fn from_name(name: &str) -> (r: Option<NetworkParams>)
        ensures
            match r {
                Some(p) => network_name(name@) == Some(p.name@) && p.magic@ == network_magic(name@)
                    && p.default_port == network_port(name@),
                None => network_name(name@).is_none(),
            },
    {
        proof {
            lemma_network_names();
        }
        if crate::text::same_text(name, "main") || crate::text::same_text(name, "mainnet") {
            let p = NetworkParams {
                magic: [0xF9, 0xBE, 0xB4, 0xD9],
                default_port: 8333,
                name: "main",
            };
            assert(p.magic@ == network_magic(name@));
            Some(p)
        } else if crate::text::same_text(name, "test") || crate::text::same_text(name, "testnet")
            || crate::text::same_text(name, "testnet3") {
            let p = NetworkParams {
                magic: [0x0B, 0x11, 0x09, 0x07],
                default_port: 18333,
                name: "test",
            };
            assert(p.magic@ == network_magic(name@));
            Some(p)
        } else if crate::text::same_text(name, "signet") {
            let p = NetworkParams {
                magic: [0x0A, 0x03, 0xCF, 0x40],
                default_port: 38333,
                name: "signet",
            };
            assert(p.magic@ == network_magic(name@));
            Some(p)
        } else if crate::text::same_text(name, "regtest") {
            let p = NetworkParams {
                magic: [0xFA, 0xBF, 0xB5, 0xDA],
                default_port: 18444,
                name: "regtest",
            };
            assert(p.magic@ == network_magic(name@));
            Some(p)
        } else {
            None
        }
    }
}

// ---- block hashes and headers -----------------------------------------------------------

/// One block header as a peer reported it.
#[derive(Clone, Copy, Debug)]
pub struct PeerHeader {
    /// The block's own hash, in internal byte order.
    pub hash: [u8; 32],
    /// Its parent's hash.
    pub prev: [u8; 32],
}

/// A header by the bytes of its two hashes.
#[verifier::ext_equal]
pub struct HeaderView {
    pub hash: Seq<u8>,
    pub prev: Seq<u8>,
}

impl View for PeerHeader {
    type V = HeaderView;

    open spec fn view(&self) -> HeaderView {
        HeaderView { hash: self.hash@, prev: self.prev@ }
    }
}

/// The first hexadecimal digit of a byte.
pub open spec fn hex_high(b: u8) -> char {
    digit((b / 16) as nat)
}

/// The second hexadecimal digit of a byte.
pub open spec fn hex_low(b: u8) -> char {
    digit((b % 16) as nat)
}

/// The hexadecimal text of `h` with its bytes in reverse order, as block hashes are shown.
pub open spec fn reversed_hex(h: Seq<u8>) -> Seq<char> {
    Seq::new(
        2 * h.len(),
        |i: int|
            if i % 2 == 0 {
                hex_high(h[h.len() - 1 - i / 2])
            } else {
                hex_low(h[h.len() - 1 - i / 2])
            },
    )
}

/// The text of a block hash.
pub fn hash_hex(h: &[u8; 32]) -> (r: String)
    ensures
        r@ == reversed_hex(h@),
{
    let mut out: Vec<char> = Vec::new();
    let mut i: usize = 0;
    while i < 32
        invariant
            i <= 32,
            h@.len() == 32,
            out@.len() == 2 * i,
            forall|j: int| 0 <= j < 2 * i ==> out@[j] == #[trigger] reversed_hex(h@)[j],
        decreases 32 - i,
    {
        let b: u8 = h[31 - i];
        out.push(digit_char((b / 16) as u32));
        out.push(digit_char((b % 16) as u32));
        assert(out@[2 * i as int] == reversed_hex(h@)[2 * i as int]);
        assert(out@[2 * i + 1] == reversed_hex(h@)[2 * i + 1]);
        i = i + 1;
    }
    assert(out@ == reversed_hex(h@));
    string_of(&out)
}

proof fn lemma_same_digits(x: u8, y: u8)
    requires
        hex_high(x) == hex_high(y),
        hex_low(x) == hex_low(y),
    ensures
        x == y,
{
    assert(x / 16 == y / 16);
    assert(x % 16 == y % 16);
}

/// Two block hashes with the same text are the same hash.
pub proof fn law_hash_text_is_unique(a: Seq<u8>, b: Seq<u8>)
    requires
        reversed_hex(a) == reversed_hex(b),
    ensures
        a == b,
{
    assert(reversed_hex(a).len() == 2 * a.len());
    assert(reversed_hex(b).len() == 2 * b.len());
    assert(a.len() == b.len());
    assert forall|k: int| 0 <= k < a.len() implies a[k] == b[k] by {
        let i = 2 * (a.len() - 1 - k);
        assert(i % 2 == 0 && (i + 1) % 2 == 1);
        assert(a.len() - 1 - i / 2 == k);
        assert(a.len() - 1 - (i + 1) / 2 == k);
        assert(reversed_hex(a)[i] == hex_high(a[k]));
        assert(reversed_hex(b)[i] == hex_high(b[k]));
        assert(reversed_hex(a)[i + 1] == hex_low(a[k]));
        assert(reversed_hex(b)[i + 1] == hex_low(b[k]));
        lemma_same_digits(a[k], b[k]);
    }
    assert(a == b);
}

/// The hash of a block, from its 80-byte header.
pub fn block_hash(header80: &[u8]) -> (r: [u8; 32])
    ensures
        r@ == double_sha256(header80@),
{
    double_sha256_of(header80)
}

/// The headers that `d` holds from `pos` on, at most `count` of them: 80 bytes each, then a
/// transaction count. Reading stops where the bytes end.
pub open spec fn headers_from(d: Seq<u8>, pos: int, count: nat) -> Seq<HeaderView>
    decreases count,
{
    if count == 0 || pos + 80 > d.len() {
        Seq::empty()
    } else {
        let one = HeaderView {
            hash: double_sha256(d.subrange(pos, pos + 80)),
            prev: d.subrange(pos + 4, pos + 36),
        };
        match varint_at(d, pos + 80) {
            Some((n, p)) => seq![one] + headers_from(d, p, (count - 1) as nat),
            None => seq![one],
        }
    }
}

/// The lesser of two numbers.
pub open spec fn lesser(a: int, b: int) -> int {
    if a < b {
        a
    } else {
        b
    }
}

/// The headers in a `headers` payload: a count, of which at most 2000 are read, then the
/// headers.
pub open spec fn headers_of(d: Seq<u8>) -> Seq<HeaderView> {
    match varint_at(d, 0) {
        Some((n, p)) => headers_from(d, p, lesser(n as int, 2000) as nat),
        None => Seq::empty(),
    }
}

/// The views of headers.
pub open spec fn header_views(v: Seq<PeerHeader>) -> Seq<HeaderView> {
    v.map(|i: int, h: PeerHeader| h@)
}

/// Parses a `headers` payload.
pub fn parse_headers(payload: &[u8]) -> (r: Vec<PeerHeader>)
    ensures
        header_views(r@) == headers_of(payload@),
{
    let mut out: Vec<PeerHeader> = Vec::new();
    let mut pos: usize = 0;
    let count: u64 = match read_varint(payload, &mut pos) {
        Ok(c) => if c < 2000 {
            c
        } else {
            2000
        },
        Err(_) => {
            assert(header_views(out@) == headers_of(payload@));
            return out;
        },
    };
    let mut left: u64 = count;
    assert(header_views(out@) + headers_from(payload@, pos as int, left as nat) == headers_of(
        payload@,
    ));
    while left > 0
        invariant
            pos <= payload.len(),
            headers_of(payload@) == header_views(out@) + headers_from(
                payload@,
                pos as int,
                left as nat,
            ),
        decreases left,
    {
        if payload.len() - pos < 80 {
            assert(header_views(out@) + Seq::<HeaderView>::empty() == header_views(out@));
            return out;
        }
        let hdr = sub_bytes(payload, pos, pos + 80);
        let prev = sub_bytes(payload, pos + 4, pos + 36);
        let one = PeerHeader { hash: block_hash(&hdr), prev: array32(&prev) };
        let ghost was = header_views(out@);
        out.push(one);
        assert(header_views(out@) == was.push(one@));
        let mut next: usize = pos + 80;
        let tail = read_varint(payload, &mut next);
        if tail.is_err() {
            assert(was + seq![one@] == was.push(one@));
            return out;
        }
        let ghost rest = headers_from(payload@, next as int, (left - 1) as nat);
        assert(was + (seq![one@] + rest) == was.push(one@) + rest);
        pos = next;
        left = left - 1;
    }
    assert(header_views(out@) + Seq::<HeaderView>::empty() == header_views(out@));
    out
}

/// The height of the first locator entry whose hash is `prev`.
pub open spec fn anchor(locator: Seq<([u8; 32], i64)>, prev: Seq<u8>) -> Option<i64>
    decreases locator.len(),
{
    if locator.len() == 0 {
        None
    } else if locator[0].0@ == prev {
        Some(locator[0].1)
    } else {
        anchor(locator.skip(1), prev)
    }
}

/// What a peer reports at height `target`: the first header extends a locator block of known
/// height, the others follow it one by one. Empty where nothing places that height.
pub open spec fn hash_at(
    headers: Seq<HeaderView>,
    locator: Seq<([u8; 32], i64)>,
    target: i64,
) -> Seq<char> {
    if headers.len() == 0 {
        Seq::empty()
    } else {
        match anchor(locator, headers[0].prev) {
            None => Seq::empty(),
            Some(base) => {
                let i = target - base - 1;
                if 0 <= i < headers.len() {
                    reversed_hex(headers[i].hash)
                } else {
                    Seq::empty()
                }
            },
        }
    }
}

/// The peer's block hash at `target`, or the empty text where it did not report that height.
pub fn peer_hash_at(headers: &[PeerHeader], locator: &[([u8; 32], i64)], target: i64) -> (r: String)
    ensures
        r@ == hash_at(header_views(headers@), locator@, target),
{
    if headers.len() == 0 {
        return String::new();
    }
    let prev: [u8; 32] = headers[0].prev;
    let mut k: usize = 0;
    assert(locator@.skip(0) == locator@);
    while k < locator.len()
        invariant
            k <= locator.len(),
            headers.len() > 0,
            prev@ == header_views(headers@)[0].prev,
            anchor(locator@, prev@) == anchor(locator@.skip(k as int), prev@),
        decreases locator.len() - k,
    {
        if crate::bytes::same_bytes(&locator[k].0, &prev) {
            let base: i64 = locator[k].1;
            let i: i128 = target as i128 - base as i128 - 1;
            if i < 0 || i >= headers.len() as i128 {
                return String::new();
            }
            return hash_hex(&headers[i as usize].hash);
        }
        assert(locator@.skip(k as int).skip(1) == locator@.skip(k + 1));
        k = k + 1;
    }
    String::new()
}

// ---- framing ----------------------------------------------------------------------------

/// The first four bytes of the double SHA-256 of a payload.
pub open spec fn payload_checksum(payload: Seq<u8>) -> Seq<u8> {
    double_sha256(payload).take(4)
}

/// The checksum of a payload.
pub fn checksum(payload: &[u8]) -> (r: [u8; 4])
    ensures
        r@ == payload_checksum(payload@),
{
    let d = double_sha256_of(payload);
    let r: [u8; 4] = [d[0], d[1], d[2], d[3]];
    assert(r@ == d@.take(4));
    r
}

/// The first twelve bytes of a command name, with zeros behind them.
pub open spec fn command_field(name: Seq<u8>) -> Seq<u8> {
    Seq::new(
        12,
        |i: int|
            if i < name.len() {
                name[i]
            } else {
                0u8
            },
    )
}

/// A message with this checksum: magic, command, length, checksum, payload.
pub open spec fn framed(
    magic: Seq<u8>,
    command: Seq<char>,
    check: Seq<u8>,
    payload: Seq<u8>,
) -> Seq<u8> {
    magic + command_field(encode_utf8(command)) + le_bytes(payload.len(), 4) + check + payload
}

/// A message with the checksum of its payload.
pub open spec fn message(magic: Seq<u8>, command: Seq<char>, payload: Seq<u8>) -> Seq<u8> {
    framed(magic, command, payload_checksum(payload), payload)
}

/// A command that a header can hold: at most twelve ASCII characters, none of them zero.
pub open spec fn is_command(command: Seq<char>) -> bool {
    command.len() <= 12 && forall|i: int|
        0 <= i < command.len() ==> 0 < #[trigger] command[i] as int && command[i] as int <= 127
}

/// Whether the bytes of `m` are a message with this command and payload: a header that names
/// both, and the payload behind it.
pub open spec fn reads_as(
    m: Seq<u8>,
    magic: Seq<u8>,
    command: Seq<char>,
    payload: Seq<u8>,
) -> bool {
    &&& m.len() == 24 + payload.len()
    &&& m.take(4) == magic
    &&& command_text(m.subrange(4, 16)) == command
    &&& le_value(m.subrange(16, 20)) == payload.len()
    &&& m.skip(24) == payload
}

/// Builds a message.
pub fn build_message(magic: [u8; 4], command: &str, payload: &[u8]) -> (r: Vec<u8>)
    ensures
        r@ == message(magic@, command@, payload@),
        is_command(command@) && payload@.len() <= MAX_PAYLOAD ==> reads_as(
            r@,
            magic@,
            command@,
            payload@,
        ),
{
    let mut msg: Vec<u8> = Vec::new();
    push_all(&mut msg, &magic);
    let name = command.as_bytes();
    let ghost start = msg@;
    let mut i: usize = 0;
    while i < 12
        invariant
            i <= 12,
            name@ == encode_utf8(command@),
            start == magic@,
            msg@ == start + command_field(name@).take(i as int),
        decreases 12 - i,
    {
        let b: u8 = if i < name.len() {
            name[i]
        } else {
            0
        };
        msg.push(b);
        i = i + 1;
        assert(command_field(name@).take(i as int) == command_field(name@).take(i - 1).push(b));
    }
    assert(command_field(name@).take(12) == command_field(name@));
    push_le(&mut msg, payload.len() as u64, 4);
    let sum = checksum(payload);
    push_all(&mut msg, &sum);
    push_all(&mut msg, payload);
    proof {
        if is_command(command@) && payload@.len() <= MAX_PAYLOAD {
            law_message_header(magic@, command@, sum@, payload@);
        }
    }
    msg
}

/// Why a message header was not accepted.
#[derive(Clone, Copy, Debug, PartialEq, Eq, Structural)]
pub enum FrameError {
    /// The first four bytes are not the network's magic.
    BadMagic,
    /// The payload is longer than four mebibytes.
    Oversized(u32),
}

/// The bytes before the first zero, each as the character with that code.
pub open spec fn command_text(field: Seq<u8>) -> Seq<char>
    decreases field.len(),
{
    if field.len() == 0 || field[0] == 0 {
        Seq::empty()
    } else {
        seq![field[0] as char] + command_text(field.skip(1))
    }
}

/// The largest payload that is read.
pub const MAX_PAYLOAD: u32 = 4194304;

/// Reads a message header: the command, and the length of the payload that follows.
pub fn read_header(header: &[u8; 24], magic: [u8; 4]) -> (r: Result<(String, usize), FrameError>)
    ensures
        ({
            let n = le_value(header@.subrange(16, 20));
            match r {
                Ok((command, len)) => header@.take(4) == magic@ && n <= MAX_PAYLOAD && len == n
                    && command@ == command_text(header@.subrange(4, 16)),
                Err(FrameError::BadMagic) => header@.take(4) != magic@,
                Err(FrameError::Oversized(len)) => header@.take(4) == magic@ && n > MAX_PAYLOAD
                    && len == n,
            }
        }),
{
    let same = header[0] == magic[0] && header[1] == magic[1] && header[2] == magic[2] && header[3]
        == magic[3];
    proof {
        if same {
            assert(header@.take(4) == magic@);
        } else {
            assert(header@.take(4)[0] == header@[0] && header@.take(4)[1] == header@[1]
                && header@.take(4)[2] == header@[2] && header@.take(4)[3] == header@[3]);
        }
        lemma_pow256();
    }
    if !same {
        return Err(FrameError::BadMagic);
    }
    let ghost field = header@.subrange(4, 16);
    let mut command: String = String::new();
    let mut i: usize = 4;
    assert(field.skip(0) == field);
    assert(command@ + command_text(field) == command_text(field));
    while i < 16 && header[i] != 0
        invariant
            4 <= i <= 16,
            field == header@.subrange(4, 16),
            command_text(field) == command@ + command_text(field.skip(i - 4)),
        decreases 16 - i,
    {
        let c: char = header[i] as char;
        assert(field.skip(i - 4)[0] == header@[i as int]);
        assert(field.skip(i - 4).skip(1) == field.skip(i - 3));
        assert(command@ + (seq![c] + command_text(field.skip(i - 3))) == command@.push(c)
            + command_text(field.skip(i - 3)));
        command.push(c);
        i = i + 1;
    }
    proof {
        if i < 16 {
            assert(field.skip(i - 4)[0] == header@[i as int]);
        }
        assert(command@ + Seq::<char>::empty() == command@);
    }
    let n: u64 = le_at(header, 16, 20);
    if n > MAX_PAYLOAD as u64 {
        return Err(FrameError::Oversized(n as u32));
    }
    Ok((command, n as usize))
}

/// Reading the header of a message gives its command and the length of its payload, where the
/// command is one that a header can hold and the payload is not oversized; the payload follows.
pub proof fn law_message_header(
    magic: Seq<u8>,
    command: Seq<char>,
    check: Seq<u8>,
    payload: Seq<u8>,
)
    requires
        magic.len() == 4,
        check.len() == 4,
        is_command(command),
        payload.len() <= MAX_PAYLOAD,
    ensures
        reads_as(framed(magic, command, check, payload), magic, command, payload),
{
    let m = framed(magic, command, check, payload);
    let name = encode_utf8(command);
    crate::bytes::lemma_le_bytes_len(payload.len(), 4);
    lemma_pow256();
    crate::bytes::lemma_le_read_back(payload.len(), 4);
    assert(vstd::utf8::is_ascii_chars(command)) by {
        assert forall|i: int| 0 <= i < command.len() implies '\0' <= #[trigger] command[i] <= '\u{7f}' by {
            assert(0 < command[i] as int && command[i] as int <= 127);
        }
    }
    vstd::utf8::is_ascii_chars_encode_utf8(command);
    assert(m.take(4) == magic);
    assert(m.subrange(4, 16) == command_field(name));
    assert(m.subrange(16, 20) == le_bytes(payload.len(), 4));
    assert(m.skip(24) == payload);
    lemma_command_text(command_field(name), command);
}

proof fn lemma_command_text(field: Seq<u8>, command: Seq<char>)
    requires
        command.len() <= field.len(),
        forall|i: int| 0 <= i < command.len() ==> #[trigger] field[i] as char == command[i] && field[i] != 0,
        forall|i: int| command.len() <= i < field.len() ==> #[trigger] field[i] == 0,
    ensures
        command_text(field) == command,
    decreases command.len(),
{
    if command.len() == 0 {
        assert(command_text(field) == command);
    } else {
        assert forall|i: int| 0 <= i < command.skip(1).len() implies #[trigger] field.skip(1)[i] as char
            == command.skip(1)[i] && field.skip(1)[i] != 0 by {
            assert(field[i + 1] as char == command[i + 1]);
        }
        lemma_command_text(field.skip(1), command.skip(1));
        assert(field[0] as char == command[0]);
        assert(seq![command[0]] + command.skip(1) == command);
    }
}

// ---- messages that are sent ---------------------------------------------------------------

/// The protocol version that is announced.
pub const PROTOCOL_VERSION: u64 = 70016;

/// All hashes of a locator, one after the other.
pub open spec fn joined_hashes(locator: Seq<[u8; 32]>) -> Seq<u8>
    decreases locator.len(),
{
    if locator.len() == 0 {
        Seq::empty()
    } else {
        joined_hashes(locator.drop_last()) + locator.last()@
    }
}

/// The payload of `getheaders`: protocol version, the locator, and no stop hash.
pub open spec fn getheaders_payload(locator: Seq<[u8; 32]>) -> Seq<u8> {
    le_bytes(PROTOCOL_VERSION as nat, 4) + varint(locator.len() as u64) + joined_hashes(locator) + Seq::new(
        32,
        |i: int| 0u8,
    )
}

/// Builds a `getheaders` message with a block locator.
pub fn build_getheaders(magic: [u8; 4], locator: &[[u8; 32]]) -> (r: Vec<u8>)
    ensures
        r@ == message(magic@, "getheaders"@, getheaders_payload(locator@)),
{
    let mut p: Vec<u8> = Vec::new();
    push_le(&mut p, PROTOCOL_VERSION, 4);
    write_varint(&mut p, locator.len() as u64);
    let ghost start = p@;
    let mut i: usize = 0;
    assert(locator@.take(0).len() == 0);
    assert(start + Seq::<u8>::empty() == start);
    while i < locator.len()
        invariant
            i <= locator.len(),
            p@ == start + joined_hashes(locator@.take(i as int)),
        decreases locator.len() - i,
    {
        push_all(&mut p, &locator[i]);
        i = i + 1;
        proof {
            let t = locator@.take(i as int);
            assert(t.drop_last() == locator@.take(i - 1));
            assert(t.last() == locator@[i - 1]);
            assert(start + joined_hashes(t.drop_last()) + t.last()@ == start + (joined_hashes(
                t.drop_last(),
            ) + t.last()@));
        }
    }
    assert(locator@.take(locator@.len() as int) == locator@);
    let stop: [u8; 32] = [0u8;32];
    push_all(&mut p, &stop);
    assert(stop@ == Seq::new(32, |i: int| 0u8));
    assert(p@ == getheaders_payload(locator@));
    build_message(magic, "getheaders", &p)
}

/// The sixteen bytes of an address, an IPv4 address mapped into IPv6.
pub open spec fn ip_bytes(ip: IpAddr) -> Seq<u8> {
    match ip {
        IpAddr::V4(a) => seq![0u8, 0, 0, 0, 0, 0, 0, 0, 0, 0, 0xff, 0xff, a.a, a.b, a.c, a.d],
        IpAddr::V6(a) => be16(a.g0) + be16(a.g1) + be16(a.g2) + be16(a.g3) + be16(a.g4) + be16(a.g5)
            + be16(a.g6) + be16(a.g7),
    }
}

/// The sixteen bytes of an address.
pub fn ip_to_16(ip: IpAddr) -> (r: [u8; 16])
    ensures
        r@ == ip_bytes(ip),
{
    match ip {
        IpAddr::V4(a) => {
            let r: [u8; 16] = [0, 0, 0, 0, 0, 0, 0, 0, 0, 0, 0xff, 0xff, a.a, a.b, a.c, a.d];
            assert(r@ == ip_bytes(ip));
            r
        },
        IpAddr::V6(a) => {
            let r: [u8; 16] = [
                (a.g0 / 256) as u8,
                (a.g0 % 256) as u8,
                (a.g1 / 256) as u8,
                (a.g1 % 256) as u8,
                (a.g2 / 256) as u8,
                (a.g2 % 256) as u8,
                (a.g3 / 256) as u8,
                (a.g3 % 256) as u8,
                (a.g4 / 256) as u8,
                (a.g4 % 256) as u8,
                (a.g5 / 256) as u8,
                (a.g5 % 256) as u8,
                (a.g6 / 256) as u8,
                (a.g6 % 256) as u8,
                (a.g7 / 256) as u8,
                (a.g7 % 256) as u8,
            ];
            assert(r@ == ip_bytes(ip));
            r
        },
    }
}

/// A network address without a time: services, address, port.
pub open spec fn netaddr(services: u64, ip: IpAddr, port: u16) -> Seq<u8> {
    le_bytes(services as nat, 8) + ip_bytes(ip) + be16(port)
}

/// Encodes a network address without a time.
pub fn encode_netaddr_no_time(services: u64, ip: IpAddr, port: u16) -> (r: Vec<u8>)
    ensures
        r@ == netaddr(services, ip, port),
{
    let mut b: Vec<u8> = Vec::new();
    push_le(&mut b, services, 8);
    let o = ip_to_16(ip);
    push_all(&mut b, &o);
    push_be16(&mut b, port);
    assert(b@ == netaddr(services, ip, port));
    b
}

/// The address that stands for none.
pub open spec fn no_address() -> IpAddr {
    IpAddr::V4(Ipv4Addr { a: 0, b: 0, c: 0, d: 0 })
}

/// The user agent that is announced.
pub open spec fn own_user_agent() -> Seq<u8> {
    encode_utf8("/bip110-crawler:0.1.0/"@)
}

/// The payload of a `version` message: protocol version, no services, the time, the receiver,
/// no sender, the nonce, the user agent, the height, and no transaction relay.
pub open spec fn version_bytes(
    recv_ip: IpAddr,
    recv_port: u16,
    start_height: i32,
    now: u64,
    nonce: u64,
) -> Seq<u8> {
    le_bytes(PROTOCOL_VERSION as nat, 4) + le_bytes(0, 8) + le_bytes(now as nat, 8) + netaddr(0, recv_ip, recv_port)
        + netaddr(0, no_address(), 0) + le_bytes(nonce as nat, 8) + varint(
        own_user_agent().len() as u64,
    ) + own_user_agent() + le_bytes(unsigned32(start_height as int), 4) + seq![0u8]
}

/// The payload of a `version` message sent at `now` with this nonce.
pub fn version_payload(
    recv_ip: IpAddr,
    recv_port: u16,
    start_height: i32,
    now: u64,
    nonce: u64,
) -> (r: Vec<u8>)
    ensures
        r@ == version_bytes(recv_ip, recv_port, start_height, now, nonce),
{
    let mut p: Vec<u8> = Vec::new();
    push_le(&mut p, PROTOCOL_VERSION, 4);
    push_le(&mut p, 0, 8);
    push_le(&mut p, now, 8);
    let recv = encode_netaddr_no_time(0, recv_ip, recv_port);
    push_all(&mut p, &recv);
    let from = encode_netaddr_no_time(0, IpAddr::V4(Ipv4Addr { a: 0, b: 0, c: 0, d: 0 }), 0);
    push_all(&mut p, &from);
    push_le(&mut p, nonce, 8);
    let ua = "/bip110-crawler:0.1.0/".as_bytes();
    write_varint(&mut p, ua.len() as u64);
    push_all(&mut p, ua);
    push_le(&mut p, to_unsigned32(start_height) as u64, 4);
    p.push(0);
    assert(p@ == version_bytes(recv_ip, recv_port, start_height, now, nonce));
    p
}

/// A number from `rand::thread_rng`, by `rand::Rng::gen`. Nothing is claimed of it: every
/// value can come.
#[verifier::external_body]
fn random_nonce() -> (r: u64) {
    rand::Rng::gen(&mut rand::thread_rng())
}

/// The payload of a `version` message sent now with a nonce drawn at random.
pub fn build_version_payload(recv_ip: IpAddr, recv_port: u16, start_height: i32) -> (r: Vec<u8>)
    ensures
        exists|now: u64, nonce: u64|
            r@ == #[trigger] version_bytes(recv_ip, recv_port, start_height, now, nonce),
{
    let now = crate::time::unix_now();
    let nonce = random_nonce();
    version_payload(recv_ip, recv_port, start_height, now, nonce)
}

// ---- messages that are read ---------------------------------------------------------------

/// What a peer says of itself in its `version` message.
#[derive(Debug)]
pub struct PeerVersion {
    pub protocol_version: i32,
    pub services: u64,
    pub user_agent: String,
    pub start_height: i32,
}

/// A `PeerVersion`, with its user agent as a sequence of characters.
#[verifier::ext_equal]
pub struct PeerVersionView {
    pub protocol_version: i32,
    pub services: u64,
    pub user_agent: Seq<char>,
    pub start_height: i32,
}

impl View for PeerVersion {
    type V = PeerVersionView;

    open spec fn view(&self) -> PeerVersionView {
        PeerVersionView {
            protocol_version: self.protocol_version,
            services: self.services,
            user_agent: self.user_agent@,
            start_height: self.start_height,
        }
    }
}

/// The text that `String::from_utf8_lossy` makes of `bytes`.
pub uninterp spec fn lossy_text(bytes: Seq<u8>) -> Seq<char>;

/// Calls `String::from_utf8_lossy`. Valid UTF-8 is decoded as it is; what stands in place of
/// other bytes is left to the name.
#[verifier::external_body]
pub(crate) fn from_utf8_lossy(bytes: &[u8]) -> (r: String)
    ensures
        r@ == lossy_text(bytes@),
        valid_utf8(bytes@) ==> r@ == decode_utf8(bytes@),
{
    String::from_utf8_lossy(bytes).into_owned()
}

/// The text of `bytes`: what they encode where they are valid UTF-8, else what
/// `String::from_utf8_lossy` makes of them.
pub open spec fn utf8_text(bytes: Seq<u8>) -> Seq<char> {
    if valid_utf8(bytes) {
        decode_utf8(bytes)
    } else {
        lossy_text(bytes)
    }
}

/// What a `version` payload says, or why it cannot be read. The user agent stands behind 68
/// bytes that are of no interest here: the time, two addresses and a nonce.
pub open spec fn version_of(d: Seq<u8>) -> Result<PeerVersionView, WireError> {
    if d.len() < 12 {
        Err(WireError::ReadEof)
    } else {
        match varint_at(d, 80) {
            None => if d.len() > 80 {
                Err(WireError::ReadEof)
            } else {
                Err(WireError::VarintEof)
            },
            Some((n, p)) => if p + n > d.len() {
                Err(WireError::TruncatedUserAgent)
            } else if p + n + 4 > d.len() {
                Err(WireError::ReadEof)
            } else {
                Ok(
                    PeerVersionView {
                        protocol_version: signed32(le_value(d.subrange(0, 4)) as int) as i32,
                        services: le_value(d.subrange(4, 12)) as u64,
                        user_agent: utf8_text(d.subrange(p, p + n)),
                        start_height: signed32(
                            le_value(d.subrange(p + n, p + n + 4)) as int,
                        ) as i32,
                    },
                )
            },
        }
    }
}

/// Parses a `version` payload.
pub fn parse_version_payload(payload: &[u8]) -> (r: Result<PeerVersion, WireError>)
    ensures
        match r {
            Ok(v) => version_of(payload@) == Ok::<PeerVersionView, WireError>(v@),
            Err(e) => version_of(payload@) == Err::<PeerVersionView, WireError>(e),
        },
{
    proof {
        lemma_pow256();
    }
    if payload.len() < 12 {
        return Err(WireError::ReadEof);
    }
    let protocol_version = to_signed32(le_at(payload, 0, 4) as u32);
    let services = le_at(payload, 4, 12);
    let mut pos: usize = 80;
    let n: u64 = match read_varint(payload, &mut pos) {
        Ok(n) => n,
        Err(e) => {
            return Err(e);
        },
    };
    if n > (payload.len() - pos) as u64 {
        return Err(WireError::TruncatedUserAgent);
    }
    let end: usize = pos + n as usize;
    let agent = sub_bytes(payload, pos, end);
    if payload.len() - end < 4 {
        return Err(WireError::ReadEof);
    }
    let user_agent = from_utf8_lossy(&agent);
    let start_height = to_signed32(le_at(payload, end, end + 4) as u32);
    Ok(PeerVersion { protocol_version, services, user_agent, start_height })
}

/// The address in sixteen bytes, a mapped IPv4 address as such.
pub open spec fn addr_of_16(b: Seq<u8>) -> IpAddr {
    let ip = Ipv6Addr {
        g0: be16_value(b[0], b[1]),
        g1: be16_value(b[2], b[3]),
        g2: be16_value(b[4], b[5]),
        g3: be16_value(b[6], b[7]),
        g4: be16_value(b[8], b[9]),
        g5: be16_value(b[10], b[11]),
        g6: be16_value(b[12], b[13]),
        g7: be16_value(b[14], b[15]),
    };
    if crate::addr::is_mapped(ip) {
        IpAddr::V4(Ipv4Addr { a: b[12], b: b[13], c: b[14], d: b[15] })
    } else {
        IpAddr::V6(ip)
    }
}

/// The IPv6 address in sixteen bytes.
fn v6_of(b: &[u8]) -> (r: Ipv6Addr)
    requires
        b.len() == 16,
    ensures
        r == (Ipv6Addr {
            g0: be16_value(b@[0], b@[1]),
            g1: be16_value(b@[2], b@[3]),
            g2: be16_value(b@[4], b@[5]),
            g3: be16_value(b@[6], b@[7]),
            g4: be16_value(b@[8], b@[9]),
            g5: be16_value(b@[10], b@[11]),
            g6: be16_value(b@[12], b@[13]),
            g7: be16_value(b@[14], b@[15]),
        }),
{
    Ipv6Addr {
        g0: from_be16(b[0], b[1]),
        g1: from_be16(b[2], b[3]),
        g2: from_be16(b[4], b[5]),
        g3: from_be16(b[6], b[7]),
        g4: from_be16(b[8], b[9]),
        g5: from_be16(b[10], b[11]),
        g6: from_be16(b[12], b[13]),
        g7: from_be16(b[14], b[15]),
    }
}

/// The address in sixteen bytes; `None` for any other number of them.
pub fn ip16_to_addr(bytes: &[u8]) -> (r: Option<IpAddr>)
    ensures
        match r {
            Some(ip) => bytes.len() == 16 && ip == addr_of_16(bytes@),
            None => bytes.len() != 16,
        },
{
    if bytes.len() != 16 {
        return None;
    }
    let ip = v6_of(bytes);
    if ip.g0 == 0 && ip.g1 == 0 && ip.g2 == 0 && ip.g3 == 0 && ip.g4 == 0 && ip.g5 == 0xffff {
        Some(IpAddr::V4(Ipv4Addr { a: bytes[12], b: bytes[13], c: bytes[14], d: bytes[15] }))
    } else {
        Some(IpAddr::V6(ip))
    }
}

/// `port`, or the default where it is 0.
pub open spec fn port_or(port: u16, default_port: u16) -> u16 {
    if port == 0 {
        default_port
    } else {
        port
    }
}

/// One entry of an `addr` message: time, services, address, port.
pub open spec fn addr_entry(d: Seq<u8>, pos: int, default_port: u16) -> PeerView {
    PeerView::Clearnet(
        SocketAddr::of(
            addr_of_16(d.subrange(pos + 12, pos + 28)),
            port_or(be16_value(d[pos + 28], d[pos + 29]), default_port),
        ),
    )
}

/// The entries of an `addr` message from `pos` on, at most `count` of them, 30 bytes each.
pub open spec fn addr_from(d: Seq<u8>, pos: int, count: nat, default_port: u16) -> Seq<PeerView>
    decreases count,
{
    if count == 0 || pos + 30 > d.len() {
        Seq::empty()
    } else {
        seq![addr_entry(d, pos, default_port)] + addr_from(
            d,
            pos + 30,
            (count - 1) as nat,
            default_port,
        )
    }
}

/// The peers in an `addr` payload, of which at most 1000 are read.
pub open spec fn addr_peers(d: Seq<u8>, default_port: u16) -> Seq<PeerView> {
    match varint_at(d, 0) {
        Some((n, p)) => addr_from(d, p, lesser(n as int, 1000) as nat, default_port),
        None => Seq::empty(),
    }
}

/// The views of peers.
pub open spec fn peer_views(v: Seq<Peer>) -> Seq<PeerView> {
    v.map(|i: int, p: Peer| p@)
}

/// Adding a peer adds its view.
pub proof fn lemma_peer_views_push(v: Seq<Peer>, p: Peer)
    ensures
        peer_views(v.push(p)) == peer_views(v).push(p@),
{
    assert(peer_views(v.push(p)) =~= peer_views(v).push(p@));
}

/// Reads the count in front of a list of addresses, of which at most 1000 count.
fn read_count(payload: &[u8], pos: &mut usize) -> (r: Option<u64>)
    requires
        *old(pos) == 0,
    ensures
        match varint_at(payload@, 0) {
            Some((n, p)) => r == Some(lesser(n as int, 1000) as u64) && *final(pos) == p && p
                <= payload.len() && lesser(n as int, 1000) >= 0,
            None => r.is_none(),
        },
{
    match read_varint(payload, pos) {
        Ok(c) => if c < 1000 {
            Some(c)
        } else {
            Some(1000)
        },
        Err(_) => None,
    }
}

/// Parses an `addr` payload.
pub fn parse_addr(payload: &[u8], default_port: u16) -> (r: Vec<Peer>)
    ensures
        peer_views(r@) == addr_peers(payload@, default_port),
{
    let mut out: Vec<Peer> = Vec::new();
    let mut pos: usize = 0;
    assert(peer_views(out@) == Seq::<PeerView>::empty());
    let mut left: u64 = match read_count(payload, &mut pos) {
        Some(c) => c,
        None => {
            return out;
        },
    };
    assert(peer_views(out@) + addr_from(payload@, pos as int, left as nat, default_port)
        == addr_peers(payload@, default_port));
    while left > 0
        invariant
            pos <= payload.len(),
            addr_peers(payload@, default_port) == peer_views(out@) + addr_from(
                payload@,
                pos as int,
                left as nat,
                default_port,
            ),
        decreases left,
    {
        assert(peer_views(out@) + Seq::<PeerView>::empty() == peer_views(out@));
        if payload.len() - pos < 30 {
            return out;
        }
        let raw = sub_bytes(payload, pos + 12, pos + 28);
        let ip = ip16_to_addr(&raw);
        let port: u16 = from_be16(payload[pos + 28], payload[pos + 29]);
        let port: u16 = if port == 0 {
            default_port
        } else {
            port
        };
        if let Some(ip) = ip {
            let one = Peer::Clearnet(SocketAddr::new(ip, port));
            assert(one@ == addr_entry(payload@, pos as int, default_port));
            let ghost rest = addr_from(payload@, pos + 30, (left - 1) as nat, default_port);
            proof {
                lemma_peer_views_push(out@, one);
                assert(peer_views(out@) + (seq![one@] + rest) == peer_views(out@).push(one@) + rest);
            }
            out.push(one);
        }
        pos = pos + 30;
        left = left - 1;
    }
    assert(peer_views(out@) + Seq::<PeerView>::empty() == peer_views(out@));
    out
}

/// Where the parts of the `addrv2` entry at `pos` stand, or `None` where the bytes end in it or
/// its address is longer than 512 bytes: the network, the address from `start` up to `end`,
/// and then two bytes of port.
pub open spec fn addrv2_parts(d: Seq<u8>, pos: int) -> Option<(u8, int, int)> {
    if pos + 4 > d.len() {
        None
    } else {
        match varint_at(d, pos + 4) {
            None => None,
            Some((services, p)) => if p >= d.len() {
                None
            } else {
                match varint_at(d, p + 1) {
                    None => None,
                    Some((n, q)) => if n > 512 || q + n + 2 > d.len() {
                        None
                    } else {
                        Some((d[p], q, q + n))
                    },
                }
            },
        }
    }
}

/// The peer that an `addrv2` entry names, where it is of a kind that can be dialled: IPv4,
/// IPv6 or Tor v3.
pub open spec fn addrv2_peer(network: u8, addr: Seq<u8>, port: u16) -> Option<PeerView> {
    if network == 1 && addr.len() == 4 {
        Some(
            PeerView::Clearnet(
                SocketAddr::V4 {
                    ip: Ipv4Addr { a: addr[0], b: addr[1], c: addr[2], d: addr[3] },
                    port,
                },
            ),
        )
    } else if network == 2 && addr.len() == 16 {
        Some(
            PeerView::Clearnet(
                SocketAddr::V6 {
                    ip: Ipv6Addr {
                        g0: be16_value(addr[0], addr[1]),
                        g1: be16_value(addr[2], addr[3]),
                        g2: be16_value(addr[4], addr[5]),
                        g3: be16_value(addr[6], addr[7]),
                        g4: be16_value(addr[8], addr[9]),
                        g5: be16_value(addr[10], addr[11]),
                        g6: be16_value(addr[12], addr[13]),
                        g7: be16_value(addr[14], addr[15]),
                    },
                    port,
                    scope_id: 0,
                },
            ),
        )
    } else if network == 4 && addr.len() == 32 {
        Some(PeerView::Onion(onion_host(addr), port))
    } else {
        None
    }
}

/// The peers among the `addrv2` entries from `pos` on, of which at most `count` are read.
pub open spec fn addrv2_from(d: Seq<u8>, pos: int, count: nat, default_port: u16) -> Seq<PeerView>
    decreases count,
{
    if count == 0 {
        Seq::empty()
    } else {
        match addrv2_parts(d, pos) {
            None => Seq::empty(),
            Some((network, a, b)) => {
                let port = port_or(be16_value(d[b], d[b + 1]), default_port);
                let rest = addrv2_from(d, b + 2, (count - 1) as nat, default_port);
                match addrv2_peer(network, d.subrange(a, b), port) {
                    Some(p) => seq![p] + rest,
                    None => rest,
                }
            },
        }
    }
}

/// The peers in an `addrv2` payload, of which at most 1000 entries are read.
pub open spec fn addrv2_peers(d: Seq<u8>, default_port: u16) -> Seq<PeerView> {
    match varint_at(d, 0) {
        Some((n, p)) => addrv2_from(d, p, lesser(n as int, 1000) as nat, default_port),
        None => Seq::empty(),
    }
}

/// Finds the parts of the entry at `pos`.
fn read_addrv2_parts(d: &[u8], pos: usize) -> (r: Option<(u8, usize, usize)>)
    requires
        pos <= d.len(),
    ensures
        match r {
            Some((network, a, b)) => addrv2_parts(d@, pos as int) == Some(
                (network, a as int, b as int),
            ) && a <= b && b + 2 <= d.len(),
            None => addrv2_parts(d@, pos as int).is_none(),
        },
{
    if d.len() - pos < 4 {
        return None;
    }
    let mut p: usize = pos + 4;
    if read_varint(d, &mut p).is_err() {
        return None;
    }
    if p >= d.len() {
        return None;
    }
    let network: u8 = d[p];
    let mut q: usize = p + 1;
    match read_varint(d, &mut q) {
        Err(_) => None,
        Ok(n) => {
            if n > 512 || d.len() - q < n as usize + 2 {
                return None;
            }
            Some((network, q, q + n as usize))
        },
    }
}

/// Decodes the address of an entry.
fn addrv2_decode(network: u8, addr: &[u8], port: u16) -> (r: Option<Peer>)
    ensures
        match r {
            Some(p) => addrv2_peer(network, addr@, port) == Some(p@),
            None => addrv2_peer(network, addr@, port).is_none(),
        },
{
    if network == 1 && addr.len() == 4 {
        let ip = Ipv4Addr { a: addr[0], b: addr[1], c: addr[2], d: addr[3] };
        return Some(Peer::Clearnet(SocketAddr::V4 { ip, port }));
    }
    if network == 2 && addr.len() == 16 {
        return Some(Peer::Clearnet(SocketAddr::V6 { ip: v6_of(addr), port, scope_id: 0 }));
    }
    if network == 4 && addr.len() == 32 {
        return match onion_v3_host(addr) {
            Some(host) => Some(Peer::Onion(host, port)),
            None => None,
        };
    }
    None
}

/// Parses an `addrv2` payload.
pub fn parse_addrv2(payload: &[u8], default_port: u16) -> (r: Vec<Peer>)
    ensures
        peer_views(r@) == addrv2_peers(payload@, default_port),
{
    let mut out: Vec<Peer> = Vec::new();
    let mut pos: usize = 0;
    assert(peer_views(out@) == Seq::<PeerView>::empty());
    let mut left: u64 = match read_count(payload, &mut pos) {
        Some(c) => c,
        None => {
            return out;
        },
    };
    assert(peer_views(out@) + addrv2_from(payload@, pos as int, left as nat, default_port)
        == addrv2_peers(payload@, default_port));
    while left > 0
        invariant
            pos <= payload.len(),
            addrv2_peers(payload@, default_port) == peer_views(out@) + addrv2_from(
                payload@,
                pos as int,
                left as nat,
                default_port,
            ),
        decreases left,
    {
        assert(peer_views(out@) + Seq::<PeerView>::empty() == peer_views(out@));
        let (network, a, b) = match read_addrv2_parts(payload, pos) {
            Some(x) => x,
            None => {
                return out;
            },
        };
        let addr = sub_bytes(payload, a, b);
        let port: u16 = from_be16(payload[b], payload[b + 1]);
        let port: u16 = if port == 0 {
            default_port
        } else {
            port
        };
        let ghost rest = addrv2_from(payload@, b + 2, (left - 1) as nat, default_port);
        if let Some(one) = addrv2_decode(network, &addr, port) {
            proof {
                lemma_peer_views_push(out@, one);
                assert(peer_views(out@) + (seq![one@] + rest) == peer_views(out@).push(one@) + rest);
            }
            out.push(one);
        }
        pos = b + 2;
        left = left - 1;
    }
    assert(peer_views(out@) + Seq::<PeerView>::empty() == peer_views(out@));
    out
}

/// Every peer that a payload names has a text that can be parsed again.
pub proof fn law_gossiped_peers_are_dialable(d: Seq<u8>, default_port: u16)
    ensures
        forall|i: int|
            0 <= i < addr_peers(d, default_port).len() ==> dialable(
                #[trigger] addr_peers(d, default_port)[i],
            ),
        forall|i: int|
            0 <= i < addrv2_peers(d, default_port).len() ==> dialable(
                #[trigger] addrv2_peers(d, default_port)[i],
            ),
{
    if let Some((n, p)) = varint_at(d, 0) {
        lemma_addr_dialable(d, p, lesser(n as int, 1000) as nat, default_port);
        lemma_addrv2_dialable(d, p, lesser(n as int, 1000) as nat, default_port);
    }
}

proof fn lemma_addr_dialable(d: Seq<u8>, pos: int, count: nat, default_port: u16)
    ensures
        forall|i: int|
            0 <= i < addr_from(d, pos, count, default_port).len() ==> dialable(
                #[trigger] addr_from(d, pos, count, default_port)[i],
            ),
    decreases count,
{
    if count > 0 && pos + 30 <= d.len() {
        let all = addr_from(d, pos, count, default_port);
        let rest = addr_from(d, pos + 30, (count - 1) as nat, default_port);
        lemma_addr_dialable(d, pos + 30, (count - 1) as nat, default_port);
        assert forall|i: int| 0 <= i < all.len() implies dialable(#[trigger] all[i]) by {
            if i > 0 {
                assert(all[i] == rest[i - 1]);
            }
        }
    }
}

proof fn lemma_addrv2_dialable(d: Seq<u8>, pos: int, count: nat, default_port: u16)
    ensures
        forall|i: int|
            0 <= i < addrv2_from(d, pos, count, default_port).len() ==> dialable(
                #[trigger] addrv2_from(d, pos, count, default_port)[i],
            ),
    decreases count,
{
    if count > 0 {
        if let Some((network, a, b)) = addrv2_parts(d, pos) {
            lemma_addrv2_dialable(d, b + 2, (count - 1) as nat, default_port);
            let addr = d.subrange(a, b);
            let h = onion_host(addr);
            let body = base32(addr + sha3_256(onion_checksum_input(addr)).take(2) + seq![3u8]);
            let tail = ".onion"@;
            assert(h.subrange(h.len() - tail.len(), h.len() as int) == tail);
            let all = addrv2_from(d, pos, count, default_port);
            let rest = addrv2_from(d, b + 2, (count - 1) as nat, default_port);
            let port = port_or(be16_value(d[b], d[b + 1]), default_port);
            assert forall|i: int| 0 <= i < all.len() implies dialable(#[trigger] all[i]) by {
                if addrv2_peer(network, addr, port).is_some() && i > 0 {
                    assert(all[i] == rest[i - 1]);
                }
                if addrv2_peer(network, addr, port).is_none() {
                    assert(all[i] == rest[i]);
                }
            }
        }
    }
}

/// The sixteen bytes of an address are read back as that address, where it is not an IPv6
/// address in the form of a mapped IPv4 address.
pub proof fn law_ip_bytes_read_back(ip: IpAddr)
    requires
        ip matches IpAddr::V6(a) ==> !crate::addr::is_mapped(a),
    ensures
        ip_bytes(ip).len() == 16,
        addr_of_16(ip_bytes(ip)) == ip,
{
}

/// An address that is written behind a time is read back from an `addr` entry with its port, or
/// the default port where that is 0. IPv6 addresses in the form of a mapped IPv4 address are read
/// as IPv4.
pub proof fn law_addr_entry_reads_back(
    time: Seq<u8>,
    services: u64,
    ip: IpAddr,
    port: u16,
    default_port: u16,
)
    requires
        time.len() == 4,
        ip matches IpAddr::V6(a) ==> !crate::addr::is_mapped(a),
    ensures
        (time + netaddr(services, ip, port)).len() == 30,
        addr_entry(time + netaddr(services, ip, port), 0, default_port) == PeerView::Clearnet(
            SocketAddr::of(ip, port_or(port, default_port)),
        ),
{
    let d = time + netaddr(services, ip, port);
    crate::bytes::lemma_le_bytes_len(services as nat, 8);
    law_ip_bytes_read_back(ip);
    assert(d.subrange(12, 28) =~= ip_bytes(ip));
    assert(d[28] == (port / 256) as u8 && d[29] == (port % 256) as u8);
}

/// A `version` message that was built says to its reader what it was built with: the protocol
/// version, no services, the own user agent and the height.
pub proof fn law_version_reads_back(
    recv_ip: IpAddr,
    recv_port: u16,
    start_height: i32,
    now: u64,
    nonce: u64,
)
    ensures
        version_of(version_bytes(recv_ip, recv_port, start_height, now, nonce)) == Ok::<
            PeerVersionView,
            WireError,
        >(
            (PeerVersionView {
                protocol_version: PROTOCOL_VERSION as i32,
                services: 0,
                user_agent: "/bip110-crawler:0.1.0/"@,
                start_height,
            }),
        ),
{
    let d = version_bytes(recv_ip, recv_port, start_height, now, nonce);
    let ua = own_user_agent();
    reveal_strlit("/bip110-crawler:0.1.0/");
    vstd::utf8::is_ascii_chars_encode_utf8("/bip110-crawler:0.1.0/"@);
    vstd::utf8::encode_utf8_valid_utf8("/bip110-crawler:0.1.0/"@);
    vstd::utf8::encode_utf8_decode_utf8("/bip110-crawler:0.1.0/"@);
    assert(ua.len() == 22);
    let height = unsigned32(start_height as int);
    lemma_pow256();
    crate::bytes::lemma_le_bytes_len(PROTOCOL_VERSION as nat, 4);
    crate::bytes::lemma_le_bytes_len(0, 8);
    crate::bytes::lemma_le_bytes_len(now as nat, 8);
    crate::bytes::lemma_le_bytes_len(nonce as nat, 8);
    crate::bytes::lemma_le_bytes_len(height, 4);
    crate::bytes::lemma_le_read_back(PROTOCOL_VERSION as nat, 4);
    crate::bytes::lemma_le_read_back(0, 8);
    crate::bytes::lemma_le_read_back(height, 4);
    lemma_ip_bytes_len(recv_ip);
    lemma_ip_bytes_len(no_address());
    assert(varint(22) =~= seq![22u8]);
    assert(d.len() == 108);
    assert(d[80] == 22u8);
    assert(varint_at(d, 80) == Some((22u64, 81int)));
    assert(d.subrange(0, 4) =~= le_bytes(PROTOCOL_VERSION as nat, 4));
    assert(d.subrange(4, 12) =~= le_bytes(0, 8));
    assert(d.subrange(81, 103) =~= ua);
    assert(d.subrange(103, 107) =~= le_bytes(height, 4));
}

/// An address has sixteen bytes.
proof fn lemma_ip_bytes_len(ip: IpAddr)
    ensures
        ip_bytes(ip).len() == 16,
{
}

/// What a peer has at a height is known exactly where its headers begin right behind a block of
/// the locator and reach from there to the height; in every other case it is empty.
pub proof fn law_chain_hash_is_known(
    headers: Seq<HeaderView>,
    locator: Seq<([u8; 32], i64)>,
    target: i64,
)
    requires
        forall|i: int| 0 <= i < headers.len() ==> (#[trigger] headers[i]).hash.len() == 32,
    ensures
        hash_at(headers, locator, target).len() > 0 <==> headers.len() > 0 && (anchor(
            locator,
            headers[0].prev,
        ) matches Some(base) && base < target <= base + headers.len()),
        locator.len() == 0 ==> hash_at(headers, locator, target).len() == 0,
{
}

// ---- gossip that was written reads back ---------------------------------------------------

/// An entry of `addr`: time, services, address, port.
pub open spec fn addr_record(time: Seq<u8>, services: u64, ip: IpAddr, port: u16) -> Seq<u8> {
    time + netaddr(services, ip, port)
}

/// Entries of `addr`, one behind the other.
pub open spec fn addr_records(es: Seq<(Seq<u8>, u64, IpAddr, u16)>) -> Seq<u8>
    decreases es.len(),
{
    if es.len() == 0 {
        Seq::empty()
    } else {
        addr_record(es[0].0, es[0].1, es[0].2, es[0].3) + addr_records(es.skip(1))
    }
}

proof fn lemma_addr_records(
    d: Seq<u8>,
    pos: int,
    es: Seq<(Seq<u8>, u64, IpAddr, u16)>,
    default_port: u16,
)
    requires
        0 <= pos <= d.len(),
        d.skip(pos) == addr_records(es),
        forall|i: int|
            0 <= i < es.len() ==> (#[trigger] es[i]).0.len() == 4 && (es[i].2 matches IpAddr::V6(a)
                ==> !crate::addr::is_mapped(a)),
    ensures
        addr_from(d, pos, es.len(), default_port).len() == es.len(),
        forall|i: int|
            0 <= i < es.len() ==> #[trigger] addr_from(d, pos, es.len(), default_port)[i]
                == PeerView::Clearnet(SocketAddr::of(es[i].2, port_or(es[i].3, default_port))),
    decreases es.len(),
{
    if es.len() > 0 {
        let (time, services, ip, port) = es[0];
        let rest = es.skip(1);
        let r = addr_record(time, services, ip, port);
        let u = d.skip(pos);
        law_addr_entry_reads_back(time, services, ip, port, default_port);
        assert(r.len() == 30);
        assert(u.len() == d.len() - pos);
        assert(d.skip(pos + 30) =~= u.skip(30));
        assert(u.skip(30) =~= addr_records(rest));
        assert forall|i: int| 0 <= i < rest.len() implies (#[trigger] rest[i]).0.len() == 4 && (
        rest[i].2 matches IpAddr::V6(a) ==> !crate::addr::is_mapped(a)) by {
            assert(rest[i] == es[i + 1]);
        }
        lemma_addr_records(d, pos + 30, rest, default_port);
        assert(d.subrange(pos + 12, pos + 28) =~= r.subrange(12, 28)) by {
            assert forall|j: int| 12 <= j < 28 implies d[pos + j] == r[j] by {
                assert(u[j] == d[pos + j]);
            }
        }
        assert(u[28] == d[pos + 28] && u[29] == d[pos + 29]);
        assert(u[28] == r[28] && u[29] == r[29]);
        let all = addr_from(d, pos, es.len(), default_port);
        let more = addr_from(d, pos + 30, rest.len(), default_port);
        assert forall|i: int| 0 <= i < es.len() implies #[trigger] all[i] == PeerView::Clearnet(
            SocketAddr::of(es[i].2, port_or(es[i].3, default_port)),
        ) by {
            if i > 0 {
                assert(all[i] == more[i - 1]);
                assert(rest[i - 1] == es[i]);
            }
        }
    }
}

/// The addresses of an `addr` message, up to a thousand, are read back in their order, each with
/// its port, or with the default port where that is 0.
pub proof fn law_addr_message_reads_back(
    es: Seq<(Seq<u8>, u64, IpAddr, u16)>,
    default_port: u16,
)
    requires
        es.len() <= 1000,
        forall|i: int|
            0 <= i < es.len() ==> (#[trigger] es[i]).0.len() == 4 && (es[i].2 matches IpAddr::V6(a)
                ==> !crate::addr::is_mapped(a)),
    ensures
        ({
            let r = addr_peers(varint(es.len() as u64) + addr_records(es), default_port);
            &&& r.len() == es.len()
            &&& forall|i: int|
                0 <= i < es.len() ==> #[trigger] r[i] == PeerView::Clearnet(
                    SocketAddr::of(
                        es[i].2,
                        if es[i].3 == 0 {
                            default_port
                        } else {
                            es[i].3
                        },
                    ),
                )
        }),
{
    let n = es.len() as u64;
    let d = varint(n) + addr_records(es);
    assert(d.skip(0) =~= d);
    crate::bytes::lemma_varint_at(d, 0, n, addr_records(es));
    lemma_addr_records(d, varint(n).len() as int, es, default_port);
}

/// An entry of `addrv2`: time, services, network, length of the address, address, port.
pub open spec fn addrv2_record(
    time: Seq<u8>,
    services: u64,
    network: u8,
    addr: Seq<u8>,
    port: u16,
) -> Seq<u8> {
    time + (varint(services) + (seq![network] + (varint(addr.len() as u64) + (addr + be16(port)))))
}

/// Entries of `addrv2`, one behind the other.
pub open spec fn addrv2_records(es: Seq<(Seq<u8>, u64, u8, Seq<u8>, u16)>) -> Seq<u8>
    decreases es.len(),
{
    if es.len() == 0 {
        Seq::empty()
    } else {
        addrv2_record(es[0].0, es[0].1, es[0].2, es[0].3, es[0].4) + addrv2_records(es.skip(1))
    }
}

/// The peers that entries name, in their order.
pub open spec fn named_peers(
    es: Seq<(Seq<u8>, u64, u8, Seq<u8>, u16)>,
    default_port: u16,
) -> Seq<PeerView>
    decreases es.len(),
{
    if es.len() == 0 {
        Seq::empty()
    } else {
        let rest = named_peers(es.skip(1), default_port);
        match addrv2_peer(es[0].2, es[0].3, port_or(es[0].4, default_port)) {
            Some(p) => seq![p] + rest,
            None => rest,
        }
    }
}

proof fn lemma_addrv2_record(
    d: Seq<u8>,
    pos: int,
    time: Seq<u8>,
    services: u64,
    network: u8,
    addr: Seq<u8>,
    port: u16,
    rest: Seq<u8>,
)
    requires
        0 <= pos <= d.len(),
        time.len() == 4,
        addr.len() <= 512,
        d.skip(pos) == addrv2_record(time, services, network, addr, port) + rest,
    ensures
        addrv2_parts(d, pos) matches Some((n, a, b)) && n == network && d.subrange(a, b) == addr
            && be16_value(d[b], d[b + 1]) == port && d.skip(b + 2) == rest && 0 <= a <= b && b + 2
            <= d.len(),
{
    let s = varint(services);
    let l = varint(addr.len() as u64);
    let e = addr + be16(port) + rest;
    let u = d.skip(pos);
    assert(u.len() == d.len() - pos);
    let d4 = d.skip(pos + 4);
    assert(d4 =~= u.skip(4));
    assert(d4 =~= s + (seq![network] + l + e));
    crate::bytes::lemma_varint_at(d, pos + 4, services, seq![network] + l + e);
    let p = pos + 4 + s.len();
    let dp = d.skip(p);
    assert(dp == seq![network] + l + e);
    assert(dp[0] == d[p]);
    assert(d.skip(p + 1) =~= dp.skip(1));
    assert(dp.skip(1) =~= l + e);
    crate::bytes::lemma_varint_at(d, p + 1, addr.len() as u64, e);
    let q = p + 1 + l.len();
    let dq = d.skip(q);
    assert(dq == e);
    assert(dq.len() == d.len() - q);
    let b = q + addr.len();
    assert(d.subrange(q, b) =~= addr) by {
        assert forall|j: int| 0 <= j < addr.len() implies d[q + j] == addr[j] by {
            assert(dq[j] == d[q + j]);
        }
    }
    assert(dq[addr.len() as int] == d[b] && dq[addr.len() as int + 1] == d[b + 1]);
    crate::bytes::law_network_order(port, 0, 0);
    assert(d.skip(b + 2) =~= rest) by {
        assert forall|j: int| 0 <= j < rest.len() implies d[b + 2 + j] == rest[j] by {
            assert(dq[addr.len() + 2 + j] == d[b + 2 + j]);
        }
    }
}

proof fn lemma_addrv2_records(
    d: Seq<u8>,
    pos: int,
    es: Seq<(Seq<u8>, u64, u8, Seq<u8>, u16)>,
    default_port: u16,
)
    requires
        0 <= pos <= d.len(),
        d.skip(pos) == addrv2_records(es),
        forall|i: int|
            0 <= i < es.len() ==> (#[trigger] es[i]).0.len() == 4 && es[i].3.len() <= 512,
    ensures
        addrv2_from(d, pos, es.len(), default_port) == named_peers(es, default_port),
    decreases es.len(),
{
    if es.len() > 0 {
        let (time, services, network, addr, port) = es[0];
        let rest = es.skip(1);
        lemma_addrv2_record(
            d,
            pos,
            time,
            services,
            network,
            addr,
            port,
            addrv2_records(rest),
        );
        assert forall|i: int| 0 <= i < rest.len() implies (#[trigger] rest[i]).0.len() == 4
            && rest[i].3.len() <= 512 by {
            assert(rest[i] == es[i + 1]);
        }
        let (n, a, b) = addrv2_parts(d, pos).unwrap();
        lemma_addrv2_records(d, b + 2, rest, default_port);
    }
}

/// The entries of an `addrv2` message, up to a thousand, are read back in their order, those of
/// other networks passed over.
pub proof fn law_addrv2_message_reads_back(
    es: Seq<(Seq<u8>, u64, u8, Seq<u8>, u16)>,
    default_port: u16,
)
    requires
        es.len() <= 1000,
        forall|i: int|
            0 <= i < es.len() ==> (#[trigger] es[i]).0.len() == 4 && es[i].3.len() <= 512,
    ensures
        addrv2_peers(varint(es.len() as u64) + addrv2_records(es), default_port) == named_peers(
            es,
            default_port,
        ),
{
    let n = es.len() as u64;
    let d = varint(n) + addrv2_records(es);
    assert(d.skip(0) =~= d);
    crate::bytes::lemma_varint_at(d, 0, n, addrv2_records(es));
    lemma_addrv2_records(d, varint(n).len() as int, es, default_port);
}

/// An `addrv2` entry that was written for an IPv4 address, four bytes under network 1, or for an
/// IPv6 address, sixteen bytes under network 2, is read back as that address with its port, or with
/// the default port where that is 0; a Tor key, 32 bytes under network 4, as the onion host of the
/// key. Entries with any other network or length name no peer.
pub proof fn law_addrv2_entry_reads_back(
    ip4: Ipv4Addr,
    ip6: Ipv6Addr,
    key: Seq<u8>,
    port: u16,
    default_port: u16,
    time: Seq<u8>,
    services: u64,
)
    requires
        time.len() == 4,
        key.len() == 32,
    ensures
        ({
            let given = if port == 0 {
                default_port
            } else {
                port
            };
            let one = seq![1u8];
            let a4 = seq![ip4.a, ip4.b, ip4.c, ip4.d];
            let a6 = ip_bytes(IpAddr::V6(ip6));
            &&& addrv2_peers(one + addrv2_record(time, services, 1, a4, port), default_port) == seq![
                PeerView::Clearnet(SocketAddr::V4 { ip: ip4, port: given }),
            ]
            &&& addrv2_peers(one + addrv2_record(time, services, 2, a6, port), default_port) == seq![
                PeerView::Clearnet(SocketAddr::V6 { ip: ip6, port: given, scope_id: 0 }),
            ]
            &&& addrv2_peers(one + addrv2_record(time, services, 4, key, port), default_port) == seq![
                PeerView::Onion(onion_host(key), given),
            ]
        }),
        forall|network: u8, addr: Seq<u8>|
            !(network == 1 && addr.len() == 4) && !(network == 2 && addr.len() == 16) && !(network
                == 4 && addr.len() == 32) ==> #[trigger] addrv2_peer(network, addr, port).is_none(),
{
    let a4 = seq![ip4.a, ip4.b, ip4.c, ip4.d];
    let a6 = ip_bytes(IpAddr::V6(ip6));
    let given = port_or(port, default_port);
    assert(varint(1) =~= seq![1u8]);
    lemma_addrv2_v6(ip6, given);
    assert(addrv2_peer(1, a4, given) == Some(
        PeerView::Clearnet(SocketAddr::V4 { ip: ip4, port: given }),
    ));
    assert(addrv2_peer(4, key, given) == Some(PeerView::Onion(onion_host(key), given)));
    lemma_one_addrv2(time, services, 1, a4, port, default_port);
    lemma_one_addrv2(time, services, 2, a6, port, default_port);
    lemma_one_addrv2(time, services, 4, key, port, default_port);
}

/// The sixteen bytes of an IPv6 address under network 2 are that address.
proof fn lemma_addrv2_v6(ip: Ipv6Addr, port: u16)
    ensures
        ip_bytes(IpAddr::V6(ip)).len() == 16,
        addrv2_peer(2, ip_bytes(IpAddr::V6(ip)), port) == Some(
            PeerView::Clearnet(SocketAddr::V6 { ip, port, scope_id: 0 }),
        ),
{
    lemma_ip_bytes_len(IpAddr::V6(ip));
}

proof fn lemma_one_addrv2(
    time: Seq<u8>,
    services: u64,
    network: u8,
    addr: Seq<u8>,
    port: u16,
    default_port: u16,
)
    requires
        time.len() == 4,
        addr.len() <= 512,
        addrv2_peer(network, addr, port_or(port, default_port)).is_some(),
    ensures
        addrv2_peers(varint(1) + addrv2_record(time, services, network, addr, port), default_port)
            == seq![addrv2_peer(network, addr, port_or(port, default_port)).unwrap()],
{
    let es = seq![(time, services, network, addr, port)];
    reveal_with_fuel(addrv2_records, 2);
    reveal_with_fuel(named_peers, 2);
    assert(es.skip(1) =~= Seq::<(Seq<u8>, u64, u8, Seq<u8>, u16)>::empty());
    let r = addrv2_record(time, services, network, addr, port);
    assert(r + Seq::<u8>::empty() =~= r);
    law_addrv2_message_reads_back(es, default_port);
    let p = addrv2_peer(network, addr, port_or(port, default_port)).unwrap();
    assert(seq![p] + Seq::<PeerView>::empty() =~= seq![p]);
}

/// No message names more than a thousand peers.
pub proof fn law_gossip_is_capped(d: Seq<u8>, default_port: u16)
    ensures
        addr_peers(d, default_port).len() <= 1000,
        addrv2_peers(d, default_port).len() <= 1000,
{
    if let Some((n, p)) = varint_at(d, 0) {
        lemma_addr_len(d, p, lesser(n as int, 1000) as nat, default_port);
        lemma_addrv2_len(d, p, lesser(n as int, 1000) as nat, default_port);
    }
}

proof fn lemma_addr_len(d: Seq<u8>, pos: int, count: nat, default_port: u16)
    ensures
        addr_from(d, pos, count, default_port).len() <= count,
    decreases count,
{
    if count > 0 && pos + 30 <= d.len() {
        lemma_addr_len(d, pos + 30, (count - 1) as nat, default_port);
    }
}

proof fn lemma_addrv2_len(d: Seq<u8>, pos: int, count: nat, default_port: u16)
    ensures
        addrv2_from(d, pos, count, default_port).len() <= count,
    decreases count,
{
    if count > 0 {
        if let Some((network, a, b)) = addrv2_parts(d, pos) {
            lemma_addrv2_len(d, b + 2, (count - 1) as nat, default_port);
        }
    }
}

/// A `version` payload says the protocol version and the services in its first twelve bytes, the
/// user agent behind 68 bytes more, and the height behind that, whatever follows.
pub proof fn law_version_is_read(
    protocol_version: i32,
    services: u64,
    between: Seq<u8>,
    agent: Seq<char>,
    start_height: i32,
    behind: Seq<u8>,
)
    requires
        between.len() == 68,
        encode_utf8(agent).len() <= u64::MAX,
    ensures
        version_of(
            le_bytes(unsigned32(protocol_version as int), 4) + le_bytes(services as nat, 8) + between
                + varint(encode_utf8(agent).len() as u64) + encode_utf8(agent) + le_bytes(
                unsigned32(start_height as int),
                4,
            ) + behind,
        ) == Ok::<PeerVersionView, WireError>(
            (PeerVersionView { protocol_version, services, user_agent: agent, start_height }),
        ),
{
    let ua = encode_utf8(agent);
    let v = le_bytes(unsigned32(protocol_version as int), 4);
    let s = le_bytes(services as nat, 8);
    let l = varint(ua.len() as u64);
    let h = le_bytes(unsigned32(start_height as int), 4);
    let d = v + s + between + l + ua + h + behind;
    lemma_pow256();
    crate::bytes::lemma_le_bytes_len(unsigned32(protocol_version as int), 4);
    crate::bytes::lemma_le_bytes_len(services as nat, 8);
    crate::bytes::lemma_le_bytes_len(unsigned32(start_height as int), 4);
    crate::bytes::lemma_le_read_back(unsigned32(protocol_version as int), 4);
    crate::bytes::lemma_le_read_back(services as nat, 8);
    crate::bytes::lemma_le_read_back(unsigned32(start_height as int), 4);
    vstd::utf8::encode_utf8_valid_utf8(agent);
    vstd::utf8::encode_utf8_decode_utf8(agent);
    assert(d.skip(80) =~= l + (ua + h + behind));
    crate::bytes::lemma_varint_at(d, 80, ua.len() as u64, ua + h + behind);
    let p = 80 + l.len() as int;
    assert(d.subrange(0, 4) =~= v);
    assert(d.subrange(4, 12) =~= s);
    assert(d.subrange(p, p + ua.len()) =~= ua);
    assert(d.subrange(p + ua.len(), p + ua.len() + 4) =~= h);
}

/// What a peer has at a height is the hash of the header so many behind the block of the locator
/// that its headers begin behind; the first such block of the locator counts.
pub proof fn law_hash_at_height(
    headers: Seq<HeaderView>,
    locator: Seq<([u8; 32], i64)>,
    target: i64,
    j: int,
)
    requires
        0 <= j < locator.len(),
        headers.len() > 0,
        locator[j].0@ == headers[0].prev,
        forall|i: int| 0 <= i < j ==> (#[trigger] locator[i]).0@ != headers[0].prev,
    ensures
        1 <= target - locator[j].1 <= headers.len() ==> hash_at(headers, locator, target)
            == reversed_hex(headers[target - locator[j].1 - 1].hash),
        !(1 <= target - locator[j].1 <= headers.len()) ==> hash_at(headers, locator, target).len()
            == 0,
{
    lemma_anchor(locator, headers[0].prev, j);
}

proof fn lemma_anchor(locator: Seq<([u8; 32], i64)>, prev: Seq<u8>, j: int)
    requires
        0 <= j < locator.len(),
        locator[j].0@ == prev,
        forall|i: int| 0 <= i < j ==> (#[trigger] locator[i]).0@ != prev,
    ensures
        anchor(locator, prev) == Some(locator[j].1),
    decreases j,
{
    if j > 0 {
        let r = locator.skip(1);
        assert(locator[0].0@ != prev);
        assert forall|i: int| 0 <= i < j - 1 implies (#[trigger] r[i]).0@ != prev by {
            assert(r[i] == locator[i + 1]);
        }
        lemma_anchor(r, prev, j - 1);
    }
}

/// The text of a block hash is its bytes from the last to the first, two small hexadecimal digits
/// each, the high one first.
pub proof fn law_hash_text(h: Seq<u8>, i: int)
    requires
        0 <= i < h.len(),
    ensures
        reversed_hex(h).len() == 2 * h.len(),
        ({
            let hi = reversed_hex(h)[2 * i] as int;
            let lo = reversed_hex(h)[2 * i + 1] as int;
            let v = |c: int|
                if c < 58 {
                    c - 48
                } else {
                    c - 87
                };
            &&& 48 <= hi <= 57 || 97 <= hi <= 102
            &&& 48 <= lo <= 57 || 97 <= lo <= 102
            &&& 16 * v(hi) + v(lo) == h[h.len() - 1 - i]
        }),
{
    assert((2 * i) % 2 == 0 && (2 * i) / 2 == i);
    assert((2 * i + 1) % 2 == 1 && (2 * i + 1) / 2 == i);
}

/// Headers of a `headers` message, one behind the other: eighty bytes and the number of
/// transactions, which is of no interest here.
pub open spec fn header_records(hs: Seq<(Seq<u8>, u64)>) -> Seq<u8>
    decreases hs.len(),
{
    if hs.len() == 0 {
        Seq::empty()
    } else {
        hs[0].0 + (varint(hs[0].1) + header_records(hs.skip(1)))
    }
}

proof fn lemma_header_records(d: Seq<u8>, pos: int, hs: Seq<(Seq<u8>, u64)>)
    requires
        0 <= pos <= d.len(),
        d.skip(pos) == header_records(hs),
        forall|i: int| 0 <= i < hs.len() ==> (#[trigger] hs[i]).0.len() == 80,
    ensures
        headers_from(d, pos, hs.len()).len() == hs.len(),
        forall|i: int|
            0 <= i < hs.len() ==> (#[trigger] headers_from(d, pos, hs.len())[i]).hash
                == double_sha256(hs[i].0) && headers_from(d, pos, hs.len())[i].prev
                == hs[i].0.subrange(4, 36),
    decreases hs.len(),
{
    if hs.len() > 0 {
        let (h, n) = hs[0];
        let rest = hs.skip(1);
        let u = d.skip(pos);
        assert(u.len() == d.len() - pos);
        assert forall|j: int| 0 <= j < 80 implies d[pos + j] == h[j] by {
            assert(u[j] == d[pos + j]);
        }
        assert(d.subrange(pos, pos + 80) =~= h);
        assert(d.subrange(pos + 4, pos + 36) =~= h.subrange(4, 36));
        assert(d.skip(pos + 80) =~= u.skip(80));
        assert(u.skip(80) =~= varint(n) + header_records(rest));
        crate::bytes::lemma_varint_at(d, pos + 80, n, header_records(rest));
        let p = pos + 80 + varint(n).len();
        assert forall|i: int| 0 <= i < rest.len() implies (#[trigger] rest[i]).0.len() == 80 by {
            assert(rest[i] == hs[i + 1]);
        }
        lemma_header_records(d, p, rest);
        let all = headers_from(d, pos, hs.len());
        let more = headers_from(d, p, rest.len());
        assert forall|i: int| 0 <= i < hs.len() implies (#[trigger] all[i]).hash == double_sha256(
            hs[i].0,
        ) && all[i].prev == hs[i].0.subrange(4, 36) by {
            if i > 0 {
                assert(all[i] == more[i - 1]);
                assert(rest[i - 1] == hs[i]);
            }
        }
    }
}

/// The headers of a message, up to two thousand, are read in their order: each has the double
/// SHA-256 of its eighty bytes for a hash, and names its predecessor in bytes 4 to 36.
pub proof fn law_headers_message_reads_back(hs: Seq<(Seq<u8>, u64)>)
    requires
        hs.len() <= 2000,
        forall|i: int| 0 <= i < hs.len() ==> (#[trigger] hs[i]).0.len() == 80,
    ensures
        ({
            let r = headers_of(varint(hs.len() as u64) + header_records(hs));
            &&& r.len() == hs.len()
            &&& forall|i: int|
                0 <= i < hs.len() ==> (#[trigger] r[i]).hash == crate::hash::sha256(
                    crate::hash::sha256(hs[i].0),
                ) && r[i].prev == hs[i].0.subrange(4, 36)
        }),
{
    let n = hs.len() as u64;
    let d = varint(n) + header_records(hs);
    assert(d.skip(0) =~= d);
    crate::bytes::lemma_varint_at(d, 0, n, header_records(hs));
    lemma_header_records(d, varint(n).len() as int, hs);
}

/// A message has the magic of its network in front, then its command in twelve bytes, the length of
/// its payload with the lowest byte first, a checksum, and the payload. The checksum is the first
/// four bytes of the double SHA-256 of the payload.
pub proof fn law_message_form(
    magic: Seq<u8>,
    command: Seq<char>,
    check: Seq<u8>,
    payload: Seq<u8>,
)
    requires
        magic.len() == 4,
        check.len() == 4,
        is_command(command),
        payload.len() < 0x1_0000_0000,
    ensures
        ({
            let m = framed(magic, command, check, payload);
            &&& m.len() == 24 + payload.len()
            &&& m.take(4) == magic
            &&& forall|i: int|
                0 <= i < command.len() ==> m[4 + i] as int == #[trigger] command[i] as int
            &&& forall|i: int| 4 + command.len() <= i < 16 ==> #[trigger] m[i] == 0
            &&& m[16] + 256 * m[17] + 65536 * m[18] + 16777216 * m[19] == payload.len()
            &&& m.subrange(20, 24) == check
            &&& m.skip(24) == payload
        }),
        message(magic, command, payload) == framed(
            magic,
            command,
            crate::hash::sha256(crate::hash::sha256(payload)).take(4),
            payload,
        ),
{
    let m = framed(magic, command, check, payload);
    crate::bytes::lemma_le_bytes_len(payload.len(), 4);
    crate::bytes::law_low_byte_first(0, 0, 0, 0, Seq::empty(), payload.len());
    assert(vstd::utf8::is_ascii_chars(command)) by {
        assert forall|i: int| 0 <= i < command.len() implies '\0' <= #[trigger] command[i]
            <= '\u{7f}' by {
            assert(0 < command[i] as int && command[i] as int <= 127);
        }
    }
    vstd::utf8::is_ascii_chars_encode_utf8(command);
    assert(m.take(4) =~= magic);
    assert(m.subrange(20, 24) =~= check);
    assert(m.skip(24) =~= payload);
    assert(m.subrange(16, 20) =~= le_bytes(payload.len(), 4));
    let l = m.subrange(16, 20);
    assert(l[0] == m[16] && l[1] == m[17] && l[2] == m[18] && l[3] == m[19]);
}

/// Each network has a magic and a port of its own, and no other name is known.
pub proof fn law_networks(name: Seq<char>)
    ensures
        name == "main"@ || name == "mainnet"@ ==> network_name(name) == Some("main"@)
            && network_magic(name) == seq![0xF9u8, 0xBE, 0xB4, 0xD9] && network_port(name) == 8333,
        name == "test"@ || name == "testnet"@ || name == "testnet3"@ ==> network_name(name) == Some(
            "test"@,
        ) && network_magic(name) == seq![0x0Bu8, 0x11, 0x09, 0x07] && network_port(name) == 18333,
        name == "signet"@ ==> network_name(name) == Some("signet"@) && network_magic(name) == seq![
            0x0Au8,
            0x03,
            0xCF,
            0x40,
        ] && network_port(name) == 38333,
        name == "regtest"@ ==> network_name(name) == Some("regtest"@) && network_magic(name)
            == seq![0xFAu8, 0xBF, 0xB5, 0xDA] && network_port(name) == 18444,
        name != "main"@ && name != "mainnet"@ && name != "test"@ && name != "testnet"@ && name
            != "testnet3"@ && name != "signet"@ && name != "regtest"@ ==> network_name(
            name,
        ).is_none(),
{
    reveal_strlit("main");
    reveal_strlit("mainnet");
    reveal_strlit("test");
    reveal_strlit("testnet");
    reveal_strlit("testnet3");
    reveal_strlit("signet");
    reveal_strlit("regtest");
    assert("main"@.len() == 4 && "main"@[0] == 'm' && "mainnet"@.len() == 7 && "mainnet"@[0] == 'm'
        && "test"@.len() == 4 && "test"@[0] == 't' && "testnet"@.len() == 7 && "testnet"@[0] == 't'
        && "testnet3"@.len() == 8 && "signet"@.len() == 6 && "regtest"@.len() == 7
        && "regtest"@[0] == 'r');
}

// ---- base 32 ------------------------------------------------------------------------------

/// The bits of a byte add up to it.
pub proof fn lemma_byte_bits(b: u8)
    ensures
        b == 128 * byte_bit(b, 0) + 64 * byte_bit(b, 1) + 32 * byte_bit(b, 2) + 16 * byte_bit(b, 3)
            + 8 * byte_bit(b, 4) + 4 * byte_bit(b, 5) + 2 * byte_bit(b, 6) + byte_bit(b, 7),
        forall|j: int| 0 <= j < 8 ==> 0 <= #[trigger] byte_bit(b, j) <= 1,
{
    let n = b as int;
    assert(n == 2 * (n / 2) + n % 2);
    assert(n / 2 == 2 * (n / 4) + (n / 2) % 2);
    assert(n / 4 == 2 * (n / 8) + (n / 4) % 2);
    assert(n / 8 == 2 * (n / 16) + (n / 8) % 2);
    assert(n / 16 == 2 * (n / 32) + (n / 16) % 2);
    assert(n / 32 == 2 * (n / 64) + (n / 32) % 2);
    assert(n / 64 == 2 * (n / 128) + (n / 64) % 2);
    assert(n / 128 == (n / 128) % 2);
}

/// Five bytes are eight characters of base 32: five bits each from the highest on, as small letters
/// and then the digits from 2 to 7.
pub proof fn law_base32_group(data: Seq<u8>, g: int)
    requires
        0 <= g,
        5 * g + 5 <= data.len(),
    ensures
        base32(data).len() == (data.len() * 8 + 4) / 5,
        ({
            let v = |k: int|
                if base32(data)[8 * g + k] as int >= 97 {
                    base32(data)[8 * g + k] as int - 97
                } else {
                    base32(data)[8 * g + k] as int - 24
                };
            &&& forall|k: int|
                0 <= k < 8 ==> 'a' <= #[trigger] base32(data)[8 * g + k] <= 'z' || '2' <= base32(
                    data,
                )[8 * g + k] <= '7'
            &&& data[5 * g] == 8 * v(0) + v(1) / 4
            &&& data[5 * g + 1] == 64 * (v(1) % 4) + 2 * v(2) + v(3) / 16
            &&& data[5 * g + 2] == 16 * (v(3) % 16) + v(4) / 2
            &&& data[5 * g + 3] == 128 * (v(4) % 2) + 4 * v(5) + v(6) / 8
            &&& data[5 * g + 4] == 32 * (v(6) % 8) + v(7)
        }),
{
    assert forall|k: int| 0 <= k < 8 implies #[trigger] base32(data)[8 * g + k] == base32_char(
        five_bits(data, g, 5 * k),
    ) by {
        assert(5 * (8 * g + k) == 40 * g + 5 * k);
    }
    lemma_five_bytes(data, g);
    let s = base32(data);
    assert(s[8 * g + 0] == base32_char(five_bits(data, g, 0)));
    assert(s[8 * g + 1] == base32_char(five_bits(data, g, 5)));
    assert(s[8 * g + 2] == base32_char(five_bits(data, g, 10)));
    assert(s[8 * g + 3] == base32_char(five_bits(data, g, 15)));
    assert(s[8 * g + 4] == base32_char(five_bits(data, g, 20)));
    assert(s[8 * g + 5] == base32_char(five_bits(data, g, 25)));
    assert(s[8 * g + 6] == base32_char(five_bits(data, g, 30)));
    assert(s[8 * g + 7] == base32_char(five_bits(data, g, 35)));
}

/// The number that five bits make, `i` bits into a group of five bytes.
spec fn five_bits(data: Seq<u8>, g: int, i: int) -> int {
    16 * bit_of(data, 40 * g + i) + 8 * bit_of(data, 40 * g + i + 1) + 4 * bit_of(
        data,
        40 * g + i + 2,
    ) + 2 * bit_of(data, 40 * g + i + 3) + bit_of(data, 40 * g + i + 4)
}

/// The bits of one byte of a group.
proof fn lemma_group_byte(data: Seq<u8>, g: int, k: int)
    requires
        0 <= g,
        0 <= k < 5,
        5 * g + 5 <= data.len(),
    ensures
        ({
            let p = 40 * g + 8 * k;
            &&& data[5 * g + k] == 128 * bit_of(data, p) + 64 * bit_of(data, p + 1) + 32 * bit_of(
                data,
                p + 2,
            ) + 16 * bit_of(data, p + 3) + 8 * bit_of(data, p + 4) + 4 * bit_of(data, p + 5) + 2
                * bit_of(data, p + 6) + bit_of(data, p + 7)
            &&& forall|j: int| p <= j < p + 8 ==> 0 <= #[trigger] bit_of(data, j) <= 1
        }),
{
    let p = 40 * g + 8 * k;
    let b = data[5 * g + k];
    lemma_byte_bits(b);
    assert forall|j: int| p <= j < p + 8 implies #[trigger] bit_of(data, j) == byte_bit(b, j - p) by {
        assert(j / 8 == 5 * g + k);
        assert(j % 8 == j - p);
    }
}

/// Five bytes from eight numbers of five bits.
#[verifier::rlimit(40)]
proof fn lemma_five_bytes(data: Seq<u8>, g: int)
    requires
        0 <= g,
        5 * g + 5 <= data.len(),
    ensures
        ({
            let v = |k: int| five_bits(data, g, 5 * k);
            &&& forall|k: int| 0 <= k < 8 ==> 0 <= #[trigger] five_bits(data, g, 5 * k) < 32
            &&& data[5 * g] == 8 * v(0) + v(1) / 4
            &&& data[5 * g + 1] == 64 * (v(1) % 4) + 2 * v(2) + v(3) / 16
            &&& data[5 * g + 2] == 16 * (v(3) % 16) + v(4) / 2
            &&& data[5 * g + 3] == 128 * (v(4) % 2) + 4 * v(5) + v(6) / 8
            &&& data[5 * g + 4] == 32 * (v(6) % 8) + v(7)
        }),
{
    lemma_group_byte(data, g, 0);
    lemma_group_byte(data, g, 1);
    lemma_group_byte(data, g, 2);
    lemma_group_byte(data, g, 3);
    lemma_group_byte(data, g, 4);
    assert forall|j: int| 40 * g <= j < 40 * g + 40 implies 0 <= #[trigger] bit_of(data, j) <= 1 by {
        if j < 40 * g + 8 {
        } else if j < 40 * g + 16 {
        } else if j < 40 * g + 24 {
        } else if j < 40 * g + 32 {
        }
    }
    let w = |i: int| bit_of(data, 40 * g + i);
    lemma_five(w(0), w(1), w(2), w(3), w(4));
    lemma_five(w(5), w(6), w(7), w(8), w(9));
    lemma_five(w(10), w(11), w(12), w(13), w(14));
    lemma_five(w(15), w(16), w(17), w(18), w(19));
    lemma_five(w(20), w(21), w(22), w(23), w(24));
    lemma_five(w(25), w(26), w(27), w(28), w(29));
    lemma_five(w(30), w(31), w(32), w(33), w(34));
    lemma_five(w(35), w(36), w(37), w(38), w(39));
}

/// Where a number of five bits is cut in two.
proof fn lemma_five(a: int, b: int, c: int, d: int, e: int)
    requires
        0 <= a <= 1,
        0 <= b <= 1,
        0 <= c <= 1,
        0 <= d <= 1,
        0 <= e <= 1,
    ensures
        ({
            let v = 16 * a + 8 * b + 4 * c + 2 * d + e;
            &&& 0 <= v < 32
            &&& v / 16 == a && v % 16 == 8 * b + 4 * c + 2 * d + e
            &&& v / 8 == 2 * a + b && v % 8 == 4 * c + 2 * d + e
            &&& v / 4 == 4 * a + 2 * b + c && v % 4 == 2 * d + e
            &&& v / 2 == 8 * a + 4 * b + 2 * c + d && v % 2 == e
        }),
{
}

/// Where the fields of a `version` payload stand: the protocol version, no services, the time, the
/// address that it goes to, the nonce, and at the end no wish for transactions.
pub proof fn law_version_form(
    recv_ip: Ipv4Addr,
    recv_port: u16,
    start_height: i32,
    now: u64,
    nonce: u64,
)
    ensures
        ({
            let d = version_bytes(IpAddr::V4(recv_ip), recv_port, start_height, now, nonce);
            &&& d.len() == 108
            &&& le_value(d.subrange(0, 4)) == 70016
            &&& le_value(d.subrange(4, 12)) == 0
            &&& le_value(d.subrange(12, 20)) == now
            &&& d.subrange(40, 44) == seq![recv_ip.a, recv_ip.b, recv_ip.c, recv_ip.d]
            &&& 256 * d[44] + d[45] == recv_port
            &&& le_value(d.subrange(72, 80)) == nonce
            &&& d[107] == 0
        }),
{
    let d = version_bytes(IpAddr::V4(recv_ip), recv_port, start_height, now, nonce);
    let ua = own_user_agent();
    reveal_strlit("/bip110-crawler:0.1.0/");
    vstd::utf8::is_ascii_chars_encode_utf8("/bip110-crawler:0.1.0/"@);
    assert(ua.len() == 22);
    let height = unsigned32(start_height as int);
    lemma_pow256();
    crate::bytes::lemma_le_bytes_len(PROTOCOL_VERSION as nat, 4);
    crate::bytes::lemma_le_bytes_len(0, 8);
    crate::bytes::lemma_le_bytes_len(now as nat, 8);
    crate::bytes::lemma_le_bytes_len(nonce as nat, 8);
    crate::bytes::lemma_le_bytes_len(height, 4);
    crate::bytes::lemma_le_read_back(PROTOCOL_VERSION as nat, 4);
    crate::bytes::lemma_le_read_back(0, 8);
    crate::bytes::lemma_le_read_back(now as nat, 8);
    crate::bytes::lemma_le_read_back(nonce as nat, 8);
    crate::bytes::law_network_order(recv_port, 0, 0);
    lemma_ip_bytes_len(IpAddr::V4(recv_ip));
    lemma_ip_bytes_len(no_address());
    assert(varint(22) =~= seq![22u8]);
    assert(d.len() == 108);
    assert(d.subrange(0, 4) =~= le_bytes(PROTOCOL_VERSION as nat, 4));
    assert(d.subrange(4, 12) =~= le_bytes(0, 8));
    assert(d.subrange(12, 20) =~= le_bytes(now as nat, 8));
    let to = netaddr(0, IpAddr::V4(recv_ip), recv_port);
    assert(d.subrange(20, 46) =~= to);
    assert(to.subrange(20, 24) =~= seq![recv_ip.a, recv_ip.b, recv_ip.c, recv_ip.d]);
    assert(d.subrange(40, 44) =~= to.subrange(20, 24));
    assert(d[44] == to[24] && d[45] == to[25]);
    assert(d.subrange(72, 80) =~= le_bytes(nonce as nat, 8));
}

proof fn lemma_joined_hashes(locator: Seq<[u8; 32]>, i: int)
    requires
        0 <= i < locator.len(),
    ensures
        joined_hashes(locator).len() == 32 * locator.len(),
        joined_hashes(locator).subrange(32 * i, 32 * i + 32) == locator[i]@,
    decreases locator.len(),
{
    let d = locator.drop_last();
    let j = joined_hashes(locator);
    if d.len() > 0 {
        lemma_joined_hashes(d, if i < d.len() {
            i
        } else {
            0
        });
    } else {
        assert(joined_hashes(d).len() == 0);
    }
    assert(locator.last()@.len() == 32);
    if i < d.len() {
        assert(j.subrange(32 * i, 32 * i + 32) =~= joined_hashes(d).subrange(32 * i, 32 * i + 32));
    } else {
        assert(j.subrange(32 * i, 32 * i + 32) =~= locator[i]@);
    }
}

/// A request for headers says the protocol version and how many hashes follow, holds these in their
/// order, and ends in a hash of zeros.
pub proof fn law_getheaders_form(locator: Seq<[u8; 32]>, i: int)
    requires
        0 <= i < locator.len() < 253,
    ensures
        ({
            let d = getheaders_payload(locator);
            &&& d.len() == 37 + 32 * locator.len()
            &&& le_value(d.subrange(0, 4)) == 70016
            &&& d[4] == locator.len()
            &&& d.subrange(5 + 32 * i, 37 + 32 * i) == locator[i]@
            &&& forall|k: int| d.len() - 32 <= k < d.len() ==> d[k] == 0
        }),
{
    let d = getheaders_payload(locator);
    let j = joined_hashes(locator);
    lemma_pow256();
    lemma_joined_hashes(locator, i);
    crate::bytes::lemma_le_bytes_len(PROTOCOL_VERSION as nat, 4);
    crate::bytes::lemma_le_read_back(PROTOCOL_VERSION as nat, 4);
    crate::bytes::law_varint_form(locator.len() as u64);
    assert(d.subrange(0, 4) =~= le_bytes(PROTOCOL_VERSION as nat, 4));
    assert(d.subrange(5 + 32 * i, 37 + 32 * i) =~= j.subrange(32 * i, 32 * i + 32));
}

} // verus!
