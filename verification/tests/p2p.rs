use bip110_crawler::addr::{IpAddr, Ipv4Addr, SocketAddr};
use bip110_crawler::bytes::write_varint;
use bip110_crawler::hash::double_sha256_of;
use bip110_crawler::p2p::{
    base32_lower, block_hash, build_getheaders, build_message, build_version_payload, checksum,
    encode_netaddr_no_time, hash_hex, ip16_to_addr, ip_to_16, onion_v3_host, parse_addr,
    parse_addrv2, parse_headers, parse_version_payload, peer_hash_at, read_header,
    version_payload, FrameError, NetworkParams, Peer,
};

fn b32_decode(s: &str) -> Vec<u8> {
    const ALPH: &[u8] = b"abcdefghijklmnopqrstuvwxyz234567";
    let (mut bits, mut nbits, mut out) = (0u32, 0u32, Vec::new());
    for c in s.bytes() {
        let v = ALPH.iter().position(|&a| a == c).expect("valid base32") as u32;
        bits = (bits << 5) | v;
        nbits += 5;
        if nbits >= 8 {
            nbits -= 8;
            out.push((bits >> nbits) as u8);
        }
    }
    out
}

#[test]
fn onion_v3_matches_known_address() {
    let addr = "duckduckgogg42xjoc72x3sjasowoarfbgcmvfimaftt6twagswzczad.onion";
    let b32 = &addr[..addr.len() - ".onion".len()];
    let decoded = b32_decode(b32);
    assert_eq!(decoded.len(), 35);
    let host = onion_v3_host(&decoded[..32]).expect("32-byte key");
    assert_eq!(host, addr);
}

fn headers_payload(base: [u8; 32], n: usize) -> (Vec<u8>, Vec<[u8; 32]>) {
    let mut payload = Vec::new();
    write_varint(&mut payload, n as u64);
    let mut prev = base;
    let mut hashes = Vec::new();
    for i in 0..n {
        let mut hdr = [0u8; 80];
        hdr[0..4].copy_from_slice(&(0x2000_0000u32).to_le_bytes());
        hdr[4..36].copy_from_slice(&prev);
        hdr[36..68].copy_from_slice(&[i as u8 + 1; 32]);
        payload.extend_from_slice(&hdr);
        payload.push(0x00);
        let h = block_hash(&hdr);
        hashes.push(h);
        prev = h;
    }
    (payload, hashes)
}

#[test]
fn headers_parse_and_anchor_to_the_right_heights() {
    let base = [0xAAu8; 32];
    let (payload, hashes) = headers_payload(base, 5);
    let parsed = parse_headers(&payload);
    assert_eq!(parsed.len(), 5);
    assert_eq!(parsed[0].prev, base, "first header must extend the locator block");
    assert_eq!(parsed[0].hash, hashes[0]);
    assert_eq!(parsed[1].prev, hashes[0], "headers must chain to each other");

    let locator = vec![(base, 1000i64)];
    assert_eq!(peer_hash_at(&parsed, &locator, 1001), hash_hex(&hashes[0]));
    assert_eq!(peer_hash_at(&parsed, &locator, 1005), hash_hex(&hashes[4]));
    assert_eq!(peer_hash_at(&parsed, &locator, 1006), "");
    assert_eq!(peer_hash_at(&parsed, &locator, 1000), "");
    assert_eq!(peer_hash_at(&parsed, &locator, 999), "");
    let other = vec![([0xBBu8; 32], 1000i64)];
    assert_eq!(peer_hash_at(&parsed, &other, 1001), "");
}

#[test]
fn hash_hex_is_byte_reversed() {
    let mut h = [0u8; 32];
    h[0] = 0x11;
    h[31] = 0xff;
    let s = hash_hex(&h);
    assert!(s.starts_with("ff"), "display order is reversed: {s}");
    assert!(s.ends_with("11"));
}

#[test]
fn peer_parse_handles_onion_and_clearnet() {
    assert!(matches!(Peer::parse("1.2.3.4:8333", 8333), Some(Peer::Clearnet(_))));
    match Peer::parse(
        "duckduckgogg42xjoc72x3sjasowoarfbgcmvfimaftt6twagswzczad.onion:8333",
        8333,
    ) {
        Some(Peer::Onion(h, p)) => {
            assert!(h.ends_with(".onion"));
            assert_eq!(p, 8333);
        }
        other => panic!("expected onion, got {other:?}"),
    }
}

#[test]
fn parse_addrv2_decodes_onion() {
    let addr = "duckduckgogg42xjoc72x3sjasowoarfbgcmvfimaftt6twagswzczad.onion";
    let key = b32_decode(&addr[..addr.len() - ".onion".len()])[..32].to_vec();

    let mut payload = Vec::new();
    write_varint(&mut payload, 2);
    payload.extend_from_slice(&0u32.to_le_bytes());
    write_varint(&mut payload, 0);
    payload.push(0x01);
    write_varint(&mut payload, 4);
    payload.extend_from_slice(&[1, 2, 3, 4]);
    payload.extend_from_slice(&8333u16.to_be_bytes());
    payload.extend_from_slice(&0u32.to_le_bytes());
    write_varint(&mut payload, 0);
    payload.push(0x04);
    write_varint(&mut payload, 32);
    payload.extend_from_slice(&key);
    payload.extend_from_slice(&8333u16.to_be_bytes());

    let peers = parse_addrv2(&payload, 8333);
    assert_eq!(peers.len(), 2);
    assert!(peers.iter().any(|p| matches!(p, Peer::Clearnet(_))));
    assert!(peers.iter().any(|p| matches!(p, Peer::Onion(h, _) if h == addr)));
}

#[test]
fn peers_read_back_from_their_text() {
    for s in ["1.2.3.4:8333", "[2001:db8::1]:18333", "abc.onion:1234"] {
        let p = Peer::parse(s, 8333).unwrap();
        assert_eq!(p.to_string(), s);
    }
    assert!(matches!(Peer::parse("abc.onion", 8333), Some(Peer::Onion(h, 8333)) if h == "abc.onion"));
    assert!(Peer::parse("example.org:8333", 8333).is_none());
    assert!(Peer::parse("", 8333).is_none());
}

#[test]
fn a_key_of_another_length_is_no_onion_address() {
    assert!(onion_v3_host(&[0u8; 31]).is_none());
    assert!(onion_v3_host(&[0u8; 33]).is_none());
    assert_eq!(base32_lower(&[0xff]), "74");
    assert_eq!(base32_lower(b"foobar"), "mzxw6ytboi");
}

#[test]
fn networks_go_by_several_names() {
    let main = NetworkParams::from_name("mainnet").unwrap();
    assert_eq!(main.magic, [0xF9, 0xBE, 0xB4, 0xD9]);
    assert_eq!(main.default_port, 8333);
    assert_eq!(main.name, "main");
    assert_eq!(NetworkParams::from_name("testnet3").unwrap().default_port, 18333);
    assert_eq!(NetworkParams::from_name("signet").unwrap().default_port, 38333);
    assert_eq!(NetworkParams::from_name("regtest").unwrap().default_port, 18444);
    assert!(NetworkParams::from_name("moon").is_none());
}

#[test]
fn the_genesis_block_has_its_hash() {
    let mut h = vec![1u8, 0, 0, 0];
    h.extend_from_slice(&[0u8; 32]);
    let merkle = "3ba3edfd7a7b12b27ac72c3e67768f617fc81bc3888a51323a9fb8aa4b1e5e4a";
    for i in 0..32 {
        h.push(u8::from_str_radix(&merkle[2 * i..2 * i + 2], 16).unwrap());
    }
    h.extend_from_slice(&1_231_006_505u32.to_le_bytes());
    h.extend_from_slice(&0x1d00ffffu32.to_le_bytes());
    h.extend_from_slice(&2_083_236_893u32.to_le_bytes());
    assert_eq!(
        hash_hex(&block_hash(&h)),
        "000000000019d6689c085ae165831e934ff763ae46a2a6c172b3f1b60a8ce26f"
    );
}

#[test]
fn a_digest_of_nothing_is_known() {
    assert_eq!(checksum(&[]), [0x5d, 0xf6, 0xe0, 0xe2]);
    assert_eq!(double_sha256_of(&[])[..4], [0x5d, 0xf6, 0xe0, 0xe2]);
}

#[test]
fn a_message_header_reads_back() {
    let magic = [0xF9, 0xBE, 0xB4, 0xD9];
    let m = build_message(magic, "verack", &[7, 8, 9]);
    assert_eq!(m.len(), 27);
    let mut head = [0u8; 24];
    head.copy_from_slice(&m[..24]);
    assert_eq!(read_header(&head, magic), Ok(("verack".to_string(), 3)));
    assert_eq!(read_header(&head, [0; 4]), Err(FrameError::BadMagic));
    head[16..20].copy_from_slice(&4_194_305u32.to_le_bytes());
    assert_eq!(read_header(&head, magic), Err(FrameError::Oversized(4_194_305)));
    head[16..20].copy_from_slice(&4_194_304u32.to_le_bytes());
    assert!(read_header(&head, magic).is_ok());
}

#[test]
fn headers_are_asked_for_with_the_locator() {
    let magic = [1, 2, 3, 4];
    let m = build_getheaders(magic, &[[5u8; 32], [6u8; 32]]);
    assert_eq!(&m[4..14], b"getheaders");
    let p = &m[24..];
    assert_eq!(p[..4], 70016u32.to_le_bytes());
    assert_eq!(p[4], 2);
    assert_eq!(p[5..37], [5u8; 32]);
    assert_eq!(p[37..69], [6u8; 32]);
    assert_eq!(p[69..101], [0u8; 32]);
    assert_eq!(p.len(), 101);
}

fn v4(a: u8, b: u8, c: u8, d: u8) -> IpAddr {
    IpAddr::V4(Ipv4Addr { a, b, c, d })
}

#[test]
fn addresses_read_back_from_sixteen_bytes() {
    let ip = v4(1, 2, 3, 4);
    let b = ip_to_16(ip);
    assert_eq!(b, [0, 0, 0, 0, 0, 0, 0, 0, 0, 0, 0xff, 0xff, 1, 2, 3, 4]);
    assert_eq!(ip16_to_addr(&b), Some(ip));
    let six = IpAddr::parse("2001:db8::7").unwrap();
    assert_eq!(ip16_to_addr(&ip_to_16(six)), Some(six));
    assert_eq!(ip16_to_addr(&b[..15]), None);
    let n = encode_netaddr_no_time(9, ip, 8333);
    assert_eq!(n.len(), 26);
    assert_eq!(n[..8], 9u64.to_le_bytes());
    assert_eq!(n[24..], 8333u16.to_be_bytes());
}

#[test]
fn a_version_message_says_who_we_are() {
    let p = version_payload(v4(1, 2, 3, 4), 8333, -1, 1_600_000_000, 77);
    let v = parse_version_payload(&p).unwrap();
    assert_eq!(v.protocol_version, 70016);
    assert_eq!(v.services, 0);
    assert_eq!(v.user_agent, "/bip110-crawler:0.1.0/");
    assert_eq!(v.start_height, -1);
    assert_eq!(p[12..20], 1_600_000_000u64.to_le_bytes());
    assert_eq!(p[72..80], 77u64.to_le_bytes());
}

#[test]
fn two_version_messages_differ_in_their_nonce() {
    let a = build_version_payload(v4(1, 2, 3, 4), 8333, 0);
    let b = build_version_payload(v4(1, 2, 3, 4), 8333, 0);
    assert_eq!(a.len(), b.len());
    assert_ne!(a[72..80], b[72..80]);
    let stamp = u64::from_le_bytes([a[12], a[13], a[14], a[15], a[16], a[17], a[18], a[19]]);
    assert!(stamp > 1_700_000_000);
}

#[test]
fn a_user_agent_that_is_no_text_is_read_with_replacements() {
    let mut p = version_payload(v4(1, 2, 3, 4), 8333, 0, 1, 1);
    p[82] = 0xff;
    let v = parse_version_payload(&p).unwrap();
    assert!(v.user_agent.starts_with("/\u{fffd}ip110"));
}

#[test]
fn a_short_version_message_is_refused() {
    let p = version_payload(v4(1, 2, 3, 4), 8333, 0, 1, 1);
    assert!(parse_version_payload(&p[..40]).is_err());
    assert!(parse_version_payload(&p[..80]).is_err());
    assert!(parse_version_payload(&p[..90]).is_err());
    let msg = parse_version_payload(&p[..90]).unwrap_err().message();
    assert!(!msg.is_empty());
}

#[test]
fn gossip_of_the_first_kind_is_read_in_order() {
    let mut p = Vec::new();
    write_varint(&mut p, 2);
    for d in [4u8, 5] {
        p.extend_from_slice(&1u32.to_le_bytes());
        p.extend_from_slice(&encode_netaddr_no_time(1, v4(1, 2, 3, d), 8333));
    }
    let peers = parse_addr(&p, 8333);
    let texts: Vec<String> = peers.iter().map(|p| p.to_string()).collect();
    assert_eq!(texts, vec!["1.2.3.4:8333", "1.2.3.5:8333"]);
    assert_eq!(parse_addr(&p[..p.len() - 1], 8333).len(), 1);
    assert!(parse_addr(&[], 8333).is_empty());
}

#[test]
fn a_peer_on_port_zero_is_never_dialled() {
    let mut p = Vec::new();
    write_varint(&mut p, 1);
    p.extend_from_slice(&1u32.to_le_bytes());
    p.extend_from_slice(&encode_netaddr_no_time(1, v4(1, 2, 3, 4), 0));
    for q in parse_addr(&p, 8333) {
        match q {
            Peer::Clearnet(sa) => assert_ne!(sa.port(), 0),
            Peer::Onion(_, port) => assert_ne!(port, 0),
        }
    }
    assert!(SocketAddr::parse("1.2.3.4:0").is_some());
}
