use bip110_crawler::addr::{IpAddr, SocketAddr};
use bip110_crawler::bytes::write_varint;
use bip110_crawler::p2p::{encode_netaddr_no_time, version_payload, Peer};
use bip110_crawler::probe::{
    collect_read_timeout, dial, opening_messages, socks5_accepts, socks5_greeting,
    socks5_name_rest, socks5_reply, socks5_request, timeouts_for, Collection, Dial, Handshake,
    Socks5Rest, Timeouts,
};

const MAGIC: [u8; 4] = [0xF9, 0xBE, 0xB4, 0xD9];

fn command(m: &[u8]) -> String {
    m[4..16].iter().take_while(|b| **b != 0).map(|b| *b as char).collect()
}

fn hello() -> Vec<u8> {
    version_payload(IpAddr::parse("1.2.3.4").unwrap(), 8333, 9, 1, 2)
}

#[test]
fn a_handshake_needs_version_and_verack_in_any_order() {
    let mut h = Handshake::new();
    assert!(h.wants_message());
    assert!(h.on_message(MAGIC, "verack", &[]).unwrap().is_empty());
    assert!(h.wants_message());
    let out = h.on_message(MAGIC, "version", &hello()).unwrap();
    let names: Vec<String> = out.iter().map(|m| command(m)).collect();
    assert_eq!(names, vec!["sendaddrv2", "verack"]);
    assert!(!h.wants_message());
    assert_eq!(h.version.unwrap().start_height, 9);
}

#[test]
fn a_handshake_answers_pings_and_gives_up_after_twenty_messages() {
    let mut h = Handshake::new();
    let out = h.on_message(MAGIC, "ping", &[1, 2, 3]).unwrap();
    assert_eq!(command(&out[0]), "pong");
    assert_eq!(&out[0][24..], &[1, 2, 3]);
    for _ in 0..19 {
        assert!(h.wants_message());
        assert!(h.on_message(MAGIC, "inv", &[]).unwrap().is_empty());
    }
    assert!(!h.wants_message());
}

#[test]
fn a_broken_version_ends_the_handshake() {
    assert!(Handshake::new().on_message(MAGIC, "version", &[1]).is_err());
}

#[test]
fn the_collection_asks_for_peers_and_headers() {
    assert_eq!(opening_messages(MAGIC, &[]).len(), 1);
    let both = opening_messages(MAGIC, &[[7u8; 32]]);
    assert_eq!(command(&both[0]), "getaddr");
    assert_eq!(command(&both[1]), "getheaders");
}

fn gossip(n: u16) -> Vec<u8> {
    let mut p = Vec::new();
    write_varint(&mut p, n as u64);
    for i in 0..n {
        p.extend_from_slice(&1u32.to_le_bytes());
        let ip = IpAddr::parse(&format!("1.2.{}.{}", i / 250, i % 250 + 1)).unwrap();
        p.extend_from_slice(&encode_netaddr_no_time(1, ip, 8333));
    }
    p
}

#[test]
fn the_collection_is_done_with_enough_peers_and_the_headers() {
    let mut c = Collection::new(true);
    assert!(c.on_message(MAGIC, 8333, "addr", &gossip(1000)).is_empty());
    assert_eq!(c.discovered.len(), 1000);
    assert!(!c.done());
    c.on_message(MAGIC, 8333, "headers", &[0]);
    assert!(c.done());
    assert_eq!(command(&c.on_message(MAGIC, 8333, "ping", &[5])[0]), "pong");
    let mut d = Collection::new(false);
    assert!(!d.done());
    d.on_message(MAGIC, 8333, "addr", &gossip(1));
    assert_eq!(d.discovered.len(), 1);
}

#[test]
fn onion_peers_get_more_time() {
    let t = Timeouts { connect: 8000, io: 30000, collect: 3000 };
    let o = timeouts_for(true, t);
    assert_eq!(o, Timeouts { connect: 20000, io: 30000, collect: 8000 });
    assert_eq!(timeouts_for(false, t), t);
    assert_eq!(collect_read_timeout(t), 3000);
}

#[test]
fn onion_peers_are_dialled_through_the_proxy() {
    let proxy = SocketAddr::parse("127.0.0.1:9050").unwrap();
    let onion = Peer::parse("abc.onion:8333", 8333).unwrap();
    let clear = Peer::parse("1.2.3.4:8333", 8333).unwrap();
    assert!(matches!(dial(&onion, None).0, Dial::NeedsProxy));
    assert!(matches!(dial(&onion, Some(proxy)).0, Dial::Proxy(p, h, 8333) if p == proxy && h == "abc.onion"));
    let (d, ip, port) = dial(&clear, Some(proxy));
    assert!(matches!(d, Dial::Direct(_)));
    assert_eq!(ip, IpAddr::parse("1.2.3.4").unwrap());
    assert_eq!(port, 8333);
}

#[test]
fn the_proxy_is_spoken_to_in_its_protocol() {
    assert_eq!(socks5_greeting(), [5, 1, 0]);
    assert!(socks5_accepts(&[5, 0]));
    assert!(!socks5_accepts(&[5, 255]));
    assert_eq!(
        socks5_request("ab", 8333),
        Some(vec![5, 1, 0, 3, 2, b'a', b'b', 0x20, 0x8d])
    );
    assert_eq!(socks5_request(&"x".repeat(256), 1), None);
    assert_eq!(socks5_reply(&[5, 0, 0, 1]), Socks5Rest::Bytes(6));
    assert_eq!(socks5_reply(&[5, 0, 0, 4]), Socks5Rest::Bytes(18));
    assert_eq!(socks5_reply(&[5, 0, 0, 3]), Socks5Rest::LengthFirst);
    assert_eq!(socks5_reply(&[5, 4, 0, 1]), Socks5Rest::Failed(4));
    assert_eq!(socks5_reply(&[5, 0, 0, 9]), Socks5Rest::UnknownAddress(9));
    assert_eq!(socks5_name_rest(10), 12);
}
