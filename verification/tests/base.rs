use bip110_crawler::addr::{IpAddr, SocketAddr};
use bip110_crawler::bytes::{
    from_be16, le_at, push_be16, push_le, read_array, read_varint, to_signed32, to_unsigned32,
    write_varint, WireError,
};
use bip110_crawler::json::Json;
use bip110_crawler::number::{decimal_text, parse_unsigned};
use bip110_crawler::order::{sort_order, Down};
use bip110_crawler::strmap::StrMap;
use bip110_crawler::text::{
    contains_text, ends_with_text, joined, replace_text, starts_with_text, text_less,
};

#[test]
fn lengths_read_back_from_every_width() {
    for n in [0u64, 252, 253, 0xffff, 0x1_0000, 0xffff_ffff, 0x1_0000_0000, u64::MAX] {
        let mut b = Vec::new();
        write_varint(&mut b, n);
        let mut pos = 0;
        assert_eq!(read_varint(&b, &mut pos), Ok(n));
        assert_eq!(pos, b.len());
        let mut short = 0;
        if b.len() > 1 {
            assert!(read_varint(&b[..b.len() - 1], &mut short).is_err());
        }
    }
    let mut pos = 0;
    assert_eq!(read_varint(&[], &mut pos), Err(WireError::VarintEof));
}

#[test]
fn bytes_are_read_in_their_order() {
    let mut b = Vec::new();
    push_le(&mut b, 0x0102, 4);
    assert_eq!(b, vec![2, 1, 0, 0]);
    assert_eq!(le_at(&b, 0, 4), 0x0102);
    let mut c = Vec::new();
    push_be16(&mut c, 8333);
    assert_eq!(from_be16(c[0], c[1]), 8333);
    assert_eq!(to_signed32(u32::MAX), -1);
    assert_eq!(to_unsigned32(-1), u32::MAX);
    let mut pos = 1;
    assert_eq!(read_array::<2>(&[1, 2, 3], &mut pos), Ok([2, 3]));
    assert_eq!(read_array::<2>(&[1, 2, 3], &mut pos), Err(WireError::ReadEof));
    assert!(!WireError::TruncatedUserAgent.message().is_empty());
}

#[test]
fn numbers_read_back_from_their_text() {
    assert_eq!(decimal_text(u64::MAX), u64::MAX.to_string());
    let t: Vec<char> = decimal_text(90210).chars().collect();
    assert_eq!(parse_unsigned(&t, 10, 99999), Some(90210));
    assert_eq!(parse_unsigned(&t, 10, 90209), None);
    assert_eq!(parse_unsigned(&['f', 'F'], 16, 255), Some(255));
    assert_eq!(parse_unsigned(&[], 10, 5), None);
}

fn same_as_std(s: &str) {
    let ours = SocketAddr::parse(s).map(|a| a.to_text());
    let theirs = s.parse::<core::net::SocketAddr>().ok().map(|a| a.to_string());
    assert_eq!(ours, theirs, "{s}");
}

#[test]
fn sockets_are_read_and_written_as_usual() {
    for s in [
        "1.2.3.4:8333",
        "1.2.3.4",
        "01.2.3.4:1",
        "256.1.1.1:1",
        "1.2.3.4:65536",
        "1.2.3.4:00080",
        "[::1]:8333",
        "[::]:0",
        "[2001:db8:0:0:1:0:0:1]:80",
        "[1:0:0:2:0:0:0:3]:80",
        "[::ffff:1.2.3.4]:80",
        "[64:ff9b::1.2.3.4]:80",
        "[fe80::1%3]:80",
        "[1:2:3:4:5:6:7:8:9]:80",
        "[1::2::3]:80",
        "::1:80",
        "",
        "a.b.c.d:1",
    ] {
        same_as_std(s);
    }
    for s in ["1.2.3.4", "::", "::1", "1::8", "::ffff:0.0.0.1", "12345::", "x"] {
        let ours = IpAddr::parse(s).map(|a| a.to_text());
        let theirs = s.parse::<core::net::IpAddr>().ok().map(|a| a.to_string());
        assert_eq!(ours, theirs, "{s}");
    }
}

#[test]
fn text_is_searched_and_replaced() {
    assert!(contains_text("abcabd", "abd"));
    assert!(!contains_text("ab", "abc"));
    assert!(starts_with_text("/x", "/"));
    assert!(ends_with_text("a.onion", ".onion"));
    assert_eq!(replace_text("aXbXX", "X", "yz"), "ayzbyzyz");
    assert_eq!(replace_text("aaa", "aa", "b"), "ba");
    assert_eq!(joined("a", "é"), "aé");
    assert!(text_less("a", "b") && !text_less("b", "a") && text_less("", "a"));
}

#[test]
fn a_map_keeps_each_key_once_in_order() {
    let mut m = StrMap::new();
    m.insert("b".to_string(), 1usize);
    m.insert("a".to_string(), 2);
    m.insert("b".to_string(), 3);
    m.bump("b".to_string());
    m.bump("c".to_string());
    assert_eq!(m.len(), 3);
    assert_eq!(m.key_at(0), "a");
    assert_eq!(*m.value_at(1), 4);
    assert_eq!(m.get("c"), Some(&1));
    assert!(m.contains("a") && !m.contains("z"));
    assert_eq!(m.into_values(), vec![2, 4, 1]);
}

#[test]
fn equal_keys_keep_their_order() {
    assert_eq!(sort_order(&vec![3i128, 1, 3, 2]), vec![1, 3, 0, 2]);
    assert_eq!(sort_order(&vec![Down(3i128), Down(1), Down(3)]), vec![0, 2, 1]);
    let keys: Vec<Option<Vec<char>>> = vec![Some(vec!['b']), None, Some(vec!['a'])];
    assert_eq!(sort_order(&keys), vec![1, 2, 0]);
}

#[test]
fn json_values_are_asked_for_their_parts() {
    let v = Json::Object(vec![
        ("n".to_string(), Json::Number(Some(7))),
        ("f".to_string(), Json::Number(None)),
        ("t".to_string(), Json::Text("x".to_string())),
        ("a".to_string(), Json::Array(vec![Json::Null, Json::Bool(true)])),
    ]);
    assert_eq!(v.get_i64("n"), 7);
    assert_eq!(v.get_i64("f"), 0);
    assert_eq!(v.get_i64("missing"), 0);
    assert_eq!(v.get_text("t"), "x");
    assert_eq!(v.get_text("n"), "");
    assert_eq!(v.get_items("a").unwrap().len(), 2);
    assert!(v.get_items("t").is_none());
    assert!(v.get("a").unwrap().as_array().unwrap()[0].is_null());
    assert_eq!(v.get("t").unwrap().as_str(), Some("x"));
    assert_eq!(v.get("n").unwrap().as_i64(), Some(7));
}
