use bip110_crawler::addr::IpAddr;
use bip110_crawler::geo::{
    accept_entries, attach_own_geo, batches, geolocate_map, ip_of, merge_fresh, missing_ips,
    node_ips, requested, ApiEntry, GeoInfo,
};
use bip110_crawler::node::{Bip110Stance, NodeInfo};
use bip110_crawler::strmap::StrMap;

fn ip(s: &str) -> IpAddr {
    IpAddr::parse(s).unwrap()
}

fn place(city: &str) -> GeoInfo {
    GeoInfo {
        lat: 1.5f64.to_bits(),
        lon: 2.5f64.to_bits(),
        country: "Land".into(),
        country_code: "LA".into(),
        city: city.into(),
    }
}

fn node(addr: &str) -> NodeInfo {
    NodeInfo {
        addr: addr.into(),
        depth: 1,
        protocol_version: 0,
        user_agent: String::new(),
        services: 0,
        start_height: 0,
        chain_hash: String::new(),
        handshaked: true,
        implementation: String::new(),
        version: String::new(),
        bip110: Bip110Stance::Unknown,
        first_seen: String::new(),
        last_seen: String::new(),
        times_seen: 0,
        online: true,
        latency_ms: None,
    }
}

fn entry(query: &str, status: &str, lat: Option<u64>) -> ApiEntry {
    ApiEntry {
        status: status.into(),
        country: "Land".into(),
        country_code: "LA".into(),
        city: "C".into(),
        lat,
        lon: Some(7),
        query: query.into(),
    }
}

#[test]
fn addresses_are_read_from_nodes() {
    assert_eq!(ip_of("1.2.3.4:8333"), Some(ip("1.2.3.4")));
    assert_eq!(ip_of("[::1]:8333"), Some(ip("::1")));
    assert_eq!(ip_of("abc.onion:8333"), None);
    let nodes = [node("1.2.3.4:1"), node("1.2.3.4:2"), node("x.onion:1"), node("5.6.7.8:1")];
    assert_eq!(node_ips(&nodes), vec![ip("1.2.3.4"), ip("5.6.7.8")]);
}

#[test]
fn only_what_the_cache_lacks_is_looked_up() {
    let mut cache = StrMap::new();
    cache.insert("1.1.1.1".to_string(), place("A"));
    let ips = [ip("1.1.1.1"), ip("2.2.2.2")];
    assert_eq!(missing_ips(&ips, &cache), vec![ip("2.2.2.2")]);
    let mut fresh = StrMap::new();
    fresh.insert("2.2.2.2".to_string(), place("B"));
    merge_fresh(&mut cache, &fresh);
    assert_eq!(cache.len(), 2);
    let got = requested(&ips, &cache);
    assert_eq!(got.get("2.2.2.2").unwrap().city, "B");
    assert_eq!(requested(&ips[..1], &cache).len(), 1);
}

#[test]
fn only_answers_with_a_place_are_taken() {
    let got = accept_entries(&vec![
        entry("1.1.1.1", "success", Some(5)),
        entry("2.2.2.2", "fail", Some(5)),
        entry("3.3.3.3", "success", None),
    ]);
    assert_eq!(got.len(), 1);
    assert_eq!(got.get("1.1.1.1").unwrap().lat, 5);
}

#[test]
fn requests_are_made_in_batches() {
    assert_eq!(batches(250), vec![(0, 100), (100, 200), (200, 250)]);
    assert_eq!(batches(100), vec![(0, 100)]);
    assert!(batches(0).is_empty());
}

#[test]
fn places_are_filed_under_the_nodes() {
    let mut by_ip = StrMap::new();
    by_ip.insert("1.2.3.4".to_string(), place("A"));
    let mut geo = geolocate_map(&[node("1.2.3.4:8333"), node("5.6.7.8:8333")], &by_ip);
    assert_eq!(geo.len(), 1);
    assert_eq!(geo.get("1.2.3.4:8333").unwrap().city, "A");
    attach_own_geo(&mut geo, "self", Some(ip("1.2.3.4")), &by_ip);
    assert_eq!(geo.get("self").unwrap().city, "A");
    attach_own_geo(&mut geo, "other", Some(ip("9.9.9.9")), &by_ip);
    attach_own_geo(&mut geo, "other", None, &by_ip);
    assert_eq!(geo.len(), 2);
}
