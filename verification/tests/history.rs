use bip110_crawler::history::History;
use bip110_crawler::node::{Bip110Stance, NodeInfo};

fn node(addr: &str, handshaked: bool) -> NodeInfo {
    NodeInfo {
        addr: addr.into(),
        depth: 1,
        protocol_version: 70016,
        user_agent: "/Satoshi:27.0.0/".into(),
        services: 0,
        start_height: 0,
        chain_hash: String::new(),
        handshaked,
        implementation: if handshaked { "Bitcoin Core" } else { "Unreachable" }.into(),
        version: String::new(),
        bip110: Bip110Stance::NotEnforcing,
        first_seen: String::new(),
        last_seen: String::new(),
        times_seen: 0,
        online: handshaked,
        latency_ms: None,
    }
}

fn find<'a>(h: &'a History, addr: &str) -> &'a NodeInfo {
    h.nodes.get(addr).unwrap()
}

#[test]
fn a_node_is_counted_each_time_it_is_reached() {
    let mut h = History::new();
    h.merge(vec![node("a", true)], "t1");
    h.merge(vec![node("a", true)], "t2");
    let a = find(&h, "a");
    assert_eq!(a.times_seen, 2);
    assert_eq!(a.first_seen, "t1");
    assert_eq!(a.last_seen, "t2");
    assert!(a.online);
    assert_eq!(h.online_count(), 1);
}

#[test]
fn a_node_that_is_only_heard_of_keeps_its_record() {
    let mut h = History::new();
    h.merge(vec![node("a", true)], "t1");
    h.merge(vec![node("a", false)], "t2");
    let a = find(&h, "a");
    assert_eq!(a.implementation, "Bitcoin Core");
    assert_eq!(a.last_seen, "t1");
    assert!(!a.online);
}

#[test]
fn a_node_that_is_gone_goes_offline_and_stays() {
    let mut h = History::new();
    h.merge(vec![node("a", true), node("b", false)], "t1");
    h.merge(vec![node("c", true)], "t2");
    assert!(!find(&h, "a").online);
    assert_eq!(h.online_count(), 1);
    let all: Vec<String> = h.into_nodes().into_iter().map(|n| n.addr).collect();
    assert_eq!(all, vec!["a", "b", "c"]);
}

#[test]
fn room_for_more_counts_is_checked() {
    let mut h = History::new();
    let mut full = node("a", true);
    full.times_seen = u32::MAX;
    h.nodes.insert("a".to_string(), full);
    assert!(!h.has_room_for(&vec![node("a", true)]));
    assert!(h.has_room_for(&vec![]));
    assert!(h.has_room_for(&vec![node("a", false), node("b", true), node("b", true)]));
    assert!(History::new().has_room_for(&vec![node("a", true)]));
}

#[test]
fn as_many_nodes_are_online_as_the_crawl_reached() {
    let mut h = History::new();
    h.merge(vec![node("a", true), node("b", true), node("c", true)], "t1");
    let crawl = vec![node("b", true), node("c", false), node("d", true), node("e", false)];
    let reached = crawl.iter().filter(|n| n.handshaked).count();
    h.merge(crawl, "t2");
    assert_eq!(h.online_count(), reached);
    assert_eq!(h.online_count(), 2);
}
