use bip110_crawler::addr::IpAddr;
use bip110_crawler::cycle::{
    assemble_report, cap_report, crawl_limits, final_refresh, has_real_seed, online_nodes, own_ip,
    own_label, own_node, own_node_record, page_refresh, parse_cookie, parse_seed, persist_secs,
    reachable_only, report_own, rpc_seeds, site_report, splice_own, ReportHead, Seed, SeedText,
};
use bip110_crawler::node::{Bip110Rule, Bip110Stance, Edge, NodeInfo};
use bip110_crawler::p2p::Peer;
use bip110_crawler::rpc::{DirectPeer, NetworkInfo};

fn node(addr: &str, online: bool) -> NodeInfo {
    NodeInfo {
        addr: addr.into(),
        depth: 1,
        protocol_version: 70016,
        user_agent: "/Satoshi:27.0.0/".into(),
        services: 0,
        start_height: 0,
        chain_hash: String::new(),
        handshaked: online,
        implementation: "Bitcoin Core".into(),
        version: "27.0.0".into(),
        bip110: Bip110Stance::NotEnforcing,
        first_seen: String::new(),
        last_seen: String::new(),
        times_seen: 0,
        online,
        latency_ms: None,
    }
}

fn edge(from: &str, to: &str) -> Edge {
    Edge { from: from.into(), to: to.into() }
}

fn info() -> NetworkInfo {
    NetworkInfo {
        version: 290300,
        subversion: "/Satoshi:29.3.0/Knots:20260508/".into(),
        services: 9,
        local_addr: Some("1.2.3.4".into()),
    }
}

#[test]
fn the_own_node_is_named_by_what_it_runs() {
    assert_eq!(own_label("x"), "self (x)");
    let own = own_node(&info(), "main");
    assert_eq!(own.addr, "self (/Satoshi:29.3.0/Knots:20260508/)");
    assert_eq!(own.version, 290300);
    assert_eq!(own.implementation, "Bitcoin Knots");
    assert_eq!(own.network, "main");
    let rec = own_node_record(&own, &[]);
    assert_eq!(rec.depth, 0);
    assert!(rec.online && rec.handshaked);
    assert_eq!(rec.version, "29.3.0");
    assert_eq!(rec.bip110, Bip110Stance::Enforcing);
    assert_eq!(report_own(Some(&own), "test").network, "main");
    let none = report_own(None, "test");
    assert_eq!(none.addr, "self");
    assert_eq!(none.subversion, "(no RPC)");
    assert_eq!(none.network, "test");
}

#[test]
fn the_own_address_is_read_where_it_is_one() {
    assert_eq!(own_ip(Some("1.2.3.4")), IpAddr::parse("1.2.3.4"));
    assert!(own_ip(Some("1.2.3.4")).is_some());
    assert!(own_ip(Some("nonsense")).is_none());
    assert!(own_ip(None).is_none());
}

fn direct(addr: &str, subver: &str) -> DirectPeer {
    DirectPeer {
        peer: Peer::parse(addr, 8333).unwrap(),
        subver: subver.into(),
        version: 70016,
        height: 7,
    }
}

#[test]
fn the_peers_of_the_own_node_are_seeds() {
    let rules = [Bip110Rule { user_agent_contains: "btcd".into(), stance: Bip110Stance::Unknown }];
    let peers = vec![direct("1.1.1.1:8333", "/Satoshi:27.1.0/"), direct("2.2.2.2:8333", "/btcd:1/")];
    let (seeds, edges) = rpc_seeds("self (x)", &peers, &rules);
    assert_eq!(seeds.len(), 3);
    assert_eq!(seeds[0].peer.to_string(), "127.0.0.1:0");
    assert_eq!(seeds[0].depth, 0);
    assert!(seeds[0].known.is_none());
    let first = seeds[1].known.as_ref().unwrap();
    assert_eq!(first.addr, "1.1.1.1:8333");
    assert_eq!(first.implementation, "Bitcoin Core");
    assert_eq!(first.start_height, 7);
    assert!(!first.handshaked && !first.online);
    assert_eq!(seeds[2].known.as_ref().unwrap().bip110, Bip110Stance::Unknown);
    assert_eq!(seeds[2].depth, 1);
    assert_eq!(edges.len(), 2);
    assert_eq!(edges[1].from, "self (x)");
    assert_eq!(edges[1].to, "2.2.2.2:8333");
    assert!(has_real_seed(&seeds));
    let (alone, _) = rpc_seeds("self", &vec![], &[]);
    assert!(!has_real_seed(&alone));
    let onion = Peer::parse("abc.onion:1", 8333).unwrap();
    assert!(has_real_seed(&vec![Seed { peer: onion, depth: 0, known: None }]));
}

#[test]
fn a_seed_is_a_peer_or_a_host_to_look_up() {
    assert!(matches!(parse_seed("1.2.3.4:8333", 8333), SeedText::Peer(_)));
    assert!(matches!(parse_seed("abc.onion", 8333), SeedText::Peer(_)));
    assert!(matches!(parse_seed("seed.example", 8333), SeedText::Resolve(h) if h == "seed.example:8333"));
    assert!(matches!(parse_seed("seed.example:1", 8333), SeedText::Resolve(h) if h == "seed.example:1"));
}

#[test]
fn a_cookie_is_split_at_the_first_colon() {
    let (u, p) = parse_cookie("  __cookie__:ab:cd\n").unwrap();
    assert_eq!(u, "__cookie__");
    assert_eq!(p, "ab:cd");
    assert!(parse_cookie("nothing").is_none());
}

#[test]
fn settings_have_their_defaults() {
    assert_eq!(crawl_limits(true, 2, 500), (0, 0));
    assert_eq!(crawl_limits(false, 2, 500), (2, 500));
    assert_eq!(page_refresh(0), 15);
    assert_eq!(page_refresh(7), 7);
    assert_eq!(persist_secs(0), 60);
    assert_eq!(persist_secs(5), 5);
}

#[test]
fn only_reached_nodes_and_edges_between_them_are_shown() {
    let mut nodes = vec![node("a", true), node("b", false), node("c", true)];
    let mut edges = vec![edge("a", "b"), edge("a", "c")];
    assert_eq!(online_nodes(&nodes).len(), 2);
    reachable_only(&mut nodes, &mut edges);
    assert_eq!(nodes.len(), 2);
    assert_eq!(edges.len(), 1);
    assert_eq!(edges[0].to, "c");
}

#[test]
fn a_cap_keeps_the_reached_nodes_first() {
    let all = || vec![node("a", false), node("b", true), node("c", false), node("d", true)];
    let mut nodes = all();
    let mut edges = vec![edge("b", "d"), edge("a", "b"), edge("c", "b")];
    cap_report(&mut nodes, &mut edges, 3);
    let kept: Vec<&str> = nodes.iter().map(|n| n.addr.as_str()).collect();
    assert_eq!(kept, vec!["b", "d", "a"]);
    assert_eq!(edges.len(), 2);
    for max in [0, 4, 9] {
        let mut nodes = all();
        let mut edges = vec![edge("x", "y")];
        cap_report(&mut nodes, &mut edges, max);
        assert_eq!(nodes[0].addr, "a");
        assert_eq!(nodes.len(), 4);
        assert_eq!(edges.len(), 1);
    }
}

#[test]
fn the_own_node_takes_the_place_of_its_stand_in() {
    let nodes = vec![node("127.0.0.1:0", false), node("a", true)];
    let (n, e) = splice_own(nodes, vec![edge("a", "b")], &Some(node("self", true)), &vec![edge("self", "a")]);
    assert_eq!(n.len(), 2);
    assert_eq!(n[1].addr, "self");
    assert_eq!(e.len(), 2);
    assert_eq!(e[1].from, "self");
    let (n, e) = splice_own(vec![node("127.0.0.1:0", false)], vec![], &None, &vec![edge("self", "a")]);
    assert!(n.is_empty() && e.is_empty());
}

fn head() -> ReportHead {
    ReportHead {
        own_node: report_own(None, "main"),
        signalling: None,
        chain_split: None,
        network: "main".into(),
        generated_at: "t".into(),
        live: true,
        refresh_seconds: 15,
    }
}

#[test]
fn a_report_is_put_together_from_a_crawl() {
    let nodes = vec![node("127.0.0.1:0", false), node("a", true)];
    let r = assemble_report(nodes, vec![], &Some(node("self", true)), &vec![], None, head(), 77);
    assert_eq!(r.nodes.len(), 2);
    assert_eq!(r.aggregates.total_nodes, 2);
    assert_eq!(r.aggregates.online_nodes, 2);
    assert_eq!(r.discovered_total, 77);
    assert_eq!(r.refresh_seconds, 15);
    assert!(r.live);
}

#[test]
fn the_site_shows_reached_nodes_only() {
    let nodes = vec![
        node("127.0.0.1:0", false),
        node("a", true),
        node("b", false),
        node("c", true),
        node("d", true),
    ];
    let edges = vec![edge("a", "b"), edge("a", "c"), edge("c", "d")];
    let own = Some(node("self", true));
    let own_edges = vec![edge("self", "a")];
    let r = site_report(nodes, edges, 2, &own, &own_edges, None, head());
    let shown: Vec<&str> = r.nodes.iter().map(|n| n.addr.as_str()).collect();
    assert_eq!(shown, vec!["a", "c", "self"]);
    let ends: Vec<(&str, &str)> =
        r.edges.iter().map(|e| (e.from.as_str(), e.to.as_str())).collect();
    assert_eq!(ends, vec![("a", "c"), ("self", "a")]);
    assert_eq!(r.discovered_total, 3);
    assert_eq!(r.aggregates.total_nodes, 3);
}

#[test]
fn a_page_that_is_not_live_does_not_fetch_again() {
    assert_eq!(final_refresh(true, 10), 10);
    assert_eq!(final_refresh(false, 10), 0);
}
