use std::io::ErrorKind;

use bip110_crawler::addr::SocketAddr;
use bip110_crawler::crawler::{
    probe_again, worth_retrying, Crawl, CrawlConfig, IoErrorKind, NextTask, Outcome, Task,
};
use bip110_crawler::node::{Bip110Stance, NodeInfo};
use bip110_crawler::p2p::{Peer, PeerVersion};
use bip110_crawler::state::CrawlState;

fn causes(e: &anyhow::Error) -> Vec<Option<IoErrorKind>> {
    e.chain()
        .map(|c| {
            c.downcast_ref::<std::io::Error>().map(|io| match io.kind() {
                ErrorKind::TimedOut => IoErrorKind::TimedOut,
                ErrorKind::WouldBlock => IoErrorKind::WouldBlock,
                _ => IoErrorKind::Other,
            })
        })
        .collect()
}

#[test]
fn retry_only_on_timeouts() {
    let io = |k: ErrorKind| anyhow::Error::new(std::io::Error::from(k));
    assert!(!worth_retrying(&causes(&io(ErrorKind::ConnectionRefused))));
    assert!(!worth_retrying(&causes(&io(ErrorKind::ConnectionReset))));
    assert!(worth_retrying(&causes(&io(ErrorKind::TimedOut))));
    assert!(worth_retrying(&causes(&io(ErrorKind::WouldBlock))));
    let wrapped = io(ErrorKind::TimedOut).context("connect 1.2.3.4:8333");
    assert!(worth_retrying(&causes(&wrapped)));
    let wrapped_refused = io(ErrorKind::ConnectionRefused).context("connect 1.2.3.4:8333");
    assert!(!worth_retrying(&causes(&wrapped_refused)));
    assert!(worth_retrying(&causes(&anyhow::Error::msg("peer never sent version"))));
}

#[test]
fn a_peer_is_probed_again_only_while_attempts_are_left() {
    let timeout = [Some(IoErrorKind::TimedOut)];
    let refused = [Some(IoErrorKind::Other)];
    assert!(probe_again(0, 1, Some(&timeout)));
    assert!(!probe_again(1, 1, Some(&timeout)));
    assert!(!probe_again(0, 1, Some(&refused)));
    assert!(!probe_again(0, 1, None));
}

fn peer(text: &str) -> Peer {
    Peer::parse(text, 8333).unwrap()
}

fn config(max_depth: u32, edges_per_node: usize) -> CrawlConfig {
    CrawlConfig {
        max_depth,
        max_nodes: 2,
        retries: 1,
        edges_per_node,
        onion_enabled: true,
        rules: vec![],
        locator: vec![],
        chain_ref_height: 0,
    }
}

fn version() -> PeerVersion {
    PeerVersion {
        protocol_version: 70016,
        services: 9,
        user_agent: "/Satoshi:27.1.0/".into(),
        start_height: 900_000,
    }
}

fn run(c: &mut Crawl, onion: bool) -> Task {
    match c.next_task(onion) {
        NextTask::Run(t) => t,
        _ => panic!("a task was queued"),
    }
}

const ONION: &str = "duckduckgogg42xjoc72x3sjasowoarfbgcmvfimaftt6twagswzczad.onion:8333";

#[test]
fn a_peer_is_queued_once() {
    let mut c = Crawl::new(true);
    c.seed(peer("1.2.3.4:8333"), 0, None);
    c.seed(peer("1.2.3.4:8333"), 5, None);
    assert_eq!(c.progress().clearnet_queued, 1);
    let t = run(&mut c, false);
    assert_eq!(t.depth, 0);
    assert!(matches!(c.next_task(false), NextTask::Wait));
    let w = c.finish_task(vec![], vec![]);
    assert!(w.clearnet && w.onion);
    assert!(matches!(c.next_task(true), NextTask::Finished));
}

#[test]
fn onion_seeds_need_a_proxy() {
    let mut off = Crawl::new(false);
    off.seed(peer(ONION), 0, None);
    assert_eq!(off.progress().onion_queued, 0);
    let mut on = Crawl::new(true);
    on.seed(peer(ONION), 0, None);
    assert_eq!(on.progress().onion_queued, 1);
    assert!(run(&mut on, true).peer.is_onion());
}

#[test]
fn the_latest_queued_peer_is_probed_first() {
    let mut c = Crawl::new(true);
    c.seed(peer("1.1.1.1:8333"), 0, None);
    c.seed(peer("2.2.2.2:8333"), 0, None);
    assert_eq!(run(&mut c, false).peer.to_string(), "2.2.2.2:8333");
    assert_eq!(run(&mut c, false).peer.to_string(), "1.1.1.1:8333");
}

#[test]
fn a_peer_that_answered_is_recorded_and_its_gossip_followed() {
    let mut c = Crawl::new(true);
    c.seed(peer("1.1.1.1:8333"), 0, None);
    let t = run(&mut c, false);
    let told = vec![peer("2.2.2.2:8333"), peer(ONION), peer("1.1.1.1:8333")];
    let (clear, onion) = c.record_success(
        &config(0, 2),
        &t,
        &version(),
        &told,
        &[],
        Some(40),
        "t0".into(),
        "t1".into(),
    );
    assert_eq!(clear.len(), 1);
    assert_eq!(clear[0].depth, 1);
    assert_eq!(onion.len(), 1);
    assert_eq!(c.edge_list().len(), 2);
    assert_eq!(c.edge_list()[0].to, "2.2.2.2:8333");
    let nodes = c.node_list();
    assert_eq!(nodes.len(), 1);
    assert_eq!(nodes[0].implementation, "Bitcoin Core");
    assert_eq!(nodes[0].version, "27.1.0");
    assert_eq!(nodes[0].bip110, Bip110Stance::NotEnforcing);
    assert_eq!(nodes[0].latency_ms, Some(40));
    assert!(nodes[0].online && nodes[0].handshaked);
    let w = c.finish_task(clear, onion);
    assert!(w.clearnet && w.onion);
    assert!(!c.at_capacity(2));
    assert!(!c.at_capacity(0));
    assert!(c.at_capacity(1));
}

#[test]
fn gossip_at_the_last_depth_is_not_followed() {
    let mut c = Crawl::new(true);
    c.seed(peer("1.1.1.1:8333"), 2, None);
    let t = run(&mut c, false);
    let (clear, onion) = c.record_success(
        &config(2, 0),
        &t,
        &version(),
        &vec![peer("2.2.2.2:8333")],
        &[],
        None,
        String::new(),
        String::new(),
    );
    assert!(clear.is_empty() && onion.is_empty());
    assert!(c.edge_list().is_empty());
}

fn told_of(peers: &[&str]) -> Outcome {
    Outcome::Reached {
        version: version(),
        discovered: peers.iter().map(|p| peer(p)).collect(),
        headers: vec![],
        latency_ms: None,
    }
}

#[test]
fn no_peer_is_handed_out_twice() {
    let mut c = Crawl::new(true);
    c.seed(peer("1.1.1.1:8333"), 0, None);
    let mut handed = Vec::new();
    loop {
        let t = match c.next_task(false) {
            NextTask::Run(t) => t,
            _ => match c.next_task(true) {
                NextTask::Run(t) => t,
                _ => break,
            },
        };
        let text = t.peer.to_string();
        let outcome = match text.as_str() {
            "1.1.1.1:8333" => told_of(&["2.2.2.2:8333", "3.3.3.3:8333", ONION, "2.2.2.2:8333"]),
            "3.3.3.3:8333" => told_of(&["1.1.1.1:8333", "2.2.2.2:8333", "4.4.4.4:8333"]),
            "4.4.4.4:8333" => told_of(&["5.5.5.5:8333"]),
            _ => Outcome::Failed,
        };
        handed.push((text, t.depth));
        c.on_outcome(&config(2, 0), &t, &outcome, "t0".into(), "t1".into());
    }
    let want = [
        ("1.1.1.1:8333", 0),
        ("3.3.3.3:8333", 1),
        ("4.4.4.4:8333", 2),
        ("2.2.2.2:8333", 1),
        (ONION, 1),
    ];
    let got: Vec<(&str, u32)> = handed.iter().map(|(p, d)| (p.as_str(), *d)).collect();
    assert_eq!(got, want);
    assert!(matches!(c.next_task(false), NextTask::Finished));
    assert_eq!(c.node_list().iter().filter(|n| n.online).count(), 3);
    assert_eq!(c.edge_list().len(), 7);
}

#[test]
fn a_skipped_task_leaves_no_record() {
    let mut c = Crawl::new(false);
    c.seed(peer("1.1.1.1:8333"), 0, None);
    let t = run(&mut c, false);
    let w = c.on_outcome(&config(0, 0), &t, &Outcome::Skipped, String::new(), String::new());
    assert!(w.clearnet && w.onion);
    assert!(c.node_list().is_empty());
    assert!(matches!(c.next_task(false), NextTask::Finished));
}

#[test]
fn a_failure_does_not_replace_what_is_known() {
    let known = NodeInfo {
        addr: "1.1.1.1:8333".into(),
        depth: 1,
        protocol_version: 70016,
        user_agent: "/Satoshi:27.1.0/".into(),
        services: 0,
        start_height: 1,
        chain_hash: String::new(),
        handshaked: false,
        implementation: "Bitcoin Core".into(),
        version: "27.1.0".into(),
        bip110: Bip110Stance::NotEnforcing,
        first_seen: String::new(),
        last_seen: String::new(),
        times_seen: 0,
        online: false,
        latency_ms: None,
    };
    let mut c = Crawl::new(false);
    c.seed(peer("1.1.1.1:8333"), 1, Some(known));
    c.seed(peer("2.2.2.2:8333"), 1, None);
    let b = run(&mut c, false);
    c.record_failure(&b);
    let a = run(&mut c, false);
    c.record_failure(&a);
    let nodes = c.into_result().nodes;
    assert_eq!(nodes.len(), 2);
    assert_eq!(nodes[0].implementation, "Bitcoin Core");
    assert_eq!(nodes[1].implementation, "Unreachable");
}

#[test]
fn a_stored_crawl_goes_on_where_it_stopped() {
    let mut c = Crawl::new(true);
    c.seed(peer("1.1.1.1:8333"), 0, None);
    c.seed(peer("2.2.2.2:8333"), 3, None);
    c.seed(peer(ONION), 1, None);
    let t = run(&mut c, false);
    c.record_failure(&t);
    c.finish_task(vec![], vec![]);
    let st = c.to_state();
    assert_eq!(st.frontier.len(), 2);
    assert_eq!(st.nodes.len(), 1);

    let mut d = Crawl::new(true);
    d.restore(CrawlState { frontier: st.frontier, nodes: st.nodes, edges: st.edges }, 8333);
    assert_eq!(d.progress(), c.progress());
    assert_eq!(run(&mut d, false).peer.to_string(), "1.1.1.1:8333");
    d.seed(peer("2.2.2.2:8333"), 0, None);
    assert_eq!(d.progress().clearnet_queued, 0);
    assert_eq!(d.progress().probed, 1);
    assert_eq!(d.progress().reachable, 0);
    assert_eq!(d.progress().onion, 0);
}

#[test]
fn sockets_keep_their_text() {
    assert_eq!(SocketAddr::parse("[::1]:8333").unwrap().to_text(), "[::1]:8333");
}
