use bip110_crawler::node::{
    assess_bip110, assess_chain_split, assess_lowered, classify_lowered, classify_user_agent,
    cluster, default_true, extract_generic_version, extract_satoshi_version, knots_build_date,
    latency_histogram, stance_label, version_label, Aggregates, Bip110Rule, Bip110Stance,
    NodeInfo,
};
use bip110_crawler::rpc::ChainTip;
use bip110_crawler::strmap::StrMap;

fn tip(height: i64, branchlen: i64, status: &str) -> ChainTip {
    ChainTip { height, hash: String::new(), branchlen, status: status.into() }
}

fn peer_on(hash: &str) -> NodeInfo {
    NodeInfo {
        addr: "1.2.3.4:8333".into(),
        depth: 1,
        protocol_version: 70016,
        user_agent: String::new(),
        services: 0,
        start_height: 963_340,
        chain_hash: hash.into(),
        handshaked: true,
        implementation: "Bitcoin Core".into(),
        version: String::new(),
        bip110: Bip110Stance::NotEnforcing,
        first_seen: String::new(),
        last_seen: String::new(),
        times_seen: 0,
        online: true,
        latency_ms: None,
    }
}

fn peers_on(hash: &str, n: usize) -> Vec<NodeInfo> {
    (0..n).map(|_| peer_on(hash)).collect()
}

#[test]
fn one_chain_across_all_peers_is_not_a_split() {
    let tips = vec![tip(963_346, 0, "active"), tip(963_345, 1, "valid-fork")];
    let peers = peers_on("aaaa", 5000);
    let refs: Vec<&NodeInfo> = peers.iter().collect();
    let s = assess_chain_split(&tips, &refs);
    assert!(!s.split, "everyone on one hash is not a split");
    assert_eq!(s.distinct_chains, 1);
    assert_eq!(s.responded, 5000);
}

#[test]
fn a_historical_orphan_or_headers_only_branch_is_not_a_split() {
    let tips = vec![
        tip(963_346, 0, "active"),
        tip(900_000, 40, "valid-fork"),
        tip(963_300, 8, "headers-only"),
        tip(963_340, 5, "valid-headers"),
    ];
    let peers = peers_on("aaaa", 3000);
    let refs: Vec<&NodeInfo> = peers.iter().collect();
    assert!(!assess_chain_split(&tips, &refs).split, "stale/headers-only branches are routine");
}

#[test]
fn two_well_supported_chains_are_a_split() {
    let tips = vec![tip(963_346, 0, "active")];
    let mut peers = peers_on("aaaa", 3000);
    peers.extend(peers_on("bbbb", 1500));
    let refs: Vec<&NodeInfo> = peers.iter().collect();
    let s = assess_chain_split(&tips, &refs);
    assert!(s.split);
    assert_eq!(s.distinct_chains, 2);
    assert_eq!(s.largest_chain, 3000);
    assert_eq!(s.second_chain, 1500);
}

#[test]
fn a_few_stray_peers_on_an_odd_hash_are_not_a_split() {
    let tips = vec![tip(963_346, 0, "active")];
    let mut peers = peers_on("aaaa", 3000);
    peers.extend(peers_on("cccc", 3));
    let refs: Vec<&NodeInfo> = peers.iter().collect();
    assert!(!assess_chain_split(&tips, &refs).split);
}

#[test]
fn a_recent_invalid_branch_is_a_split_even_without_peer_data() {
    let tips = vec![tip(963_346, 0, "active"), tip(963_350, 3, "invalid")];
    let s = assess_chain_split(&tips, &[]);
    assert!(s.split);
    assert_eq!(s.rejected_branches, 1);
}

#[test]
fn an_ancient_invalid_tip_is_not_a_current_split() {
    let tips = vec![tip(963_346, 0, "active"), tip(800_000, 2, "invalid")];
    assert!(!assess_chain_split(&tips, &[]).split, "an old invalid tip is not a live fork");
}

#[test]
fn the_branches_of_a_split_are_listed_with_the_longest() {
    let tips = vec![
        tip(100, 2, "valid-fork"),
        tip(963_346, 0, "active"),
        tip(963_346, 7, "headers-only"),
    ];
    let s = assess_chain_split(&tips, &[]);
    assert_eq!(s.active_height, 963_346);
    assert_eq!(s.longest_fork, 7);
    assert_eq!(s.forks.len(), 2);
    assert_eq!(s.forks[0].height, 100);
    assert_eq!(s.forks[1].status, "headers-only");
    assert!(!s.split);
}

#[test]
fn peers_without_a_handshake_or_a_hash_do_not_count_for_a_chain() {
    let mut silent = peer_on("bbbb");
    silent.handshaked = false;
    let peers = vec![peer_on("aaaa"), silent, peer_on("")];
    let refs: Vec<&NodeInfo> = peers.iter().collect();
    let s = assess_chain_split(&[], &refs);
    assert_eq!(s.responded, 1);
    assert_eq!(s.distinct_chains, 1);
    assert_eq!(s.largest_chain, 1);
    assert_eq!(s.second_chain, 0);
    assert_eq!(s.active_height, 0);
}

fn stance(ua: &str) -> Bip110Stance {
    let (implementation, _) = classify_user_agent(ua);
    assess_bip110(&implementation, ua, &[])
}

#[test]
fn explicit_bip110_tag_is_ready() {
    assert_eq!(
        stance("/Satoshi:29.2.0(knots20251110+bip110-v0.1)/UASF-BIP110:0.1/"),
        Bip110Stance::Enforcing
    );
    assert_eq!(
        stance("/Satoshi:29.3.0(knots20260210+bip110-v0.4.1)/"),
        Bip110Stance::Enforcing
    );
}

#[test]
fn mainline_knots_ready_by_build_date() {
    assert_eq!(stance("/Satoshi:29.3.0/Knots:20260508/"), Bip110Stance::Enforcing);
    assert_eq!(stance("/Satoshi:25.1.0(knots20240813)/"), Bip110Stance::NotEnforcing);
    assert_eq!(stance("/Satoshi:27.1.0(knots20241201)/"), Bip110Stance::NotEnforcing);
}

#[test]
fn stock_core_is_not_ready() {
    assert_eq!(stance("/Satoshi:27.1.0/"), Bip110Stance::NotEnforcing);
    assert_eq!(stance("/btcd:0.24.2/"), Bip110Stance::NotEnforcing);
}

#[test]
fn knots_build_date_parses_both_forms() {
    assert_eq!(knots_build_date("/satoshi:25.1.0(knots20240813)/"), Some(20240813));
    assert_eq!(knots_build_date("/satoshi:29.3.0/knots:20260508/"), Some(20260508));
    assert_eq!(knots_build_date("/satoshi:27.1.0/"), None);
}

#[test]
fn latency_histogram_buckets_and_reports_the_median() {
    let (buckets, median) = latency_histogram(vec![30, 45, 90, 180, 5000]);
    assert_eq!(median, Some(90), "the middle value of 5 sorted samples");
    assert_eq!(buckets.len(), 4, "empty bands (e.g. 200-400ms) are omitted");
    let got: Vec<(u32, Option<u32>, usize)> =
        buckets.iter().map(|b| (b.min_ms, b.max_ms, b.count)).collect();
    assert_eq!(
        got,
        vec![(0, Some(50), 2), (50, Some(100), 1), (100, Some(200), 1), (3000, None, 1)]
    );
}

#[test]
fn latency_histogram_of_nothing_is_nothing() {
    let (buckets, median) = latency_histogram(vec![]);
    assert!(buckets.is_empty());
    assert_eq!(median, None);
}

#[test]
fn aggregates_skip_offline_nodes_when_measuring_latency() {
    let mut online = peer_on("aaaa");
    online.latency_ms = Some(50);
    let mut offline = peer_on("aaaa");
    offline.online = false;
    offline.latency_ms = Some(5000);
    let agg = Aggregates::from_nodes(&[online, offline]);
    assert_eq!(agg.median_latency_ms, Some(50));
}

#[test]
fn the_bands_cover_every_latency_and_an_even_number_takes_the_upper_median() {
    let all = vec![49, 50, 399, 400, 799, 800, 1499, 1500, 2999, 3000, 100000, 0];
    let (buckets, median) = latency_histogram(all.clone());
    assert_eq!(buckets.iter().map(|b| b.count).sum::<usize>(), all.len());
    assert_eq!(median, Some(800));
    let (_, upper) = latency_histogram(vec![4, 1, 3, 2]);
    assert_eq!(upper, Some(3));
}

fn count_of(m: &StrMap<usize>, k: &str) -> Option<usize> {
    m.get(k).copied()
}

#[test]
fn aggregates_count_by_name_version_and_stance() {
    let mut a = peer_on("");
    a.version = "27.0.0".into();
    let mut b = peer_on("");
    b.implementation = "Bitcoin Knots".into();
    b.bip110 = Bip110Stance::Enforcing;
    b.addr = "abc.onion:8333".into();
    let mut c = peer_on("");
    c.online = false;
    c.handshaked = false;
    c.bip110 = Bip110Stance::Unknown;
    let agg = Aggregates::from_nodes(&[a, b, c]);
    assert_eq!(agg.total_nodes, 3);
    assert_eq!(agg.online_nodes, 2);
    assert_eq!(agg.handshaked_nodes, 2);
    assert_eq!(agg.onion_nodes, 1);
    assert_eq!(count_of(&agg.by_implementation, "Bitcoin Core"), Some(2));
    assert_eq!(count_of(&agg.by_implementation, "Bitcoin Knots"), Some(1));
    assert_eq!(count_of(&agg.by_version, "Bitcoin Core 27.0.0"), Some(1));
    assert_eq!(count_of(&agg.by_version, "Bitcoin Core"), Some(1));
    assert_eq!(count_of(&agg.by_bip110, "BIP-110 ready"), Some(1));
    assert_eq!(count_of(&agg.by_bip110, "Not ready"), Some(1));
    assert_eq!(count_of(&agg.by_bip110, "Unknown"), Some(1));
    assert_eq!(count_of(&agg.by_bip110, "Maybe"), None);
}

#[test]
fn empty_aggregates_count_nothing() {
    let agg = Aggregates::empty();
    assert_eq!(agg.total_nodes, 0);
    assert_eq!(agg.by_version.len(), 0);
    assert_eq!(agg.median_latency_ms, None);
}

fn named(ua: &str) -> (String, String) {
    classify_user_agent(ua)
}

#[test]
fn user_agents_are_classified_without_regard_to_case() {
    assert_eq!(named("/Satoshi:27.1.0/"), ("Bitcoin Core".into(), "27.1.0".into()));
    assert_eq!(
        named("/Satoshi:25.1.0(knots20240813)/"),
        ("Bitcoin Knots".into(), "25.1.0".into())
    );
    assert_eq!(named("/BTCD:0.24.2/").0, "btcd");
    assert_eq!(named("/btcd:0.24.2/"), ("btcd".into(), "0.24.2".into()));
    assert_eq!(named("").0, "Unknown");
}

#[test]
fn names_and_stances_can_be_read_from_lowered_text() {
    assert_eq!(
        classify_lowered("/Satoshi:1.0/", "/satoshi:1.0/"),
        ("Bitcoin Core".to_string(), "1.0".to_string())
    );
    let rules = [Bip110Rule {
        user_agent_contains: "core".into(),
        stance: Bip110Stance::Unknown,
    }];
    assert_eq!(assess_lowered("/core:1/bip110", &rules), Bip110Stance::Unknown);
    assert_eq!(assess_lowered("/other:1/bip110", &rules), Bip110Stance::Enforcing);
}

#[test]
fn the_first_rule_that_matches_decides_the_stance() {
    let rules = [
        Bip110Rule { user_agent_contains: "SATOSHI:27".into(), stance: Bip110Stance::Unknown },
        Bip110Rule { user_agent_contains: "satoshi".into(), stance: Bip110Stance::Enforcing },
    ];
    assert_eq!(assess_bip110("x", "/Satoshi:27.0.0/", &rules), Bip110Stance::Unknown);
    assert_eq!(assess_bip110("x", "/Satoshi:28.0.0/", &rules), Bip110Stance::Enforcing);
    assert_eq!(assess_bip110("x", "/btcd:1/", &rules), Bip110Stance::NotEnforcing);
}

#[test]
fn versions_are_cut_out_of_user_agents() {
    assert_eq!(extract_satoshi_version("/Satoshi:27.1.0(x)/"), "27.1.0");
    assert_eq!(extract_generic_version("/bcoin:2.2.0/"), "2.2.0");
}

#[test]
fn labels_read_as_the_charts_show_them() {
    assert_eq!(version_label("Bitcoin Core", "27.0.0"), "Bitcoin Core 27.0.0");
    assert_eq!(version_label("Bitcoin Core", ""), "Bitcoin Core");
    assert_eq!(stance_label(Bip110Stance::Enforcing), "BIP-110 ready");
    assert!(default_true());
}

#[test]
fn a_split_is_assessed_alike_in_any_order_of_peers() {
    let tips = vec![tip(963_346, 0, "active")];
    let mut peers = peers_on("bbbb", 3);
    peers.extend(peers_on("aaaa", 5));
    peers.extend(peers_on("cccc", 1));
    peers.extend(peers_on("", 2));
    let refs: Vec<&NodeInfo> = peers.iter().collect();
    let back: Vec<&NodeInfo> = peers.iter().rev().collect();
    for r in [assess_chain_split(&tips, &refs), assess_chain_split(&tips, &back)] {
        assert_eq!(r.responded, 9);
        assert_eq!(r.distinct_chains, 3);
        assert_eq!(r.largest_chain, 5);
        assert_eq!(r.second_chain, 3);
    }
}

#[test]
fn peers_are_counted_by_the_chain_they_report() {
    let mut peers = peers_on("bbbb", 2);
    peers.extend(peers_on("aaaa", 1));
    peers.extend(peers_on("", 4));
    let refs: Vec<&NodeInfo> = peers.iter().collect();
    let (chains, responded) = cluster(&refs);
    assert_eq!(responded, 3);
    assert_eq!(count_of(&chains, "aaaa"), Some(1));
    assert_eq!(count_of(&chains, "bbbb"), Some(2));
    assert_eq!(count_of(&chains, ""), None);
}

#[test]
fn a_histogram_is_the_same_in_any_order() {
    let figures = |v: Vec<u32>| {
        let (buckets, median) = latency_histogram(v);
        let rows: Vec<(u32, usize)> = buckets.iter().map(|b| (b.min_ms, b.count)).collect();
        (rows, median)
    };
    let (rows, median) = figures(vec![5000, 90, 30, 180, 45]);
    assert_eq!(median, Some(90));
    assert_eq!(rows.iter().map(|r| r.1).sum::<usize>(), 5);
    assert_eq!(figures(vec![30, 45, 90, 180, 5000]), (rows, median));
}

#[test]
fn upper_case_agents_have_the_stance_of_lower_case_ones() {
    let ua = "/Satoshi:29.2.0/Knots:20260101+UASF-BIP110:0.1/";
    assert_eq!(stance(ua), Bip110Stance::Enforcing);
    assert_eq!(stance(&ua.to_uppercase()), stance(ua));
    assert_eq!(named("/SATOSHI:27.0.0/"), named("/satoshi:27.0.0/"));
}
