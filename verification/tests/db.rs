use bip110_crawler::blocks::{read_period_block_stats, BlockAnalysis, BlockTable, StoredBlock};
use bip110_crawler::db::{
    current_stance, edges_among, fresh_clause, fresh_clause_at, fresh_cutoff, fresh_rows, merge_edges,
    node_row, nodes_where, read_known_good, read_nodes, read_report, row_place, row_to_node, shown_rows,
    sort_column_of, stance_str, NodeRow, NodeTable, ReportMeta, SortColumn, StoredNode,
};
use bip110_crawler::geo::GeoInfo;
use bip110_crawler::json::Json;
use bip110_crawler::node::{Bip110Stance, Edge, NodeInfo};
use bip110_crawler::report::OwnNode;
use bip110_crawler::rpc::BlockInfo;
use bip110_crawler::strmap::StrMap;
use bip110_crawler::time::{iso_before, iso_from_unix, iso_secs_ago, now_iso};

fn node(addr: &str, online: bool) -> NodeInfo {
    NodeInfo {
        addr: addr.into(),
        depth: 1,
        protocol_version: 70016,
        user_agent: "/Satoshi:27.0.0/".into(),
        services: 0,
        start_height: 0,
        chain_hash: String::new(),
        handshaked: online,
        implementation: "Bitcoin Core".into(),
        version: "27.0.0".into(),
        bip110: Bip110Stance::NotEnforcing,
        first_seen: String::new(),
        last_seen: String::new(),
        times_seen: 0,
        online,
        latency_ms: None,
    }
}

fn unreachable_node(addr: &str) -> NodeInfo {
    NodeInfo {
        addr: addr.into(),
        depth: 9,
        protocol_version: 0,
        user_agent: String::new(),
        services: 0,
        start_height: 0,
        chain_hash: String::new(),
        handshaked: false,
        implementation: "Unreachable".into(),
        version: String::new(),
        bip110: Bip110Stance::Unknown,
        first_seen: String::new(),
        last_seen: String::new(),
        times_seen: 0,
        online: false,
        latency_ms: None,
    }
}

fn no_meta() -> ReportMeta {
    ReportMeta {
        own_node: None,
        signalling: None,
        chain_split: None,
        network: None,
        generated_at: None,
    }
}

fn row<'a>(t: &'a NodeTable, addr: &str) -> &'a StoredNode {
    t.rows.get(addr).unwrap()
}

#[test]
fn known_good_reseed_prefers_recent_handshaked_peers() {
    let mut t = NodeTable::new();
    let mut older = node("1.1.1.1:8333", true);
    older.last_seen = "2026-01-01T00:00:00Z".into();
    let mut newer = node("2.2.2.2:8333", true);
    newer.last_seen = "2026-06-01T00:00:00Z".into();
    let dead = unreachable_node("3.3.3.3:8333");
    t.write_snapshot("t1", &[older, newer, dead], &StrMap::new());

    let got = read_known_good(&t.list(), 10);
    assert_eq!(
        got,
        vec!["2.2.2.2:8333".to_string(), "1.1.1.1:8333".to_string()],
        "most-recently-confirmed first, unreachable excluded"
    );
    assert_eq!(read_known_good(&t.list(), 1), vec!["2.2.2.2:8333".to_string()]);
}

#[test]
fn aging_drops_nodes_not_confirmed_recently() {
    let mut t = NodeTable::new();
    let mut fresh = node("5.5.5.5:8333", true);
    fresh.last_seen = now_iso();
    let mut stale = node("6.6.6.6:8333", true);
    stale.last_seen = iso_secs_ago(10 * 24 * 3600);
    t.write_snapshot("t1", &[fresh, stale], &StrMap::new());

    let all = fresh_rows(&t.list(), None);
    let r = read_report(&all, &vec![], 100, no_meta());
    assert_eq!(r.aggregates.total_nodes, 2, "aging disabled keeps everything");

    let cutoff = iso_secs_ago(48 * 3600);
    let live = fresh_rows(&t.list(), Some(&cutoff));
    let r = read_report(&live, &vec![], 100, no_meta());
    assert_eq!(r.aggregates.total_nodes, 1, "stale node should age out");
    assert_eq!(r.nodes.len(), 1);
    assert_eq!(r.nodes[0].addr, "5.5.5.5:8333");

    let rows: Vec<NodeRow> = live.iter().map(node_row).collect();
    let (rows, total) = read_nodes(&rows, "", "depth", false, 100, 0);
    assert_eq!(total, 1, "read_nodes should apply the same window");
    assert_eq!(rows[0].addr, "5.5.5.5:8333");
}

#[test]
fn failed_probe_never_clobbers_a_successful_one() {
    let mut t = NodeTable::new();
    let addr = "9.9.9.9:8333";

    t.write_snapshot("t1", &[node(addr, true)], &StrMap::new());
    t.write_snapshot("t2", &[unreachable_node(addr)], &StrMap::new());

    assert!(row(&t, addr).online, "a failed probe must not flip a handshaked node offline");
    assert_eq!(
        row(&t, addr).implementation,
        "Bitcoin Core",
        "a failed probe must not overwrite the client name"
    );

    t.write_snapshot("t3", &[node(addr, true)], &StrMap::new());
    assert_eq!(row(&t, addr).last_seen, "t3", "a handshaked write should refresh the row");

    t.write_snapshot("t4", &[unreachable_node("8.8.8.8:8333")], &StrMap::new());
    assert_eq!(t.list().iter().filter(|r| r.addr == "8.8.8.8:8333").count(), 1);
}

fn blk(h: i64) -> BlockInfo {
    BlockInfo {
        height: h,
        hash: format!("{h:064x}"),
        time: 100,
        version: 0x2000_0000,
        signals: false,
        tx_count: 2000,
        size: 1_500_000,
        weight: 3_990_000,
        miner: "Foundry USA".into(),
    }
}

#[test]
fn re_storing_a_block_preserves_its_analysis() {
    let mut t = BlockTable::new();

    t.write_blocks(&vec![blk(900_000)]);
    t.write_block_analysis(900_000, "{\"insc_count\":42}".into(), None);
    t.write_blocks(&vec![blk(900_000)]);

    assert!(
        t.blocks_needing_analysis(10).is_empty(),
        "re-storing an analysed block must leave its payload intact"
    );
    let out = t.read_blocks(10);
    let payload: serde_json::Value =
        serde_json::from_str(out[0].payload.as_deref().unwrap()).unwrap();
    assert_eq!(payload["insc_count"], 42, "payload must survive the re-store");
}

#[test]
fn snapshots_accumulate_and_preserve_geo() {
    let mut t = NodeTable::new();
    let mut geo = StrMap::new();
    geo.insert(
        "1.1.1.1:8333".to_string(),
        GeoInfo {
            lat: 1.0f64.to_bits(),
            lon: 2.0f64.to_bits(),
            country: "Testland".into(),
            country_code: "TL".into(),
            city: "Testville".into(),
        },
    );
    t.write_snapshot("t1", &[node("1.1.1.1:8333", true)], &geo);

    t.write_snapshot("t2", &[node("2.2.2.2:8333", true)], &StrMap::new());
    let n = t.list().iter().filter(|r| r.online).count();
    assert_eq!(n, 2, "both nodes should accumulate (no wipe)");

    t.write_snapshot("t3", &[node("1.1.1.1:8333", true)], &StrMap::new());
    assert_eq!(
        row(&t, "1.1.1.1:8333").city.as_deref(),
        Some("Testville"),
        "geo preserved on geo-less re-write"
    );
    assert_eq!(row(&t, "1.1.1.1:8333").last_seen, "t3");
}

#[test]
fn the_time_of_first_sight_is_written_once() {
    let mut t = NodeTable::new();
    let mut first = node("1.1.1.1:8333", true);
    first.first_seen = "2026-01-01T00:00:00Z".into();
    let mut again = node("1.1.1.1:8333", true);
    again.first_seen = "2026-02-02T00:00:00Z".into();
    t.write_snapshot("t1", &[unreachable_node("2.2.2.2:8333"), first], &StrMap::new());
    t.write_snapshot("t2", &[again], &StrMap::new());
    assert_eq!(row(&t, "1.1.1.1:8333").first_seen, "2026-01-01T00:00:00Z");
    let mut found = node("2.2.2.2:8333", true);
    found.first_seen = "2026-03-03T00:00:00Z".into();
    t.write_snapshot("t3", &[found], &StrMap::new());
    assert_eq!(row(&t, "2.2.2.2:8333").first_seen, "2026-03-03T00:00:00Z");
}

#[test]
fn storing_a_block_again_changes_nothing() {
    let mut t = BlockTable::new();
    t.write_blocks(&vec![blk(7)]);
    t.write_blocks(&vec![blk(7)]);
    let rows = t.read_blocks(10);
    assert_eq!(rows.len(), 1);
    assert_eq!(rows[0].info.miner, "Foundry USA");
    assert!(rows[0].payload.is_none());
}

fn stored(addr: &str, depth: u32, times: u32) -> StoredNode {
    let mut t = NodeTable::new();
    let mut n = node(addr, true);
    n.depth = depth;
    n.times_seen = times;
    t.write_snapshot("2026-01-01T00:00:00Z", &[n], &StrMap::new());
    t.list().remove(0)
}

#[test]
fn the_own_node_survives_the_cap_of_a_report() {
    let rows = vec![
        stored("1.1.1.1:8333", 1, 9),
        stored("self", 0, 0),
        stored("2.2.2.2:8333", 2, 5),
        stored("3.3.3.3:8333", 2, 9),
    ];
    let shown: Vec<String> = shown_rows(&rows, 3).into_iter().map(|r| r.addr).collect();
    assert_eq!(shown, vec!["self", "1.1.1.1:8333", "3.3.3.3:8333"]);
    assert_eq!(shown_rows(&rows, 9).len(), 4);
}

#[test]
fn a_report_counts_all_rows_and_shows_edges_between_the_shown() {
    let mut a = stored("1.1.1.1:8333", 1, 9);
    a.lat = Some(1.5f64.to_bits());
    a.lon = Some(2.5f64.to_bits());
    let rows = vec![a, stored("2.2.2.2:8333", 1, 1), stored("3.3.3.3:8333", 1, 2)];
    let edge = |f: &str, t: &str| Edge { from: f.into(), to: t.into() };
    let edges = vec![
        edge("1.1.1.1:8333", "3.3.3.3:8333"),
        edge("1.1.1.1:8333", "2.2.2.2:8333"),
        edge("9.9.9.9:8333", "1.1.1.1:8333"),
    ];
    let r = read_report(&rows, &edges, 2, no_meta());
    assert_eq!(r.discovered_total, 3);
    assert_eq!(r.aggregates.total_nodes, 3);
    assert_eq!(r.aggregates.median_latency_ms, None);
    assert_eq!(r.nodes.len(), 2);
    assert_eq!(r.edges.len(), 1);
    assert_eq!(r.edges[0].to, "3.3.3.3:8333");
    let geo = r.geo.unwrap();
    assert_eq!(geo.get("1.1.1.1:8333").unwrap().lat, 1.5f64.to_bits());
    assert_eq!(geo.len(), 1);
    assert_eq!(r.own_node.addr, "self");
    assert_eq!(r.own_node.subversion, "(unknown)");
    assert_eq!(r.network, "main");
    assert_eq!(r.generated_at, "");
    assert!(r.live);
    assert_eq!(r.refresh_seconds, 10);
}

#[test]
fn a_report_takes_what_the_database_says_of_it() {
    let mut meta = no_meta();
    meta.own_node = Some(OwnNode {
        addr: "self (x)".into(),
        version: 7,
        subversion: "x".into(),
        implementation: "Bitcoin Core".into(),
        network: "test".into(),
    });
    meta.network = Some("test".into());
    meta.generated_at = Some("t".into());
    let r = read_report(&vec![], &vec![], 2, meta);
    assert_eq!(r.own_node.version, 7);
    assert_eq!(r.network, "test");
    assert_eq!(r.generated_at, "t");
    assert!(r.geo.is_none());
}

#[test]
fn a_row_is_judged_anew_when_it_is_read() {
    let mut r = stored("1.1.1.1:8333", 1, 1);
    r.bip110 = "unknown".into();
    r.user_agent = "/Satoshi:29.3.0/Knots:20260508/".into();
    assert_eq!(row_to_node(&r).bip110, Bip110Stance::Enforcing);
    assert_eq!(node_row(&r).bip110, "enforcing");
    assert_eq!(current_stance("x", "/Satoshi:27.0.0/"), Bip110Stance::NotEnforcing);
    assert_eq!(stance_str(&Bip110Stance::Unknown), "unknown");
    assert!(row_place(&r).is_none());
    r.lat = Some(1);
    assert!(row_place(&r).is_none());
    r.lon = Some(2);
    assert_eq!(row_place(&r).unwrap().city, "");
}

fn table_row(addr: &str, depth: u32, country: Option<&str>, bip: &str) -> NodeRow {
    NodeRow {
        addr: addr.into(),
        implementation: addr.into(),
        version: "1".into(),
        protocol_version: 70016 - depth as i32,
        depth,
        bip110: bip.into(),
        online: true,
        last_seen: String::new(),
        city: None,
        country: country.map(|c| c.to_string()),
    }
}

fn order(rows: &Vec<NodeRow>, sort: &str, desc: bool) -> Vec<String> {
    read_nodes(rows, "", sort, desc, 100, 0).0.into_iter().map(|r| r.addr).collect()
}

#[test]
fn the_table_is_filtered_sorted_and_cut_into_pages() {
    let rows = vec![
        table_row("b", 2, Some("Ireland"), "enforcing"),
        table_row("a", 1, None, "not_enforcing"),
        table_row("c", 1, Some("Chile"), "enforcing"),
    ];
    assert_eq!(order(&rows, "implementation", false), vec!["a", "b", "c"]);
    assert_eq!(order(&rows, "depth", false), vec!["a", "c", "b"]);
    assert_eq!(order(&rows, "depth", true), vec!["b", "c", "a"]);
    assert_eq!(order(&rows, "anything", false), vec!["a", "c", "b"]);
    assert_eq!(order(&rows, "country", false), vec!["a", "c", "b"]);
    assert_eq!(order(&rows, "location", true), vec!["b", "c", "a"]);
    assert_eq!(order(&rows, "protocol_version", false), vec!["b", "a", "c"]);
    assert_eq!(order(&rows, "bip110", false), vec!["b", "c", "a"]);
    assert_eq!(order(&rows, "version", false), vec!["b", "a", "c"]);
    let (page, total) = read_nodes(&rows, "enforcing", "depth", false, 1, 1);
    assert_eq!(total, 2);
    assert_eq!(page.len(), 1);
    assert_eq!(page[0].addr, "b");
    assert!(read_nodes(&rows, "", "depth", false, 5, 9).0.is_empty());
    assert_eq!(sort_column_of("location"), SortColumn::Country);
}

#[test]
fn the_pages_of_the_table_hold_every_row_once() {
    let rows: Vec<NodeRow> = (0..7)
        .map(|i| table_row(&i.to_string(), (i * 3) % 4, None, "enforcing"))
        .collect();
    for desc in [false, true] {
        let whole = order(&rows, "protocol_version", desc);
        for limit in [1, 2, 3, 7, 10] {
            let pages: Vec<String> = (0..7)
                .flat_map(|k| {
                    read_nodes(&rows, "", "protocol_version", desc, limit, k * limit).0
                })
                .map(|r| r.addr)
                .collect();
            assert_eq!(pages, whole);
        }
    }
}

#[test]
fn conditions_number_their_parameters() {
    let w = nodes_where("online=1", "Bitcoin Core", "ire");
    assert!(w.sql.starts_with("WHERE online=1 AND implementation=?1 AND (addr LIKE ?2"));
    assert_eq!(w.args, vec!["Bitcoin Core", "%ire%"]);
    let q = nodes_where("online=1", "", "ire");
    assert!(q.sql.contains("city LIKE ?1)"));
    assert_eq!(nodes_where("online=1", "", "").sql, "WHERE online=1");
    assert_eq!(fresh_clause(0), "online=1");
    assert_eq!(
        fresh_clause_at("2026-01-01T00:00:00Z"),
        "online=1 AND last_seen >= '2026-01-01T00:00:00Z'"
    );
    assert!(fresh_clause(3600).starts_with("online=1 AND last_seen >= '2"));
    assert_eq!(fresh_cutoff(0), None);
    assert_eq!(fresh_cutoff(3600).map(|c| c.len()), Some(20));
}

#[test]
fn a_row_is_fresh_up_to_the_end_of_the_window() {
    let mut r = stored("1.1.1.1:8333", 1, 1);
    let (now, window) = (1_770_000_000, 3600);
    let cutoff = iso_before(now, window);
    for (seen, fresh) in [(now, 1), (now - window, 1), (now - window - 1, 0)] {
        r.last_seen = iso_from_unix(seen);
        assert_eq!(fresh_rows(&vec![r.clone()], Some(&cutoff)).len(), fresh);
    }
    r.last_seen = iso_from_unix(now);
    r.online = false;
    assert!(fresh_rows(&vec![r], Some(&cutoff)).is_empty());
}

#[test]
fn edges_are_kept_where_both_ends_are() {
    let nodes = vec![node("a", true), node("b", true)];
    let edges = vec![
        Edge { from: "a".into(), to: "b".into() },
        Edge { from: "a".into(), to: "c".into() },
        Edge { from: "c".into(), to: "b".into() },
    ];
    let kept = edges_among(&edges, &nodes);
    assert_eq!(kept.len(), 1);
    assert_eq!(kept[0].to, "b");
}

fn signalling(h: i64) -> BlockInfo {
    let mut b = blk(h);
    b.signals = true;
    b
}

#[test]
fn blocks_are_read_newest_first() {
    let mut t = BlockTable::new();
    t.write_blocks(&vec![blk(5), signalling(12), signalling(10), blk(11), signalling(8)]);
    let heights: Vec<i64> = t.read_blocks(3).iter().map(|b| b.info.height).collect();
    assert_eq!(heights, vec![12, 11, 10]);
    assert_eq!(t.tip(), Some(12));
    let (start, tip, blocks) = t.read_period_signalling_blocks(10, 100);
    assert_eq!((start, tip), (10, 12));
    let heights: Vec<i64> = blocks.iter().map(|b| b.info.height).collect();
    assert_eq!(heights, vec![12, 10]);
    assert_eq!(t.read_period_signalling_blocks(10, 1).2.len(), 1);
    assert_eq!(t.read_period_signalling_blocks(0, 9).0, 12);
    assert_eq!(t.unstored_heights(&vec![12, 7, 5, 6]), vec![7, 6]);
    t.write_block_analysis(11, "{}".into(), None);
    t.write_block_analysis(99, "{}".into(), None);
    let open: Vec<i64> = t.blocks_needing_analysis(9).into_iter().map(|b| b.0).collect();
    assert_eq!(open, vec![12, 10, 8, 5]);
    assert_eq!(t.blocks_needing_analysis(1)[0].1, format!("{:064x}", 12));
    assert!(t.get(99).is_none());
    let (start, rows) = t.period_rows(10).unwrap();
    assert_eq!(start, 10);
    assert_eq!(rows.len(), 1);
}

#[test]
fn an_empty_table_has_no_period() {
    let t = BlockTable::new();
    assert_eq!(t.tip(), None);
    let (start, tip, blocks) = t.read_period_signalling_blocks(2016, 10);
    assert_eq!((start, tip), (0, 0));
    assert!(blocks.is_empty());
    assert!(t.period_rows(2016).is_none());
}

#[test]
fn a_loaded_table_keeps_the_later_of_two_rows() {
    let mut other = blk(3);
    other.miner = "x".into();
    let t = BlockTable::load(vec![
        StoredBlock { info: blk(3), payload: None, stats: None },
        StoredBlock { info: other, payload: Some("{}".into()), stats: None },
    ]);
    assert_eq!(t.read_blocks(9).len(), 1);
    assert_eq!(t.get(3).unwrap().info.miner, "x");
}

fn analysis(insc: i64, fee: Option<(i64, i64)>) -> BlockAnalysis {
    let obj = |v: Vec<(&str, i64)>| {
        Json::Object(
            v.into_iter().map(|(k, n)| (k.to_string(), Json::Number(Some(n)))).collect(),
        )
    };
    BlockAnalysis {
        payload: Some(obj(vec![
            ("insc_count", insc),
            ("rune_count", 2),
            ("payload_weight", 3),
            ("bip110_reject_weight", 4),
        ])),
        stats: fee.map(|(f, r)| obj(vec![("total_fee", f), ("median_feerate", r)])),
    }
}

#[test]
fn the_figures_of_a_period_are_sums_and_a_median() {
    let rows = vec![
        analysis(1, Some((10, 9))),
        analysis(5, None),
        analysis(7, Some((20, 1))),
        analysis(0, Some((30, 5))),
        BlockAnalysis { payload: None, stats: None },
    ];
    let p = read_period_block_stats(&rows).unwrap();
    assert_eq!(p.analysed, 4);
    assert_eq!(p.with_stats, 3);
    assert_eq!(p.insc_count, 13);
    assert_eq!(p.rune_count, 8);
    assert_eq!(p.payload_weight, 12);
    assert_eq!(p.reject_weight, 16);
    assert_eq!(p.total_fee, 60);
    assert_eq!(p.median_feerate, 5);
    assert_eq!(read_period_block_stats(&vec![]).unwrap().median_feerate, 0);
    let huge = vec![analysis(i64::MAX, None), analysis(1, None)];
    assert!(read_period_block_stats(&huge).is_none());
}

#[test]
fn edges_accumulate_and_none_is_stored_twice() {
    let edge = |f: &str, t: &str| Edge { from: f.into(), to: t.into() };
    let stored = vec![edge("a", "b"), edge("b", "a")];
    let found = [edge("b", "c"), edge("a", "b"), edge("b", "c"), edge("a", "c")];
    let merged = merge_edges(stored, &found);
    let pairs: Vec<(&str, &str)> =
        merged.iter().map(|e| (e.from.as_str(), e.to.as_str())).collect();
    assert_eq!(pairs, vec![("a", "b"), ("b", "a"), ("b", "c"), ("a", "c")]);
    assert!(merge_edges(vec![], &[]).is_empty());
    assert_eq!(merge_edges(vec![edge("ab", "c")], &[edge("a", "bc")]).len(), 2);
}
