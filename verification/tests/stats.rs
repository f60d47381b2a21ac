use bip110_crawler::db::StoredNode;
use bip110_crawler::stats::{
    history_point, is_like, read_stats, recent_history, record_history, top_versions,
    version_counts, HistoryRow, VersionCount,
};
use bip110_crawler::time::now_iso;

fn row(addr: &str, implementation: &str, version: &str, last_seen: &str, online: bool) -> StoredNode {
    StoredNode {
        addr: addr.into(),
        depth: 1,
        protocol_version: 70016,
        user_agent: String::new(),
        services: 0,
        start_height: 0,
        handshaked: online,
        implementation: implementation.into(),
        version: version.into(),
        bip110: "unknown".into(),
        first_seen: String::new(),
        last_seen: last_seen.into(),
        times_seen: 1,
        online,
        lat: None,
        lon: None,
        country: None,
        country_code: None,
        city: None,
    }
}

fn sample() -> Vec<StoredNode> {
    vec![
        row("1.1.1.1:8333", "Core", "2", "2026-02-01T00:00:00Z", true),
        row("x.ONION:8333", "Core", "1", "2026-02-01T00:00:00Z", true),
        row("y.onion:8333", "Core", "2", "2026-02-02T00:00:00Z", true),
        row("2.2.2.2:8333", "Alt", "", "2026-02-01T00:00:00Z", true),
        row("3.3.3.3:8333", "Core", "9", "2025-01-01T00:00:00Z", true),
        row("4.4.4.4:8333", "Core", "9", "2026-02-01T00:00:00Z", false),
    ]
}

#[test]
fn counts_by_version_stand_in_order() {
    let got: Vec<(String, String, usize)> = version_counts(&sample())
        .into_iter()
        .map(|g| (g.implementation, g.version, g.count))
        .collect();
    let want = vec![("Alt", "", 1), ("Core", "1", 1), ("Core", "2", 2), ("Core", "9", 2)];
    let want: Vec<(String, String, usize)> =
        want.into_iter().map(|(i, v, n)| (i.to_string(), v.to_string(), n)).collect();
    assert_eq!(got, want);
}

#[test]
fn a_point_of_the_history_counts_the_live_population() {
    let p = history_point(&sample(), "2026-02-03T04:05:06Z", "2026-01-01T00:00:00Z");
    assert_eq!(p.hour, "2026-02-03T04");
    assert_eq!(p.total, 4);
    assert_eq!(p.onion, 2);
    assert_eq!(p.distinct_versions, 3);
    assert_eq!(p.versions.get("Core 2"), Some(&2));
    assert_eq!(p.versions.get("Alt"), Some(&1));
    assert_eq!(p.versions.len(), 3);
    assert_eq!(history_point(&vec![], "short", "").hour, "short");
}

#[test]
fn the_same_rows_give_the_same_point() {
    let mut rows = sample();
    let point = |rows: &Vec<StoredNode>| {
        let p = history_point(rows, "2026-02-03T04:05:06Z", "2026-01-01T00:00:00Z");
        let versions: Vec<(String, usize)> = (0..p.versions.len())
            .map(|i| (p.versions.key_at(i).clone(), *p.versions.value_at(i)))
            .collect();
        (p.hour, p.total, p.onion, p.distinct_versions, versions)
    };
    let first = point(&rows);
    assert_eq!(point(&rows), first);
    rows.reverse();
    assert_eq!(point(&rows), first);
}

#[test]
fn the_window_of_the_history_ends_now() {
    let rows = vec![
        row("1.1.1.1:8333", "Core", "2", &now_iso(), true),
        row("2.2.2.2:8333", "Core", "2", "2020-01-01T00:00:00Z", true),
    ];
    assert_eq!(record_history(&rows, "2026-02-03T04:05:06Z").total, 1);
}

#[test]
fn a_point_keeps_the_twelve_largest_versions() {
    let groups: Vec<VersionCount> = (0..20)
        .map(|i| VersionCount {
            implementation: "Core".into(),
            version: format!("{i}"),
            count: 100 - (i / 2) * 2,
        })
        .collect();
    let top = top_versions(&groups);
    assert_eq!(top.len(), 12);
    assert!(top.get("Core 11").is_some());
    assert!(top.get("Core 12").is_none());
}

#[test]
fn the_latest_hours_are_shown_oldest_first() {
    let points: Vec<HistoryRow> = (0..800)
        .map(|i| HistoryRow { hour: format!("{:04}", (i * 7) % 800), snapshot: format!("{i}") })
        .collect();
    let got = recent_history(&points);
    assert_eq!(got.len(), 720);
    assert_eq!(got[0].hour, "0080");
    assert_eq!(got[719].hour, "0799");
}

#[test]
fn the_figures_of_a_crawl_split_up_the_address_book() {
    let s = read_stats(&sample(), 33, Some("2026-01-01T00:00:00Z"), 7200);
    assert_eq!(s.total_addresses, 6);
    assert_eq!(s.online_raw, 5);
    assert_eq!(s.unreachable, 1);
    assert_eq!(s.reachable, 4);
    assert_eq!(s.aged_out, 1);
    assert_eq!(s.onion, 2);
    assert_eq!(s.edges, 33);
    assert_eq!(s.distinct_versions, 3);
    assert_eq!(s.max_age_hours, 2);
    assert_eq!(read_stats(&sample(), 0, None, 0).reachable, 5);
}

#[test]
fn text_is_found_without_regard_to_case() {
    assert!(is_like("abc.OnIoN:1", ".onion"));
    assert!(!is_like("abc.onio", ".onion"));
    assert!(is_like("", ""));
    assert!(!is_like("", "a"));
}
