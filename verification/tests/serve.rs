use bip110_crawler::report::{nav_links, render_api_html, render_why_html, SiteAssets};
use bip110_crawler::serve::{
    data_reply, decode_bytes, endpoint_of, parse_query, pct_decode, respond, route, route_for, Body,
    Endpoint, Reply, Route, Site, Step,
};
use bip110_crawler::strmap::StrMap;
use bip110_crawler::wordlist::bip39_wordlist_txt;

#[test]
fn escapes_in_a_query_are_decoded() {
    assert_eq!(pct_decode("a%20b+c"), "a b c");
    assert_eq!(pct_decode("%c3%A9"), "é");
    assert_eq!(pct_decode("100%"), "100%");
    assert_eq!(pct_decode("%zz"), "%zz");
    assert_eq!(pct_decode("%ff"), "\u{fffd}");
    assert_eq!(decode_bytes(b"%41+"), b"A ".to_vec());
}

#[test]
fn the_last_of_two_parameters_counts() {
    let q = parse_query("a=1&b=%20x&a=2&flag");
    assert_eq!(q.get("a").map(|s| s.as_str()), Some("2"));
    assert_eq!(q.get("b").map(|s| s.as_str()), Some(" x"));
    assert!(q.get("c").is_none());
}

#[test]
fn paths_lead_to_pages() {
    assert_eq!(endpoint_of("/"), Endpoint::Index);
    assert_eq!(endpoint_of("/why.html"), Endpoint::Why);
    assert_eq!(endpoint_of("/api/nodes"), Endpoint::ApiNodes);
    assert_eq!(endpoint_of("/nothing"), Endpoint::NotFound);
    assert!(matches!(route("/stats?x=1"), Route::Stats));
    assert!(matches!(route("/api/ticker"), Route::ApiTicker));
    assert!(matches!(route("/support/bitcoin.png"), Route::BitcoinQr));
    assert!(matches!(route(""), Route::NotFound));
}

#[test]
fn every_linked_page_is_served() {
    for (path, _) in nav_links() {
        assert_ne!(endpoint_of(path), Endpoint::NotFound, "{path}");
    }
    assert!(matches!(route("/mempool"), Route::Mempool));
    assert!(matches!(route("/entropy"), Route::Entropy));
    assert!(matches!(route("/favicon.ico"), Route::Favicon));
}

#[test]
fn numbers_in_requests_are_bounded() {
    assert!(matches!(route("/api/report"), Route::ApiReport(3000)));
    assert!(matches!(route("/api/report?max=7"), Route::ApiReport(7)));
    assert!(matches!(route("/api/report?max=x"), Route::ApiReport(3000)));
    assert!(matches!(route("/api/blocks"), Route::ApiBlocks(50)));
    assert!(matches!(route("/api/blocks?limit=9999"), Route::ApiBlocks(500)));
    match route("/api/nodes?limit=5000&offset=20&q=a%20b&impl=Core&dir=desc") {
        Route::ApiNodes(n) => {
            assert_eq!(n.limit, 1000);
            assert_eq!(n.offset, 20);
            assert_eq!(n.q, "a b");
            assert_eq!(n.implementation, "Core");
            assert_eq!(n.sort, "depth");
            assert_eq!(n.bip, "");
            assert!(n.dir_desc);
        }
        _ => panic!("a request for nodes"),
    }
    assert!(matches!(route_for("/api/nodes", &StrMap::new()), Route::ApiNodes(n) if n.limit == 100 && !n.dir_desc));
}

fn assets() -> SiteAssets {
    let shell = |title: &str| format!("<head><title>{title}</title></head><!--__NAV__-->");
    SiteAssets {
        site_css: "css".into(),
        favicon_svg: "<svg/>".into(),
        ticker_js: "tick".into(),
        world_geojson: "{}".into(),
        dash_html: shell("dash"),
        dash_js: String::new(),
        why_html: shell("why"),
        why_js: String::new(),
        code_html: shell("code"),
        support_html: shell("support") + "<!--__CARDS__-->",
        support_js: String::new(),
        stats_html: shell("stats"),
        stats_js: String::new(),
        chains_html: shell("chains"),
        chains_js: String::new(),
        blocks_html: shell("blocks"),
        blocks_js: String::new(),
        mempool_html: shell("mempool"),
        mempool_js: String::new(),
        entropy_html: shell("entropy"),
        entropy_js: String::new(),
        bip39_wordlist: bip39_wordlist_txt(),
    }
}

fn answer(site: &Site, url: &str) -> Reply {
    match respond(url, site) {
        Step::Answer(r) => r,
        Step::Read(_) => panic!("{url} needs data"),
    }
}

fn text(r: Reply) -> String {
    match r.into_body() {
        Body::Text(s) => s,
        Body::Bytes(_) => panic!("a text was expected"),
    }
}

#[test]
fn a_request_is_answered_with_its_page() {
    let site = Site::new(assets(), "bc1q", "", vec![7], Some(vec![1, 2]), None);
    assert_eq!(text(answer(&site, "/")), render_api_html(&assets()));
    assert_eq!(text(answer(&site, "/why?x=1")), render_why_html(&assets()));
    let r = answer(&site, "/support");
    assert_eq!((r.status(), r.content_type()), (200, Some("text/html; charset=utf-8")));
    assert!(text(r).contains("href=\"bitcoin:bc1q\""));
    let r = answer(&site, "/support/bitcoin.png");
    assert_eq!((r.status(), r.content_type()), (200, Some("image/png")));
    assert!(matches!(r.into_body(), Body::Bytes(b) if b == [1, 2]));
    let r = answer(&site, "/summary_large_image.png");
    assert_eq!((r.status(), r.content_type()), (200, Some("image/png")));
    assert!(matches!(r.into_body(), Body::Bytes(b) if b == [7]));
    let r = answer(&site, "/favicon.svg");
    assert_eq!(r.content_type(), Some("image/svg+xml"));
    assert_eq!(text(r), "<svg/>");
    assert!(text(answer(&site, "/entropy")).contains("entropy"));
}

#[test]
fn only_the_entropy_page_needs_the_word_list() {
    let bare = || SiteAssets { bip39_wordlist: String::new(), ..assets() };
    let site = Site::new(bare(), "", "", vec![], None, None);
    assert_eq!(text(answer(&site, "/why")), render_why_html(&bare()));
    assert_eq!(answer(&site, "/nothing").status(), 404);
}

#[test]
fn what_is_not_there_is_refused() {
    let site = Site::new(assets(), "", "", vec![], None, None);
    for url in ["/nothing", "", "/support/lightning.png", "/support/bitcoin.png", "/api"] {
        let r = answer(&site, url);
        assert_eq!((r.status(), r.content_type()), (404, None), "{url}");
        assert_eq!(text(r), "not found");
    }
}

#[test]
fn data_is_read_before_it_is_answered() {
    let site = Site::new(assets(), "", "", vec![], None, None);
    assert!(matches!(respond("/api/blocks?limit=7", &site), Step::Read(Route::ApiBlocks(7))));
    let r = data_reply(Ok("{}".to_string()));
    assert_eq!((r.status(), r.content_type()), (200, Some("application/json")));
    assert_eq!(text(r), "{}");
    let r = data_reply(Err("no table".to_string()));
    assert_eq!((r.status(), r.content_type()), (500, None));
    assert_eq!(text(r), "error: no table");
}

#[test]
fn text_without_signs_stands_for_itself() {
    for s in ["", "satoshi", "é–日", "a=b&c"] {
        assert_eq!(pct_decode(s), s);
    }
}
