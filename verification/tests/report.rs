use bip110_crawler::report::{
    assemble, html_escape, nav_links, render_api_html, render_blocks_html, render_chains_html,
    render_code_html, render_entropy_html, render_index_html, render_mempool_html, render_nav,
    render_stats_html, render_support_html, render_why_html, support_card, word_list,
    wordlist_is_valid, SiteAssets,
};
use bip110_crawler::wordlist::bip39_wordlist_txt;

fn page(title: &str) -> String {
    format!("<html><head><style>/*__CSS__*/</style></head><body><!--__NAV__--><h1>{title}</h1><!--__CARDS__--><script>let d=/*__DATA__*/null,w=/*__WORLD__*/null,l=/*__WORDLIST__*/null;/*__JS__*/</script></body></html>")
}

fn assets() -> SiteAssets {
    SiteAssets {
        site_css: "body{}".into(),
        favicon_svg: "<svg/>".into(),
        ticker_js: "tick();".into(),
        world_geojson: "{\"world\":1}".into(),
        dash_html: page("dash"),
        dash_js: "dash();".into(),
        why_html: page("why"),
        why_js: "why();".into(),
        code_html: page("code"),
        support_html: page("support"),
        support_js: "support();".into(),
        stats_html: page("stats"),
        stats_js: "stats();".into(),
        chains_html: page("chains"),
        chains_js: "chains();".into(),
        blocks_html: page("blocks"),
        blocks_js: "blocks();".into(),
        mempool_html: page("mempool"),
        mempool_js: "mempool();".into(),
        entropy_html: page("entropy"),
        entropy_js: "entropy();".into(),
        bip39_wordlist: bip39_wordlist_txt(),
    }
}

#[test]
fn bip39_wordlist_is_exactly_2048_sorted_unique_words() {
    let text = bip39_wordlist_txt();
    let words: Vec<&str> = text.lines().filter(|l| !l.is_empty()).collect();
    assert_eq!(words.len(), 2048);
    assert!(words.windows(2).all(|w| w[0] < w[1]), "must be strictly ascending, no duplicates");
    assert!(
        words.iter().all(|w| w.chars().all(|c| c.is_ascii_lowercase())),
        "every entry must be pure lowercase ascii"
    );
    assert_eq!(words[0], "abandon");
    assert_eq!(words[2047], "zoo");
}

#[test]
fn entropy_page_renders_with_the_wordlist_embedded() {
    assert!(wordlist_is_valid(&bip39_wordlist_txt()));
    let html = render_entropy_html(&assets());
    assert!(html.contains("\"abandon\""), "wordlist JSON should be spliced into the page");
    assert!(html.contains("\"zoo\""));
    assert!(!html.contains("/*__WORDLIST__*/"), "the placeholder must be fully replaced");
    assert!(html.contains("l=[\"abandon\",\"ability\","));
}

#[test]
fn nav_marks_exactly_the_current_page_active_and_lists_every_page() {
    let nav = render_nav("/blocks");
    assert_eq!(nav.matches("class=\"active\"").count(), 1, "exactly one page is ever current");
    assert!(nav.contains("href=\"/blocks\" class=\"active\""));
    for (path, _) in nav_links() {
        assert!(nav.contains(&format!("href=\"{path}\"")), "missing nav link to {path}");
    }
}

#[test]
fn every_page_shell_gets_the_nav_spliced_in_with_no_leftover_placeholder() {
    let a = assets();
    for html in [render_blocks_html(&a), render_index_html("{}", &a)] {
        assert!(!html.contains("<!--__NAV__-->"), "the nav placeholder must be fully replaced");
        assert!(html.contains("class=\"nav-links\""), "the actual nav markup must be present");
    }
}

#[test]
fn an_unknown_page_is_marked_nowhere_in_the_nav() {
    assert_eq!(render_nav("/nowhere").matches("class=\"active\"").count(), 0);
    assert_eq!(nav_links().len(), 9);
}

#[test]
fn the_index_carries_data_world_style_and_scripts() {
    let html = render_index_html("{\"x\":1}", &assets());
    assert!(html.contains("let d={\"x\":1},w={\"world\":1}"));
    assert!(html.contains("body{}"));
    assert!(html.contains("dash();"));
    assert!(html.contains("tick();"));
    assert!(html.contains("favicon.svg"));
}

#[test]
fn every_page_has_its_own_shell() {
    let a = assets();
    assert!(render_api_html(&a).contains("<h1>dash</h1>"));
    assert!(render_why_html(&a).contains("why();"));
    assert!(render_code_html(&a).contains("<h1>code</h1>"));
    assert!(render_stats_html(&a).contains("stats();"));
    assert!(render_chains_html(&a).contains("chains();"));
    assert!(render_mempool_html(&a).contains("mempool();"));
    assert!(assemble("<head></head>/*__JS__*/", "f();", "/why", &a).contains("f();"));
}

#[test]
fn the_page_that_fetches_its_data_starts_with_an_empty_report() {
    let html = render_api_html(&assets());
    assert!(html.contains("\"nodes\":[],\"edges\":[]"));
}

#[test]
fn a_word_list_is_read_by_lines() {
    assert_eq!(word_list("a\r\nb\n\nc"), vec!["a", "b", "c"]);
    assert_eq!(word_list("a\nb\r"), vec!["a", "b\r"]);
    assert!(word_list("").is_empty());
}

#[test]
fn a_word_list_out_of_order_or_short_is_refused() {
    assert!(!wordlist_is_valid("a\nb\n"));
    let swapped = bip39_wordlist_txt().replacen("abandon\nability\n", "ability\nabandon\n", 1);
    assert!(!wordlist_is_valid(&swapped));
    let doubled = bip39_wordlist_txt().replacen("abandon\nability\n", "ability\nability\n", 1);
    assert!(!wordlist_is_valid(&doubled));
}

#[test]
fn escaped_text_carries_no_markup() {
    assert_eq!(html_escape("<a href=\"x\">&</a>"), "&lt;a href=&quot;x&quot;&gt;&amp;&lt;/a&gt;");
    assert_eq!(html_escape("plain"), "plain");
}

#[test]
fn each_character_is_escaped_once() {
    assert_eq!(html_escape("&lt;"), "&amp;lt;");
    let text = "a<&\"é>&amp;";
    let each: String = text.chars().map(|c| html_escape(&c.to_string())).collect();
    assert_eq!(html_escape(text), each);
}

#[test]
fn the_support_page_shows_what_is_configured() {
    let a = assets();
    let none = render_support_html("", "", false, false, &a);
    assert!(none.contains("configured on this instance"));
    let both = render_support_html("bc1q<", "me@ln", true, false, &a);
    assert!(both.contains("bitcoin:bc1q&lt;"));
    assert!(both.contains("/support/bitcoin.png"));
    assert!(!both.contains("/support/lightning.png"));
    assert!(both.contains("lightning:me@ln"));
    assert!(!both.contains("<!--__CARDS__-->"));
    assert!(support_card("T", "s", "v", None, "x:").contains("href=\"x:v\""));
}
