//! The report and the pages that show it. A page is made from its shell, a text with marks that
//! are replaced by the style sheet, the navigation, the scripts and the data.
use vstd::prelude::*;

use crate::geo::GeoInfo;
use crate::node::{Aggregates, ChainSplit, Edge, NodeInfo, SignalStats};
use crate::strmap::StrMap;
use crate::text::{
    chars_less, chars_of, first_of, has_text, joined, law_has_text, law_replaced, lemma_first_of,
    lemma_first_of_is, lemma_lex_irreflexive, lemma_lex_transitive, lex_less, part, pieces, replace_text, replaced, same_text, split_on,
    stands_at, string_of,
};

verus! {

/// The own node, as the report's header shows it.
#[derive(Debug)]
pub struct OwnNode {
    pub addr: String,
    pub version: i64,
    pub subversion: String,
    pub implementation: String,
    pub network: String,
}

impl Clone for OwnNode {
    fn clone(&self) -> (r: Self)
        ensures
            r == *self,
    {
        OwnNode {
            addr: self.addr.clone(),
            version: self.version,
            subversion: self.subversion.clone(),
            implementation: self.implementation.clone(),
            network: self.network.clone(),
        }
    }
}

/// Everything that a report shows.
pub struct ReportData {
    pub generated_at: String,
    pub network: String,
    pub own_node: OwnNode,
    pub signalling: Option<SignalStats>,
    pub chain_split: Option<ChainSplit>,
    pub aggregates: Aggregates,
    /// How many nodes were found; more than are listed where the report is capped.
    pub discovered_total: usize,
    pub nodes: Vec<NodeInfo>,
    pub edges: Vec<Edge>,
    /// The places of nodes, where they were looked up.
    pub geo: Option<StrMap<GeoInfo>>,
    /// Whether the page fetches the data again.
    pub live: bool,
    /// How often, in seconds; 0 for never.
    pub refresh_seconds: u32,
}

/// The texts that pages are made of.
pub struct SiteAssets {
    pub site_css: String,
    pub favicon_svg: String,
    pub ticker_js: String,
    pub world_geojson: String,
    pub dash_html: String,
    pub dash_js: String,
    pub why_html: String,
    pub why_js: String,
    pub code_html: String,
    pub support_html: String,
    pub support_js: String,
    pub stats_html: String,
    pub stats_js: String,
    pub chains_html: String,
    pub chains_js: String,
    pub blocks_html: String,
    pub blocks_js: String,
    pub mempool_html: String,
    pub mempool_js: String,
    pub entropy_html: String,
    pub entropy_js: String,
    /// The BIP-39 English words, one on a line.
    pub bip39_wordlist: String,
}

// ---- navigation ---------------------------------------------------------------------------

/// Path and label of every page, in the order of the navigation.
pub open spec fn nav_pages() -> Seq<(Seq<char>, Seq<char>)> {
    seq![
        ("/"@, "◂ Live crawler"@),
        ("/why"@, "Why BIP-110?"@),
        ("/code"@, "Code"@),
        ("/blocks"@, "⛓ Blocks"@),
        ("/mempool"@, "🏊 Mempool"@),
        ("/chains"@, "🔀 Chains"@),
        ("/stats"@, "📊 Stats"@),
        ("/entropy"@, "🎲 Entropy"@),
        ("/support"@, "⚡ Support"@),
    ]
}

/// Path and label of every page.
pub fn nav_links() -> (r: Vec<(&'static str, &'static str)>)
    ensures
        r@.map_values(|p: (&'static str, &'static str)| (p.0@, p.1@)) == nav_pages(),
{
    let mut v: Vec<(&'static str, &'static str)> = Vec::new();
    v.push(("/", "◂ Live crawler"));
    v.push(("/why", "Why BIP-110?"));
    v.push(("/code", "Code"));
    v.push(("/blocks", "⛓ Blocks"));
    v.push(("/mempool", "🏊 Mempool"));
    v.push(("/chains", "🔀 Chains"));
    v.push(("/stats", "📊 Stats"));
    v.push(("/entropy", "🎲 Entropy"));
    v.push(("/support", "⚡ Support"));
    assert(v@.map_values(|p: (&'static str, &'static str)| (p.0@, p.1@)) =~= nav_pages());
    v
}

/// One link; that of the current page is marked.
pub open spec fn nav_link(path: Seq<char>, label: Seq<char>, current: Seq<char>) -> Seq<char> {
    "<a href=\""@ + path + "\""@ + (if path == current {
        " class=\"active\""@
    } else {
        Seq::empty()
    }) + ">"@ + label + "</a>"@
}

/// The links to `pages`.
pub open spec fn nav_items(pages: Seq<(Seq<char>, Seq<char>)>, current: Seq<char>) -> Seq<char>
    decreases pages.len(),
{
    if pages.len() == 0 {
        Seq::empty()
    } else {
        nav_items(pages.drop_last(), current) + nav_link(
            pages.last().0,
            pages.last().1,
            current,
        )
    }
}

/// The navigation of the page at `current`.
pub open spec fn nav(current: Seq<char>) -> Seq<char> {
    "<nav><span class=\"brand\">▚ BIP-110</span><div class=\"nav-links\">"@ + nav_items(
        nav_pages(),
        current,
    ) + "</div></nav>"@
}

/// The navigation of the page at `current`.
pub fn render_nav(current: &str) -> (r: String)
    ensures
        r@ == nav(current@),
{
    let links = nav_links();
    let ghost pages = nav_pages();
    let mut items: String = String::new();
    let mut i: usize = 0;
    assert(pages.take(0) =~= Seq::<(Seq<char>, Seq<char>)>::empty());
    assert(items@ =~= Seq::<char>::empty());
    while i < links.len()
        invariant
            i <= links@.len(),
            pages == nav_pages(),
            links@.map_values(|p: (&'static str, &'static str)| (p.0@, p.1@)) == pages,
            links@.len() == pages.len(),
            items@ == nav_items(pages.take(i as int), current@),
        decreases links@.len() - i,
    {
        let path: &'static str = links[i].0;
        let label: &'static str = links[i].1;
        proof {
            assert(pages[i as int] == links@.map_values(
                |p: (&'static str, &'static str)| (p.0@, p.1@),
            )[i as int]);
            assert(pages.take(i + 1).drop_last() == pages.take(i as int));
            assert(pages.take(i + 1).last() == (path@, label@));
        }
        let ghost was = items@;
        items.append("<a href=\"");
        items.append(path);
        items.append("\"");
        if same_text(path, current) {
            items.append(" class=\"active\"");
        }
        items.append(">");
        items.append(label);
        items.append("</a>");
        assert(items@ =~= was + nav_link(path@, label@, current@));
        i = i + 1;
    }
    assert(pages.take(pages.len() as int) == pages);
    let a = joined(
        "<nav><span class=\"brand\">▚ BIP-110</span><div class=\"nav-links\">",
        items.as_str(),
    );
    joined(a.as_str(), "</div></nav>")
}

/// No two pages have the same path, so that at most one link is marked.
pub proof fn law_paths_are_distinct(i: int, j: int)
    requires
        0 <= i < j < nav_pages().len(),
    ensures
        nav_pages()[i].0 != nav_pages()[j].0,
{
    reveal_strlit("/");
    reveal_strlit("/why");
    reveal_strlit("/code");
    reveal_strlit("/blocks");
    reveal_strlit("/mempool");
    reveal_strlit("/chains");
    reveal_strlit("/stats");
    reveal_strlit("/entropy");
    reveal_strlit("/support");
    assert("/"@.len() == 1 && "/why"@.len() == 4 && "/code"@.len() == 5 && "/blocks"@.len() == 7 && "/mempool"@.len() == 8 && "/chains"@.len() == 7 && "/stats"@.len() == 6 && "/entropy"@.len() == 8 && "/support"@.len() == 8);
    assert("/why"@[1] == 'w');
    assert("/code"@[1] == 'c');
    assert("/blocks"@[1] == 'b');
    assert("/mempool"@[1] == 'm');
    assert("/chains"@[1] == 'c');
    assert("/stats"@[1] == 's');
    assert("/entropy"@[1] == 'e');
    assert("/support"@[1] == 's');
    assert("/support"@[2] == 'u' && "/stats"@[2] == 't');
}

// ---- pages --------------------------------------------------------------------------------

/// A page made from its shell: style sheet, navigation, the common script followed by its own,
/// and the icon.
pub open spec fn assembled(
    html: Seq<char>,
    js: Seq<char>,
    current: Seq<char>,
    a: SiteAssets,
) -> Seq<char> {
    let p = replaced(html, "/*__CSS__*/"@, a.site_css@);
    let p = replaced(p, "<!--__NAV__-->"@, nav(current));
    let p = replaced(p, "/*__JS__*/"@, a.ticker_js@ + "\n"@ + js);
    replaced(
        p,
        "</head>"@,
        "<link rel=\"icon\" type=\"image/svg+xml\" href=\"/favicon.svg\">\n</head>"@,
    )
}

/// The marks in a shell are not empty.
proof fn lemma_marks()
    ensures
        "/*__CSS__*/"@.len() > 0,
        "<!--__NAV__-->"@.len() > 0,
        "/*__JS__*/"@.len() > 0,
        "</head>"@.len() > 0,
        "/*__DATA__*/null"@.len() > 0,
        "/*__WORLD__*/null"@.len() > 0,
        "/*__API_URL__*/null"@.len() > 0,
        "/*__WORDLIST__*/null"@.len() > 0,
        "<!--__CARDS__-->"@.len() > 0,
        "&"@.len() > 0,
        "<"@.len() > 0,
        ">"@.len() > 0,
        "\""@.len() > 0,
{
    reveal_strlit("/*__CSS__*/");
    reveal_strlit("<!--__NAV__-->");
    reveal_strlit("/*__JS__*/");
    reveal_strlit("</head>");
    reveal_strlit("/*__DATA__*/null");
    reveal_strlit("/*__WORLD__*/null");
    reveal_strlit("/*__API_URL__*/null");
    reveal_strlit("/*__WORDLIST__*/null");
    reveal_strlit("<!--__CARDS__-->");
    reveal_strlit("&");
    reveal_strlit("<");
    reveal_strlit(">");
    reveal_strlit("\"");
}

/// Makes a page from its shell; `current` is its path.
pub fn assemble(html: &str, js: &str, current: &str, a: &SiteAssets) -> (r: String)
    ensures
        r@ == assembled(html@, js@, current@, *a),
{
    proof {
        lemma_marks();
    }
    let p = replace_text(html, "/*__CSS__*/", a.site_css.as_str());
    let bar = render_nav(current);
    let p = replace_text(p.as_str(), "<!--__NAV__-->", bar.as_str());
    let ticker = joined(a.ticker_js.as_str(), "\n");
    let script = joined(ticker.as_str(), js);
    let p = replace_text(p.as_str(), "/*__JS__*/", script.as_str());
    replace_text(
        p.as_str(),
        "</head>",
        "<link rel=\"icon\" type=\"image/svg+xml\" href=\"/favicon.svg\">\n</head>",
    )
}

/// The report as one page, with its data in it.
pub fn render_index_html(json: &str, a: &SiteAssets) -> (r: String)
    ensures
        r@ == replaced(
            replaced(
                assembled(a.dash_html@, a.dash_js@, "/"@, *a),
                "/*__DATA__*/null"@,
                json@,
            ),
            "/*__WORLD__*/null"@,
            a.world_geojson@,
        ),
{
    proof {
        lemma_marks();
    }
    let p = assemble(a.dash_html.as_str(), a.dash_js.as_str(), "/", a);
    let p = replace_text(p.as_str(), "/*__DATA__*/null", json);
    replace_text(p.as_str(), "/*__WORLD__*/null", a.world_geojson.as_str())
}

/// A report without nodes, for a page that fetches its data.
pub open spec fn empty_report() -> Seq<char> {
    "{\"generated_at\":\"\",\"network\":\"main\",\"own_node\":{\"addr\":\"self\",\"version\":0,\"subversion\":\"loading…\",\"implementation\":\"Unknown\",\"network\":\"main\"},\"signalling\":null,\"aggregates\":{\"by_implementation\":{},\"by_version\":{},\"by_bip110\":{},\"total_nodes\":0,\"handshaked_nodes\":0,\"online_nodes\":0},\"discovered_total\":0,\"nodes\":[],\"edges\":[],\"live\":true,\"refresh_seconds\":10}"@
}

/// The page that fetches the report from the server.
pub open spec fn api_page(a: SiteAssets) -> Seq<char> {
    replaced(
        replaced(
            replaced(
                assembled(a.dash_html@, a.dash_js@, "/"@, a),
                "/*__DATA__*/null"@,
                empty_report(),
            ),
            "/*__WORLD__*/null"@,
            a.world_geojson@,
        ),
        "/*__API_URL__*/null"@,
        "\"/api/report\""@,
    )
}

/// The page that fetches the report from the server.
pub fn render_api_html(a: &SiteAssets) -> (r: String)
    ensures
        r@ == api_page(*a),
{
    proof {
        lemma_marks();
    }
    let p = assemble(a.dash_html.as_str(), a.dash_js.as_str(), "/", a);
    let p = replace_text(
        p.as_str(),
        "/*__DATA__*/null",
        "{\"generated_at\":\"\",\"network\":\"main\",\"own_node\":{\"addr\":\"self\",\"version\":0,\"subversion\":\"loading…\",\"implementation\":\"Unknown\",\"network\":\"main\"},\"signalling\":null,\"aggregates\":{\"by_implementation\":{},\"by_version\":{},\"by_bip110\":{},\"total_nodes\":0,\"handshaked_nodes\":0,\"online_nodes\":0},\"discovered_total\":0,\"nodes\":[],\"edges\":[],\"live\":true,\"refresh_seconds\":10}",
    );
    let p = replace_text(p.as_str(), "/*__WORLD__*/null", a.world_geojson.as_str());
    replace_text(p.as_str(), "/*__API_URL__*/null", "\"/api/report\"")
}

/// The page that says why BIP-110 should be supported.
pub fn render_why_html(a: &SiteAssets) -> (r: String)
    ensures
        r@ == assembled(a.why_html@, a.why_js@, "/why"@, *a),
{
    assemble(a.why_html.as_str(), a.why_js.as_str(), "/why", a)
}

/// The page with crawl statistics.
pub fn render_stats_html(a: &SiteAssets) -> (r: String)
    ensures
        r@ == assembled(a.stats_html@, a.stats_js@, "/stats"@, *a),
{
    assemble(a.stats_html.as_str(), a.stats_js.as_str(), "/stats", a)
}

/// The page with the chains that peers are on.
pub fn render_chains_html(a: &SiteAssets) -> (r: String)
    ensures
        r@ == assembled(a.chains_html@, a.chains_js@, "/chains"@, *a),
{
    assemble(a.chains_html.as_str(), a.chains_js.as_str(), "/chains", a)
}

/// The block explorer.
pub fn render_blocks_html(a: &SiteAssets) -> (r: String)
    ensures
        r@ == assembled(a.blocks_html@, a.blocks_js@, "/blocks"@, *a),
{
    assemble(a.blocks_html.as_str(), a.blocks_js.as_str(), "/blocks", a)
}

/// The mempool view.
pub fn render_mempool_html(a: &SiteAssets) -> (r: String)
    ensures
        r@ == assembled(a.mempool_html@, a.mempool_js@, "/mempool"@, *a),
{
    assemble(a.mempool_html.as_str(), a.mempool_js.as_str(), "/mempool", a)
}

/// The page that walks through the code.
pub fn render_code_html(a: &SiteAssets) -> (r: String)
    ensures
        r@ == assembled(a.code_html@, Seq::empty(), "/code"@, *a),
{
    proof {
        reveal_strlit("");
        assert(""@ =~= Seq::<char>::empty());
    }
    assemble(a.code_html.as_str(), "", "/code", a)
}

// ---- the word list ------------------------------------------------------------------------

/// A line without the carriage return in front of its line feed.
pub open spec fn without_cr(s: Seq<char>) -> Seq<char> {
    if s.len() > 0 && s.last() == '\r' {
        s.drop_last()
    } else {
        s
    }
}

/// The lines among `p`, of which the first `n` ended in a line feed, that are not empty.
pub open spec fn filled_lines(p: Seq<Seq<char>>, n: int) -> Seq<Seq<char>>
    decreases p.len(),
{
    if p.len() == 0 {
        Seq::empty()
    } else {
        let r = filled_lines(p.drop_last(), n);
        let line = if p.len() <= n {
            without_cr(p.last())
        } else {
            p.last()
        };
        if line.len() > 0 {
            r.push(line)
        } else {
            r
        }
    }
}

/// The words of a list, one on a line.
pub open spec fn words_of(text: Seq<char>) -> Seq<Seq<char>> {
    let p = pieces(text, '\n');
    filled_lines(p, p.len() - 1)
}

/// A word list that can be used: 2048 words in strictly ascending order.
pub open spec fn valid_wordlist(w: Seq<Seq<char>>) -> bool {
    w.len() == 2048 && forall|i: int|
        0 <= i < w.len() - 1 ==> lex_less(#[trigger] w[i], w[i + 1])
}

/// Of lines that all ended in a line feed, it does not matter how many more did.
proof fn lemma_filled_lines_ended(p: Seq<Seq<char>>, n: int, m: int)
    requires
        p.len() <= n,
        p.len() <= m,
    ensures
        filled_lines(p, n) == filled_lines(p, m),
    decreases p.len(),
{
    if p.len() > 0 {
        lemma_filled_lines_ended(p.drop_last(), n, m);
    }
}

/// The filled lines among two lists are those of the first and those of the second.
proof fn lemma_filled_lines_join(p: Seq<Seq<char>>, q: Seq<Seq<char>>, n: int)
    requires
        n >= 0,
    ensures
        filled_lines(p + q, p.len() + n) == filled_lines(p, p.len() as int) + filled_lines(q, n),
    decreases q.len(),
{
    if q.len() == 0 {
        assert(p + q =~= p);
        lemma_filled_lines_ended(p, p.len() as int, p.len() + n);
        assert(filled_lines(q, n) =~= Seq::<Seq<char>>::empty());
    } else {
        lemma_filled_lines_join(p, q.drop_last(), n);
        assert((p + q).drop_last() =~= p + q.drop_last());
    }
}

/// Pieces of a text that goes on behind a line feed.
proof fn lemma_pieces_join(a: Seq<char>, b: Seq<char>)
    requires
        a.len() > 0 ==> a.last() == '\n',
    ensures
        pieces(a + b, '\n') == pieces(a, '\n').drop_last() + pieces(b, '\n'),
        pieces(a, '\n').len() > 0,
        pieces(a, '\n').last() == Seq::<char>::empty(),
    decreases a.len(),
{
    lemma_first_of(a, '\n');
    if a.len() == 0 {
        assert(a + b =~= b);
        assert(pieces(a, '\n').drop_last() =~= Seq::<Seq<char>>::empty());
        assert(a =~= Seq::<char>::empty());
    } else {
        let i = first_of(a, '\n');
        if i == a.len() {
            assert(a[a.len() - 1] == '\n');
        }
        assert forall|j: int| 0 <= j < i implies (a + b)[j] != '\n' by {
            assert((a + b)[j] == a[j]);
        }
        lemma_first_of_is(a + b, '\n', i);
        let rest = a.skip(i + 1);
        lemma_pieces_join(rest, b);
        assert((a + b).take(i) =~= a.take(i));
        assert((a + b).skip(i + 1) =~= rest + b);
        let r = pieces(rest, '\n');
        assert((seq![a.take(i)] + r).drop_last() =~= seq![a.take(i)] + r.drop_last());
        assert(pieces(a + b, '\n') =~= seq![a.take(i)] + r.drop_last() + pieces(b, '\n'));
    }
}

/// The words of a text that goes on behind a line feed are those in front of it and those behind.
pub proof fn lemma_words_join(a: Seq<char>, b: Seq<char>)
    requires
        a.len() > 0 ==> a.last() == '\n',
    ensures
        words_of(a + b) == words_of(a) + words_of(b),
{
    lemma_pieces_join(a, b);
    let p = pieces(a, '\n');
    let d = p.drop_last();
    let q = pieces(b, '\n');
    assert(q.len() > 0);
    lemma_filled_lines_join(d, q, q.len() - 1);
    assert(filled_lines(p, p.len() - 1) == filled_lines(d, p.len() - 1));
}

/// A line of small letters holds one word.
pub proof fn lemma_words_of_line(word: Seq<char>)
    requires
        is_plain_word(word),
        word.len() > 0,
    ensures
        words_of(word.push('\n')) == seq![word],
{
    let s = word.push('\n');
    let none = Seq::<char>::empty();
    assert forall|j: int| 0 <= j < word.len() implies s[j] != '\n' by {
        assert(s[j] == word[j]);
    }
    lemma_first_of_is(s, '\n', word.len() as int);
    assert(s.take(word.len() as int) =~= word);
    assert(s.skip(word.len() as int + 1) =~= none);
    assert(pieces(none, '\n') =~= seq![none]);
    let p = pieces(s, '\n');
    assert(p =~= seq![word, none]);
    assert(p.drop_last() =~= seq![word]);
    assert(p.drop_last().drop_last() =~= Seq::<Seq<char>>::empty());
    reveal_with_fuel(filled_lines, 3);
    assert(without_cr(word) == word);
    assert(Seq::<Seq<char>>::empty().push(word) =~= seq![word]);
}

/// The words of a list, one on a line.
pub fn word_list(text: &str) -> (r: Vec<String>)
    ensures
        r@.map_values(|s: String| s@) == words_of(text@),
{
    let ghost f = |s: String| s@;
    let x = chars_of(text);
    let lines = split_on(&x, '\n');
    let ghost p = pieces(text@, '\n');
    let n: usize = lines.len() - 1;
    let mut out: Vec<String> = Vec::new();
    let mut i: usize = 0;
    assert(p.take(0) =~= Seq::<Seq<char>>::empty());
    assert(out@.map_values(f) =~= Seq::<Seq<char>>::empty());
    while i < lines.len()
        invariant
            i <= lines@.len(),
            f == (|s: String| s@),
            p == pieces(text@, '\n'),
            lines@.len() == p.len(),
            n == p.len() - 1,
            forall|j: int| 0 <= j < lines@.len() ==> (#[trigger] lines@[j])@ == p[j],
            out@.map_values(f) == filled_lines(p.take(i as int), n as int),
        decreases lines@.len() - i,
    {
        let line = &lines[i];
        proof {
            assert(p.take(i + 1).drop_last() == p.take(i as int));
            assert(p.take(i + 1).last() == line@);
        }
        let end: usize = if i < n && line.len() > 0 && line[line.len() - 1] == '\r' {
            line.len() - 1
        } else {
            line.len()
        };
        let word = part(line, 0, end);
        proof {
            if i < n {
                assert(word@ =~= without_cr(line@));
            } else {
                assert(word@ =~= line@);
            }
        }
        if word.len() > 0 {
            let s = string_of(&word);
            assert(out@.push(s).map_values(f) =~= out@.map_values(f).push(s@));
            out.push(s);
        }
        i = i + 1;
    }
    assert(p.take(p.len() as int) == p);
    out
}

/// Whether a word list can be used.
pub fn wordlist_is_valid(text: &str) -> (r: bool)
    ensures
        r == valid_wordlist(words_of(text@)),
{
    let words = word_list(text);
    let ghost w = words_of(text@);
    assert(words@.len() == w.len());
    if words.len() != 2048 {
        return false;
    }
    let mut i: usize = 0;
    while i < 2047
        invariant
            i <= 2047,
            words@.len() == 2048,
            w == words_of(text@),
            words@.map_values(|s: String| s@) == w,
            w.len() == 2048,
            forall|j: int| 0 <= j < i ==> lex_less(#[trigger] w[j], w[j + 1]),
        decreases 2047 - i,
    {
        assert(w[i as int] == words@.map_values(|s: String| s@)[i as int]);
        assert(w[i + 1] == words@.map_values(|s: String| s@)[i + 1]);
        let a = chars_of(words[i].as_str());
        let b = chars_of(words[i + 1].as_str());
        if !chars_less(&a, &b) {
            return false;
        }
        i = i + 1;
    }
    true
}

/// Texts in quotes with commas between them.
pub open spec fn quoted(w: Seq<Seq<char>>) -> Seq<char>
    decreases w.len(),
{
    if w.len() == 0 {
        Seq::empty()
    } else if w.len() == 1 {
        seq!['"'] + w[0] + seq!['"']
    } else {
        quoted(w.drop_last()) + seq![',', '"'] + w.last() + seq!['"']
    }
}

/// Lower-case ASCII letters only.
pub open spec fn is_plain_word(s: Seq<char>) -> bool {
    forall|i: int| 0 <= i < s.len() ==> 'a' <= #[trigger] s[i] <= 'z'
}

/// The JSON text that `serde_json` makes of a list of texts.
pub uninterp spec fn json_texts(w: Seq<Seq<char>>) -> Seq<char>;

/// Calls `serde_json::to_string` on a list of texts, which cannot fail. Words of lower-case
/// letters need no escapes and stand in quotes as they are; what is written in place of other
/// characters is left to the name.
#[verifier::external_body]
fn texts_to_json(w: &Vec<String>) -> (r: String)
    ensures
        r@ == json_texts(w@.map_values(|s: String| s@)),
        (forall|i: int| 0 <= i < w@.len() ==> is_plain_word((#[trigger] w@[i])@)) ==> r@ == seq!['[']
            + quoted(w@.map_values(|s: String| s@)) + seq![']'],
{
    serde_json::to_string(w).expect("a list of texts always serialises")
}

/// The page that makes entropy, with the words in it. The list has to be a valid one: a wrong
/// word would spoil every checksum.
pub fn render_entropy_html(a: &SiteAssets) -> (r: String)
    requires
        valid_wordlist(words_of(a.bip39_wordlist@)),
    ensures
        r@ == replaced(
            assembled(a.entropy_html@, a.entropy_js@, "/entropy"@, *a),
            "/*__WORDLIST__*/null"@,
            json_texts(words_of(a.bip39_wordlist@)),
        ),
        (forall|i: int|
            0 <= i < 2048 ==> is_plain_word(#[trigger] words_of(a.bip39_wordlist@)[i])) ==> r@
            == replaced(
            assembled(a.entropy_html@, a.entropy_js@, "/entropy"@, *a),
            "/*__WORDLIST__*/null"@,
            seq!['['] + quoted(words_of(a.bip39_wordlist@)) + seq![']'],
        ),
{
    proof {
        lemma_marks();
    }
    let words = word_list(a.bip39_wordlist.as_str());
    let json = texts_to_json(&words);
    proof {
        let w = words_of(a.bip39_wordlist@);
        if forall|i: int| 0 <= i < 2048 ==> is_plain_word(#[trigger] w[i]) {
            assert forall|i: int| 0 <= i < words@.len() implies is_plain_word(
                (#[trigger] words@[i])@,
            ) by {
                assert(words@.map_values(|s: String| s@)[i] == w[i]);
            }
        }
    }
    let p = assemble(a.entropy_html.as_str(), a.entropy_js.as_str(), "/entropy", a);
    replace_text(p.as_str(), "/*__WORDLIST__*/null", json.as_str())
}

// ---- the support page ---------------------------------------------------------------------

/// `s` with the characters escaped that mean something in HTML.
pub open spec fn escaped(s: Seq<char>) -> Seq<char> {
    let s = replaced(s, "&"@, "&amp;"@);
    let s = replaced(s, "<"@, "&lt;"@);
    let s = replaced(s, ">"@, "&gt;"@);
    replaced(s, "\""@, "&quot;"@)
}

/// Escapes a text for HTML.
pub fn html_escape(s: &str) -> (r: String)
    ensures
        r@ == escaped(s@),
{
    proof {
        lemma_marks();
    }
    let s = replace_text(s, "&", "&amp;");
    let s = replace_text(s.as_str(), "<", "&lt;");
    let s = replace_text(s.as_str(), ">", "&gt;");
    replace_text(s.as_str(), "\"", "&quot;")
}

/// Replacing one character by a text leaves none of it where the text has none, and brings in no
/// character that the text does not have.
proof fn lemma_replaced_char(s: Seq<char>, c: char, to: Seq<char>, d: char)
    requires
        forall|i: int| 0 <= i < to.len() ==> #[trigger] to[i] != d,
        d == c || (forall|i: int| 0 <= i < s.len() ==> #[trigger] s[i] != d),
    ensures
        forall|i: int|
            0 <= i < replaced(s, seq![c], to).len() ==> #[trigger] replaced(s, seq![c], to)[i] != d,
    decreases s.len(),
{
    if s.len() > 0 {
        let here = stands_at(s, seq![c], 0);
        assert(here == (s[0] == c)) by {
            assert(s.subrange(0, 1) =~= seq![s[0]]);
            if s[0] != c {
                assert(seq![s[0]][0] != seq![c][0]);
            }
        }
        let rest = s.skip(1);
        assert forall|i: int| 0 <= i < rest.len() && d != c implies #[trigger] rest[i] != d by {
            assert(s[i + 1] != d);
        }
        lemma_replaced_char(rest, c, to, d);
        let r = replaced(rest, seq![c], to);
        let all = replaced(s, seq![c], to);
        let head = if here {
            to
        } else {
            seq![s[0]]
        };
        assert(all =~= head + r);
        assert forall|i: int| 0 <= i < all.len() implies #[trigger] all[i] != d by {
            if i < head.len() {
                assert(all[i] == head[i]);
            } else {
                assert(all[i] == r[i - head.len()]);
            }
        }
    }
}

/// What a character is escaped as.
pub open spec fn escaped_char(c: char) -> Seq<char> {
    if c == '&' {
        "&amp;"@
    } else if c == '<' {
        "&lt;"@
    } else if c == '>' {
        "&gt;"@
    } else if c == '"' {
        "&quot;"@
    } else {
        seq![c]
    }
}

/// What `f` makes of the characters of `s`, one behind the other.
pub open spec fn spelled(s: Seq<char>, f: spec_fn(char) -> Seq<char>) -> Seq<char>
    decreases s.len(),
{
    if s.len() == 0 {
        Seq::empty()
    } else {
        f(s[0]) + spelled(s.skip(1), f)
    }
}

/// `to` for the character `c`, and any other character as it is.
spec fn swap_char(c: char, to: Seq<char>) -> spec_fn(char) -> Seq<char> {
    |x: char|
        if x == c {
            to
        } else {
            seq![x]
        }
}

proof fn lemma_spelled_join(a: Seq<char>, b: Seq<char>, f: spec_fn(char) -> Seq<char>)
    ensures
        spelled(a + b, f) == spelled(a, f) + spelled(b, f),
    decreases a.len(),
{
    if a.len() == 0 {
        assert(a + b =~= b);
        assert(spelled(a, f) + spelled(b, f) =~= spelled(b, f));
    } else {
        lemma_spelled_join(a.skip(1), b, f);
        assert((a + b).skip(1) =~= a.skip(1) + b);
        assert(spelled(a + b, f) =~= spelled(a, f) + spelled(b, f));
    }
}

/// To replace a character is to spell the text with it swapped.
proof fn lemma_replaced_spelled(s: Seq<char>, c: char, to: Seq<char>)
    ensures
        replaced(s, seq![c], to) == spelled(s, swap_char(c, to)),
    decreases s.len(),
{
    if s.len() > 0 {
        assert(stands_at(s, seq![c], 0) == (s[0] == c)) by {
            assert(s.subrange(0, 1) =~= seq![s[0]]);
            if s[0] != c {
                assert(seq![s[0]][0] != seq![c][0]);
            }
        }
        lemma_replaced_spelled(s.skip(1), c, to);
    } else {
        assert(s =~= Seq::<char>::empty());
    }
}

/// A text without the character is spelled as it is.
proof fn lemma_spelled_same(s: Seq<char>, c: char, to: Seq<char>)
    requires
        forall|i: int| 0 <= i < s.len() ==> #[trigger] s[i] != c,
    ensures
        spelled(s, swap_char(c, to)) == s,
    decreases s.len(),
{
    if s.len() > 0 {
        let rest = s.skip(1);
        assert forall|i: int| 0 <= i < rest.len() implies #[trigger] rest[i] != c by {
            assert(rest[i] == s[i + 1]);
        }
        lemma_spelled_same(rest, c, to);
        assert(seq![s[0]] + rest =~= s);
    } else {
        assert(s =~= Seq::<char>::empty());
    }
}

proof fn lemma_spelled_one(c: char, f: spec_fn(char) -> Seq<char>)
    ensures
        spelled(seq![c], f) == f(c),
{
    reveal_with_fuel(spelled, 2);
    assert(seq![c].skip(1) =~= Seq::<char>::empty());
    assert(f(c) + Seq::<char>::empty() =~= f(c));
}

/// What the four replacements make of one character.
proof fn lemma_escaped_char(c: char)
    ensures
        spelled(
            spelled(
                spelled(swap_char('&', "&amp;"@)(c), swap_char('<', "&lt;"@)),
                swap_char('>', "&gt;"@),
            ),
            swap_char('"', "&quot;"@),
        ) == escaped_char(c),
{
    reveal_strlit("&amp;");
    reveal_strlit("&lt;");
    reveal_strlit("&gt;");
    reveal_strlit("&quot;");
    let (lt, gt, quot) = ("&lt;"@, "&gt;"@, "&quot;"@);
    if c == '&' {
        lemma_spelled_same("&amp;"@, '<', lt);
        lemma_spelled_same("&amp;"@, '>', gt);
        lemma_spelled_same("&amp;"@, '"', quot);
    } else {
        lemma_spelled_one(c, swap_char('<', lt));
        if c == '<' {
            lemma_spelled_same(lt, '>', gt);
            lemma_spelled_same(lt, '"', quot);
        } else {
            lemma_spelled_one(c, swap_char('>', gt));
            if c == '>' {
                lemma_spelled_same(gt, '"', quot);
            } else {
                lemma_spelled_one(c, swap_char('"', quot));
            }
        }
    }
}

/// Escaped text is each character escaped once, in its place.
pub proof fn law_each_character_is_escaped_once(s: Seq<char>)
    ensures
        escaped(s) == spelled(s, |c: char| escaped_char(c)),
    decreases s.len(),
{
    reveal_strlit("&");
    reveal_strlit("<");
    reveal_strlit(">");
    reveal_strlit("\"");
    assert("&"@ =~= seq!['&']);
    assert("<"@ =~= seq!['<']);
    assert(">"@ =~= seq!['>']);
    assert("\""@ =~= seq!['"']);
    let (amp, lt, gt, quot) = ("&amp;"@, "&lt;"@, "&gt;"@, "&quot;"@);
    let f = |c: char| escaped_char(c);
    lemma_replaced_spelled(s, '&', amp);
    let a = spelled(s, swap_char('&', amp));
    lemma_replaced_spelled(a, '<', lt);
    let b = spelled(a, swap_char('<', lt));
    lemma_replaced_spelled(b, '>', gt);
    let c = spelled(b, swap_char('>', gt));
    lemma_replaced_spelled(c, '"', quot);
    if s.len() > 0 {
        let rest = s.skip(1);
        law_each_character_is_escaped_once(rest);
        lemma_replaced_spelled(rest, '&', amp);
        let a1 = spelled(rest, swap_char('&', amp));
        let b1 = spelled(a1, swap_char('<', lt));
        let c1 = spelled(b1, swap_char('>', gt));
        lemma_replaced_spelled(a1, '<', lt);
        lemma_replaced_spelled(b1, '>', gt);
        lemma_replaced_spelled(c1, '"', quot);
        let a0 = swap_char('&', amp)(s[0]);
        let b0 = spelled(a0, swap_char('<', lt));
        let c0 = spelled(b0, swap_char('>', gt));
        lemma_spelled_join(a0, a1, swap_char('<', lt));
        lemma_spelled_join(b0, b1, swap_char('>', gt));
        lemma_spelled_join(c0, c1, swap_char('"', quot));
        lemma_escaped_char(s[0]);
        assert(escaped(s) == f(s[0]) + spelled(rest, f));
    }
}

/// Escaped text holds no angle bracket and no quote.
pub proof fn law_escaped_has_no_markup(s: Seq<char>)
    ensures
        forall|i: int|
            0 <= i < escaped(s).len() ==> #[trigger] escaped(s)[i] != '<' && escaped(s)[i] != '>'
                && escaped(s)[i] != '"',
{
    reveal_strlit("&");
    reveal_strlit("<");
    reveal_strlit(">");
    reveal_strlit("\"");
    reveal_strlit("&amp;");
    reveal_strlit("&lt;");
    reveal_strlit("&gt;");
    reveal_strlit("&quot;");
    assert("&"@ =~= seq!['&']);
    assert("<"@ =~= seq!['<']);
    assert(">"@ =~= seq!['>']);
    assert("\""@ =~= seq!['"']);
    let a = replaced(s, "&"@, "&amp;"@);
    let b = replaced(a, "<"@, "&lt;"@);
    let c = replaced(b, ">"@, "&gt;"@);
    lemma_replaced_char(a, '<', "&lt;"@, '<');
    lemma_replaced_char(b, '>', "&gt;"@, '<');
    lemma_replaced_char(b, '>', "&gt;"@, '>');
    lemma_replaced_char(c, '"', "&quot;"@, '<');
    lemma_replaced_char(c, '"', "&quot;"@, '>');
    lemma_replaced_char(c, '"', "&quot;"@, '"');
}

/// The image with the code of an address, where there is one.
pub open spec fn qr_image(title: Seq<char>, qr_src: Option<Seq<char>>) -> Seq<char> {
    match qr_src {
        Some(src) => "<img class=\"qr\" src=\""@ + src + "\" alt=\""@ + title
            + " QR code\" width=\"220\" height=\"220\">"@,
        None => Seq::empty(),
    }
}

/// The card of one way to give: title, code, address, and buttons to copy it and to open it.
pub open spec fn card(
    title: Seq<char>,
    subtitle: Seq<char>,
    value: Seq<char>,
    qr_src: Option<Seq<char>>,
    uri_scheme: Seq<char>,
) -> Seq<char> {
    let v = escaped(value);
    "<div class=\"method\"><div class=\"mhead\"><h2>"@ + title + "</h2><span class=\"msub\">"@
        + subtitle + "</span></div>"@ + qr_image(title, qr_src) + "<div class=\"addr\" title=\""@ + v
        + "\">"@ + v + "</div><div class=\"mbtns\"><button class=\"btn copy\" data-val=\""@ + v
        + "\">Copy</button><a class=\"btn open\" href=\""@ + uri_scheme + v
        + "\">Open in wallet</a></div></div>"@
}

/// The card of one way to give.
pub fn support_card(
    title: &str,
    subtitle: &str,
    value: &str,
    qr_src: Option<&str>,
    uri_scheme: &str,
) -> (r: String)
    ensures
        r@ == card(
            title@,
            subtitle@,
            value@,
            match qr_src {
                Some(s) => Some(s@),
                None => None,
            },
            uri_scheme@,
        ),
{
    let v = html_escape(value);
    let ghost src: Option<Seq<char>> = match qr_src {
        Some(s) => Some(s@),
        None => None,
    };
    let mut qr: String = String::new();
    if let Some(src) = qr_src {
        qr.append("<img class=\"qr\" src=\"");
        qr.append(src);
        qr.append("\" alt=\"");
        qr.append(title);
        qr.append(" QR code\" width=\"220\" height=\"220\">");
    }
    assert(qr@ =~= qr_image(title@, src));
    let mut out: String = String::new();
    out.append("<div class=\"method\"><div class=\"mhead\"><h2>");
    out.append(title);
    out.append("</h2><span class=\"msub\">");
    out.append(subtitle);
    out.append("</span></div>");
    out.append(qr.as_str());
    out.append("<div class=\"addr\" title=\"");
    out.append(v.as_str());
    out.append("\">");
    out.append(v.as_str());
    out.append("</div><div class=\"mbtns\"><button class=\"btn copy\" data-val=\"");
    out.append(v.as_str());
    out.append("\">Copy</button><a class=\"btn open\" href=\"");
    out.append(uri_scheme);
    out.append(v.as_str());
    out.append("\">Open in wallet</a></div></div>");
    assert(out@ =~= card(title@, subtitle@, value@, src, uri_scheme@));
    out
}

/// The cards for the addresses that are configured, or a notice where there are none.
pub open spec fn support_cards(
    bitcoin: Seq<char>,
    lightning: Seq<char>,
    bitcoin_qr: bool,
    lightning_qr: bool,
) -> Seq<char> {
    let b = if bitcoin.len() == 0 {
        Seq::empty()
    } else {
        card(
            "Bitcoin"@,
            "on-chain"@,
            bitcoin,
            if bitcoin_qr {
                Some("/support/bitcoin.png"@)
            } else {
                None
            },
            "bitcoin:"@,
        )
    };
    let l = if lightning.len() == 0 {
        Seq::empty()
    } else {
        card(
            "Lightning"@,
            "instant · low fee"@,
            lightning,
            if lightning_qr {
                Some("/support/lightning.png"@)
            } else {
                None
            },
            "lightning:"@,
        )
    };
    if bitcoin.len() == 0 && lightning.len() == 0 {
        "<div class=\"notice\">Support isn't configured on this instance.</div>"@
    } else {
        b + l
    }
}

/// The support page.
pub open spec fn support_page(
    bitcoin: Seq<char>,
    lightning: Seq<char>,
    bitcoin_qr: bool,
    lightning_qr: bool,
    a: SiteAssets,
) -> Seq<char> {
    replaced(
        assembled(a.support_html@, a.support_js@, "/support"@, a),
        "<!--__CARDS__-->"@,
        support_cards(bitcoin, lightning, bitcoin_qr, lightning_qr),
    )
}

/// The support page.
pub fn render_support_html(
    bitcoin_address: &str,
    lightning_address: &str,
    has_bitcoin_qr: bool,
    has_lightning_qr: bool,
    a: &SiteAssets,
) -> (r: String)
    ensures
        r@ == support_page(
            bitcoin_address@,
            lightning_address@,
            has_bitcoin_qr,
            has_lightning_qr,
            *a,
        ),
{
    proof {
        lemma_marks();
    }
    let has_bitcoin = chars_of(bitcoin_address).len() > 0;
    let has_lightning = chars_of(lightning_address).len() > 0;
    let mut cards: String = String::new();
    assert(cards@ =~= Seq::<char>::empty());
    if has_bitcoin {
        let c = support_card(
            "Bitcoin",
            "on-chain",
            bitcoin_address,
            if has_bitcoin_qr {
                Some("/support/bitcoin.png")
            } else {
                None
            },
            "bitcoin:",
        );
        cards.append(c.as_str());
    }
    if has_lightning {
        let c = support_card(
            "Lightning",
            "instant · low fee",
            lightning_address,
            if has_lightning_qr {
                Some("/support/lightning.png")
            } else {
                None
            },
            "lightning:",
        );
        cards.append(c.as_str());
    }
    if !has_bitcoin && !has_lightning {
        cards.append(
            "<div class=\"notice\">Support isn't configured on this instance.</div>",
        );
    }
    assert(cards@ =~= support_cards(
        bitcoin_address@,
        lightning_address@,
        has_bitcoin_qr,
        has_lightning_qr,
    ));
    let p = assemble(a.support_html.as_str(), a.support_js.as_str(), "/support", a);
    replace_text(p.as_str(), "<!--__CARDS__-->", cards.as_str())
}

/// A text stands between two others.
proof fn lemma_stands_between(a: Seq<char>, p: Seq<char>, b: Seq<char>)
    ensures
        has_text(a + p + b, p),
{
    law_has_text(a + p + b, p);
}

proof fn lemma_in_items(pages: Seq<(Seq<char>, Seq<char>)>, current: Seq<char>, i: int) -> (r: (
    Seq<char>,
    Seq<char>,
))
    requires
        0 <= i < pages.len(),
    ensures
        nav_items(pages, current) == r.0 + nav_link(pages[i].0, pages[i].1, current) + r.1,
    decreases pages.len(),
{
    let d = pages.drop_last();
    if i == d.len() {
        let r = (nav_items(d, current), Seq::<char>::empty());
        assert(nav_items(pages, current) =~= r.0 + nav_link(pages[i].0, pages[i].1, current) + r.1);
        r
    } else {
        let q = lemma_in_items(d, current, i);
        let r = (q.0, q.1 + nav_link(pages.last().0, pages.last().1, current));
        assert(nav_items(pages, current) =~= r.0 + nav_link(pages[i].0, pages[i].1, current) + r.1);
        r
    }
}

/// The navigation of every page links to every page, and marks the link to itself.
pub proof fn law_navigation_links(current: Seq<char>, i: int)
    requires
        0 <= i < nav_pages().len(),
    ensures
        nav_pages()[i].0 == current ==> has_text(
            nav(current),
            "<a href=\""@ + nav_pages()[i].0 + "\" class=\"active\">"@ + nav_pages()[i].1 + "</a>"@,
        ),
        nav_pages()[i].0 != current ==> has_text(
            nav(current),
            "<a href=\""@ + nav_pages()[i].0 + "\">"@ + nav_pages()[i].1 + "</a>"@,
        ),
{
    let pages = nav_pages();
    let link = nav_link(pages[i].0, pages[i].1, current);
    let r = lemma_in_items(pages, current, i);
    let a = "<nav><span class=\"brand\">▚ BIP-110</span><div class=\"nav-links\">"@ + r.0;
    let b = r.1 + "</div></nav>"@;
    assert(nav(current) =~= a + link + b);
    lemma_stands_between(a, link, b);
    reveal_strlit("\"");
    reveal_strlit(">");
    reveal_strlit("\">");
    reveal_strlit(" class=\"active\"");
    reveal_strlit("\" class=\"active\">");
    if pages[i].0 == current {
        assert("\""@ + " class=\"active\""@ + ">"@ =~= "\" class=\"active\">"@);
        assert(link =~= "<a href=\""@ + pages[i].0 + "\" class=\"active\">"@ + pages[i].1
            + "</a>"@);
    } else {
        assert("\""@ + ">"@ =~= "\">"@);
        assert(link =~= "<a href=\""@ + pages[i].0 + "\">"@ + pages[i].1 + "</a>"@);
    }
}

proof fn lemma_no_mark(s: Seq<char>, from: Seq<char>, to: Seq<char>)
    requires
        from.len() > 0,
        !has_text(s, from),
    ensures
        replaced(s, from, to) == s,
{
    law_replaced(Seq::empty(), from, to, s);
}

proof fn lemma_one_mark(x: Seq<char>, from: Seq<char>, y: Seq<char>, to: Seq<char>)
    requires
        from.len() > 0,
        only_mark(x, from, y),
    ensures
        replaced(x + from + y, from, to) == x + to + y,
{
    law_replaced(x, from, to, y);
}

/// The mark stands between `x` and `y` and nowhere else.
pub open spec fn only_mark(x: Seq<char>, mark: Seq<char>, y: Seq<char>) -> bool {
    &&& forall|i: int| 0 <= i < x.len() ==> !stands_at(#[trigger] (x + mark + y), mark, i)
    &&& !has_text(y, mark)
}

/// Each part of a page comes to stand where the shell has its mark: the style sheet, the
/// navigation, the scripts, and the icon in front of the end of the head. A shell without marks
/// stays as it is.
pub proof fn law_parts_take_the_place_of_marks(
    x: Seq<char>,
    y: Seq<char>,
    js: Seq<char>,
    current: Seq<char>,
    a: SiteAssets,
)
    ensures
        !has_text(x, "/*__CSS__*/"@) && !has_text(x, "<!--__NAV__-->"@) && !has_text(
            x,
            "/*__JS__*/"@,
        ) && !has_text(x, "</head>"@) ==> assembled(x, js, current, a) == x,
        ({
            let r = x + a.site_css@ + y;
            only_mark(x, "/*__CSS__*/"@, y) && !has_text(r, "<!--__NAV__-->"@) && !has_text(
                r,
                "/*__JS__*/"@,
            ) && !has_text(r, "</head>"@) ==> assembled(x + "/*__CSS__*/"@ + y, js, current, a)
                == r
        }),
        ({
            let s = x + "<!--__NAV__-->"@ + y;
            let r = x + nav(current) + y;
            only_mark(x, "<!--__NAV__-->"@, y) && !has_text(s, "/*__CSS__*/"@) && !has_text(
                r,
                "/*__JS__*/"@,
            ) && !has_text(r, "</head>"@) ==> assembled(s, js, current, a) == r
        }),
        ({
            let s = x + "/*__JS__*/"@ + y;
            let r = x + (a.ticker_js@ + seq!['\n'] + js) + y;
            only_mark(x, "/*__JS__*/"@, y) && !has_text(s, "/*__CSS__*/"@) && !has_text(
                s,
                "<!--__NAV__-->"@,
            ) && !has_text(r, "</head>"@) ==> assembled(s, js, current, a) == r
        }),
        ({
            let s = x + "</head>"@ + y;
            let r = x
                + "<link rel=\"icon\" type=\"image/svg+xml\" href=\"/favicon.svg\">\n</head>"@ + y;
            only_mark(x, "</head>"@, y) && !has_text(s, "/*__CSS__*/"@) && !has_text(
                s,
                "<!--__NAV__-->"@,
            ) && !has_text(s, "/*__JS__*/"@) ==> assembled(s, js, current, a) == r
        }),
{
    lemma_marks();
    reveal_strlit("\n");
    assert("\n"@ =~= seq!['\n']);
    let css = "/*__CSS__*/"@;
    let bar = "<!--__NAV__-->"@;
    let script = "/*__JS__*/"@;
    let head = "</head>"@;
    let code = a.ticker_js@ + "\n"@ + js;
    let icon = "<link rel=\"icon\" type=\"image/svg+xml\" href=\"/favicon.svg\">\n</head>"@;
    if !has_text(x, css) && !has_text(x, bar) && !has_text(x, script) && !has_text(x, head) {
        lemma_no_mark(x, css, a.site_css@);
        lemma_no_mark(x, bar, nav(current));
        lemma_no_mark(x, script, code);
        lemma_no_mark(x, head, icon);
    }
    let r = x + a.site_css@ + y;
    if only_mark(x, css, y) && !has_text(r, bar) && !has_text(r, script) && !has_text(r, head) {
        lemma_one_mark(x, css, y, a.site_css@);
        lemma_no_mark(r, bar, nav(current));
        lemma_no_mark(r, script, code);
        lemma_no_mark(r, head, icon);
    }
    let s = x + bar + y;
    let r = x + nav(current) + y;
    if only_mark(x, bar, y) && !has_text(s, css) && !has_text(r, script) && !has_text(r, head) {
        lemma_no_mark(s, css, a.site_css@);
        lemma_one_mark(x, bar, y, nav(current));
        lemma_no_mark(r, script, code);
        lemma_no_mark(r, head, icon);
    }
    let s = x + script + y;
    let r = x + code + y;
    if only_mark(x, script, y) && !has_text(s, css) && !has_text(s, bar) && !has_text(r, head) {
        lemma_no_mark(s, css, a.site_css@);
        lemma_no_mark(s, bar, nav(current));
        lemma_one_mark(x, script, y, code);
        lemma_no_mark(r, head, icon);
    }
    let s = x + head + y;
    if only_mark(x, head, y) && !has_text(s, css) && !has_text(s, bar) && !has_text(s, script) {
        lemma_no_mark(s, css, a.site_css@);
        lemma_no_mark(s, bar, nav(current));
        lemma_no_mark(s, script, code);
        lemma_one_mark(x, head, y, icon);
    }
}

proof fn lemma_card_title(
    title: Seq<char>,
    subtitle: Seq<char>,
    value: Seq<char>,
    qr_src: Option<Seq<char>>,
    uri_scheme: Seq<char>,
)
    ensures
        has_text(
            card(title, subtitle, value, qr_src, uri_scheme),
            "<h2>"@ + title + "</h2><span class=\"msub\">"@ + subtitle + "</span>"@,
        ),
{
    let v = escaped(value);
    let c = card(title, subtitle, value, qr_src, uri_scheme);
    let qr = qr_image(title, qr_src);
    let l1 = "<div class=\"method\"><div class=\"mhead\"><h2>"@;
    let l2 = "</h2><span class=\"msub\">"@;
    let l3 = "</span></div>"@;
    let l4 = "<div class=\"addr\" title=\""@;
    let l5 = "\">"@;
    let l6 = "</div><div class=\"mbtns\"><button class=\"btn copy\" data-val=\""@;
    let l7 = "\">Copy</button><a class=\"btn open\" href=\""@;
    let l8 = "\">Open in wallet</a></div></div>"@;
    assert("<div class=\"method\"><div class=\"mhead\"><h2>"@ =~= "<div class=\"method\"><div class=\"mhead\">"@ + "<h2>"@) by {
        reveal_strlit("<div class=\"method\"><div class=\"mhead\"><h2>");
        reveal_strlit("<div class=\"method\"><div class=\"mhead\">");
        reveal_strlit("<h2>");
    }
    assert("</span></div>"@ =~= "</span>"@ + "</div>"@) by {
        reveal_strlit("</span></div>");
        reveal_strlit("</span>");
        reveal_strlit("</div>");
    }
    let p = "<h2>"@ + title + l2 + subtitle + "</span>"@;
    let a = "<div class=\"method\"><div class=\"mhead\">"@;
    let rest = qr + l4 + v + l5 + v + l6 + v + l7 + uri_scheme + v + l8;
    assert(c =~= l1 + title + l2 + subtitle + l3 + rest);
    assert(l1 + title + l2 + subtitle + l3 + rest =~= a + p + ("</div>"@ + rest));
    lemma_stands_between(a, p, "</div>"@ + rest);
}

proof fn lemma_card_address(
    title: Seq<char>,
    subtitle: Seq<char>,
    value: Seq<char>,
    qr_src: Option<Seq<char>>,
    uri_scheme: Seq<char>,
)
    ensures
        has_text(
            card(title, subtitle, value, qr_src, uri_scheme),
            "\">"@ + escaped(value) + "</div>"@,
        ),
{
    let v = escaped(value);
    let c = card(title, subtitle, value, qr_src, uri_scheme);
    let qr = qr_image(title, qr_src);
    let l1 = "<div class=\"method\"><div class=\"mhead\"><h2>"@;
    let l2 = "</h2><span class=\"msub\">"@;
    let l3 = "</span></div>"@;
    let l4 = "<div class=\"addr\" title=\""@;
    let l5 = "\">"@;
    let l6 = "</div><div class=\"mbtns\"><button class=\"btn copy\" data-val=\""@;
    let l7 = "\">Copy</button><a class=\"btn open\" href=\""@;
    let l8 = "\">Open in wallet</a></div></div>"@;
    assert("</div><div class=\"mbtns\"><button class=\"btn copy\" data-val=\""@ =~= "</div>"@ + "<div class=\"mbtns\"><button class=\"btn copy\" data-val=\""@) by {
        reveal_strlit("</div><div class=\"mbtns\"><button class=\"btn copy\" data-val=\"");
        reveal_strlit("</div>");
        reveal_strlit("<div class=\"mbtns\"><button class=\"btn copy\" data-val=\"");
    }
    let front = l1 + title + l2 + subtitle + l3 + qr + l4 + v;
    let p = l5 + v + "</div>"@;
    let rest = v + l7 + uri_scheme + v + l8;
    let b = "<div class=\"mbtns\"><button class=\"btn copy\" data-val=\""@ + rest;
    assert(c =~= front + l5 + v + l6 + rest);
    assert(front + l5 + v + l6 + rest =~= front + p + b);
    lemma_stands_between(front, p, b);
}

proof fn lemma_card_copying(
    title: Seq<char>,
    subtitle: Seq<char>,
    value: Seq<char>,
    qr_src: Option<Seq<char>>,
    uri_scheme: Seq<char>,
)
    ensures
        has_text(
            card(title, subtitle, value, qr_src, uri_scheme),
            "data-val=\""@ + escaped(value) + "\">Copy</button>"@,
        ),
{
    let v = escaped(value);
    let c = card(title, subtitle, value, qr_src, uri_scheme);
    let qr = qr_image(title, qr_src);
    let l1 = "<div class=\"method\"><div class=\"mhead\"><h2>"@;
    let l2 = "</h2><span class=\"msub\">"@;
    let l3 = "</span></div>"@;
    let l4 = "<div class=\"addr\" title=\""@;
    let l5 = "\">"@;
    let l6 = "</div><div class=\"mbtns\"><button class=\"btn copy\" data-val=\""@;
    let l7 = "\">Copy</button><a class=\"btn open\" href=\""@;
    let l8 = "\">Open in wallet</a></div></div>"@;
    assert("</div><div class=\"mbtns\"><button class=\"btn copy\" data-val=\""@ =~= "</div><div class=\"mbtns\"><button class=\"btn copy\" "@ + "data-val=\""@) by {
        reveal_strlit("</div><div class=\"mbtns\"><button class=\"btn copy\" data-val=\"");
        reveal_strlit("</div><div class=\"mbtns\"><button class=\"btn copy\" ");
        reveal_strlit("data-val=\"");
    }
    assert("\">Copy</button><a class=\"btn open\" href=\""@ =~= "\">Copy</button>"@ + "<a class=\"btn open\" href=\""@) by {
        reveal_strlit("\">Copy</button><a class=\"btn open\" href=\"");
        reveal_strlit("\">Copy</button>");
        reveal_strlit("<a class=\"btn open\" href=\"");
    }
    let front = l1 + title + l2 + subtitle + l3 + qr + l4 + v + l5 + v;
    let p = "data-val=\""@ + v + "\">Copy</button>"@;
    let rest = uri_scheme + v + l8;
    let a = front + "</div><div class=\"mbtns\"><button class=\"btn copy\" "@;
    let b = "<a class=\"btn open\" href=\""@ + rest;
    assert(c =~= front + l6 + v + l7 + rest);
    assert(front + l6 + v + l7 + rest =~= a + p + b);
    lemma_stands_between(a, p, b);
}

proof fn lemma_card_opening(
    title: Seq<char>,
    subtitle: Seq<char>,
    value: Seq<char>,
    qr_src: Option<Seq<char>>,
    uri_scheme: Seq<char>,
)
    ensures
        has_text(
            card(title, subtitle, value, qr_src, uri_scheme),
            "href=\""@ + uri_scheme + escaped(value) + "\">Open in wallet</a>"@,
        ),
{
    let v = escaped(value);
    let c = card(title, subtitle, value, qr_src, uri_scheme);
    let qr = qr_image(title, qr_src);
    let l1 = "<div class=\"method\"><div class=\"mhead\"><h2>"@;
    let l2 = "</h2><span class=\"msub\">"@;
    let l3 = "</span></div>"@;
    let l4 = "<div class=\"addr\" title=\""@;
    let l5 = "\">"@;
    let l6 = "</div><div class=\"mbtns\"><button class=\"btn copy\" data-val=\""@;
    let l7 = "\">Copy</button><a class=\"btn open\" href=\""@;
    let l8 = "\">Open in wallet</a></div></div>"@;
    assert("\">Copy</button><a class=\"btn open\" href=\""@ =~= "\">Copy</button><a class=\"btn open\" "@ + "href=\""@) by {
        reveal_strlit("\">Copy</button><a class=\"btn open\" href=\"");
        reveal_strlit("\">Copy</button><a class=\"btn open\" ");
        reveal_strlit("href=\"");
    }
    assert("\">Open in wallet</a></div></div>"@ =~= "\">Open in wallet</a>"@ + "</div></div>"@) by {
        reveal_strlit("\">Open in wallet</a></div></div>");
        reveal_strlit("\">Open in wallet</a>");
        reveal_strlit("</div></div>");
    }
    let front = l1 + title + l2 + subtitle + l3 + qr + l4 + v + l5 + v + l6 + v;
    let p = "href=\""@ + uri_scheme + v + "\">Open in wallet</a>"@;
    let a = front + "\">Copy</button><a class=\"btn open\" "@;
    assert(c =~= front + l7 + uri_scheme + v + l8);
    assert(front + l7 + uri_scheme + v + l8 =~= a + p + "</div></div>"@);
    lemma_stands_between(a, p, "</div></div>"@);
}

proof fn lemma_card_image(
    title: Seq<char>,
    subtitle: Seq<char>,
    value: Seq<char>,
    qr_src: Option<Seq<char>>,
    uri_scheme: Seq<char>,
)
    ensures
        qr_src matches Some(src) ==> has_text(
            card(title, subtitle, value, qr_src, uri_scheme),
            "<img class=\"qr\" src=\""@ + src + "\" alt=\""@ + title + " QR code\""@,
        ),
{
    let v = escaped(value);
    let c = card(title, subtitle, value, qr_src, uri_scheme);
    let qr = qr_image(title, qr_src);
    let l1 = "<div class=\"method\"><div class=\"mhead\"><h2>"@;
    let l2 = "</h2><span class=\"msub\">"@;
    let l3 = "</span></div>"@;
    let l4 = "<div class=\"addr\" title=\""@;
    let l5 = "\">"@;
    let l6 = "</div><div class=\"mbtns\"><button class=\"btn copy\" data-val=\""@;
    let l7 = "\">Copy</button><a class=\"btn open\" href=\""@;
    let l8 = "\">Open in wallet</a></div></div>"@;
    if let Some(src) = qr_src {
        assert(" QR code\" width=\"220\" height=\"220\">"@ =~= " QR code\""@ + " width=\"220\" height=\"220\">"@) by {
            reveal_strlit(" QR code\" width=\"220\" height=\"220\">");
            reveal_strlit(" QR code\"");
            reveal_strlit(" width=\"220\" height=\"220\">");
        }
        let p = "<img class=\"qr\" src=\""@ + src + "\" alt=\""@ + title + " QR code\""@;
        let size = " width=\"220\" height=\"220\">"@;
        let a = l1 + title + l2 + subtitle + l3;
        let rest = l4 + v + l5 + v + l6 + v + l7 + uri_scheme + v + l8;
        assert(qr =~= p + size);
        assert(c =~= a + qr + rest);
        assert(a + (p + size) + rest =~= a + p + (size + rest));
        lemma_stands_between(a, p, size + rest);
    }
}

/// A card shows the address, copies it and opens it, always with its markup escaped, and has the
/// image with its code where there is one.
pub proof fn law_card_holds_the_address(
    title: Seq<char>,
    subtitle: Seq<char>,
    value: Seq<char>,
    qr_src: Option<Seq<char>>,
    uri_scheme: Seq<char>,
)
    ensures
        has_text(
            card(title, subtitle, value, qr_src, uri_scheme),
            "<h2>"@ + title + "</h2><span class=\"msub\">"@ + subtitle + "</span>"@,
        ),
        has_text(
            card(title, subtitle, value, qr_src, uri_scheme),
            "\">"@ + escaped(value) + "</div>"@,
        ),
        has_text(
            card(title, subtitle, value, qr_src, uri_scheme),
            "data-val=\""@ + escaped(value) + "\">Copy</button>"@,
        ),
        has_text(
            card(title, subtitle, value, qr_src, uri_scheme),
            "href=\""@ + uri_scheme + escaped(value) + "\">Open in wallet</a>"@,
        ),
        qr_src matches Some(src) ==> has_text(
            card(title, subtitle, value, qr_src, uri_scheme),
            "<img class=\"qr\" src=\""@ + src + "\" alt=\""@ + title + " QR code\""@,
        ),
{
    lemma_card_title(title, subtitle, value, qr_src, uri_scheme);
    lemma_card_address(title, subtitle, value, qr_src, uri_scheme);
    lemma_card_copying(title, subtitle, value, qr_src, uri_scheme);
    lemma_card_opening(title, subtitle, value, qr_src, uri_scheme);
    lemma_card_image(title, subtitle, value, qr_src, uri_scheme);
}

/// The cards are those of the addresses that are there, bitcoin first; each has its code where that
/// is there. Where there is neither address, a notice says so.
pub proof fn law_cards_of_the_addresses(
    bitcoin: Seq<char>,
    lightning: Seq<char>,
    bitcoin_qr: bool,
    lightning_qr: bool,
)
    requires
        bitcoin.len() > 0,
        lightning.len() > 0,
    ensures
        support_cards(bitcoin, lightning, bitcoin_qr, lightning_qr) == support_cards(
            bitcoin,
            seq![],
            bitcoin_qr,
            lightning_qr,
        ) + support_cards(seq![], lightning, bitcoin_qr, lightning_qr),
        has_text(
            support_cards(bitcoin, seq![], bitcoin_qr, lightning_qr),
            "href=\""@ + "bitcoin:"@ + escaped(bitcoin) + "\">Open in wallet</a>"@,
        ),
        has_text(
            support_cards(seq![], lightning, bitcoin_qr, lightning_qr),
            "href=\""@ + "lightning:"@ + escaped(lightning) + "\">Open in wallet</a>"@,
        ),
        bitcoin_qr ==> has_text(
            support_cards(bitcoin, seq![], bitcoin_qr, lightning_qr),
            "<img class=\"qr\" src=\""@ + "/support/bitcoin.png"@ + "\" alt=\""@ + "Bitcoin"@
                + " QR code\""@,
        ),
        lightning_qr ==> has_text(
            support_cards(seq![], lightning, bitcoin_qr, lightning_qr),
            "<img class=\"qr\" src=\""@ + "/support/lightning.png"@ + "\" alt=\""@ + "Lightning"@
                + " QR code\""@,
        ),
        support_cards(seq![], seq![], bitcoin_qr, lightning_qr)
            == "<div class=\"notice\">Support isn't configured on this instance.</div>"@,
{
    let none = Seq::<char>::empty();
    let bq = if bitcoin_qr {
        Some("/support/bitcoin.png"@)
    } else {
        None
    };
    let lq = if lightning_qr {
        Some("/support/lightning.png"@)
    } else {
        None
    };
    let b = card("Bitcoin"@, "on-chain"@, bitcoin, bq, "bitcoin:"@);
    let l = card("Lightning"@, "instant · low fee"@, lightning, lq, "lightning:"@);
    assert(support_cards(bitcoin, none, bitcoin_qr, lightning_qr) =~= b);
    assert(support_cards(none, lightning, bitcoin_qr, lightning_qr) =~= l);
    law_card_holds_the_address("Bitcoin"@, "on-chain"@, bitcoin, bq, "bitcoin:"@);
    law_card_holds_the_address(
        "Lightning"@,
        "instant · low fee"@,
        lightning,
        lq,
        "lightning:"@,
    );
}

/// A word more stands in quotes at the end of the list, behind a comma where words stand before it.
pub proof fn law_quoted(w: Seq<Seq<char>>, word: Seq<char>)
    ensures
        quoted(seq![]).len() == 0,
        w.len() == 0 ==> quoted(w.push(word)) == seq!['"'] + word + seq!['"'],
        w.len() > 0 ==> quoted(w.push(word)) == quoted(w) + seq![',', '"'] + word + seq!['"'],
{
    assert(w.push(word).drop_last() =~= w);
}

/// A list of words holds as many as eleven bits can number, every one before all that follow.
pub proof fn law_words_are_in_order(w: Seq<Seq<char>>, i: int, j: int)
    requires
        valid_wordlist(w),
        0 <= i < j < w.len(),
    ensures
        w.len() == 2048,
        lex_less(w[i], w[j]),
        w[i] != w[j],
    decreases j - i,
{
    assert(lex_less(w[j - 1], w[j]));
    if i < j - 1 {
        law_words_are_in_order(w, i, j - 1);
        lemma_lex_transitive(w[i], w[j - 1], w[j]);
    }
    lemma_lex_irreflexive(w[i]);
}

} // verus!
