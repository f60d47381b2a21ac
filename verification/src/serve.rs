//! What a request to the server asks for, and what it is answered.
use vstd::prelude::*;

use crate::bytes::sub_bytes;
use crate::number::{digit_of, parse_unsigned, unsigned_of};
use crate::p2p::{from_utf8_lossy, utf8_text};
use crate::report::{
    api_page, assembled, json_texts, nav_pages, render_api_html, render_blocks_html,
    render_chains_html, render_code_html, render_entropy_html, render_mempool_html,
    render_stats_html, render_support_html, render_why_html, support_page, valid_wordlist,
    words_of, SiteAssets,
};
use crate::rpc::hex_digit;
use crate::strmap::StrMap;
use crate::text::{
    chars_of, find_char, first_of, joined, part, pieces, replaced, same_text, split_on, string_of,
};
use vstd::utf8::{
    char_u32_cast, encode_scalar, encode_utf8, encode_utf8_decode_utf8, encode_utf8_valid_utf8,
};

verus! {

// ---- query strings ------------------------------------------------------------------------

/// The bytes that `b` stands for: a plus sign for a space, a percent sign with two hexadecimal
/// digits for a byte, anything else for itself.
pub open spec fn decoded(b: Seq<u8>) -> Seq<u8>
    decreases b.len(),
{
    if b.len() == 0 {
        Seq::empty()
    } else if b[0] == 0x2b {
        seq![0x20u8] + decoded(b.skip(1))
    } else if b[0] == 0x25 && b.len() > 2 && hex_digit(b[1]).is_some() && hex_digit(
        b[2],
    ).is_some() {
        seq![(16 * hex_digit(b[1]).unwrap() + hex_digit(b[2]).unwrap()) as u8] + decoded(b.skip(3))
    } else {
        seq![b[0]] + decoded(b.skip(1))
    }
}

/// The bytes that `b` stands for.
pub fn decode_bytes(b: &[u8]) -> (r: Vec<u8>)
    ensures
        r@ == decoded(b@),
{
    let mut out: Vec<u8> = Vec::new();
    let mut i: usize = 0;
    assert(b@.skip(0) == b@);
    assert(out@ + decoded(b@) =~= decoded(b@));
    while i < b.len()
        invariant
            i <= b@.len(),
            decoded(b@) == out@ + decoded(b@.skip(i as int)),
        decreases b@.len() - i,
    {
        let ghost rest = b@.skip(i as int);
        let c: u8 = b[i];
        assert(rest[0] == c);
        assert(rest.skip(1) == b@.skip(i + 1));
        if c == 0x25 && b.len() - i > 2 {
            assert(rest[1] == b@[i + 1] && rest[2] == b@[i + 2]);
            if let (Some(hi), Some(lo)) = (
                digit_of(b[i + 1] as char, 16),
                digit_of(b[i + 2] as char, 16),
            ) {
                let x: u8 = (16 * hi + lo) as u8;
                assert(rest.skip(3) == b@.skip(i + 3));
                assert(out@ + (seq![x] + decoded(b@.skip(i + 3))) =~= out@.push(x) + decoded(
                    b@.skip(i + 3),
                ));
                out.push(x);
                i = i + 3;
                continue ;
            }
        }
        let x: u8 = if c == 0x2b {
            0x20
        } else {
            c
        };
        assert(out@ + (seq![x] + decoded(b@.skip(i + 1))) =~= out@.push(x) + decoded(
            b@.skip(i + 1),
        ));
        out.push(x);
        i = i + 1;
    }
    assert(decoded(b@.skip(i as int)) =~= Seq::<u8>::empty());
    assert(out@ + Seq::<u8>::empty() =~= out@);
    out
}

/// The text that a part of a query string stands for.
pub open spec fn pct_text(s: Seq<char>) -> Seq<char> {
    utf8_text(decoded(encode_utf8(s)))
}

/// A character is encoded by itself where it is ASCII, and otherwise by bytes that no ASCII
/// character is encoded by.
proof fn lemma_scalar_bytes(v: u32, i: int)
    requires
        0 <= i < encode_scalar(v).len(),
    ensures
        encode_scalar(v)[i] == v || encode_scalar(v)[i] >= 0x80,
{
    assert(v <= 0x7f ==> v & 0x7f == v) by (bit_vector);
    assert forall|b: u8| #[trigger] (0x80u8 | b) >= 0x80 by {
        assert(0x80u8 | b >= 0x80) by (bit_vector);
    }
    assert forall|b: u8| #[trigger] (0xc0u8 | b) >= 0x80 by {
        assert(0xc0u8 | b >= 0x80) by (bit_vector);
    }
    assert forall|b: u8| #[trigger] (0xe0u8 | b) >= 0x80 by {
        assert(0xe0u8 | b >= 0x80) by (bit_vector);
    }
    assert forall|b: u8| #[trigger] (0xf0u8 | b) >= 0x80 by {
        assert(0xf0u8 | b >= 0x80) by (bit_vector);
    }
}

/// Bytes without a plus or percent sign stand for themselves.
proof fn lemma_decoded_plain(b: Seq<u8>)
    requires
        forall|i: int| 0 <= i < b.len() ==> #[trigger] b[i] != 0x2b && b[i] != 0x25,
    ensures
        decoded(b) == b,
    decreases b.len(),
{
    if b.len() > 0 {
        lemma_decoded_plain(b.skip(1));
        assert(seq![b[0]] + b.skip(1) =~= b);
    }
}

/// The encoding of a text without a plus or percent sign has no byte of one.
proof fn lemma_plain_bytes(s: Seq<char>)
    requires
        !s.contains('+'),
        !s.contains('%'),
    ensures
        forall|i: int|
            0 <= i < encode_utf8(s).len() ==> #[trigger] encode_utf8(s)[i] != 0x2b && encode_utf8(
                s,
            )[i] != 0x25,
    decreases s.len(),
{
    if s.len() > 0 {
        let rest = s.drop_first();
        assert forall|c: char| #[trigger] rest.contains(c) implies s.contains(c) by {
            let i = choose|i: int| 0 <= i < rest.len() && rest[i] == c;
            assert(s[i + 1] == c);
        }
        lemma_plain_bytes(rest);
        assert(s.contains(s[0]));
        let v = s[0] as u32;
        assert(s[0] != '+' && s[0] != '%');
        char_u32_cast(s[0], v);
        assert(0x2bu32 as char == '+' && 0x25u32 as char == '%');
        assert(v != 0x2b && v != 0x25);
        assert forall|i: int| 0 <= i < encode_utf8(s).len() implies #[trigger] encode_utf8(s)[i]
            != 0x2b && encode_utf8(s)[i] != 0x25 by {
            if i < encode_scalar(v).len() {
                assert(encode_utf8(s)[i] == encode_scalar(v)[i]);
                lemma_scalar_bytes(v, i);
            } else {
                assert(encode_utf8(s)[i] == encode_utf8(rest)[i - encode_scalar(v).len()]);
            }
        }
    }
}

/// A text without a plus or percent sign stands for itself.
pub proof fn law_plain_text_stands_for_itself(s: Seq<char>)
    requires
        !s.contains('+'),
        !s.contains('%'),
    ensures
        pct_text(s) == s,
{
    lemma_plain_bytes(s);
    lemma_decoded_plain(encode_utf8(s));
    encode_utf8_valid_utf8(s);
    encode_utf8_decode_utf8(s);
}

/// Decodes a part of a query string.
pub fn pct_decode(s: &str) -> (r: String)
    ensures
        r@ == pct_text(s@),
{
    let d = decode_bytes(s.as_bytes());
    from_utf8_lossy(&d)
}

/// The key and value of one part of a query string: what stands before and after the first `=`;
/// without one the part is a key with an empty value, unless it is empty.
pub open spec fn query_pair(p: Seq<char>) -> Option<(Seq<char>, Seq<char>)> {
    let i = first_of(p, '=');
    if i < p.len() {
        Some((pct_text(p.take(i)), pct_text(p.skip(i + 1))))
    } else if p.len() > 0 {
        Some((pct_text(p), Seq::empty()))
    } else {
        None
    }
}

/// The parameters in the parts of a query string; of several with one key the last counts.
pub open spec fn query_map(parts: Seq<Seq<char>>) -> Map<Seq<char>, Seq<char>>
    decreases parts.len(),
{
    if parts.len() == 0 {
        Map::empty()
    } else {
        let m = query_map(parts.drop_last());
        match query_pair(parts.last()) {
            Some((k, v)) => m.insert(k, v),
            None => m,
        }
    }
}

/// Parameters by their texts.
pub open spec fn texts(m: Map<Seq<char>, String>) -> Map<Seq<char>, Seq<char>> {
    m.map_values(|s: String| s@)
}

/// Parses a query string.
pub fn parse_query(q: &str) -> (r: StrMap<String>)
    ensures
        texts(r@) == query_map(pieces(q@, '&')),
{
    let x = chars_of(q);
    let parts = split_on(&x, '&');
    let ghost p = pieces(q@, '&');
    let mut m: StrMap<String> = StrMap::new();
    let mut i: usize = 0;
    assert(p.take(0) =~= Seq::<Seq<char>>::empty());
    assert(texts(m@) =~= Map::empty());
    while i < parts.len()
        invariant
            i <= parts@.len(),
            p == pieces(q@, '&'),
            parts@.len() == p.len(),
            forall|j: int| 0 <= j < parts@.len() ==> (#[trigger] parts@[j])@ == p[j],
            texts(m@) == query_map(p.take(i as int)),
        decreases parts@.len() - i,
    {
        let one = &parts[i];
        proof {
            assert(p.take(i + 1).drop_last() == p.take(i as int));
            assert(p.take(i + 1).last() == one@);
        }
        let at = find_char(one, '=');
        if at < one.len() {
            let a = part(one, 0, at);
            let b = part(one, at + 1, one.len());
            assert(a@ == one@.take(at as int));
            assert(b@ == one@.skip(at + 1));
            let key = string_of(&a);
            let value = string_of(&b);
            put(&mut m, pct_decode(key.as_str()), pct_decode(value.as_str()));
        } else if one.len() > 0 {
            let key = string_of(one);
            let e = String::new();
            assert(e@ =~= Seq::<char>::empty());
            put(&mut m, pct_decode(key.as_str()), e);
        }
        i = i + 1;
    }
    assert(p.take(p.len() as int) == p);
    m
}

fn put(m: &mut StrMap<String>, k: String, v: String)
    ensures
        texts(final(m)@) == texts(old(m)@).insert(k@, v@),
{
    let ghost was = m@;
    m.insert(k, v);
    assert(texts(m@) =~= texts(was).insert(k@, v@));
}

// ---- routes -------------------------------------------------------------------------------

/// What the table of nodes is asked for.
pub struct NodesQuery {
    pub q: String,
    pub implementation: String,
    pub bip: String,
    pub sort: String,
    pub dir_desc: bool,
    pub limit: usize,
    pub offset: usize,
}

/// What a request asks for.
pub enum Route {
    /// The image for previews.
    PreviewImage,
    Why,
    Code,
    Stats,
    Chains,
    Blocks,
    Mempool,
    Entropy,
    Support,
    /// The icon of the site.
    Favicon,
    /// The code of the Bitcoin address.
    BitcoinQr,
    /// The code of the Lightning address.
    LightningQr,
    Index,
    /// The report with at most so many nodes.
    ApiReport(usize),
    /// So many of the newest blocks.
    ApiBlocks(usize),
    ApiTicker,
    ApiChains,
    ApiStats,
    ApiNodes(NodesQuery),
    NotFound,
}

/// The kinds of requests.
#[derive(Clone, Copy, Debug, PartialEq, Eq, Structural)]
pub enum Endpoint {
    PreviewImage,
    Why,
    Code,
    Stats,
    Chains,
    Blocks,
    Mempool,
    Entropy,
    Support,
    Favicon,
    BitcoinQr,
    LightningQr,
    Index,
    ApiReport,
    ApiBlocks,
    ApiTicker,
    ApiChains,
    ApiStats,
    ApiNodes,
    NotFound,
}

/// What the request for a path is.
pub open spec fn endpoint(path: Seq<char>) -> Endpoint {
    if path == "/summary_large_image.png"@ {
        Endpoint::PreviewImage
    } else if path == "/why"@ || path == "/why.html"@ {
        Endpoint::Why
    } else if path == "/code"@ || path == "/code.html"@ {
        Endpoint::Code
    } else if path == "/stats"@ || path == "/stats.html"@ {
        Endpoint::Stats
    } else if path == "/chains"@ || path == "/chains.html"@ {
        Endpoint::Chains
    } else if path == "/blocks"@ || path == "/blocks.html"@ {
        Endpoint::Blocks
    } else if path == "/mempool"@ {
        Endpoint::Mempool
    } else if path == "/entropy"@ {
        Endpoint::Entropy
    } else if path == "/favicon.svg"@ || path == "/favicon.ico"@ {
        Endpoint::Favicon
    } else if path == "/support"@ || path == "/support.html"@ {
        Endpoint::Support
    } else if path == "/support/bitcoin.png"@ {
        Endpoint::BitcoinQr
    } else if path == "/support/lightning.png"@ {
        Endpoint::LightningQr
    } else if path == "/"@ || path == "/index.html"@ {
        Endpoint::Index
    } else if path == "/api/report"@ {
        Endpoint::ApiReport
    } else if path == "/api/blocks"@ {
        Endpoint::ApiBlocks
    } else if path == "/api/ticker"@ {
        Endpoint::ApiTicker
    } else if path == "/api/chains"@ {
        Endpoint::ApiChains
    } else if path == "/api/stats"@ {
        Endpoint::ApiStats
    } else if path == "/api/nodes"@ {
        Endpoint::ApiNodes
    } else {
        Endpoint::NotFound
    }
}

/// Every page that the navigation links to is served.
pub proof fn law_linked_pages_are_served(i: int)
    requires
        0 <= i < nav_pages().len(),
    ensures
        endpoint(nav_pages()[i].0) != Endpoint::NotFound,
{
}

/// What the request for a path is.
pub fn endpoint_of(path: &str) -> (r: Endpoint)
    ensures
        r == endpoint(path@),
{
    if same_text(path, "/summary_large_image.png") {
        Endpoint::PreviewImage
    } else if same_text(path, "/why") || same_text(path, "/why.html") {
        Endpoint::Why
    } else if same_text(path, "/code") || same_text(path, "/code.html") {
        Endpoint::Code
    } else if same_text(path, "/stats") || same_text(path, "/stats.html") {
        Endpoint::Stats
    } else if same_text(path, "/chains") || same_text(path, "/chains.html") {
        Endpoint::Chains
    } else if same_text(path, "/blocks") || same_text(path, "/blocks.html") {
        Endpoint::Blocks
    } else if same_text(path, "/mempool") {
        Endpoint::Mempool
    } else if same_text(path, "/entropy") {
        Endpoint::Entropy
    } else if same_text(path, "/favicon.svg") || same_text(path, "/favicon.ico") {
        Endpoint::Favicon
    } else if same_text(path, "/support") || same_text(path, "/support.html") {
        Endpoint::Support
    } else if same_text(path, "/support/bitcoin.png") {
        Endpoint::BitcoinQr
    } else if same_text(path, "/support/lightning.png") {
        Endpoint::LightningQr
    } else if same_text(path, "/") || same_text(path, "/index.html") {
        Endpoint::Index
    } else if same_text(path, "/api/report") {
        Endpoint::ApiReport
    } else if same_text(path, "/api/blocks") {
        Endpoint::ApiBlocks
    } else if same_text(path, "/api/ticker") {
        Endpoint::ApiTicker
    } else if same_text(path, "/api/chains") {
        Endpoint::ApiChains
    } else if same_text(path, "/api/stats") {
        Endpoint::ApiStats
    } else if same_text(path, "/api/nodes") {
        Endpoint::ApiNodes
    } else {
        Endpoint::NotFound
    }
}

/// The parameter `key` as a text, or `default`.
pub open spec fn text_param(m: Map<Seq<char>, Seq<char>>, key: Seq<char>, default: Seq<char>) -> Seq<
    char,
> {
    if m.contains_key(key) {
        m[key]
    } else {
        default
    }
}

/// The parameter `key` as a number, or `default` where it is missing or no number.
pub open spec fn number_param(m: Map<Seq<char>, Seq<char>>, key: Seq<char>, default: usize) -> usize {
    if m.contains_key(key) {
        match unsigned_of(m[key], 10, usize::MAX as u64) {
            Some(n) => n as usize,
            None => default,
        }
    } else {
        default
    }
}

/// The lesser of two sizes.
pub open spec fn at_most(n: usize, max: usize) -> usize {
    if n < max {
        n
    } else {
        max
    }
}

/// `r` is what a request for `path` with the parameters `m` asks for.
pub open spec fn routed(r: Route, path: Seq<char>, m: Map<Seq<char>, Seq<char>>) -> bool {
    match r {
        Route::PreviewImage => endpoint(path) == Endpoint::PreviewImage,
        Route::Why => endpoint(path) == Endpoint::Why,
        Route::Code => endpoint(path) == Endpoint::Code,
        Route::Stats => endpoint(path) == Endpoint::Stats,
        Route::Chains => endpoint(path) == Endpoint::Chains,
        Route::Blocks => endpoint(path) == Endpoint::Blocks,
        Route::Mempool => endpoint(path) == Endpoint::Mempool,
        Route::Entropy => endpoint(path) == Endpoint::Entropy,
        Route::Favicon => endpoint(path) == Endpoint::Favicon,
        Route::Support => endpoint(path) == Endpoint::Support,
        Route::BitcoinQr => endpoint(path) == Endpoint::BitcoinQr,
        Route::LightningQr => endpoint(path) == Endpoint::LightningQr,
        Route::Index => endpoint(path) == Endpoint::Index,
        Route::ApiReport(max) => endpoint(path) == Endpoint::ApiReport && max == number_param(
            m,
            "max"@,
            3000,
        ),
        Route::ApiBlocks(limit) => endpoint(path) == Endpoint::ApiBlocks && limit == at_most(
            number_param(m, "limit"@, 50),
            500,
        ),
        Route::ApiTicker => endpoint(path) == Endpoint::ApiTicker,
        Route::ApiChains => endpoint(path) == Endpoint::ApiChains,
        Route::ApiStats => endpoint(path) == Endpoint::ApiStats,
        Route::ApiNodes(n) => {
            &&& endpoint(path) == Endpoint::ApiNodes
            &&& n.q@ == text_param(m, "q"@, Seq::empty())
            &&& n.implementation@ == text_param(m, "impl"@, Seq::empty())
            &&& n.bip@ == text_param(m, "bip"@, Seq::empty())
            &&& n.sort@ == text_param(m, "sort"@, "depth"@)
            &&& n.dir_desc == (m.contains_key("dir"@) && m["dir"@] == "desc"@)
            &&& n.limit == at_most(number_param(m, "limit"@, 100), 1000)
            &&& n.offset == number_param(m, "offset"@, 0)
        },
        Route::NotFound => endpoint(path) == Endpoint::NotFound,
    }
}

fn get_text(m: &StrMap<String>, key: &str, default: &str) -> (r: String)
    ensures
        r@ == text_param(texts(m@), key@, default@),
{
    match m.get(key) {
        Some(s) => s.clone(),
        None => default.to_owned(),
    }
}

fn get_number(m: &StrMap<String>, key: &str, default: usize) -> (r: usize)
    ensures
        r == number_param(texts(m@), key@, default),
{
    match m.get(key) {
        Some(s) => {
            let x = chars_of(s.as_str());
            match parse_unsigned(&x, 10, usize::MAX as u64) {
                Some(n) => n as usize,
                None => default,
            }
        },
        None => default,
    }
}

fn limited(n: usize, max: usize) -> (r: usize)
    ensures
        r == at_most(n, max),
{
    if n < max {
        n
    } else {
        max
    }
}

/// What a request for `path` with these parameters asks for.
pub fn route_for(path: &str, query: &StrMap<String>) -> (r: Route)
    ensures
        routed(r, path@, texts(query@)),
{
    match endpoint_of(path) {
        Endpoint::PreviewImage => Route::PreviewImage,
        Endpoint::Why => Route::Why,
        Endpoint::Code => Route::Code,
        Endpoint::Stats => Route::Stats,
        Endpoint::Chains => Route::Chains,
        Endpoint::Blocks => Route::Blocks,
        Endpoint::Mempool => Route::Mempool,
        Endpoint::Entropy => Route::Entropy,
        Endpoint::Favicon => Route::Favicon,
        Endpoint::Support => Route::Support,
        Endpoint::BitcoinQr => Route::BitcoinQr,
        Endpoint::LightningQr => Route::LightningQr,
        Endpoint::Index => Route::Index,
        Endpoint::ApiReport => Route::ApiReport(get_number(query, "max", 3000)),
        Endpoint::ApiBlocks => Route::ApiBlocks(limited(get_number(query, "limit", 50), 500)),
        Endpoint::ApiTicker => Route::ApiTicker,
        Endpoint::ApiChains => Route::ApiChains,
        Endpoint::ApiStats => Route::ApiStats,
        Endpoint::ApiNodes => {
            proof {
                reveal_strlit("");
                assert(""@ =~= Seq::<char>::empty());
            }
            let dir_desc = match query.get("dir") {
                Some(s) => same_text(s.as_str(), "desc"),
                None => false,
            };
            Route::ApiNodes(
                NodesQuery {
                    q: get_text(query, "q", ""),
                    implementation: get_text(query, "impl", ""),
                    bip: get_text(query, "bip", ""),
                    sort: get_text(query, "sort", "depth"),
                    dir_desc,
                    limit: limited(get_number(query, "limit", 100), 1000),
                    offset: get_number(query, "offset", 0),
                },
            )
        },
        Endpoint::NotFound => Route::NotFound,
    }
}

/// The path of an URL: what stands before the first question mark.
pub open spec fn url_path(url: Seq<char>) -> Seq<char> {
    url.take(first_of(url, '?'))
}

/// The parameters of an URL.
pub open spec fn url_query(url: Seq<char>) -> Map<Seq<char>, Seq<char>> {
    let i = first_of(url, '?');
    if i < url.len() {
        query_map(pieces(url.skip(i + 1), '&'))
    } else {
        Map::empty()
    }
}

/// What a request for `url` asks for.
pub fn route(url: &str) -> (r: Route)
    ensures
        routed(r, url_path(url@), url_query(url@)),
{
    let x = chars_of(url);
    let i = find_char(&x, '?');
    let p = part(&x, 0, i);
    assert(p@ == url@.take(i as int));
    let path = string_of(&p);
    let query: StrMap<String> = if i < x.len() {
        let q = part(&x, i + 1, x.len());
        assert(q@ == url@.skip(i + 1));
        let text = string_of(&q);
        parse_query(text.as_str())
    } else {
        let none: StrMap<String> = StrMap::new();
        assert(texts(none@) =~= Map::empty());
        none
    };
    route_for(path.as_str(), &query)
}

// ---- replies ------------------------------------------------------------------------------

/// What a request is answered.
pub enum Reply {
    /// A page.
    Page(String),
    /// JSON.
    Data(String),
    /// A picture.
    Png(Vec<u8>),
    /// A drawing.
    Svg(String),
    /// There is no such thing.
    NotFound,
    /// It could not be found out, for this reason.
    Failed(String),
}

/// A reply by its contents.
pub enum ReplyView {
    Page(Seq<char>),
    Data(Seq<char>),
    Png(Seq<u8>),
    Svg(Seq<char>),
    NotFound,
    Failed(Seq<char>),
}

impl View for Reply {
    type V = ReplyView;

    open spec fn view(&self) -> ReplyView {
        match self {
            Reply::Page(s) => ReplyView::Page(s@),
            Reply::Data(s) => ReplyView::Data(s@),
            Reply::Png(b) => ReplyView::Png(b@),
            Reply::Svg(s) => ReplyView::Svg(s@),
            Reply::NotFound => ReplyView::NotFound,
            Reply::Failed(s) => ReplyView::Failed(s@),
        }
    }
}

/// What is sent.
pub enum Body {
    Text(String),
    Bytes(Vec<u8>),
}

impl Reply {
    /// The status of the response.
    pub fn status(&self) -> (r: u16)
        ensures
            r == (match self@ {
                ReplyView::NotFound => 404u16,
                ReplyView::Failed(_) => 500u16,
                _ => 200u16,
            }),
    {
        match self {
            Reply::NotFound => 404,
            Reply::Failed(_) => 500,
            _ => 200,
        }
    }

    /// The type of what is sent; none is named for a failure.
    pub fn content_type(&self) -> (r: Option<&'static str>)
        ensures
            match self@ {
                ReplyView::Page(_) => r matches Some(t) && t@ == "text/html; charset=utf-8"@,
                ReplyView::Data(_) => r matches Some(t) && t@ == "application/json"@,
                ReplyView::Png(_) => r matches Some(t) && t@ == "image/png"@,
                ReplyView::Svg(_) => r matches Some(t) && t@ == "image/svg+xml"@,
                _ => r.is_none(),
            },
    {
        match self {
            Reply::Page(_) => Some("text/html; charset=utf-8"),
            Reply::Data(_) => Some("application/json"),
            Reply::Png(_) => Some("image/png"),
            Reply::Svg(_) => Some("image/svg+xml"),
            _ => None,
        }
    }

    /// What is sent.
    pub fn into_body(self) -> (r: Body)
        ensures
            match self@ {
                ReplyView::Png(b) => r matches Body::Bytes(x) && x@ == b,
                ReplyView::NotFound => r matches Body::Text(x) && x@ == "not found"@,
                ReplyView::Failed(e) => r matches Body::Text(x) && x@ == "error: "@ + e,
                ReplyView::Page(t) => r matches Body::Text(x) && x@ == t,
                ReplyView::Data(t) => r matches Body::Text(x) && x@ == t,
                ReplyView::Svg(t) => r matches Body::Text(x) && x@ == t,
            },
    {
        match self {
            Reply::Png(b) => Body::Bytes(b),
            Reply::NotFound => Body::Text("not found".to_owned()),
            Reply::Failed(e) => Body::Text(joined("error: ", e.as_str())),
            Reply::Page(t) => Body::Text(t),
            Reply::Data(t) => Body::Text(t),
            Reply::Svg(t) => Body::Text(t),
        }
    }
}

/// What the server holds ready: the texts of the pages, two pages that are made once, the picture
/// for previews, and the codes of the support page as far as they are there.
pub struct Site {
    pub assets: SiteAssets,
    pub index: String,
    pub support: String,
    pub preview: Vec<u8>,
    pub bitcoin_qr: Option<Vec<u8>>,
    pub lightning_qr: Option<Vec<u8>>,
}

impl Site {
    /// The site with these texts, addresses for support and pictures.
    pub fn new(
        assets: SiteAssets,
        bitcoin_address: &str,
        lightning_address: &str,
        preview: Vec<u8>,
        bitcoin_qr: Option<Vec<u8>>,
        lightning_qr: Option<Vec<u8>>,
    ) -> (r: Site)
        ensures
            r.assets == assets,
            r.index@ == api_page(assets),
            r.support@ == support_page(
                bitcoin_address@,
                lightning_address@,
                bitcoin_qr.is_some(),
                lightning_qr.is_some(),
                assets,
            ),
            r.preview == preview,
            r.bitcoin_qr == bitcoin_qr,
            r.lightning_qr == lightning_qr,
    {
        let index = render_api_html(&assets);
        let support = render_support_html(
            bitcoin_address,
            lightning_address,
            bitcoin_qr.is_some(),
            lightning_qr.is_some(),
            &assets,
        );
        Site { assets, index, support, preview, bitcoin_qr, lightning_qr }
    }
}

/// A picture, where it is there.
pub open spec fn picture(b: Option<Vec<u8>>) -> ReplyView {
    match b {
        Some(x) => ReplyView::Png(x@),
        None => ReplyView::NotFound,
    }
}

/// What is answered at once; none where data has to be read first.
pub open spec fn ready(e: Endpoint, site: Site) -> Option<ReplyView> {
    let a = site.assets;
    match e {
        Endpoint::PreviewImage => Some(ReplyView::Png(site.preview@)),
        Endpoint::Why => Some(ReplyView::Page(assembled(a.why_html@, a.why_js@, "/why"@, a))),
        Endpoint::Code => Some(
            ReplyView::Page(assembled(a.code_html@, Seq::empty(), "/code"@, a)),
        ),
        Endpoint::Stats => Some(
            ReplyView::Page(assembled(a.stats_html@, a.stats_js@, "/stats"@, a)),
        ),
        Endpoint::Chains => Some(
            ReplyView::Page(assembled(a.chains_html@, a.chains_js@, "/chains"@, a)),
        ),
        Endpoint::Blocks => Some(
            ReplyView::Page(assembled(a.blocks_html@, a.blocks_js@, "/blocks"@, a)),
        ),
        Endpoint::Mempool => Some(
            ReplyView::Page(assembled(a.mempool_html@, a.mempool_js@, "/mempool"@, a)),
        ),
        Endpoint::Entropy => Some(
            ReplyView::Page(
                replaced(
                    assembled(a.entropy_html@, a.entropy_js@, "/entropy"@, a),
                    "/*__WORDLIST__*/null"@,
                    json_texts(words_of(a.bip39_wordlist@)),
                ),
            ),
        ),
        Endpoint::Favicon => Some(ReplyView::Svg(a.favicon_svg@)),
        Endpoint::Support => Some(ReplyView::Page(site.support@)),
        Endpoint::BitcoinQr => Some(picture(site.bitcoin_qr)),
        Endpoint::LightningQr => Some(picture(site.lightning_qr)),
        Endpoint::Index => Some(ReplyView::Page(site.index@)),
        Endpoint::NotFound => Some(ReplyView::NotFound),
        _ => None,
    }
}

/// The endpoint of a route.
pub open spec fn route_endpoint(r: Route) -> Endpoint {
    match r {
        Route::PreviewImage => Endpoint::PreviewImage,
        Route::Why => Endpoint::Why,
        Route::Code => Endpoint::Code,
        Route::Stats => Endpoint::Stats,
        Route::Chains => Endpoint::Chains,
        Route::Blocks => Endpoint::Blocks,
        Route::Mempool => Endpoint::Mempool,
        Route::Entropy => Endpoint::Entropy,
        Route::Favicon => Endpoint::Favicon,
        Route::Support => Endpoint::Support,
        Route::BitcoinQr => Endpoint::BitcoinQr,
        Route::LightningQr => Endpoint::LightningQr,
        Route::Index => Endpoint::Index,
        Route::ApiReport(_) => Endpoint::ApiReport,
        Route::ApiBlocks(_) => Endpoint::ApiBlocks,
        Route::ApiTicker => Endpoint::ApiTicker,
        Route::ApiChains => Endpoint::ApiChains,
        Route::ApiStats => Endpoint::ApiStats,
        Route::ApiNodes(_) => Endpoint::ApiNodes,
        Route::NotFound => Endpoint::NotFound,
    }
}

fn png_reply(b: &Vec<u8>) -> (r: Reply)
    ensures
        r@ == ReplyView::Png(b@),
{
    let copy = sub_bytes(b, 0, b.len());
    assert(copy@ =~= b@);
    Reply::Png(copy)
}

fn picture_reply(b: &Option<Vec<u8>>) -> (r: Reply)
    ensures
        r@ == picture(*b),
{
    match b {
        Some(x) => png_reply(x),
        None => Reply::NotFound,
    }
}

/// What a route is answered at once; none where data has to be read first.
pub fn ready_reply(r: &Route, site: &Site) -> (reply: Option<Reply>)
    requires
        route_endpoint(*r) == Endpoint::Entropy ==> valid_wordlist(
            words_of(site.assets.bip39_wordlist@),
        ),
    ensures
        match reply {
            Some(x) => ready(route_endpoint(*r), *site) == Some(x@),
            None => ready(route_endpoint(*r), *site).is_none(),
        },
{
    let a = &site.assets;
    match r {
        Route::PreviewImage => Some(png_reply(&site.preview)),
        Route::Why => Some(Reply::Page(render_why_html(a))),
        Route::Code => Some(Reply::Page(render_code_html(a))),
        Route::Stats => Some(Reply::Page(render_stats_html(a))),
        Route::Chains => Some(Reply::Page(render_chains_html(a))),
        Route::Blocks => Some(Reply::Page(render_blocks_html(a))),
        Route::Mempool => Some(Reply::Page(render_mempool_html(a))),
        Route::Entropy => Some(Reply::Page(render_entropy_html(a))),
        Route::Favicon => Some(Reply::Svg(a.favicon_svg.clone())),
        Route::Support => Some(Reply::Page(site.support.clone())),
        Route::BitcoinQr => Some(picture_reply(&site.bitcoin_qr)),
        Route::LightningQr => Some(picture_reply(&site.lightning_qr)),
        Route::Index => Some(Reply::Page(site.index.clone())),
        Route::NotFound => Some(Reply::NotFound),
        _ => None,
    }
}

/// What to do for a request.
pub enum Step {
    /// Answer it.
    Answer(Reply),
    /// Read the data that it asks for, and answer with that.
    Read(Route),
}

/// What to do for a request for `url`.
pub fn respond(url: &str, site: &Site) -> (r: Step)
    requires
        endpoint(url_path(url@)) == Endpoint::Entropy ==> valid_wordlist(
            words_of(site.assets.bip39_wordlist@),
        ),
    ensures
        match r {
            Step::Answer(reply) => ready(endpoint(url_path(url@)), *site) == Some(reply@),
            Step::Read(route) => ready(endpoint(url_path(url@)), *site).is_none() && routed(
                route,
                url_path(url@),
                url_query(url@),
            ),
        },
{
    let asked = route(url);
    match ready_reply(&asked, site) {
        Some(reply) => Step::Answer(reply),
        None => Step::Read(asked),
    }
}

/// The reply for data that was asked for: the data, or why it could not be read.
pub fn data_reply(data: Result<String, String>) -> (r: Reply)
    ensures
        r@ == (match data {
            Ok(s) => ReplyView::Data(s@),
            Err(e) => ReplyView::Failed(e@),
        }),
{
    match data {
        Ok(s) => Reply::Data(s),
        Err(e) => Reply::Failed(e),
    }
}

/// A request is refused where its path names nothing, or a code that is not there, and nowhere
/// else.
pub proof fn law_refused_requests(path: Seq<char>, site: Site)
    ensures
        ready(endpoint(path), site) == Some(ReplyView::NotFound) <==> (match endpoint(path) {
            Endpoint::NotFound => true,
            Endpoint::BitcoinQr => site.bitcoin_qr.is_none(),
            Endpoint::LightningQr => site.lightning_qr.is_none(),
            _ => false,
        }),
{
}

/// Which paths name what: each endpoint answers to its own paths and to no other, and what none of
/// them names is not found.
pub proof fn law_paths(path: Seq<char>)
    ensures
        match endpoint(path) {
            Endpoint::PreviewImage => path == "/summary_large_image.png"@,
            Endpoint::Why => path == "/why"@ || path == "/why.html"@,
            Endpoint::Code => path == "/code"@ || path == "/code.html"@,
            Endpoint::Stats => path == "/stats"@ || path == "/stats.html"@,
            Endpoint::Chains => path == "/chains"@ || path == "/chains.html"@,
            Endpoint::Blocks => path == "/blocks"@ || path == "/blocks.html"@,
            Endpoint::Mempool => path == "/mempool"@,
            Endpoint::Entropy => path == "/entropy"@,
            Endpoint::Favicon => path == "/favicon.svg"@ || path == "/favicon.ico"@,
            Endpoint::Support => path == "/support"@ || path == "/support.html"@,
            Endpoint::BitcoinQr => path == "/support/bitcoin.png"@,
            Endpoint::LightningQr => path == "/support/lightning.png"@,
            Endpoint::Index => path == "/"@ || path == "/index.html"@,
            Endpoint::ApiReport => path == "/api/report"@,
            Endpoint::ApiBlocks => path == "/api/blocks"@,
            Endpoint::ApiTicker => path == "/api/ticker"@,
            Endpoint::ApiChains => path == "/api/chains"@,
            Endpoint::ApiStats => path == "/api/stats"@,
            Endpoint::ApiNodes => path == "/api/nodes"@,
            Endpoint::NotFound => path != "/summary_large_image.png"@ && path != "/why"@ && path
                != "/why.html"@ && path != "/code"@ && path != "/code.html"@ && path != "/stats"@
                && path != "/stats.html"@ && path != "/chains"@ && path != "/chains.html"@ && path
                != "/blocks"@ && path != "/blocks.html"@ && path != "/mempool"@ && path
                != "/entropy"@ && path != "/favicon.svg"@ && path != "/favicon.ico"@ && path
                != "/support"@ && path != "/support.html"@ && path != "/support/bitcoin.png"@
                && path != "/support/lightning.png"@ && path != "/"@ && path != "/index.html"@
                && path != "/api/report"@ && path != "/api/blocks"@ && path != "/api/ticker"@
                && path != "/api/chains"@ && path != "/api/stats"@ && path != "/api/nodes"@,
        },
{
}

/// A number in a query is taken where it is one, else the default; lists are cut to what one reply
/// may hold.
pub proof fn law_query_numbers(
    r: Route,
    path: Seq<char>,
    m: Map<Seq<char>, Seq<char>>,
    n: u64,
    o: u64,
)
    requires
        routed(r, path, m),
        n <= usize::MAX,
        o <= usize::MAX,
    ensures
        r matches Route::ApiReport(max) ==> (!m.contains_key("max"@) ==> max == 3000) && (
        m.contains_key("max"@) && m["max"@] == crate::number::decimal(n as nat) ==> max == n),
        r matches Route::ApiBlocks(limit) ==> limit <= 500 && (!m.contains_key("limit"@) ==> limit
            == 50) && (m.contains_key("limit"@) && m["limit"@] == crate::number::decimal(n as nat)
            ==> limit == (if n < 500 {
            n as int
        } else {
            500int
        })),
        r matches Route::ApiNodes(q) ==> q.limit <= 1000 && (!m.contains_key("limit"@) ==> q.limit
            == 100) && (m.contains_key("limit"@) && m["limit"@] == crate::number::decimal(n as nat)
            ==> q.limit == (if n < 1000 {
            n as int
        } else {
            1000int
        })) && (!m.contains_key("offset"@) ==> q.offset == 0) && (m.contains_key("offset"@)
            && m["offset"@] == crate::number::decimal(o as nat) ==> q.offset == o),
{
    crate::number::law_decimal_read_back(n, usize::MAX as u64);
    crate::number::law_decimal_read_back(o, usize::MAX as u64);
}

/// The texts of a query for nodes are those under their names, empty where they are missing; it is
/// sorted by depth where no column is named, and descending only where that is asked for.
pub proof fn law_query_texts(q: NodesQuery, path: Seq<char>, m: Map<Seq<char>, Seq<char>>)
    requires
        routed(Route::ApiNodes(q), path, m),
    ensures
        m.contains_key("q"@) ==> q.q@ == m["q"@],
        !m.contains_key("q"@) ==> q.q@.len() == 0,
        m.contains_key("impl"@) ==> q.implementation@ == m["impl"@],
        !m.contains_key("impl"@) ==> q.implementation@.len() == 0,
        m.contains_key("bip"@) ==> q.bip@ == m["bip"@],
        !m.contains_key("bip"@) ==> q.bip@.len() == 0,
        m.contains_key("sort"@) ==> q.sort@ == m["sort"@],
        !m.contains_key("sort"@) ==> q.sort@ == "depth"@,
        q.dir_desc <==> m.contains_key("dir"@) && m["dir"@] == "desc"@,
{
}

/// The path of a URL is what stands before its question mark, and its query what stands behind; a
/// URL without one is all path.
pub proof fn law_url_parts(path: Seq<char>, query: Seq<char>)
    requires
        !path.contains('?'),
    ensures
        url_path(path) == path,
        url_query(path) == Map::<Seq<char>, Seq<char>>::empty(),
        url_path(path + (seq!['?'] + query)) == path,
        url_query(path + (seq!['?'] + query)) == query_map(pieces(query, '&')),
{
    let s = path + (seq!['?'] + query);
    let n = path.len() as int;
    assert forall|j: int| 0 <= j < n implies path[j] != '?' && s[j] != '?' by {
        assert(path.contains(path[j]));
        assert(s[j] == path[j]);
    }
    assert(s[n] == '?');
    crate::text::lemma_first_of_is(path, '?', n);
    crate::text::lemma_first_of_is(s, '?', n);
    assert(path.take(n) =~= path);
    assert(s.take(n) =~= path);
    assert(s.skip(n + 1) =~= query);
}

/// A part of a query is a name and a value with the first equals sign between them, both decoded;
/// without one it is a name with an empty value, and an empty part says nothing. A later part of
/// the same name takes the place of an earlier one.
pub proof fn law_query_parts(
    name: Seq<char>,
    value: Seq<char>,
    parts: Seq<Seq<char>>,
)
    requires
        !name.contains('='),
    ensures
        query_map(Seq::empty()) == Map::<Seq<char>, Seq<char>>::empty(),
        query_map(parts.push(name + (seq!['='] + value))) == query_map(parts).insert(
            pct_text(name),
            pct_text(value),
        ),
        name.len() > 0 ==> query_map(parts.push(name)) == query_map(parts).insert(
            pct_text(name),
            Seq::<char>::empty(),
        ),
        query_map(parts.push(Seq::empty())) == query_map(parts),
{
    let s = name + (seq!['='] + value);
    let n = name.len() as int;
    assert forall|j: int| 0 <= j < n implies name[j] != '=' && s[j] != '=' by {
        assert(name.contains(name[j]));
        assert(s[j] == name[j]);
    }
    assert(s[n] == '=');
    crate::text::lemma_first_of_is(name, '=', n);
    crate::text::lemma_first_of_is(s, '=', n);
    assert(s.take(n) =~= name);
    assert(s.skip(n + 1) =~= value);
    assert(parts.push(s).drop_last() =~= parts);
    assert(parts.push(name).drop_last() =~= parts);
    assert(parts.push(Seq::<char>::empty()).drop_last() =~= parts);
}

/// A plus sign is a space, and a percent sign with two hexadecimal digits, in either case, the byte
/// that they write; a percent sign without them stays.
pub proof fn law_percent_bytes(x: u8, rest: Seq<u8>, c: u8)
    requires
        c != 0x25,
        c != 0x2b,
    ensures
        decoded(Seq::empty()).len() == 0,
        decoded(seq![0x2bu8] + rest) == seq![0x20u8] + decoded(rest),
        decoded(seq![c] + rest) == seq![c] + decoded(rest),
        decoded(seq![0x25u8, hex_byte(x / 16, 87), hex_byte(x % 16, 87)] + rest) == seq![x]
            + decoded(rest),
        decoded(seq![0x25u8, hex_byte(x / 16, 55), hex_byte(x % 16, 55)] + rest) == seq![x]
            + decoded(rest),
        rest.len() < 2 ==> decoded(seq![0x25u8] + rest) == seq![0x25u8] + decoded(rest),
{
    assert((seq![0x2bu8] + rest).skip(1) =~= rest);
    assert((seq![c] + rest).skip(1) =~= rest);
    assert((seq![0x25u8] + rest).skip(1) =~= rest);
    let lower = seq![0x25u8, hex_byte(x / 16, 87), hex_byte(x % 16, 87)];
    let upper = seq![0x25u8, hex_byte(x / 16, 55), hex_byte(x % 16, 55)];
    assert((lower + rest).skip(3) =~= rest);
    assert((upper + rest).skip(3) =~= rest);
    assert((lower + rest)[1] == lower[1] && (lower + rest)[2] == lower[2]);
    assert((upper + rest)[1] == upper[1] && (upper + rest)[2] == upper[2]);
}

/// The byte of a hexadecimal digit, whose letters lie `letters` above its value.
pub open spec fn hex_byte(d: u8, letters: u8) -> u8 {
    if d < 10 {
        (48 + d) as u8
    } else {
        (letters + d) as u8
    }
}

/// Pages are answered with what the site holds for them, pictures with their bytes where they are
/// there; figures are read first.
pub proof fn law_what_is_ready(site: Site)
    ensures
        ready(Endpoint::Index, site) == Some(ReplyView::Page(site.index@)),
        ready(Endpoint::Support, site) == Some(ReplyView::Page(site.support@)),
        ready(Endpoint::Favicon, site) == Some(ReplyView::Svg(site.assets.favicon_svg@)),
        ready(Endpoint::PreviewImage, site) == Some(ReplyView::Png(site.preview@)),
        site.bitcoin_qr matches Some(b) ==> ready(Endpoint::BitcoinQr, site) == Some(
            ReplyView::Png(b@),
        ),
        site.lightning_qr matches Some(b) ==> ready(Endpoint::LightningQr, site) == Some(
            ReplyView::Png(b@),
        ),
        ready(Endpoint::ApiReport, site).is_none() && ready(Endpoint::ApiBlocks, site).is_none()
            && ready(Endpoint::ApiTicker, site).is_none() && ready(
            Endpoint::ApiChains,
            site,
        ).is_none() && ready(Endpoint::ApiStats, site).is_none() && ready(
            Endpoint::ApiNodes,
            site,
        ).is_none(),
{
}

/// Every page is made from its own shell and script, under its own path.
pub proof fn law_pages_are_made(site: Site)
    ensures
        ready(Endpoint::Why, site) == Some(
            ReplyView::Page(
                assembled(site.assets.why_html@, site.assets.why_js@, "/why"@, site.assets),
            ),
        ),
        ready(Endpoint::Code, site) == Some(
            ReplyView::Page(assembled(site.assets.code_html@, seq![], "/code"@, site.assets)),
        ),
        ready(Endpoint::Stats, site) == Some(
            ReplyView::Page(
                assembled(site.assets.stats_html@, site.assets.stats_js@, "/stats"@, site.assets),
            ),
        ),
        ready(Endpoint::Chains, site) == Some(
            ReplyView::Page(
                assembled(site.assets.chains_html@, site.assets.chains_js@, "/chains"@, site.assets),
            ),
        ),
        ready(Endpoint::Blocks, site) == Some(
            ReplyView::Page(
                assembled(site.assets.blocks_html@, site.assets.blocks_js@, "/blocks"@, site.assets),
            ),
        ),
        ready(Endpoint::Mempool, site) == Some(
            ReplyView::Page(
                assembled(
                    site.assets.mempool_html@,
                    site.assets.mempool_js@,
                    "/mempool"@,
                    site.assets,
                ),
            ),
        ),
        ready(Endpoint::NotFound, site) == Some(ReplyView::NotFound),
{
}

/// The route of a request stands for what its path names.
pub proof fn law_routes_stand_for_paths(r: Route, path: Seq<char>, m: Map<Seq<char>, Seq<char>>)
    requires
        routed(r, path, m),
    ensures
        route_endpoint(r) == endpoint(path),
{
}

} // verus!
