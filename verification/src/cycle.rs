//! What one cycle decides around the crawl: where it starts from, and how its result becomes a
//! report.
use vstd::prelude::*;

use crate::addr::{ip_of_text, IpAddr, Ipv4Addr, SocketAddr};
use crate::crawler::own_placeholder;
use crate::db::{
    addresses, edge_within, edges_among, lemma_addresses, lemma_selected_from, lemma_selected_len,
    lemma_selected_meets, lemma_selected_take, lemma_selected_twice, selected,
};
use crate::geo::GeoInfo;
use crate::node::{
    aggregated, assess, assess_bip110, bands_from, classify, classify_user_agent, count,
    live_latencies, lower_text, lowered_rules, median, Aggregates, Bip110Rule, Bip110Stance,
    ChainSplit, Edge, NodeInfo, NodeView, SignalStats,
};
use crate::number::{decimal, decimal_text, in_base};
use crate::order::{
    law_first_class_survives, law_sorting_keeps_values, sort_by_keys, stably_sorted, Duplicate,
};
use crate::p2p::{peer_of, peer_text, Peer, PeerView};
use crate::report::{OwnNode, ReportData};
use crate::rpc::{DirectPeer, NetworkInfo};
use crate::strmap::StrMap;
use crate::text::{
    chars_of, find_char, first_of, joined, part, same_text, string_of, trim, trimmed,
};

verus! {

// ---- the own node -------------------------------------------------------------------------

/// The name of the own node.
pub open spec fn own_name(subversion: Seq<char>) -> Seq<char> {
    "self ("@ + subversion + ")"@
}

/// The name of the own node.
pub fn own_label(subversion: &str) -> (r: String)
    ensures
        r@ == own_name(subversion@),
{
    let a = joined("self (", subversion);
    joined(a.as_str(), ")")
}

/// The own node from what it says of itself, with this implementation.
pub fn own_node_named(info: &NetworkInfo, implementation: String, network: &str) -> (r: OwnNode)
    ensures
        r.addr@ == own_name(info.subversion@),
        r.version == info.version,
        r.subversion == info.subversion,
        r.implementation == implementation,
        r.network@ == network@,
{
    OwnNode {
        addr: own_label(info.subversion.as_str()),
        version: info.version,
        subversion: info.subversion.clone(),
        implementation,
        network: network.to_owned(),
    }
}

/// The own node from what it says of itself.
pub fn own_node(info: &NetworkInfo, network: &str) -> (r: OwnNode)
    ensures
        r.addr@ == own_name(info.subversion@),
        r.version == info.version,
        r.subversion == info.subversion,
        r.implementation@ == classify(info.subversion@, lower_text(info.subversion@)).0,
        r.network@ == network@,
{
    let named = classify_user_agent(info.subversion.as_str());
    own_node_named(info, named.0, network)
}

/// The own node in the head of the report: `own`, or a stand-in where nothing is known of it.
pub fn report_own(own: Option<&OwnNode>, network: &str) -> (r: OwnNode)
    ensures
        match own {
            Some(o) => r == *o,
            None => r.addr@ == "self"@ && r.version == 0 && r.subversion@ == "(no RPC)"@
                && r.implementation@ == "Unknown"@ && r.network@ == network@,
        },
{
    match own {
        Some(o) => o.clone(),
        None => OwnNode {
            addr: "self".to_owned(),
            version: 0,
            subversion: "(no RPC)".to_owned(),
            implementation: "Unknown".to_owned(),
            network: network.to_owned(),
        },
    }
}

/// The record of the own node: reached, at depth 0.
pub open spec fn own_record(
    own: OwnNode,
    version: Seq<char>,
    stance: Bip110Stance,
) -> NodeView {
    NodeView {
        addr: own.addr@,
        depth: 0,
        protocol_version: 0,
        user_agent: own.subversion@,
        services: 0,
        start_height: 0,
        chain_hash: Seq::empty(),
        handshaked: true,
        implementation: own.implementation@,
        version,
        bip110: stance,
        first_seen: Seq::empty(),
        last_seen: Seq::empty(),
        times_seen: 0,
        online: true,
        latency_ms: None,
    }
}

/// The record of the own node, with this version and stance.
pub fn own_record_with(own: &OwnNode, version: String, stance: Bip110Stance) -> (r: NodeInfo)
    ensures
        r@ == own_record(*own, version@, stance),
{
    let r = NodeInfo {
        addr: own.addr.clone(),
        depth: 0,
        protocol_version: 0,
        user_agent: own.subversion.clone(),
        services: 0,
        start_height: 0,
        chain_hash: String::new(),
        handshaked: true,
        implementation: own.implementation.clone(),
        version,
        bip110: stance,
        first_seen: String::new(),
        last_seen: String::new(),
        times_seen: 0,
        online: true,
        latency_ms: None,
    };
    assert(r@ =~= own_record(*own, version@, stance));
    r
}

/// The record of the own node.
pub fn own_node_record(own: &OwnNode, rules: &[Bip110Rule]) -> (r: NodeInfo)
    ensures
        r@ == own_record(
            *own,
            classify(own.subversion@, lower_text(own.subversion@)).1,
            assess(lower_text(own.subversion@), lowered_rules(rules@)),
        ),
{
    let named = classify_user_agent(own.subversion.as_str());
    let stance = assess_bip110(own.implementation.as_str(), own.subversion.as_str(), rules);
    own_record_with(own, named.1, stance)
}

/// The public address of the own node, where it names one that can be read.
pub fn own_ip(local_addr: Option<&str>) -> (r: Option<IpAddr>)
    ensures
        r == (match local_addr {
            Some(a) => ip_of_text(a@),
            None => None,
        }),
{
    match local_addr {
        Some(a) => IpAddr::parse(a),
        None => None,
    }
}

// ---- seeds --------------------------------------------------------------------------------

/// Where a crawl starts: a peer, its depth and what is known of it.
#[derive(Debug)]
pub struct Seed {
    pub peer: Peer,
    pub depth: u32,
    pub known: Option<NodeInfo>,
}

/// A record by its view.
pub open spec fn known_view(n: Option<NodeInfo>) -> Option<NodeView> {
    match n {
        Some(x) => Some(x@),
        None => None,
    }
}

/// A seed by its views.
pub open spec fn seed_view(s: Seed) -> (PeerView, u32, Option<NodeView>) {
    (s.peer@, s.depth, known_view(s.known))
}

/// The own node stands among the seeds under an address that nobody can dial.
pub open spec fn placeholder() -> SocketAddr {
    SocketAddr::V4 { ip: Ipv4Addr { a: 127, b: 0, c: 0, d: 1 }, port: 0 }
}

/// What is known of a direct peer before it is probed.
pub open spec fn peer_record(
    p: DirectPeer,
    named: (Seq<char>, Seq<char>),
    stance: Bip110Stance,
) -> NodeView {
    NodeView {
        addr: peer_text(p.peer@),
        depth: 1,
        protocol_version: p.version,
        user_agent: p.subver@,
        services: 0,
        start_height: p.height,
        chain_hash: Seq::empty(),
        handshaked: false,
        implementation: named.0,
        version: named.1,
        bip110: stance,
        first_seen: Seq::empty(),
        last_seen: Seq::empty(),
        times_seen: 0,
        online: false,
        latency_ms: None,
    }
}

/// What is known of a direct peer before it is probed, with this name, version and stance.
pub fn peer_record_with(
    p: &DirectPeer,
    implementation: String,
    version: String,
    stance: Bip110Stance,
) -> (r: NodeInfo)
    ensures
        r@ == peer_record(*p, (implementation@, version@), stance),
{
    let r = NodeInfo {
        addr: p.peer.to_string(),
        depth: 1,
        protocol_version: p.version,
        user_agent: p.subver.clone(),
        services: 0,
        start_height: p.height,
        chain_hash: String::new(),
        handshaked: false,
        implementation,
        version,
        bip110: stance,
        first_seen: String::new(),
        last_seen: String::new(),
        times_seen: 0,
        online: false,
        latency_ms: None,
    };
    assert(r@ =~= peer_record(*p, (implementation@, version@), stance));
    r
}

/// What the seeds of the own node's peers are.
pub open spec fn peer_seed(p: DirectPeer, rules: Seq<Bip110Rule>) -> (
    PeerView,
    u32,
    Option<NodeView>,
) {
    (
        p.peer@,
        1u32,
        Some(
            peer_record(
                p,
                classify(p.subver@, lower_text(p.subver@)),
                assess(lower_text(p.subver@), lowered_rules(rules)),
            ),
        ),
    )
}

/// The seeds that the own node gives, itself first, and an edge from it to each of its peers.
pub fn rpc_seeds(own_addr: &str, peers: &Vec<DirectPeer>, rules: &[Bip110Rule]) -> (r: (
    Vec<Seed>,
    Vec<Edge>,
))
    ensures
        r.0@.len() == peers@.len() + 1,
        seed_view(r.0@[0]) == (PeerView::Clearnet(placeholder()), 0u32, None::<NodeView>),
        forall|i: int|
            0 <= i < peers@.len() ==> seed_view(#[trigger] r.0@[i + 1]) == peer_seed(
                peers@[i],
                rules@,
            ),
        r.1@.len() == peers@.len(),
        forall|i: int|
            0 <= i < peers@.len() ==> (#[trigger] r.1@[i]).from@ == own_addr@ && r.1@[i].to@
                == peer_text(peers@[i].peer@),
{
    let mut seeds: Vec<Seed> = Vec::new();
    seeds.push(
        Seed {
            peer: Peer::Clearnet(
                SocketAddr::V4 { ip: Ipv4Addr { a: 127, b: 0, c: 0, d: 1 }, port: 0 },
            ),
            depth: 0,
            known: None,
        },
    );
    let mut edges: Vec<Edge> = Vec::new();
    let mut i: usize = 0;
    while i < peers.len()
        invariant
            i <= peers@.len(),
            seeds@.len() == i + 1,
            seed_view(seeds@[0]) == (PeerView::Clearnet(placeholder()), 0u32, None::<NodeView>),
            forall|j: int|
                0 <= j < i ==> seed_view(#[trigger] seeds@[j + 1]) == peer_seed(
                    peers@[j],
                    rules@,
                ),
            edges@.len() == i,
            forall|j: int|
                0 <= j < i ==> (#[trigger] edges@[j]).from@ == own_addr@ && edges@[j].to@
                    == peer_text(peers@[j].peer@),
        decreases peers@.len() - i,
    {
        let p = &peers[i];
        let named = classify_user_agent(p.subver.as_str());
        let stance = assess_bip110(named.0.as_str(), p.subver.as_str(), rules);
        let record = peer_record_with(p, named.0, named.1, stance);
        edges.push(Edge { from: own_addr.to_owned(), to: p.peer.to_string() });
        let ghost was = seeds@;
        seeds.push(Seed { peer: p.peer.clone(), depth: 1, known: Some(record) });
        assert(seed_view(seeds@[i + 1]) == peer_seed(peers@[i as int], rules@));
        assert forall|j: int| 0 <= j < i + 1 implies seed_view(#[trigger] seeds@[j + 1])
            == peer_seed(peers@[j], rules@) by {
            if j < i {
                assert(seeds@[j + 1] == was[j + 1]);
            }
        }
        i = i + 1;
    }
    (seeds, edges)
}

/// A seed that can be dialled: not the stand-in of the own node.
pub open spec fn is_real(p: PeerView) -> bool {
    match p {
        PeerView::Clearnet(SocketAddr::V4 { port, .. }) => port != 0,
        PeerView::Clearnet(SocketAddr::V6 { port, .. }) => port != 0,
        PeerView::Onion(..) => true,
    }
}

/// Whether there is anything to crawl from.
pub fn has_real_seed(seeds: &Vec<Seed>) -> (r: bool)
    ensures
        r == exists|i: int| 0 <= i < seeds@.len() && is_real((#[trigger] seeds@[i]).peer@),
{
    let mut i: usize = 0;
    while i < seeds.len()
        invariant
            i <= seeds@.len(),
            forall|j: int| 0 <= j < i ==> !is_real((#[trigger] seeds@[j]).peer@),
        decreases seeds@.len() - i,
    {
        let dialable = match &seeds[i].peer {
            Peer::Clearnet(sa) => sa.port() != 0,
            Peer::Onion(_, _) => true,
        };
        if dialable {
            assert(is_real(seeds@[i as int].peer@));
            return true;
        }
        i = i + 1;
    }
    false
}

/// A seed from the command line: a peer, or a host that has to be looked up.
#[derive(Debug)]
pub enum SeedText {
    Peer(Peer),
    Resolve(String),
}

/// Host and port to look up: the port is added where there is no colon.
pub open spec fn host_and_port(s: Seq<char>, default_port: u16) -> Seq<char> {
    if first_of(s, ':') < s.len() {
        s
    } else {
        s + ":"@ + crate::number::decimal(default_port as nat)
    }
}

/// Reads a seed from the command line.
pub fn parse_seed(s: &str, default_port: u16) -> (r: SeedText)
    ensures
        match r {
            SeedText::Peer(p) => peer_of(s@, default_port) == Some(p@),
            SeedText::Resolve(t) => peer_of(s@, default_port).is_none() && t@ == host_and_port(
                s@,
                default_port,
            ),
        },
{
    if let Some(p) = Peer::parse(s, default_port) {
        return SeedText::Peer(p);
    }
    let x = chars_of(s);
    if find_char(&x, ':') < x.len() {
        return SeedText::Resolve(s.to_owned());
    }
    let a = joined(s, ":");
    let port = decimal_text(default_port as u64);
    SeedText::Resolve(joined(a.as_str(), port.as_str()))
}

/// User and password in a cookie file: what stands before and after the first colon.
pub open spec fn cookie(raw: Seq<char>) -> Option<(Seq<char>, Seq<char>)> {
    let t = trim(raw);
    let i = first_of(t, ':');
    if i < t.len() {
        Some((t.take(i), t.skip(i + 1)))
    } else {
        None
    }
}

/// User and password in a cookie file.
pub fn parse_cookie(raw: &str) -> (r: Option<(String, String)>)
    ensures
        match r {
            Some((user, pass)) => cookie(raw@) == Some((user@, pass@)),
            None => cookie(raw@).is_none(),
        },
{
    let x = chars_of(raw);
    let t = trimmed(&x);
    let i = find_char(&t, ':');
    if i >= t.len() {
        return None;
    }
    let a = part(&t, 0, i);
    let b = part(&t, i + 1, t.len());
    let user = string_of(&a);
    let pass = string_of(&b);
    assert(user@ =~= t@.take(i as int));
    assert(pass@ =~= t@.skip(i + 1));
    Some((user, pass))
}

// ---- settings -----------------------------------------------------------------------------

/// Depth and number of nodes that the crawl keeps to; 0 for no limit.
pub fn crawl_limits(exhaustive: bool, max_depth: u32, max_nodes: usize) -> (r: (u32, usize))
    ensures
        r == (if exhaustive {
            (0u32, 0usize)
        } else {
            (max_depth, max_nodes)
        }),
{
    if exhaustive {
        (0, 0)
    } else {
        (max_depth, max_nodes)
    }
}

/// How often the page fetches the data, in seconds.
pub fn page_refresh(asked: u32) -> (r: u32)
    ensures
        r == (if asked > 0 {
            asked
        } else {
            15u32
        }),
{
    if asked > 0 {
        asked
    } else {
        15
    }
}

/// How often the state is stored, in seconds: as often as the report, or every minute.
pub fn persist_secs(snapshot_interval: u64) -> (r: u64)
    ensures
        r == (if snapshot_interval > 0 {
            snapshot_interval
        } else {
            60u64
        }),
{
    if snapshot_interval > 0 {
        snapshot_interval
    } else {
        60
    }
}

// ---- the result as a report ---------------------------------------------------------------

impl Duplicate for NodeInfo {
    fn duplicate(&self) -> (r: Self) {
        self.clone()
    }
}

/// A node that was reached.
pub open spec fn is_online_node() -> spec_fn(NodeInfo) -> bool {
    |n: NodeInfo| n.online
}

/// A node other than the stand-in of the own node.
pub open spec fn is_no_placeholder() -> spec_fn(NodeInfo) -> bool {
    |n: NodeInfo| n.addr@ != "127.0.0.1:0"@
}

/// The nodes that were reached.
pub fn online_nodes(nodes: &Vec<NodeInfo>) -> (r: Vec<NodeInfo>)
    ensures
        r@ == selected(nodes@, is_online_node()),
{
    let ghost f = is_online_node();
    let mut out: Vec<NodeInfo> = Vec::new();
    let mut i: usize = 0;
    assert(nodes@.take(0) =~= Seq::<NodeInfo>::empty());
    while i < nodes.len()
        invariant
            i <= nodes@.len(),
            f == is_online_node(),
            out@ == selected(nodes@.take(i as int), f),
        decreases nodes@.len() - i,
    {
        proof {
            lemma_selected_take(nodes@, f, i as int);
        }
        if nodes[i].online {
            out.push(nodes[i].clone());
        }
        i = i + 1;
    }
    assert(nodes@.take(nodes@.len() as int) == nodes@);
    out
}

/// Keeps the nodes that were reached and the edges between them.
pub fn reachable_only(nodes: &mut Vec<NodeInfo>, edges: &mut Vec<Edge>)
    ensures
        final(nodes)@ == selected(old(nodes)@, is_online_node()),
        final(edges)@ == selected(old(edges)@, edge_within(addresses(final(nodes)@))),
{
    let kept = online_nodes(nodes);
    let among = edges_among(edges, &kept);
    *nodes = kept;
    *edges = among;
}

/// Nodes that were reached come first.
pub open spec fn online_first() -> spec_fn(NodeInfo, NodeInfo) -> bool {
    |a: NodeInfo, b: NodeInfo| a.online && !b.online
}

/// Whether `kept` are the first `max` of `nodes`, those that were reached first; all of them, in
/// their order, where there are no more or `max` is 0.
pub open spec fn capped(kept: Seq<NodeInfo>, nodes: Seq<NodeInfo>, max: usize) -> bool {
    if max == 0 || nodes.len() <= max {
        kept == nodes
    } else {
        exists|sorted: Seq<NodeInfo>| #[trigger]
            stably_sorted(sorted, nodes, online_first()) && kept == sorted.take(max as int)
    }
}

/// Keeps at most `max` nodes, those that were reached first, and the edges between them; all
/// where `max` is 0.
pub fn cap_report(nodes: &mut Vec<NodeInfo>, edges: &mut Vec<Edge>, max: usize)
    ensures
        capped(final(nodes)@, old(nodes)@, max),
        max == 0 || old(nodes)@.len() <= max ==> final(edges)@ == old(edges)@,
        0 < max < old(nodes)@.len() ==> final(edges)@ == selected(
            old(edges)@,
            edge_within(addresses(final(nodes)@)),
        ),
{
    if max == 0 || nodes.len() <= max {
        return ;
    }
    let ghost before = nodes@;
    let mut keys: Vec<i128> = Vec::new();
    let mut i: usize = 0;
    while i < nodes.len()
        invariant
            i <= nodes@.len(),
            keys@.len() == i,
            forall|j: int|
                0 <= j < i ==> #[trigger] keys@[j] == (if nodes@[j].online {
                    0int
                } else {
                    1int
                }),
        decreases nodes@.len() - i,
    {
        keys.push(
            if nodes[i].online {
                0
            } else {
                1
            },
        );
        i = i + 1;
    }
    let mut sorted = sort_by_keys(nodes, &keys, Ghost(online_first()));
    let ghost whole = sorted@;
    sorted.truncate(max);
    assert(sorted@ =~= whole.take(max as int));
    assert(stably_sorted(whole, before, online_first()));
    let among = edges_among(edges, &sorted);
    *nodes = sorted;
    *edges = among;
}

/// A cap that has room for the nodes that were reached keeps every one of them.
pub proof fn law_cap_keeps_online(kept: Seq<NodeInfo>, nodes: Seq<NodeInfo>, max: usize, k: int)
    requires
        capped(kept, nodes, max),
        nodes.len() <= usize::MAX,
        max == 0 || count(nodes, is_online_node()) <= max,
        0 <= k < nodes.len(),
        nodes[k].online,
    ensures
        kept.contains(nodes[k]),
{
    if max == 0 || nodes.len() <= max {
        assert(kept[k] == nodes[k]);
    } else {
        let sorted = choose|sorted: Seq<NodeInfo>| #[trigger]
            stably_sorted(sorted, nodes, online_first()) && kept == sorted.take(max as int);
        law_first_class_survives(
            sorted,
            nodes,
            online_first(),
            is_online_node(),
            max as int,
            k,
        );
    }
}

/// The nodes without the stand-in of the own node, and with its record at the end where there is
/// one.
pub open spec fn spliced(nodes: Seq<NodeInfo>, own: Option<NodeInfo>) -> Seq<NodeInfo> {
    let rest = selected(nodes, is_no_placeholder());
    match own {
        Some(o) => rest.push(o),
        None => rest,
    }
}

/// The edges, with those of the own node at the end where it is there.
pub open spec fn spliced_edges(
    edges: Seq<Edge>,
    own: Option<NodeInfo>,
    own_edges: Seq<Edge>,
) -> Seq<Edge> {
    if own.is_some() {
        edges + own_edges
    } else {
        edges
    }
}

/// Puts the own node in the place of its stand-in, with its edges.
pub fn splice_own(
    nodes: Vec<NodeInfo>,
    edges: Vec<Edge>,
    own: &Option<NodeInfo>,
    own_edges: &Vec<Edge>,
) -> (r: (Vec<NodeInfo>, Vec<Edge>))
    ensures
        r.0@ == spliced(nodes@, *own),
        r.1@ == spliced_edges(edges@, *own, own_edges@),
{
    let ghost f = is_no_placeholder();
    let mut kept: Vec<NodeInfo> = Vec::new();
    let mut i: usize = 0;
    assert(nodes@.take(0) =~= Seq::<NodeInfo>::empty());
    while i < nodes.len()
        invariant
            i <= nodes@.len(),
            f == is_no_placeholder(),
            kept@ == selected(nodes@.take(i as int), f),
        decreases nodes@.len() - i,
    {
        proof {
            lemma_selected_take(nodes@, f, i as int);
        }
        if !same_text(nodes[i].addr.as_str(), "127.0.0.1:0") {
            kept.push(nodes[i].clone());
        }
        i = i + 1;
    }
    assert(nodes@.take(nodes@.len() as int) == nodes@);
    let mut all: Vec<Edge> = edges;
    if let Some(o) = own {
        kept.push(o.clone());
        let mut j: usize = 0;
        assert(own_edges@.take(0) =~= Seq::<Edge>::empty());
        assert(all@ =~= edges@ + own_edges@.take(0));
        while j < own_edges.len()
            invariant
                j <= own_edges@.len(),
                all@ == edges@ + own_edges@.take(j as int),
            decreases own_edges@.len() - j,
        {
            all.push(own_edges[j].clone());
            assert(all@ =~= edges@ + own_edges@.take(j + 1));
            j = j + 1;
        }
        assert(own_edges@.take(own_edges@.len() as int) == own_edges@);
    }
    (kept, all)
}

/// What a report says besides nodes and edges.
pub struct ReportHead {
    pub own_node: OwnNode,
    pub signalling: Option<SignalStats>,
    pub chain_split: Option<ChainSplit>,
    pub network: String,
    pub generated_at: String,
    pub live: bool,
    pub refresh_seconds: u32,
}

/// The report of a crawl: the own node in the place of its stand-in, and the figures over all
/// nodes that are then listed.
pub fn assemble_report(
    nodes: Vec<NodeInfo>,
    edges: Vec<Edge>,
    own_info: &Option<NodeInfo>,
    own_edges: &Vec<Edge>,
    geo: Option<StrMap<GeoInfo>>,
    head: ReportHead,
    discovered_total: usize,
) -> (r: ReportData)
    ensures
        r.nodes@ == spliced(nodes@, *own_info),
        r.edges@ == spliced_edges(edges@, *own_info, own_edges@),
        aggregated(r.aggregates, r.nodes@),
        r.aggregates.latency_buckets@ == bands_from(live_latencies(r.nodes@), 0),
        r.aggregates.median_latency_ms == median(live_latencies(r.nodes@)),
        r.geo == geo,
        r.own_node == head.own_node,
        r.signalling == head.signalling,
        r.chain_split == head.chain_split,
        r.network == head.network,
        r.generated_at == head.generated_at,
        r.live == head.live,
        r.refresh_seconds == head.refresh_seconds,
        r.discovered_total == discovered_total,
{
    let (nodes, edges) = splice_own(nodes, edges, own_info, own_edges);
    let aggregates = Aggregates::from_nodes(&nodes);
    ReportData {
        generated_at: head.generated_at,
        network: head.network,
        own_node: head.own_node,
        signalling: head.signalling,
        chain_split: head.chain_split,
        aggregates,
        discovered_total,
        nodes,
        edges,
        geo,
        live: head.live,
        refresh_seconds: head.refresh_seconds,
    }
}

/// What a cap keeps was there before.
proof fn lemma_kept_were_there(kept: Seq<NodeInfo>, nodes: Seq<NodeInfo>, max: usize, i: int)
    requires
        capped(kept, nodes, max),
        nodes.len() <= usize::MAX,
        0 <= i < kept.len(),
    ensures
        nodes.contains(kept[i]),
{
    if max == 0 || nodes.len() <= max {
        assert(nodes[i] == kept[i]);
    } else {
        let sorted = choose|sorted: Seq<NodeInfo>| #[trigger]
            stably_sorted(sorted, nodes, online_first()) && kept == sorted.take(max as int);
        assert(sorted[i] == kept[i]);
        law_sorting_keeps_values(sorted, nodes, online_first());
    }
}

/// The edges between the nodes that a cap keeps are edges between the nodes that were there.
proof fn lemma_edges_of_kept(
    kept: Seq<NodeInfo>,
    nodes: Seq<NodeInfo>,
    max: usize,
    edges: Seq<Edge>,
)
    requires
        capped(kept, nodes, max),
        nodes.len() <= usize::MAX,
    ensures
        selected(
            selected(edges, edge_within(addresses(nodes))),
            edge_within(addresses(kept)),
        ) == selected(edges, edge_within(addresses(kept))),
{
    assert forall|a: Seq<char>| addresses(kept).contains(a) implies addresses(nodes).contains(
        a,
    ) by {
        lemma_addresses(kept, a);
        lemma_addresses(nodes, a);
        let i = choose|i: int| 0 <= i < kept.len() && (#[trigger] kept[i]).addr@ == a;
        lemma_kept_were_there(kept, nodes, max, i);
        let j = choose|j: int| 0 <= j < nodes.len() && nodes[j] == kept[i];
        assert(nodes[j].addr@ == a);
    }
    lemma_selected_twice(edges, edge_within(addresses(nodes)), edge_within(addresses(kept)));
}

/// The report of a crawl as the site shows it: the nodes that were reached and no others, at most
/// `max` of them, with the edges between them, and the own node where it is given. How many were
/// reached is told even where not all are shown.
pub fn site_report(
    nodes: Vec<NodeInfo>,
    edges: Vec<Edge>,
    max: usize,
    own_info: &Option<NodeInfo>,
    own_edges: &Vec<Edge>,
    geo: Option<StrMap<GeoInfo>>,
    head: ReportHead,
) -> (r: ReportData)
    ensures
        exists|kept: Seq<NodeInfo>|
            {
                &&& #[trigger] capped(kept, selected(nodes@, is_online_node()), max)
                &&& r.nodes@ == spliced(kept, *own_info)
                &&& r.edges@ == spliced_edges(
                    selected(edges@, edge_within(addresses(kept))),
                    *own_info,
                    own_edges@,
                )
            },
        r.discovered_total == selected(nodes@, is_online_node()).len(),
        aggregated(r.aggregates, r.nodes@),
        r.aggregates.latency_buckets@ == bands_from(live_latencies(r.nodes@), 0),
        r.aggregates.median_latency_ms == median(live_latencies(r.nodes@)),
        r.geo == geo,
        r.own_node == head.own_node,
        r.signalling == head.signalling,
        r.chain_split == head.chain_split,
        r.network == head.network,
        r.generated_at == head.generated_at,
        r.live == head.live,
        r.refresh_seconds == head.refresh_seconds,
{
    let ghost all = edges@;
    let mut nodes = nodes;
    let mut edges = edges;
    reachable_only(&mut nodes, &mut edges);
    let total = nodes.len();
    let ghost online = nodes@;
    cap_report(&mut nodes, &mut edges, max);
    let ghost kept = nodes@;
    proof {
        lemma_edges_of_kept(kept, online, max, all);
    }
    assert(capped(kept, online, max));
    assert(edges@ == selected(all, edge_within(addresses(kept))));
    assemble_report(nodes, edges, own_info, own_edges, geo, head, total)
}

/// The site shows no node that was not reached.
pub proof fn law_site_shows_reached_only(
    kept: Seq<NodeInfo>,
    nodes: Seq<NodeInfo>,
    max: usize,
    own: Option<NodeInfo>,
    i: int,
)
    requires
        capped(kept, selected(nodes, is_online_node()), max),
        nodes.len() <= usize::MAX,
        own matches Some(o) ==> o.online,
        0 <= i < spliced(kept, own).len(),
    ensures
        spliced(kept, own)[i].online,
{
    let online = selected(nodes, is_online_node());
    let rest = selected(kept, is_no_placeholder());
    lemma_selected_len(nodes, is_online_node());
    if i < rest.len() {
        lemma_selected_from(kept, is_no_placeholder(), i);
        let j = choose|j: int| 0 <= j < kept.len() && kept[j] == rest[i];
        lemma_kept_were_there(kept, online, max, j);
        let k = choose|k: int| 0 <= k < online.len() && online[k] == kept[j];
        lemma_selected_meets(nodes, is_online_node(), k);
    }
}

/// How often the page of a finished crawl fetches the data: not at all unless it is live.
pub fn final_refresh(live: bool, refresh: u32) -> (r: u32)
    ensures
        r == (if live {
            refresh
        } else {
            0u32
        }),
{
    if live {
        refresh
    } else {
        0
    }
}

/// A direct peer of the own node is a seed at depth 1 with what the own node says of it: its user
/// agent, version and height, judged by its agent. It counts as neither reached nor online until it
/// was probed.
pub proof fn law_direct_peer_is_a_seed(p: DirectPeer, rules: Seq<Bip110Rule>)
    ensures
        ({
            let s = peer_seed(p, rules);
            &&& s.0 == p.peer@ && s.1 == 1
            &&& s.2 matches Some(n) && {
                &&& n.addr == peer_text(p.peer@) && n.depth == 1
                &&& n.user_agent == p.subver@ && n.protocol_version == p.version
                &&& n.start_height == p.height && n.services == 0
                &&& !n.handshaked && !n.online
                &&& (n.implementation, n.version) == classify(p.subver@, lower_text(p.subver@))
                &&& n.bip110 == assess(lower_text(p.subver@), lowered_rules(rules))
                &&& n.first_seen.len() == 0 && n.last_seen.len() == 0 && n.times_seen == 0
                &&& n.latency_ms.is_none() && n.chain_hash.len() == 0
            }
        }),
{
}

/// The own node is at depth 0, reached and online, with its own user agent.
pub proof fn law_own_node_is_recorded(own: OwnNode, version: Seq<char>, stance: Bip110Stance)
    ensures
        ({
            let n = own_record(own, version, stance);
            &&& n.addr == own.addr@ && n.depth == 0
            &&& n.user_agent == own.subversion@ && n.implementation == own.implementation@
            &&& n.version == version && n.bip110 == stance
            &&& n.handshaked && n.online
            &&& n.latency_ms.is_none() && n.chain_hash.len() == 0
        }),
        own_name(own.subversion@) == "self ("@ + own.subversion@ + ")"@,
{
}

/// A seed is real where it is an onion peer or has a port.
pub proof fn law_real_seeds(p: PeerView)
    ensures
        p is Onion ==> is_real(p),
        p matches PeerView::Clearnet(sa) ==> is_real(p) == (sa.port_number() != 0),
        !is_real(PeerView::Clearnet(placeholder())),
{
}

/// A seed that is no address is resolved with its own port where it has one, else with the default
/// port behind it.
pub proof fn law_seed_to_resolve(host: Seq<char>, rest: Seq<char>, port: u16)
    requires
        !host.contains(':'),
    ensures
        host_and_port(host, port) == host + seq![':'] + crate::number::decimal(port as nat),
        host_and_port(host + (seq![':'] + rest), port) == host + (seq![':'] + rest),
{
    let s = host + (seq![':'] + rest);
    let n = host.len() as int;
    assert forall|j: int| 0 <= j < n implies host[j] != ':' && s[j] != ':' by {
        assert(host.contains(host[j]));
        assert(s[j] == host[j]);
    }
    assert(s[n] == ':');
    crate::text::lemma_first_of_is(host, ':', n);
    crate::text::lemma_first_of_is(s, ':', n);
    reveal_strlit(":");
    assert(":"@ =~= seq![':']);
}

/// A cookie is a user and a password with the first colon between them, spaces around it left out;
/// a text without a colon is none.
pub proof fn law_cookie(
    before: Seq<char>,
    user: Seq<char>,
    pass: Seq<char>,
    behind: Seq<char>,
    other: Seq<char>,
)
    requires
        forall|i: int| 0 <= i < before.len() ==> #[trigger] before[i] == ' ',
        forall|i: int| 0 <= i < behind.len() ==> #[trigger] behind[i] == ' ',
        !user.contains(':'),
        user.len() > 0 ==> !crate::text::is_space(user[0]),
        pass.len() > 0 ==> !crate::text::is_space(pass.last()),
        !other.contains(':'),
        other.len() > 0 ==> !crate::text::is_space(other[0]) && !crate::text::is_space(other.last()),
    ensures
        cookie(before + (user + seq![':'] + pass) + behind) == Some((user, pass)),
        cookie(other).is_none(),
{
    let t = user + seq![':'] + pass;
    let n = user.len() as int;
    assert(t[n] == ':');
    assert(t[0] == (if n > 0 {
        user[0]
    } else {
        ':'
    }));
    assert(t.last() == (if pass.len() > 0 {
        pass.last()
    } else {
        ':'
    }));
    crate::text::law_trim(before, t, behind);
    assert forall|j: int| 0 <= j < n implies t[j] != ':' by {
        assert(t[j] == user[j]);
        assert(user.contains(user[j]));
    }
    crate::text::lemma_first_of_is(t, ':', n);
    assert(t.take(n) =~= user);
    assert(t.skip(n + 1) =~= pass);
    let none = Seq::<char>::empty();
    crate::text::law_trim(none, other, none);
    assert(none + other + none =~= other);
    assert forall|j: int| 0 <= j < other.len() implies other[j] != ':' by {
        assert(other.contains(other[j]));
    }
    crate::text::lemma_first_of_is(other, ':', other.len() as int);
}

/// A report holds as many nodes as it may, all where it may hold any number; an offline node is in
/// it only where every online one is before it.
pub proof fn law_capped_report(kept: Seq<NodeInfo>, nodes: Seq<NodeInfo>, max: usize)
    requires
        capped(kept, nodes, max),
        nodes.len() <= usize::MAX,
    ensures
        max == 0 ==> kept == nodes,
        max > 0 && nodes.len() <= max ==> kept == nodes,
        max > 0 && nodes.len() > max ==> kept.len() == max,
        max > 0 && nodes.len() > max ==> forall|i: int, j: int|
            0 <= i < j < kept.len() && (#[trigger] kept[j]).online ==> (#[trigger] kept[i]).online,
        forall|i: int| 0 <= i < kept.len() ==> nodes.contains(#[trigger] kept[i]),
{
    if max > 0 && nodes.len() > max {
        let less = online_first();
        let sorted = choose|sorted: Seq<NodeInfo>| #[trigger]
            stably_sorted(sorted, nodes, less) && kept == sorted.take(max as int);
        assert forall|x: NodeInfo, y: NodeInfo| #[trigger] less(x, y) implies !less(y, x) by {}
        law_sorting_keeps_values(sorted, nodes, less);
        let p = choose|p: Seq<usize>| crate::order::arranges(p, sorted, nodes, less);
        assert forall|i: int, j: int|
            0 <= i < j < kept.len() && (#[trigger] kept[j]).online implies (
        #[trigger] kept[i]).online by {
            assert(kept[i] == sorted[i] && kept[j] == sorted[j]);
            assert(less(sorted[i], sorted[j]) || !less(sorted[j], sorted[i]));
        }
        assert forall|i: int| 0 <= i < kept.len() implies nodes.contains(#[trigger] kept[i]) by {
            assert(sorted[i] == kept[i]);
            assert(sorted.contains(kept[i]));
        }
    }
}

/// The own node stands behind the others in a report, where it is known; the address that stands
/// for it is in none. Its edges are added where it is.
pub proof fn law_own_node_is_spliced(
    nodes: Seq<NodeInfo>,
    own: Option<NodeInfo>,
    edges: Seq<Edge>,
    own_edges: Seq<Edge>,
    n: NodeInfo,
)
    ensures
        own.is_some() ==> spliced(nodes, own).len() > 0 && spliced(nodes, own).last()
            == own.unwrap() && spliced_edges(edges, own, own_edges) == edges + own_edges,
        own.is_none() ==> spliced_edges(edges, own, own_edges) == edges,
        own.is_none() ==> (spliced(nodes, own).contains(n) <==> nodes.contains(n) && n.addr@
            != "127.0.0.1:0"@),
        own.is_some() && nodes.contains(n) && n.addr@ != "127.0.0.1:0"@ ==> spliced(
            nodes,
            own,
        ).contains(n),
{
    let rest = selected(nodes, is_no_placeholder());
    crate::db::law_selected(nodes, Seq::empty(), n, is_no_placeholder());
    if own.is_some() && rest.contains(n) {
        let i = choose|i: int| 0 <= i < rest.len() && rest[i] == n;
        assert(spliced(nodes, own)[i] == n);
    }
}

/// The address under which the own node stands among the seeds is the one that a crawl does not
/// probe.
pub proof fn law_placeholder()
    ensures
        peer_text(PeerView::Clearnet(placeholder())) == own_placeholder(),
{
    reveal_strlit("127.0.0.1:0");
    reveal_with_fuel(in_base, 3);
    assert(decimal(0) =~= seq!['0']);
    assert(decimal(1) =~= seq!['1']);
    assert(decimal(127) =~= seq!['1', '2', '7']);
}

} // verus!
