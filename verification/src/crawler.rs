//! The depth-first crawl: which peer to probe next, what is recorded of a probe, and when the
//! crawl is over. The workers that probe are the application's; they share one `Crawl` behind a
//! lock and do as it says.
use vstd::prelude::*;

use crate::addr::law_socket_text_read_back;
use crate::node::{
    assess, assess_bip110, classify, classify_user_agent, lower_text, lowered_rules, Bip110Rule,
    Bip110Stance, Edge, NodeInfo, NodeView,
};
use crate::number::decimal;
use crate::p2p::{
    dialable, hash_at, header_views, law_peer_text_read_back, peer_hash_at, peer_of, peer_text,
    peer_views, Peer, PeerHeader, PeerVersion, PeerView,
};
use crate::state::CrawlState;
use crate::strmap::StrMap;
use crate::text::{joined, last_of, lemma_last_of_is, same_text};

verus! {

// ---- tasks --------------------------------------------------------------------------------

/// A peer to probe, and the depth at which it was reached.
pub struct Task {
    pub peer: Peer,
    pub depth: u32,
}

impl View for Task {
    type V = (PeerView, u32);

    open spec fn view(&self) -> (PeerView, u32) {
        (self.peer@, self.depth)
    }
}

/// The views of tasks.
pub open spec fn tasks(v: Seq<Task>) -> Seq<(PeerView, u32)> {
    v.map_values(|t: Task| t@)
}

proof fn lemma_tasks_push(v: Seq<Task>, t: Task)
    ensures
        tasks(v.push(t)) == tasks(v).push(t@),
{
    assert(tasks(v.push(t)) =~= tasks(v).push(t@));
}

/// Whether there is a task for `p`.
pub open spec fn holds(t: Seq<(PeerView, u32)>, p: PeerView) -> bool {
    exists|i: int| 0 <= i < t.len() && (#[trigger] t[i]).0 == p
}

/// No two tasks are for the same peer.
pub open spec fn distinct(t: Seq<(PeerView, u32)>) -> bool {
    forall|i: int, j: int| 0 <= i < j < t.len() ==> (#[trigger] t[i]).0 != (#[trigger] t[j]).0
}

/// No task is deeper than `max`.
pub open spec fn within(t: Seq<(PeerView, u32)>, max: u32) -> bool {
    forall|i: int| 0 <= i < t.len() ==> (#[trigger] t[i]).1 <= max
}

/// What holds of tasks that are put on top of others.
proof fn lemma_stacked(a: Seq<(PeerView, u32)>, b: Seq<(PeerView, u32)>)
    ensures
        forall|p: PeerView| #[trigger] holds(a + b, p) <==> holds(a, p) || holds(b, p),
        distinct(a) && distinct(b) && (forall|p: PeerView| holds(a, p) ==> !#[trigger] holds(b, p))
            ==> distinct(a + b),
        forall|max: u32| #[trigger] within(a + b, max) <==> within(a, max) && within(b, max),
{
    let c = a + b;
    assert forall|p: PeerView| #[trigger] holds(c, p) <==> holds(a, p) || holds(b, p) by {
        if holds(a, p) {
            let i = choose|i: int| 0 <= i < a.len() && (#[trigger] a[i]).0 == p;
            assert(c[i].0 == p);
        }
        if holds(b, p) {
            let i = choose|i: int| 0 <= i < b.len() && (#[trigger] b[i]).0 == p;
            assert(c[a.len() + i].0 == p);
        }
        if holds(c, p) {
            let i = choose|i: int| 0 <= i < c.len() && (#[trigger] c[i]).0 == p;
            if i < a.len() {
                assert(a[i].0 == p);
            } else {
                assert(b[i - a.len()].0 == p);
            }
        }
    }
    if distinct(a) && distinct(b) && (forall|p: PeerView| holds(a, p) ==> !#[trigger] holds(b, p)) {
        assert forall|i: int, j: int| 0 <= i < j < c.len() implies (#[trigger] c[i]).0 != (
        #[trigger] c[j]).0 by {
            if j < a.len() {
                assert(a[i].0 != a[j].0);
            } else if i >= a.len() {
                assert(b[i - a.len()].0 != b[j - a.len()].0);
            } else {
                assert(a[i].0 == c[i].0);
                assert(b[j - a.len()].0 == c[j].0);
                assert(holds(a, c[i].0));
                assert(holds(b, c[j].0));
            }
        }
    }
    assert forall|max: u32| #[trigger] within(c, max) <==> within(a, max) && within(b, max) by {
        if within(c, max) {
            assert forall|i: int| 0 <= i < a.len() implies (#[trigger] a[i]).1 <= max by {
                assert(c[i] == a[i]);
            }
            assert forall|i: int| 0 <= i < b.len() implies (#[trigger] b[i]).1 <= max by {
                assert(c[a.len() + i] == b[i]);
            }
        }
    }
}

/// What holds of tasks with one more on top.
proof fn lemma_pushed(a: Seq<(PeerView, u32)>, x: (PeerView, u32))
    ensures
        forall|p: PeerView| #[trigger] holds(a.push(x), p) <==> holds(a, p) || p == x.0,
        distinct(a) && !holds(a, x.0) ==> distinct(a.push(x)),
        forall|max: u32| #[trigger] within(a.push(x), max) <==> within(a, max) && x.1 <= max,
{
    let b = seq![x];
    lemma_stacked(a, b);
    assert(a.push(x) == a + b);
    assert forall|p: PeerView| #[trigger] holds(b, p) <==> p == x.0 by {
        assert(b[0].0 == x.0);
    }
    assert forall|max: u32| #[trigger] within(b, max) <==> x.1 <= max by {
        assert(b[0].1 == x.1);
    }
}

/// What holds of tasks without the one on top.
proof fn lemma_popped(v: Seq<Task>)
    requires
        v.len() > 0,
    ensures
        tasks(v) == tasks(v.drop_last()).push(v.last()@),
        forall|p: PeerView|
            holds(tasks(v), p) <==> #[trigger] holds(tasks(v.drop_last()), p) || p
                == v.last().peer@,
        distinct(tasks(v)) ==> distinct(tasks(v.drop_last())) && !holds(
            tasks(v.drop_last()),
            v.last().peer@,
        ),
        forall|max: u32| #[trigger] within(tasks(v), max) ==> within(tasks(v.drop_last()), max),
{
    let a = tasks(v.drop_last());
    let t = tasks(v);
    assert(t =~= a.push(v.last()@));
    lemma_pushed(a, v.last()@);
    if distinct(t) {
        assert forall|i: int, j: int| 0 <= i < j < a.len() implies (#[trigger] a[i]).0 != (
        #[trigger] a[j]).0 by {
            assert(t[i].0 != t[j].0);
        }
        if holds(a, v.last().peer@) {
            let i = choose|i: int| 0 <= i < a.len() && (#[trigger] a[i]).0 == v.last().peer@;
            assert(t[i].0 != t[a.len() as int].0);
        }
    }
}

/// The text that a peer is filed under: a mark for its kind, then its text.
pub open spec fn peer_key(p: PeerView) -> Seq<char> {
    match p {
        PeerView::Clearnet(_) => "c"@ + peer_text(p),
        PeerView::Onion(_, _) => "o"@ + peer_text(p),
    }
}

/// Different peers are filed under different texts.
pub proof fn law_peer_key_is_unique(a: PeerView, b: PeerView)
    ensures
        peer_key(a) == peer_key(b) ==> a == b,
{
    reveal_strlit("c");
    reveal_strlit("o");
    if peer_key(a) == peer_key(b) {
        assert(peer_key(a)[0] == peer_key(b)[0]);
        assert(peer_key(a).skip(1) == peer_text(a));
        assert(peer_key(b).skip(1) == peer_text(b));
        match (a, b) {
            (PeerView::Clearnet(x), PeerView::Clearnet(y)) => {
                law_socket_text_read_back(x);
                law_socket_text_read_back(y);
            },
            (PeerView::Onion(h, p), PeerView::Onion(g, q)) => {
                lemma_onion_text(h, p);
                lemma_onion_text(g, q);
            },
            _ => {},
        }
    }
}

/// Host and port can be told apart in the text of an onion peer.
proof fn lemma_onion_text(h: Seq<char>, port: u16)
    ensures
        ({
            let s = peer_text(PeerView::Onion(h, port));
            &&& last_of(s, ':') == h.len()
            &&& s.take(h.len() as int) == h
            &&& crate::number::unsigned_of(s.skip(h.len() as int + 1), 10, 65535) == Some(port as nat)
        }),
{
    let s = peer_text(PeerView::Onion(h, port));
    let d = decimal(port as nat);
    let i = h.len() as int;
    crate::number::lemma_in_base(port as nat, 10);
    assert(s[i] == ':');
    assert forall|j: int| i < j < s.len() implies s[j] != ':' by {
        assert(s[j] == d[j - i - 1]);
        assert(crate::number::digit_value(d[j - i - 1], 10).is_some());
    }
    lemma_last_of_is(s, ':', i);
    assert(s.take(i) == h);
    assert(s.skip(i + 1) == d);
    crate::number::law_decimal_read_back(port as u64, 65535);
}

fn key_of(p: &Peer) -> (r: String)
    ensures
        r@ == peer_key(p@),
{
    let t = p.to_string();
    if p.is_onion() {
        joined("o", t.as_str())
    } else {
        joined("c", t.as_str())
    }
}

// ---- configuration ------------------------------------------------------------------------

/// What bounds a crawl, and what it checks peers for.
pub struct CrawlConfig {
    /// How deep to go; 0 for any depth.
    pub max_depth: u32,
    /// After how many nodes to stop; 0 for never.
    pub max_nodes: usize,
    /// How many more attempts a peer gets.
    pub retries: usize,
    /// How many edges are recorded for a node; 0 for all of them.
    pub edges_per_node: usize,
    /// Whether onion peers can be dialled.
    pub onion_enabled: bool,
    /// The user's rules on stances.
    pub rules: Vec<Bip110Rule>,
    /// Known blocks by hash and height, newest first; none where chains are not compared.
    pub locator: Vec<([u8; 32], i64)>,
    /// The height at which chains are compared.
    pub chain_ref_height: i64,
}

/// How often, in seconds, a crawl in progress is shown and stored, and what it goes on from.
pub struct CrawlIo {
    pub snapshot: Option<u64>,
    pub resume: Option<CrawlState>,
    pub persist: Option<u64>,
}

/// What a crawl has found.
pub struct CrawlResult {
    pub nodes: Vec<NodeInfo>,
    pub edges: Vec<Edge>,
}

// ---- retrying -----------------------------------------------------------------------------

/// The kind of an input or output error, as far as it matters here.
#[derive(Clone, Copy, Debug, PartialEq, Eq, Structural)]
pub enum IoErrorKind {
    TimedOut,
    WouldBlock,
    Other,
}

/// The kind of the first input or output error in a chain of causes.
pub open spec fn first_io(causes: Seq<Option<IoErrorKind>>) -> Option<IoErrorKind>
    decreases causes.len(),
{
    if causes.len() == 0 {
        None
    } else if causes[0].is_some() {
        causes[0]
    } else {
        first_io(causes.skip(1))
    }
}

/// Whether a probe that failed for these causes, the outermost first, is worth another attempt:
/// where the first input or output error among them is a timeout, or there is none.
pub fn worth_retrying(causes: &[Option<IoErrorKind>]) -> (r: bool)
    ensures
        r == match first_io(causes@) {
            Some(k) => k == IoErrorKind::TimedOut || k == IoErrorKind::WouldBlock,
            None => true,
        },
{
    let mut i: usize = 0;
    assert(causes@.skip(0) == causes@);
    while i < causes.len()
        invariant
            i <= causes@.len(),
            first_io(causes@) == first_io(causes@.skip(i as int)),
        decreases causes@.len() - i,
    {
        if let Some(k) = causes[i] {
            return k == IoErrorKind::TimedOut || k == IoErrorKind::WouldBlock;
        }
        assert(causes@.skip(i as int).skip(1) == causes@.skip(i + 1));
        i = i + 1;
    }
    true
}

/// Whether to probe a peer once more, after `attempt` extra attempts of at most `retries`;
/// `failure` is why the last one failed, `None` where it succeeded.
pub fn probe_again(attempt: usize, retries: usize, failure: Option<&[Option<IoErrorKind>]>) -> (r:
    bool)
    ensures
        r == (attempt < retries && match failure {
            Some(c) => match first_io(c@) {
                Some(k) => k == IoErrorKind::TimedOut || k == IoErrorKind::WouldBlock,
                None => true,
            },
            None => false,
        }),
{
    match failure {
        Some(c) => attempt < retries && worth_retrying(c),
        None => false,
    }
}

// ---- the crawl ----------------------------------------------------------------------------

/// What a worker should do.
pub enum NextTask {
    /// Probe this peer.
    Run(Task),
    /// Wait until there is work or the crawl is over.
    Wait,
    /// Stop: the crawl is over.
    Finished,
}

/// Which waiting workers to wake.
#[derive(Clone, Copy, Debug, PartialEq, Eq, Structural)]
pub struct Wake {
    pub clearnet: bool,
    pub onion: bool,
}

/// How far a crawl has come.
#[derive(Clone, Copy, Debug, PartialEq, Eq, Structural)]
pub struct Progress {
    pub probed: usize,
    pub reachable: usize,
    pub onion: usize,
    pub clearnet_queued: usize,
    pub onion_queued: usize,
}

/// A crawl in progress. Clearnet and onion peers wait in stacks of their own, so that workers
/// on slow onion peers do not hold up the others.
pub struct Crawl {
    /// Clearnet peers to probe, the next one last.
    pub clearnet: Vec<Task>,
    /// Onion peers to probe, the next one last.
    pub onion: Vec<Task>,
    /// How many workers are probing.
    pub active: usize,
    /// Every peer that was ever queued or recorded, by key.
    pub seen: StrMap<()>,
    /// The records, by key of their peer.
    pub nodes: StrMap<NodeInfo>,
    /// The edges, in the order they were found.
    pub edges: Vec<Edge>,
    /// Whether onion peers can be dialled.
    pub onion_enabled: bool,
}

/// The address that stands for the own node, which is not probed.
pub open spec fn own_placeholder() -> Seq<char> {
    "127.0.0.1:0"@
}

/// The peers that can be dialled.
pub open spec fn kept(d: Seq<PeerView>, onion_enabled: bool) -> Seq<PeerView>
    decreases d.len(),
{
    if d.len() == 0 {
        Seq::empty()
    } else {
        let r = kept(d.drop_last(), onion_enabled);
        if onion_enabled || d.last() is Clearnet {
            r.push(d.last())
        } else {
            r
        }
    }
}

/// The peers of `k` that were not seen before, each once.
pub open spec fn fresh(k: Seq<PeerView>, seen: Set<Seq<char>>) -> Seq<PeerView>
    decreases k.len(),
{
    if k.len() == 0 {
        Seq::empty()
    } else {
        let r = fresh(k.drop_last(), seen);
        if seen.contains(peer_key(k.last())) || k.drop_last().contains(k.last()) {
            r
        } else {
            r.push(k.last())
        }
    }
}

/// The peers of one kind, as tasks at this depth.
pub open spec fn tasks_at(p: Seq<PeerView>, onion: bool, depth: u32) -> Seq<(PeerView, u32)>
    decreases p.len(),
{
    if p.len() == 0 {
        Seq::empty()
    } else {
        let r = tasks_at(p.drop_last(), onion, depth);
        if (p.last() is Onion) == onion {
            r.push((p.last(), depth))
        } else {
            r
        }
    }
}

/// The keys of peers.
pub open spec fn keys_of_peers(k: Seq<PeerView>) -> Set<Seq<char>>
    decreases k.len(),
{
    if k.len() == 0 {
        Set::empty()
    } else {
        keys_of_peers(k.drop_last()).insert(peer_key(k.last()))
    }
}

/// A key is among those of `k` exactly where its peer is in `k`.
proof fn lemma_keys_of_peers(k: Seq<PeerView>, p: PeerView)
    ensures
        keys_of_peers(k).contains(peer_key(p)) <==> k.contains(p),
    decreases k.len(),
{
    if k.len() > 0 {
        let d = k.drop_last();
        lemma_keys_of_peers(d, p);
        law_peer_key_is_unique(k.last(), p);
        if k.contains(p) && p != k.last() {
            let i = choose|i: int| 0 <= i < k.len() && k[i] == p;
            assert(d[i] == p);
        }
        if d.contains(p) {
            let i = choose|i: int| 0 <= i < d.len() && d[i] == p;
            assert(k[i] == p);
        }
        if p == k.last() {
            assert(k[k.len() - 1] == p);
        }
    }
}

/// The edges from `addr` to the first of the kept peers; all of them where `cap` is 0.
pub open spec fn new_edges(addr: Seq<char>, k: Seq<PeerView>, cap: usize) -> Seq<
    (Seq<char>, Seq<char>),
> {
    Seq::new(
        if cap == 0 || k.len() < cap {
            k.len()
        } else {
            cap as nat
        },
        |i: int| (addr, peer_text(k[i])),
    )
}

/// The views of edges.
pub open spec fn edge_views(v: Seq<Edge>) -> Seq<(Seq<char>, Seq<char>)> {
    v.map_values(|e: Edge| e@)
}

/// Whether children of a peer at this depth are followed.
pub open spec fn has_budget(max_depth: u32, depth: u32) -> bool {
    max_depth == 0 || depth < max_depth
}

/// The record of a peer with a completed handshake, with this name, version and stance.
pub open spec fn reached(
    task: (PeerView, u32),
    ver: PeerVersion,
    chain_hash: Seq<char>,
    named: (Seq<char>, Seq<char>),
    stance: Bip110Stance,
    latency_ms: Option<u32>,
    first_seen: Seq<char>,
    last_seen: Seq<char>,
) -> NodeView {
    NodeView {
        addr: peer_text(task.0),
        depth: task.1,
        protocol_version: ver.protocol_version,
        user_agent: ver.user_agent@,
        services: ver.services,
        start_height: ver.start_height,
        chain_hash,
        handshaked: true,
        implementation: named.0,
        version: named.1,
        bip110: stance,
        first_seen,
        last_seen,
        times_seen: 0,
        online: true,
        latency_ms,
    }
}

/// The record of a peer with a completed handshake, with this name, version and stance.
pub fn reached_record(
    task: &Task,
    ver: &PeerVersion,
    chain_hash: String,
    named: (String, String),
    stance: Bip110Stance,
    latency_ms: Option<u32>,
    first_seen: String,
    last_seen: String,
) -> (r: NodeInfo)
    ensures
        r@ == reached(
            task@,
            *ver,
            chain_hash@,
            (named.0@, named.1@),
            stance,
            latency_ms,
            first_seen@,
            last_seen@,
        ),
{
    NodeInfo {
        addr: task.peer.to_string(),
        depth: task.depth,
        protocol_version: ver.protocol_version,
        user_agent: ver.user_agent.clone(),
        services: ver.services,
        start_height: ver.start_height,
        chain_hash,
        handshaked: true,
        implementation: named.0,
        version: named.1,
        bip110: stance,
        first_seen,
        last_seen,
        times_seen: 0,
        online: true,
        latency_ms,
    }
}

/// The record of a peer that could not be reached.
pub open spec fn unreachable(task: (PeerView, u32)) -> NodeView {
    NodeView {
        addr: peer_text(task.0),
        depth: task.1,
        protocol_version: 0,
        user_agent: Seq::empty(),
        services: 0,
        start_height: 0,
        chain_hash: Seq::empty(),
        handshaked: false,
        implementation: "Unreachable"@,
        version: Seq::empty(),
        bip110: Bip110Stance::Unknown,
        first_seen: Seq::empty(),
        last_seen: Seq::empty(),
        times_seen: 0,
        online: false,
        latency_ms: None,
    }
}

/// A queued peer lies on the stack of its kind, and was seen.
proof fn lemma_queued(c: Crawl)
    requires
        c.wf(),
    ensures
        forall|p: PeerView| #[trigger] holds(tasks(c.clearnet@), p) ==> p is Clearnet && c.has_seen(
            p,
        ),
        forall|p: PeerView| #[trigger] holds(tasks(c.onion@), p) ==> p is Onion && c.has_seen(p),
{
    assert forall|p: PeerView| #[trigger] holds(tasks(c.clearnet@), p) implies p is Clearnet
        && c.has_seen(p) by {
        let t = tasks(c.clearnet@);
        let i = choose|i: int| 0 <= i < t.len() && (#[trigger] t[i]).0 == p;
        assert(c.clearnet@[i].peer@ == p);
    }
    assert forall|p: PeerView| #[trigger] holds(tasks(c.onion@), p) implies p is Onion
        && c.has_seen(p) by {
        let t = tasks(c.onion@);
        let i = choose|i: int| 0 <= i < t.len() && (#[trigger] t[i]).0 == p;
        assert(c.onion@[i].peer@ == p);
    }
}

impl Crawl {
    /// Whether a task for `p` waits on one of the stacks.
    pub open spec fn queued(self, p: PeerView) -> bool {
        holds(tasks(self.clearnet@), p) || holds(tasks(self.onion@), p)
    }

    /// Whether `p` was handed out, or is known without ever being queued: it was seen, and no task
    /// for it waits.
    pub open spec fn done(self, p: PeerView) -> bool {
        self.has_seen(p) && !self.queued(p)
    }

    /// No peer is queued twice.
    pub open spec fn no_repeats(self) -> bool {
        distinct(tasks(self.clearnet@)) && distinct(tasks(self.onion@))
    }

    /// No queued task is deeper than `max`.
    pub open spec fn no_deeper(self, max: u32) -> bool {
        within(tasks(self.clearnet@), max) && within(tasks(self.onion@), max)
    }

    /// Whether `p` was ever queued or recorded.
    pub open spec fn has_seen(self, p: PeerView) -> bool {
        self.seen@.contains_key(peer_key(p))
    }

    /// The record of `p`.
    pub open spec fn record(self, p: PeerView) -> Option<NodeInfo> {
        if self.nodes@.contains_key(peer_key(p)) {
            Some(self.nodes@[peer_key(p)])
        } else {
            None
        }
    }

    /// Each stack holds peers of its kind, all of them seen, onion peers only where they can be
    /// dialled; and every record is that of a peer that was seen.
    pub open spec fn wf(self) -> bool {
        &&& forall|i: int|
            0 <= i < self.clearnet@.len() ==> (#[trigger] self.clearnet@[i]).peer is Clearnet
                && self.has_seen(self.clearnet@[i].peer@)
        &&& forall|i: int|
            0 <= i < self.onion@.len() ==> (#[trigger] self.onion@[i]).peer is Onion
                && self.has_seen(self.onion@[i].peer@)
        &&& !self.onion_enabled ==> self.onion@.len() == 0
        &&& forall|k: Seq<char>| #[trigger] self.nodes@.contains_key(k) ==> self.seen@.contains_key(k)
    }

    /// Nothing is left to do, and nobody is doing anything.
    pub open spec fn over(self) -> bool {
        self.clearnet@.len() == 0 && self.onion@.len() == 0 && self.active == 0
    }

    /// A crawl that has not begun.
    pub fn new(onion_enabled: bool) -> (r: Crawl)
        ensures
            r.wf(),
            r.over(),
            r.no_repeats(),
            r.onion_enabled == onion_enabled,
            r.seen@ == Map::<Seq<char>, ()>::empty(),
            r.nodes@ == Map::<Seq<char>, NodeInfo>::empty(),
            r.edges@.len() == 0,
    {
        Crawl {
            clearnet: Vec::new(),
            onion: Vec::new(),
            active: 0,
            seen: StrMap::new(),
            nodes: StrMap::new(),
            edges: Vec::new(),
            onion_enabled,
        }
    }

    /// Queues a seed with the record that is known of it, unless it was seen before. Without a
    /// proxy onion seeds are left out.
    pub fn seed(&mut self, peer: Peer, depth: u32, known: Option<NodeInfo>)
        requires
            old(self).wf(),
        ensures
            final(self).wf(),
            final(self).active == old(self).active,
            final(self).edges == old(self).edges,
            final(self).onion_enabled == old(self).onion_enabled,
            (peer.onion() && !old(self).onion_enabled) || old(self).has_seen(peer@) ==> *final(self)
                == *old(self),
            !(peer.onion() && !old(self).onion_enabled) && !old(self).has_seen(peer@) ==> {
                &&& final(self).seen@ == old(self).seen@.insert(peer_key(peer@), ())
                &&& final(self).nodes@ == (match known {
                    Some(n) => old(self).nodes@.insert(peer_key(peer@), n),
                    None => old(self).nodes@,
                })
                &&& tasks(final(self).clearnet@) == (if peer.onion() {
                    tasks(old(self).clearnet@)
                } else {
                    tasks(old(self).clearnet@).push((peer@, depth))
                })
                &&& tasks(final(self).onion@) == (if peer.onion() {
                    tasks(old(self).onion@).push((peer@, depth))
                } else {
                    tasks(old(self).onion@)
                })
            },
            old(self).no_repeats() ==> final(self).no_repeats(),
            forall|p: PeerView| old(self).done(p) ==> #[trigger] final(self).done(p),
            forall|max: u32|
                depth <= max && old(self).no_deeper(max) ==> #[trigger] final(self).no_deeper(max),
    {
        proof {
            lemma_queued(*self);
        }
        if peer.is_onion() && !self.onion_enabled {
            return ;
        }
        let key = key_of(&peer);
        if self.seen.contains(key.as_str()) {
            return ;
        }
        self.seen.insert(key.clone(), ());
        if let Some(n) = known {
            self.nodes.insert(key, n);
        }
        let t = Task { peer, depth };
        if t.peer.is_onion() {
            proof {
                lemma_tasks_push(self.onion@, t);
                lemma_pushed(tasks(self.onion@), t@);
            }
            self.onion.push(t);
        } else {
            proof {
                lemma_tasks_push(self.clearnet@, t);
                lemma_pushed(tasks(self.clearnet@), t@);
            }
            self.clearnet.push(t);
        }
    }

    /// Gives a worker of one of the two pools its next task: the latest one queued. It waits
    /// while there may still be work, and stops when nothing is queued and nobody is probing.
    pub fn next_task(&mut self, onion_pool: bool) -> (r: NextTask)
        requires
            old(self).wf(),
            old(self).active < usize::MAX,
        ensures
            final(self).wf(),
            final(self).seen == old(self).seen,
            final(self).nodes == old(self).nodes,
            final(self).edges == old(self).edges,
            final(self).onion_enabled == old(self).onion_enabled,
            ({
                let stack = if onion_pool {
                    old(self).onion@
                } else {
                    old(self).clearnet@
                };
                match r {
                    NextTask::Run(t) => stack.len() > 0 && t == stack.last() && final(self).active
                        == old(self).active + 1 && (if onion_pool {
                        final(self).onion@ == stack.drop_last() && final(self).clearnet == old(
                            self).clearnet
                    } else {
                        final(self).clearnet@ == stack.drop_last() && final(self).onion == old(
                            self).onion
                    }),
                    NextTask::Finished => *final(self) == *old(self) && old(self).over(),
                    NextTask::Wait => *final(self) == *old(self) && stack.len() == 0 && !old(
                        self).over(),
                }
            }),
            old(self).no_repeats() ==> final(self).no_repeats() && (r matches NextTask::Run(t)
                ==> final(self).done(t.peer@)),
            r matches NextTask::Run(t) ==> final(self).has_seen(t.peer@),
            forall|p: PeerView| old(self).done(p) ==> #[trigger] final(self).done(p),
            forall|max: u32| old(self).no_deeper(max) ==> #[trigger] final(self).no_deeper(max),
    {
        proof {
            lemma_queued(*self);
            if self.onion@.len() > 0 {
                lemma_popped(self.onion@);
            }
            if self.clearnet@.len() > 0 {
                lemma_popped(self.clearnet@);
            }
        }
        if onion_pool && self.onion.len() > 0 {
            let popped = self.onion.pop();
            if let Some(t) = popped {
                self.active = self.active + 1;
                return NextTask::Run(t);
            }
        }
        if !onion_pool && self.clearnet.len() > 0 {
            let popped = self.clearnet.pop();
            if let Some(t) = popped {
                self.active = self.active + 1;
                return NextTask::Run(t);
            }
        }
        if self.clearnet.len() == 0 && self.onion.len() == 0 && self.active == 0 {
            NextTask::Finished
        } else {
            NextTask::Wait
        }
    }

    /// Whether the crawl has found as many nodes as it should.
    pub fn at_capacity(&self, max_nodes: usize) -> (r: bool)
        ensures
            r == (max_nodes != 0 && self.nodes@.dom().len() >= max_nodes),
    {
        max_nodes != 0 && self.nodes.len() >= max_nodes
    }

    /// Ends a task: its children are queued on top, and those workers are woken that can go on
    /// or have to stop.
    pub fn finish_task(&mut self, new_clearnet: Vec<Task>, new_onion: Vec<Task>) -> (r: Wake)
        requires
            old(self).wf(),
            old(self).active > 0,
            forall|i: int|
                0 <= i < new_clearnet@.len() ==> (#[trigger] new_clearnet@[i]).peer is Clearnet
                    && old(self).has_seen(new_clearnet@[i].peer@),
            forall|i: int|
                0 <= i < new_onion@.len() ==> (#[trigger] new_onion@[i]).peer is Onion && old(
                    self).has_seen(new_onion@[i].peer@),
            !old(self).onion_enabled ==> new_onion@.len() == 0,
        ensures
            final(self).wf(),
            final(self).active == old(self).active - 1,
            final(self).clearnet@ == old(self).clearnet@ + new_clearnet@,
            final(self).onion@ == old(self).onion@ + new_onion@,
            final(self).seen == old(self).seen,
            final(self).nodes == old(self).nodes,
            final(self).edges == old(self).edges,
            final(self).onion_enabled == old(self).onion_enabled,
            r.clearnet == (new_clearnet@.len() > 0 || final(self).over()),
            r.onion == (new_onion@.len() > 0 || final(self).over()),
    {
        self.active = self.active - 1;
        let has_clearnet = new_clearnet.len() > 0;
        let has_onion = new_onion.len() > 0;
        let mut c: Vec<Task> = new_clearnet;
        let mut o: Vec<Task> = new_onion;
        self.clearnet.append(&mut c);
        self.onion.append(&mut o);
        let over = self.active == 0 && self.clearnet.len() == 0 && self.onion.len() == 0;
        Wake { clearnet: has_clearnet || over, onion: has_onion || over }
    }
}

// ---- recording ----------------------------------------------------------------------------

/// The tasks that the gossip of a peer gives, for the two stacks.
struct Children {
    clearnet: Vec<Task>,
    onion: Vec<Task>,
}

impl Crawl {
    /// Records a peer that was reached, and follows what it told of others where the depth
    /// allows: an edge to each peer that can be dialled, up to the limit, and a task for each
    /// that was not seen before. Returns the tasks for the two stacks.
    pub fn record_success(
        &mut self,
        cfg: &CrawlConfig,
        task: &Task,
        ver: &PeerVersion,
        discovered: &Vec<Peer>,
        headers: &[PeerHeader],
        latency_ms: Option<u32>,
        first_seen: String,
        last_seen: String,
    ) -> (r: (Vec<Task>, Vec<Task>))
        requires
            old(self).wf(),
            old(self).has_seen(task.peer@),
            has_budget(cfg.max_depth, task.depth) ==> task.depth < u32::MAX || fresh(
                kept(peer_views(discovered@), old(self).onion_enabled),
                old(self).seen@.dom(),
            ).len() == 0,
        ensures
            final(self).wf(),
            final(self).active == old(self).active,
            final(self).clearnet == old(self).clearnet,
            final(self).onion == old(self).onion,
            final(self).onion_enabled == old(self).onion_enabled,
            forall|k: Seq<char>|
                k != peer_key(task.peer@) ==> (#[trigger] final(self).nodes@.contains_key(k) <==> old(
                    self).nodes@.contains_key(k)) && (old(self).nodes@.contains_key(k) ==> final(
                    self).nodes@[k] == old(self).nodes@[k]),
            final(self).record(task.peer@) matches Some(n) && n@ == reached(
                task@,
                *ver,
                hash_at(header_views(headers@), cfg.locator@, cfg.chain_ref_height),
                classify(ver.user_agent@, lower_text(ver.user_agent@)),
                assess(lower_text(ver.user_agent@), lowered_rules(cfg.rules@)),
                latency_ms,
                first_seen@,
                last_seen@,
            ),
            ({
                let k = if has_budget(cfg.max_depth, task.depth) {
                    kept(peer_views(discovered@), old(self).onion_enabled)
                } else {
                    Seq::empty()
                };
                let f = fresh(k, old(self).seen@.dom());
                let depth = (task.depth + 1) as u32;
                &&& edge_views(final(self).edges@) == edge_views(old(self).edges@) + new_edges(
                    peer_text(task.peer@),
                    k,
                    cfg.edges_per_node,
                )
                &&& final(self).seen@.dom() == old(self).seen@.dom().union(keys_of_peers(k))
                &&& tasks(r.0@) == tasks_at(f, false, depth)
                &&& tasks(r.1@) == tasks_at(f, true, depth)
            }),
            forall|i: int|
                0 <= i < r.0@.len() ==> (#[trigger] r.0@[i]).peer is Clearnet && final(
                    self).has_seen(r.0@[i].peer@),
            forall|i: int|
                0 <= i < r.1@.len() ==> (#[trigger] r.1@[i]).peer is Onion && final(
                    self).has_seen(r.1@[i].peer@),
            !final(self).onion_enabled ==> r.1@.len() == 0,
            old(self).filed() && dialable(task.peer@) ==> final(self).filed(),
    {
        let addr = task.peer.to_string();
        let chain_hash = peer_hash_at(headers, &cfg.locator, cfg.chain_ref_height);
        let named = classify_user_agent(ver.user_agent.as_str());
        let stance = assess_bip110(named.0.as_str(), ver.user_agent.as_str(), &cfg.rules);
        let info = reached_record(
            task,
            ver,
            chain_hash,
            named,
            stance,
            latency_ms,
            first_seen,
            last_seen,
        );
        self.nodes.insert(key_of(&task.peer), info);
        if cfg.max_depth == 0 || task.depth < cfg.max_depth {
            let c = self.follow(
                addr.as_str(),
                discovered,
                cfg.edges_per_node,
                task.depth,
            );
            (c.clearnet, c.onion)
        } else {
            let none: Vec<Task> = Vec::new();
            let none2: Vec<Task> = Vec::new();
            proof {
                let k = Seq::<PeerView>::empty();
                assert(edge_views(self.edges@) + new_edges(
                    peer_text(task.peer@),
                    k,
                    cfg.edges_per_node,
                ) =~= edge_views(self.edges@));
                assert(self.seen@.dom().union(keys_of_peers(k)) =~= self.seen@.dom());
                assert(tasks(none@) =~= Seq::<(PeerView, u32)>::empty());
            }
            (none, none2)
        }
    }

    /// Follows what a peer at `depth` told of others.
    fn follow(&mut self, addr: &str, discovered: &Vec<Peer>, cap: usize, depth: u32) -> (r:
        Children)
        requires
            old(self).wf(),
            depth < u32::MAX || fresh(
                kept(peer_views(discovered@), old(self).onion_enabled),
                old(self).seen@.dom(),
            ).len() == 0,
        ensures
            final(self).wf(),
            final(self).active == old(self).active,
            final(self).clearnet == old(self).clearnet,
            final(self).onion == old(self).onion,
            final(self).nodes == old(self).nodes,
            final(self).onion_enabled == old(self).onion_enabled,
            ({
                let k = kept(peer_views(discovered@), old(self).onion_enabled);
                let f = fresh(k, old(self).seen@.dom());
                let next = (depth + 1) as u32;
                &&& edge_views(final(self).edges@) == edge_views(old(self).edges@) + new_edges(
                    addr@,
                    k,
                    cap,
                )
                &&& final(self).seen@.dom() == old(self).seen@.dom().union(keys_of_peers(k))
                &&& tasks(r.clearnet@) == tasks_at(f, false, next)
                &&& tasks(r.onion@) == tasks_at(f, true, next)
            }),
            forall|i: int|
                0 <= i < r.clearnet@.len() ==> (#[trigger] r.clearnet@[i]).peer is Clearnet
                    && final(self).has_seen(r.clearnet@[i].peer@),
            forall|i: int|
                0 <= i < r.onion@.len() ==> (#[trigger] r.onion@[i]).peer is Onion && final(
                    self).has_seen(r.onion@[i].peer@),
            !final(self).onion_enabled ==> r.onion@.len() == 0,
    {
        let ghost d = peer_views(discovered@);
        let ghost seen0 = self.seen@.dom();
        let ghost edges0 = edge_views(self.edges@);
        let ghost on = self.onion_enabled;
        let ghost next = (depth + 1) as u32;
        let mut out = Children { clearnet: Vec::new(), onion: Vec::new() };
        let mut recorded: usize = 0;
        let mut i: usize = 0;
        proof {
            assert(d.take(0) =~= Seq::<PeerView>::empty());
            let k = Seq::<PeerView>::empty();
            assert(edges0 + new_edges(addr@, k, cap) =~= edges0);
            assert(seen0.union(keys_of_peers(k)) =~= seen0);
            assert(tasks(out.clearnet@) =~= Seq::<(PeerView, u32)>::empty());
            assert(tasks(out.onion@) =~= Seq::<(PeerView, u32)>::empty());
        }
        while i < discovered.len()
            invariant
                i <= discovered@.len(),
                d == peer_views(discovered@),
                on == self.onion_enabled,
                on == old(self).onion_enabled,
                seen0 == old(self).seen@.dom(),
                edges0 == edge_views(old(self).edges@),
                next == (depth + 1) as u32,
                depth < u32::MAX || fresh(kept(d, on), seen0).len() == 0,
                self.wf(),
                self.active == old(self).active,
                self.clearnet == old(self).clearnet,
                self.onion == old(self).onion,
                self.nodes == old(self).nodes,
                ({
                    let k = kept(d.take(i as int), on);
                    let f = fresh(k, seen0);
                    &&& edge_views(self.edges@) == edges0 + new_edges(addr@, k, cap)
                    &&& recorded == new_edges(addr@, k, cap).len()
                    &&& self.seen@.dom() == seen0.union(keys_of_peers(k))
                    &&& tasks(out.clearnet@) == tasks_at(f, false, next)
                    &&& tasks(out.onion@) == tasks_at(f, true, next)
                    &&& k.len() <= i
                }),
                forall|j: int|
                    0 <= j < out.clearnet@.len() ==> (#[trigger] out.clearnet@[j]).peer is Clearnet
                        && self.has_seen(out.clearnet@[j].peer@),
                forall|j: int|
                    0 <= j < out.onion@.len() ==> (#[trigger] out.onion@[j]).peer is Onion
                        && self.has_seen(out.onion@[j].peer@),
                !on ==> out.onion@.len() == 0,
            decreases discovered@.len() - i,
        {
            let child = &discovered[i];
            let ghost t = d.take(i as int);
            let ghost u = d.take(i + 1);
            let ghost k0 = kept(t, on);
            proof {
                assert(u.drop_last() == t);
                assert(u.last() == child@);
            }
            if child.is_onion() && !self.onion_enabled {
                assert(kept(u, on) == k0);
                i = i + 1;
                continue ;
            }
            let ghost k1 = kept(u, on);
            let ghost f0 = fresh(k0, seen0);
            let ghost f1 = fresh(k1, seen0);
            proof {
                assert(k1 == k0.push(child@));
                assert(k1.drop_last() == k0);
                lemma_keys_of_peers(k0, child@);
            }
            if cap == 0 || recorded < cap {
                let e = Edge { from: addr.to_owned(), to: child.to_string() };
                proof {
                    assert(edge_views(self.edges@.push(e)) =~= edge_views(self.edges@).push(e@));
                    assert(edges0 + new_edges(addr@, k1, cap) =~= (edges0 + new_edges(
                        addr@,
                        k0,
                        cap,
                    )).push(e@));
                }
                self.edges.push(e);
                recorded = recorded + 1;
            } else {
                assert(new_edges(addr@, k1, cap) =~= new_edges(addr@, k0, cap));
            }
            let key = key_of(child);
            let known = self.seen.contains(key.as_str());
            if !known {
                proof {
                    assert(f1 == f0.push(child@));
                    assert(f1.drop_last() == f0);
                    lemma_fresh_grows(d, on, seen0, i + 1);
                }
                let ghost was = self.seen@;
                self.seen.insert(key, ());
                assert(self.seen@.dom() =~= seen0.union(keys_of_peers(k1)));
                let one = Task { peer: child.clone(), depth: depth + 1 };
                if child.is_onion() {
                    proof {
                        lemma_tasks_push(out.onion@, one);
                    }
                    out.onion.push(one);
                } else {
                    proof {
                        lemma_tasks_push(out.clearnet@, one);
                    }
                    out.clearnet.push(one);
                }
            } else {
                assert(f1 == f0);
                assert(self.seen@.dom() =~= seen0.union(keys_of_peers(k1)));
            }
            i = i + 1;
        }
        assert(d.take(d.len() as int) == d);
        out
    }

    /// Records a peer that could not be reached, where nothing is recorded of it yet.
    pub fn record_failure(&mut self, task: &Task)
        requires
            old(self).wf(),
            old(self).has_seen(task.peer@),
        ensures
            final(self).wf(),
            final(self).active == old(self).active,
            final(self).clearnet == old(self).clearnet,
            final(self).onion == old(self).onion,
            final(self).seen == old(self).seen,
            final(self).edges == old(self).edges,
            final(self).onion_enabled == old(self).onion_enabled,
            forall|k: Seq<char>|
                k != peer_key(task.peer@) ==> (#[trigger] final(self).nodes@.contains_key(k) <==> old(
                    self).nodes@.contains_key(k)) && (old(self).nodes@.contains_key(k) ==> final(
                    self).nodes@[k] == old(self).nodes@[k]),
            match old(self).record(task.peer@) {
                Some(n) => final(self).record(task.peer@) == Some(n),
                None => final(self).record(task.peer@) matches Some(n) && n@ == unreachable(task@),
            },
            old(self).filed() && dialable(task.peer@) ==> final(self).filed(),
    {
        let key = key_of(&task.peer);
        if self.nodes.contains(key.as_str()) {
            return ;
        }
        let info = NodeInfo {
            addr: task.peer.to_string(),
            depth: task.depth,
            protocol_version: 0,
            user_agent: String::new(),
            services: 0,
            start_height: 0,
            chain_hash: String::new(),
            handshaked: false,
            implementation: "Unreachable".to_owned(),
            version: String::new(),
            bip110: Bip110Stance::Unknown,
            first_seen: String::new(),
            last_seen: String::new(),
            times_seen: 0,
            online: false,
            latency_ms: None,
        };
        assert(info@ =~= unreachable(task@));
        self.nodes.insert(key, info);
    }
}

/// The more peers are looked at, the more are new.
proof fn lemma_fresh_grows(d: Seq<PeerView>, on: bool, seen: Set<Seq<char>>, i: int)
    requires
        0 <= i <= d.len(),
    ensures
        fresh(kept(d.take(i), on), seen).len() <= fresh(kept(d, on), seen).len(),
    decreases d.len() - i,
{
    if i < d.len() {
        let u = d.take(i + 1);
        assert(u.drop_last() == d.take(i));
        let k = kept(u, on);
        if on || u.last() is Clearnet {
            assert(k.drop_last() == kept(d.take(i), on));
        }
        lemma_fresh_grows(d, on, seen, i + 1);
    } else {
        assert(d.take(i) == d);
    }
}

/// What came of a task.
pub enum Outcome {
    /// The crawl has found as many nodes as it should: the peer was not probed.
    Skipped,
    /// The peer could not be reached.
    Failed,
    /// The handshake was completed.
    Reached {
        version: PeerVersion,
        discovered: Vec<Peer>,
        headers: Vec<PeerHeader>,
        latency_ms: Option<u32>,
    },
}

/// The peers that are followed from a task: those that can be dialled of the ones that were told
/// of, where the depth allows.
pub open spec fn followed(
    outcome: Outcome,
    max_depth: u32,
    depth: u32,
    onion_enabled: bool,
) -> Seq<PeerView> {
    match outcome {
        Outcome::Reached { discovered, .. } => if has_budget(max_depth, depth) {
            kept(peer_views(discovered@), onion_enabled)
        } else {
            Seq::empty()
        },
        _ => Seq::empty(),
    }
}

/// What an outcome does to the edges, to the peers that were seen and to the stacks.
pub open spec fn outcome_taken(
    before: Crawl,
    after: Crawl,
    cfg: CrawlConfig,
    task: Task,
    outcome: Outcome,
) -> bool {
    let k = followed(outcome, cfg.max_depth, task.depth, before.onion_enabled);
    let f = fresh(k, before.seen@.dom());
    let depth = (task.depth + 1) as u32;
    &&& edge_views(after.edges@) == edge_views(before.edges@) + new_edges(
        peer_text(task.peer@),
        k,
        cfg.edges_per_node,
    )
    &&& after.seen@.dom() == before.seen@.dom().union(keys_of_peers(k))
    &&& tasks(after.clearnet@) == tasks(before.clearnet@) + tasks_at(f, false, depth)
    &&& tasks(after.onion@) == tasks(before.onion@) + tasks_at(f, true, depth)
}

/// The tasks for peers of one kind are for these peers, each once, all at one depth.
proof fn lemma_tasks_at(f: Seq<PeerView>, onion: bool, depth: u32)
    ensures
        forall|p: PeerView| #[trigger]
            holds(tasks_at(f, onion, depth), p) <==> f.contains(p) && (p is Onion) == onion,
        (forall|i: int, j: int| 0 <= i < j < f.len() ==> #[trigger] f[i] != #[trigger] f[j])
            ==> distinct(tasks_at(f, onion, depth)),
        within(tasks_at(f, onion, depth), depth),
    decreases f.len(),
{
    let t = tasks_at(f, onion, depth);
    if f.len() > 0 {
        let d = f.drop_last();
        let r = tasks_at(d, onion, depth);
        lemma_tasks_at(d, onion, depth);
        lemma_pushed(r, (f.last(), depth));
        assert forall|p: PeerView| f.contains(p) <==> d.contains(p) || p == f.last() by {
            if d.contains(p) {
                let i = choose|i: int| 0 <= i < d.len() && d[i] == p;
                assert(f[i] == p);
            }
            if f.contains(p) && p != f.last() {
                let i = choose|i: int| 0 <= i < f.len() && f[i] == p;
                assert(d[i] == p);
            }
            assert(f[f.len() - 1] == f.last());
        }
        assert forall|p: PeerView| #[trigger] holds(t, p) <==> f.contains(p) && (p is Onion)
            == onion by {}
        if forall|i: int, j: int| 0 <= i < j < f.len() ==> #[trigger] f[i] != #[trigger] f[j] {
            assert forall|i: int, j: int| 0 <= i < j < d.len() implies #[trigger] d[i]
                != #[trigger] d[j] by {
                assert(f[i] != f[j]);
            }
            if d.contains(f.last()) {
                let i = choose|i: int| 0 <= i < d.len() && d[i] == f.last();
                assert(f[i] != f[f.len() - 1]);
            }
        }
    }
}

impl Crawl {
    /// Takes what came of a task: records it, queues the peers that were not seen before, and
    /// says who is to be woken. A peer that was handed out is not queued again, none is queued
    /// twice, and none deeper than the crawl goes.
    pub fn on_outcome(
        &mut self,
        cfg: &CrawlConfig,
        task: &Task,
        outcome: &Outcome,
        first_seen: String,
        last_seen: String,
    ) -> (r: Wake)
        requires
            old(self).wf(),
            old(self).active > 0,
            old(self).has_seen(task.peer@),
            task.depth < u32::MAX || fresh(
                followed(*outcome, cfg.max_depth, task.depth, old(self).onion_enabled),
                old(self).seen@.dom(),
            ).len() == 0,
        ensures
            final(self).wf(),
            final(self).active == old(self).active - 1,
            final(self).onion_enabled == old(self).onion_enabled,
            forall|k: Seq<char>|
                k != peer_key(task.peer@) ==> (#[trigger] final(self).nodes@.contains_key(k) <==> old(
                    self).nodes@.contains_key(k)) && (old(self).nodes@.contains_key(k) ==> final(
                    self).nodes@[k] == old(self).nodes@[k]),
            match *outcome {
                Outcome::Skipped => final(self).record(task.peer@) == old(self).record(task.peer@),
                Outcome::Failed => match old(self).record(task.peer@) {
                    Some(n) => final(self).record(task.peer@) == Some(n),
                    None => final(self).record(task.peer@) matches Some(n) && n@ == unreachable(
                        task@,
                    ),
                },
                Outcome::Reached { version, headers, latency_ms, .. } => final(self).record(
                    task.peer@,
                ) matches Some(n) && n@ == reached(
                    task@,
                    version,
                    hash_at(header_views(headers@), cfg.locator@, cfg.chain_ref_height),
                    classify(version.user_agent@, lower_text(version.user_agent@)),
                    assess(lower_text(version.user_agent@), lowered_rules(cfg.rules@)),
                    latency_ms,
                    first_seen@,
                    last_seen@,
                ),
            },
            outcome_taken(*old(self), *final(self), *cfg, *task, *outcome),
            r.clearnet == (final(self).clearnet@.len() > old(self).clearnet@.len() || final(
                self).over()),
            r.onion == (final(self).onion@.len() > old(self).onion@.len() || final(self).over()),
            old(self).no_repeats() ==> final(self).no_repeats(),
            forall|p: PeerView| old(self).done(p) ==> #[trigger] final(self).done(p),
            cfg.max_depth > 0 && old(self).no_deeper(cfg.max_depth) ==> final(self).no_deeper(
                cfg.max_depth,
            ),
            old(self).filed() && dialable(task.peer@) ==> final(self).filed(),
    {
        let ghost k = followed(*outcome, cfg.max_depth, task.depth, self.onion_enabled);
        let ghost f = fresh(k, self.seen@.dom());
        let ghost depth = (task.depth + 1) as u32;
        let ghost before = *self;
        let (clearnet, onion) = match outcome {
            Outcome::Skipped => (Vec::new(), Vec::new()),
            Outcome::Failed => {
                self.record_failure(task);
                (Vec::new(), Vec::new())
            },
            Outcome::Reached { version, discovered, headers, latency_ms } => self.record_success(
                cfg,
                task,
                version,
                discovered,
                headers,
                *latency_ms,
                first_seen,
                last_seen,
            ),
        };
        assert(tasks(clearnet@) == tasks_at(f, false, depth));
        assert(tasks(onion@) == tasks_at(f, true, depth));
        assert(edge_views(self.edges@) == edge_views(before.edges@) + new_edges(
            peer_text(task.peer@),
            k,
            cfg.edges_per_node,
        ));
        assert(self.seen@.dom() =~= before.seen@.dom().union(keys_of_peers(k)));
        let ghost more = (clearnet@, onion@);
        let w = self.finish_task(clearnet, onion);
        proof {
            assert(tasks(self.clearnet@) =~= tasks(before.clearnet@) + tasks(more.0));
            assert(tasks(self.onion@) =~= tasks(before.onion@) + tasks(more.1));
            lemma_queue_grows(before, *self, k, task.depth, cfg.max_depth);
        }
        w
    }
}

/// Queuing the peers that were not seen before repeats none of those that were.
proof fn lemma_queue_grows(
    before: Crawl,
    after: Crawl,
    k: Seq<PeerView>,
    depth: u32,
    max_depth: u32,
)
    requires
        before.wf(),
        k.len() > 0 ==> has_budget(max_depth, depth),
        depth < u32::MAX || fresh(k, before.seen@.dom()).len() == 0,
        after.seen@.dom() == before.seen@.dom().union(keys_of_peers(k)),
        tasks(after.clearnet@) == tasks(before.clearnet@) + tasks_at(
            fresh(k, before.seen@.dom()),
            false,
            (depth + 1) as u32,
        ),
        tasks(after.onion@) == tasks(before.onion@) + tasks_at(
            fresh(k, before.seen@.dom()),
            true,
            (depth + 1) as u32,
        ),
    ensures
        before.no_repeats() ==> after.no_repeats(),
        forall|p: PeerView| before.done(p) ==> #[trigger] after.done(p),
        max_depth > 0 && before.no_deeper(max_depth) ==> after.no_deeper(max_depth),
{
    let f = fresh(k, before.seen@.dom());
    let d = (depth + 1) as u32;
    let c = tasks_at(f, false, d);
    let o = tasks_at(f, true, d);
    law_queued_once(k, before.seen@.dom());
    lemma_tasks_at(f, false, d);
    lemma_tasks_at(f, true, d);
    lemma_queued(before);
    lemma_stacked(tasks(before.clearnet@), c);
    lemma_stacked(tasks(before.onion@), o);
    assert forall|p: PeerView| before.has_seen(p) implies !#[trigger] f.contains(p) by {
        if f.contains(p) {
            let i = choose|i: int| 0 <= i < f.len() && f[i] == p;
            assert(!before.seen@.dom().contains(peer_key(f[i])));
        }
    }
    assert forall|p: PeerView| holds(tasks(before.clearnet@), p) implies !#[trigger] holds(
        c,
        p,
    ) by {}
    assert forall|p: PeerView| holds(tasks(before.onion@), p) implies !#[trigger] holds(o, p) by {}
    assert forall|p: PeerView| before.done(p) implies #[trigger] after.done(p) by {
        assert(!f.contains(p));
        assert(after.seen@.dom().contains(peer_key(p)));
    }
    if max_depth > 0 && before.no_deeper(max_depth) {
        if k.len() == 0 {
            assert(f.len() == 0);
        }
        assert(within(c, max_depth));
        assert(within(o, max_depth));
    }
}

/// Nothing is queued that was seen before.
pub proof fn law_queued_once(k: Seq<PeerView>, seen: Set<Seq<char>>)
    ensures
        forall|i: int|
            0 <= i < fresh(k, seen).len() ==> !seen.contains(peer_key(#[trigger] fresh(k, seen)[i])),
        forall|i: int, j: int|
            0 <= i < j < fresh(k, seen).len() ==> #[trigger] fresh(k, seen)[i] != #[trigger] fresh(
                k,
                seen,
            )[j],
        forall|p: PeerView| fresh(k, seen).contains(p) ==> k.contains(p),
        forall|p: PeerView|
            k.contains(p) && !seen.contains(#[trigger] peer_key(p)) ==> fresh(k, seen).contains(p),
    decreases k.len(),
{
    if k.len() > 0 {
        let d = k.drop_last();
        let f = fresh(d, seen);
        let g = fresh(k, seen);
        law_queued_once(d, seen);
        assert forall|p: PeerView| g.contains(p) implies k.contains(p) by {
            let i = choose|i: int| 0 <= i < g.len() && g[i] == p;
            if i < f.len() {
                assert(f[i] == p);
                assert(fresh(d, seen).contains(p));
                assert(d.contains(p));
                let j = choose|j: int| 0 <= j < d.len() && d[j] == p;
                assert(k[j] == p);
            } else {
                assert(k[k.len() - 1] == p);
            }
        }
        assert forall|p: PeerView|
            k.contains(p) && !seen.contains(#[trigger] peer_key(p)) implies g.contains(p) by {
            let i = choose|i: int| 0 <= i < k.len() && k[i] == p;
            if i < d.len() {
                assert(d[i] == p);
                assert(d.contains(p));
            }
            if d.contains(p) {
                assert(f.contains(p));
                let j = choose|j: int| 0 <= j < f.len() && f[j] == p;
                assert(g[j] == p);
            } else {
                assert(g[g.len() - 1] == p);
            }
        }
        assert forall|i: int, j: int| 0 <= i < j < g.len() implies #[trigger] g[i]
            != #[trigger] g[j] by {
            if j < f.len() {
                assert(f[i] != f[j]);
            } else {
                assert(f[i] == g[i]);
                assert(f.contains(g[i]));
            }
        }
        assert forall|i: int| 0 <= i < g.len() implies !seen.contains(
            peer_key(#[trigger] g[i]),
        ) by {
            if i < f.len() {
                assert(f[i] == g[i]);
            }
        }
    }
}

// ---- stopping and resuming ----------------------------------------------------------------

/// The frontier of a stored crawl.
pub open spec fn frontier_views(v: Seq<(String, u32)>) -> Seq<(Seq<char>, u32)> {
    v.map_values(|t: (String, u32)| (t.0@, t.1))
}

/// The tasks without the own node's placeholder.
pub open spec fn without_own(t: Seq<(PeerView, u32)>) -> Seq<(PeerView, u32)>
    decreases t.len(),
{
    if t.len() == 0 {
        Seq::empty()
    } else {
        let r = without_own(t.drop_last());
        if peer_text(t.last().0) == own_placeholder() {
            r
        } else {
            r.push(t.last())
        }
    }
}

/// Tasks as text.
pub open spec fn task_texts(t: Seq<(PeerView, u32)>) -> Seq<(Seq<char>, u32)> {
    t.map_values(|x: (PeerView, u32)| (peer_text(x.0), x.1))
}

/// The records without the own node's placeholder.
pub open spec fn records_without_own(n: Seq<NodeInfo>) -> Seq<NodeInfo>
    decreases n.len(),
{
    if n.len() == 0 {
        Seq::empty()
    } else {
        let r = records_without_own(n.drop_last());
        if n.last().addr@ == own_placeholder() {
            r
        } else {
            r.push(n.last())
        }
    }
}

/// The records of `m` in the order of `keys`.
pub open spec fn listed(keys: Seq<Seq<char>>, m: Map<Seq<char>, NodeInfo>) -> Seq<NodeInfo> {
    keys.map_values(|k: Seq<char>| m[k])
}

/// The tasks of one kind that a stored frontier writes down.
pub open spec fn restored_tasks(
    f: Seq<(Seq<char>, u32)>,
    port: u16,
    onion_enabled: bool,
    onion: bool,
) -> Seq<(PeerView, u32)>
    decreases f.len(),
{
    if f.len() == 0 {
        Seq::empty()
    } else {
        let r = restored_tasks(f.drop_last(), port, onion_enabled, onion);
        match peer_of(f.last().0, port) {
            Some(p) => if (p is Onion) == onion && (onion_enabled || p is Clearnet) {
                r.push((p, f.last().1))
            } else {
                r
            },
            None => r,
        }
    }
}

/// The keys of the peers in a stored frontier that can be dialled.
pub open spec fn restored_keys(
    f: Seq<(Seq<char>, u32)>,
    port: u16,
    onion_enabled: bool,
) -> Set<Seq<char>>
    decreases f.len(),
{
    if f.len() == 0 {
        Set::empty()
    } else {
        let r = restored_keys(f.drop_last(), port, onion_enabled);
        match peer_of(f.last().0, port) {
            Some(p) => if onion_enabled || p is Clearnet {
                r.insert(peer_key(p))
            } else {
                r
            },
            None => r,
        }
    }
}

/// The records that a stored crawl adds to `m`, each under the peer that its address names; of
/// two for one peer the later one counts.
pub open spec fn restored_records(
    n: Seq<NodeInfo>,
    port: u16,
    m: Map<Seq<char>, NodeInfo>,
) -> Map<Seq<char>, NodeInfo>
    decreases n.len(),
{
    if n.len() == 0 {
        m
    } else {
        let r = restored_records(n.drop_last(), port, m);
        match peer_of(n.last().addr@, port) {
            Some(p) => r.insert(peer_key(p), n.last()),
            None => r,
        }
    }
}

impl Crawl {
    /// Every record lies under the peer that its address names.
    pub open spec fn filed(self) -> bool {
        forall|k: Seq<char>| #[trigger] self.nodes@.contains_key(k) ==> is_filed(k, self.nodes@[k])
    }

    /// Goes on from a stored crawl: its records and edges are taken over and its frontier is
    /// queued again, onion peers only where they can be dialled.
    pub fn restore(&mut self, st: CrawlState, default_port: u16)
        requires
            old(self).wf(),
        ensures
            final(self).wf(),
            final(self).active == old(self).active,
            final(self).onion_enabled == old(self).onion_enabled,
            final(self).edges@ == old(self).edges@ + st.edges@,
            final(self).nodes@ == restored_records(st.nodes@, default_port, old(self).nodes@),
            final(self).seen@.dom() == old(self).seen@.dom().union(
                restored_records(
                    st.nodes@,
                    default_port,
                    Map::<Seq<char>, NodeInfo>::empty(),
                ).dom(),
            ).union(
                restored_keys(
                    frontier_views(st.frontier@),
                    default_port,
                    old(self).onion_enabled,
                ),
            ),
            tasks(final(self).clearnet@) == tasks(old(self).clearnet@) + restored_tasks(
                frontier_views(st.frontier@),
                default_port,
                old(self).onion_enabled,
                false,
            ),
            tasks(final(self).onion@) == tasks(old(self).onion@) + restored_tasks(
                frontier_views(st.frontier@),
                default_port,
                old(self).onion_enabled,
                true,
            ),
    {
        let ghost seen0 = self.seen@.dom();
        let ghost nodes0 = self.nodes@;
        let ghost none = Map::<Seq<char>, NodeInfo>::empty();
        let ghost on = self.onion_enabled;
        let mut i: usize = 0;
        proof {
            assert(st.nodes@.take(0) =~= Seq::<NodeInfo>::empty());
            assert(seen0.union(none.dom()) =~= seen0);
        }
        while i < st.nodes.len()
            invariant
                i <= st.nodes@.len(),
                self.wf(),
                self.active == old(self).active,
                self.onion_enabled == old(self).onion_enabled,
                self.edges == old(self).edges,
                self.clearnet == old(self).clearnet,
                self.onion == old(self).onion,
                seen0 == old(self).seen@.dom(),
                nodes0 == old(self).nodes@,
                none == Map::<Seq<char>, NodeInfo>::empty(),
                self.nodes@ == restored_records(st.nodes@.take(i as int), default_port, nodes0),
                self.seen@.dom() == seen0.union(
                    restored_records(st.nodes@.take(i as int), default_port, none).dom(),
                ),
            decreases st.nodes@.len() - i,
        {
            let n = &st.nodes[i];
            proof {
                assert(st.nodes@.take(i + 1).drop_last() == st.nodes@.take(i as int));
                assert(st.nodes@.take(i + 1).last() == *n);
            }
            if let Some(p) = Peer::parse(n.addr.as_str(), default_port) {
                let key = key_of(&p);
                let ghost was = restored_records(st.nodes@.take(i as int), default_port, none);
                self.seen.insert(key.clone(), ());
                self.nodes.insert(key, n.clone());
                assert(self.seen@.dom() =~= seen0.union(was.insert(peer_key(p@), *n).dom()));
            }
            i = i + 1;
        }
        assert(st.nodes@.take(st.nodes@.len() as int) == st.nodes@);
        let ghost seen1 = self.seen@.dom();
        let ghost f = frontier_views(st.frontier@);
        let mut j: usize = 0;
        proof {
            assert(f.take(0) =~= Seq::<(Seq<char>, u32)>::empty());
            assert(seen1.union(Set::empty()) =~= seen1);
            assert(tasks(self.clearnet@) + Seq::<(PeerView, u32)>::empty() =~= tasks(
                self.clearnet@,
            ));
            assert(tasks(self.onion@) + Seq::<(PeerView, u32)>::empty() =~= tasks(self.onion@));
        }
        while j < st.frontier.len()
            invariant
                j <= st.frontier@.len(),
                f == frontier_views(st.frontier@),
                on == old(self).onion_enabled,
                self.wf(),
                self.active == old(self).active,
                self.onion_enabled == old(self).onion_enabled,
                self.edges == old(self).edges,
                self.nodes@ == restored_records(st.nodes@, default_port, nodes0),
                self.seen@.dom() == seen1.union(restored_keys(f.take(j as int), default_port, on)),
                tasks(self.clearnet@) == tasks(old(self).clearnet@) + restored_tasks(
                    f.take(j as int),
                    default_port,
                    on,
                    false,
                ),
                tasks(self.onion@) == tasks(old(self).onion@) + restored_tasks(
                    f.take(j as int),
                    default_port,
                    on,
                    true,
                ),
            decreases st.frontier@.len() - j,
        {
            let depth: u32 = st.frontier[j].1;
            let ghost t = f.take(j as int);
            let ghost u = f.take(j + 1);
            proof {
                assert(u.drop_last() == t);
                assert(u.last() == f[j as int]);
            }
            if let Some(p) = Peer::parse(st.frontier[j].0.as_str(), default_port) {
                if !p.is_onion() || self.onion_enabled {
                    let ghost keys = restored_keys(t, default_port, on);
                    self.seen.insert(key_of(&p), ());
                    assert(self.seen@.dom() =~= seen1.union(keys.insert(peer_key(p@))));
                    let one = Task { peer: p, depth };
                    if one.peer.is_onion() {
                        proof {
                            lemma_tasks_push(self.onion@, one);
                            assert((tasks(old(self).onion@) + restored_tasks(
                                t,
                                default_port,
                                on,
                                true,
                            )).push(one@) =~= tasks(old(self).onion@) + restored_tasks(
                                t,
                                default_port,
                                on,
                                true,
                            ).push(one@));
                        }
                        self.onion.push(one);
                    } else {
                        proof {
                            lemma_tasks_push(self.clearnet@, one);
                            assert((tasks(old(self).clearnet@) + restored_tasks(
                                t,
                                default_port,
                                on,
                                false,
                            )).push(one@) =~= tasks(old(self).clearnet@) + restored_tasks(
                                t,
                                default_port,
                                on,
                                false,
                            ).push(one@));
                        }
                        self.clearnet.push(one);
                    }
                }
            }
            j = j + 1;
        }
        assert(f.take(f.len() as int) == f);
        let mut more: Vec<Edge> = st.edges;
        self.edges.append(&mut more);
    }

    /// What to store of the crawl: everything but the own node's placeholder.
    pub fn to_state(&self) -> (r: CrawlState)
        ensures
            frontier_views(r.frontier@) == task_texts(
                without_own(tasks(self.clearnet@) + tasks(self.onion@)),
            ),
            r.nodes@ == records_without_own(listed(self.nodes.keys(), self.nodes@)),
            r.edges@ == self.edges@,
    {
        let mut frontier: Vec<(String, u32)> = Vec::new();
        let ghost all = tasks(self.clearnet@) + tasks(self.onion@);
        let n: usize = self.clearnet.len();
        let mut i: usize = 0;
        proof {
            assert(all.take(0) =~= Seq::<(PeerView, u32)>::empty());
            assert(frontier_views(frontier@) =~= task_texts(without_own(all.take(0))));
        }
        while i < n
            invariant
                i <= n,
                n == self.clearnet@.len(),
                all == tasks(self.clearnet@) + tasks(self.onion@),
                frontier_views(frontier@) == task_texts(without_own(all.take(i as int))),
            decreases n - i,
        {
            assert(all[i as int] == self.clearnet@[i as int]@);
            put_task(&mut frontier, &self.clearnet[i], Ghost(all), Ghost(i as int));
            i = i + 1;
        }
        let mut j: usize = 0;
        while j < self.onion.len()
            invariant
                j <= self.onion@.len(),
                n == self.clearnet@.len(),
                all == tasks(self.clearnet@) + tasks(self.onion@),
                frontier_views(frontier@) == task_texts(without_own(all.take(n + j))),
            decreases self.onion@.len() - j,
        {
            assert(all[n + j] == self.onion@[j as int]@);
            put_task(&mut frontier, &self.onion[j], Ghost(all), Ghost(n + j));
            j = j + 1;
        }
        assert(all.take(all.len() as int) == all);
        let list = self.node_list();
        let mut nodes: Vec<NodeInfo> = Vec::new();
        let mut k: usize = 0;
        assert(list@.take(0) =~= Seq::<NodeInfo>::empty());
        while k < list.len()
            invariant
                k <= list@.len(),
                nodes@ == records_without_own(list@.take(k as int)),
            decreases list@.len() - k,
        {
            proof {
                assert(list@.take(k + 1).drop_last() == list@.take(k as int));
                assert(list@.take(k + 1).last() == list@[k as int]);
            }
            if !same_text(list[k].addr.as_str(), "127.0.0.1:0") {
                nodes.push(list[k].clone());
            }
            k = k + 1;
        }
        assert(list@.take(list@.len() as int) == list@);
        CrawlState { frontier, nodes, edges: self.edge_list() }
    }

    /// The records, in the order of their keys.
    pub fn node_list(&self) -> (r: Vec<NodeInfo>)
        ensures
            r@ == listed(self.nodes.keys(), self.nodes@),
            r@.len() == self.nodes@.dom().len(),
    {
        let n = self.nodes.len();
        let mut out: Vec<NodeInfo> = Vec::new();
        let mut i: usize = 0;
        while i < n
            invariant
                i <= n,
                n == self.nodes.keys().len(),
                out@.len() == i,
                forall|j: int|
                    0 <= j < i ==> #[trigger] out@[j] == listed(self.nodes.keys(), self.nodes@)[j],
            decreases n - i,
        {
            out.push(self.nodes.value_at(i).clone());
            i = i + 1;
        }
        assert(out@ =~= listed(self.nodes.keys(), self.nodes@));
        out
    }

    /// The edges, in the order they were found.
    pub fn edge_list(&self) -> (r: Vec<Edge>)
        ensures
            r@ == self.edges@,
    {
        let mut out: Vec<Edge> = Vec::new();
        let mut i: usize = 0;
        while i < self.edges.len()
            invariant
                i <= self.edges@.len(),
                out@ == self.edges@.take(i as int),
            decreases self.edges@.len() - i,
        {
            out.push(self.edges[i].clone());
            i = i + 1;
            assert(self.edges@.take(i as int) == self.edges@.take(i - 1).push(self.edges@[i - 1]));
        }
        assert(self.edges@.take(self.edges@.len() as int) == self.edges@);
        out
    }

    /// What the crawl has found.
    pub fn into_result(self) -> (r: CrawlResult)
        ensures
            r.nodes@ == listed(self.nodes.keys(), self.nodes@),
            r.edges@ == self.edges@,
    {
        let nodes = self.node_list();
        CrawlResult { nodes, edges: self.edges }
    }

    /// How far the crawl has come.
    pub fn progress(&self) -> (r: Progress)
        ensures
            r.probed == self.nodes@.dom().len(),
            r.reachable == crate::node::count(
                listed(self.nodes.keys(), self.nodes@),
                |n: NodeInfo| n.online,
            ),
            r.onion == crate::node::count(
                self.nodes.keys(),
                |k: Seq<char>| k.len() > 0 && k[0] == 'o',
            ),
            r.clearnet_queued == self.clearnet@.len(),
            r.onion_queued == self.onion@.len(),
    {
        let n = self.nodes.len();
        let ghost keys = self.nodes.keys();
        let ghost list = listed(keys, self.nodes@);
        let ghost on = |n: NodeInfo| n.online;
        let ghost tor = |k: Seq<char>| k.len() > 0 && k[0] == 'o';
        let mut reachable: usize = 0;
        let mut onion: usize = 0;
        let mut i: usize = 0;
        assert(list.take(0) =~= Seq::<NodeInfo>::empty());
        assert(keys.take(0) =~= Seq::<Seq<char>>::empty());
        while i < n
            invariant
                i <= n,
                n == keys.len(),
                keys == self.nodes.keys(),
                list == listed(keys, self.nodes@),
                on == (|n: NodeInfo| n.online),
                tor == (|k: Seq<char>| k.len() > 0 && k[0] == 'o'),
                reachable == crate::node::count(list.take(i as int), on),
                onion == crate::node::count(keys.take(i as int), tor),
                reachable <= i,
                onion <= i,
            decreases n - i,
        {
            proof {
                crate::node::lemma_count_take(list, on, i as int);
                crate::node::lemma_count_take(keys, tor, i as int);
            }
            let rec = self.nodes.value_at(i);
            if rec.online {
                reachable = reachable + 1;
            }
            let key = crate::text::chars_of(self.nodes.key_at(i).as_str());
            if key.len() > 0 && key[0] == 'o' {
                onion = onion + 1;
            }
            i = i + 1;
        }
        assert(list.take(list.len() as int) == list);
        assert(keys.take(keys.len() as int) == keys);
        Progress {
            probed: n,
            reachable,
            onion,
            clearnet_queued: self.clearnet.len(),
            onion_queued: self.onion.len(),
        }
    }
}

/// Adds a task to a stored frontier, unless it is the own node's placeholder.
fn put_task(
    frontier: &mut Vec<(String, u32)>,
    task: &Task,
    Ghost(all): Ghost<Seq<(PeerView, u32)>>,
    Ghost(i): Ghost<int>,
)
    requires
        0 <= i < all.len(),
        all[i] == task@,
        frontier_views(old(frontier)@) == task_texts(without_own(all.take(i))),
    ensures
        frontier_views(final(frontier)@) == task_texts(without_own(all.take(i + 1))),
{
    proof {
        assert(all.take(i + 1).drop_last() == all.take(i));
        assert(all.take(i + 1).last() == all[i]);
    }
    let text = task.peer.to_string();
    if !same_text(text.as_str(), "127.0.0.1:0") {
        let one: (String, u32) = (text, task.depth);
        proof {
            assert(frontier_views(frontier@.push(one)) =~= frontier_views(frontier@).push(
                (one.0@, one.1),
            ));
            assert(task_texts(without_own(all.take(i)).push(all[i])) =~= task_texts(
                without_own(all.take(i)),
            ).push((peer_text(all[i].0), all[i].1)));
        }
        frontier.push(one);
    }
}

/// The record `n` lies under the key of the peer that its address names.
pub open spec fn is_filed(k: Seq<char>, n: NodeInfo) -> bool {
    exists|p: PeerView| dialable(p) && #[trigger] peer_key(p) == k && n.addr@ == peer_text(p)
}

/// Restoring the frontier that was stored gives both stacks back as they were, but for the own
/// node's placeholder.
pub proof fn law_frontier_resumes(
    clearnet: Seq<(PeerView, u32)>,
    onion: Seq<(PeerView, u32)>,
    port: u16,
    onion_enabled: bool,
)
    requires
        forall|i: int| 0 <= i < clearnet.len() ==> (#[trigger] clearnet[i]).0 is Clearnet,
        forall|i: int|
            0 <= i < onion.len() ==> (#[trigger] onion[i]).0 is Onion && dialable(onion[i].0),
        onion.len() > 0 ==> onion_enabled,
    ensures
        ({
            let f = task_texts(without_own(clearnet + onion));
            &&& restored_tasks(f, port, onion_enabled, false) == without_own(clearnet)
            &&& restored_tasks(f, port, onion_enabled, true) == without_own(onion)
        }),
    decreases clearnet.len() + onion.len(),
{
    let all = clearnet + onion;
    if onion.len() > 0 {
        let d = onion.drop_last();
        assert(all.drop_last() == clearnet + d);
        assert(all.last() == onion.last());
        law_frontier_resumes(clearnet, d, port, onion_enabled);
        lemma_one_resumes(all, port, onion_enabled);
    } else if clearnet.len() > 0 {
        let d = clearnet.drop_last();
        assert(all.drop_last() == d + onion);
        assert(all.last() == clearnet.last());
        law_frontier_resumes(d, onion, port, onion_enabled);
        lemma_one_resumes(all, port, onion_enabled);
    } else {
        assert(all =~= Seq::<(PeerView, u32)>::empty());
        assert(task_texts(without_own(all)) =~= Seq::<(Seq<char>, u32)>::empty());
    }
}

/// One more task of the stored frontier is restored on its stack.
proof fn lemma_one_resumes(all: Seq<(PeerView, u32)>, port: u16, onion_enabled: bool)
    requires
        all.len() > 0,
        dialable(all.last().0),
        all.last().0 is Onion ==> onion_enabled,
    ensures
        ({
            let f = task_texts(without_own(all));
            let g = task_texts(without_own(all.drop_last()));
            let p = all.last();
            let own = peer_text(p.0) == own_placeholder();
            forall|kind: bool| #[trigger]
                restored_tasks(f, port, onion_enabled, kind) == (if own || (p.0 is Onion) != kind {
                    restored_tasks(g, port, onion_enabled, kind)
                } else {
                    restored_tasks(g, port, onion_enabled, kind).push(p)
                })
        }),
{
    let p = all.last();
    let w = without_own(all.drop_last());
    law_peer_text_read_back(p.0, port);
    if peer_text(p.0) != own_placeholder() {
        let f = task_texts(without_own(all));
        assert(f =~= task_texts(w).push((peer_text(p.0), p.1)));
        assert(f.drop_last() =~= task_texts(w));
        assert(f.last() == (peer_text(p.0), p.1));
    }
}

/// One more stored record is restored under its peer.
proof fn lemma_one_record_resumes(list: Seq<NodeInfo>, p: PeerView, port: u16)
    requires
        list.len() > 0,
        dialable(p),
        list.last().addr@ == peer_text(p),
    ensures
        ({
            let none = Map::<Seq<char>, NodeInfo>::empty();
            let r = restored_records(records_without_own(list), port, none);
            let q = restored_records(records_without_own(list.drop_last()), port, none);
            r == (if list.last().addr@ == own_placeholder() {
                q
            } else {
                q.insert(peer_key(p), list.last())
            })
        }),
{
    let n = list.last();
    let rest = records_without_own(list.drop_last());
    law_peer_text_read_back(p, port);
    if n.addr@ != own_placeholder() {
        let kept = records_without_own(list);
        assert(kept == rest.push(n));
        assert(kept.drop_last() == rest);
        assert(kept.last() == n);
    }
}

/// Without the last of ascending keys the others are left.
proof fn lemma_other_keys(keys: Seq<Seq<char>>, x: Seq<char>)
    requires
        crate::text::ascending(keys),
        keys.len() > 0,
    ensures
        crate::text::ascending(keys.drop_last()),
        keys.drop_last().contains(x) <==> keys.contains(x) && x != keys.last(),
{
    let d = keys.drop_last();
    assert forall|i: int, j: int| 0 <= i < j < d.len() implies #[trigger] crate::text::lex_less(
        d[i],
        d[j],
    ) by {
        assert(crate::text::lex_less(keys[i], keys[j]));
    }
    if keys.contains(x) && x != keys.last() {
        let i = choose|i: int| 0 <= i < keys.len() && keys[i] == x;
        assert(d[i] == x);
    }
    if d.contains(x) {
        let i = choose|i: int| 0 <= i < d.len() && d[i] == x;
        assert(keys[i] == x);
        assert(crate::text::lex_less(keys[i], keys[keys.len() - 1]));
        crate::text::lemma_lex_irreflexive(x);
    }
}

/// Leaving out the own node's placeholder repeats nothing.
proof fn lemma_without_own(t: Seq<(PeerView, u32)>)
    ensures
        distinct(t) ==> distinct(without_own(t)),
        forall|p: PeerView| #[trigger] holds(without_own(t), p) ==> holds(t, p),
    decreases t.len(),
{
    if t.len() > 0 {
        let d = t.drop_last();
        lemma_without_own(d);
        lemma_pushed(d, t.last());
        lemma_pushed(without_own(d), t.last());
        assert(t =~= d.push(t.last()));
        if distinct(t) {
            assert forall|i: int, j: int| 0 <= i < j < d.len() implies (#[trigger] d[i]).0 != (
            #[trigger] d[j]).0 by {
                assert(t[i].0 != t[j].0);
            }
            if holds(d, t.last().0) {
                let i = choose|i: int| 0 <= i < d.len() && (#[trigger] d[i]).0 == t.last().0;
                assert(t[i].0 != t[t.len() - 1].0);
            }
        }
    }
}

/// A crawl in which no peer is queued twice goes on as one after it was stored.
pub proof fn law_no_repeats_after_resuming(
    clearnet: Seq<(PeerView, u32)>,
    onion: Seq<(PeerView, u32)>,
    port: u16,
    onion_enabled: bool,
)
    requires
        forall|i: int| 0 <= i < clearnet.len() ==> (#[trigger] clearnet[i]).0 is Clearnet,
        forall|i: int|
            0 <= i < onion.len() ==> (#[trigger] onion[i]).0 is Onion && dialable(onion[i].0),
        onion.len() > 0 ==> onion_enabled,
        distinct(clearnet),
        distinct(onion),
    ensures
        ({
            let f = task_texts(without_own(clearnet + onion));
            &&& distinct(restored_tasks(f, port, onion_enabled, false))
            &&& distinct(restored_tasks(f, port, onion_enabled, true))
        }),
{
    law_frontier_resumes(clearnet, onion, port, onion_enabled);
    lemma_without_own(clearnet);
    lemma_without_own(onion);
}

/// Restoring the records that were stored gives every record back under its peer, but for the
/// own node's placeholder.
pub proof fn law_records_resume(
    keys: Seq<Seq<char>>,
    m: Map<Seq<char>, NodeInfo>,
    port: u16,
)
    requires
        crate::text::ascending(keys),
        forall|i: int|
            0 <= i < keys.len() ==> m.contains_key(#[trigger] keys[i]) && is_filed(
                keys[i],
                m[keys[i]],
            ),
    ensures
        ({
            let r = restored_records(
                records_without_own(listed(keys, m)),
                port,
                Map::<Seq<char>, NodeInfo>::empty(),
            );
            &&& forall|k: Seq<char>| #[trigger]
                r.contains_key(k) <==> keys.contains(k) && m[k].addr@ != own_placeholder()
            &&& forall|k: Seq<char>| #[trigger] r.contains_key(k) ==> r[k] == m[k]
        }),
    decreases keys.len(),
{
    let list = listed(keys, m);
    let none = Map::<Seq<char>, NodeInfo>::empty();
    if keys.len() == 0 {
        assert(list =~= Seq::<NodeInfo>::empty());
    } else {
        let d = keys.drop_last();
        let k = keys.last();
        let n = m[k];
        lemma_other_keys(keys, k);
        assert forall|i: int| 0 <= i < d.len() implies m.contains_key(#[trigger] d[i]) && is_filed(
            d[i],
            m[d[i]],
        ) by {
            assert(keys[i] == d[i]);
        }
        law_records_resume(d, m, port);
        assert(listed(d, m) =~= list.drop_last());
        assert(list.last() == n);
        assert(is_filed(keys[keys.len() - 1], n));
        let p = choose|p: PeerView| dialable(p) && #[trigger] peer_key(p) == k && n.addr@
            == peer_text(p);
        lemma_one_record_resumes(list, p, port);
        let r = restored_records(records_without_own(list), port, none);
        let q = restored_records(records_without_own(list.drop_last()), port, none);
        assert(keys[keys.len() - 1] == k);
        assert forall|x: Seq<char>| #[trigger] r.contains_key(x) <==> keys.contains(x)
            && m[x].addr@ != own_placeholder() by {
            lemma_other_keys(keys, x);
            assert(q.contains_key(x) <==> d.contains(x) && m[x].addr@ != own_placeholder());
        }
        assert forall|x: Seq<char>| #[trigger] r.contains_key(x) implies r[x] == m[x] by {
            lemma_other_keys(keys, x);
            assert(q.contains_key(x) ==> q[x] == m[x]);
        }
    }
}

/// Without a proxy no onion peer is followed.
pub proof fn law_no_onions_without_proxy(d: Seq<PeerView>, i: int)
    requires
        0 <= i < kept(d, false).len(),
    ensures
        kept(d, false)[i] is Clearnet,
    decreases d.len(),
{
    if d.len() > 0 && i < kept(d.drop_last(), false).len() {
        law_no_onions_without_proxy(d.drop_last(), i);
    }
}

/// The peers that can be dialled are the clearnet ones, and the onion ones where those are on.
proof fn lemma_kept(d: Seq<PeerView>, on: bool, p: PeerView)
    ensures
        kept(d, on).contains(p) <==> d.contains(p) && (on || p is Clearnet),
        kept(d, on).len() <= d.len(),
    decreases d.len(),
{
    if d.len() > 0 {
        let r = d.drop_last();
        let k = kept(r, on);
        lemma_kept(r, on, p);
        if r.contains(p) {
            let i = choose|i: int| 0 <= i < r.len() && r[i] == p;
            assert(d[i] == p);
        }
        if d.contains(p) && p != d.last() {
            let i = choose|i: int| 0 <= i < d.len() && d[i] == p;
            assert(r[i] == p);
        }
        if p == d.last() {
            assert(d[d.len() - 1] == p);
        }
        if on || d.last() is Clearnet {
            let u = k.push(d.last());
            if k.contains(p) {
                let i = choose|i: int| 0 <= i < k.len() && k[i] == p;
                assert(u[i] == p);
            }
            if u.contains(p) && p != d.last() {
                let i = choose|i: int| 0 <= i < u.len() && u[i] == p;
                assert(k[i] == p);
            }
            assert(u[k.len() as int] == d.last());
        }
    }
}

/// A task for each of the peers of one kind, at one depth.
proof fn lemma_task_at(f: Seq<PeerView>, onion: bool, depth: u32, t: (PeerView, u32))
    ensures
        tasks_at(f, onion, depth).contains(t) <==> f.contains(t.0) && (t.0 is Onion) == onion && t.1
            == depth,
    decreases f.len(),
{
    if f.len() > 0 {
        let d = f.drop_last();
        let r = tasks_at(d, onion, depth);
        lemma_task_at(d, onion, depth, t);
        if d.contains(t.0) {
            let i = choose|i: int| 0 <= i < d.len() && d[i] == t.0;
            assert(f[i] == t.0);
        }
        if f.contains(t.0) && t.0 != f.last() {
            let i = choose|i: int| 0 <= i < f.len() && f[i] == t.0;
            assert(d[i] == t.0);
        }
        if t.0 == f.last() {
            assert(f[f.len() - 1] == t.0);
        }
        if (f.last() is Onion) == onion {
            let u = r.push((f.last(), depth));
            if r.contains(t) {
                let i = choose|i: int| 0 <= i < r.len() && r[i] == t;
                assert(u[i] == t);
            }
            if u.contains(t) && t != (f.last(), depth) {
                let i = choose|i: int| 0 <= i < u.len() && u[i] == t;
                assert(r[i] == t);
            }
            assert(u[r.len() as int] == (f.last(), depth));
        }
    }
}

/// Every peer that a reached peer tells of is followed, where it can be dialled and the crawl may
/// go deeper, which it always may where no limit is set: it counts as seen, and where it was not
/// seen before it waits on the stack of its kind, one step deeper than the peer that told of it.
/// Where edges are not limited, the edge to it is recorded.
pub proof fn law_gossip_is_followed(
    before: Crawl,
    after: Crawl,
    cfg: CrawlConfig,
    task: Task,
    outcome: Outcome,
    discovered: Seq<Peer>,
    i: int,
)
    requires
        outcome_taken(before, after, cfg, task, outcome),
        outcome matches Outcome::Reached { discovered: d, .. } && d@ == discovered,
        0 <= i < discovered.len(),
        cfg.max_depth == 0 || task.depth < cfg.max_depth,
        before.onion_enabled || discovered[i]@ is Clearnet,
    ensures
        after.seen@.contains_key(peer_key(discovered[i]@)),
        !before.seen@.contains_key(peer_key(discovered[i]@)) && discovered[i]@ is Clearnet
            ==> exists|j: int|
            before.clearnet@.len() <= j < after.clearnet@.len() && (
            #[trigger] after.clearnet@[j]).peer@ == discovered[i]@ && after.clearnet@[j].depth == (
            task.depth + 1) as u32,
        !before.seen@.contains_key(peer_key(discovered[i]@)) && discovered[i]@ is Onion
            ==> exists|j: int|
            before.onion@.len() <= j < after.onion@.len() && (#[trigger] after.onion@[j]).peer@
                == discovered[i]@ && after.onion@[j].depth == (task.depth + 1) as u32,
        cfg.edges_per_node == 0 ==> exists|j: int|
            before.edges@.len() <= j < after.edges@.len() && (#[trigger] after.edges@[j]).from@
                == peer_text(task.peer@) && after.edges@[j].to@ == peer_text(discovered[i]@),
{
    let d = peer_views(discovered);
    let p = discovered[i]@;
    let k = kept(d, before.onion_enabled);
    let f = fresh(k, before.seen@.dom());
    let depth = (task.depth + 1) as u32;
    assert(d[i] == p);
    lemma_kept(d, before.onion_enabled, p);
    assert(k.contains(p));
    assert(tasks(after.clearnet@).len() == after.clearnet@.len());
    assert(tasks(before.clearnet@).len() == before.clearnet@.len());
    assert(tasks(after.onion@).len() == after.onion@.len());
    assert(tasks(before.onion@).len() == before.onion@.len());
    assert(edge_views(after.edges@).len() == after.edges@.len());
    assert(edge_views(before.edges@).len() == before.edges@.len());
    lemma_keys_of_peers(k, p);
    assert(after.seen@.dom().contains(peer_key(p)));
    law_queued_once(k, before.seen@.dom());
    if !before.seen@.contains_key(peer_key(p)) {
        assert(f.contains(p));
        lemma_task_at(f, false, depth, (p, depth));
        lemma_task_at(f, true, depth, (p, depth));
        if p is Clearnet {
            let c = tasks_at(f, false, depth);
            let x = choose|x: int| 0 <= x < c.len() && c[x] == (p, depth);
            let j = before.clearnet@.len() + x;
            assert(tasks(after.clearnet@)[j] == c[x]);
            assert(after.clearnet@[j]@ == (p, depth));
        } else {
            let c = tasks_at(f, true, depth);
            let x = choose|x: int| 0 <= x < c.len() && c[x] == (p, depth);
            let j = before.onion@.len() + x;
            assert(tasks(after.onion@)[j] == c[x]);
            assert(after.onion@[j]@ == (p, depth));
        }
    }
    if cfg.edges_per_node == 0 {
        let x = choose|x: int| 0 <= x < k.len() && k[x] == p;
        let e = new_edges(peer_text(task.peer@), k, 0);
        let j = before.edges@.len() + x;
        assert(edge_views(after.edges@)[j] == e[x]);
        assert(after.edges@[j]@ == e[x]);
    }
}

/// Nothing else is followed: what is new on a stack is a peer of its kind that a reached peer told
/// of, that can be dialled and was not seen before, one step deeper, where the crawl may go deeper;
/// what was on the stacks stays in its place. New edges go from the reached peer to peers that it
/// told of, as many as the limit allows.
pub proof fn law_only_gossip_is_followed(
    before: Crawl,
    after: Crawl,
    cfg: CrawlConfig,
    task: Task,
    outcome: Outcome,
    discovered: Seq<Peer>,
)
    requires
        outcome_taken(before, after, cfg, task, outcome),
        match outcome {
            Outcome::Reached { discovered: d, .. } => d@ == discovered,
            _ => discovered.len() == 0,
        },
    ensures
        before.clearnet@.len() <= after.clearnet@.len(),
        before.onion@.len() <= after.onion@.len(),
        before.edges@.len() <= after.edges@.len(),
        forall|j: int|
            0 <= j < before.clearnet@.len() ==> (#[trigger] after.clearnet@[j])@
                == before.clearnet@[j]@,
        forall|j: int|
            0 <= j < before.onion@.len() ==> (#[trigger] after.onion@[j])@ == before.onion@[j]@,
        forall|j: int|
            0 <= j < before.edges@.len() ==> (#[trigger] after.edges@[j])@ == before.edges@[j]@,
        forall|j: int|
            before.clearnet@.len() <= j < after.clearnet@.len() ==> {
                let x = #[trigger] after.clearnet@[j];
                &&& x.peer@ is Clearnet
                &&& x.depth == (task.depth + 1) as u32
                &&& !before.seen@.contains_key(peer_key(x.peer@))
                &&& exists|i: int| 0 <= i < discovered.len() && (#[trigger] discovered[i])@ == x.peer@
            },
        forall|j: int|
            before.onion@.len() <= j < after.onion@.len() ==> {
                let x = #[trigger] after.onion@[j];
                &&& before.onion_enabled
                &&& x.peer@ is Onion
                &&& x.depth == (task.depth + 1) as u32
                &&& !before.seen@.contains_key(peer_key(x.peer@))
                &&& exists|i: int| 0 <= i < discovered.len() && (#[trigger] discovered[i])@ == x.peer@
            },
        forall|j: int|
            before.edges@.len() <= j < after.edges@.len() ==> {
                let e = #[trigger] after.edges@[j];
                &&& e.from@ == peer_text(task.peer@)
                &&& exists|i: int|
                    0 <= i < discovered.len() && e.to@ == peer_text((#[trigger] discovered[i])@)
            },
        cfg.edges_per_node > 0 ==> after.edges@.len() - before.edges@.len() <= cfg.edges_per_node,
        after.edges@.len() - before.edges@.len() <= discovered.len(),
        before.onion_enabled && (cfg.max_depth == 0 || task.depth < cfg.max_depth) ==> after.edges@.len()
            - before.edges@.len() == (if cfg.edges_per_node == 0 || discovered.len()
            < cfg.edges_per_node {
            discovered.len() as int
        } else {
            cfg.edges_per_node as int
        }),
        cfg.max_depth > 0 && task.depth >= cfg.max_depth ==> after.clearnet@.len()
            == before.clearnet@.len() && after.onion@.len() == before.onion@.len()
            && after.edges@.len() == before.edges@.len(),
{
    let d = peer_views(discovered);
    let on = before.onion_enabled;
    let k = followed(outcome, cfg.max_depth, task.depth, on);
    let f = fresh(k, before.seen@.dom());
    let depth = (task.depth + 1) as u32;
    let c = tasks_at(f, false, depth);
    let o = tasks_at(f, true, depth);
    let e = new_edges(peer_text(task.peer@), k, cfg.edges_per_node);
    law_queued_once(k, before.seen@.dom());
    assert forall|p: PeerView| #[trigger] k.contains(p) implies d.contains(p) && (on || p is Clearnet)
        by {
        lemma_kept(d, on, p);
    }
    lemma_kept(d, on, arbitrary());
    if on {
        lemma_kept_all(d);
    }
    assert forall|x: (PeerView, u32)| #[trigger] c.contains(x) || o.contains(x) implies x.1 == depth
        && f.contains(x.0) by {
        lemma_task_at(f, false, depth, x);
        lemma_task_at(f, true, depth, x);
    }
    assert(tasks(after.clearnet@).len() == after.clearnet@.len());
    assert(tasks(before.clearnet@).len() == before.clearnet@.len());
    assert(tasks(after.onion@).len() == after.onion@.len());
    assert(tasks(before.onion@).len() == before.onion@.len());
    assert(edge_views(after.edges@).len() == after.edges@.len());
    assert(edge_views(before.edges@).len() == before.edges@.len());
    assert forall|j: int| 0 <= j < before.clearnet@.len() implies (#[trigger] after.clearnet@[j])@
        == before.clearnet@[j]@ by {
        assert(tasks(after.clearnet@)[j] == tasks(before.clearnet@)[j]);
    }
    assert forall|j: int| 0 <= j < before.onion@.len() implies (#[trigger] after.onion@[j])@
        == before.onion@[j]@ by {
        assert(tasks(after.onion@)[j] == tasks(before.onion@)[j]);
    }
    assert forall|j: int| 0 <= j < before.edges@.len() implies (#[trigger] after.edges@[j])@
        == before.edges@[j]@ by {
        assert(edge_views(after.edges@)[j] == edge_views(before.edges@)[j]);
    }
    assert forall|j: int| before.clearnet@.len() <= j < after.clearnet@.len() implies {
        let x = #[trigger] after.clearnet@[j];
        &&& x.peer@ is Clearnet
        &&& x.depth == depth
        &&& !before.seen@.contains_key(peer_key(x.peer@))
        &&& exists|i: int| 0 <= i < discovered.len() && (#[trigger] discovered[i])@ == x.peer@
    } by {
        let x = after.clearnet@[j];
        let y = j - before.clearnet@.len();
        assert(tasks(after.clearnet@)[j] == c[y]);
        lemma_task_at(f, false, depth, c[y]);
        assert(c.contains(c[y]));
        assert(x@ == c[y]);
        assert(f.contains(x.peer@) && k.contains(x.peer@));
        let z = choose|z: int| 0 <= z < f.len() && f[z] == x.peer@;
        assert(!before.seen@.dom().contains(peer_key(f[z])));
        let i = choose|i: int| 0 <= i < d.len() && d[i] == x.peer@;
        assert(discovered[i]@ == x.peer@);
    }
    assert forall|j: int| before.onion@.len() <= j < after.onion@.len() implies {
        let x = #[trigger] after.onion@[j];
        &&& on
        &&& x.peer@ is Onion
        &&& x.depth == depth
        &&& !before.seen@.contains_key(peer_key(x.peer@))
        &&& exists|i: int| 0 <= i < discovered.len() && (#[trigger] discovered[i])@ == x.peer@
    } by {
        let x = after.onion@[j];
        let y = j - before.onion@.len();
        assert(tasks(after.onion@)[j] == o[y]);
        lemma_task_at(f, true, depth, o[y]);
        assert(o.contains(o[y]));
        assert(x@ == o[y]);
        assert(f.contains(x.peer@) && k.contains(x.peer@));
        let z = choose|z: int| 0 <= z < f.len() && f[z] == x.peer@;
        assert(!before.seen@.dom().contains(peer_key(f[z])));
        let i = choose|i: int| 0 <= i < d.len() && d[i] == x.peer@;
        assert(discovered[i]@ == x.peer@);
    }
    assert forall|j: int| before.edges@.len() <= j < after.edges@.len() implies {
        let x = #[trigger] after.edges@[j];
        &&& x.from@ == peer_text(task.peer@)
        &&& exists|i: int|
            0 <= i < discovered.len() && x.to@ == peer_text((#[trigger] discovered[i])@)
    } by {
        let x = after.edges@[j];
        let y = j - before.edges@.len();
        assert(edge_views(after.edges@)[j] == e[y]);
        assert(x@ == e[y]);
        assert(k.contains(k[y]));
        let i = choose|i: int| 0 <= i < d.len() && d[i] == k[y];
        assert(discovered[i]@ == k[y]);
    }
    if cfg.max_depth > 0 && task.depth >= cfg.max_depth {
        assert(k.len() == 0);
        assert(f.len() == 0);
    }
}

/// With onion peers on, every peer can be dialled.
proof fn lemma_kept_all(d: Seq<PeerView>)
    ensures
        kept(d, true) == d,
    decreases d.len(),
{
    if d.len() > 0 {
        lemma_kept_all(d.drop_last());
        assert(d.drop_last().push(d.last()) =~= d);
    } else {
        assert(d =~= Seq::<PeerView>::empty());
    }
}

/// The record of a reached peer says what the peer said of itself, and that it is online.
pub proof fn law_reached_peer_is_recorded(
    task: (PeerView, u32),
    ver: PeerVersion,
    chain_hash: Seq<char>,
    named: (Seq<char>, Seq<char>),
    stance: Bip110Stance,
    latency_ms: Option<u32>,
    first_seen: Seq<char>,
    last_seen: Seq<char>,
    n: NodeView,
)
    requires
        n == reached(task, ver, chain_hash, named, stance, latency_ms, first_seen, last_seen),
    ensures
        n.handshaked && n.online,
        n.addr == peer_text(task.0) && n.depth == task.1,
        n.user_agent == ver.user_agent@ && n.services == ver.services,
        n.protocol_version == ver.protocol_version && n.start_height == ver.start_height,
        n.chain_hash == chain_hash && n.latency_ms == latency_ms,
        (n.implementation, n.version) == named && n.bip110 == stance,
        n.first_seen == first_seen && n.last_seen == last_seen,
{
}

/// A peer that was never reached is recorded as offline and unreachable, with an unknown stance,
/// and never takes the place of an earlier record.
pub proof fn law_unreachable_peer_is_recorded(task: (PeerView, u32))
    ensures
        !unreachable(task).handshaked && !unreachable(task).online,
        unreachable(task).addr == peer_text(task.0) && unreachable(task).depth == task.1,
        unreachable(task).implementation == "Unreachable"@,
        unreachable(task).bip110 == Bip110Stance::Unknown,
        unreachable(task).latency_ms.is_none() && unreachable(task).chain_hash.len() == 0,
        unreachable(task).user_agent.len() == 0 && unreachable(task).version.len() == 0,
{
}

/// The first cause that is an I/O error decides what kind of failure it was.
pub proof fn law_first_io(causes: Seq<Option<IoErrorKind>>, i: int)
    requires
        0 <= i <= causes.len(),
        forall|j: int| 0 <= j < i ==> (#[trigger] causes[j]).is_none(),
        i < causes.len() ==> causes[i].is_some(),
    ensures
        i < causes.len() ==> first_io(causes) == causes[i],
        i == causes.len() ==> first_io(causes).is_none(),
    decreases i,
{
    if i > 0 {
        let r = causes.skip(1);
        assert(causes[0].is_none());
        assert forall|j: int| 0 <= j < i - 1 implies (#[trigger] r[j]).is_none() by {
            assert(r[j] == causes[j + 1]);
        }
        law_first_io(r, i - 1);
    }
}

/// The key of a peer is the letter of its kind and its text.
pub proof fn law_peer_keys(p: PeerView)
    ensures
        p is Clearnet ==> peer_key(p) == seq!['c'] + peer_text(p),
        p is Onion ==> peer_key(p) == seq!['o'] + peer_text(p),
        own_placeholder() == "127.0.0.1:0"@,
{
    reveal_strlit("c");
    reveal_strlit("o");
    assert("c"@ =~= seq!['c']);
    assert("o"@ =~= seq!['o']);
}

/// The keys of those peers in a list that can be dialled.
spec fn dialled_keys(s: Seq<Option<PeerView>>, onion_enabled: bool) -> Set<Seq<char>>
    decreases s.len(),
{
    if s.len() == 0 {
        Set::empty()
    } else {
        let r = dialled_keys(s.drop_last(), onion_enabled);
        match s.last() {
            Some(p) => if onion_enabled || p is Clearnet {
                r.insert(peer_key(p))
            } else {
                r
            },
            None => r,
        }
    }
}

proof fn lemma_key_is_dialled(s: Seq<Option<PeerView>>, onion_enabled: bool, i: int)
    requires
        0 <= i < s.len(),
        s[i] matches Some(p) && (onion_enabled || p is Clearnet),
    ensures
        dialled_keys(s, onion_enabled).contains(peer_key(s[i].unwrap())),
    decreases s.len(),
{
    if i < s.len() - 1 {
        lemma_key_is_dialled(s.drop_last(), onion_enabled, i);
    }
}

proof fn lemma_dialled_key(s: Seq<Option<PeerView>>, onion_enabled: bool, key: Seq<char>) -> (i: int)
    requires
        dialled_keys(s, onion_enabled).contains(key),
    ensures
        0 <= i < s.len(),
        s[i] matches Some(p) && peer_key(p) == key && (p is Onion ==> onion_enabled),
    decreases s.len(),
{
    if dialled_keys(s.drop_last(), onion_enabled).contains(key) {
        lemma_dialled_key(s.drop_last(), onion_enabled, key)
    } else {
        s.len() - 1
    }
}

/// The peers that a stored frontier names.
pub open spec fn frontier_peers(f: Seq<(Seq<char>, u32)>, port: u16) -> Seq<Option<PeerView>> {
    f.map_values(|t: (Seq<char>, u32)| peer_of(t.0, port))
}

proof fn lemma_restored_keys(f: Seq<(Seq<char>, u32)>, port: u16, onion_enabled: bool)
    ensures
        restored_keys(f, port, onion_enabled) == dialled_keys(
            frontier_peers(f, port),
            onion_enabled,
        ),
    decreases f.len(),
{
    if f.len() > 0 {
        lemma_restored_keys(f.drop_last(), port, onion_enabled);
        assert(frontier_peers(f, port).drop_last() =~= frontier_peers(f.drop_last(), port));
    }
}

/// The peers of a stored frontier that can be dialled count as seen, and no others do for its sake.
pub proof fn law_restored_frontier_is_seen(
    f: Seq<(Seq<char>, u32)>,
    port: u16,
    onion_enabled: bool,
    p: PeerView,
)
    ensures
        frontier_peers(f, port).contains(Some(p)) && (p is Clearnet || onion_enabled)
            ==> restored_keys(f, port, onion_enabled).contains(peer_key(p)),
        p is Onion && !onion_enabled ==> !restored_keys(f, port, onion_enabled).contains(
            peer_key(p),
        ),
        restored_keys(f, port, onion_enabled).contains(peer_key(p)) ==> frontier_peers(
            f,
            port,
        ).contains(Some(p)),
{
    let s = frontier_peers(f, port);
    lemma_restored_keys(f, port, onion_enabled);
    if s.contains(Some(p)) && (p is Clearnet || onion_enabled) {
        let i = choose|i: int| 0 <= i < s.len() && s[i] == Some(p);
        lemma_key_is_dialled(s, onion_enabled, i);
    }
    if restored_keys(f, port, onion_enabled).contains(peer_key(p)) {
        let i = lemma_dialled_key(s, onion_enabled, peer_key(p));
        law_peer_key_is_unique(s[i].unwrap(), p);
    }
}

} // verus!
