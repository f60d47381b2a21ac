//! What the database holds and how it changes: rows of nodes that accumulate, and what is read
//! out of them for the report, the table of nodes and the history. Rows come from the database
//! and go back to it; that is the application's.
use vstd::prelude::*;

use crate::crawler::edge_views;
use crate::geo::GeoInfo;
use crate::node::{
    aggregated, assess, assess_bip110, bands_from, count, lemma_count_bound, live_latencies,
    lower_text, Aggregates, Bip110Rule, Bip110Stance, Edge, NodeInfo, NodeView, SignalStats,
};
use crate::order::{
    arranges, law_first_class_survives, law_sorting_is_unique, law_sorting_keeps_values,
    sort_by_keys, stably_sorted, Down, Duplicate,
};
use crate::report::{OwnNode, ReportData};
use crate::strmap::{found, StrMap};
use crate::text::{
    ascending, chars_of, copy_text, joined, lemma_lex_asymmetric, lex_less, part, same_text,
};
use crate::time::{iso_secs_ago, iso_text, law_stamps_order, secs_before, YEAR_10000};

verus! {

// ---- rows of nodes ------------------------------------------------------------------------

/// A row of the table of nodes.
#[derive(Debug)]
pub struct StoredNode {
    pub addr: String,
    pub depth: u32,
    pub protocol_version: i32,
    pub user_agent: String,
    pub services: u64,
    pub start_height: i32,
    pub handshaked: bool,
    pub implementation: String,
    pub version: String,
    pub bip110: String,
    pub first_seen: String,
    pub last_seen: String,
    pub times_seen: u32,
    pub online: bool,
    pub lat: Option<u64>,
    pub lon: Option<u64>,
    pub country: Option<String>,
    pub country_code: Option<String>,
    pub city: Option<String>,
}

/// A row, with its texts as sequences of characters.
#[verifier::ext_equal]
pub struct StoredView {
    pub addr: Seq<char>,
    pub depth: u32,
    pub protocol_version: i32,
    pub user_agent: Seq<char>,
    pub services: u64,
    pub start_height: i32,
    pub handshaked: bool,
    pub implementation: Seq<char>,
    pub version: Seq<char>,
    pub bip110: Seq<char>,
    pub first_seen: Seq<char>,
    pub last_seen: Seq<char>,
    pub times_seen: u32,
    pub online: bool,
    pub lat: Option<u64>,
    pub lon: Option<u64>,
    pub country: Option<Seq<char>>,
    pub country_code: Option<Seq<char>>,
    pub city: Option<Seq<char>>,
}

/// An optional text as a sequence of characters.
pub open spec fn opt_text(s: Option<String>) -> Option<Seq<char>> {
    match s {
        Some(t) => Some(t@),
        None => None,
    }
}

impl View for StoredNode {
    type V = StoredView;

    open spec fn view(&self) -> StoredView {
        StoredView {
            addr: self.addr@,
            depth: self.depth,
            protocol_version: self.protocol_version,
            user_agent: self.user_agent@,
            services: self.services,
            start_height: self.start_height,
            handshaked: self.handshaked,
            implementation: self.implementation@,
            version: self.version@,
            bip110: self.bip110@,
            first_seen: self.first_seen@,
            last_seen: self.last_seen@,
            times_seen: self.times_seen,
            online: self.online,
            lat: self.lat,
            lon: self.lon,
            country: opt_text(self.country),
            country_code: opt_text(self.country_code),
            city: opt_text(self.city),
        }
    }
}

impl Clone for StoredNode {
    fn clone(&self) -> (r: Self)
        ensures
            r == *self,
    {
        StoredNode {
            addr: self.addr.clone(),
            depth: self.depth,
            protocol_version: self.protocol_version,
            user_agent: self.user_agent.clone(),
            services: self.services,
            start_height: self.start_height,
            handshaked: self.handshaked,
            implementation: self.implementation.clone(),
            version: self.version.clone(),
            bip110: self.bip110.clone(),
            first_seen: self.first_seen.clone(),
            last_seen: self.last_seen.clone(),
            times_seen: self.times_seen,
            online: self.online,
            lat: self.lat,
            lon: self.lon,
            country: copy_text(&self.country),
            country_code: copy_text(&self.country_code),
            city: copy_text(&self.city),
        }
    }
}

impl Duplicate for StoredNode {
    fn duplicate(&self) -> (r: Self) {
        self.clone()
    }
}

/// How a stance is stored.
pub open spec fn stance_text(s: Bip110Stance) -> Seq<char> {
    match s {
        Bip110Stance::Enforcing => "enforcing"@,
        Bip110Stance::NotEnforcing => "not_enforcing"@,
        Bip110Stance::Unknown => "unknown"@,
    }
}

/// How a stance is stored.
pub fn stance_str(s: &Bip110Stance) -> (r: &'static str)
    ensures
        r@ == stance_text(*s),
{
    match s {
        Bip110Stance::Enforcing => "enforcing",
        Bip110Stance::NotEnforcing => "not_enforcing",
        Bip110Stance::Unknown => "unknown",
    }
}

/// When a node was last confirmed, as it is stored: what the crawl says, or the time of the
/// snapshot for a node that is online and has no stamp of its own.
pub open spec fn stored_last_seen(n: NodeView, generated_at: Seq<char>) -> Seq<char> {
    if n.last_seen.len() == 0 && n.online {
        generated_at
    } else {
        n.last_seen
    }
}

/// The row that a node gives by itself.
pub open spec fn fresh_row(n: NodeView, geo: Option<GeoInfo>, generated_at: Seq<char>) -> StoredView {
    StoredView {
        addr: n.addr,
        depth: n.depth,
        protocol_version: n.protocol_version,
        user_agent: n.user_agent,
        services: n.services,
        start_height: n.start_height,
        handshaked: n.handshaked,
        implementation: n.implementation,
        version: n.version,
        bip110: stance_text(n.bip110),
        first_seen: n.first_seen,
        last_seen: stored_last_seen(n, generated_at),
        times_seen: n.times_seen,
        online: n.online,
        lat: match geo {
            Some(g) => Some(g.lat),
            None => None,
        },
        lon: match geo {
            Some(g) => Some(g.lon),
            None => None,
        },
        country: match geo {
            Some(g) => Some(g.country@),
            None => None,
        },
        country_code: match geo {
            Some(g) => Some(g.country_code@),
            None => None,
        },
        city: match geo {
            Some(g) => Some(g.city@),
            None => None,
        },
    }
}

/// The first of two that is there.
pub open spec fn or_else<T>(a: Option<T>, b: Option<T>) -> Option<T> {
    if a.is_some() {
        a
    } else {
        b
    }
}

/// The row of a node after a snapshot that holds it, given the row before. A node that was not
/// reached does not change the row of one that once was; a time of first sight that is stored stays,
/// and places are kept where the snapshot has none.
pub open spec fn upserted(
    before: Option<StoredView>,
    n: NodeView,
    geo: Option<GeoInfo>,
    generated_at: Seq<char>,
) -> StoredView {
    let new = fresh_row(n, geo, generated_at);
    match before {
        None => new,
        Some(old_row) => if n.handshaked || !old_row.handshaked {
            StoredView {
                first_seen: if old_row.first_seen.len() > 0 {
                    old_row.first_seen
                } else {
                    new.first_seen
                },
                lat: or_else(new.lat, old_row.lat),
                lon: or_else(new.lon, old_row.lon),
                country: or_else(new.country, old_row.country),
                country_code: or_else(new.country_code, old_row.country_code),
                city: or_else(new.city, old_row.city),
                ..new
            }
        } else {
            old_row
        },
    }
}

fn row_of(n: &NodeInfo, geo: Option<&GeoInfo>, generated_at: &str) -> (r: StoredNode)
    ensures
        r@ == fresh_row(
            n@,
            match geo {
                Some(g) => Some(*g),
                None => None,
            },
            generated_at@,
        ),
{
    let last_seen = if chars_of(n.last_seen.as_str()).len() == 0 && n.online {
        generated_at.to_owned()
    } else {
        n.last_seen.clone()
    };
    let (lat, lon, country, country_code, city): (
        Option<u64>,
        Option<u64>,
        Option<String>,
        Option<String>,
        Option<String>,
    ) = match geo {
        Some(g) => (
            Some(g.lat),
            Some(g.lon),
            Some(g.country.clone()),
            Some(g.country_code.clone()),
            Some(g.city.clone()),
        ),
        None => (None, None, None, None, None),
    };
    StoredNode {
        addr: n.addr.clone(),
        depth: n.depth,
        protocol_version: n.protocol_version,
        user_agent: n.user_agent.clone(),
        services: n.services,
        start_height: n.start_height,
        handshaked: n.handshaked,
        implementation: n.implementation.clone(),
        version: n.version.clone(),
        bip110: stance_str(&n.bip110).to_owned(),
        first_seen: n.first_seen.clone(),
        last_seen,
        times_seen: n.times_seen,
        online: n.online,
        lat,
        lon,
        country,
        country_code,
        city,
    }
}

/// The row of a node after a snapshot that holds it.
pub fn upsert_node(
    before: Option<&StoredNode>,
    n: &NodeInfo,
    geo: Option<&GeoInfo>,
    generated_at: &str,
) -> (r: StoredNode)
    ensures
        r@ == upserted(
            match before {
                Some(b) => Some(b@),
                None => None,
            },
            n@,
            match geo {
                Some(g) => Some(*g),
                None => None,
            },
            generated_at@,
        ),
{
    let mut new = row_of(n, geo, generated_at);
    match before {
        None => new,
        Some(b) => {
            if !(n.handshaked || !b.handshaked) {
                return b.clone();
            }
            if chars_of(b.first_seen.as_str()).len() > 0 {
                new.first_seen = b.first_seen.clone();
            }
            if new.lat.is_none() {
                new.lat = b.lat;
            }
            if new.lon.is_none() {
                new.lon = b.lon;
            }
            if new.country.is_none() {
                new.country = copy_text(&b.country);
            }
            if new.country_code.is_none() {
                new.country_code = copy_text(&b.country_code);
            }
            if new.city.is_none() {
                new.city = copy_text(&b.city);
            }
            new
        },
    }
}

/// The table of nodes, one row for each address.
pub struct NodeTable {
    pub rows: StrMap<StoredNode>,
}

/// Rows by their views.
pub open spec fn row_views(m: Map<Seq<char>, StoredNode>) -> Map<Seq<char>, StoredView> {
    m.map_values(|r: StoredNode| r@)
}

/// The table after the nodes of a snapshot were written one by one.
pub open spec fn written(
    m: Map<Seq<char>, StoredView>,
    nodes: Seq<NodeInfo>,
    geo: Map<Seq<char>, GeoInfo>,
    generated_at: Seq<char>,
) -> Map<Seq<char>, StoredView>
    decreases nodes.len(),
{
    if nodes.len() == 0 {
        m
    } else {
        let r = written(m, nodes.drop_last(), geo, generated_at);
        let n = nodes.last()@;
        r.insert(n.addr, upserted(found(r, n.addr), n, found(geo, n.addr), generated_at))
    }
}

impl NodeTable {
    /// An empty table.
    pub fn new() -> (r: NodeTable)
        ensures
            r.rows@ == Map::<Seq<char>, StoredNode>::empty(),
    {
        NodeTable { rows: StrMap::new() }
    }

    /// Takes a row as it is in the database.
    pub fn load(&mut self, row: StoredNode)
        ensures
            final(self).rows@ == old(self).rows@.insert(row.addr@, row),
    {
        self.rows.insert(row.addr.clone(), row);
    }

    /// Writes the nodes of a snapshot.
    pub fn write_snapshot(
        &mut self,
        generated_at: &str,
        nodes: &[NodeInfo],
        geo: &StrMap<GeoInfo>,
    )
        ensures
            row_views(final(self).rows@) == written(
                row_views(old(self).rows@),
                nodes@,
                geo@,
                generated_at@,
            ),
    {
        let ghost m0 = row_views(self.rows@);
        let mut i: usize = 0;
        assert(nodes@.take(0) =~= Seq::<NodeInfo>::empty());
        while i < nodes.len()
            invariant
                i <= nodes@.len(),
                m0 == row_views(old(self).rows@),
                row_views(self.rows@) == written(
                    m0,
                    nodes@.take(i as int),
                    geo@,
                    generated_at@,
                ),
            decreases nodes@.len() - i,
        {
            let n = &nodes[i];
            let ghost was = self.rows@;
            proof {
                assert(nodes@.take(i + 1).drop_last() == nodes@.take(i as int));
                assert(nodes@.take(i + 1).last() == *n);
            }
            let before = self.rows.get(n.addr.as_str());
            let row = upsert_node(before, n, geo.get(n.addr.as_str()), generated_at);
            let ghost v = row@;
            self.rows.insert(n.addr.clone(), row);
            assert(row_views(self.rows@) =~= row_views(was).insert(n.addr@, v));
            i = i + 1;
        }
        assert(nodes@.take(nodes@.len() as int) == nodes@);
    }

    /// All rows, in the order of their addresses.
    pub fn list(&self) -> (r: Vec<StoredNode>)
        ensures
            r@ == self.rows.keys().map_values(|k: Seq<char>| self.rows@[k]),
            ascending(self.rows.keys()),
            forall|k: Seq<char>| self.rows@.contains_key(k) <==> self.rows.keys().contains(k),
    {
        let n = self.rows.len();
        let ghost want = self.rows.keys().map_values(|k: Seq<char>| self.rows@[k]);
        let mut out: Vec<StoredNode> = Vec::new();
        let mut i: usize = 0;
        while i < n
            invariant
                i <= n,
                n == self.rows.keys().len(),
                want == self.rows.keys().map_values(|k: Seq<char>| self.rows@[k]),
                out@.len() == i,
                forall|j: int| 0 <= j < i ==> #[trigger] out@[j] == want[j],
            decreases n - i,
        {
            out.push(self.rows.value_at(i).clone());
            i = i + 1;
        }
        assert(out@ =~= want);
        out
    }
}

/// Rows are never dropped, and every node of a snapshot has one.
pub proof fn law_rows_accumulate(
    m: Map<Seq<char>, StoredView>,
    nodes: Seq<NodeInfo>,
    geo: Map<Seq<char>, GeoInfo>,
    generated_at: Seq<char>,
    addr: Seq<char>,
)
    ensures
        written(m, nodes, geo, generated_at).contains_key(addr) <==> m.contains_key(addr) || exists|
            i: int,
        |
            0 <= i < nodes.len() && (#[trigger] nodes[i]).addr@ == addr,
    decreases nodes.len(),
{
    if nodes.len() > 0 {
        let d = nodes.drop_last();
        law_rows_accumulate(m, d, geo, generated_at, addr);
        if exists|i: int| 0 <= i < d.len() && (#[trigger] d[i]).addr@ == addr {
            let i = choose|i: int| 0 <= i < d.len() && (#[trigger] d[i]).addr@ == addr;
            assert(nodes[i] == d[i]);
        }
        if exists|i: int| 0 <= i < nodes.len() && (#[trigger] nodes[i]).addr@ == addr {
            let i = choose|i: int| 0 <= i < nodes.len() && (#[trigger] nodes[i]).addr@ == addr;
            if i < d.len() {
                assert(d[i] == nodes[i]);
            }
        }
        if nodes.last().addr@ == addr {
            assert(nodes[nodes.len() - 1].addr@ == addr);
        }
    }
}

/// A snapshot in which a node was not reached leaves the row of a node that once was reached as
/// it is.
pub proof fn law_failed_probe_keeps_row(
    m: Map<Seq<char>, StoredView>,
    nodes: Seq<NodeInfo>,
    geo: Map<Seq<char>, GeoInfo>,
    generated_at: Seq<char>,
    addr: Seq<char>,
)
    requires
        m.contains_key(addr),
        m[addr].handshaked,
        forall|i: int|
            0 <= i < nodes.len() && (#[trigger] nodes[i]).addr@ == addr ==> !nodes[i].handshaked,
    ensures
        written(m, nodes, geo, generated_at).contains_key(addr),
        written(m, nodes, geo, generated_at)[addr] == m[addr],
    decreases nodes.len(),
{
    if nodes.len() > 0 {
        let d = nodes.drop_last();
        assert forall|i: int| 0 <= i < d.len() && (#[trigger] d[i]).addr@ == addr implies !d[i].handshaked by {
            assert(nodes[i] == d[i]);
        }
        law_failed_probe_keeps_row(m, d, geo, generated_at, addr);
        assert(nodes[nodes.len() - 1] == nodes.last());
    }
}

/// A node that was reached refreshes its row whatever it was before.
pub proof fn law_handshake_refreshes_row(
    before: Option<StoredView>,
    n: NodeView,
    geo: Option<GeoInfo>,
    generated_at: Seq<char>,
)
    requires
        n.handshaked,
    ensures
        ({
            let r = upserted(before, n, geo, generated_at);
            &&& r.handshaked
            &&& r.online == n.online
            &&& r.implementation == n.implementation
            &&& r.version == n.version
            &&& r.last_seen == stored_last_seen(n, generated_at)
        }),
{
}

/// When a node was first seen is written once: no snapshot changes it.
pub proof fn law_first_seen_is_kept(
    m: Map<Seq<char>, StoredView>,
    nodes: Seq<NodeInfo>,
    geo: Map<Seq<char>, GeoInfo>,
    generated_at: Seq<char>,
    addr: Seq<char>,
)
    requires
        m.contains_key(addr),
        m[addr].first_seen.len() > 0,
    ensures
        written(m, nodes, geo, generated_at).contains_key(addr),
        written(m, nodes, geo, generated_at)[addr].first_seen == m[addr].first_seen,
    decreases nodes.len(),
{
    if nodes.len() > 0 {
        law_first_seen_is_kept(m, nodes.drop_last(), geo, generated_at, addr);
    }
}

/// A place that is known stays known.
pub proof fn law_places_are_kept(
    before: StoredView,
    n: NodeView,
    geo: Option<GeoInfo>,
    generated_at: Seq<char>,
)
    ensures
        before.lat.is_some() ==> upserted(Some(before), n, geo, generated_at).lat.is_some(),
        before.lon.is_some() ==> upserted(Some(before), n, geo, generated_at).lon.is_some(),
        before.city.is_some() ==> upserted(Some(before), n, geo, generated_at).city.is_some(),
        before.country.is_some() ==> upserted(Some(before), n, geo, generated_at).country.is_some(),
        geo.is_none() ==> upserted(Some(before), n, geo, generated_at).city == before.city,
{
}

// ---- edges --------------------------------------------------------------------------------

/// The stored pairs after those of a snapshot were written one by one: a pair that is stored
/// already is passed over.
pub open spec fn with_pairs(
    stored: Seq<(Seq<char>, Seq<char>)>,
    pairs: Seq<(Seq<char>, Seq<char>)>,
) -> Seq<(Seq<char>, Seq<char>)>
    decreases pairs.len(),
{
    if pairs.len() == 0 {
        stored
    } else {
        let r = with_pairs(stored, pairs.drop_last());
        if r.contains(pairs.last()) {
            r
        } else {
            r.push(pairs.last())
        }
    }
}

/// Whether the index lists `to` under `from`.
spec fn knows(m: Map<Seq<char>, Vec<String>>, from: Seq<char>, to: Seq<char>) -> bool {
    m.contains_key(from) && m[from]@.map_values(|s: String| s@).contains(to)
}

/// The index lists these pairs and no others.
spec fn indexes(m: Map<Seq<char>, Vec<String>>, pairs: Seq<(Seq<char>, Seq<char>)>) -> bool {
    forall|from: Seq<char>, to: Seq<char>|
        #![trigger knows(m, from, to)]
        knows(m, from, to) <==> pairs.contains((from, to))
}

fn lists_text(v: &Vec<String>, t: &str) -> (r: bool)
    ensures
        r == v@.map_values(|s: String| s@).contains(t@),
{
    let ghost texts = v@.map_values(|s: String| s@);
    let mut i: usize = 0;
    while i < v.len()
        invariant
            i <= v@.len(),
            texts == v@.map_values(|s: String| s@),
            forall|j: int| 0 <= j < i ==> texts[j] != t@,
        decreases v@.len() - i,
    {
        if same_text(v[i].as_str(), t) {
            assert(texts[i as int] == t@);
            return true;
        }
        i = i + 1;
    }
    false
}

fn lists_pair(index: &StrMap<Vec<String>>, e: &Edge) -> (r: bool)
    ensures
        r == knows(index@, e.from@, e.to@),
{
    match index.get(e.from.as_str()) {
        Some(v) => lists_text(v, e.to.as_str()),
        None => false,
    }
}

fn list_pair(index: &mut StrMap<Vec<String>>, e: &Edge)
    ensures
        forall|from: Seq<char>, to: Seq<char>|
            #![trigger knows(final(index)@, from, to)]
            knows(final(index)@, from, to) <==> knows(old(index)@, from, to) || (from == e.from@
                && to == e.to@),
{
    let ghost was = index@;
    let mut v: Vec<String> = Vec::new();
    if let Some(known) = index.get(e.from.as_str()) {
        let mut i: usize = 0;
        while i < known.len()
            invariant
                i <= known@.len(),
                v@ == known@.take(i as int),
            decreases known@.len() - i,
        {
            v.push(known[i].clone());
            assert(v@ =~= known@.take(i + 1));
            i = i + 1;
        }
        assert(v@ =~= known@);
    }
    let ghost before = v@.map_values(|s: String| s@);
    v.push(e.to.clone());
    proof {
        let after = v@.map_values(|s: String| s@);
        assert(after =~= before.push(e.to@));
        assert forall|to: Seq<char>| #[trigger] after.contains(to) <==> before.contains(to) || to
            == e.to@ by {
            if before.contains(to) {
                let j = choose|j: int| 0 <= j < before.len() && before[j] == to;
                assert(after[j] == to);
            }
            if after.contains(to) && to != e.to@ {
                let j = choose|j: int| 0 <= j < after.len() && after[j] == to;
                assert(before[j] == to);
            }
            assert(after[before.len() as int] == e.to@);
        }
        if !was.contains_key(e.from@) {
            assert(before =~= Seq::<Seq<char>>::empty());
        }
    }
    index.insert(e.from.clone(), v);
}

/// What one more pair does to a list of pairs.
proof fn lemma_pairs_push(
    pairs: Seq<(Seq<char>, Seq<char>)>,
    x: (Seq<char>, Seq<char>),
    p: (Seq<char>, Seq<char>),
)
    ensures
        pairs.push(x).contains(p) <==> pairs.contains(p) || p == x,
{
    let u = pairs.push(x);
    if pairs.contains(p) {
        let i = choose|i: int| 0 <= i < pairs.len() && pairs[i] == p;
        assert(u[i] == p);
    }
    if u.contains(p) && p != x {
        let i = choose|i: int| 0 <= i < u.len() && u[i] == p;
        assert(pairs[i] == p);
    }
    assert(u[pairs.len() as int] == x);
}

/// An index with one more pair is that of the list with one more pair.
proof fn lemma_indexes_push(
    was: Map<Seq<char>, Vec<String>>,
    now: Map<Seq<char>, Vec<String>>,
    pairs: Seq<(Seq<char>, Seq<char>)>,
    x: (Seq<char>, Seq<char>),
)
    requires
        indexes(was, pairs),
        forall|from: Seq<char>, to: Seq<char>|
            #![trigger knows(now, from, to)]
            knows(now, from, to) <==> knows(was, from, to) || (from == x.0 && to == x.1),
    ensures
        indexes(now, pairs.push(x)),
{
    assert forall|from: Seq<char>, to: Seq<char>|
        #![trigger knows(now, from, to)]
        knows(now, from, to) <==> pairs.push(x).contains((from, to)) by {
        lemma_pairs_push(pairs, x, (from, to));
        assert(knows(was, from, to) <==> pairs.contains((from, to)));
    }
}

/// The stored edges after a snapshot with these: those that were stored, then those that were
/// not, each once.
pub fn merge_edges(stored: Vec<Edge>, edges: &[Edge]) -> (r: Vec<Edge>)
    ensures
        edge_views(r@) == with_pairs(edge_views(stored@), edge_views(edges@)),
        r@.len() >= stored@.len(),
        r@.take(stored@.len() as int) == stored@,
{
    let ghost had = edge_views(stored@);
    let ghost new = edge_views(edges@);
    let ghost first = stored@;
    let mut index: StrMap<Vec<String>> = StrMap::new();
    let mut i: usize = 0;
    assert(had.take(0) =~= Seq::<(Seq<char>, Seq<char>)>::empty());
    while i < stored.len()
        invariant
            i <= stored@.len(),
            had == edge_views(stored@),
            indexes(index@, had.take(i as int)),
        decreases stored@.len() - i,
    {
        let ghost was = index@;
        list_pair(&mut index, &stored[i]);
        proof {
            lemma_indexes_push(was, index@, had.take(i as int), had[i as int]);
            assert(had.take(i as int).push(had[i as int]) =~= had.take(i + 1));
        }
        i = i + 1;
    }
    assert(had.take(had.len() as int) =~= had);
    let mut out = stored;
    let mut k: usize = 0;
    assert(new.take(0) =~= Seq::<(Seq<char>, Seq<char>)>::empty());
    while k < edges.len()
        invariant
            k <= edges@.len(),
            new == edge_views(edges@),
            edge_views(out@) == with_pairs(had, new.take(k as int)),
            indexes(index@, edge_views(out@)),
            out@.len() >= first.len(),
            out@.take(first.len() as int) == first,
        decreases edges@.len() - k,
    {
        let e = &edges[k];
        let ghost so_far = edge_views(out@);
        proof {
            assert(new.take(k + 1).drop_last() =~= new.take(k as int));
            assert(new.take(k + 1).last() == e@);
        }
        if !lists_pair(&index, e) {
            let ghost was = index@;
            let ghost before = out@;
            list_pair(&mut index, e);
            out.push(e.clone());
            proof {
                lemma_indexes_push(was, index@, so_far, e@);
                assert(edge_views(out@) =~= so_far.push(e@));
                assert(out@.take(first.len() as int) =~= before.take(first.len() as int));
            }
        }
        k = k + 1;
    }
    assert(new.take(new.len() as int) =~= new);
    out
}

/// Edges are never dropped, every edge of a snapshot is stored, and none is stored twice.
pub proof fn law_edges_accumulate(
    stored: Seq<(Seq<char>, Seq<char>)>,
    pairs: Seq<(Seq<char>, Seq<char>)>,
    p: (Seq<char>, Seq<char>),
)
    ensures
        with_pairs(stored, pairs).contains(p) <==> stored.contains(p) || pairs.contains(p),
        stored.no_duplicates() ==> with_pairs(stored, pairs).no_duplicates(),
    decreases pairs.len(),
{
    if pairs.len() > 0 {
        let d = pairs.drop_last();
        let r = with_pairs(stored, d);
        law_edges_accumulate(stored, d, p);
        lemma_pairs_push(d, pairs.last(), p);
        lemma_pairs_push(r, pairs.last(), p);
        assert(d.push(pairs.last()) =~= pairs);
    }
}

// ---- freshness ----------------------------------------------------------------------------

/// A row that counts as reachable: online, and confirmed at `cutoff` or later where there is a
/// cutoff.
pub open spec fn is_fresh(cutoff: Option<Seq<char>>) -> spec_fn(StoredNode) -> bool {
    |r: StoredNode| r.online && (cutoff matches Some(c) ==> !lex_less(r.last_seen@, c))
}

/// The rows that meet `f`, in their order.
pub open spec fn selected<T>(s: Seq<T>, f: spec_fn(T) -> bool) -> Seq<T>
    decreases s.len(),
{
    if s.len() == 0 {
        Seq::empty()
    } else {
        let r = selected(s.drop_last(), f);
        if f(s.last()) {
            r.push(s.last())
        } else {
            r
        }
    }
}

/// What one more entry does to a selection.
pub proof fn lemma_selected_take<T>(s: Seq<T>, f: spec_fn(T) -> bool, i: int)
    requires
        0 <= i < s.len(),
    ensures
        selected(s.take(i + 1), f) == (if f(s[i]) {
            selected(s.take(i), f).push(s[i])
        } else {
            selected(s.take(i), f)
        }),
{
    assert(s.take(i + 1).drop_last() == s.take(i));
    assert(s.take(i + 1).last() == s[i]);
}

/// To select twice, the second time more strictly, is to select once.
pub proof fn lemma_selected_twice<T>(s: Seq<T>, f: spec_fn(T) -> bool, g: spec_fn(T) -> bool)
    requires
        forall|x: T| #[trigger] g(x) ==> f(x),
    ensures
        selected(selected(s, f), g) == selected(s, g),
    decreases s.len(),
{
    if s.len() > 0 {
        lemma_selected_twice(s.drop_last(), f, g);
        let r = selected(s.drop_last(), f);
        if f(s.last()) {
            assert(r.push(s.last()).drop_last() =~= r);
        }
    }
}

/// What is selected meets `f`.
pub proof fn lemma_selected_meets<T>(s: Seq<T>, f: spec_fn(T) -> bool, i: int)
    requires
        0 <= i < selected(s, f).len(),
    ensures
        f(selected(s, f)[i]),
    decreases s.len(),
{
    if s.len() > 0 {
        let r = selected(s.drop_last(), f);
        if i < r.len() {
            lemma_selected_meets(s.drop_last(), f, i);
        }
    }
}

/// What is selected was there before.
pub proof fn lemma_selected_from<T>(s: Seq<T>, f: spec_fn(T) -> bool, i: int)
    requires
        0 <= i < selected(s, f).len(),
    ensures
        s.contains(selected(s, f)[i]),
    decreases s.len(),
{
    if s.len() > 0 {
        let d = s.drop_last();
        if i < selected(d, f).len() {
            lemma_selected_from(d, f, i);
            let j = choose|j: int| 0 <= j < d.len() && d[j] == selected(d, f)[i];
            assert(s[j] == d[j]);
        } else {
            assert(s[s.len() - 1] == s.last());
        }
    }
}

/// No more are selected than there are.
pub proof fn lemma_selected_len<T>(s: Seq<T>, f: spec_fn(T) -> bool)
    ensures
        selected(s, f).len() <= s.len(),
    decreases s.len(),
{
    if s.len() > 0 {
        lemma_selected_len(s.drop_last(), f);
    }
}

/// The rows that count as reachable.
pub fn fresh_rows(rows: &Vec<StoredNode>, cutoff: Option<&str>) -> (r: Vec<StoredNode>)
    ensures
        r@ == selected(
            rows@,
            is_fresh(
                match cutoff {
                    Some(c) => Some(c@),
                    None => None,
                },
            ),
        ),
{
    let ghost f = is_fresh(
        match cutoff {
            Some(c) => Some(c@),
            None => None,
        },
    );
    let mut out: Vec<StoredNode> = Vec::new();
    let mut i: usize = 0;
    assert(rows@.take(0) =~= Seq::<StoredNode>::empty());
    while i < rows.len()
        invariant
            i <= rows@.len(),
            f == is_fresh(
                match cutoff {
                    Some(c) => Some(c@),
                    None => None,
                },
            ),
            out@ == selected(rows@.take(i as int), f),
        decreases rows@.len() - i,
    {
        proof {
            lemma_selected_take(rows@, f, i as int);
        }
        let recent = match cutoff {
            Some(c) => !crate::text::text_less(rows[i].last_seen.as_str(), c),
            None => true,
        };
        if rows[i].online && recent {
            out.push(rows[i].clone());
        }
        i = i + 1;
    }
    assert(rows@.take(rows@.len() as int) == rows@);
    out
}

/// The condition for reachable rows, with a cutoff.
pub fn fresh_clause_at(cutoff: &str) -> (r: String)
    ensures
        r@ == "online=1 AND last_seen >= '"@ + cutoff@ + "'"@,
{
    let a = joined("online=1 AND last_seen >= '", cutoff);
    joined(a.as_str(), "'")
}

/// The time before which a row counts as gone: so many seconds before some present time, or none
/// where the number is 0.
pub fn fresh_cutoff(max_age_secs: u64) -> (r: Option<String>)
    ensures
        match r {
            Some(c) => max_age_secs > 0 && exists|now: u64|
                c@ == iso_text(#[trigger] secs_before(now, max_age_secs)),
            None => max_age_secs == 0,
        },
{
    if max_age_secs == 0 {
        None
    } else {
        Some(iso_secs_ago(max_age_secs))
    }
}

/// The condition for reachable rows: confirmed within so many seconds, or online alone where the
/// number is 0.
pub fn fresh_clause(max_age_secs: u64) -> (r: String)
    ensures
        max_age_secs == 0 ==> r@ == "online=1"@,
        max_age_secs > 0 ==> exists|now: u64|
            r@ == "online=1 AND last_seen >= '"@ + iso_text(#[trigger] secs_before(now, max_age_secs))
                + "'"@,
{
    match fresh_cutoff(max_age_secs) {
        Some(c) => fresh_clause_at(c.as_str()),
        None => "online=1".to_owned(),
    }
}

/// The condition for rows of the table of nodes, with the values for its parameters.
pub struct NodesWhere {
    pub sql: String,
    pub args: Vec<String>,
}

/// The condition of a search for `q` as parameter `k`.
pub open spec fn search_clause(k: Seq<char>) -> Seq<char> {
    "(addr LIKE ?"@ + k + " OR implementation LIKE ?"@ + k + " OR version LIKE ?"@ + k
        + " OR country LIKE ?"@ + k + " OR city LIKE ?"@ + k + ")"@
}

/// The condition for rows that are fresh, of this implementation where one is given, and match
/// the search where there is one.
pub open spec fn nodes_condition(fresh: Seq<char>, implementation: Seq<char>, q: Seq<char>) -> Seq<
    char,
> {
    "WHERE "@ + fresh + (if implementation.len() == 0 {
        Seq::empty()
    } else {
        " AND "@ + "implementation=?1"@
    }) + (if q.len() == 0 {
        Seq::empty()
    } else {
        " AND "@ + search_clause(
            if implementation.len() == 0 {
                "1"@
            } else {
                "2"@
            },
        )
    })
}

/// The values for its parameters.
pub open spec fn nodes_args(implementation: Seq<char>, q: Seq<char>) -> Seq<Seq<char>> {
    (if implementation.len() == 0 {
        Seq::empty()
    } else {
        seq![implementation]
    }) + (if q.len() == 0 {
        Seq::empty()
    } else {
        seq!["%"@ + q + "%"@]
    })
}

/// The condition for rows of the table of nodes.
pub fn nodes_where(fresh: &str, implementation: &str, q: &str) -> (r: NodesWhere)
    ensures
        r.sql@ == nodes_condition(fresh@, implementation@, q@),
        r.args@.map_values(|s: String| s@) == nodes_args(implementation@, q@),
{
    let ghost f = |s: String| s@;
    let has_impl = chars_of(implementation).len() > 0;
    let has_q = chars_of(q).len() > 0;
    let mut sql = joined("WHERE ", fresh);
    let mut args: Vec<String> = Vec::new();
    if has_impl {
        sql.append(" AND ");
        sql.append("implementation=?1");
        args.push(implementation.to_owned());
    }
    if has_q {
        let k: &str = if has_impl {
            "2"
        } else {
            "1"
        };
        let ghost was = sql@;
        sql.append(" AND ");
        sql.append("(addr LIKE ?");
        sql.append(k);
        sql.append(" OR implementation LIKE ?");
        sql.append(k);
        sql.append(" OR version LIKE ?");
        sql.append(k);
        sql.append(" OR country LIKE ?");
        sql.append(k);
        sql.append(" OR city LIKE ?");
        sql.append(k);
        sql.append(")");
        assert(sql@ =~= was + (" AND "@ + search_clause(k@)));
        let a = joined("%", q);
        args.push(joined(a.as_str(), "%"));
    }
    assert(sql@ =~= nodes_condition(fresh@, implementation@, q@));
    assert(args@.map_values(f) =~= nodes_args(implementation@, q@));
    NodesWhere { sql, args }
}

// ---- the report ---------------------------------------------------------------------------

/// The node that a row stands for. Its stance is judged anew by its user agent; what a crawl
/// measures and the table does not keep is empty.
pub open spec fn node_of_row(r: StoredView, stance: Bip110Stance) -> NodeView {
    NodeView {
        addr: r.addr,
        depth: r.depth,
        protocol_version: r.protocol_version,
        user_agent: r.user_agent,
        services: r.services,
        start_height: r.start_height,
        chain_hash: Seq::empty(),
        handshaked: r.handshaked,
        implementation: r.implementation,
        version: r.version,
        bip110: stance,
        first_seen: r.first_seen,
        last_seen: r.last_seen,
        times_seen: r.times_seen,
        online: r.online,
        latency_ms: None,
    }
}

/// The stance of a node by its user agent alone.
pub open spec fn stance_now(user_agent: Seq<char>) -> Bip110Stance {
    assess(lower_text(user_agent), Seq::empty())
}

/// The stance of a node by its user agent alone.
pub fn current_stance(implementation: &str, user_agent: &str) -> (r: Bip110Stance)
    ensures
        r == stance_now(user_agent@),
{
    let none: [Bip110Rule; 0] = [];
    let r = assess_bip110(implementation, user_agent, &none);
    assert(crate::node::lowered_rules(none@) =~= Seq::<(Seq<char>, Bip110Stance)>::empty());
    r
}

/// The node that a row stands for, with this stance.
pub fn node_with_stance(row: &StoredNode, stance: Bip110Stance) -> (r: NodeInfo)
    ensures
        r@ == node_of_row(row@, stance),
{
    let r = NodeInfo {
        addr: row.addr.clone(),
        depth: row.depth,
        protocol_version: row.protocol_version,
        user_agent: row.user_agent.clone(),
        services: row.services,
        start_height: row.start_height,
        chain_hash: String::new(),
        handshaked: row.handshaked,
        implementation: row.implementation.clone(),
        version: row.version.clone(),
        bip110: stance,
        first_seen: row.first_seen.clone(),
        last_seen: row.last_seen.clone(),
        times_seen: row.times_seen,
        online: row.online,
        latency_ms: None,
    };
    assert(r@ =~= node_of_row(row@, stance));
    r
}

/// The node that a row stands for.
pub fn row_to_node(row: &StoredNode) -> (r: NodeInfo)
    ensures
        r@ == node_of_row(row@, stance_now(row.user_agent@)),
{
    let stance = current_stance(row.implementation.as_str(), row.user_agent.as_str());
    node_with_stance(row, stance)
}

/// The place in a row, where it has both coordinates; names that are missing are empty.
pub open spec fn place_in_row(r: StoredView) -> Option<(u64, u64, Seq<char>, Seq<char>, Seq<char>)> {
    if r.lat.is_some() && r.lon.is_some() {
        Some(
            (
                r.lat.unwrap(),
                r.lon.unwrap(),
                r.country.unwrap_or(Seq::empty()),
                r.country_code.unwrap_or(Seq::empty()),
                r.city.unwrap_or(Seq::empty()),
            ),
        )
    } else {
        None
    }
}

fn text_or_empty(s: &Option<String>) -> (r: String)
    ensures
        r@ == opt_text(*s).unwrap_or(Seq::empty()),
{
    match s {
        Some(t) => t.clone(),
        None => {
            let e = String::new();
            assert(e@ =~= Seq::<char>::empty());
            e
        },
    }
}

/// The place in a row.
pub fn row_place(row: &StoredNode) -> (r: Option<GeoInfo>)
    ensures
        match r {
            Some(g) => place_in_row(row@) == Some(crate::geo::geo_view(g)),
            None => place_in_row(row@).is_none(),
        },
{
    match (row.lat, row.lon) {
        (Some(lat), Some(lon)) => Some(
            GeoInfo {
                lat,
                lon,
                country: text_or_empty(&row.country),
                country_code: text_or_empty(&row.country_code),
                city: text_or_empty(&row.city),
            },
        ),
        _ => None,
    }
}

/// The own node comes first, then the nodes that were seen most often.
pub open spec fn shown_before() -> spec_fn(StoredNode, StoredNode) -> bool {
    |a: StoredNode, b: StoredNode|
        if (a.depth == 0) != (b.depth == 0) {
            a.depth == 0
        } else {
            a.times_seen > b.times_seen
        }
}

/// Whether `shown` are the first `max` of the rows in the order of a report, or all of them where
/// there are no more.
pub open spec fn shows(shown: Seq<StoredNode>, rows: Seq<StoredNode>, max: usize) -> bool {
    exists|all: Seq<StoredNode>| #[trigger]
        stably_sorted(all, rows, shown_before()) && shown == all.take(
            if max < rows.len() {
                max as int
            } else {
                rows.len() as int
            },
        )
}

/// The rows that a report shows, at most `max` of them.
pub fn shown_rows(rows: &Vec<StoredNode>, max: usize) -> (r: Vec<StoredNode>)
    ensures
        shows(r@, rows@, max),
{
    let mut keys: Vec<i128> = Vec::new();
    let mut i: usize = 0;
    while i < rows.len()
        invariant
            i <= rows@.len(),
            keys@.len() == i,
            forall|j: int|
                0 <= j < i ==> #[trigger] keys@[j] == (if rows@[j].depth == 0 {
                    0int
                } else {
                    0x1_0000_0000
                }) - rows@[j].times_seen,
        decreases rows@.len() - i,
    {
        let base: i128 = if rows[i].depth == 0 {
            0
        } else {
            0x1_0000_0000
        };
        keys.push(base - rows[i].times_seen as i128);
        i = i + 1;
    }
    let all = sort_by_keys(rows, &keys, Ghost(shown_before()));
    let ghost whole = all@;
    let mut out: Vec<StoredNode> = all;
    assert(whole.len() == rows@.len());
    if max < out.len() {
        out.truncate(max);
    }
    assert(out@ =~= whole.take(
        if max < rows@.len() {
            max as int
        } else {
            rows@.len() as int
        },
    ));
    out
}

/// A report that has room for the rows at depth 0 shows every one of them.
pub proof fn law_own_node_is_shown(
    shown: Seq<StoredNode>,
    rows: Seq<StoredNode>,
    max: usize,
    k: int,
)
    requires
        shows(shown, rows, max),
        rows.len() <= usize::MAX,
        count(rows, |r: StoredNode| r.depth == 0) <= max,
        0 <= k < rows.len(),
        rows[k].depth == 0,
    ensures
        shown.contains(rows[k]),
{
    let n = if max < rows.len() {
        max as int
    } else {
        rows.len() as int
    };
    let all = choose|all: Seq<StoredNode>| #[trigger]
        stably_sorted(all, rows, shown_before()) && shown == all.take(n);
    let own = |r: StoredNode| r.depth == 0;
    lemma_count_bound(rows, own);
    law_first_class_survives(all, rows, shown_before(), own, n, k);
}

/// The edges whose two ends are both among `keep`.
pub open spec fn edge_within(keep: Set<Seq<char>>) -> spec_fn(Edge) -> bool {
    |e: Edge| keep.contains(e.from@) && keep.contains(e.to@)
}

/// The addresses of nodes.
pub open spec fn addresses(nodes: Seq<NodeInfo>) -> Set<Seq<char>>
    decreases nodes.len(),
{
    if nodes.len() == 0 {
        Set::empty()
    } else {
        addresses(nodes.drop_last()).insert(nodes.last().addr@)
    }
}

fn address_set(nodes: &Vec<NodeInfo>) -> (r: StrMap<()>)
    ensures
        r@.dom() == addresses(nodes@),
{
    let mut out: StrMap<()> = StrMap::new();
    let mut i: usize = 0;
    assert(nodes@.take(0) =~= Seq::<NodeInfo>::empty());
    assert(out@.dom() =~= Set::<Seq<char>>::empty());
    while i < nodes.len()
        invariant
            i <= nodes@.len(),
            out@.dom() == addresses(nodes@.take(i as int)),
        decreases nodes@.len() - i,
    {
        proof {
            assert(nodes@.take(i + 1).drop_last() == nodes@.take(i as int));
            assert(nodes@.take(i + 1).last() == nodes@[i as int]);
        }
        let ghost was = out@.dom();
        out.insert(nodes[i].addr.clone(), ());
        assert(out@.dom() =~= was.insert(nodes@[i as int].addr@));
        i = i + 1;
    }
    assert(nodes@.take(nodes@.len() as int) == nodes@);
    out
}

/// The addresses are those of the nodes.
pub proof fn lemma_addresses(nodes: Seq<NodeInfo>, a: Seq<char>)
    ensures
        addresses(nodes).contains(a) <==> exists|i: int|
            0 <= i < nodes.len() && (#[trigger] nodes[i]).addr@ == a,
    decreases nodes.len(),
{
    if nodes.len() > 0 {
        let d = nodes.drop_last();
        lemma_addresses(d, a);
        if addresses(d).contains(a) {
            let i = choose|i: int| 0 <= i < d.len() && (#[trigger] d[i]).addr@ == a;
            assert(nodes[i] == d[i]);
        }
        if nodes.last().addr@ == a {
            assert(nodes[nodes.len() - 1].addr@ == a);
        }
        if exists|i: int| 0 <= i < nodes.len() && (#[trigger] nodes[i]).addr@ == a {
            let i = choose|i: int| 0 <= i < nodes.len() && (#[trigger] nodes[i]).addr@ == a;
            if i < d.len() {
                assert(d[i].addr@ == a);
            }
        }
    }
}

/// The edges between nodes of a list.
pub fn edges_among(edges: &Vec<Edge>, nodes: &Vec<NodeInfo>) -> (r: Vec<Edge>)
    ensures
        r@ == selected(edges@, edge_within(addresses(nodes@))),
{
    let keep = address_set(nodes);
    let ghost f = edge_within(addresses(nodes@));
    let mut out: Vec<Edge> = Vec::new();
    let mut i: usize = 0;
    assert(edges@.take(0) =~= Seq::<Edge>::empty());
    while i < edges.len()
        invariant
            i <= edges@.len(),
            keep@.dom() == addresses(nodes@),
            f == edge_within(addresses(nodes@)),
            out@ == selected(edges@.take(i as int), f),
        decreases edges@.len() - i,
    {
        proof {
            lemma_selected_take(edges@, f, i as int);
        }
        if keep.contains(edges[i].from.as_str()) && keep.contains(edges[i].to.as_str()) {
            out.push(edges[i].clone());
        }
        i = i + 1;
    }
    assert(edges@.take(edges@.len() as int) == edges@);
    out
}

/// What the database says of the report as a whole; none of it need be there.
pub struct ReportMeta {
    pub own_node: Option<OwnNode>,
    pub signalling: Option<SignalStats>,
    pub chain_split: Option<crate::node::ChainSplit>,
    pub network: Option<String>,
    pub generated_at: Option<String>,
}

/// The nodes that rows stand for.
pub fn nodes_of_rows(rows: &Vec<StoredNode>) -> (r: Vec<NodeInfo>)
    ensures
        r@.len() == rows@.len(),
        forall|i: int|
            0 <= i < rows@.len() ==> (#[trigger] r@[i])@ == node_of_row(
                rows@[i]@,
                stance_now(rows@[i].user_agent@),
            ),
{
    let mut out: Vec<NodeInfo> = Vec::new();
    let mut i: usize = 0;
    while i < rows.len()
        invariant
            i <= rows@.len(),
            out@.len() == i,
            forall|j: int|
                0 <= j < i ==> (#[trigger] out@[j])@ == node_of_row(
                    rows@[j]@,
                    stance_now(rows@[j].user_agent@),
                ),
        decreases rows@.len() - i,
    {
        out.push(row_to_node(&rows[i]));
        i = i + 1;
    }
    out
}

/// The places in rows by address; of two rows with one address the later counts.
pub open spec fn places_in_rows(rows: Seq<StoredNode>) -> Map<
    Seq<char>,
    (u64, u64, Seq<char>, Seq<char>, Seq<char>),
>
    decreases rows.len(),
{
    if rows.len() == 0 {
        Map::empty()
    } else {
        let m = places_in_rows(rows.drop_last());
        match place_in_row(rows.last()@) {
            Some(p) => m.insert(rows.last().addr@, p),
            None => m,
        }
    }
}

/// Places by their fields.
pub open spec fn geo_views(m: Map<Seq<char>, GeoInfo>) -> Map<
    Seq<char>,
    (u64, u64, Seq<char>, Seq<char>, Seq<char>),
> {
    m.map_values(|g: GeoInfo| crate::geo::geo_view(g))
}

/// The places in rows by address.
pub fn row_places(rows: &Vec<StoredNode>) -> (r: StrMap<GeoInfo>)
    ensures
        geo_views(r@) == places_in_rows(rows@),
{
    let mut out: StrMap<GeoInfo> = StrMap::new();
    let mut i: usize = 0;
    assert(rows@.take(0) =~= Seq::<StoredNode>::empty());
    assert(geo_views(out@) =~= Map::empty());
    while i < rows.len()
        invariant
            i <= rows@.len(),
            geo_views(out@) == places_in_rows(rows@.take(i as int)),
        decreases rows@.len() - i,
    {
        proof {
            assert(rows@.take(i + 1).drop_last() == rows@.take(i as int));
            assert(rows@.take(i + 1).last() == rows@[i as int]);
        }
        if let Some(g) = row_place(&rows[i]) {
            let ghost v = crate::geo::geo_view(g);
            let ghost was = out@;
            out.insert(rows[i].addr.clone(), g);
            assert(geo_views(out@) =~= geo_views(was).insert(rows@[i as int].addr@, v));
        }
        i = i + 1;
    }
    assert(rows@.take(rows@.len() as int) == rows@);
    out
}

/// The own node where the database does not name one.
pub open spec fn is_unknown_own(o: OwnNode) -> bool {
    o.addr@ == "self"@ && o.version == 0 && o.subversion@ == "(unknown)"@ && o.implementation@
        == "Unknown"@ && o.network@ == "main"@
}

/// The nodes that a report is drawn from are those of its rows.
pub open spec fn drawn_from(all: Seq<NodeInfo>, rows: Seq<StoredNode>) -> bool {
    all.len() == rows.len() && forall|i: int|
        0 <= i < rows.len() ==> (#[trigger] all[i])@ == node_of_row(
            rows[i]@,
            stance_now(rows[i].user_agent@),
        )
}

/// The report from the rows that count as reachable: figures over all of them, and at most `max`
/// nodes with the edges between them and their places.
pub fn read_report(
    rows: &Vec<StoredNode>,
    edges: &Vec<Edge>,
    max: usize,
    meta: ReportMeta,
) -> (r: ReportData)
    ensures
        r.discovered_total == rows@.len(),
        match meta.own_node {
            Some(o) => r.own_node == o,
            None => is_unknown_own(r.own_node),
        },
        r.signalling == meta.signalling,
        r.chain_split == meta.chain_split,
        match meta.network {
            Some(n) => r.network == n,
            None => r.network@ == "main"@,
        },
        match meta.generated_at {
            Some(t) => r.generated_at == t,
            None => r.generated_at@ == Seq::<char>::empty(),
        },
        exists|all: Seq<NodeInfo>|
            drawn_from(all, rows@) && #[trigger] aggregated(r.aggregates, all),
        r.aggregates.latency_buckets@ == bands_from(Seq::empty(), 0),
        r.aggregates.median_latency_ms.is_none(),
        exists|shown: Seq<StoredNode>|
            {
                &&& shows(shown, rows@, max)
                &&& #[trigger] drawn_from(r.nodes@, shown)
                &&& match r.geo {
                    Some(g) => geo_views(g@) == places_in_rows(shown) && g@.dom().len() > 0,
                    None => places_in_rows(shown) == Map::<
                        Seq<char>,
                        (u64, u64, Seq<char>, Seq<char>, Seq<char>),
                    >::empty(),
                }
            },
        r.edges@ == selected(edges@, edge_within(addresses(r.nodes@))),
        r.live,
        r.refresh_seconds == 10,
{
    let all = nodes_of_rows(rows);
    let aggregates = Aggregates::from_nodes(&all);
    proof {
        assert(drawn_from(all@, rows@));
        lemma_no_latencies(all@);
    }
    let shown = shown_rows(rows, max);
    let nodes = nodes_of_rows(&shown);
    assert(drawn_from(nodes@, shown@));
    let geo = row_places(&shown);
    let n = geo.len();
    proof {
        assert(geo_views(geo@).dom() =~= geo@.dom());
        if n == 0 {
            assert(geo@.dom() =~= Set::empty());
            assert(places_in_rows(shown@) =~= Map::empty());
        }
    }
    let among = edges_among(edges, &nodes);
    let own_node = match meta.own_node {
        Some(o) => o,
        None => OwnNode {
            addr: "self".to_owned(),
            version: 0,
            subversion: "(unknown)".to_owned(),
            implementation: "Unknown".to_owned(),
            network: "main".to_owned(),
        },
    };
    let network = match meta.network {
        Some(n) => n,
        None => "main".to_owned(),
    };
    let generated_at = match meta.generated_at {
        Some(t) => t,
        None => {
            let e = String::new();
            assert(e@ =~= Seq::<char>::empty());
            e
        },
    };
    let r = ReportData {
        generated_at,
        network,
        own_node,
        signalling: meta.signalling,
        chain_split: meta.chain_split,
        aggregates,
        discovered_total: rows.len(),
        nodes,
        edges: among,
        geo: if n == 0 {
            None
        } else {
            Some(geo)
        },
        live: true,
        refresh_seconds: 10,
    };
    assert(drawn_from(r.nodes@, shown@));
    r
}

/// Nodes without latencies give none.
proof fn lemma_no_latencies(nodes: Seq<NodeInfo>)
    requires
        forall|i: int| 0 <= i < nodes.len() ==> (#[trigger] nodes[i])@.latency_ms.is_none(),
    ensures
        live_latencies(nodes) == Seq::<u32>::empty(),
    decreases nodes.len(),
{
    if nodes.len() > 0 {
        let d = nodes.drop_last();
        assert forall|i: int| 0 <= i < d.len() implies (#[trigger] d[i])@.latency_ms.is_none() by {
            assert(d[i] == nodes[i]);
        }
        lemma_no_latencies(d);
        assert(nodes[nodes.len() - 1]@.latency_ms.is_none());
    }
}

// ---- the table of nodes -------------------------------------------------------------------

/// A row of the table of nodes as it is shown.
#[derive(Debug)]
pub struct NodeRow {
    pub addr: String,
    pub implementation: String,
    pub version: String,
    pub protocol_version: i32,
    pub depth: u32,
    pub bip110: String,
    pub online: bool,
    pub last_seen: String,
    pub city: Option<String>,
    pub country: Option<String>,
}

impl Duplicate for NodeRow {
    fn duplicate(&self) -> (r: Self) {
        NodeRow {
            addr: self.addr.clone(),
            implementation: self.implementation.clone(),
            version: self.version.clone(),
            protocol_version: self.protocol_version,
            depth: self.depth,
            bip110: self.bip110.clone(),
            online: self.online,
            last_seen: self.last_seen.clone(),
            city: copy_text(&self.city),
            country: copy_text(&self.country),
        }
    }
}

/// A stored row as it is shown, with its stance judged anew.
pub fn node_row(row: &StoredNode) -> (r: NodeRow)
    ensures
        r.addr@ == row.addr@,
        r.implementation@ == row.implementation@,
        r.version@ == row.version@,
        r.protocol_version == row.protocol_version,
        r.depth == row.depth,
        r.bip110@ == stance_text(stance_now(row.user_agent@)),
        r.online == row.online,
        r.last_seen@ == row.last_seen@,
        r.city == row.city,
        r.country == row.country,
{
    let stance = current_stance(row.implementation.as_str(), row.user_agent.as_str());
    NodeRow {
        addr: row.addr.clone(),
        implementation: row.implementation.clone(),
        version: row.version.clone(),
        protocol_version: row.protocol_version,
        depth: row.depth,
        bip110: stance_str(&stance).to_owned(),
        online: row.online,
        last_seen: row.last_seen.clone(),
        city: copy_text(&row.city),
        country: copy_text(&row.country),
    }
}

/// The columns that the table can be sorted by.
#[derive(Clone, Copy, Debug, PartialEq, Eq, Structural)]
pub enum SortColumn {
    Implementation,
    Version,
    ProtocolVersion,
    Bip110,
    Country,
    Depth,
}

/// The column of that name; the depth for any other name.
pub open spec fn sort_column(name: Seq<char>) -> SortColumn {
    if name == "implementation"@ {
        SortColumn::Implementation
    } else if name == "version"@ {
        SortColumn::Version
    } else if name == "protocol_version"@ {
        SortColumn::ProtocolVersion
    } else if name == "bip110"@ {
        SortColumn::Bip110
    } else if name == "location"@ || name == "country"@ {
        SortColumn::Country
    } else {
        SortColumn::Depth
    }
}

/// The column of that name.
pub fn sort_column_of(name: &str) -> (r: SortColumn)
    ensures
        r == sort_column(name@),
{
    if same_text(name, "implementation") {
        SortColumn::Implementation
    } else if same_text(name, "version") {
        SortColumn::Version
    } else if same_text(name, "protocol_version") {
        SortColumn::ProtocolVersion
    } else if same_text(name, "bip110") {
        SortColumn::Bip110
    } else if same_text(name, "location") || same_text(name, "country") {
        SortColumn::Country
    } else {
        SortColumn::Depth
    }
}

/// Whether one row comes before another in a column, ascending. A missing country comes first.
pub open spec fn column_less(c: SortColumn) -> spec_fn(NodeRow, NodeRow) -> bool {
    |a: NodeRow, b: NodeRow|
        match c {
            SortColumn::Implementation => lex_less(a.implementation@, b.implementation@),
            SortColumn::Version => lex_less(a.version@, b.version@),
            SortColumn::ProtocolVersion => a.protocol_version < b.protocol_version,
            SortColumn::Bip110 => lex_less(a.bip110@, b.bip110@),
            SortColumn::Country => match (opt_text(a.country), opt_text(b.country)) {
                (Some(x), Some(y)) => lex_less(x, y),
                (None, Some(_)) => true,
                _ => false,
            },
            SortColumn::Depth => a.depth < b.depth,
        }
}

/// The text of a row in a column of texts.
spec fn column_text(r: NodeRow, c: SortColumn) -> Seq<char> {
    match c {
        SortColumn::Implementation => r.implementation@,
        SortColumn::Version => r.version@,
        _ => r.bip110@,
    }
}

fn sort_rows(rows: &Vec<NodeRow>, c: SortColumn) -> (r: Vec<NodeRow>)
    ensures
        stably_sorted(r@, rows@, column_less(c)),
        r@.len() == rows@.len(),
{
    if c == SortColumn::Implementation || c == SortColumn::Version || c == SortColumn::Bip110 {
        let mut keys: Vec<Vec<char>> = Vec::new();
        let mut i: usize = 0;
        while i < rows.len()
            invariant
                i <= rows@.len(),
                keys@.len() == i,
                c == SortColumn::Implementation || c == SortColumn::Version || c
                    == SortColumn::Bip110,
                forall|j: int|
                    0 <= j < i ==> (#[trigger] keys@[j])@ == column_text(rows@[j], c),
            decreases rows@.len() - i,
        {
            let text: &str = if c == SortColumn::Implementation {
                rows[i].implementation.as_str()
            } else if c == SortColumn::Version {
                rows[i].version.as_str()
            } else {
                rows[i].bip110.as_str()
            };
            keys.push(chars_of(text));
            i = i + 1;
        }
        return sort_by_keys(rows, &keys, Ghost(column_less(c)));
    }
    if c == SortColumn::Country {
        let mut keys: Vec<Option<Vec<char>>> = Vec::new();
        let mut i: usize = 0;
        while i < rows.len()
            invariant
                i <= rows@.len(),
                keys@.len() == i,
                forall|j: int|
                    0 <= j < i ==> (match (#[trigger] keys@[j], opt_text(rows@[j].country)) {
                        (Some(k), Some(t)) => k@ == t,
                        (None, None) => true,
                        _ => false,
                    }),
            decreases rows@.len() - i,
        {
            let key: Option<Vec<char>> = match &rows[i].country {
                Some(t) => Some(chars_of(t.as_str())),
                None => None,
            };
            keys.push(key);
            i = i + 1;
        }
        return sort_by_keys(rows, &keys, Ghost(column_less(c)));
    }
    let mut keys: Vec<i128> = Vec::new();
    let mut i: usize = 0;
    while i < rows.len()
        invariant
            i <= rows@.len(),
            keys@.len() == i,
            forall|j: int|
                0 <= j < i ==> #[trigger] keys@[j] == (if c == SortColumn::ProtocolVersion {
                    rows@[j].protocol_version as int
                } else {
                    rows@[j].depth as int
                }),
        decreases rows@.len() - i,
    {
        let key: i128 = if c == SortColumn::ProtocolVersion {
            rows[i].protocol_version as i128
        } else {
            rows[i].depth as i128
        };
        keys.push(key);
        i = i + 1;
    }
    sort_by_keys(rows, &keys, Ghost(column_less(c)))
}

/// The rows with this stance; all of them where none is given.
pub open spec fn with_stance(bip: Seq<char>) -> spec_fn(NodeRow) -> bool {
    |r: NodeRow| bip.len() == 0 || r.bip110@ == bip
}

/// The part of `s` from `offset` on, at most `limit` long.
pub open spec fn page_of<T>(s: Seq<T>, offset: usize, limit: usize) -> Seq<T> {
    if offset >= s.len() {
        Seq::empty()
    } else if limit < s.len() - offset {
        s.subrange(offset as int, offset + limit)
    } else {
        s.skip(offset as int)
    }
}

/// `s`, or its reverse where the order is descending.
pub open spec fn directed<T>(s: Seq<T>, dir_desc: bool) -> Seq<T> {
    if dir_desc {
        s.reverse()
    } else {
        s
    }
}

/// `page` is the page at `offset` of the rows with this stance, sorted by this column.
pub open spec fn is_page(
    page: Seq<NodeRow>,
    rows: Seq<NodeRow>,
    bip: Seq<char>,
    sort: Seq<char>,
    dir_desc: bool,
    limit: usize,
    offset: usize,
) -> bool {
    exists|sorted: Seq<NodeRow>| #[trigger]
        stably_sorted(sorted, selected(rows, with_stance(bip)), column_less(sort_column(sort)))
            && page == page_of(directed(sorted, dir_desc), offset, limit)
}

/// One page of the table and the number of rows on all pages: the rows with the stance that is
/// asked for, sorted by a column, in reverse where the order is descending.
pub fn read_nodes(
    rows: &Vec<NodeRow>,
    bip: &str,
    sort: &str,
    dir_desc: bool,
    limit: usize,
    offset: usize,
) -> (r: (Vec<NodeRow>, usize))
    ensures
        r.1 == selected(rows@, with_stance(bip@)).len(),
        is_page(r.0@, rows@, bip@, sort@, dir_desc, limit, offset),
{
    let ghost f = with_stance(bip@);
    let all = chars_of(bip).len() == 0;
    let mut kept: Vec<NodeRow> = Vec::new();
    let mut i: usize = 0;
    assert(rows@.take(0) =~= Seq::<NodeRow>::empty());
    while i < rows.len()
        invariant
            i <= rows@.len(),
            f == with_stance(bip@),
            all == (bip@.len() == 0),
            kept@ == selected(rows@.take(i as int), f),
        decreases rows@.len() - i,
    {
        proof {
            lemma_selected_take(rows@, f, i as int);
        }
        if all || same_text(rows[i].bip110.as_str(), bip) {
            kept.push(rows[i].duplicate());
        }
        i = i + 1;
    }
    assert(rows@.take(rows@.len() as int) == rows@);
    let total = kept.len();
    let sorted = sort_rows(&kept, sort_column_of(sort));
    let ghost order = directed(sorted@, dir_desc);
    let n: usize = sorted.len();
    let mut page: Vec<NodeRow> = Vec::new();
    let mut j: usize = offset;
    let ghost whole = page_of(order, offset, limit);
    while j < n && page.len() < limit
        invariant
            n == sorted@.len(),
            order == directed(sorted@, dir_desc),
            whole == page_of(order, offset, limit),
            offset <= j,
            j <= n || j == offset,
            page@.len() == j - offset,
            page@.len() <= whole.len(),
            forall|k: int| 0 <= k < page@.len() ==> #[trigger] page@[k] == whole[k],
        decreases n - j,
    {
        let at: usize = if dir_desc {
            n - 1 - j
        } else {
            j
        };
        page.push(sorted[at].duplicate());
        j = j + 1;
    }
    assert(page@ =~= whole);
    (page, total)
}

/// Of two rows at most one comes before the other.
proof fn lemma_column_less(c: SortColumn)
    ensures
        forall|x: NodeRow, y: NodeRow| #[trigger] column_less(c)(x, y) ==> !column_less(c)(y, x),
{
    assert forall|x: NodeRow, y: NodeRow| #[trigger] column_less(c)(x, y) implies !column_less(c)(
        y,
        x,
    ) by {
        lemma_lex_asymmetric(x.implementation@, y.implementation@);
        lemma_lex_asymmetric(x.version@, y.version@);
        lemma_lex_asymmetric(x.bip110@, y.bip110@);
        if let (Some(a), Some(b)) = (opt_text(x.country), opt_text(y.country)) {
            lemma_lex_asymmetric(a, b);
        }
    }
}

/// Pages, one behind the other.
pub open spec fn all_pages<T>(pages: Seq<Seq<T>>) -> Seq<T>
    decreases pages.len(),
{
    if pages.len() == 0 {
        Seq::empty()
    } else {
        all_pages(pages.drop_last()) + pages.last()
    }
}

/// The first pages hold as many rows as they have room for.
proof fn lemma_first_pages<T>(s: Seq<T>, pages: Seq<Seq<T>>, limit: usize)
    requires
        limit >= 1,
        s.len() <= usize::MAX,
        (pages.len() - 1) * limit <= usize::MAX,
        forall|k: int|
            0 <= k < pages.len() ==> #[trigger] pages[k] == page_of(s, (k * limit) as usize, limit),
    ensures
        all_pages(pages) == s.take(
            if pages.len() * limit < s.len() {
                pages.len() * limit
            } else {
                s.len() as int
            },
        ),
    decreases pages.len(),
{
    let n = pages.len();
    if n > 0 {
        let d = pages.drop_last();
        assert(n * limit == (n - 1) * limit + limit && (n - 2) * limit == (n - 1) * limit - limit)
            by (nonlinear_arith);
        assert(0 <= (n - 1) * limit) by (nonlinear_arith)
            requires
                n > 0,
                limit >= 1,
        ;
        assert forall|k: int| 0 <= k < d.len() implies #[trigger] d[k] == page_of(
            s,
            (k * limit) as usize,
            limit,
        ) by {
            assert(d[k] == pages[k]);
        }
        lemma_first_pages(s, d, limit);
        assert(pages[n - 1] == page_of(s, ((n - 1) * limit) as usize, limit));
        let end = if n * limit < s.len() {
            n * limit
        } else {
            s.len() as int
        };
        assert(all_pages(pages) =~= s.take(end));
    } else {
        assert(s.take(0) =~= Seq::<T>::empty());
        assert(n * limit == 0) by (nonlinear_arith)
            requires
                n == 0,
        ;
    }
}

/// To turn a sequence round keeps its values.
proof fn lemma_directed_keeps_values<T>(s: Seq<T>, dir_desc: bool)
    ensures
        directed(s, dir_desc).to_multiset() == s.to_multiset(),
        directed(s, dir_desc).len() == s.len(),
    decreases s.len(),
{
    broadcast use vstd::seq_lib::group_to_multiset_ensures;

    if dir_desc && s.len() > 0 {
        let d = s.drop_last();
        lemma_directed_keeps_values(d, true);
        assert(s.reverse() =~= seq![s.last()] + d.reverse());
        assert(s =~= d + seq![s.last()]);
        vstd::seq_lib::lemma_multiset_commutative(seq![s.last()], d.reverse());
        vstd::seq_lib::lemma_multiset_commutative(d, seq![s.last()]);
        assert(s.reverse().to_multiset() =~= s.to_multiset());
    } else if dir_desc {
        assert(s.reverse() =~= s);
    }
}

/// The pages of the table, one behind the other, are the rows that were asked for in one order,
/// each row as often as it is there.
pub proof fn law_pages_hold_every_row(
    pages: Seq<Seq<NodeRow>>,
    rows: Seq<NodeRow>,
    bip: Seq<char>,
    sort: Seq<char>,
    dir_desc: bool,
    limit: usize,
)
    requires
        limit >= 1,
        rows.len() <= usize::MAX,
        (pages.len() - 1) * limit <= usize::MAX,
        forall|k: int|
            0 <= k < pages.len() ==> is_page(
                #[trigger] pages[k],
                rows,
                bip,
                sort,
                dir_desc,
                limit,
                (k * limit) as usize,
            ),
        pages.len() * limit >= selected(rows, with_stance(bip)).len(),
    ensures
        exists|sorted: Seq<NodeRow>| #[trigger]
            stably_sorted(sorted, selected(rows, with_stance(bip)), column_less(sort_column(sort)))
                && all_pages(pages) == directed(sorted, dir_desc),
        all_pages(pages).to_multiset() == selected(rows, with_stance(bip)).to_multiset(),
{
    let s = selected(rows, with_stance(bip));
    let less = column_less(sort_column(sort));
    lemma_selected_len(rows, with_stance(bip));
    lemma_column_less(sort_column(sort));
    let sorted = if pages.len() == 0 {
        assert(pages.len() * limit == 0) by (nonlinear_arith)
            requires
                pages.len() == 0,
        ;
        assert(arranges(Seq::empty(), s, s, less));
        s
    } else {
        let offset = (0 * limit) as usize;
        assert(is_page(pages[0], rows, bip, sort, dir_desc, limit, offset));
        choose|sorted: Seq<NodeRow>| #[trigger]
            stably_sorted(sorted, s, less) && pages[0] == page_of(
                directed(sorted, dir_desc),
                offset,
                limit,
            )
    };
    let whole = directed(sorted, dir_desc);
    assert forall|k: int| 0 <= k < pages.len() implies #[trigger] pages[k] == page_of(
        whole,
        (k * limit) as usize,
        limit,
    ) by {
        let other = choose|other: Seq<NodeRow>| #[trigger]
            stably_sorted(other, s, less) && pages[k] == page_of(
                directed(other, dir_desc),
                (k * limit) as usize,
                limit,
            );
        law_sorting_is_unique(sorted, other, s, less);
    }
    law_sorting_keeps_values(sorted, s, less);
    lemma_directed_keeps_values(sorted, dir_desc);
    vstd::seq_lib::to_multiset_len(sorted);
    vstd::seq_lib::to_multiset_len(s);
    assert(whole.len() == s.len());
    lemma_first_pages(whole, pages, limit);
    assert(whole.take(whole.len() as int) =~= whole);
    assert(all_pages(pages) == whole);
    assert(stably_sorted(sorted, s, less) && all_pages(pages) == directed(sorted, dir_desc));
}

/// A node that was reached when it was last tried.
pub open spec fn is_known_good() -> spec_fn(StoredNode) -> bool {
    |r: StoredNode| r.online && r.handshaked
}

/// The later confirmed comes first.
pub open spec fn later_first() -> spec_fn(StoredNode, StoredNode) -> bool {
    |a: StoredNode, b: StoredNode| lex_less(b.last_seen@, a.last_seen@)
}

/// The addresses of the nodes that were reached, the latest confirmed first, at most `limit` of
/// them.
pub fn read_known_good(rows: &Vec<StoredNode>, limit: usize) -> (r: Vec<String>)
    ensures
        exists|sorted: Seq<StoredNode>| #[trigger]
            stably_sorted(
                sorted,
                selected(rows@, is_known_good()),
                later_first(),
            ) && r@.map_values(|s: String| s@) == sorted.take(
                if limit < sorted.len() {
                    limit as int
                } else {
                    sorted.len() as int
                },
            ).map_values(|n: StoredNode| n.addr@),
{
    let ghost f = is_known_good();
    let mut good: Vec<StoredNode> = Vec::new();
    let mut i: usize = 0;
    assert(rows@.take(0) =~= Seq::<StoredNode>::empty());
    while i < rows.len()
        invariant
            i <= rows@.len(),
            f == is_known_good(),
            good@ == selected(rows@.take(i as int), f),
        decreases rows@.len() - i,
    {
        proof {
            lemma_selected_take(rows@, f, i as int);
        }
        if rows[i].online && rows[i].handshaked {
            good.push(rows[i].clone());
        }
        i = i + 1;
    }
    assert(rows@.take(rows@.len() as int) == rows@);
    let mut keys: Vec<Down<Vec<char>>> = Vec::new();
    let mut j: usize = 0;
    while j < good.len()
        invariant
            j <= good@.len(),
            keys@.len() == j,
            forall|k: int| 0 <= k < j ==> (#[trigger] keys@[k]).0@ == good@[k].last_seen@,
        decreases good@.len() - j,
    {
        keys.push(Down(chars_of(good[j].last_seen.as_str())));
        j = j + 1;
    }
    let sorted = sort_by_keys(&good, &keys, Ghost(later_first()));
    let n: usize = if limit < sorted.len() {
        limit
    } else {
        sorted.len()
    };
    let ghost want = sorted@.take(n as int).map_values(|n: StoredNode| n.addr@);
    let mut out: Vec<String> = Vec::new();
    let mut k: usize = 0;
    while k < n
        invariant
            k <= n <= sorted@.len(),
            want == sorted@.take(n as int).map_values(|n: StoredNode| n.addr@),
            out@.len() == k,
            forall|x: int| 0 <= x < k ==> (#[trigger] out@[x])@ == want[x],
        decreases n - k,
    {
        out.push(sorted[k].addr.clone());
        k = k + 1;
    }
    assert(out@.map_values(|s: String| s@) =~= want);
    out
}

/// A row with a timestamp of its own counts as reachable exactly where it is online and was
/// confirmed no longer ago than the window.
pub proof fn law_fresh_means_recently_confirmed(r: StoredNode, seen: u64, now: u64, window: u64)
    requires
        seen < YEAR_10000,
        now < YEAR_10000,
        r.last_seen@ == iso_text(seen),
    ensures
        is_fresh(Some(iso_text(secs_before(now, window))))(r) <==> r.online && seen + window >= now,
{
    law_stamps_order(seen, secs_before(now, window));
}

// ---- what rows say ------------------------------------------------------------------------

/// The row of a node that takes the place of what was stored says what the node says: a row takes
/// it where none was stored, where the node was reached, and where neither was the stored one. A
/// node that is online without a time was seen when the snapshot was made.
pub proof fn law_row_says_what_the_node_says(
    before: Option<StoredView>,
    n: NodeView,
    geo: Option<GeoInfo>,
    at: Seq<char>,
)
    requires
        n.handshaked || before.is_none() || !before.unwrap().handshaked,
    ensures
        ({
            let r = upserted(before, n, geo, at);
            &&& r.addr == n.addr && r.depth == n.depth && r.protocol_version == n.protocol_version
            &&& r.user_agent == n.user_agent && r.services == n.services
            &&& r.start_height == n.start_height && r.handshaked == n.handshaked
            &&& r.implementation == n.implementation && r.version == n.version
            &&& r.times_seen == n.times_seen && r.online == n.online
            &&& n.bip110 is Enforcing ==> r.bip110 == "enforcing"@
            &&& n.bip110 is NotEnforcing ==> r.bip110 == "not_enforcing"@
            &&& n.bip110 is Unknown ==> r.bip110 == "unknown"@
            &&& n.last_seen.len() > 0 ==> r.last_seen == n.last_seen
            &&& n.last_seen.len() == 0 && n.online ==> r.last_seen == at
            &&& n.last_seen.len() == 0 && !n.online ==> r.last_seen.len() == 0
            &&& before.is_some() && before.unwrap().first_seen.len() > 0 ==> r.first_seen
                == before.unwrap().first_seen
            &&& before.is_some() && before.unwrap().first_seen.len() == 0 ==> r.first_seen
                == n.first_seen
            &&& before.is_none() ==> r.first_seen == n.first_seen
            &&& geo matches Some(g) ==> r.lat == Some(g.lat) && r.lon == Some(g.lon) && r.country
                == Some(g.country@) && r.country_code == Some(g.country_code@) && r.city == Some(
                g.city@,
            )
            &&& geo.is_none() && before.is_none() ==> r.lat.is_none() && r.lon.is_none()
                && r.country.is_none() && r.country_code.is_none() && r.city.is_none()
            &&& geo.is_none() && before.is_some() ==> r.lat == before.unwrap().lat && r.lon
                == before.unwrap().lon && r.country == before.unwrap().country && r.country_code
                == before.unwrap().country_code && r.city == before.unwrap().city
        }),
{
}

/// A node whose address no other node of a snapshot has gets its row from what was stored of it; an
/// address that is not in the snapshot keeps its row.
pub proof fn law_written_row(
    m: Map<Seq<char>, StoredView>,
    nodes: Seq<NodeInfo>,
    geo: Map<Seq<char>, GeoInfo>,
    at: Seq<char>,
    i: int,
    addr: Seq<char>,
)
    ensures
        0 <= i < nodes.len() && nodes[i].addr@ == addr && (forall|j: int|
            0 <= j < nodes.len() && j != i ==> (#[trigger] nodes[j]).addr@ != addr) ==> written(
            m,
            nodes,
            geo,
            at,
        )[addr] == upserted(found(m, addr), nodes[i]@, found(geo, addr), at),
        (forall|j: int| 0 <= j < nodes.len() ==> (#[trigger] nodes[j]).addr@ != addr) ==> found(
            written(m, nodes, geo, at),
            addr,
        ) == found(m, addr),
    decreases nodes.len(),
{
    if nodes.len() > 0 {
        let d = nodes.drop_last();
        let k = nodes.len() - 1;
        law_written_row(m, d, geo, at, i, addr);
        assert(nodes[k] == nodes.last());
        assert forall|j: int| 0 <= j < d.len() implies #[trigger] d[j] == nodes[j] by {}
    }
}

/// Selecting keeps what meets the condition, in its order, and nothing else.
pub proof fn law_selected<T>(a: Seq<T>, b: Seq<T>, x: T, f: spec_fn(T) -> bool)
    ensures
        selected(Seq::<T>::empty(), f).len() == 0,
        f(x) ==> selected(seq![x], f) == seq![x],
        !f(x) ==> selected(seq![x], f).len() == 0,
        selected(a + b, f) == selected(a, f) + selected(b, f),
        selected(a, f).contains(x) <==> a.contains(x) && f(x),
    decreases b.len(), a.len(),
{
    reveal_with_fuel(selected, 2);
    let none = Seq::<T>::empty();
    assert(seq![x].drop_last() =~= none);
    assert(none.push(x) =~= seq![x]);
    if b.len() == 0 {
        assert(a + b =~= a);
        assert(selected(a, f) + selected(b, f) =~= selected(a, f));
        if a.len() > 0 {
            let d = a.drop_last();
            law_selected(d, none, x, f);
            let r = selected(d, f);
            if a.contains(x) && x != a.last() {
                let i = choose|i: int| 0 <= i < a.len() && a[i] == x;
                assert(d[i] == x);
            }
            if d.contains(x) {
                let i = choose|i: int| 0 <= i < d.len() && d[i] == x;
                assert(a[i] == x);
            }
            assert(a[a.len() - 1] == a.last());
            if f(a.last()) {
                let u = r.push(a.last());
                if r.contains(x) {
                    let i = choose|i: int| 0 <= i < r.len() && r[i] == x;
                    assert(u[i] == x);
                }
                if u.contains(x) && x != a.last() {
                    let i = choose|i: int| 0 <= i < u.len() && u[i] == x;
                    assert(r[i] == x);
                }
                assert(u[r.len() as int] == a.last());
            }
        }
    } else {
        law_selected(a, b.drop_last(), x, f);
        assert((a + b).drop_last() =~= a + b.drop_last());
        assert(selected(a + b, f) =~= selected(a, f) + selected(b, f));
    }
}

/// A row counts as reachable where it is online and, where there is a cutoff, was not last seen
/// before it; without a cutoff age does not matter.
pub proof fn law_fresh_rows(r: StoredNode, cutoff: Seq<char>)
    ensures
        is_fresh(None)(r) == r.online,
        is_fresh(Some(cutoff))(r) ==> r.online,
        r.online && r.last_seen@ == cutoff ==> is_fresh(Some(cutoff))(r),
        r.online && lex_less(cutoff, r.last_seen@) ==> is_fresh(Some(cutoff))(r),
        lex_less(r.last_seen@, cutoff) ==> !is_fresh(Some(cutoff))(r),
{
    lemma_lex_asymmetric(cutoff, r.last_seen@);
    crate::text::lemma_lex_irreflexive(cutoff);
}

/// A node that was written is read back with what was written of it; only its latency and its block
/// hash are not stored, and its stance is judged anew.
pub proof fn law_stored_node_reads_back(
    n: NodeView,
    geo: Option<GeoInfo>,
    at: Seq<char>,
    stance: Bip110Stance,
)
    ensures
        ({
            let r = node_of_row(upserted(None, n, geo, at), stance);
            &&& r.addr == n.addr && r.depth == n.depth && r.protocol_version == n.protocol_version
            &&& r.user_agent == n.user_agent && r.services == n.services
            &&& r.start_height == n.start_height && r.handshaked == n.handshaked
            &&& r.implementation == n.implementation && r.version == n.version
            &&& r.first_seen == n.first_seen && r.times_seen == n.times_seen
            &&& r.online == n.online && r.bip110 == stance
            &&& n.last_seen.len() > 0 ==> r.last_seen == n.last_seen
            &&& r.latency_ms.is_none() && r.chain_hash.len() == 0
        }),
        forall|ua: Seq<char>| #[trigger]
            stance_now(ua) == assess(lower_text(ua), Seq::<(Seq<char>, Bip110Stance)>::empty()),
{
}

/// A place that was written is read back; a row without coordinates has none.
pub proof fn law_stored_place_reads_back(
    n: NodeView,
    g: GeoInfo,
    at: Seq<char>,
    r: StoredView,
)
    ensures
        place_in_row(upserted(None, n, Some(g), at)) == Some(
            (g.lat, g.lon, g.country@, g.country_code@, g.city@),
        ),
        r.lat.is_none() || r.lon.is_none() ==> place_in_row(r).is_none(),
        r.lat.is_some() && r.lon.is_some() ==> (place_in_row(r) matches Some(p) && p.0
            == r.lat.unwrap() && p.1 == r.lon.unwrap()),
{
}

/// An address has a place where some row of it has coordinates, and then that of the last such row.
pub proof fn law_places_in_rows(rows: Seq<StoredNode>, i: int)
    requires
        0 <= i < rows.len(),
        rows[i].lat.is_some() && rows[i].lon.is_some(),
        forall|j: int|
            i < j < rows.len() ==> (#[trigger] rows[j]).addr@ != rows[i].addr@ || rows[j].lat.is_none()
                || rows[j].lon.is_none(),
    ensures
        places_in_rows(rows).contains_key(rows[i].addr@),
        places_in_rows(rows)[rows[i].addr@].0 == rows[i].lat.unwrap(),
        places_in_rows(rows)[rows[i].addr@].1 == rows[i].lon.unwrap(),
    decreases rows.len(),
{
    let d = rows.drop_last();
    let k = rows.len() - 1;
    assert(rows[k] == rows.last());
    if i < k {
        assert(d[i] == rows[i]);
        assert forall|j: int| i < j < d.len() implies (#[trigger] d[j]).addr@ != d[i].addr@
            || d[j].lat.is_none() || d[j].lon.is_none() by {
            assert(d[j] == rows[j]);
        }
        law_places_in_rows(d, i);
    }
}

/// Of the rows that are shown, those at depth 0 stand first, and otherwise those that were seen more
/// often; as many are shown as there is room for, and none that is not shown belongs before one
/// that is.
pub proof fn law_shown_rows(shown: Seq<StoredNode>, rows: Seq<StoredNode>, max: usize)
    requires
        shows(shown, rows, max),
        rows.len() <= usize::MAX,
    ensures
        shown.len() == (if max < rows.len() {
            max as int
        } else {
            rows.len() as int
        }),
        forall|i: int, j: int|
            0 <= i < j < shown.len() ==> ((#[trigger] shown[j]).depth == 0 ==> (
            #[trigger] shown[i]).depth == 0) && ((shown[i].depth == 0) == (shown[j].depth == 0)
                ==> shown[i].times_seen >= shown[j].times_seen),
        forall|i: int| 0 <= i < shown.len() ==> rows.contains(#[trigger] shown[i]),
        max >= rows.len() ==> shown.to_multiset() == rows.to_multiset(),
{
    let less = shown_before();
    let all = choose|all: Seq<StoredNode>| #[trigger]
        stably_sorted(all, rows, less) && shown == all.take(
            if max < rows.len() {
                max as int
            } else {
                rows.len() as int
            },
        );
    assert forall|x: StoredNode, y: StoredNode| #[trigger] less(x, y) implies !less(y, x) by {}
    law_sorting_keeps_values(all, rows, less);
    let p = choose|p: Seq<usize>| arranges(p, all, rows, less);
    assert(all.len() == rows.len());
    assert forall|i: int, j: int| 0 <= i < j < shown.len() implies ((#[trigger] shown[j]).depth == 0
        ==> (#[trigger] shown[i]).depth == 0) && ((shown[i].depth == 0) == (shown[j].depth == 0)
        ==> shown[i].times_seen >= shown[j].times_seen) by {
        assert(shown[i] == all[i] && shown[j] == all[j]);
        assert(less(all[i], all[j]) || !less(all[j], all[i]));
    }
    assert forall|i: int| 0 <= i < shown.len() implies rows.contains(#[trigger] shown[i]) by {
        assert(all[i] == shown[i]);
        assert(all.contains(all[i]));
    }
    if max >= rows.len() {
        assert(all.take(rows.len() as int) =~= all);
    }
}

/// An address is among those of nodes where some node has it, and an edge is drawn where both its
/// ends are.
pub proof fn law_edges_between_nodes(nodes: Seq<NodeInfo>, addr: Seq<char>, e: Edge)
    ensures
        addresses(nodes).contains(addr) <==> exists|i: int|
            0 <= i < nodes.len() && (#[trigger] nodes[i]).addr@ == addr,
        edge_within(addresses(nodes))(e) <==> addresses(nodes).contains(e.from@) && addresses(
            nodes,
        ).contains(e.to@),
    decreases nodes.len(),
{
    if nodes.len() > 0 {
        let d = nodes.drop_last();
        law_edges_between_nodes(d, addr, e);
        if exists|i: int| 0 <= i < d.len() && (#[trigger] d[i]).addr@ == addr {
            let i = choose|i: int| 0 <= i < d.len() && (#[trigger] d[i]).addr@ == addr;
            assert(nodes[i] == d[i]);
        }
        if exists|i: int| 0 <= i < nodes.len() && (#[trigger] nodes[i]).addr@ == addr {
            let i = choose|i: int| 0 <= i < nodes.len() && (#[trigger] nodes[i]).addr@ == addr;
            if i < d.len() {
                assert(d[i] == nodes[i]);
            }
        }
        assert(nodes[nodes.len() - 1] == nodes.last());
    }
}

/// The names of the columns that the table can be sorted by; any other name sorts by depth.
pub proof fn law_sort_columns(name: Seq<char>)
    ensures
        name == "implementation"@ ==> sort_column(name) == SortColumn::Implementation,
        name == "version"@ ==> sort_column(name) == SortColumn::Version,
        name == "protocol_version"@ ==> sort_column(name) == SortColumn::ProtocolVersion,
        name == "bip110"@ ==> sort_column(name) == SortColumn::Bip110,
        name == "location"@ || name == "country"@ ==> sort_column(name) == SortColumn::Country,
        name != "implementation"@ && name != "version"@ && name != "protocol_version"@ && name
            != "bip110"@ && name != "location"@ && name != "country"@ ==> sort_column(name)
            == SortColumn::Depth,
{
    reveal_strlit("implementation");
    reveal_strlit("version");
    reveal_strlit("protocol_version");
    reveal_strlit("bip110");
    reveal_strlit("location");
    reveal_strlit("country");
    assert("implementation"@.len() == 14 && "version"@.len() == 7 && "protocol_version"@.len() == 16
        && "bip110"@.len() == 6 && "location"@.len() == 8 && "country"@.len() == 7 && "version"@[0]
        == 'v' && "country"@[0] == 'c');
}

/// The rows of a page have the stance that is asked for, are no more than the limit, and stand in
/// the order of their column, ascending or descending.
pub proof fn law_page_is_in_order(
    page: Seq<NodeRow>,
    rows: Seq<NodeRow>,
    bip: Seq<char>,
    sort: Seq<char>,
    dir_desc: bool,
    limit: usize,
    offset: usize,
    i: int,
    j: int,
)
    requires
        is_page(page, rows, bip, sort, dir_desc, limit, offset),
        rows.len() <= usize::MAX,
        0 <= i < j < page.len(),
    ensures
        page.len() <= limit,
        bip.len() > 0 ==> page[i].bip110@ == bip && page[j].bip110@ == bip,
        rows.contains(page[i]) && rows.contains(page[j]),
        ({
            let (a, b) = if dir_desc {
                (page[j], page[i])
            } else {
                (page[i], page[j])
            };
            &&& sort == "implementation"@ ==> !lex_less(b.implementation@, a.implementation@)
            &&& sort == "version"@ ==> !lex_less(b.version@, a.version@)
            &&& sort == "protocol_version"@ ==> a.protocol_version <= b.protocol_version
            &&& sort == "bip110"@ ==> !lex_less(b.bip110@, a.bip110@)
            &&& sort == "country"@ && b.country.is_none() ==> a.country.is_none()
            &&& sort == "country"@ && a.country.is_some() && b.country.is_some() ==> !lex_less(
                b.country.unwrap()@,
                a.country.unwrap()@,
            )
            &&& sort == "depth"@ ==> a.depth <= b.depth
        }),
{
    law_sort_columns(sort);
    reveal_strlit("depth");
    reveal_strlit("implementation");
    reveal_strlit("version");
    reveal_strlit("protocol_version");
    reveal_strlit("bip110");
    reveal_strlit("location");
    reveal_strlit("country");
    assert("depth"@.len() == 5);
    assert("implementation"@.len() == 14 && "version"@.len() == 7 && "protocol_version"@.len() == 16
        && "bip110"@.len() == 6 && "location"@.len() == 8 && "country"@.len() == 7);
    let c = sort_column(sort);
    let less = column_less(c);
    let s = selected(rows, with_stance(bip));
    let sorted = choose|sorted: Seq<NodeRow>| #[trigger]
        stably_sorted(sorted, s, less) && page == page_of(
            directed(sorted, dir_desc),
            offset,
            limit,
        );
    lemma_selected_len(rows, with_stance(bip));
    lemma_column_less(c);
    law_sorting_keeps_values(sorted, s, less);
    let p = choose|p: Seq<usize>| arranges(p, sorted, s, less);
    let n = sorted.len();
    let (x, y) = (offset + i, offset + j);
    assert(page[i] == directed(sorted, dir_desc)[x] && page[j] == directed(sorted, dir_desc)[y]);
    let (u, v) = if dir_desc {
        (n - 1 - y, n - 1 - x)
    } else {
        (x, y)
    };
    assert(less(sorted[u], sorted[v]) || !less(sorted[v], sorted[u]));
    assert(!less(sorted[v], sorted[u]));
    assert(sorted.contains(page[i]) && sorted.contains(page[j])) by {
        assert(sorted[u] == page[i] || sorted[u] == page[j]);
        assert(sorted[v] == page[i] || sorted[v] == page[j]);
    }
    law_selected(rows, Seq::empty(), page[i], with_stance(bip));
    law_selected(rows, Seq::empty(), page[j], with_stance(bip));
}

/// Known good nodes are those that are online and were reached; a later confirmed one comes first.
pub proof fn law_known_good(a: StoredNode, b: StoredNode)
    ensures
        is_known_good()(a) <==> a.online && a.handshaked,
        later_first()(a, b) <==> lex_less(b.last_seen@, a.last_seen@),
{
}

/// The rows shown are the fresh ones; an implementation is the first argument, and the words looked
/// for are the last, as a pattern that any column shown may match.
pub proof fn law_nodes_condition(fresh: Seq<char>, implementation: Seq<char>, q: Seq<char>)
    requires
        implementation.len() > 0,
        q.len() > 0,
    ensures
        nodes_condition(fresh, seq![], seq![]) == "WHERE "@ + fresh,
        nodes_args(seq![], seq![]).len() == 0,
        nodes_condition(fresh, implementation, seq![]) == "WHERE "@ + fresh
            + " AND implementation=?1"@,
        nodes_args(implementation, seq![]) == seq![implementation],
        nodes_condition(fresh, seq![], q) == "WHERE "@ + fresh
            + " AND (addr LIKE ?1 OR implementation LIKE ?1 OR version LIKE ?1 OR country LIKE ?1 OR city LIKE ?1)"@,
        nodes_args(seq![], q) == seq![seq!['%'] + q + seq!['%']],
        nodes_condition(fresh, implementation, q) == "WHERE "@ + fresh
            + " AND implementation=?1 AND (addr LIKE ?2 OR implementation LIKE ?2 OR version LIKE ?2 OR country LIKE ?2 OR city LIKE ?2)"@,
        nodes_args(implementation, q) == seq![implementation, seq!['%'] + q + seq!['%']],
{
    reveal_strlit("WHERE ");
    reveal_strlit(" AND ");
    reveal_strlit("implementation=?1");
    reveal_strlit(" AND implementation=?1");
    reveal_strlit("1");
    reveal_strlit("2");
    reveal_strlit("%");
    reveal_strlit("(addr LIKE ?");
    reveal_strlit(" OR implementation LIKE ?");
    reveal_strlit(" OR version LIKE ?");
    reveal_strlit(" OR country LIKE ?");
    reveal_strlit(" OR city LIKE ?");
    reveal_strlit(")");
    reveal_strlit(
        " AND (addr LIKE ?1 OR implementation LIKE ?1 OR version LIKE ?1 OR country LIKE ?1 OR city LIKE ?1)",
    );
    reveal_strlit(
        " AND implementation=?1 AND (addr LIKE ?2 OR implementation LIKE ?2 OR version LIKE ?2 OR country LIKE ?2 OR city LIKE ?2)",
    );
    assert("%"@ =~= seq!['%']);
}

} // verus!
