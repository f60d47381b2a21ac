//! Where nodes are: which addresses to look up, what to take from the answers, and how places
//! are filed under nodes. The look-up itself is the application's.
use vstd::prelude::*;

use crate::addr::{ip_text, law_ip_text_read_back, socket_of, IpAddr, SocketAddr};
use crate::node::NodeInfo;
use crate::strmap::StrMap;
use crate::text::same_text;

verus! {

/// A place. Latitude and longitude are kept as the bits of their floating-point numbers: nothing
/// here computes with them.
#[derive(Debug)]
pub struct GeoInfo {
    pub lat: u64,
    pub lon: u64,
    pub country: String,
    pub country_code: String,
    pub city: String,
}

impl Clone for GeoInfo {
    fn clone(&self) -> (r: Self)
        ensures
            r == *self,
    {
        GeoInfo {
            lat: self.lat,
            lon: self.lon,
            country: self.country.clone(),
            country_code: self.country_code.clone(),
            city: self.city.clone(),
        }
    }
}

/// One entry of an answer.
pub struct ApiEntry {
    pub status: String,
    pub country: String,
    pub country_code: String,
    pub city: String,
    pub lat: Option<u64>,
    pub lon: Option<u64>,
    pub query: String,
}

/// The address in a node's `ip:port`; none for an onion node.
pub open spec fn node_ip(addr: Seq<char>) -> Option<IpAddr> {
    match socket_of(addr) {
        Some(sa) => Some(sa.ip_addr()),
        None => None,
    }
}

/// The address in a node's `ip:port`.
pub fn ip_of(addr: &str) -> (r: Option<IpAddr>)
    ensures
        r == node_ip(addr@),
{
    match SocketAddr::parse(addr) {
        Some(sa) => Some(sa.ip()),
        None => None,
    }
}

/// The addresses that are not in the cache.
pub open spec fn uncached(ips: Seq<IpAddr>, cache: Map<Seq<char>, GeoInfo>) -> Seq<IpAddr>
    decreases ips.len(),
{
    if ips.len() == 0 {
        Seq::empty()
    } else {
        let r = uncached(ips.drop_last(), cache);
        if cache.contains_key(ip_text(ips.last())) {
            r
        } else {
            r.push(ips.last())
        }
    }
}

/// The addresses to look up: those that are not in the cache, in their order.
pub fn missing_ips(ips: &[IpAddr], cache: &StrMap<GeoInfo>) -> (r: Vec<IpAddr>)
    ensures
        r@ == uncached(ips@, cache@),
{
    let mut out: Vec<IpAddr> = Vec::new();
    let mut i: usize = 0;
    assert(ips@.take(0) =~= Seq::<IpAddr>::empty());
    while i < ips.len()
        invariant
            i <= ips@.len(),
            out@ == uncached(ips@.take(i as int), cache@),
        decreases ips@.len() - i,
    {
        proof {
            assert(ips@.take(i + 1).drop_last() == ips@.take(i as int));
            assert(ips@.take(i + 1).last() == ips@[i as int]);
        }
        let key = ips[i].to_text();
        if !cache.contains(key.as_str()) {
            out.push(ips[i]);
        }
        i = i + 1;
    }
    assert(ips@.take(ips@.len() as int) == ips@);
    out
}

/// Adds what was looked up to the cache; it takes the place of what was there.
pub fn merge_fresh(cache: &mut StrMap<GeoInfo>, fresh: &StrMap<GeoInfo>)
    ensures
        final(cache)@ == old(cache)@.union_prefer_right(fresh@),
{
    let n = fresh.len();
    let ghost keys = fresh.keys();
    let ghost c0 = cache@;
    let mut i: usize = 0;
    while i < n
        invariant
            i <= n,
            n == keys.len(),
            keys == fresh.keys(),
            c0 == old(cache)@,
            forall|k: Seq<char>| fresh@.contains_key(k) <==> keys.contains(k),
            forall|k: Seq<char>| #[trigger]
                cache@.contains_key(k) <==> c0.contains_key(k) || keys.take(i as int).contains(k),
            forall|k: Seq<char>| #[trigger]
                cache@.contains_key(k) ==> cache@[k] == (if keys.take(i as int).contains(k) {
                    fresh@[k]
                } else {
                    c0[k]
                }),
        decreases n - i,
    {
        let key = fresh.key_at(i).clone();
        let v = fresh.value_at(i).clone();
        let ghost k0 = key@;
        cache.insert(key, v);
        proof {
            let t = keys.take(i as int);
            let u = keys.take(i + 1);
            assert(u == t.push(k0));
            assert forall|k: Seq<char>| u.contains(k) <==> t.contains(k) || k == k0 by {
                if t.contains(k) {
                    let x = choose|x: int| 0 <= x < t.len() && t[x] == k;
                    assert(u[x] == k);
                }
                if u.contains(k) && k != k0 {
                    let x = choose|x: int| 0 <= x < u.len() && u[x] == k;
                    assert(t[x] == k);
                }
                assert(u[i as int] == k0);
            }
        }
        i = i + 1;
    }
    assert(keys.take(keys.len() as int) == keys);
    assert(cache@ =~= old(cache)@.union_prefer_right(fresh@));
}

/// Whether `k` is the text of one of the addresses.
pub open spec fn asked_for(ips: Seq<IpAddr>, k: Seq<char>) -> bool {
    exists|i: int| 0 <= i < ips.len() && ip_text(#[trigger] ips[i]) == k
}

/// What the cache holds for these addresses.
pub fn requested(ips: &[IpAddr], cache: &StrMap<GeoInfo>) -> (r: StrMap<GeoInfo>)
    ensures
        forall|k: Seq<char>| #[trigger]
            r@.contains_key(k) <==> asked_for(ips@, k) && cache@.contains_key(k),
        forall|k: Seq<char>| #[trigger] r@.contains_key(k) ==> r@[k] == cache@[k],
{
    let mut out: StrMap<GeoInfo> = StrMap::new();
    let mut i: usize = 0;
    while i < ips.len()
        invariant
            i <= ips@.len(),
            forall|k: Seq<char>| #[trigger]
                out@.contains_key(k) <==> asked_for(ips@.take(i as int), k) && cache@.contains_key(k),
            forall|k: Seq<char>| #[trigger] out@.contains_key(k) ==> out@[k] == cache@[k],
        decreases ips@.len() - i,
    {
        let key = ips[i].to_text();
        let ghost k0 = key@;
        if let Some(g) = cache.get(key.as_str()) {
            out.insert(key, g.clone());
        }
        proof {
            let t = ips@.take(i as int);
            let u = ips@.take(i + 1);
            assert forall|k: Seq<char>| asked_for(u, k) <==> asked_for(t, k) || k == k0 by {
                if asked_for(t, k) {
                    let x = choose|x: int| 0 <= x < t.len() && ip_text(#[trigger] t[x]) == k;
                    assert(u[x] == t[x]);
                }
                if asked_for(u, k) && k != k0 {
                    let x = choose|x: int| 0 <= x < u.len() && ip_text(#[trigger] u[x]) == k;
                    assert(t[x] == u[x]);
                }
                assert(ip_text(u[i as int]) == k0);
            }
        }
        i = i + 1;
    }
    assert(ips@.take(ips@.len() as int) == ips@);
    out
}

/// The place that an entry names, by its fields: only where the look-up succeeded and gave both
/// coordinates.
pub open spec fn place_of_entry(e: ApiEntry) -> Option<(u64, u64, Seq<char>, Seq<char>, Seq<char>)> {
    if e.status@ == "success"@ && e.lat.is_some() && e.lon.is_some() {
        Some((e.lat.unwrap(), e.lon.unwrap(), e.country@, e.country_code@, e.city@))
    } else {
        None
    }
}

/// A place by its fields.
pub open spec fn geo_view(g: GeoInfo) -> (u64, u64, Seq<char>, Seq<char>, Seq<char>) {
    (g.lat, g.lon, g.country@, g.country_code@, g.city@)
}

/// The places in an answer, by what was asked for; of several the last counts.
pub open spec fn places(s: Seq<ApiEntry>) -> Map<
    Seq<char>,
    (u64, u64, Seq<char>, Seq<char>, Seq<char>),
>
    decreases s.len(),
{
    if s.len() == 0 {
        Map::empty()
    } else {
        let r = places(s.drop_last());
        match place_of_entry(s.last()) {
            Some(p) => r.insert(s.last().query@, p),
            None => r,
        }
    }
}

/// Takes the places out of an answer.
pub fn accept_entries(entries: &Vec<ApiEntry>) -> (r: StrMap<GeoInfo>)
    ensures
        r@.map_values(|g: GeoInfo| geo_view(g)) == places(entries@),
{
    let ghost f = |g: GeoInfo| geo_view(g);
    let mut out: StrMap<GeoInfo> = StrMap::new();
    let mut i: usize = 0;
    assert(entries@.take(0) =~= Seq::<ApiEntry>::empty());
    assert(out@.map_values(f) =~= Map::empty());
    while i < entries.len()
        invariant
            i <= entries@.len(),
            f == (|g: GeoInfo| geo_view(g)),
            out@.map_values(f) == places(entries@.take(i as int)),
        decreases entries@.len() - i,
    {
        let e = &entries[i];
        proof {
            assert(entries@.take(i + 1).drop_last() == entries@.take(i as int));
            assert(entries@.take(i + 1).last() == *e);
        }
        if same_text(e.status.as_str(), "success") {
            if let (Some(lat), Some(lon)) = (e.lat, e.lon) {
                let g = GeoInfo {
                    lat,
                    lon,
                    country: e.country.clone(),
                    country_code: e.country_code.clone(),
                    city: e.city.clone(),
                };
                let ghost v = geo_view(g);
                let ghost was = out@;
                out.insert(e.query.clone(), g);
                assert(out@.map_values(f) =~= was.map_values(f).insert(e.query@, v));
            }
        }
        i = i + 1;
    }
    assert(entries@.take(entries@.len() as int) == entries@);
    out
}

/// How many addresses go into one request.
pub const BATCH_SIZE: usize = 100;

/// The bounds of the requests for `n` addresses: each but the last is of the full size.
pub fn batches(n: usize) -> (r: Vec<(usize, usize)>)
    ensures
        r@.len() == (n + BATCH_SIZE - 1) / (BATCH_SIZE as int),
        forall|i: int|
            0 <= i < r@.len() ==> (#[trigger] r@[i]).0 == BATCH_SIZE * i && r@[i].1 == (if BATCH_SIZE * (i + 1)
                <= n {
                BATCH_SIZE * (i + 1)
            } else {
                n as int
            }),
{
    let mut out: Vec<(usize, usize)> = Vec::new();
    let mut at: usize = 0;
    while at < n
        invariant
            at <= n,
            at == n || at == BATCH_SIZE * out@.len(),
            at == n ==> out@.len() == (n + BATCH_SIZE - 1) / (BATCH_SIZE as int),
            forall|i: int|
                0 <= i < out@.len() ==> (#[trigger] out@[i]).0 == BATCH_SIZE * i && out@[i].1 == (if BATCH_SIZE
                    * (i + 1) <= n {
                    BATCH_SIZE * (i + 1)
                } else {
                    n as int
                }),
        decreases n - at,
    {
        let end: usize = if n - at > BATCH_SIZE {
            at + BATCH_SIZE
        } else {
            n
        };
        out.push((at, end));
        at = end;
    }
    out
}

// ---- places of nodes ----------------------------------------------------------------------

/// The addresses of nodes, each once, in the order they first occur.
pub open spec fn distinct_ips(nodes: Seq<NodeInfo>) -> Seq<IpAddr>
    decreases nodes.len(),
{
    if nodes.len() == 0 {
        Seq::empty()
    } else {
        let r = distinct_ips(nodes.drop_last());
        match node_ip(nodes.last().addr@) {
            Some(ip) => if r.contains(ip) {
                r
            } else {
                r.push(ip)
            },
            None => r,
        }
    }
}

/// The addresses of nodes, each once.
pub fn node_ips(nodes: &[NodeInfo]) -> (r: Vec<IpAddr>)
    ensures
        r@ == distinct_ips(nodes@),
{
    let mut out: Vec<IpAddr> = Vec::new();
    let mut seen: StrMap<()> = StrMap::new();
    let mut i: usize = 0;
    assert(nodes@.take(0) =~= Seq::<NodeInfo>::empty());
    while i < nodes.len()
        invariant
            i <= nodes@.len(),
            out@ == distinct_ips(nodes@.take(i as int)),
            forall|k: Seq<char>| #[trigger] seen@.contains_key(k) <==> asked_for(out@, k),
        decreases nodes@.len() - i,
    {
        proof {
            assert(nodes@.take(i + 1).drop_last() == nodes@.take(i as int));
            assert(nodes@.take(i + 1).last() == nodes@[i as int]);
        }
        if let Some(ip) = ip_of(nodes[i].addr.as_str()) {
            let key = ip.to_text();
            let ghost was = out@;
            let known = seen.contains(key.as_str());
            proof {
                if asked_for(was, key@) {
                    let x = choose|x: int| 0 <= x < was.len() && ip_text(#[trigger] was[x]) == key@;
                    law_ip_text_read_back(was[x]);
                    law_ip_text_read_back(ip);
                    assert(was.contains(ip));
                }
                if was.contains(ip) {
                    let x = choose|x: int| 0 <= x < was.len() && was[x] == ip;
                    assert(ip_text(was[x]) == key@);
                }
            }
            if !known {
                let ghost k0 = key@;
                seen.insert(key, ());
                out.push(ip);
                proof {
                    assert forall|k: Seq<char>| #[trigger] seen@.contains_key(k) <==> asked_for(
                        out@,
                        k,
                    ) by {
                        if asked_for(was, k) {
                            let x = choose|x: int|
                                0 <= x < was.len() && ip_text(#[trigger] was[x]) == k;
                            assert(out@[x] == was[x]);
                        }
                        if asked_for(out@, k) && k != k0 {
                            let x = choose|x: int|
                                0 <= x < out@.len() && ip_text(#[trigger] out@[x]) == k;
                            assert(was[x] == out@[x]);
                        }
                        assert(ip_text(out@[was.len() as int]) == k0);
                    }
                }
            }
        }
        i = i + 1;
    }
    assert(nodes@.take(nodes@.len() as int) == nodes@);
    out
}

/// The places of nodes by their addresses, given the places by IP.
pub open spec fn located(nodes: Seq<NodeInfo>, by_ip: Map<Seq<char>, GeoInfo>) -> Map<
    Seq<char>,
    GeoInfo,
>
    decreases nodes.len(),
{
    if nodes.len() == 0 {
        Map::empty()
    } else {
        let r = located(nodes.drop_last(), by_ip);
        let n = nodes.last();
        match node_ip(n.addr@) {
            Some(ip) => if by_ip.contains_key(ip_text(ip)) {
                r.insert(n.addr@, by_ip[ip_text(ip)])
            } else {
                r
            },
            None => r,
        }
    }
}

/// Files places under the nodes that are there.
pub fn geolocate_map(nodes: &[NodeInfo], by_ip: &StrMap<GeoInfo>) -> (r: StrMap<GeoInfo>)
    ensures
        r@ == located(nodes@, by_ip@),
{
    let mut out: StrMap<GeoInfo> = StrMap::new();
    let mut i: usize = 0;
    assert(nodes@.take(0) =~= Seq::<NodeInfo>::empty());
    while i < nodes.len()
        invariant
            i <= nodes@.len(),
            out@ == located(nodes@.take(i as int), by_ip@),
        decreases nodes@.len() - i,
    {
        proof {
            assert(nodes@.take(i + 1).drop_last() == nodes@.take(i as int));
            assert(nodes@.take(i + 1).last() == nodes@[i as int]);
        }
        if let Some(ip) = ip_of(nodes[i].addr.as_str()) {
            let key = ip.to_text();
            if let Some(g) = by_ip.get(key.as_str()) {
                out.insert(nodes[i].addr.clone(), g.clone());
            }
        }
        i = i + 1;
    }
    assert(nodes@.take(nodes@.len() as int) == nodes@);
    out
}

/// Files the place of the own node's public address under the own node.
pub fn attach_own_geo(
    geo: &mut StrMap<GeoInfo>,
    own_addr: &str,
    own_ip: Option<IpAddr>,
    by_ip: &StrMap<GeoInfo>,
)
    ensures
        final(geo)@ == (match own_ip {
            Some(ip) => if by_ip@.contains_key(ip_text(ip)) {
                old(geo)@.insert(own_addr@, by_ip@[ip_text(ip)])
            } else {
                old(geo)@
            },
            None => old(geo)@,
        }),
{
    if let Some(ip) = own_ip {
        let key = ip.to_text();
        if let Some(g) = by_ip.get(key.as_str()) {
            geo.insert(own_addr.to_owned(), g.clone());
        }
    }
}

/// An address is looked up exactly where it is asked for and not in the cache.
pub proof fn law_only_missing_are_looked_up(
    ips: Seq<IpAddr>,
    cache: Map<Seq<char>, GeoInfo>,
    ip: IpAddr,
)
    ensures
        uncached(ips, cache).contains(ip) <==> ips.contains(ip) && !cache.contains_key(ip_text(ip)),
    decreases ips.len(),
{
    if ips.len() > 0 {
        let d = ips.drop_last();
        let r = uncached(d, cache);
        law_only_missing_are_looked_up(d, cache, ip);
        assert(ips.contains(ip) <==> d.contains(ip) || ip == ips.last()) by {
            if d.contains(ip) {
                let i = choose|i: int| 0 <= i < d.len() && d[i] == ip;
                assert(ips[i] == ip);
            }
            if ips.contains(ip) && ip != ips.last() {
                let i = choose|i: int| 0 <= i < ips.len() && ips[i] == ip;
                assert(d[i] == ip);
            }
            assert(ips[ips.len() - 1] == ips.last());
        }
        if !cache.contains_key(ip_text(ips.last())) {
            let u = r.push(ips.last());
            assert(u.contains(ip) <==> r.contains(ip) || ip == ips.last()) by {
                if r.contains(ip) {
                    let i = choose|i: int| 0 <= i < r.len() && r[i] == ip;
                    assert(u[i] == ip);
                }
                if u.contains(ip) && ip != ips.last() {
                    let i = choose|i: int| 0 <= i < u.len() && u[i] == ip;
                    assert(r[i] == ip);
                }
                assert(u[r.len() as int] == ips.last());
            }
        }
    }
}

/// A node has the place of its IP address, and none where that has none or its address is no IP
/// address.
pub proof fn law_nodes_are_located(
    nodes: Seq<NodeInfo>,
    by_ip: Map<Seq<char>, GeoInfo>,
    addr: Seq<char>,
)
    ensures
        located(nodes, by_ip).contains_key(addr) <==> (exists|i: int|
            0 <= i < nodes.len() && (#[trigger] nodes[i]).addr@ == addr) && (socket_of(
            addr,
        ) matches Some(sa) && by_ip.contains_key(ip_text(sa.ip_addr()))),
        located(nodes, by_ip).contains_key(addr) ==> located(nodes, by_ip)[addr] == by_ip[ip_text(
            socket_of(addr).unwrap().ip_addr(),
        )],
    decreases nodes.len(),
{
    if nodes.len() > 0 {
        let d = nodes.drop_last();
        law_nodes_are_located(d, by_ip, addr);
        assert(nodes[nodes.len() - 1] == nodes.last());
        if exists|i: int| 0 <= i < d.len() && (#[trigger] d[i]).addr@ == addr {
            let i = choose|i: int| 0 <= i < d.len() && (#[trigger] d[i]).addr@ == addr;
            assert(nodes[i] == d[i]);
        }
        if exists|i: int| 0 <= i < nodes.len() && (#[trigger] nodes[i]).addr@ == addr {
            let i = choose|i: int| 0 <= i < nodes.len() && (#[trigger] nodes[i]).addr@ == addr;
            if i < d.len() {
                assert(d[i] == nodes[i]);
            }
        }
    }
}

/// The IP address of a node is that of its socket address, and it has none where its address is
/// none.
pub proof fn law_node_ip(addr: Seq<char>)
    ensures
        match socket_of(addr) {
            Some(SocketAddr::V4 { ip, .. }) => node_ip(addr) == Some(IpAddr::V4(ip)),
            Some(SocketAddr::V6 { ip, .. }) => node_ip(addr) == Some(IpAddr::V6(ip)),
            None => node_ip(addr).is_none(),
        },
{
}

/// The addresses of a list in which some are missing, each once.
spec fn each_once(s: Seq<Option<IpAddr>>) -> Seq<IpAddr>
    decreases s.len(),
{
    if s.len() == 0 {
        Seq::empty()
    } else {
        let r = each_once(s.drop_last());
        match s.last() {
            Some(ip) => if r.contains(ip) {
                r
            } else {
                r.push(ip)
            },
            None => r,
        }
    }
}

proof fn lemma_each_once(s: Seq<Option<IpAddr>>, ip: IpAddr)
    ensures
        each_once(s).no_duplicates(),
        each_once(s).contains(ip) <==> s.contains(Some(ip)),
    decreases s.len(),
{
    if s.len() > 0 {
        let d = s.drop_last();
        let r = each_once(d);
        let all = each_once(s);
        lemma_each_once(d, ip);
        assert(s[s.len() - 1] == s.last());
        if r.contains(ip) {
            let i = choose|i: int| 0 <= i < r.len() && r[i] == ip;
            assert(all[i] == ip);
        }
        if all.contains(ip) && !r.contains(ip) {
            let i = choose|i: int| 0 <= i < all.len() && all[i] == ip;
            if i < r.len() {
                assert(r[i] == ip);
            }
        }
        if s.last() == Some(ip) && !r.contains(ip) {
            assert(all[r.len() as int] == ip);
        }
        if d.contains(Some(ip)) {
            let i = choose|i: int| 0 <= i < d.len() && d[i] == Some(ip);
            assert(s[i] == Some(ip));
        }
        if s.contains(Some(ip)) && s.last() != Some(ip) {
            let i = choose|i: int| 0 <= i < s.len() && s[i] == Some(ip);
            assert(d[i] == Some(ip));
        }
    }
}

proof fn lemma_distinct_ips(nodes: Seq<NodeInfo>)
    ensures
        distinct_ips(nodes) == each_once(nodes.map_values(|n: NodeInfo| node_ip(n.addr@))),
    decreases nodes.len(),
{
    let f = |n: NodeInfo| node_ip(n.addr@);
    if nodes.len() > 0 {
        lemma_distinct_ips(nodes.drop_last());
        assert(nodes.map_values(f).drop_last() =~= nodes.drop_last().map_values(f));
    }
}

/// Every IP address of the nodes is looked up, each once.
pub proof fn law_each_ip_once(nodes: Seq<NodeInfo>, ip: IpAddr)
    ensures
        distinct_ips(nodes).no_duplicates(),
        distinct_ips(nodes).contains(ip) <==> nodes.map_values(
            |n: NodeInfo| node_ip(n.addr@),
        ).contains(Some(ip)),
{
    lemma_distinct_ips(nodes);
    lemma_each_once(nodes.map_values(|n: NodeInfo| node_ip(n.addr@)), ip);
}

/// An entry gives a place where it says that it succeeded and has both coordinates; the last such
/// entry for an address counts.
pub proof fn law_successful_entries_give_places(s: Seq<ApiEntry>, i: int, q: Seq<char>)
    ensures
        0 <= i < s.len() && s[i].query@ == q && s[i].status@ == "success"@ && s[i].lat.is_some()
            && s[i].lon.is_some() && (forall|j: int|
            i < j < s.len() ==> (#[trigger] s[j]).query@ != q || s[j].status@ != "success"@
                || s[j].lat.is_none() || s[j].lon.is_none()) ==> places(s).contains_key(q)
            && places(s)[q] == (
            s[i].lat.unwrap(),
            s[i].lon.unwrap(),
            s[i].country@,
            s[i].country_code@,
            s[i].city@,
        ),
        (forall|j: int|
            0 <= j < s.len() ==> (#[trigger] s[j]).query@ != q || s[j].status@ != "success"@
                || s[j].lat.is_none() || s[j].lon.is_none()) ==> !places(s).contains_key(q),
    decreases s.len(),
{
    if s.len() > 0 {
        let d = s.drop_last();
        law_successful_entries_give_places(d, i, q);
        assert(s[s.len() - 1] == s.last());
        assert forall|j: int| 0 <= j < d.len() implies #[trigger] d[j] == s[j] by {}
    }
}

/// Batches of a hundred cover all addresses, one behind the other, and none is empty.
pub proof fn law_batches_hold_a_hundred(n: int, i: int)
    requires
        0 <= i < (n + BATCH_SIZE - 1) / (BATCH_SIZE as int),
    ensures
        BATCH_SIZE == 100,
        100 * i < n,
        i == (n + BATCH_SIZE - 1) / (BATCH_SIZE as int) - 1 ==> 100 * (i + 1) >= n,
{
}

} // verus!
