//! A store of nodes that grows from crawl to crawl. Nodes are never dropped: one that cannot be
//! reached any more keeps what was last known of it and is marked offline.
use vstd::prelude::*;

use crate::node::{count, lemma_count_bound, lemma_count_take, NodeInfo, NodeView};
use crate::strmap::{found, StrMap};
use crate::text::{ascending, chars_of, lemma_lex_irreflexive, lex_less};

verus! {

/// The nodes known so far, by address.
pub struct History {
    pub nodes: StrMap<NodeInfo>,
}

/// Records by their views.
pub open spec fn record_views(m: Map<Seq<char>, NodeInfo>) -> Map<Seq<char>, NodeView> {
    m.map_values(|n: NodeInfo| n@)
}

/// Nodes by their views.
pub open spec fn node_views(s: Seq<NodeInfo>) -> Seq<NodeView> {
    s.map_values(|n: NodeInfo| n@)
}

/// The record of a node that was reached now, after `known`.
pub open spec fn refreshed(known: NodeView, cur: NodeView, now: Seq<char>) -> NodeView {
    NodeView {
        first_seen: if known.first_seen.len() == 0 {
            now
        } else {
            known.first_seen
        },
        last_seen: now,
        times_seen: (known.times_seen + 1) as u32,
        online: true,
        ..cur
    }
}

/// The record of a node that is met for the first time.
pub open spec fn first_met(cur: NodeView, now: Seq<char>) -> NodeView {
    if cur.handshaked {
        NodeView { first_seen: now, last_seen: now, times_seen: 1, online: true, ..cur }
    } else {
        NodeView { first_seen: now, times_seen: 0, online: false, ..cur }
    }
}

/// What becomes of the record of a node in a crawl that met it as `cur`.
pub open spec fn merged(known: Option<NodeView>, cur: NodeView, now: Seq<char>) -> NodeView {
    match known {
        Some(k) => if cur.handshaked {
            refreshed(k, cur, now)
        } else {
            NodeView { online: false, ..k }
        },
        None => first_met(cur, now),
    }
}

/// The store after the nodes of a crawl were merged one by one.
pub open spec fn merged_all(
    m: Map<Seq<char>, NodeView>,
    cur: Seq<NodeView>,
    now: Seq<char>,
) -> Map<Seq<char>, NodeView>
    decreases cur.len(),
{
    if cur.len() == 0 {
        m
    } else {
        let r = merged_all(m, cur.drop_last(), now);
        let n = cur.last();
        r.insert(n.addr, merged(found(r, n.addr), n, now))
    }
}

/// Whether a node of this address is among `cur`.
pub open spec fn among(cur: Seq<NodeView>, addr: Seq<char>) -> bool {
    exists|i: int| 0 <= i < cur.len() && (#[trigger] cur[i]).addr == addr
}

/// The store with every node offline that is not among `cur`.
pub open spec fn others_offline(m: Map<Seq<char>, NodeView>, cur: Seq<NodeView>) -> Map<
    Seq<char>,
    NodeView,
> {
    Map::new(
        |a: Seq<char>| m.contains_key(a),
        |a: Seq<char>|
            if among(cur, a) {
                m[a]
            } else {
                NodeView { online: false, ..m[a] }
            },
    )
}

/// How often a node of this address was reached in a crawl.
pub open spec fn handshakes(cur: Seq<NodeView>, addr: Seq<char>) -> nat {
    count(cur, |n: NodeView| n.addr == addr && n.handshaked)
}

/// How often a node was reached before.
pub open spec fn times_before(m: Map<Seq<char>, NodeView>, addr: Seq<char>) -> int {
    if m.contains_key(addr) {
        m[addr].times_seen as int
    } else {
        0
    }
}

/// Whether no count of a node runs over when a crawl is merged.
pub open spec fn counts_fit(m: Map<Seq<char>, NodeView>, cur: Seq<NodeView>) -> bool {
    forall|a: Seq<char>| times_before(m, a) + #[trigger] handshakes(cur, a) <= u32::MAX
}

/// The count of `a` in `m`.
spec fn count_of(m: Map<Seq<char>, usize>, a: Seq<char>) -> nat {
    if m.contains_key(a) {
        m[a] as nat
    } else {
        0
    }
}

/// Whether the node of an address is online.
pub open spec fn online_in(m: Map<Seq<char>, NodeInfo>) -> spec_fn(Seq<char>) -> bool {
    |k: Seq<char>| m[k].online
}

/// Whether a node was reached.
pub open spec fn was_reached() -> spec_fn(NodeInfo) -> bool {
    |n: NodeInfo| n.handshaked
}

/// A node is counted once for each time that it was reached.
proof fn lemma_times(m: Map<Seq<char>, NodeView>, cur: Seq<NodeView>, now: Seq<char>, addr: Seq<char>)
    requires
        times_before(m, addr) + handshakes(cur, addr) <= u32::MAX,
    ensures
        times_before(merged_all(m, cur, now), addr) == times_before(m, addr) + handshakes(cur, addr),
    decreases cur.len(),
{
    if cur.len() > 0 {
        lemma_times(m, cur.drop_last(), now, addr);
    }
}

/// Fewer nodes hold fewer handshakes.
proof fn lemma_handshakes_take(cur: Seq<NodeView>, addr: Seq<char>, i: int)
    requires
        0 <= i <= cur.len(),
    ensures
        handshakes(cur.take(i), addr) <= handshakes(cur, addr),
    decreases cur.len() - i,
{
    if i < cur.len() {
        lemma_count_take(cur, |n: NodeView| n.addr == addr && n.handshaked, i);
        lemma_handshakes_take(cur, addr, i + 1);
    } else {
        assert(cur.take(i) == cur);
    }
}

impl History {
    /// An empty store.
    pub fn new() -> (r: History)
        ensures
            r.nodes@ == Map::<Seq<char>, NodeInfo>::empty(),
    {
        History { nodes: StrMap::new() }
    }

    /// Whether every node can be counted as often again as the crawl reached it, so that no count
    /// of a merge can run over.
    pub fn has_room_for(&self, current: &Vec<NodeInfo>) -> (r: bool)
        ensures
            r == counts_fit(record_views(self.nodes@), node_views(current@)),
    {
        let ghost m = record_views(self.nodes@);
        let ghost cur = node_views(current@);
        let max: u128 = u32::MAX as u128;
        let mut reached: StrMap<usize> = StrMap::new();
        let mut i: usize = 0;
        assert(cur.take(0) =~= Seq::<NodeView>::empty());
        while i < current.len()
            invariant
                i <= current@.len(),
                cur == node_views(current@),
                forall|a: Seq<char>| #[trigger]
                    count_of(reached@, a) == handshakes(cur.take(i as int), a),
            decreases current@.len() - i,
        {
            let n = &current[i];
            let ghost was = reached@;
            proof {
                lemma_count_bound(
                    cur.take(i as int),
                    |x: NodeView| x.addr == n.addr@ && x.handshaked,
                );
                assert(count_of(was, n.addr@) <= i);
            }
            if n.handshaked {
                reached.bump(n.addr.clone());
            }
            proof {
                assert forall|a: Seq<char>| #[trigger]
                    count_of(reached@, a) == handshakes(cur.take(i + 1), a) by {
                    lemma_count_take(cur, |x: NodeView| x.addr == a && x.handshaked, i as int);
                    assert(count_of(was, a) == handshakes(cur.take(i as int), a));
                }
            }
            i = i + 1;
        }
        assert(cur.take(cur.len() as int) == cur);
        let mut j: usize = 0;
        let len = reached.len();
        while j < len
            invariant
                j <= len,
                len == reached.keys().len(),
                max == u32::MAX,
                m == record_views(self.nodes@),
                cur == node_views(current@),
                forall|a: Seq<char>| #[trigger] count_of(reached@, a) == handshakes(cur, a),
                forall|k: Seq<char>| reached@.contains_key(k) <==> reached.keys().contains(k),
                forall|x: int|
                    0 <= x < j ==> times_before(m, #[trigger] reached.keys()[x]) + handshakes(
                        cur,
                        reached.keys()[x],
                    ) <= u32::MAX,
            decreases len - j,
        {
            let k = reached.key_at(j);
            let before: u32 = match self.nodes.get(k.as_str()) {
                Some(one) => one.times_seen,
                None => 0,
            };
            assert(count_of(reached@, k@) == handshakes(cur, k@));
            if before as u128 + *reached.value_at(j) as u128 > max {
                return false;
            }
            j = j + 1;
        }
        proof {
            assert forall|a: Seq<char>| times_before(m, a) + #[trigger] handshakes(cur, a)
                <= u32::MAX by {
                assert(count_of(reached@, a) == handshakes(cur, a));
                if reached@.contains_key(a) {
                    assert(reached.keys().contains(a));
                    let x = choose|x: int|
                        0 <= x < reached.keys().len() && reached.keys()[x] == a;
                    assert(reached.keys()[x] == a);
                }
            }
        }
        true
    }

    /// Merges the nodes of one crawl into the store. A node that was reached is refreshed and
    /// counted; one that was only heard of keeps its record and goes offline, or is recorded as
    /// offline where it is new; one that was not met at all goes offline.
    pub fn merge(&mut self, current: Vec<NodeInfo>, now: &str)
        requires
            counts_fit(record_views(old(self).nodes@), node_views(current@)),
        ensures
            record_views(final(self).nodes@) == others_offline(
                merged_all(record_views(old(self).nodes@), node_views(current@), now@),
                node_views(current@),
            ),
    {
        let ghost cur = node_views(current@);
        let ghost m0 = record_views(self.nodes@);
        let mut met: StrMap<()> = StrMap::new();
        let mut i: usize = 0;
        proof {
            assert(cur.take(0) =~= Seq::<NodeView>::empty());
        }
        while i < current.len()
            invariant
                i <= current@.len(),
                cur == node_views(current@),
                m0 == record_views(old(self).nodes@),
                counts_fit(m0, cur),
                record_views(self.nodes@) == merged_all(m0, cur.take(i as int), now@),
                forall|a: Seq<char>| #[trigger] met@.contains_key(a) <==> among(cur.take(i as int), a),
            decreases current@.len() - i,
        {
            let n = &current[i];
            let ghost t = cur.take(i as int);
            let ghost u = cur.take(i + 1);
            let ghost was = self.nodes@;
            proof {
                assert(u.drop_last() == t);
                assert(u.last() == n@);
                assert(times_before(m0, n.addr@) + handshakes(cur, n.addr@) <= u32::MAX);
                lemma_handshakes_take(cur, n.addr@, i as int);
                lemma_handshakes_take(cur, n.addr@, i + 1);
                lemma_times(m0, t, now@, n.addr@);
                lemma_count_take(
                    cur,
                    |x: NodeView| x.addr == n.addr@ && x.handshaked,
                    i as int,
                );
            }
            let one: NodeInfo = match self.nodes.get(n.addr.as_str()) {
                Some(known) => {
                    if n.handshaked {
                        let mut f = n.clone();
                        f.first_seen = if chars_of(known.first_seen.as_str()).len() == 0 {
                            now.to_owned()
                        } else {
                            known.first_seen.clone()
                        };
                        f.last_seen = now.to_owned();
                        f.times_seen = known.times_seen + 1;
                        f.online = true;
                        assert(f@ =~= refreshed(known@, n@, now@));
                        f
                    } else {
                        let mut f = known.clone();
                        f.online = false;
                        f
                    }
                },
                None => {
                    let mut f = n.clone();
                    f.first_seen = now.to_owned();
                    if n.handshaked {
                        f.last_seen = now.to_owned();
                        f.times_seen = 1;
                        f.online = true;
                    } else {
                        f.times_seen = 0;
                        f.online = false;
                    }
                    assert(f@ =~= first_met(n@, now@));
                    f
                },
            };
            let ghost v = one@;
            met.insert(n.addr.clone(), ());
            self.nodes.insert(n.addr.clone(), one);
            proof {
                assert(record_views(self.nodes@) =~= record_views(was).insert(n.addr@, v));
                assert forall|a: Seq<char>| #[trigger] met@.contains_key(a) <==> among(u, a) by {
                    if among(t, a) {
                        let j = choose|j: int| 0 <= j < t.len() && (#[trigger] t[j]).addr == a;
                        assert(u[j] == t[j]);
                    }
                    if a == n.addr@ {
                        assert(u[i as int].addr == a);
                    }
                    if among(u, a) {
                        let j = choose|j: int| 0 <= j < u.len() && (#[trigger] u[j]).addr == a;
                        if j < i {
                            assert(t[j].addr == a);
                        }
                    }
                }
            }
            i = i + 1;
        }
        assert(cur.take(cur.len() as int) == cur);
        let ghost m1 = self.nodes@;
        let n = self.nodes.len();
        let ghost keys = self.nodes.keys();
        let mut out: StrMap<NodeInfo> = StrMap::new();
        let mut j: usize = 0;
        while j < n
            invariant
                j <= n,
                n == keys.len(),
                keys == self.nodes.keys(),
                m1 == self.nodes@,
                ascending(keys),
                forall|k: Seq<char>| m1.contains_key(k) <==> keys.contains(k),
                forall|a: Seq<char>| #[trigger] met@.contains_key(a) <==> among(cur, a),
                forall|k: Seq<char>| #[trigger]
                    out@.contains_key(k) <==> keys.take(j as int).contains(k),
                forall|k: Seq<char>| #[trigger]
                    out@.contains_key(k) ==> out@[k]@ == (if among(cur, k) {
                        m1[k]@
                    } else {
                        NodeView { online: false, ..m1[k]@ }
                    }),
            decreases n - j,
        {
            let key = self.nodes.key_at(j).clone();
            let rec = self.nodes.value_at(j);
            let mut f = rec.clone();
            if !met.contains(key.as_str()) {
                f.online = false;
            }
            let ghost k0 = key@;
            out.insert(key, f);
            proof {
                let t = keys.take(j as int);
                let u = keys.take(j + 1);
                assert(u == t.push(k0));
                assert forall|k: Seq<char>| #[trigger]
                    out@.contains_key(k) <==> u.contains(k) by {
                    if t.contains(k) {
                        let x = choose|x: int| 0 <= x < t.len() && t[x] == k;
                        assert(u[x] == k);
                    }
                    if u.contains(k) && k != k0 {
                        let x = choose|x: int| 0 <= x < u.len() && u[x] == k;
                        assert(t[x] == k);
                    }
                    assert(u[j as int] == k0);
                }
            }
            j = j + 1;
        }
        proof {
            assert(keys.take(keys.len() as int) == keys);
            let want = others_offline(record_views(m1), cur);
            assert(record_views(out@) =~= want);
        }
        self.nodes = out;
    }

    /// The nodes, in the order of their addresses.
    pub fn into_nodes(self) -> (r: Vec<NodeInfo>)
        ensures
            r@.len() == self.nodes.keys().len(),
            forall|i: int|
                0 <= i < r@.len() ==> #[trigger] r@[i] == self.nodes@[self.nodes.keys()[i]],
            ascending(self.nodes.keys()),
            forall|k: Seq<char>|
                self.nodes@.contains_key(k) <==> self.nodes.keys().contains(k),
    {
        self.nodes.into_values()
    }

    /// How many nodes are online.
    pub fn online_count(&self) -> (r: usize)
        ensures
            r == count(self.nodes.keys(), online_in(self.nodes@)),
            ascending(self.nodes.keys()),
            forall|k: Seq<char>|
                self.nodes@.contains_key(k) <==> self.nodes.keys().contains(k),
    {
        let n = self.nodes.len();
        let ghost keys = self.nodes.keys();
        let ghost on = online_in(self.nodes@);
        let mut c: usize = 0;
        let mut i: usize = 0;
        assert(keys.take(0) =~= Seq::<Seq<char>>::empty());
        while i < n
            invariant
                i <= n,
                n == keys.len(),
                keys == self.nodes.keys(),
                on == online_in(self.nodes@),
                c == count(keys.take(i as int), on),
                c <= i,
            decreases n - i,
        {
            proof {
                lemma_count_take(keys, on, i as int);
            }
            if self.nodes.value_at(i).online {
                c = c + 1;
            }
            i = i + 1;
        }
        assert(keys.take(keys.len() as int) == keys);
        c
    }
}

/// Nodes are never dropped, and those of the crawl are all there.
pub proof fn law_history_keeps_nodes(
    m: Map<Seq<char>, NodeView>,
    cur: Seq<NodeView>,
    now: Seq<char>,
    addr: Seq<char>,
)
    ensures
        others_offline(merged_all(m, cur, now), cur).contains_key(addr) <==> m.contains_key(addr)
            || among(cur, addr),
    decreases cur.len(),
{
    if cur.len() > 0 {
        let d = cur.drop_last();
        law_history_keeps_nodes(m, d, now, addr);
        if among(d, addr) {
            let i = choose|i: int| 0 <= i < d.len() && (#[trigger] d[i]).addr == addr;
            assert(cur[i] == d[i]);
        }
        if among(cur, addr) && addr != cur.last().addr {
            let i = choose|i: int| 0 <= i < cur.len() && (#[trigger] cur[i]).addr == addr;
            assert(d[i] == cur[i]);
        }
        if addr == cur.last().addr {
            assert(cur[cur.len() - 1].addr == addr);
        }
    }
}

/// A node that the crawl did not meet keeps everything that is known of it, but is offline.
pub proof fn law_absent_node_goes_offline(
    m: Map<Seq<char>, NodeView>,
    cur: Seq<NodeView>,
    now: Seq<char>,
    addr: Seq<char>,
)
    requires
        m.contains_key(addr),
        !among(cur, addr),
    ensures
        others_offline(merged_all(m, cur, now), cur)[addr] == (NodeView {
            online: false,
            ..m[addr]
        }),
{
    lemma_untouched(m, cur, now, addr);
}

proof fn lemma_untouched(
    m: Map<Seq<char>, NodeView>,
    cur: Seq<NodeView>,
    now: Seq<char>,
    addr: Seq<char>,
)
    requires
        !among(cur, addr),
    ensures
        found(merged_all(m, cur, now), addr) == found(m, addr),
    decreases cur.len(),
{
    if cur.len() > 0 {
        let d = cur.drop_last();
        assert forall|i: int| 0 <= i < d.len() implies (#[trigger] d[i]).addr != addr by {
            assert(cur[i] == d[i]);
        }
        assert(!among(d, addr));
        assert(cur[cur.len() - 1].addr != addr);
        lemma_untouched(m, d, now, addr);
    }
}

/// A known node that the crawl met but never reached keeps everything that is known of it, but
/// is offline.
pub proof fn law_unreached_node_keeps_its_record(
    m: Map<Seq<char>, NodeView>,
    cur: Seq<NodeView>,
    now: Seq<char>,
    addr: Seq<char>,
)
    requires
        m.contains_key(addr),
        among(cur, addr),
        handshakes(cur, addr) == 0,
    ensures
        others_offline(merged_all(m, cur, now), cur)[addr] == (NodeView {
            online: false,
            ..m[addr]
        }),
    decreases cur.len(),
{
    lemma_unreached(m, cur, now, addr);
}

proof fn lemma_unreached(
    m: Map<Seq<char>, NodeView>,
    cur: Seq<NodeView>,
    now: Seq<char>,
    addr: Seq<char>,
)
    requires
        m.contains_key(addr),
        handshakes(cur, addr) == 0,
    ensures
        merged_all(m, cur, now).contains_key(addr),
        merged_all(m, cur, now)[addr] == (if among(cur, addr) {
            NodeView { online: false, ..m[addr] }
        } else {
            m[addr]
        }),
    decreases cur.len(),
{
    if cur.len() > 0 {
        let d = cur.drop_last();
        lemma_unreached(m, d, now, addr);
        if among(d, addr) {
            let i = choose|i: int| 0 <= i < d.len() && (#[trigger] d[i]).addr == addr;
            assert(cur[i] == d[i]);
        }
        if among(cur, addr) && addr != cur.last().addr {
            let i = choose|i: int| 0 <= i < cur.len() && (#[trigger] cur[i]).addr == addr;
            assert(d[i] == cur[i]);
        }
        if addr == cur.last().addr {
            assert(cur[cur.len() - 1].addr == addr);
        }
    }
}

/// The last record counts where it is of a handshake with this address.
proof fn lemma_handshakes_last(cur: Seq<NodeView>, addr: Seq<char>)
    requires
        cur.len() > 0,
    ensures
        handshakes(cur, addr) == handshakes(cur.drop_last(), addr) + (if cur.last().addr == addr
            && cur.last().handshaked {
            1nat
        } else {
            0nat
        }),
{
}

/// How often a node was reached adds up, and when it was first seen stays.
proof fn lemma_counted(
    m: Map<Seq<char>, NodeView>,
    cur: Seq<NodeView>,
    now: Seq<char>,
    addr: Seq<char>,
)
    requires
        times_before(m, addr) + handshakes(cur, addr) <= u32::MAX,
    ensures
        times_before(merged_all(m, cur, now), addr) == times_before(m, addr) + handshakes(
            cur,
            addr,
        ),
        merged_all(m, cur, now).contains_key(addr) ==> merged_all(m, cur, now)[addr].first_seen == (
        if m.contains_key(addr) && (m[addr].first_seen.len() > 0 || handshakes(cur, addr) == 0) {
            m[addr].first_seen
        } else {
            now
        }),
    decreases cur.len(),
{
    if cur.len() > 0 {
        let d = cur.drop_last();
        let n = cur.last();
        lemma_handshakes_last(cur, addr);
        law_history_keeps_nodes(m, d, now, addr);
        lemma_counted(m, d, now, addr);
        let r = merged_all(m, d, now);
        assert(merged_all(m, cur, now) == r.insert(n.addr, merged(found(r, n.addr), n, now)));
    }
}

/// A node whose last record in the crawl is of a handshake takes over that record: it is online,
/// seen now, counted once more for every handshake, and first seen when it was before.
pub proof fn law_reached_node_is_refreshed(
    m: Map<Seq<char>, NodeView>,
    cur: Seq<NodeView>,
    now: Seq<char>,
    i: int,
)
    requires
        0 <= i < cur.len(),
        cur[i].handshaked,
        forall|j: int| i < j < cur.len() ==> (#[trigger] cur[j]).addr != cur[i].addr,
        times_before(m, cur[i].addr) + handshakes(cur, cur[i].addr) <= u32::MAX,
    ensures
        others_offline(merged_all(m, cur, now), cur)[cur[i].addr] == (NodeView {
            first_seen: if m.contains_key(cur[i].addr) && m[cur[i].addr].first_seen.len() > 0 {
                m[cur[i].addr].first_seen
            } else {
                now
            },
            last_seen: now,
            times_seen: (times_before(m, cur[i].addr) + handshakes(cur, cur[i].addr)) as u32,
            online: true,
            ..cur[i]
        }),
    decreases cur.len(),
{
    let d = cur.drop_last();
    let a = cur[i].addr;
    law_history_keeps_nodes(m, cur, now, a);
    lemma_handshakes_last(cur, a);
    assert(among(cur, a));
    if i == cur.len() - 1 {
        law_history_keeps_nodes(m, d, now, a);
        lemma_counted(m, d, now, a);
    } else {
        assert(d[i] == cur[i]);
        assert forall|j: int| i < j < d.len() implies (#[trigger] d[j]).addr != d[i].addr by {
            assert(cur[j] == d[j]);
        }
        assert(cur[cur.len() - 1].addr != a);
        law_reached_node_is_refreshed(m, d, now, i);
        law_history_keeps_nodes(m, d, now, a);
        assert(among(d, a));
    }
}

/// The keys of the entries that meet `f`.
spec fn keys_where<T>(
    s: Seq<T>,
    f: spec_fn(T) -> bool,
    key: spec_fn(T) -> Seq<char>,
) -> Set<Seq<char>>
    decreases s.len(),
{
    if s.len() == 0 {
        Set::empty()
    } else {
        let r = keys_where(s.drop_last(), f, key);
        if f(s.last()) {
            r.insert(key(s.last()))
        } else {
            r
        }
    }
}

/// Where no key comes twice, as many keys as entries meet `f`.
proof fn lemma_keys_where<T>(s: Seq<T>, f: spec_fn(T) -> bool, key: spec_fn(T) -> Seq<char>)
    ensures
        keys_where(s, f, key).finite(),
        forall|k: Seq<char>| #[trigger]
            keys_where(s, f, key).contains(k) <==> exists|i: int|
                0 <= i < s.len() && f(#[trigger] s[i]) && key(s[i]) == k,
        (forall|i: int, j: int|
            0 <= i < j < s.len() ==> key(#[trigger] s[i]) != key(#[trigger] s[j])) ==> keys_where(
            s,
            f,
            key,
        ).len() == count(s, f),
    decreases s.len(),
{
    if s.len() > 0 {
        let d = s.drop_last();
        let r = keys_where(d, f, key);
        lemma_keys_where(d, f, key);
        assert forall|k: Seq<char>| #[trigger]
            keys_where(s, f, key).contains(k) <==> exists|i: int|
                0 <= i < s.len() && f(#[trigger] s[i]) && key(s[i]) == k by {
            if r.contains(k) {
                let i = choose|i: int| 0 <= i < d.len() && f(#[trigger] d[i]) && key(d[i]) == k;
                assert(s[i] == d[i]);
            }
            if exists|i: int| 0 <= i < s.len() && f(#[trigger] s[i]) && key(s[i]) == k {
                let i = choose|i: int| 0 <= i < s.len() && f(#[trigger] s[i]) && key(s[i]) == k;
                if i < d.len() {
                    assert(d[i] == s[i]);
                }
            }
            if f(s.last()) && key(s.last()) == k {
                assert(s[s.len() - 1] == s.last());
            }
        }
        if forall|i: int, j: int|
            0 <= i < j < s.len() ==> key(#[trigger] s[i]) != key(#[trigger] s[j]) {
            assert forall|i: int, j: int| 0 <= i < j < d.len() implies key(#[trigger] d[i]) != key(
                #[trigger] d[j],
            ) by {
                assert(d[i] == s[i] && d[j] == s[j]);
            }
            if r.contains(key(s.last())) {
                let i = choose|i: int|
                    0 <= i < d.len() && f(#[trigger] d[i]) && key(d[i]) == key(s.last());
                assert(s[i] == d[i] && s[s.len() - 1] == s.last());
                assert(false);
            }
        }
    }
}

/// A node that the crawl met once is online afterwards exactly where it was reached.
proof fn lemma_met_once(
    m: Map<Seq<char>, NodeView>,
    cur: Seq<NodeView>,
    now: Seq<char>,
    i: int,
)
    requires
        0 <= i < cur.len(),
        forall|x: int, y: int|
            0 <= x < y < cur.len() ==> (#[trigger] cur[x]).addr != (#[trigger] cur[y]).addr,
    ensures
        merged_all(m, cur, now).contains_key(cur[i].addr),
        merged_all(m, cur, now)[cur[i].addr].online == cur[i].handshaked,
    decreases cur.len(),
{
    let d = cur.drop_last();
    if i < d.len() {
        assert forall|x: int, y: int| 0 <= x < y < d.len() implies (#[trigger] d[x]).addr != (
        #[trigger] d[y]).addr by {
            assert(d[x] == cur[x] && d[y] == cur[y]);
        }
        assert(d[i] == cur[i]);
        assert(cur[i].addr != cur[cur.len() - 1].addr);
        lemma_met_once(m, d, now, i);
    }
}

/// After a crawl whose addresses are all different was merged, as many nodes are online as the
/// crawl reached, whatever the store held before.
pub proof fn law_online_after_merge(
    before: History,
    current: Seq<NodeInfo>,
    now: Seq<char>,
    after: History,
)
    requires
        forall|i: int, j: int|
            0 <= i < j < current.len() ==> (#[trigger] current[i]).addr@ != (
            #[trigger] current[j]).addr@,
        record_views(after.nodes@) == others_offline(
            merged_all(record_views(before.nodes@), node_views(current), now),
            node_views(current),
        ),
        ascending(after.nodes.keys()),
        forall|k: Seq<char>| after.nodes@.contains_key(k) <==> after.nodes.keys().contains(k),
    ensures
        count(after.nodes.keys(), online_in(after.nodes@)) == count(current, was_reached()),
{
    let m = record_views(before.nodes@);
    let cur = node_views(current);
    let keys = after.nodes.keys();
    let on = online_in(after.nodes@);
    let same = |k: Seq<char>| k;
    let addr = |n: NodeInfo| n.addr@;
    let all = merged_all(m, cur, now);
    let end = others_offline(all, cur);
    lemma_keys_where(keys, on, same);
    lemma_keys_where(current, was_reached(), addr);
    assert forall|i: int, j: int| 0 <= i < j < keys.len() implies same(#[trigger] keys[i]) != same(
        #[trigger] keys[j],
    ) by {
        assert(lex_less(keys[i], keys[j]));
        lemma_lex_irreflexive(keys[i]);
    }
    assert forall|x: int, y: int| 0 <= x < y < cur.len() implies (#[trigger] cur[x]).addr != (
    #[trigger] cur[y]).addr by {
        assert(current[x].addr@ != current[y].addr@);
    }
    let a = keys_where(keys, on, same);
    let b = keys_where(current, was_reached(), addr);
    assert forall|k: Seq<char>| #[trigger] a.contains(k) == b.contains(k) by {
        if a.contains(k) {
            let i = choose|i: int| 0 <= i < keys.len() && on(#[trigger] keys[i]) && same(keys[i]) == k;
            assert(keys.contains(k));
            assert(end.contains_key(k) && end[k] == after.nodes@[k]@);
            let j = choose|j: int| 0 <= j < cur.len() && (#[trigger] cur[j]).addr == k;
            assert(cur[j].addr == k);
            lemma_met_once(m, cur, now, j);
            assert(addr(current[j]) == k && was_reached()(current[j]));
        }
        if b.contains(k) {
            let j = choose|j: int|
                0 <= j < current.len() && was_reached()(#[trigger] current[j]) && addr(current[j])
                    == k;
            assert(cur[j].addr == k);
            lemma_met_once(m, cur, now, j);
            assert(end.contains_key(k));
            assert(record_views(after.nodes@).contains_key(k));
            assert(end[k] == after.nodes@[k]@);
            assert(after.nodes@.contains_key(k) && keys.contains(k));
            let i = choose|i: int| 0 <= i < keys.len() && keys[i] == k;
            assert(on(keys[i]) && same(keys[i]) == k);
        }
    }
    assert(a =~= b);
}

/// A node that a crawl met once and no history knew is recorded as it was met: online and counted
/// once where it was reached, offline and not counted where it was not, first seen now either way.
pub proof fn law_new_node_is_recorded(
    m: Map<Seq<char>, NodeView>,
    cur: Seq<NodeView>,
    now: Seq<char>,
    i: int,
)
    requires
        0 <= i < cur.len(),
        !m.contains_key(cur[i].addr),
        forall|j: int| 0 <= j < cur.len() && j != i ==> (#[trigger] cur[j]).addr != cur[i].addr,
    ensures
        ({
            let r = others_offline(merged_all(m, cur, now), cur)[cur[i].addr];
            &&& r.first_seen == now
            &&& r.online == cur[i].handshaked
            &&& cur[i].handshaked ==> r.times_seen == 1 && r.last_seen == now
            &&& !cur[i].handshaked ==> r.times_seen == 0 && r.last_seen == cur[i].last_seen
            &&& r.handshaked == cur[i].handshaked && r.user_agent == cur[i].user_agent
            &&& r.implementation == cur[i].implementation && r.version == cur[i].version
            &&& r.bip110 == cur[i].bip110 && r.depth == cur[i].depth && r.addr == cur[i].addr
            &&& r.services == cur[i].services && r.start_height == cur[i].start_height
            &&& r.chain_hash == cur[i].chain_hash && r.latency_ms == cur[i].latency_ms
        }),
    decreases cur.len(),
{
    let a = cur[i].addr;
    assert(among(cur, a));
    law_history_keeps_nodes(m, cur, now, a);
    lemma_one_record(m, cur, now, i);
}

proof fn lemma_one_record(
    m: Map<Seq<char>, NodeView>,
    cur: Seq<NodeView>,
    now: Seq<char>,
    i: int,
)
    requires
        0 <= i < cur.len(),
        !m.contains_key(cur[i].addr),
        forall|j: int| 0 <= j < cur.len() && j != i ==> (#[trigger] cur[j]).addr != cur[i].addr,
    ensures
        merged_all(m, cur, now).contains_key(cur[i].addr),
        merged_all(m, cur, now)[cur[i].addr] == first_met(cur[i], now),
    decreases cur.len(),
{
    let d = cur.drop_last();
    let k = cur.len() - 1;
    if i == k {
        assert forall|j: int| 0 <= j < d.len() implies (#[trigger] d[j]).addr != cur[i].addr by {
            assert(d[j] == cur[j]);
        }
        assert(!among(d, cur[i].addr));
        lemma_untouched(m, d, now, cur[i].addr);
    } else {
        assert(d[i] == cur[i]);
        assert forall|j: int| 0 <= j < d.len() && j != i implies (#[trigger] d[j]).addr
            != d[i].addr by {
            assert(d[j] == cur[j]);
        }
        lemma_one_record(m, d, now, i);
        assert(cur[k].addr != cur[i].addr);
    }
}

/// There is always room for a cycle that reached nobody, and where there is room for a list of nodes
/// there is room for one of them less. One more node reached needs room for one more.
pub proof fn law_room_for_a_cycle(m: Map<Seq<char>, NodeView>, cur: Seq<NodeView>, n: NodeView)
    ensures
        counts_fit(m, seq![]),
        counts_fit(m, cur.push(n)) ==> counts_fit(m, cur),
        counts_fit(m, cur) && !n.handshaked ==> counts_fit(m, cur.push(n)),
        n.handshaked && m.contains_key(n.addr) && m[n.addr].times_seen == u32::MAX ==> !counts_fit(
            m,
            cur.push(n),
        ),
        n.handshaked && m.contains_key(n.addr) && m[n.addr].times_seen < u32::MAX && cur.len() == 0
            ==> counts_fit(m, cur.push(n)),
{
    let more = cur.push(n);
    assert(more.take(cur.len() as int) =~= cur);
    assert(more.take(more.len() as int) =~= more);
    assert forall|a: Seq<char>| #[trigger]
        handshakes(more, a) == handshakes(cur, a) + (if n.addr == a && n.handshaked {
            1nat
        } else {
            0
        }) by {
        lemma_count_take(more, |x: NodeView| x.addr == a && x.handshaked, cur.len() as int);
    }
    if counts_fit(m, more) {
        assert forall|a: Seq<char>| times_before(m, a) + #[trigger] handshakes(cur, a)
            <= u32::MAX by {
            assert(times_before(m, a) + handshakes(more, a) <= u32::MAX);
        }
        assert(times_before(m, n.addr) + handshakes(more, n.addr) <= u32::MAX);
    }
    assert forall|a: Seq<char>| times_before(m, a) + #[trigger] handshakes(seq![], a)
        <= u32::MAX by {}
}

} // verus!
