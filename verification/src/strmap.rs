//! A map keyed by text, kept in ascending order of its keys.
use vstd::prelude::*;

use crate::order::lemma_listed_unique;
use crate::text::{
    ascending, lemma_lex_asymmetric, lemma_lex_irreflexive, lemma_lex_total, lemma_lex_transitive,
    lex_less, same_text, text_less,
};

verus! {

/// A map from text to `V`. Its entries stand in ascending order of their keys, each key once.
pub struct StrMap<V> {
    entries: Vec<(String, V)>,
}

/// The keys of `e`, in order.
pub open spec fn keys_of<V>(e: Seq<(String, V)>) -> Seq<Seq<char>> {
    Seq::new(e.len(), |i: int| e[i].0@)
}

/// The map that `e` writes down.
pub open spec fn map_of<V>(e: Seq<(String, V)>) -> Map<Seq<char>, V>
    decreases e.len(),
{
    if e.len() == 0 {
        Map::empty()
    } else {
        map_of(e.drop_last()).insert(e.last().0@, e.last().1)
    }
}

/// In a list with ascending keys, each entry is what the map gives for its key, and the map
/// has no other keys.
proof fn lemma_map_of<V>(e: Seq<(String, V)>)
    requires
        ascending(keys_of(e)),
    ensures
        forall|i: int|
            0 <= i < e.len() ==> map_of(e).contains_key(#[trigger] e[i].0@) && map_of(
                e,
            )[e[i].0@] == e[i].1,
        forall|k: Seq<char>| #[trigger]
            map_of(e).contains_key(k) ==> keys_of(e).contains(k),
        map_of(e).dom().finite(),
        map_of(e).dom().len() == e.len(),
    decreases e.len(),
{
    if e.len() > 0 {
        let d = e.drop_last();
        assert forall|i: int, j: int| 0 <= i < j < keys_of(d).len() implies #[trigger] lex_less(
            keys_of(d)[i],
            keys_of(d)[j],
        ) by {
            assert(lex_less(keys_of(e)[i], keys_of(e)[j]));
        }
        lemma_map_of(d);
        assert forall|i: int| 0 <= i < d.len() implies e[i].0@ != e.last().0@ by {
            assert(lex_less(keys_of(e)[i], keys_of(e)[e.len() - 1]));
            lemma_lex_irreflexive(e[i].0@);
        }
        assert forall|i: int| 0 <= i < e.len() implies map_of(e).contains_key(#[trigger] e[i].0@)
            && map_of(e)[e[i].0@] == e[i].1 by {
            if i < d.len() {
                assert(d[i] == e[i]);
                assert(map_of(d).contains_key(d[i].0@));
            }
        }
        assert forall|k: Seq<char>| #[trigger] map_of(e).contains_key(k) implies keys_of(
            e,
        ).contains(k) by {
            if k == e.last().0@ {
                assert(keys_of(e)[e.len() - 1] == k);
            } else {
                assert(map_of(d).contains_key(k));
                let i = choose|i: int| 0 <= i < keys_of(d).len() && keys_of(d)[i] == k;
                assert(keys_of(e)[i] == k);
            }
        }
        if map_of(d).contains_key(e.last().0@) {
            let i = choose|i: int| 0 <= i < keys_of(d).len() && keys_of(d)[i] == e.last().0@;
            assert(d[i].0@ == e.last().0@);
            assert(e[i].0@ != e.last().0@);
        }
        assert(map_of(e).dom() == map_of(d).dom().insert(e.last().0@));
    }
}

/// Two ascending lists that write down the same pairs write down the same map.
proof fn lemma_map_of_set<V>(e: Seq<(String, V)>, i: int, k: String, v: V)
    requires
        ascending(keys_of(e)),
        0 <= i <= e.len(),
        ascending(keys_of(e.insert(i, (k, v)))),
    ensures
        map_of(e.insert(i, (k, v))) == map_of(e).insert(k@, v),
{
    let f = e.insert(i, (k, v));
    lemma_map_of(e);
    lemma_map_of(f);
    assert forall|q: Seq<char>| #[trigger]
        map_of(f).contains_key(q) <==> map_of(e).insert(k@, v).contains_key(q) by {
        if map_of(f).contains_key(q) {
            let j = choose|j: int| 0 <= j < keys_of(f).len() && keys_of(f)[j] == q;
            assert(f[j].0@ == q);
            if j < i {
                assert(f[j] == e[j]);
            } else if j > i {
                assert(f[j] == e[j - 1]);
            }
        }
        if q == k@ {
            assert(f[i].0@ == q);
        } else if map_of(e).contains_key(q) {
            let j = choose|j: int| 0 <= j < keys_of(e).len() && keys_of(e)[j] == q;
            assert(e[j].0@ == q);
            if j < i {
                assert(f[j] == e[j]);
            } else {
                assert(f[j + 1] == e[j]);
            }
        }
    }
    assert forall|q: Seq<char>| #[trigger] map_of(f).contains_key(q) implies map_of(f)[q]
        == map_of(e).insert(k@, v)[q] by {
        let j = choose|j: int| 0 <= j < keys_of(f).len() && keys_of(f)[j] == q;
        assert(f[j].0@ == q);
        assert(f[i].0@ == k@);
        if j < i {
            assert(f[j] == e[j]);
            assert(lex_less(keys_of(f)[j], keys_of(f)[i]));
            lemma_lex_irreflexive(q);
        } else if j > i {
            assert(f[j] == e[j - 1]);
            assert(lex_less(keys_of(f)[i], keys_of(f)[j]));
            lemma_lex_irreflexive(q);
        }
    }
    assert(map_of(f) =~= map_of(e).insert(k@, v));
}

/// Replacing the value at a position replaces the value of its key.
proof fn lemma_map_of_update<V>(e: Seq<(String, V)>, i: int, p: (String, V))
    requires
        ascending(keys_of(e)),
        0 <= i < e.len(),
        p.0@ == e[i].0@,
    ensures
        ascending(keys_of(e.update(i, p))),
        map_of(e.update(i, p)) == map_of(e).insert(p.0@, p.1),
{
    let f = e.update(i, p);
    assert(keys_of(f) =~= keys_of(e));
    lemma_map_of(e);
    lemma_map_of(f);
    assert forall|q: Seq<char>| #[trigger]
        map_of(f).contains_key(q) <==> map_of(e).insert(p.0@, p.1).contains_key(q) by {
        if map_of(f).contains_key(q) {
            let j = choose|j: int| 0 <= j < keys_of(f).len() && keys_of(f)[j] == q;
            assert(e[j].0@ == q);
        }
        if map_of(e).insert(p.0@, p.1).contains_key(q) {
            if q == p.0@ {
                assert(f[i].0@ == q);
            } else {
                let j = choose|j: int| 0 <= j < keys_of(e).len() && keys_of(e)[j] == q;
                assert(f[j].0@ == q);
            }
        }
    }
    assert forall|q: Seq<char>| #[trigger] map_of(f).contains_key(q) implies map_of(f)[q]
        == map_of(e).insert(p.0@, p.1)[q] by {
        let j = choose|j: int| 0 <= j < keys_of(f).len() && keys_of(f)[j] == q;
        assert(f[j].0@ == q);
        if j != i {
            assert(f[j] == e[j]);
            if q == p.0@ {
                if i < j {
                    assert(lex_less(keys_of(e)[i], keys_of(e)[j]));
                } else {
                    assert(lex_less(keys_of(e)[j], keys_of(e)[i]));
                }
                lemma_lex_irreflexive(q);
            }
        }
    }
    assert(map_of(f) =~= map_of(e).insert(p.0@, p.1));
}

impl<V> View for StrMap<V> {
    type V = Map<Seq<char>, V>;

    closed spec fn view(&self) -> Map<Seq<char>, V> {
        map_of(self.entries@)
    }
}

impl<V> StrMap<V> {
    #[verifier::type_invariant]
    spec fn ordered(self) -> bool {
        ascending(keys_of(self.entries@))
    }

    /// The keys in ascending order.
    pub closed spec fn keys(&self) -> Seq<Seq<char>> {
        keys_of(self.entries@)
    }

    /// The empty map.
    pub fn new() -> (r: Self)
        ensures
            r@ == Map::<Seq<char>, V>::empty(),
    {
        StrMap { entries: Vec::new() }
    }

    /// How many keys there are. What is known of the order of the keys comes with it.
    pub fn len(&self) -> (r: usize)
        ensures
            r == self.keys().len(),
            r == self@.dom().len(),
            self@.dom().finite(),
            ascending(self.keys()),
            forall|k: Seq<char>| self@.contains_key(k) <==> self.keys().contains(k),
    {
        proof {
            use_type_invariant(self);
            lemma_map_of(self.entries@);
            assert forall|k: Seq<char>| self.keys().contains(k) implies self@.contains_key(k) by {
                let i = choose|i: int| 0 <= i < self.keys().len() && self.keys()[i] == k;
                assert(self.entries@[i].0@ == k);
            }
        }
        self.entries.len()
    }

    /// The key at position `i` of the order.
    pub fn key_at(&self, i: usize) -> (r: &String)
        requires
            i < self.keys().len(),
        ensures
            r@ == self.keys()[i as int],
            self@.contains_key(r@),
    {
        proof {
            use_type_invariant(self);
            lemma_map_of(self.entries@);
        }
        &self.entries[i].0
    }

    /// The value at position `i` of the order.
    pub fn value_at(&self, i: usize) -> (r: &V)
        requires
            i < self.keys().len(),
        ensures
            self@.contains_key(self.keys()[i as int]),
            *r == self@[self.keys()[i as int]],
    {
        proof {
            use_type_invariant(self);
            lemma_map_of(self.entries@);
            assert(self.entries@[i as int].0@ == self.keys()[i as int]);
        }
        &self.entries[i].1
    }

    /// The first position whose key is not below `k`.
    fn position(&self, k: &str) -> (r: usize)
        ensures
            r <= self.entries@.len(),
            forall|j: int| 0 <= j < r ==> lex_less(#[trigger] self.entries@[j].0@, k@),
            forall|j: int|
                r <= j < self.entries@.len() ==> !lex_less(#[trigger] self.entries@[j].0@, k@),
    {
        proof {
            use_type_invariant(self);
        }
        let mut lo: usize = 0;
        let mut hi: usize = self.entries.len();
        while lo < hi
            invariant
                lo <= hi <= self.entries@.len(),
                ascending(keys_of(self.entries@)),
                forall|j: int| 0 <= j < lo ==> lex_less(#[trigger] self.entries@[j].0@, k@),
                forall|j: int|
                    hi <= j < self.entries@.len() ==> !lex_less(#[trigger] self.entries@[j].0@, k@),
            decreases hi - lo,
        {
            let mid: usize = lo + (hi - lo) / 2;
            if text_less(self.entries[mid].0.as_str(), k) {
                assert forall|j: int| 0 <= j < mid + 1 implies lex_less(
                    #[trigger] self.entries@[j].0@,
                    k@,
                ) by {
                    if j < mid {
                        assert(lex_less(keys_of(self.entries@)[j], keys_of(self.entries@)[mid as int]));
                        lemma_lex_transitive(self.entries@[j].0@, self.entries@[mid as int].0@, k@);
                    }
                }
                lo = mid + 1;
            } else {
                assert forall|j: int| mid <= j < self.entries@.len() implies !lex_less(
                    #[trigger] self.entries@[j].0@,
                    k@,
                ) by {
                    if mid < j && lex_less(self.entries@[j].0@, k@) {
                        assert(lex_less(keys_of(self.entries@)[mid as int], keys_of(self.entries@)[j]));
                        lemma_lex_transitive(self.entries@[mid as int].0@, self.entries@[j].0@, k@);
                    }
                }
                hi = mid;
            }
        }
        lo
    }

    /// The position of `k`, where it is a key.
    fn find(&self, k: &str) -> (r: Option<usize>)
        ensures
            match r {
                Some(i) => i < self.entries@.len() && self.entries@[i as int].0@ == k@,
                None => !self@.contains_key(k@),
            },
    {
        let i = self.position(k);
        proof {
            use_type_invariant(self);
            lemma_map_of(self.entries@);
        }
        if i < self.entries.len() && same_text(self.entries[i].0.as_str(), k) {
            return Some(i);
        }
        proof {
            if self@.contains_key(k@) {
                let j = choose|j: int|
                    0 <= j < keys_of(self.entries@).len() && keys_of(self.entries@)[j] == k@;
                assert(self.entries@[j].0@ == k@);
                lemma_lex_irreflexive(k@);
                assert(j > i);
                assert(lex_less(keys_of(self.entries@)[i as int], keys_of(self.entries@)[j]));
            }
        }
        None
    }

    /// Whether `k` is a key.
    pub fn contains(&self, k: &str) -> (r: bool)
        ensures
            r == self@.contains_key(k@),
    {
        let f = self.find(k);
        proof {
            use_type_invariant(self);
            lemma_map_of(self.entries@);
        }
        f.is_some()
    }

    /// The value of `k`.
    pub fn get(&self, k: &str) -> (r: Option<&V>)
        ensures
            match r {
                Some(v) => self@.contains_key(k@) && *v == self@[k@],
                None => !self@.contains_key(k@),
            },
    {
        proof {
            use_type_invariant(self);
            lemma_map_of(self.entries@);
        }
        match self.find(k) {
            Some(i) => Some(&self.entries[i].1),
            None => None,
        }
    }

    /// Gives `k` the value `v`, in place of any that it had.
    pub fn insert(&mut self, k: String, v: V)
        ensures
            final(self)@ == old(self)@.insert(k@, v),
    {
        let i = self.position(k.as_str());
        let f = self.find(k.as_str());
        proof {
            use_type_invariant(&*self);
        }
        let ghost before = self.entries@;
        let mut e: Vec<(String, V)> = Vec::new();
        std::mem::swap(&mut e, &mut self.entries);
        match f {
            Some(j) => {
                proof {
                    lemma_map_of_update(before, j as int, (k, v));
                }
                e.set(j, (k, v));
            },
            None => {
                proof {
                    lemma_map_of(before);
                    let n = before.insert(i as int, (k, v));
                    assert forall|a: int, b: int|
                        0 <= a < b < keys_of(n).len() implies #[trigger] lex_less(
                        keys_of(n)[a],
                        keys_of(n)[b],
                    ) by {
                        if b < i {
                            assert(lex_less(keys_of(before)[a], keys_of(before)[b]));
                        } else if b == i {
                            assert(n[a] == before[a]);
                        } else if a < i {
                            assert(lex_less(keys_of(before)[a], keys_of(before)[b - 1]));
                        } else if a == i {
                            assert(n[b] == before[b - 1]);
                            assert(before[b - 1].0@ != k@);
                            lemma_lex_total(k@, before[b - 1].0@);
                        } else {
                            assert(lex_less(keys_of(before)[a - 1], keys_of(before)[b - 1]));
                        }
                    }
                    lemma_map_of_set(before, i as int, k, v);
                }
                e.insert(i, (k, v));
            },
        }
        self.entries = e;
    }

    /// The values in ascending order of their keys.
    pub fn into_values(self) -> (r: Vec<V>)
        ensures
            r@.len() == self.keys().len(),
            forall|i: int| 0 <= i < r@.len() ==> #[trigger] r@[i] == self@[self.keys()[i]],
            ascending(self.keys()),
            forall|k: Seq<char>| self@.contains_key(k) <==> self.keys().contains(k),
    {
        let n = self.len();
        proof {
            use_type_invariant(&self);
            lemma_map_of(self.entries@);
        }
        let ghost all = self.entries@;
        let mut rest: Vec<(String, V)> = self.entries;
        let mut back: Vec<V> = Vec::new();
        while rest.len() > 0
            invariant
                rest@.len() + back@.len() == all.len(),
                rest@ == all.take(rest@.len() as int),
                forall|i: int|
                    0 <= i < back@.len() ==> #[trigger] back@[i] == all[all.len() - 1 - i].1,
            decreases rest.len(),
        {
            let last = rest.pop();
            if let Some(p) = last {
                back.push(p.1);
            }
        }
        let mut r: Vec<V> = Vec::new();
        while back.len() > 0
            invariant
                r@.len() + back@.len() == all.len(),
                forall|i: int|
                    0 <= i < back@.len() ==> #[trigger] back@[i] == all[all.len() - 1 - i].1,
                forall|i: int| 0 <= i < r@.len() ==> #[trigger] r@[i] == all[i].1,
            decreases back.len(),
        {
            let last = back.pop();
            if let Some(v) = last {
                r.push(v);
            }
        }
        assert forall|i: int| 0 <= i < r@.len() implies #[trigger] r@[i] == self@[self.keys()[i]] by {
            assert(all[i].0@ == self.keys()[i]);
        }
        r
    }
}

// ---- counting -----------------------------------------------------------------------------

/// What lies under a key.
pub open spec fn found<V>(m: Map<Seq<char>, V>, k: Seq<char>) -> Option<V> {
    if m.contains_key(k) {
        Some(m[k])
    } else {
        None
    }
}

/// How often each key occurs in `keys`.
pub open spec fn tally(keys: Seq<Seq<char>>) -> Map<Seq<char>, usize>
    decreases keys.len(),
{
    if keys.len() == 0 {
        Map::empty()
    } else {
        let m = tally(keys.drop_last());
        let k = keys.last();
        m.insert(
            k,
            if m.contains_key(k) {
                (m[k] + 1) as usize
            } else {
                1usize
            },
        )
    }
}

/// How often `k` occurs in `keys`.
pub open spec fn occurrences(keys: Seq<Seq<char>>, k: Seq<char>) -> nat
    decreases keys.len(),
{
    if keys.len() == 0 {
        0
    } else {
        occurrences(keys.drop_last(), k) + (if keys.last() == k {
            1nat
        } else {
            0nat
        })
    }
}

/// The tally has the keys that occur, each with the number of its occurrences.
pub proof fn law_tally_counts(keys: Seq<Seq<char>>)
    requires
        keys.len() <= usize::MAX,
    ensures
        forall|k: Seq<char>| #[trigger] tally(keys).contains_key(k) <==> keys.contains(k),
        forall|k: Seq<char>| #[trigger] tally(keys).contains_key(k) ==> tally(keys)[k]
            == occurrences(keys, k) && 1 <= tally(keys)[k] <= keys.len(),
        forall|k: Seq<char>| !tally(keys).contains_key(k) ==> #[trigger] occurrences(keys, k) == 0,
    decreases keys.len(),
{
    if keys.len() > 0 {
        let d = keys.drop_last();
        law_tally_counts(d);
        assert forall|k: Seq<char>| #[trigger] tally(keys).contains_key(k) <==> keys.contains(
            k,
        ) by {
            if keys.contains(k) && k != keys.last() {
                let i = choose|i: int| 0 <= i < keys.len() && keys[i] == k;
                assert(d[i] == k);
                assert(d.contains(k));
            }
            if tally(d).contains_key(k) {
                let i = choose|i: int| 0 <= i < d.len() && d[i] == k;
                assert(keys[i] == k);
            }
            if k == keys.last() {
                assert(keys[keys.len() - 1] == k);
            }
        }
        assert forall|k: Seq<char>| #[trigger] tally(keys).contains_key(k) implies tally(keys)[k]
            == occurrences(keys, k) && 1 <= tally(keys)[k] <= keys.len() by {
            assert(occurrences(d, k) >= 0);
            if tally(d).contains_key(k) {
                assert(tally(d)[k] == occurrences(d, k));
            }
        }
        assert forall|k: Seq<char>| !tally(keys).contains_key(k) implies #[trigger] occurrences(
            keys,
            k,
        ) == 0 by {
            assert(!tally(d).contains_key(k));
            assert(occurrences(d, k) == 0);
        }
    }
}

/// There are no more different keys than there are keys.
pub proof fn lemma_tally_size(keys: Seq<Seq<char>>)
    ensures
        tally(keys).dom().finite(),
        tally(keys).dom().len() <= keys.len(),
    decreases keys.len(),
{
    if keys.len() > 0 {
        lemma_tally_size(keys.drop_last());
        let m = tally(keys.drop_last());
        assert(tally(keys).dom() == m.dom().insert(keys.last()));
    }
}

impl StrMap<usize> {
    /// Counts one more occurrence of `k`.
    pub fn bump(&mut self, k: String)
        requires
            old(self)@.contains_key(k@) ==> old(self)@[k@] < usize::MAX,
        ensures
            final(self)@ == old(self)@.insert(
                k@,
                if old(self)@.contains_key(k@) {
                    (old(self)@[k@] + 1) as usize
                } else {
                    1usize
                },
            ),
    {
        let n: usize = match self.get(k.as_str()) {
            Some(c) => *c + 1,
            None => 1,
        };
        self.insert(k, n);
    }
}

/// Two lists in ascending order with the same members are the same list.
pub proof fn law_ascending_order_is_unique(a: Seq<Seq<char>>, b: Seq<Seq<char>>)
    requires
        ascending(a),
        ascending(b),
        forall|k: Seq<char>| a.contains(k) <==> b.contains(k),
    ensures
        a == b,
{
    let less = |x: Seq<char>, y: Seq<char>| lex_less(x, y);
    assert forall|x: Seq<char>, y: Seq<char>| #[trigger] less(x, y) implies !less(y, x) by {
        lemma_lex_asymmetric(x, y);
    }
    assert forall|i: int, j: int| 0 <= i < j < a.len() implies less(
        #[trigger] a[i],
        #[trigger] a[j],
    ) by {
        assert(lex_less(a[i], a[j]));
    }
    assert forall|i: int, j: int| 0 <= i < j < b.len() implies less(
        #[trigger] b[i],
        #[trigger] b[j],
    ) by {
        assert(lex_less(b[i], b[j]));
    }
    lemma_listed_unique(a, b, less);
}

} // verus!
