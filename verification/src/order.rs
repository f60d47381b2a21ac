//! Stable sorting: the order of positions by key, equal keys in their given order.
use vstd::prelude::*;

use crate::node::{count, law_count_ignores_order, lemma_count_value};
use crate::text::{
    chars_less, lemma_lex_asymmetric, lemma_lex_irreflexive, lemma_lex_total, lemma_lex_transitive,
    lex_less,
};

verus! {

/// What can be sorted by.
pub trait SortKey: Sized {
    /// Whether this key comes before the other.
    spec fn below(self, other: Self) -> bool;

    /// No key comes before itself.
    proof fn irreflexive(a: Self)
        ensures
            !a.below(a),
    ;

    /// The order is transitive.
    proof fn transitive(a: Self, b: Self, c: Self)
        requires
            a.below(b),
            b.below(c),
        ensures
            a.below(c),
    ;

    /// Keys of which neither comes before the other form classes.
    proof fn not_below_transitive(a: Self, b: Self, c: Self)
        requires
            !a.below(b),
            !b.below(c),
        ensures
            !a.below(c),
    ;

    /// Whether this key comes before the other.
    fn is_below(&self, other: &Self) -> (r: bool)
        ensures
            r == self.below(*other),
    ;
}

impl SortKey for i128 {
    open spec fn below(self, other: Self) -> bool {
        self < other
    }

    proof fn irreflexive(a: Self) {
    }

    proof fn transitive(a: Self, b: Self, c: Self) {
    }

    proof fn not_below_transitive(a: Self, b: Self, c: Self) {
    }

    fn is_below(&self, other: &Self) -> (r: bool) {
        *self < *other
    }
}

impl SortKey for Vec<char> {
    open spec fn below(self, other: Self) -> bool {
        lex_less(self@, other@)
    }

    proof fn irreflexive(a: Self) {
        lemma_lex_irreflexive(a@);
    }

    proof fn transitive(a: Self, b: Self, c: Self) {
        lemma_lex_transitive(a@, b@, c@);
    }

    proof fn not_below_transitive(a: Self, b: Self, c: Self) {
        lemma_lex_total(a@, b@);
        lemma_lex_total(b@, c@);
        if lex_less(a@, c@) {
            if a@ != b@ && b@ != c@ {
                lemma_lex_transitive(c@, b@, a@);
                lemma_lex_asymmetric(a@, c@);
            }
        }
    }

    fn is_below(&self, other: &Self) -> (r: bool) {
        chars_less(self, other)
    }
}

impl<K: SortKey> SortKey for Option<K> {
    /// Nothing comes before something.
    open spec fn below(self, other: Self) -> bool {
        match (self, other) {
            (Some(a), Some(b)) => a.below(b),
            (None, Some(_)) => true,
            _ => false,
        }
    }

    proof fn irreflexive(a: Self) {
        if let Some(x) = a {
            K::irreflexive(x);
        }
    }

    proof fn transitive(a: Self, b: Self, c: Self) {
        if let (Some(x), Some(y), Some(z)) = (a, b, c) {
            K::transitive(x, y, z);
        }
    }

    proof fn not_below_transitive(a: Self, b: Self, c: Self) {
        if let (Some(x), Some(y), Some(z)) = (a, b, c) {
            K::not_below_transitive(x, y, z);
        }
    }

    fn is_below(&self, other: &Self) -> (r: bool) {
        match (self, other) {
            (Some(a), Some(b)) => a.is_below(b),
            (None, Some(_)) => true,
            _ => false,
        }
    }
}

/// A key that sorts the other way round.
pub struct Down<K>(pub K);

impl<K: SortKey> SortKey for Down<K> {
    open spec fn below(self, other: Self) -> bool {
        other.0.below(self.0)
    }

    proof fn irreflexive(a: Self) {
        K::irreflexive(a.0);
    }

    proof fn transitive(a: Self, b: Self, c: Self) {
        K::transitive(c.0, b.0, a.0);
    }

    proof fn not_below_transitive(a: Self, b: Self, c: Self) {
        K::not_below_transitive(c.0, b.0, a.0);
    }

    fn is_below(&self, other: &Self) -> (r: bool) {
        other.0.is_below(&self.0)
    }
}

/// Position `i` comes before position `j`: by key, then by position.
pub open spec fn before<K: SortKey>(keys: Seq<K>, i: int, j: int) -> bool {
    keys[i].below(keys[j]) || (!keys[j].below(keys[i]) && i < j)
}

/// `p` names positions in strictly ascending order.
pub open spec fn in_order<K: SortKey>(keys: Seq<K>, p: Seq<usize>) -> bool {
    forall|i: int, j: int|
        0 <= i < j < p.len() ==> #[trigger] before(keys, p[i] as int, p[j] as int)
}

/// `p` is the stable order of `keys`: every position once, sorted.
pub open spec fn is_order<K: SortKey>(keys: Seq<K>, p: Seq<usize>) -> bool {
    &&& p.len() == keys.len()
    &&& forall|i: int| 0 <= i < p.len() ==> #[trigger] p[i] < keys.len()
    &&& forall|k: usize| k < keys.len() ==> p.contains(k)
    &&& in_order(keys, p)
}

/// The stable order of `keys`.
pub open spec fn order_of<K: SortKey>(keys: Seq<K>) -> Seq<usize> {
    choose|p: Seq<usize>| is_order(keys, p)
}

proof fn lemma_before_irreflexive<K: SortKey>(keys: Seq<K>, i: int)
    ensures
        !before(keys, i, i),
{
    K::irreflexive(keys[i]);
}

proof fn lemma_before_transitive<K: SortKey>(keys: Seq<K>, i: int, j: int, k: int)
    requires
        before(keys, i, j),
        before(keys, j, k),
    ensures
        before(keys, i, k),
{
    let a = keys[i];
    let b = keys[j];
    let c = keys[k];
    if a.below(b) && b.below(c) {
        K::transitive(a, b, c);
    } else if a.below(b) {
        if !a.below(c) {
            K::not_below_transitive(a, c, b);
        }
    } else if b.below(c) {
        if !a.below(c) {
            K::not_below_transitive(b, a, c);
        }
    } else {
        if !a.below(c) {
            K::not_below_transitive(c, b, a);
        }
    }
}

/// Two lists in strictly ascending order with the same members are the same list.
pub proof fn lemma_listed_unique<T>(a: Seq<T>, b: Seq<T>, less: spec_fn(T, T) -> bool)
    requires
        forall|x: T, y: T| #[trigger] less(x, y) ==> !less(y, x),
        forall|i: int, j: int| 0 <= i < j < a.len() ==> less(#[trigger] a[i], #[trigger] a[j]),
        forall|i: int, j: int| 0 <= i < j < b.len() ==> less(#[trigger] b[i], #[trigger] b[j]),
        forall|x: T| a.contains(x) <==> b.contains(x),
    ensures
        a == b,
    decreases a.len(),
{
    if a.len() == 0 {
        if b.len() > 0 {
            assert(b.contains(b[0]));
        }
        assert(a == b);
    } else {
        assert(a.contains(a.last()));
        assert(b.contains(a.last()));
        assert(b.contains(b.last()));
        assert(a.contains(b.last()));
        let i = choose|i: int| 0 <= i < b.len() && b[i] == a.last();
        let j = choose|j: int| 0 <= j < a.len() && a[j] == b.last();
        if a.last() != b.last() {
            assert(less(b[i], b[b.len() - 1]));
            assert(less(a[j], a[a.len() - 1]));
        }
        let c = a.drop_last();
        let d = b.drop_last();
        assert forall|i: int, j: int| 0 <= i < j < c.len() implies less(
            #[trigger] c[i],
            #[trigger] c[j],
        ) by {
            assert(less(a[i], a[j]));
        }
        assert forall|i: int, j: int| 0 <= i < j < d.len() implies less(
            #[trigger] d[i],
            #[trigger] d[j],
        ) by {
            assert(less(b[i], b[j]));
        }
        assert forall|x: T| c.contains(x) <==> d.contains(x) by {
            if c.contains(x) {
                let i = choose|i: int| 0 <= i < c.len() && c[i] == x;
                assert(less(a[i], a[a.len() - 1]));
                assert(a[i] == x);
                assert(a.contains(x));
                let j = choose|j: int| 0 <= j < b.len() && b[j] == x;
                assert(d[j] == x);
            }
            if d.contains(x) {
                let i = choose|i: int| 0 <= i < d.len() && d[i] == x;
                assert(less(b[i], b[b.len() - 1]));
                assert(b[i] == x);
                assert(b.contains(x));
                let j = choose|j: int| 0 <= j < a.len() && a[j] == x;
                assert(c[j] == x);
            }
        }
        lemma_listed_unique(c, d, less);
        assert(a == c.push(a.last()));
        assert(b == d.push(b.last()));
    }
}

/// Two ascending lists of the same positions are the same list.
proof fn lemma_in_order_unique<K: SortKey>(keys: Seq<K>, a: Seq<usize>, b: Seq<usize>)
    requires
        in_order(keys, a),
        in_order(keys, b),
        forall|k: usize| a.contains(k) <==> b.contains(k),
    ensures
        a == b,
{
    let less = |i: usize, j: usize| before(keys, i as int, j as int);
    assert forall|i: usize, j: usize| #[trigger] less(i, j) implies !less(j, i) by {
        if before(keys, j as int, i as int) {
            lemma_before_transitive(keys, i as int, j as int, i as int);
            lemma_before_irreflexive(keys, i as int);
        }
    }
    assert forall|i: int, j: int| 0 <= i < j < a.len() implies less(
        #[trigger] a[i],
        #[trigger] a[j],
    ) by {
        assert(before(keys, a[i] as int, a[j] as int));
    }
    assert forall|i: int, j: int| 0 <= i < j < b.len() implies less(
        #[trigger] b[i],
        #[trigger] b[j],
    ) by {
        assert(before(keys, b[i] as int, b[j] as int));
    }
    lemma_listed_unique(a, b, less);
}

/// There is one stable order.
pub proof fn law_order_is_unique<K: SortKey>(keys: Seq<K>, p: Seq<usize>)
    requires
        is_order(keys, p),
    ensures
        p == order_of(keys),
{
    let q = order_of(keys);
    assert(is_order(keys, q));
    assert forall|k: usize| p.contains(k) <==> q.contains(k) by {
        if p.contains(k) {
            let i = choose|i: int| 0 <= i < p.len() && p[i] == k;
            assert(p[i] < keys.len());
        }
        if q.contains(k) {
            let i = choose|i: int| 0 <= i < q.len() && q[i] == k;
            assert(q[i] < keys.len());
        }
    }
    lemma_in_order_unique(keys, p, q);
}

/// `p` holds the positions from `lo` up to `hi`, sorted.
spec fn sorted_range<K: SortKey>(keys: Seq<K>, p: Seq<usize>, lo: int, hi: int) -> bool {
    &&& p.len() == hi - lo
    &&& forall|i: int| 0 <= i < p.len() ==> lo <= #[trigger] p[i] < hi
    &&& forall|k: usize| lo <= k < hi ==> p.contains(k)
    &&& in_order(keys, p)
}

fn merge<K: SortKey>(
    keys: &Vec<K>,
    left: Vec<usize>,
    right: Vec<usize>,
    Ghost(lo): Ghost<int>,
    Ghost(mid): Ghost<int>,
    Ghost(hi): Ghost<int>,
) -> (r: Vec<usize>)
    requires
        0 <= lo <= mid <= hi <= keys@.len(),
        sorted_range(keys@, left@, lo, mid),
        sorted_range(keys@, right@, mid, hi),
    ensures
        sorted_range(keys@, r@, lo, hi),
{
    let mut out: Vec<usize> = Vec::new();
    let mut i: usize = 0;
    let mut j: usize = 0;
    while i < left.len() || j < right.len()
        invariant
            0 <= lo <= mid <= hi <= keys@.len(),
            sorted_range(keys@, left@, lo, mid),
            sorted_range(keys@, right@, mid, hi),
            i <= left@.len(),
            j <= right@.len(),
            out@.len() == i + j,
            forall|x: int| 0 <= x < out@.len() ==> lo <= #[trigger] out@[x] < hi,
            in_order(keys@, out@),
            forall|x: int, y: int|
                0 <= x < out@.len() && i <= y < left@.len() ==> before(
                    keys@,
                    #[trigger] out@[x] as int,
                    #[trigger] left@[y] as int,
                ),
            forall|x: int, y: int|
                0 <= x < out@.len() && j <= y < right@.len() ==> before(
                    keys@,
                    #[trigger] out@[x] as int,
                    #[trigger] right@[y] as int,
                ),
            forall|x: int| 0 <= x < i ==> out@.contains(#[trigger] left@[x]),
            forall|x: int| 0 <= x < j ==> out@.contains(#[trigger] right@[x]),
        decreases left@.len() + right@.len() - i - j,
    {
        let ghost was = out@;
        let from_left: bool = if i == left.len() {
            false
        } else if j == right.len() {
            true
        } else {
            !keys[right[j]].is_below(&keys[left[i]])
        };
        if from_left {
            let v: usize = left[i];
            out.push(v);
            proof {
                assert forall|x: int, y: int| 0 <= x < y < out@.len() implies #[trigger] before(
                    keys@,
                    out@[x] as int,
                    out@[y] as int,
                ) by {
                    if y < was.len() {
                        assert(before(keys@, was[x] as int, was[y] as int));
                    } else {
                        assert(before(keys@, was[x] as int, left@[i as int] as int));
                    }
                }
                assert forall|x: int, y: int|
                    0 <= x < out@.len() && i + 1 <= y < left@.len() implies before(
                    keys@,
                    #[trigger] out@[x] as int,
                    #[trigger] left@[y] as int,
                ) by {
                    if x < was.len() {
                        assert(before(keys@, was[x] as int, left@[y] as int));
                    } else {
                        assert(before(keys@, left@[i as int] as int, left@[y] as int));
                    }
                }
                assert forall|x: int, y: int|
                    0 <= x < out@.len() && j <= y < right@.len() implies before(
                    keys@,
                    #[trigger] out@[x] as int,
                    #[trigger] right@[y] as int,
                ) by {
                    if x < was.len() {
                        assert(before(keys@, was[x] as int, right@[y] as int));
                    } else {
                        assert(before(keys@, v as int, right@[j as int] as int));
                        if y > j {
                            assert(before(keys@, right@[j as int] as int, right@[y] as int));
                            lemma_before_transitive(
                                keys@,
                                v as int,
                                right@[j as int] as int,
                                right@[y] as int,
                            );
                        }
                    }
                }
                assert forall|x: int| 0 <= x < i + 1 implies out@.contains(#[trigger] left@[x]) by {
                    if x < i {
                        let z = choose|z: int| 0 <= z < was.len() && was[z] == left@[x];
                        assert(out@[z] == left@[x]);
                    } else {
                        assert(out@[was.len() as int] == left@[x]);
                    }
                }
                assert forall|x: int| 0 <= x < j implies out@.contains(#[trigger] right@[x]) by {
                    let z = choose|z: int| 0 <= z < was.len() && was[z] == right@[x];
                    assert(out@[z] == right@[x]);
                }
            }
            i = i + 1;
        } else {
            let v: usize = right[j];
            out.push(v);
            proof {
                assert forall|x: int, y: int| 0 <= x < y < out@.len() implies #[trigger] before(
                    keys@,
                    out@[x] as int,
                    out@[y] as int,
                ) by {
                    if y < was.len() {
                        assert(before(keys@, was[x] as int, was[y] as int));
                    } else {
                        assert(before(keys@, was[x] as int, right@[j as int] as int));
                    }
                }
                assert forall|x: int, y: int|
                    0 <= x < out@.len() && j + 1 <= y < right@.len() implies before(
                    keys@,
                    #[trigger] out@[x] as int,
                    #[trigger] right@[y] as int,
                ) by {
                    if x < was.len() {
                        assert(before(keys@, was[x] as int, right@[y] as int));
                    } else {
                        assert(before(keys@, right@[j as int] as int, right@[y] as int));
                    }
                }
                assert forall|x: int, y: int|
                    0 <= x < out@.len() && i <= y < left@.len() implies before(
                    keys@,
                    #[trigger] out@[x] as int,
                    #[trigger] left@[y] as int,
                ) by {
                    if x < was.len() {
                        assert(before(keys@, was[x] as int, left@[y] as int));
                    } else {
                        assert(before(keys@, v as int, left@[i as int] as int));
                        if y > i {
                            assert(before(keys@, left@[i as int] as int, left@[y] as int));
                            lemma_before_transitive(
                                keys@,
                                v as int,
                                left@[i as int] as int,
                                left@[y] as int,
                            );
                        }
                    }
                }
                assert forall|x: int| 0 <= x < j + 1 implies out@.contains(#[trigger] right@[x]) by {
                    if x < j {
                        let z = choose|z: int| 0 <= z < was.len() && was[z] == right@[x];
                        assert(out@[z] == right@[x]);
                    } else {
                        assert(out@[was.len() as int] == right@[x]);
                    }
                }
                assert forall|x: int| 0 <= x < i implies out@.contains(#[trigger] left@[x]) by {
                    let z = choose|z: int| 0 <= z < was.len() && was[z] == left@[x];
                    assert(out@[z] == left@[x]);
                }
            }
            j = j + 1;
        }
    }
    proof {
        assert forall|k: usize| lo <= k < hi implies out@.contains(k) by {
            if k < mid {
                assert(left@.contains(k));
                let x = choose|x: int| 0 <= x < left@.len() && left@[x] == k;
                assert(out@.contains(left@[x]));
            } else {
                assert(right@.contains(k));
                let x = choose|x: int| 0 <= x < right@.len() && right@[x] == k;
                assert(out@.contains(right@[x]));
            }
        }
    }
    out
}

fn sort_range<K: SortKey>(keys: &Vec<K>, lo: usize, hi: usize) -> (r: Vec<usize>)
    requires
        lo <= hi <= keys@.len(),
    ensures
        sorted_range(keys@, r@, lo as int, hi as int),
    decreases hi - lo,
{
    if hi - lo <= 1 {
        let mut r: Vec<usize> = Vec::new();
        if hi - lo == 1 {
            r.push(lo);
            assert(r@[0] == lo);
        }
        return r;
    }
    let mid: usize = lo + (hi - lo) / 2;
    let left = sort_range(keys, lo, mid);
    let right = sort_range(keys, mid, hi);
    merge(keys, left, right, Ghost(lo as int), Ghost(mid as int), Ghost(hi as int))
}

/// The stable order of `keys`.
pub fn sort_order<K: SortKey>(keys: &Vec<K>) -> (r: Vec<usize>)
    ensures
        is_order(keys@, r@),
        r@ == order_of(keys@),
{
    let r = sort_range(keys, 0, keys.len());
    proof {
        law_order_is_unique(keys@, r@);
    }
    r
}

// ---- sorting values -----------------------------------------------------------------------

/// What can be duplicated.
pub trait Duplicate: Sized {
    /// A value equal to this one.
    fn duplicate(&self) -> (r: Self)
        ensures
            r == *self,
    ;
}

impl Duplicate for i64 {
    fn duplicate(&self) -> (r: Self) {
        *self
    }
}

/// The positions of a sequence, in order.
spec fn positions(n: nat) -> Seq<usize> {
    Seq::new(n, |i: int| i as usize)
}

/// To count the values at positions is to count the positions.
proof fn lemma_count_at<T>(
    p: Seq<usize>,
    out: Seq<T>,
    s: Seq<T>,
    f: spec_fn(T) -> bool,
    g: spec_fn(usize) -> bool,
)
    requires
        out.len() == p.len(),
        forall|i: int| 0 <= i < p.len() ==> #[trigger] out[i] == s[p[i] as int],
        forall|k: usize| #[trigger] g(k) == f(s[k as int]),
    ensures
        count(out, f) == count(p, g),
    decreases p.len(),
{
    if p.len() > 0 {
        lemma_count_at(p.drop_last(), out.drop_last(), s, f, g);
        assert(out.last() == s[p.last() as int]);
    }
}

/// Taking values from all places, each once, keeps them, each as often as it was there.
proof fn lemma_places_keep_values<T>(p: Seq<usize>, out: Seq<T>, s: Seq<T>)
    requires
        p.len() == s.len(),
        out.len() == s.len(),
        s.len() <= usize::MAX,
        p.no_duplicates(),
        forall|i: int| 0 <= i < p.len() ==> (#[trigger] p[i]) < s.len() && out[i] == s[p[i] as int],
        forall|k: usize| k < s.len() ==> p.contains(k),
    ensures
        out.to_multiset() == s.to_multiset(),
{
    broadcast use vstd::seq_lib::group_to_multiset_ensures;
    broadcast use vstd::multiset::group_multiset_axioms;

    let all = positions(s.len());
    assert(all.no_duplicates());
    p.lemma_multiset_has_no_duplicates();
    all.lemma_multiset_has_no_duplicates();
    assert forall|k: usize| p.contains(k) <==> all.contains(k) by {
        if p.contains(k) {
            let i = choose|i: int| 0 <= i < p.len() && p[i] == k;
            assert(p[i] < s.len());
            assert(all[k as int] == k);
        }
        if all.contains(k) {
            let i = choose|i: int| 0 <= i < all.len() && all[i] == k;
            assert(k < s.len());
        }
    }
    assert(p.to_multiset() =~= all.to_multiset()) by {
        assert forall|k: usize| p.to_multiset().count(k) == all.to_multiset().count(k) by {
            assert(p.contains(k) <==> p.to_multiset().count(k) > 0);
            assert(all.contains(k) <==> all.to_multiset().count(k) > 0);
            assert(p.to_multiset().contains(k) <==> p.to_multiset().count(k) > 0);
            assert(all.to_multiset().contains(k) <==> all.to_multiset().count(k) > 0);
        }
    }
    assert forall|x: T| out.to_multiset().count(x) == s.to_multiset().count(x) by {
        let f = |y: T| y == x;
        let g = |k: usize| s[k as int] == x;
        lemma_count_value(out, x);
        lemma_count_value(s, x);
        lemma_count_at(p, out, s, f, g);
        lemma_count_at(all, s, s, f, g);
        law_count_ignores_order(p, all, g);
    }
    assert(out.to_multiset() =~= s.to_multiset());
}

/// Putting values in the order of their keys keeps them, each as often as it was there.
pub proof fn lemma_order_keeps_values<K: SortKey, T>(
    keys: Seq<K>,
    p: Seq<usize>,
    out: Seq<T>,
    s: Seq<T>,
)
    requires
        is_order(keys, p),
        keys.len() == s.len(),
        s.len() <= usize::MAX,
        out.len() == s.len(),
        forall|i: int| 0 <= i < s.len() ==> #[trigger] out[i] == s[p[i] as int],
    ensures
        out.to_multiset() == s.to_multiset(),
{
    assert forall|i: int, j: int| 0 <= i < p.len() && 0 <= j < p.len() && i != j implies p[i]
        != p[j] by {
        if i < j {
            assert(before(keys, p[i] as int, p[j] as int));
        } else {
            assert(before(keys, p[j] as int, p[i] as int));
        }
        lemma_before_irreflexive(keys, p[i] as int);
    }
    assert forall|i: int| 0 <= i < p.len() implies (#[trigger] p[i]) < s.len() && out[i]
        == s[p[i] as int] by {
        assert(out[i] == s[p[i] as int]);
    }
    lemma_places_keep_values(p, out, s);
}

/// `out` holds the values of `s` in the order `p`, and `p` sorts them by `less`, those of which
/// neither is less in their given order.
pub open spec fn arranges<T>(
    p: Seq<usize>,
    out: Seq<T>,
    s: Seq<T>,
    less: spec_fn(T, T) -> bool,
) -> bool {
    &&& p.len() == s.len()
    &&& out.len() == s.len()
    &&& forall|i: int| 0 <= i < p.len() ==> (#[trigger] p[i]) < s.len() && out[i] == s[p[i] as int]
    &&& forall|k: usize| k < s.len() ==> p.contains(k)
    &&& forall|i: int, j: int|
        0 <= i < j < out.len() ==> less(#[trigger] out[i], #[trigger] out[j]) || (!less(
            out[j],
            out[i],
        ) && p[i] < p[j])
}

/// `out` is `s` sorted by `less`, those of which neither is less in their given order.
pub open spec fn stably_sorted<T>(out: Seq<T>, s: Seq<T>, less: spec_fn(T, T) -> bool) -> bool {
    exists|p: Seq<usize>| arranges(p, out, s, less)
}

/// `s` sorted by keys that compare as `less` does.
pub(crate) fn sort_by_keys<T: Duplicate, K: SortKey>(
    s: &Vec<T>,
    keys: &Vec<K>,
    Ghost(less): Ghost<spec_fn(T, T) -> bool>,
) -> (r: Vec<T>)
    requires
        keys@.len() == s@.len(),
        forall|i: int, j: int|
            0 <= i < s@.len() && 0 <= j < s@.len() ==> (#[trigger] keys@[i]).below(
                #[trigger] keys@[j],
            ) == less(s@[i], s@[j]),
    ensures
        stably_sorted(r@, s@, less),
        r@.len() == s@.len(),
{
    let p = sort_order(keys);
    let mut out: Vec<T> = Vec::new();
    let mut i: usize = 0;
    while i < p.len()
        invariant
            i <= p@.len(),
            is_order(keys@, p@),
            keys@.len() == s@.len(),
            out@.len() == i,
            forall|j: int| 0 <= j < i ==> #[trigger] out@[j] == s@[p@[j] as int],
        decreases p@.len() - i,
    {
        assert(p@[i as int] < keys@.len());
        out.push(s[p[i]].duplicate());
        i = i + 1;
    }
    proof {
        assert forall|i: int, j: int| 0 <= i < j < out@.len() implies less(
            #[trigger] out@[i],
            #[trigger] out@[j],
        ) || (!less(out@[j], out@[i]) && p@[i] < p@[j]) by {
            assert(before(keys@, p@[i] as int, p@[j] as int));
            assert(p@[i] < keys@.len() && p@[j] < keys@.len());
        }
        assert(arranges(p@, out@, s@, less));
    }
    out
}

/// Values that compare alike are arranged alike.
pub proof fn lemma_arranged_alike<T>(
    p: Seq<usize>,
    q: Seq<usize>,
    a: Seq<T>,
    b: Seq<T>,
    s: Seq<T>,
    t: Seq<T>,
    less: spec_fn(T, T) -> bool,
)
    requires
        arranges(p, a, s, less),
        arranges(q, b, t, less),
        s.len() == t.len(),
        forall|x: T, y: T| #[trigger] less(x, y) ==> !less(y, x),
        forall|i: int, j: int|
            0 <= i < s.len() && 0 <= j < s.len() ==> less(#[trigger] s[i], #[trigger] s[j]) == less(
                t[i],
                t[j],
            ),
    ensures
        p == q,
{
    let r = |i: usize, j: usize|
        i < s.len() && j < s.len() && (less(s[i as int], s[j as int]) || (!less(
            s[j as int],
            s[i as int],
        ) && i < j));
    assert forall|i: int, j: int| 0 <= i < j < p.len() implies r(
        #[trigger] p[i],
        #[trigger] p[j],
    ) by {
        assert(a[i] == s[p[i] as int] && a[j] == s[p[j] as int]);
    }
    assert forall|i: int, j: int| 0 <= i < j < q.len() implies r(
        #[trigger] q[i],
        #[trigger] q[j],
    ) by {
        assert(b[i] == t[q[i] as int] && b[j] == t[q[j] as int]);
        assert(less(s[q[i] as int], s[q[j] as int]) == less(t[q[i] as int], t[q[j] as int]));
        assert(less(s[q[j] as int], s[q[i] as int]) == less(t[q[j] as int], t[q[i] as int]));
    }
    assert forall|k: usize| p.contains(k) <==> q.contains(k) by {
        if p.contains(k) {
            let i = choose|i: int| 0 <= i < p.len() && p[i] == k;
            assert(p[i] < s.len());
        }
        if q.contains(k) {
            let i = choose|i: int| 0 <= i < q.len() && q[i] == k;
            assert(q[i] < t.len());
        }
    }
    lemma_listed_unique(p, q, r);
}

/// There is one way to sort: what comes out is determined by what goes in.
pub proof fn law_sorting_is_unique<T>(
    a: Seq<T>,
    b: Seq<T>,
    s: Seq<T>,
    less: spec_fn(T, T) -> bool,
)
    requires
        stably_sorted(a, s, less),
        stably_sorted(b, s, less),
        forall|x: T, y: T| #[trigger] less(x, y) ==> !less(y, x),
    ensures
        a == b,
{
    let p = choose|p: Seq<usize>| arranges(p, a, s, less);
    let q = choose|q: Seq<usize>| arranges(q, b, s, less);
    lemma_arranged_alike(p, q, a, b, s, s, less);
    assert forall|i: int| 0 <= i < a.len() implies a[i] == b[i] by {
        assert(p[i] < s.len() && q[i] < s.len());
    }
    assert(a =~= b);
}

/// What is sorted holds the same values, each as often as before.
pub proof fn law_sorting_keeps_values<T>(out: Seq<T>, s: Seq<T>, less: spec_fn(T, T) -> bool)
    requires
        stably_sorted(out, s, less),
        s.len() <= usize::MAX,
        forall|x: T, y: T| #[trigger] less(x, y) ==> !less(y, x),
    ensures
        out.to_multiset() == s.to_multiset(),
        forall|x: T| #[trigger] out.contains(x) <==> s.contains(x),
{
    broadcast use vstd::seq_lib::group_to_multiset_ensures;

    let p = choose|p: Seq<usize>| arranges(p, out, s, less);
    assert forall|i: int, j: int| 0 <= i < p.len() && 0 <= j < p.len() && i != j implies p[i]
        != p[j] by {
        assert(out[i] == s[p[i] as int] && out[j] == s[p[j] as int]);
        assert(!less(out[i], out[i]));
    }
    lemma_places_keep_values(p, out, s);
    assert forall|x: T| #[trigger] out.contains(x) <==> s.contains(x) by {
        assert(out.to_multiset().count(x) == s.to_multiset().count(x));
    }
}

/// The places of entries that meet `c` are as many as these entries.
proof fn lemma_places_counted<T>(s: Seq<T>, c: spec_fn(T) -> bool)
    ensures
        Set::new(|i: int| 0 <= i < s.len() && c(s[i])).finite(),
        Set::new(|i: int| 0 <= i < s.len() && c(s[i])).len() == count(s, c),
    decreases s.len(),
{
    let all = Set::new(|i: int| 0 <= i < s.len() && c(s[i]));
    if s.len() == 0 {
        assert(all =~= Set::<int>::empty());
    } else {
        let d = s.drop_last();
        let rest = Set::new(|i: int| 0 <= i < d.len() && c(d[i]));
        lemma_places_counted(d, c);
        if c(s.last()) {
            assert(all =~= rest.insert(s.len() - 1));
        } else {
            assert(all =~= rest);
        }
    }
}

/// Where the entries of a class come before all others, a cut that has room for the class loses
/// none of it.
pub proof fn law_first_class_survives<T>(
    out: Seq<T>,
    s: Seq<T>,
    less: spec_fn(T, T) -> bool,
    class: spec_fn(T) -> bool,
    max: int,
    k: int,
)
    requires
        stably_sorted(out, s, less),
        s.len() <= usize::MAX,
        forall|a: T| !#[trigger] less(a, a),
        forall|a: T, b: T| class(a) && !class(b) ==> #[trigger] less(a, b) && !less(b, a),
        count(s, class) <= max <= s.len(),
        0 <= k < s.len(),
        class(s[k]),
    ensures
        out.take(max).contains(s[k]),
{
    let p = choose|p: Seq<usize>| arranges(p, out, s, less);
    assert(p.contains(k as usize));
    let at = choose|i: int| 0 <= i < p.len() && p[i] == k as usize;
    assert(out[at] == s[k]);
    if at < max {
        assert(out.take(max)[at] == s[k]);
    } else {
        let q = Seq::new((at + 1) as nat, |i: int| p[i] as int);
        let all = Set::new(|i: int| 0 <= i < s.len() && class(s[i]));
        lemma_places_counted(s, class);
        assert(q.no_duplicates()) by {
            assert forall|i: int, j: int| 0 <= i < q.len() && 0 <= j < q.len() && i != j implies q[i]
                != q[j] by {
                assert(p[i] < s.len() && out[i] == s[p[i] as int]);
                assert(p[j] < s.len() && out[j] == s[p[j] as int]);
                if p[i] == p[j] {
                    assert(out[i] == out[j]);
                    if i < j {
                        assert(!less(out[i], out[j]));
                    } else {
                        assert(!less(out[j], out[i]));
                    }
                }
            }
        }
        assert forall|x: int| q.to_set().contains(x) implies all.contains(x) by {
            let i = choose|i: int| 0 <= i < q.len() && q[i] == x;
            assert(p[i] < s.len() && out[i] == s[p[i] as int]);
            let (first, second) = (out[i], out[at]);
            if i < at && !class(first) {
                assert(class(second));
                assert(less(out[at], out[i]) && !less(out[i], out[at]));
            }
        }
        q.unique_seq_to_set();
        vstd::set_lib::lemma_len_subset(q.to_set(), all);
    }
}

} // verus!
