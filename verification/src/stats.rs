//! The health of the crawl: how much of the address book is reachable, and the hourly series of
//! the population by client version.
use vstd::prelude::*;

use crate::db::{fresh_rows, is_fresh, selected, StoredNode};
use crate::node::{count, lemma_count_bound, lemma_count_take, version_key, version_label};
use crate::order::{
    arranges, lemma_arranged_alike, lemma_listed_unique, sort_by_keys, stably_sorted, Down,
    Duplicate,
};
use crate::strmap::StrMap;
use crate::text::{
    chars_less, chars_of, code_of, joined, lemma_lex_asymmetric, lemma_lex_irreflexive,
    lemma_lex_total, lemma_lex_transitive, lex_less, part, same_chars,
    string_of,
};
use crate::time::{iso_secs_ago, iso_text, secs_before};

verus! {

// ---- text without regard to case ----------------------------------------------------------

/// The code of a character, that of the small letter for `A` to `Z`.
pub open spec fn folded(c: char) -> int {
    if 'A' <= c <= 'Z' {
        c as int + 32
    } else {
        c as int
    }
}

/// Whether `p` stands at place `i` of `s`, without regard to the case of `A` to `Z`.
pub open spec fn like_at(s: Seq<char>, p: Seq<char>, i: int) -> bool {
    0 <= i && i + p.len() <= s.len() && forall|j: int|
        0 <= j < p.len() ==> folded(#[trigger] p[j]) == folded(s[i + j])
}

/// Whether `s` holds `p`, without regard to the case of `A` to `Z`.
pub open spec fn like(s: Seq<char>, p: Seq<char>) -> bool {
    exists|i: int| like_at(s, p, i)
}

fn fold(c: char) -> (r: u32)
    ensures
        r == folded(c),
{
    let x = code_of(c);
    if 65 <= x && x <= 90 {
        x + 32
    } else {
        x
    }
}

/// Whether `s` holds `p`, without regard to the case of `A` to `Z`.
pub fn is_like(s: &str, p: &str) -> (r: bool)
    ensures
        r == like(s@, p@),
{
    let x = chars_of(s);
    let y = chars_of(p);
    if x.len() < y.len() {
        return false;
    }
    let last: usize = x.len() - y.len();
    let mut i: usize = 0;
    while i <= last
        invariant
            x@ == s@,
            y@ == p@,
            y@.len() <= x@.len(),
            last == x@.len() - y@.len(),
            x@.len() <= usize::MAX,
            i <= last + 1,
            forall|k: int| 0 <= k < i ==> !like_at(s@, p@, k),
        decreases last + 1 - i,
    {
        let mut j: usize = 0;
        while j < y.len() && fold(x[i + j]) == fold(y[j])
            invariant
                x@ == s@,
                y@ == p@,
                j <= y@.len(),
                i + y@.len() <= x@.len() <= usize::MAX,
                forall|k: int| 0 <= k < j ==> folded(#[trigger] p@[k]) == folded(s@[i + k]),
            decreases y@.len() - j,
        {
            j = j + 1;
        }
        if j == y.len() {
            assert(like_at(s@, p@, i as int));
            return true;
        }
        proof {
            assert(folded(p@[j as int]) != folded(s@[i + j]));
        }
        i = i + 1;
    }
    false
}

// ---- counts by version --------------------------------------------------------------------

/// How many rows run one version of one implementation.
#[derive(Debug)]
pub struct VersionCount {
    pub implementation: String,
    pub version: String,
    pub count: usize,
}

impl Duplicate for VersionCount {
    fn duplicate(&self) -> (r: Self) {
        VersionCount {
            implementation: self.implementation.clone(),
            version: self.version.clone(),
            count: self.count,
        }
    }
}

/// The rows of one version of one implementation.
pub open spec fn of_version(implementation: Seq<char>, version: Seq<char>) -> spec_fn(
    StoredNode,
) -> bool {
    |r: StoredNode| r.implementation@ == implementation && r.version@ == version
}

/// The order of counts: by implementation, within one by version.
pub open spec fn named_before(
    i: Seq<char>,
    v: Seq<char>,
    j: Seq<char>,
    w: Seq<char>,
) -> bool {
    lex_less(i, j) || (i == j && lex_less(v, w))
}

/// Whether these are the counts of `rows`: one for each version of an implementation that occurs,
/// in order.
pub open spec fn tallied(groups: Seq<VersionCount>, rows: Seq<StoredNode>) -> bool {
    &&& forall|i: int, j: int|
        0 <= i < j < groups.len() ==> named_before(
            (#[trigger] groups[i]).implementation@,
            groups[i].version@,
            (#[trigger] groups[j]).implementation@,
            groups[j].version@,
        )
    &&& forall|i: int|
        0 <= i < groups.len() ==> 0 < (#[trigger] groups[i]).count && groups[i].count == count(
            rows,
            of_version(groups[i].implementation@, groups[i].version@),
        )
    &&& forall|k: int| 0 <= k < rows.len() ==> names(groups, #[trigger] rows[k])
}

/// Whether one of the counts is that of the row.
pub open spec fn names(groups: Seq<VersionCount>, r: StoredNode) -> bool {
    exists|i: int|
        0 <= i < groups.len() && (#[trigger] groups[i]).implementation@ == r.implementation@
            && groups[i].version@ == r.version@
}

proof fn lemma_named_before(i: Seq<char>, v: Seq<char>, j: Seq<char>, w: Seq<char>)
    ensures
        !(named_before(i, v, j, w) && named_before(j, w, i, v)),
        (i == j && v == w) || named_before(i, v, j, w) || named_before(j, w, i, v),
        !named_before(i, v, i, v),
{
    lemma_lex_asymmetric(i, j);
    lemma_lex_asymmetric(v, w);
    lemma_lex_total(i, j);
    lemma_lex_total(v, w);
    lemma_lex_irreflexive(i);
    lemma_lex_irreflexive(v);
}

proof fn lemma_named_transitive(
    i: Seq<char>,
    v: Seq<char>,
    j: Seq<char>,
    w: Seq<char>,
    k: Seq<char>,
    x: Seq<char>,
)
    requires
        named_before(i, v, j, w),
        named_before(j, w, k, x),
    ensures
        named_before(i, v, k, x),
{
    if lex_less(i, j) && lex_less(j, k) {
        lemma_lex_transitive(i, j, k);
    }
    if i == j && j == k {
        lemma_lex_irreflexive(i);
        lemma_lex_transitive(v, w, x);
    }
}

/// Where some entry counts, one of them meets the condition.
proof fn lemma_count_witness<T>(s: Seq<T>, f: spec_fn(T) -> bool) -> (i: int)
    requires
        count(s, f) > 0,
    ensures
        0 <= i < s.len(),
        f(s[i]),
    decreases s.len(),
{
    if f(s.last()) {
        s.len() - 1
    } else {
        lemma_count_witness(s.drop_last(), f)
    }
}

fn named_less(i: &str, v: &str, j: &str, w: &str) -> (r: bool)
    ensures
        r == named_before(i@, v@, j@, w@),
{
    let a = chars_of(i);
    let b = chars_of(j);
    if chars_less(&a, &b) {
        return true;
    }
    same_chars(&a, &b) && {
        let c = chars_of(v);
        let d = chars_of(w);
        chars_less(&c, &d)
    }
}

/// The counts once a row is added that has one.
proof fn lemma_tally_again(
    groups: Seq<VersionCount>,
    after: Seq<VersionCount>,
    rows: Seq<StoredNode>,
    n: int,
    at: int,
)
    requires
        0 <= n < rows.len(),
        tallied(groups, rows.take(n)),
        0 <= at < groups.len(),
        groups[at].implementation@ == rows[n].implementation@,
        groups[at].version@ == rows[n].version@,
        after.len() == groups.len(),
        forall|i: int|
            0 <= i < groups.len() && i != at ==> #[trigger] after[i] == groups[i],
        after[at].implementation@ == groups[at].implementation@,
        after[at].version@ == groups[at].version@,
        after[at].count == groups[at].count + 1,
    ensures
        tallied(after, rows.take(n + 1)),
{
    assert forall|i: int| 0 <= i < after.len() implies 0 < (#[trigger] after[i]).count
        && after[i].count == count(
        rows.take(n + 1),
        of_version(after[i].implementation@, after[i].version@),
    ) by {
        let f = of_version(after[i].implementation@, after[i].version@);
        lemma_count_take(rows, f, n);
        let g = groups[i];
        if i != at {
            if i < at {
                let h = groups[at];
                lemma_named_before(g.implementation@, g.version@, h.implementation@, h.version@);
            } else {
                let h = groups[at];
                lemma_named_before(h.implementation@, h.version@, g.implementation@, g.version@);
            }
        }
    }
    assert forall|i: int, j: int| 0 <= i < j < after.len() implies named_before(
        (#[trigger] after[i]).implementation@,
        after[i].version@,
        (#[trigger] after[j]).implementation@,
        after[j].version@,
    ) by {
        let g = groups[i];
        let h = groups[j];
    }
    assert forall|k: int| 0 <= k < rows.take(n + 1).len() implies names(
        after,
        #[trigger] rows.take(n + 1)[k],
    ) by {
        let r = rows[k];
        if k < n {
            assert(rows.take(n)[k] == r);
            let i = choose|i: int|
                0 <= i < groups.len() && (#[trigger] groups[i]).implementation@
                    == r.implementation@ && groups[i].version@ == r.version@;
            assert(after[i].implementation@ == r.implementation@);
        } else {
            assert(after[at].implementation@ == r.implementation@);
        }
    }
}

/// The counts once a row is added that has none.
proof fn lemma_tally_first(
    groups: Seq<VersionCount>,
    one: VersionCount,
    rows: Seq<StoredNode>,
    n: int,
    at: int,
)
    requires
        0 <= n < rows.len(),
        tallied(groups, rows.take(n)),
        0 <= at <= groups.len(),
        one.implementation@ == rows[n].implementation@,
        one.version@ == rows[n].version@,
        one.count == 1,
        forall|i: int|
            0 <= i < at ==> named_before(
                (#[trigger] groups[i]).implementation@,
                groups[i].version@,
                one.implementation@,
                one.version@,
            ),
        at < groups.len() ==> named_before(
            one.implementation@,
            one.version@,
            groups[at].implementation@,
            groups[at].version@,
        ),
    ensures
        tallied(groups.insert(at, one), rows.take(n + 1)),
{
    let after = groups.insert(at, one);
    assert forall|i: int| at <= i < groups.len() implies named_before(
        one.implementation@,
        one.version@,
        (#[trigger] groups[i]).implementation@,
        groups[i].version@,
    ) by {
        if i > at {
            let g = groups[at];
            lemma_named_transitive(
                one.implementation@,
                one.version@,
                g.implementation@,
                g.version@,
                groups[i].implementation@,
                groups[i].version@,
            );
        }
    }
    let f = of_version(one.implementation@, one.version@);
    assert(count(rows.take(n), f) == 0) by {
        if count(rows.take(n), f) > 0 {
            let k = lemma_count_witness(rows.take(n), f);
            let r = rows.take(n)[k];
            assert(names(groups, r));
            let i = choose|i: int|
                0 <= i < groups.len() && (#[trigger] groups[i]).implementation@
                    == r.implementation@ && groups[i].version@ == r.version@;
            lemma_named_before(
                one.implementation@,
                one.version@,
                one.implementation@,
                one.version@,
            );
            let g = groups[i];
        }
    }
    assert forall|i: int, j: int| 0 <= i < j < after.len() implies named_before(
        (#[trigger] after[i]).implementation@,
        after[i].version@,
        (#[trigger] after[j]).implementation@,
        after[j].version@,
    ) by {
        let a = if i < at {
            i
        } else {
            i - 1
        };
        let b = if j < at {
            j
        } else {
            j - 1
        };
        if i != at {
            assert(after[i] == groups[a]);
        }
        if j != at {
            assert(after[j] == groups[b]);
        }
    }
    assert forall|i: int| 0 <= i < after.len() implies 0 < (#[trigger] after[i]).count
        && after[i].count == count(
        rows.take(n + 1),
        of_version(after[i].implementation@, after[i].version@),
    ) by {
        let h = of_version(after[i].implementation@, after[i].version@);
        lemma_count_take(rows, h, n);
        if i != at {
            let a = if i < at {
                i
            } else {
                i - 1
            };
            let g = groups[a];
            assert(after[i] == g);
            lemma_named_before(g.implementation@, g.version@, g.implementation@, g.version@);
            lemma_named_before(one.implementation@, one.version@, g.implementation@, g.version@);
        }
    }
    assert forall|k: int| 0 <= k < rows.take(n + 1).len() implies names(
        after,
        #[trigger] rows.take(n + 1)[k],
    ) by {
        let r = rows[k];
        if k < n {
            assert(rows.take(n)[k] == r);
            let i = choose|i: int|
                0 <= i < groups.len() && (#[trigger] groups[i]).implementation@
                    == r.implementation@ && groups[i].version@ == r.version@;
            if i < at {
                assert(after[i] == groups[i]);
            } else {
                assert(after[i + 1] == groups[i]);
            }
        } else {
            assert(after[at].implementation@ == r.implementation@);
        }
    }
}

/// How many rows run each version of each implementation.
pub fn version_counts(rows: &Vec<StoredNode>) -> (r: Vec<VersionCount>)
    ensures
        tallied(r@, rows@),
{
    let mut groups: Vec<VersionCount> = Vec::new();
    let mut n: usize = 0;
    while n < rows.len()
        invariant
            n <= rows@.len(),
            tallied(groups@, rows@.take(n as int)),
        decreases rows@.len() - n,
    {
        let row = &rows[n];
        let mut at: usize = 0;
        while at < groups.len() && named_less(
            groups[at].implementation.as_str(),
            groups[at].version.as_str(),
            row.implementation.as_str(),
            row.version.as_str(),
        )
            invariant
                at <= groups@.len(),
                forall|i: int|
                    0 <= i < at ==> named_before(
                        (#[trigger] groups@[i]).implementation@,
                        groups@[i].version@,
                        row.implementation@,
                        row.version@,
                    ),
            decreases groups@.len() - at,
        {
            at = at + 1;
        }
        let ghost was = groups@;
        let fresh = at == groups.len() || named_less(
            row.implementation.as_str(),
            row.version.as_str(),
            groups[at].implementation.as_str(),
            groups[at].version.as_str(),
        );
        let count = if fresh {
            1
        } else {
            proof {
                let g = was[at as int];
                lemma_named_before(
                    row.implementation@,
                    row.version@,
                    g.implementation@,
                    g.version@,
                );
                lemma_count_bound(
                    rows@.take(n as int),
                    of_version(g.implementation@, g.version@),
                );
            }
            groups[at].count + 1
        };
        let one = VersionCount {
            implementation: row.implementation.clone(),
            version: row.version.clone(),
            count,
        };
        if fresh {
            proof {
                lemma_tally_first(was, one, rows@, n as int, at as int);
            }
            groups.insert(at, one);
        } else {
            groups.set(at, one);
            proof {
                lemma_tally_again(was, groups@, rows@, n as int, at as int);
            }
        }
        n = n + 1;
    }
    assert(rows@.take(rows@.len() as int) == rows@);
    groups
}

// ---- the history --------------------------------------------------------------------------

/// A node counts toward an hour where it was confirmed reachable within this long of it.
pub const HISTORY_WINDOW_SECS: u64 = 1209600;

/// How many versions a point of the history keeps.
pub const HISTORY_TOP_VERSIONS: usize = 12;

/// How many hours the statistics show.
pub const HISTORY_HOURS: usize = 720;

/// The population of one hour.
pub struct HistoryPoint {
    /// Date and hour.
    pub hour: String,
    pub total: usize,
    pub onion: usize,
    pub distinct_versions: usize,
    pub versions: StrMap<usize>,
}

/// More rows come first.
pub open spec fn more_first() -> spec_fn(VersionCount, VersionCount) -> bool {
    |a: VersionCount, b: VersionCount| a.count > b.count
}

/// Counts by label; of two with one label the later counts.
pub open spec fn labelled(groups: Seq<VersionCount>) -> Map<Seq<char>, usize>
    decreases groups.len(),
{
    if groups.len() == 0 {
        Map::empty()
    } else {
        let g = groups.last();
        labelled(groups.drop_last()).insert(
            version_key(g.implementation@, g.version@),
            g.count,
        )
    }
}

/// The largest counts by label.
pub open spec fn top_labelled(m: Map<Seq<char>, usize>, groups: Seq<VersionCount>) -> bool {
    exists|sorted: Seq<VersionCount>| #[trigger]
        stably_sorted(sorted, groups, more_first()) && m == labelled(
            sorted.take(
                if HISTORY_TOP_VERSIONS < groups.len() {
                    HISTORY_TOP_VERSIONS as int
                } else {
                    groups.len() as int
                },
            ),
        )
}

/// The largest counts by label, at most as many as a point of the history keeps; of equal counts
/// those that come first.
pub fn top_versions(groups: &Vec<VersionCount>) -> (r: StrMap<usize>)
    ensures
        top_labelled(r@, groups@),
{
    let mut keys: Vec<Down<i128>> = Vec::new();
    let mut i: usize = 0;
    while i < groups.len()
        invariant
            i <= groups@.len(),
            keys@.len() == i,
            forall|j: int| 0 <= j < i ==> (#[trigger] keys@[j]).0 == groups@[j].count,
        decreases groups@.len() - i,
    {
        keys.push(Down(groups[i].count as i128));
        i = i + 1;
    }
    let sorted = sort_by_keys(groups, &keys, Ghost(more_first()));
    let n: usize = if HISTORY_TOP_VERSIONS < sorted.len() {
        HISTORY_TOP_VERSIONS
    } else {
        sorted.len()
    };
    let ghost top = sorted@.take(n as int);
    let mut out: StrMap<usize> = StrMap::new();
    let mut j: usize = 0;
    assert(top.take(0) =~= Seq::<VersionCount>::empty());
    while j < n
        invariant
            j <= n <= sorted@.len(),
            top == sorted@.take(n as int),
            out@ == labelled(top.take(j as int)),
        decreases n - j,
    {
        proof {
            assert(top.take(j + 1).drop_last() == top.take(j as int));
            assert(top.take(j + 1).last() == sorted@[j as int]);
        }
        let label = version_label(
            sorted[j].implementation.as_str(),
            sorted[j].version.as_str(),
        );
        out.insert(label, sorted[j].count);
        j = j + 1;
    }
    assert(top.take(n as int) == top);
    out
}

/// A hidden service by its address.
pub open spec fn is_onion_row() -> spec_fn(StoredNode) -> bool {
    |r: StoredNode| like(r.addr@, ".onion"@)
}

fn count_onions(rows: &Vec<StoredNode>) -> (r: usize)
    ensures
        r == count(rows@, is_onion_row()),
{
    let ghost f = is_onion_row();
    let mut n: usize = 0;
    let mut i: usize = 0;
    while i < rows.len()
        invariant
            i <= rows@.len(),
            f == is_onion_row(),
            n == count(rows@.take(i as int), f),
            n <= i,
        decreases rows@.len() - i,
    {
        proof {
            lemma_count_take(rows@, f, i as int);
        }
        if is_like(rows[i].addr.as_str(), ".onion") {
            n = n + 1;
        }
        i = i + 1;
    }
    assert(rows@.take(rows@.len() as int) == rows@);
    n
}

/// Whether this is the point of the history for `now` of the rows that are online and were last
/// seen at `cutoff` or later.
pub open spec fn is_point(
    p: HistoryPoint,
    rows: Seq<StoredNode>,
    now: Seq<char>,
    cutoff: Seq<char>,
) -> bool {
    let live = selected(rows, is_fresh(Some(cutoff)));
    &&& p.hour@ == now.take(
        if now.len() < 13 {
            now.len() as int
        } else {
            13
        },
    )
    &&& p.total == live.len()
    &&& p.onion == count(live, is_onion_row())
    &&& exists|groups: Seq<VersionCount>|
        #[trigger] tallied(groups, live) && p.distinct_versions == groups.len()
            && top_labelled(p.versions@, groups)
}

/// The point of the history for `now` of the rows that are online and were last seen at `cutoff`
/// or later.
pub fn history_point(rows: &Vec<StoredNode>, now: &str, cutoff: &str) -> (r: HistoryPoint)
    ensures
        is_point(r, rows@, now@, cutoff@),
{
    let live = fresh_rows(rows, Some(cutoff));
    let groups = version_counts(&live);
    let versions = top_versions(&groups);
    let stamp = chars_of(now);
    let n: usize = if stamp.len() < 13 {
        stamp.len()
    } else {
        13
    };
    let first = part(&stamp, 0, n);
    let hour = string_of(&first);
    assert(hour@ =~= now@.take(n as int));
    let r = HistoryPoint {
        hour,
        total: live.len(),
        onion: count_onions(&live),
        distinct_versions: groups.len(),
        versions,
    };
    assert(tallied(groups@, live@));
    r
}

/// The point of the history for `now`, with the window of the history back from the present.
pub fn record_history(rows: &Vec<StoredNode>, now: &str) -> (r: HistoryPoint)
    ensures
        exists|at: u64|
            is_point(r, rows@, now@, iso_text(#[trigger] secs_before(at, HISTORY_WINDOW_SECS))),
{
    let cutoff = iso_secs_ago(HISTORY_WINDOW_SECS);
    history_point(rows, now, cutoff.as_str())
}

/// A stored point of the history: its hour and the rest as text.
#[derive(Debug)]
pub struct HistoryRow {
    pub hour: String,
    pub snapshot: String,
}

impl Duplicate for HistoryRow {
    fn duplicate(&self) -> (r: Self) {
        HistoryRow { hour: self.hour.clone(), snapshot: self.snapshot.clone() }
    }
}

/// The later hour comes first.
pub open spec fn later_hour_first() -> spec_fn(HistoryRow, HistoryRow) -> bool {
    |a: HistoryRow, b: HistoryRow| lex_less(b.hour@, a.hour@)
}

/// The latest hours, the oldest of them first.
pub fn recent_history(points: &Vec<HistoryRow>) -> (r: Vec<HistoryRow>)
    ensures
        exists|sorted: Seq<HistoryRow>| #[trigger]
            stably_sorted(sorted, points@, later_hour_first()) && r@ == sorted.take(
                if HISTORY_HOURS < sorted.len() {
                    HISTORY_HOURS as int
                } else {
                    sorted.len() as int
                },
            ).reverse(),
{
    let mut keys: Vec<Down<Vec<char>>> = Vec::new();
    let mut i: usize = 0;
    while i < points.len()
        invariant
            i <= points@.len(),
            keys@.len() == i,
            forall|j: int| 0 <= j < i ==> (#[trigger] keys@[j]).0@ == points@[j].hour@,
        decreases points@.len() - i,
    {
        keys.push(Down(chars_of(points[i].hour.as_str())));
        i = i + 1;
    }
    let sorted = sort_by_keys(points, &keys, Ghost(later_hour_first()));
    let n: usize = if HISTORY_HOURS < sorted.len() {
        HISTORY_HOURS
    } else {
        sorted.len()
    };
    let ghost want = sorted@.take(n as int).reverse();
    let mut out: Vec<HistoryRow> = Vec::new();
    let mut j: usize = 0;
    while j < n
        invariant
            j <= n <= sorted@.len(),
            want == sorted@.take(n as int).reverse(),
            out@.len() == j,
            forall|k: int| 0 <= k < j ==> #[trigger] out@[k] == want[k],
        decreases n - j,
    {
        out.push(sorted[n - 1 - j].duplicate());
        j = j + 1;
    }
    assert(out@ =~= want);
    out
}

// ---- the figures --------------------------------------------------------------------------

/// How much of the address book is reachable.
#[derive(Clone, Copy, Debug, PartialEq, Eq, Structural)]
pub struct CrawlStats {
    pub total_addresses: usize,
    pub reachable: usize,
    pub onion: usize,
    pub unreachable: usize,
    pub online_raw: usize,
    pub aged_out: usize,
    pub edges: usize,
    pub distinct_versions: usize,
    pub max_age_hours: u64,
}

/// The implementation and version of rows, as one text each.
pub open spec fn version_texts(rows: Seq<StoredNode>) -> Set<Seq<char>>
    decreases rows.len(),
{
    if rows.len() == 0 {
        Set::empty()
    } else {
        version_texts(rows.drop_last()).insert(
            rows.last().implementation@ + " "@ + rows.last().version@,
        )
    }
}

fn count_versions(rows: &Vec<StoredNode>) -> (r: usize)
    ensures
        r == version_texts(rows@).len(),
{
    let mut seen: StrMap<()> = StrMap::new();
    let mut i: usize = 0;
    assert(rows@.take(0) =~= Seq::<StoredNode>::empty());
    assert(seen@.dom() =~= Set::empty());
    while i < rows.len()
        invariant
            i <= rows@.len(),
            seen@.dom() == version_texts(rows@.take(i as int)),
        decreases rows@.len() - i,
    {
        proof {
            assert(rows@.take(i + 1).drop_last() == rows@.take(i as int));
            assert(rows@.take(i + 1).last() == rows@[i as int]);
        }
        let a = joined(rows[i].implementation.as_str(), " ");
        let text = joined(a.as_str(), rows[i].version.as_str());
        let ghost was = seen@.dom();
        let ghost key = text@;
        seen.insert(text, ());
        assert(seen@.dom() =~= was.insert(key));
        i = i + 1;
    }
    assert(rows@.take(rows@.len() as int) == rows@);
    seen.len()
}

/// A row that was online when it was last tried.
pub open spec fn is_online_row() -> spec_fn(StoredNode) -> bool {
    |r: StoredNode| r.online
}

/// No fewer rows are online than are fresh.
proof fn lemma_fresh_online(rows: Seq<StoredNode>, cutoff: Option<Seq<char>>)
    ensures
        selected(rows, is_fresh(cutoff)).len() <= count(rows, is_online_row()),
    decreases rows.len(),
{
    if rows.len() > 0 {
        lemma_fresh_online(rows.drop_last(), cutoff);
    }
}

/// The figures over all rows, with those fresh that were last seen at `cutoff` or later, or at
/// any time where there is none.
pub fn read_stats(
    rows: &Vec<StoredNode>,
    edges: usize,
    cutoff: Option<&str>,
    max_age_secs: u64,
) -> (r: CrawlStats)
    ensures
        ({
            let since = match cutoff {
                Some(c) => Some(c@),
                None => None,
            };
            let live = selected(rows@, is_fresh(since));
            let online = count(rows@, is_online_row());
            &&& r.total_addresses == rows@.len()
            &&& r.reachable == live.len()
            &&& r.onion == count(live, is_onion_row())
            &&& r.unreachable == rows@.len() - online
            &&& r.online_raw == online
            &&& r.aged_out == online - live.len()
            &&& r.edges == edges
            &&& r.distinct_versions == version_texts(live).len()
            &&& r.max_age_hours == max_age_secs / 3600
        }),
{
    let live = fresh_rows(rows, cutoff);
    let ghost f = is_online_row();
    let mut online: usize = 0;
    let mut i: usize = 0;
    while i < rows.len()
        invariant
            i <= rows@.len(),
            f == is_online_row(),
            online == count(rows@.take(i as int), f),
            online <= i,
        decreases rows@.len() - i,
    {
        proof {
            lemma_count_take(rows@, f, i as int);
        }
        if rows[i].online {
            online = online + 1;
        }
        i = i + 1;
    }
    proof {
        assert(rows@.take(rows@.len() as int) == rows@);
        lemma_fresh_online(
            rows@,
            match cutoff {
                Some(c) => Some(c@),
                None => None,
            },
        );
    }
    CrawlStats {
        total_addresses: rows.len(),
        reachable: live.len(),
        onion: count_onions(&live),
        unreachable: rows.len() - online,
        online_raw: online,
        aged_out: online - live.len(),
        edges,
        distinct_versions: count_versions(&live),
        max_age_hours: max_age_secs / 3600,
    }
}

/// Implementation and version of counts.
spec fn group_names(g: Seq<VersionCount>) -> Seq<(Seq<char>, Seq<char>)> {
    g.map_values(|c: VersionCount| (c.implementation@, c.version@))
}

/// Counts are told by their names and numbers.
spec fn same_counts(a: Seq<VersionCount>, b: Seq<VersionCount>) -> bool {
    a.len() == b.len() && forall|i: int|
        0 <= i < a.len() ==> (#[trigger] a[i]).implementation@ == b[i].implementation@
            && a[i].version@ == b[i].version@ && a[i].count == b[i].count
}

/// Every name of one tally of the rows is in any other.
proof fn lemma_names_in(
    a: Seq<VersionCount>,
    b: Seq<VersionCount>,
    rows: Seq<StoredNode>,
    x: (Seq<char>, Seq<char>),
)
    requires
        tallied(a, rows),
        tallied(b, rows),
        group_names(a).contains(x),
    ensures
        group_names(b).contains(x),
{
    let i = choose|i: int| 0 <= i < group_names(a).len() && group_names(a)[i] == x;
    let f = of_version(a[i].implementation@, a[i].version@);
    let k = lemma_count_witness(rows, f);
    assert(names(b, rows[k]));
    let j = choose|j: int|
        0 <= j < b.len() && (#[trigger] b[j]).implementation@ == rows[k].implementation@
            && b[j].version@ == rows[k].version@;
    assert(group_names(b)[j] == x);
}

/// There is one tally of the rows.
proof fn lemma_tally_unique(
    a: Seq<VersionCount>,
    b: Seq<VersionCount>,
    rows: Seq<StoredNode>,
)
    requires
        tallied(a, rows),
        tallied(b, rows),
    ensures
        same_counts(a, b),
{
    let less = |x: (Seq<char>, Seq<char>), y: (Seq<char>, Seq<char>)|
        named_before(x.0, x.1, y.0, y.1);
    let u = group_names(a);
    let v = group_names(b);
    assert forall|x: (Seq<char>, Seq<char>), y: (Seq<char>, Seq<char>)| #[trigger]
        less(x, y) implies !less(y, x) by {
        lemma_named_before(x.0, x.1, y.0, y.1);
    }
    assert forall|i: int, j: int| 0 <= i < j < u.len() implies less(
        #[trigger] u[i],
        #[trigger] u[j],
    ) by {
        assert(named_before(
            a[i].implementation@,
            a[i].version@,
            a[j].implementation@,
            a[j].version@,
        ));
    }
    assert forall|i: int, j: int| 0 <= i < j < v.len() implies less(
        #[trigger] v[i],
        #[trigger] v[j],
    ) by {
        assert(named_before(
            b[i].implementation@,
            b[i].version@,
            b[j].implementation@,
            b[j].version@,
        ));
    }
    assert forall|x: (Seq<char>, Seq<char>)| u.contains(x) <==> v.contains(x) by {
        if u.contains(x) {
            lemma_names_in(a, b, rows, x);
        }
        if v.contains(x) {
            lemma_names_in(b, a, rows, x);
        }
    }
    lemma_listed_unique(u, v, less);
    assert forall|i: int| 0 <= i < a.len() implies (#[trigger] a[i]).implementation@
        == b[i].implementation@ && a[i].version@ == b[i].version@ && a[i].count == b[i].count by {
        assert(u[i] == v[i]);
        assert(b[i].count == count(rows, of_version(b[i].implementation@, b[i].version@)));
    }
}

/// Counts with the same names and numbers have the same labels.
proof fn lemma_labelled_alike(a: Seq<VersionCount>, b: Seq<VersionCount>)
    requires
        same_counts(a, b),
    ensures
        labelled(a) == labelled(b),
    decreases a.len(),
{
    if a.len() > 0 {
        let n = a.len() - 1;
        assert(a[n].count == b[n].count);
        assert forall|i: int| 0 <= i < n implies (#[trigger] a.drop_last()[i]).implementation@
            == b.drop_last()[i].implementation@ && a.drop_last()[i].version@
            == b.drop_last()[i].version@ && a.drop_last()[i].count == b.drop_last()[i].count by {
            assert(a[i].count == b[i].count);
        }
        lemma_labelled_alike(a.drop_last(), b.drop_last());
    }
}

/// The largest counts of the same tally are the same.
proof fn lemma_top_unique(
    m: Map<Seq<char>, usize>,
    n: Map<Seq<char>, usize>,
    a: Seq<VersionCount>,
    b: Seq<VersionCount>,
)
    requires
        same_counts(a, b),
        top_labelled(m, a),
        top_labelled(n, b),
    ensures
        m == n,
{
    let few: int = if HISTORY_TOP_VERSIONS < a.len() {
        HISTORY_TOP_VERSIONS as int
    } else {
        a.len() as int
    };
    let s = choose|s: Seq<VersionCount>| #[trigger]
        stably_sorted(s, a, more_first()) && m == labelled(s.take(few));
    let t = choose|t: Seq<VersionCount>| #[trigger]
        stably_sorted(t, b, more_first()) && n == labelled(t.take(few));
    let p = choose|p: Seq<usize>| arranges(p, s, a, more_first());
    let q = choose|q: Seq<usize>| arranges(q, t, b, more_first());
    assert forall|i: int, j: int| 0 <= i < a.len() && 0 <= j < a.len() implies more_first()(
        #[trigger] a[i],
        #[trigger] a[j],
    ) == more_first()(b[i], b[j]) by {
        assert(a[i].count == b[i].count && a[j].count == b[j].count);
    }
    lemma_arranged_alike(p, q, s, t, a, b, more_first());
    let x = s.take(few);
    let y = t.take(few);
    assert forall|i: int| 0 <= i < x.len() implies (#[trigger] x[i]).implementation@
        == y[i].implementation@ && x[i].version@ == y[i].version@ && x[i].count == y[i].count by {
        assert(s[i] == a[p[i] as int] && t[i] == b[q[i] as int]);
        assert(a[p[i] as int].count == b[p[i] as int].count);
    }
    lemma_labelled_alike(x, y);
}

/// The point of an hour is determined by the rows: whoever computes it from the same rows, for
/// the same time and window, gets the same point.
pub proof fn law_point_is_unique(
    p: HistoryPoint,
    q: HistoryPoint,
    rows: Seq<StoredNode>,
    now: Seq<char>,
    cutoff: Seq<char>,
)
    requires
        is_point(p, rows, now, cutoff),
        is_point(q, rows, now, cutoff),
    ensures
        p.hour@ == q.hour@,
        p.total == q.total,
        p.onion == q.onion,
        p.distinct_versions == q.distinct_versions,
        p.versions@ == q.versions@,
{
    let live = selected(rows, is_fresh(Some(cutoff)));
    let a = choose|a: Seq<VersionCount>|
        #[trigger] tallied(a, live) && p.distinct_versions == a.len() && top_labelled(
            p.versions@,
            a,
        );
    let b = choose|b: Seq<VersionCount>|
        #[trigger] tallied(b, live) && q.distinct_versions == b.len() && top_labelled(
            q.versions@,
            b,
        );
    lemma_tally_unique(a, b, live);
    lemma_top_unique(p.versions@, q.versions@, a, b);
}

/// A text is like another where that stands in it, with ASCII letters in either case.
pub proof fn law_like(a: Seq<char>, p: Seq<char>, q: Seq<char>, b: Seq<char>)
    requires
        p.len() == q.len(),
        forall|i: int|
            0 <= i < p.len() ==> crate::node::ascii_lower(#[trigger] p[i])
                == crate::node::ascii_lower(q[i]),
    ensures
        like(a + p + b, q),
        p.len() > 0 ==> !like(Seq::empty(), q),
{
    let s = a + p + b;
    let n = a.len() as int;
    assert forall|j: int| 0 <= j < q.len() implies folded(#[trigger] q[j]) == folded(s[n + j]) by {
        assert(s[n + j] == p[j]);
        assert(crate::node::ascii_lower(p[j]) == crate::node::ascii_lower(q[j]));
    }
    assert(like_at(s, q, n));
}

/// What a point of the history counts: the nodes that are online and were last seen no earlier than
/// the cutoff, and how many of them are onion nodes. Its hour is the first thirteen characters of
/// the time, and it names at most twelve versions.
pub proof fn law_point_counts(
    p: HistoryPoint,
    rows: Seq<StoredNode>,
    now: Seq<char>,
    cutoff: Seq<char>,
)
    requires
        is_point(p, rows, now, cutoff),
    ensures
        now.len() >= 13 ==> p.hour@ == now.take(13),
        now.len() < 13 ==> p.hour@ == now,
        p.total == count(
            rows,
            |r: StoredNode| r.online && !lex_less(r.last_seen@, cutoff),
        ),
        p.onion <= p.total,
        p.onion == count(
            rows,
            |r: StoredNode|
                r.online && !lex_less(r.last_seen@, cutoff) && like(r.addr@, ".onion"@),
        ),
        p.distinct_versions <= p.total,
        p.versions@.dom().len() <= 12,
        p.versions@.dom().len() <= p.distinct_versions,
{
    let f = is_fresh(Some(cutoff));
    let live = selected(rows, f);
    let every = |r: StoredNode| true;
    lemma_selected_counted(rows, f, every);
    lemma_selected_counted(rows, f, is_onion_row());
    lemma_all_counted(live);
    crate::node::lemma_count_bound(live, is_onion_row());
    lemma_counts_agree(
        rows,
        |r: StoredNode| f(r) && every(r),
        |r: StoredNode| r.online && !lex_less(r.last_seen@, cutoff),
    );
    lemma_counts_agree(
        rows,
        |r: StoredNode| f(r) && is_onion_row()(r),
        |r: StoredNode| r.online && !lex_less(r.last_seen@, cutoff) && like(r.addr@, ".onion"@),
    );
    if now.len() < 13 {
        assert(now.take(now.len() as int) =~= now);
    }
    let groups = choose|groups: Seq<VersionCount>|
        #[trigger] tallied(groups, live) && p.distinct_versions == groups.len() && top_labelled(
            p.versions@,
            groups,
        );
    lemma_groups_few(groups, live);
    let sorted = choose|sorted: Seq<VersionCount>| #[trigger]
        stably_sorted(sorted, groups, more_first()) && p.versions@ == labelled(
            sorted.take(
                if HISTORY_TOP_VERSIONS < groups.len() {
                    HISTORY_TOP_VERSIONS as int
                } else {
                    groups.len() as int
                },
            ),
        );
    let few: int = if HISTORY_TOP_VERSIONS < groups.len() {
        HISTORY_TOP_VERSIONS as int
    } else {
        groups.len() as int
    };
    let q = choose|q: Seq<usize>| crate::order::arranges(q, sorted, groups, more_first());
    assert(sorted.len() == groups.len());
    lemma_labelled_len(sorted.take(few));
}

/// As many labels as groups, at most.
proof fn lemma_labelled_len(groups: Seq<VersionCount>)
    ensures
        labelled(groups).dom().finite(),
        labelled(groups).dom().len() <= groups.len(),
    decreases groups.len(),
{
    if groups.len() > 0 {
        lemma_labelled_len(groups.drop_last());
    } else {
        assert(labelled(groups).dom() =~= Set::<Seq<char>>::empty());
    }
}

proof fn lemma_counts_agree<T>(s: Seq<T>, f: spec_fn(T) -> bool, g: spec_fn(T) -> bool)
    requires
        forall|x: T| #[trigger] f(x) == g(x),
    ensures
        count(s, f) == count(s, g),
    decreases s.len(),
{
    if s.len() > 0 {
        lemma_counts_agree(s.drop_last(), f, g);
        assert(f(s.last()) == g(s.last()));
    }
}

/// Counting among what was selected is counting what meets both.
proof fn lemma_selected_counted(
    s: Seq<StoredNode>,
    f: spec_fn(StoredNode) -> bool,
    g: spec_fn(StoredNode) -> bool,
)
    ensures
        count(selected(s, f), g) == count(s, |r: StoredNode| f(r) && g(r)),
    decreases s.len(),
{
    if s.len() > 0 {
        let d = s.drop_last();
        lemma_selected_counted(d, f, g);
        if f(s.last()) {
            assert(selected(d, f).push(s.last()).drop_last() =~= selected(d, f));
        }
    }
}

proof fn lemma_all_counted(s: Seq<StoredNode>)
    ensures
        count(s, |r: StoredNode| true) == s.len(),
    decreases s.len(),
{
    if s.len() > 0 {
        lemma_all_counted(s.drop_last());
    }
}

/// There are no more groups than rows: each has a row of its own.
proof fn lemma_groups_few(groups: Seq<VersionCount>, rows: Seq<StoredNode>)
    requires
        tallied(groups, rows),
    ensures
        groups.len() <= rows.len(),
{
    let at = Seq::new(groups.len(), |i: int| first_row(rows, groups[i]));
    assert forall|i: int| 0 <= i < at.len() implies 0 <= #[trigger] at[i] < rows.len() && of_version(
        groups[i].implementation@,
        groups[i].version@,
    )(rows[at[i]]) by {
        lemma_first_row(rows, groups[i]);
    }
    assert forall|i: int, j: int| 0 <= i < at.len() && 0 <= j < at.len() && i != j implies at[i]
        != at[j] by {
        let (x, y) = if i < j {
            (i, j)
        } else {
            (j, i)
        };
        assert(named_before(
            groups[x].implementation@,
            groups[x].version@,
            groups[y].implementation@,
            groups[y].version@,
        ));
        crate::text::lemma_lex_irreflexive(groups[x].implementation@);
        crate::text::lemma_lex_irreflexive(groups[x].version@);
    }
    at.unique_seq_to_set();
    vstd::set_lib::lemma_int_range(0, rows.len() as int);
    let range = vstd::set_lib::set_int_range(0, rows.len() as int);
    assert(at.to_set().subset_of(range)) by {
        assert forall|k: int| at.to_set().contains(k) implies range.contains(k) by {
            let i = choose|i: int| 0 <= i < at.len() && at[i] == k;
            assert(0 <= at[i] < rows.len());
        }
    }
    vstd::set_lib::lemma_len_subset(at.to_set(), range);
}

spec fn first_row(rows: Seq<StoredNode>, g: VersionCount) -> int {
    choose|k: int|
        0 <= k < rows.len() && of_version(g.implementation@, g.version@)(#[trigger] rows[k])
}

proof fn lemma_first_row(rows: Seq<StoredNode>, g: VersionCount)
    requires
        count(rows, of_version(g.implementation@, g.version@)) > 0,
    ensures
        0 <= first_row(rows, g) < rows.len(),
        of_version(g.implementation@, g.version@)(rows[first_row(rows, g)]),
{
    lemma_some_counted(rows, of_version(g.implementation@, g.version@));
}

proof fn lemma_some_counted(rows: Seq<StoredNode>, f: spec_fn(StoredNode) -> bool)
    requires
        count(rows, f) > 0,
    ensures
        exists|k: int| 0 <= k < rows.len() && f(#[trigger] rows[k]),
    decreases rows.len(),
{
    if f(rows.last()) {
        assert(f(rows[rows.len() - 1]));
    } else {
        lemma_some_counted(rows.drop_last(), f);
        let k = choose|k: int|
            0 <= k < rows.drop_last().len() && f(#[trigger] rows.drop_last()[k]);
        assert(rows[k] == rows.drop_last()[k]);
    }
}

/// A version is counted as often as rows have its name and number, each pair is counted once, and
/// none that no row has.
pub proof fn law_versions_are_counted(groups: Seq<VersionCount>, rows: Seq<StoredNode>, i: int)
    requires
        tallied(groups, rows),
        0 <= i < groups.len(),
    ensures
        groups[i].count == count(
            rows,
            |r: StoredNode|
                r.implementation@ == groups[i].implementation@ && r.version@ == groups[i].version@,
        ),
        groups[i].count > 0,
        forall|k: int|
            0 <= k < rows.len() ==> exists|j: int|
                0 <= j < groups.len() && (#[trigger] groups[j]).implementation@ == (
                #[trigger] rows[k]).implementation@ && groups[j].version@ == rows[k].version@,
{
    lemma_counts_agree(
        rows,
        of_version(groups[i].implementation@, groups[i].version@),
        |r: StoredNode|
            r.implementation@ == groups[i].implementation@ && r.version@ == groups[i].version@,
    );
    assert forall|k: int| 0 <= k < rows.len() implies exists|j: int|
        0 <= j < groups.len() && (#[trigger] groups[j]).implementation@ == (
        #[trigger] rows[k]).implementation@ && groups[j].version@ == rows[k].version@ by {
        assert(names(groups, rows[k]));
    }
}

/// The recent history is the last 720 hours at most, the earliest of them first.
pub proof fn law_recent_hours(r: Seq<HistoryRow>, points: Seq<HistoryRow>, sorted: Seq<HistoryRow>)
    requires
        stably_sorted(sorted, points, later_hour_first()),
        r == sorted.take(
            if HISTORY_HOURS < sorted.len() {
                HISTORY_HOURS as int
            } else {
                sorted.len() as int
            },
        ).reverse(),
    ensures
        r.len() == (if points.len() > 720 {
            720int
        } else {
            points.len() as int
        }),
        forall|i: int, j: int|
            0 <= i < j < r.len() ==> !lex_less((#[trigger] r[j]).hour@, (#[trigger] r[i]).hour@),
        forall|i: int, k: int|
            0 <= i < r.len() <= k < sorted.len() ==> !lex_less(
                (#[trigger] r[i]).hour@,
                (#[trigger] sorted[k]).hour@,
            ),
{
    let less = later_hour_first();
    let p = choose|p: Seq<usize>| crate::order::arranges(p, sorted, points, less);
    let n = r.len();
    assert(sorted.len() == points.len());
    assert forall|x: int, y: int| 0 <= x < y < sorted.len() implies !lex_less(
        sorted[x].hour@,
        sorted[y].hour@,
    ) by {
        assert(less(sorted[x], sorted[y]) || !less(sorted[y], sorted[x]));
        crate::text::lemma_lex_asymmetric(sorted[x].hour@, sorted[y].hour@);
    }
    assert forall|i: int| 0 <= i < n implies #[trigger] r[i] == sorted[n - 1 - i] by {}
}

/// A version is named with its implementation in front and a space between; two rows with the same
/// text are one version.
pub proof fn law_version_texts(rows: Seq<StoredNode>, t: Seq<char>)
    ensures
        version_texts(rows).finite(),
        version_texts(rows).len() <= rows.len(),
        version_texts(rows).contains(t) <==> exists|i: int|
            0 <= i < rows.len() && (#[trigger] rows[i]).implementation@ + " "@ + rows[i].version@
                == t,
    decreases rows.len(),
{
    if rows.len() > 0 {
        let d = rows.drop_last();
        law_version_texts(d, t);
        assert(rows[rows.len() - 1] == rows.last());
        if exists|i: int|
            0 <= i < d.len() && (#[trigger] d[i]).implementation@ + " "@ + d[i].version@ == t {
            let i = choose|i: int|
                0 <= i < d.len() && (#[trigger] d[i]).implementation@ + " "@ + d[i].version@ == t;
            assert(rows[i] == d[i]);
        }
        if exists|i: int|
            0 <= i < rows.len() && (#[trigger] rows[i]).implementation@ + " "@ + rows[i].version@
                == t {
            let i = choose|i: int|
                0 <= i < rows.len() && (#[trigger] rows[i]).implementation@ + " "@
                    + rows[i].version@ == t;
            if i < d.len() {
                assert(d[i] == rows[i]);
            }
        }
    }
}

/// A row is online where it says so.
pub proof fn law_online_rows(r: StoredNode)
    ensures
        is_online_row()(r) == r.online,
{
}

/// Versions are named in the order of their implementations' texts, those of one implementation in
/// the order of their own.
pub proof fn law_named_before(i: Seq<char>, v: Seq<char>, j: Seq<char>, w: Seq<char>)
    ensures
        lex_less(i, j) ==> named_before(i, v, j, w),
        lex_less(j, i) ==> !named_before(i, v, j, w),
        named_before(i, v, i, w) == lex_less(v, w),
{
    if lex_less(j, i) {
        lemma_lex_asymmetric(j, i);
        lemma_lex_irreflexive(j);
    }
    lemma_lex_irreflexive(i);
}

} // verus!
