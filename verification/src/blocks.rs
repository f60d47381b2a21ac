//! The stored blocks: what is known of each, how an analysis is attached, and what the explorer
//! reads of them.
use vstd::prelude::*;

use crate::db::{lemma_selected_take, selected};
use crate::json::Json;
use crate::number::{fits64, narrow};
use crate::order::{sort_by_keys, stably_sorted};
use crate::rpc::{first_of_period, period_start, BlockInfo};
use crate::text::copy_text;

verus! {

/// The number of blocks from one retarget to the next.
pub const RETARGET_PERIOD: i64 = 2016;

/// How many of the blocks that signal in a period are shown.
pub const SIGNALLING_SHOWN: usize = 200;

/// A stored block: what its header and coinbase say, and the results of its analysis as JSON
/// texts, where there are any.
#[derive(Debug)]
pub struct StoredBlock {
    pub info: BlockInfo,
    pub payload: Option<String>,
    pub stats: Option<String>,
}

impl Clone for StoredBlock {
    fn clone(&self) -> (r: Self)
        ensures
            r == *self,
    {
        StoredBlock {
            info: self.info.clone(),
            payload: copy_text(&self.payload),
            stats: copy_text(&self.stats),
        }
    }
}

/// Whether the blocks stand in order, the highest first, one for each height.
pub open spec fn newest_first(s: Seq<StoredBlock>) -> bool {
    forall|i: int, j: int|
        0 <= i < j < s.len() ==> (#[trigger] s[i]).info.height > (#[trigger] s[j]).info.height
}

/// Whether some block has this height.
pub open spec fn has_height(s: Seq<StoredBlock>, height: i64) -> bool {
    exists|i: int| 0 <= i < s.len() && (#[trigger] s[i]).info.height == height
}

/// The block with this height.
pub open spec fn at_height(s: Seq<StoredBlock>, height: i64) -> StoredBlock {
    s[choose|i: int| 0 <= i < s.len() && (#[trigger] s[i]).info.height == height]
}

/// The blocks by height.
pub open spec fn by_height(s: Seq<StoredBlock>) -> Map<i64, StoredBlock> {
    Map::new(|h: i64| has_height(s, h), |h: i64| at_height(s, h))
}

/// Whether `all` lists the blocks of `m`, the highest first.
pub open spec fn lists(all: Seq<StoredBlock>, m: Map<i64, StoredBlock>) -> bool {
    newest_first(all) && by_height(all) == m
}

/// A map of blocks is listed in one way only.
pub proof fn law_list_is_unique(
    a: Seq<StoredBlock>,
    b: Seq<StoredBlock>,
    m: Map<i64, StoredBlock>,
)
    requires
        lists(a, m),
        lists(b, m),
    ensures
        a == b,
    decreases a.len(),
{
    if a.len() > 0 {
        let h = a[0].info.height;
        lemma_at(a, 0);
        assert(m.contains_key(h));
        assert(has_height(b, h));
        lemma_at(b, 0);
        let g = b[0].info.height;
        assert(m.contains_key(g));
        assert(has_height(a, g));
        let i = choose|i: int| 0 <= i < a.len() && (#[trigger] a[i]).info.height == g;
        let j = choose|j: int| 0 <= j < b.len() && (#[trigger] b[j]).info.height == h;
        assert(a[0].info.height >= a[i].info.height);
        assert(b[0].info.height >= b[j].info.height);
        assert(a[0] == b[0]);
        let x = a.skip(1);
        let y = b.skip(1);
        lemma_rest(a);
        lemma_rest(b);
        law_list_is_unique(x, y, m.remove(h));
        assert(a == seq![a[0]] + x);
        assert(b == seq![b[0]] + y);
    } else if b.len() > 0 {
        lemma_at(b, 0);
        assert(m.contains_key(b[0].info.height));
        assert(has_height(a, b[0].info.height));
    }
}

/// Each block is found at its height.
proof fn lemma_at(s: Seq<StoredBlock>, i: int)
    requires
        newest_first(s),
        0 <= i < s.len(),
    ensures
        has_height(s, s[i].info.height),
        at_height(s, s[i].info.height) == s[i],
        by_height(s).contains_key(s[i].info.height),
        by_height(s)[s[i].info.height] == s[i],
{
    let h = s[i].info.height;
    let k = choose|k: int| 0 <= k < s.len() && (#[trigger] s[k]).info.height == h;
    if k < i {
        assert(s[k].info.height > s[i].info.height);
    } else if i < k {
        assert(s[i].info.height > s[k].info.height);
    }
}

/// Without the first block its height is gone.
proof fn lemma_rest(s: Seq<StoredBlock>)
    requires
        newest_first(s),
        s.len() > 0,
    ensures
        newest_first(s.skip(1)),
        by_height(s.skip(1)) == by_height(s).remove(s[0].info.height),
{
    let t = s.skip(1);
    assert forall|i: int, j: int| 0 <= i < j < t.len() implies (#[trigger] t[i]).info.height > (
    #[trigger] t[j]).info.height by {
        assert(t[i] == s[i + 1]);
        assert(t[j] == s[j + 1]);
    }
    let m = by_height(s).remove(s[0].info.height);
    assert forall|h: i64| #[trigger] by_height(t).contains_key(h) == m.contains_key(h) by {
        if has_height(t, h) {
            let i = choose|i: int| 0 <= i < t.len() && (#[trigger] t[i]).info.height == h;
            assert(s[i + 1].info.height == h);
            assert(s[0].info.height > s[i + 1].info.height);
        }
        if m.contains_key(h) {
            let i = choose|i: int| 0 <= i < s.len() && (#[trigger] s[i]).info.height == h;
            assert(t[i - 1].info.height == h);
        }
    }
    assert forall|h: i64| by_height(t).contains_key(h) implies #[trigger] by_height(t)[h]
        == m[h] by {
        let i = choose|i: int| 0 <= i < t.len() && (#[trigger] t[i]).info.height == h;
        lemma_at(t, i);
        lemma_at(s, i + 1);
        assert(s[i + 1] == t[i]);
    }
    assert(by_height(t) =~= m);
}

/// The blocks by height once one is put in at place `at`, in place of the one of its height where
/// there is one.
proof fn lemma_put(s: Seq<StoredBlock>, t: Seq<StoredBlock>, at: int, b: StoredBlock)
    requires
        newest_first(s),
        0 <= at <= s.len(),
        forall|i: int| 0 <= i < at ==> (#[trigger] s[i]).info.height > b.info.height,
        (at < s.len() && s[at].info.height == b.info.height && t == s.update(at, b)) || ((at
            == s.len() || s[at].info.height < b.info.height) && t == s.insert(at, b)),
    ensures
        newest_first(t),
        by_height(t) == by_height(s).insert(b.info.height, b),
{
    let set = at < s.len() && s[at].info.height == b.info.height;
    assert forall|i: int, j: int| 0 <= i < j < t.len() implies (#[trigger] t[i]).info.height > (
    #[trigger] t[j]).info.height by {
        if set {
            let x = s[i];
            let y = s[j];
        } else {
            let x = if i < at {
                i
            } else {
                i - 1
            };
            let y = if j < at {
                j
            } else {
                j - 1
            };
            if i != at {
                assert(t[i] == s[x]);
            }
            if j != at {
                assert(t[j] == s[y]);
            }
            if i == at && y > at {
                assert(s[at].info.height > s[y].info.height);
            }
        }
    }
    lemma_at(t, at);
    let m = by_height(s).insert(b.info.height, b);
    assert forall|h: i64| #[trigger] by_height(t).contains_key(h) == m.contains_key(h) by {
        if has_height(t, h) && h != b.info.height {
            let i = choose|i: int| 0 <= i < t.len() && (#[trigger] t[i]).info.height == h;
            let x = if set || i < at {
                i
            } else {
                i - 1
            };
            assert(s[x] == t[i]);
        }
        if has_height(s, h) && h != b.info.height {
            let i = choose|i: int| 0 <= i < s.len() && (#[trigger] s[i]).info.height == h;
            let x = if set || i < at {
                i
            } else {
                i + 1
            };
            assert(t[x] == s[i]);
        }
    }
    assert forall|h: i64| by_height(t).contains_key(h) implies #[trigger] by_height(t)[h]
        == m[h] by {
        if h != b.info.height {
            let i = choose|i: int| 0 <= i < t.len() && (#[trigger] t[i]).info.height == h;
            let x = if set || i < at {
                i
            } else {
                i - 1
            };
            assert(s[x] == t[i]);
            lemma_at(t, i);
            lemma_at(s, x);
        }
    }
    assert(by_height(t) =~= m);
}

/// The stored blocks, one for each height.
pub struct BlockTable {
    rows: Vec<StoredBlock>,
}

impl View for BlockTable {
    type V = Map<i64, StoredBlock>;

    closed spec fn view(&self) -> Map<i64, StoredBlock> {
        by_height(self.rows@)
    }
}

/// What a block leaves in its place: its own figures, and the analysis that was there.
pub open spec fn restored(m: Map<i64, StoredBlock>, b: BlockInfo) -> StoredBlock {
    if m.contains_key(b.height) {
        StoredBlock { info: b, payload: m[b.height].payload, stats: m[b.height].stats }
    } else {
        StoredBlock { info: b, payload: None, stats: None }
    }
}

/// The table once blocks are stored in turn.
pub open spec fn with_blocks(m: Map<i64, StoredBlock>, blocks: Seq<BlockInfo>) -> Map<
    i64,
    StoredBlock,
>
    decreases blocks.len(),
{
    if blocks.len() == 0 {
        m
    } else {
        let before = with_blocks(m, blocks.drop_last());
        before.insert(blocks.last().height, restored(before, blocks.last()))
    }
}

/// The table of these rows; of two with one height the later counts.
pub open spec fn of_rows(rows: Seq<StoredBlock>) -> Map<i64, StoredBlock>
    decreases rows.len(),
{
    if rows.len() == 0 {
        Map::empty()
    } else {
        of_rows(rows.drop_last()).insert(rows.last().info.height, rows.last())
    }
}

/// A block without an analysis.
pub open spec fn is_unanalysed() -> spec_fn(StoredBlock) -> bool {
    |b: StoredBlock| b.payload.is_none()
}

/// A block that signals and is not below `start`.
pub open spec fn signals_from(start: int) -> spec_fn(StoredBlock) -> bool {
    |b: StoredBlock| b.info.signals && b.info.height >= start
}

/// A block whose analysis is stored and that is not below `start`.
pub open spec fn analysed_from(start: int) -> spec_fn(StoredBlock) -> bool {
    |b: StoredBlock| b.info.height >= start && b.payload.is_some()
}

/// The first `limit`, or all where there are no more.
pub open spec fn first_few<T>(s: Seq<T>, limit: usize) -> Seq<T> {
    if limit < s.len() {
        s.take(limit as int)
    } else {
        s
    }
}

/// A period is one block long at least.
pub open spec fn at_least_one(n: i64) -> int {
    if n < 1 {
        1
    } else {
        n as int
    }
}

/// Whether `tip` is the highest height in the table.
pub open spec fn is_tip(m: Map<i64, StoredBlock>, tip: i64) -> bool {
    m.contains_key(tip) && forall|h: i64| #[trigger] m.contains_key(h) ==> h <= tip
}

/// What is selected from a beginning comes first in what is selected from the whole.
proof fn lemma_selected_extends<T>(s: Seq<T>, f: spec_fn(T) -> bool, i: int)
    requires
        0 <= i <= s.len(),
    ensures
        selected(s.take(i), f).len() <= selected(s, f).len(),
        selected(s, f).take(selected(s.take(i), f).len() as int) == selected(s.take(i), f),
    decreases s.len() - i,
{
    if i < s.len() {
        lemma_selected_extends(s, f, i + 1);
        lemma_selected_take(s, f, i);
        let part = selected(s.take(i), f);
        assert(selected(s, f).take(part.len() as int) =~= part);
    } else {
        assert(s.take(i) == s);
        assert(selected(s, f).take(selected(s, f).len() as int) =~= selected(s, f));
    }
}

impl BlockTable {
    #[verifier::type_invariant]
    spec fn wf(self) -> bool {
        newest_first(self.rows@)
    }

    /// A table without blocks.
    pub fn new() -> (r: Self)
        ensures
            r@ == Map::<i64, StoredBlock>::empty(),
    {
        let r = BlockTable { rows: Vec::new() };
        assert(r@ =~= Map::<i64, StoredBlock>::empty());
        r
    }

    /// A table with these rows.
    pub fn load(rows: Vec<StoredBlock>) -> (r: Self)
        ensures
            r@ == of_rows(rows@),
    {
        let mut out = BlockTable::new();
        let mut i: usize = 0;
        while i < rows.len()
            invariant
                i <= rows@.len(),
                out@ == of_rows(rows@.take(i as int)),
            decreases rows@.len() - i,
        {
            proof {
                assert(rows@.take(i + 1).drop_last() == rows@.take(i as int));
                assert(rows@.take(i + 1).last() == rows@[i as int]);
            }
            out.put(rows[i].clone());
            i = i + 1;
        }
        assert(rows@.take(rows@.len() as int) == rows@);
        out
    }

    /// The place of the first block that is not above `height`.
    fn place(&self, height: i64) -> (r: usize)
        ensures
            r <= self.rows@.len(),
            forall|i: int| 0 <= i < r ==> (#[trigger] self.rows@[i]).info.height > height,
            r < self.rows@.len() ==> self.rows@[r as int].info.height <= height,
    {
        let mut i: usize = 0;
        while i < self.rows.len() && self.rows[i].info.height > height
            invariant
                i <= self.rows@.len(),
                forall|k: int| 0 <= k < i ==> (#[trigger] self.rows@[k]).info.height > height,
            decreases self.rows@.len() - i,
        {
            i = i + 1;
        }
        i
    }

    fn put(&mut self, b: StoredBlock)
        ensures
            final(self)@ == old(self)@.insert(b.info.height, b),
    {
        proof {
            use_type_invariant(&*self);
        }
        let at = self.place(b.info.height);
        let mut rows: Vec<StoredBlock> = Vec::new();
        std::mem::swap(&mut rows, &mut self.rows);
        let ghost was = rows@;
        let ghost one = b;
        if at < rows.len() && rows[at].info.height == b.info.height {
            rows.set(at, b);
        } else {
            rows.insert(at, b);
        }
        proof {
            lemma_put(was, rows@, at as int, one);
        }
        self.rows = rows;
    }

    /// The block with this height.
    pub fn get(&self, height: i64) -> (r: Option<&StoredBlock>)
        ensures
            match r {
                Some(b) => self@.contains_key(height) && self@[height] == *b,
                None => !self@.contains_key(height),
            },
    {
        proof {
            use_type_invariant(self);
        }
        let at = self.place(height);
        if at < self.rows.len() && self.rows[at].info.height == height {
            proof {
                lemma_at(self.rows@, at as int);
            }
            return Some(&self.rows[at]);
        }
        proof {
            if has_height(self.rows@, height) {
                let i = choose|i: int|
                    0 <= i < self.rows@.len() && (#[trigger] self.rows@[i]).info.height == height;
                if i > at {
                    assert(self.rows@[at as int].info.height > self.rows@[i].info.height);
                }
            }
        }
        None
    }

    /// Stores blocks. The figures of one that is there are replaced, and its analysis stays.
    pub fn write_blocks(&mut self, blocks: &Vec<BlockInfo>)
        ensures
            final(self)@ == with_blocks(old(self)@, blocks@),
    {
        let ghost was = self@;
        let mut i: usize = 0;
        assert(blocks@.take(0) =~= Seq::<BlockInfo>::empty());
        while i < blocks.len()
            invariant
                i <= blocks@.len(),
                self@ == with_blocks(was, blocks@.take(i as int)),
            decreases blocks@.len() - i,
        {
            proof {
                assert(blocks@.take(i + 1).drop_last() == blocks@.take(i as int));
                assert(blocks@.take(i + 1).last() == blocks@[i as int]);
            }
            let (payload, stats) = match self.get(blocks[i].height) {
                Some(b) => (copy_text(&b.payload), copy_text(&b.stats)),
                None => (None, None),
            };
            self.put(StoredBlock { info: blocks[i].clone(), payload, stats });
            i = i + 1;
        }
        assert(blocks@.take(blocks@.len() as int) == blocks@);
    }

    /// Attaches an analysis to a stored block, in place of the one that was there. A height that
    /// is not stored is left alone.
    pub fn write_block_analysis(&mut self, height: i64, payload: String, stats: Option<String>)
        ensures
            final(self)@ == (if old(self)@.contains_key(height) {
                old(self)@.insert(
                    height,
                    (StoredBlock {
                        info: old(self)@[height].info,
                        payload: Some(payload),
                        stats: stats,
                    }),
                )
            } else {
                old(self)@
            }),
    {
        proof {
            use_type_invariant(&*self);
        }
        let found = match self.get(height) {
            Some(b) => Some(b.info.clone()),
            None => None,
        };
        if let Some(info) = found {
            proof {
                let i = choose|i: int|
                    0 <= i < self.rows@.len() && (#[trigger] self.rows@[i]).info.height == height;
                lemma_at(self.rows@, i);
            }
            self.put(StoredBlock { info, payload: Some(payload), stats });
        }
    }

    /// The highest stored height.
    pub fn tip(&self) -> (r: Option<i64>)
        ensures
            match r {
                Some(tip) => is_tip(self@, tip),
                None => self@ == Map::<i64, StoredBlock>::empty(),
            },
    {
        proof {
            use_type_invariant(self);
        }
        if self.rows.len() == 0 {
            assert(self@ =~= Map::<i64, StoredBlock>::empty());
            return None;
        }
        proof {
            lemma_at(self.rows@, 0);
            assert forall|h: i64| #[trigger] self@.contains_key(h) implies h
                <= self.rows@[0].info.height by {
                let i = choose|i: int|
                    0 <= i < self.rows@.len() && (#[trigger] self.rows@[i]).info.height == h;
                let x = self.rows@[i];
            }
        }
        Some(self.rows[0].info.height)
    }

    /// The newest blocks, the highest first.
    pub fn read_blocks(&self, limit: usize) -> (r: Vec<StoredBlock>)
        ensures
            exists|all: Seq<StoredBlock>| #[trigger]
                lists(all, self@) && r@ == first_few(all, limit),
    {
        proof {
            use_type_invariant(self);
            assert(lists(self.rows@, self@));
        }
        let mut out: Vec<StoredBlock> = Vec::new();
        let mut i: usize = 0;
        while i < self.rows.len() && i < limit
            invariant
                i <= self.rows@.len(),
                i <= limit,
                out@ == self.rows@.take(i as int),
            decreases self.rows@.len() - i,
        {
            out.push(self.rows[i].clone());
            assert(out@ =~= self.rows@.take(i + 1));
            i = i + 1;
        }
        assert(out@ =~= first_few(self.rows@, limit));
        out
    }

    /// The first height of the period that the tip lies in, the tip, and the blocks of the period
    /// that signal, the highest first. Zeros and no blocks for an empty table.
    pub fn read_period_signalling_blocks(&self, period_len: i64, limit: usize) -> (r: (
        i64,
        i64,
        Vec<StoredBlock>,
    ))
        ensures
            if self@ == Map::<i64, StoredBlock>::empty() {
                r.0 == 0 && r.1 == 0 && r.2@ == Seq::<StoredBlock>::empty()
            } else {
                &&& is_tip(self@, r.1)
                &&& r.0 == period_start(r.1, at_least_one(period_len))
                &&& exists|all: Seq<StoredBlock>| #[trigger]
                    lists(all, self@) && r.2@ == first_few(
                        selected(all, signals_from(r.0 as int)),
                        limit,
                    )
            },
    {
        let tip = match self.tip() {
            Some(t) => t,
            None => {
                return (0, 0, Vec::new());
            },
        };
        proof {
            use_type_invariant(self);
            assert(lists(self.rows@, self@));
        }
        let start = first_of_period(
            tip,
            if period_len < 1 {
                1
            } else {
                period_len
            },
        );
        let ghost f = signals_from(start as int);
        let mut out: Vec<StoredBlock> = Vec::new();
        let mut i: usize = 0;
        assert(self.rows@.take(0) =~= Seq::<StoredBlock>::empty());
        while i < self.rows.len() && out.len() < limit
            invariant
                i <= self.rows@.len(),
                f == signals_from(start as int),
                out@ == selected(self.rows@.take(i as int), f),
                out@.len() <= limit,
            decreases self.rows@.len() - i,
        {
            proof {
                lemma_selected_take(self.rows@, f, i as int);
            }
            if self.rows[i].info.signals && self.rows[i].info.height >= start {
                out.push(self.rows[i].clone());
            }
            i = i + 1;
        }
        proof {
            lemma_selected_extends(self.rows@, f, i as int);
            if i == self.rows@.len() {
                assert(self.rows@.take(i as int) == self.rows@);
            }
            assert(out@ =~= first_few(selected(self.rows@, f), limit));
        }
        (start, tip, out)
    }

    /// Heights and hashes of the blocks without an analysis, the highest first.
    pub fn blocks_needing_analysis(&self, limit: usize) -> (r: Vec<(i64, String)>)
        ensures
            exists|all: Seq<StoredBlock>| #[trigger]
                lists(all, self@) && r@ == first_few(
                    selected(all, is_unanalysed()),
                    limit,
                ).map_values(|b: StoredBlock| (b.info.height, b.info.hash)),
    {
        proof {
            use_type_invariant(self);
            assert(lists(self.rows@, self@));
        }
        let ghost f = is_unanalysed();
        let ghost g = |b: StoredBlock| (b.info.height, b.info.hash);
        let mut out: Vec<(i64, String)> = Vec::new();
        let mut i: usize = 0;
        assert(self.rows@.take(0) =~= Seq::<StoredBlock>::empty());
        while i < self.rows.len() && out.len() < limit
            invariant
                i <= self.rows@.len(),
                f == is_unanalysed(),
                g == (|b: StoredBlock| (b.info.height, b.info.hash)),
                out@ == selected(self.rows@.take(i as int), f).map_values(g),
                out@.len() <= limit,
            decreases self.rows@.len() - i,
        {
            proof {
                lemma_selected_take(self.rows@, f, i as int);
            }
            let ghost was = selected(self.rows@.take(i as int), f);
            if self.rows[i].payload.is_none() {
                out.push((self.rows[i].info.height, self.rows[i].info.hash.clone()));
                assert(out@ =~= was.push(self.rows@[i as int]).map_values(g));
            }
            i = i + 1;
        }
        proof {
            lemma_selected_extends(self.rows@, f, i as int);
            if i == self.rows@.len() {
                assert(self.rows@.take(i as int) == self.rows@);
            }
            assert(out@ =~= first_few(selected(self.rows@, f), limit).map_values(g));
        }
        out
    }

    /// Those of `heights` that are not stored, in their order.
    pub fn unstored_heights(&self, heights: &Vec<i64>) -> (r: Vec<i64>)
        ensures
            r@ == selected(heights@, |h: i64| !self@.contains_key(h)),
    {
        let ghost f = |h: i64| !self@.contains_key(h);
        let mut out: Vec<i64> = Vec::new();
        let mut i: usize = 0;
        assert(heights@.take(0) =~= Seq::<i64>::empty());
        while i < heights.len()
            invariant
                i <= heights@.len(),
                f == (|h: i64| !self@.contains_key(h)),
                out@ == selected(heights@.take(i as int), f),
            decreases heights@.len() - i,
        {
            proof {
                lemma_selected_take(heights@, f, i as int);
            }
            if self.get(heights[i]).is_none() {
                out.push(heights[i]);
            }
            i = i + 1;
        }
        assert(heights@.take(heights@.len() as int) == heights@);
        out
    }

    /// The first height of the period that the tip lies in, and the blocks from there on whose
    /// analysis is stored, the highest first; none for an empty table.
    pub fn period_rows(&self, period_len: i64) -> (r: Option<(i64, Vec<StoredBlock>)>)
        ensures
            match r {
                None => self@ == Map::<i64, StoredBlock>::empty(),
                Some((start, rows)) => {
                    &&& exists|tip: i64| #[trigger]
                        is_tip(self@, tip) && start == period_start(tip, at_least_one(period_len))
                    &&& exists|all: Seq<StoredBlock>| #[trigger]
                        lists(all, self@) && rows@ == selected(all, analysed_from(start as int))
                },
            },
    {
        let tip = match self.tip() {
            Some(t) => t,
            None => {
                return None;
            },
        };
        proof {
            use_type_invariant(self);
            assert(lists(self.rows@, self@));
        }
        let start = first_of_period(
            tip,
            if period_len < 1 {
                1
            } else {
                period_len
            },
        );
        let ghost f = analysed_from(start as int);
        let mut out: Vec<StoredBlock> = Vec::new();
        let mut i: usize = 0;
        assert(self.rows@.take(0) =~= Seq::<StoredBlock>::empty());
        while i < self.rows.len()
            invariant
                i <= self.rows@.len(),
                f == analysed_from(start as int),
                out@ == selected(self.rows@.take(i as int), f),
            decreases self.rows@.len() - i,
        {
            proof {
                lemma_selected_take(self.rows@, f, i as int);
            }
            if self.rows[i].info.height >= start && self.rows[i].payload.is_some() {
                out.push(self.rows[i].clone());
            }
            i = i + 1;
        }
        assert(self.rows@.take(self.rows@.len() as int) == self.rows@);
        Some((start, out))
    }
}

// ---- laws -------------------------------------------------------------------------------------

/// To store blocks, new ones or again, leaves the analysis of every stored block as it is.
pub proof fn law_restoring_keeps_analysis(
    m: Map<i64, StoredBlock>,
    blocks: Seq<BlockInfo>,
    height: i64,
)
    requires
        m.contains_key(height),
    ensures
        with_blocks(m, blocks).contains_key(height),
        with_blocks(m, blocks)[height].payload == m[height].payload,
        with_blocks(m, blocks)[height].stats == m[height].stats,
    decreases blocks.len(),
{
    if blocks.len() > 0 {
        law_restoring_keeps_analysis(m, blocks.drop_last(), height);
    }
}

/// To store a block again changes nothing.
pub proof fn law_storing_again_changes_nothing(m: Map<i64, StoredBlock>, b: BlockInfo)
    ensures
        with_blocks(with_blocks(m, seq![b]), seq![b]) == with_blocks(m, seq![b]),
{
    reveal_with_fuel(with_blocks, 2);
    let one = seq![b];
    assert(one.drop_last() =~= Seq::<BlockInfo>::empty());
    assert(one.last() == b);
    let after = with_blocks(m, one);
    assert(after == m.insert(b.height, restored(m, b)));
    assert(restored(after, b) == restored(m, b));
    assert(with_blocks(after, one) =~= after);
}

/// Blocks of other heights leave a stored block as it is.
pub proof fn law_other_blocks_stay(
    m: Map<i64, StoredBlock>,
    blocks: Seq<BlockInfo>,
    height: i64,
)
    requires
        forall|i: int| 0 <= i < blocks.len() ==> (#[trigger] blocks[i]).height != height,
    ensures
        with_blocks(m, blocks).contains_key(height) == m.contains_key(height),
        m.contains_key(height) ==> with_blocks(m, blocks)[height] == m[height],
    decreases blocks.len(),
{
    if blocks.len() > 0 {
        let rest = blocks.drop_last();
        assert forall|i: int| 0 <= i < rest.len() implies (#[trigger] rest[i]).height
            != height by {
            assert(rest[i] == blocks[i]);
        }
        law_other_blocks_stay(m, rest, height);
        assert(blocks[blocks.len() - 1].height != height);
    }
}

// ---- figures of a period ------------------------------------------------------------------

/// The analysis of a block: what its stored texts hold, where they are JSON.
#[derive(Debug)]
pub struct BlockAnalysis {
    pub payload: Option<Json>,
    pub stats: Option<Json>,
}

/// The figures of the analysed blocks of a period.
#[derive(Clone, Copy, Debug, PartialEq, Eq, Structural)]
pub struct PeriodStats {
    pub analysed: usize,
    pub with_stats: usize,
    pub insc_count: i64,
    pub rune_count: i64,
    pub payload_weight: i64,
    pub reject_weight: i64,
    pub total_fee: i64,
    pub median_feerate: i64,
}

/// The number of analysed blocks.
pub open spec fn analysed(rows: Seq<BlockAnalysis>) -> nat
    decreases rows.len(),
{
    if rows.len() == 0 {
        0
    } else {
        analysed(rows.drop_last()) + (if rows.last().payload.is_some() {
            1nat
        } else {
            0
        })
    }
}

/// The sum of the numbers under `key` over the analysed blocks.
pub open spec fn payload_sum(rows: Seq<BlockAnalysis>, key: Seq<char>) -> int
    decreases rows.len(),
{
    if rows.len() == 0 {
        0
    } else {
        payload_sum(rows.drop_last(), key) + (match rows.last().payload {
            Some(p) => p.number_or_0(key) as int,
            None => 0,
        })
    }
}

/// The fee figures of an analysed block.
pub open spec fn fees_of(row: BlockAnalysis) -> Option<Json> {
    if row.payload.is_some() {
        row.stats
    } else {
        None
    }
}

/// The sum of the fees over the analysed blocks.
pub open spec fn fee_sum(rows: Seq<BlockAnalysis>) -> int
    decreases rows.len(),
{
    if rows.len() == 0 {
        0
    } else {
        fee_sum(rows.drop_last()) + (match fees_of(rows.last()) {
            Some(s) => s.number_or_0("total_fee"@) as int,
            None => 0,
        })
    }
}

/// The median fee rates of the analysed blocks that have them.
pub open spec fn rates(rows: Seq<BlockAnalysis>) -> Seq<i64>
    decreases rows.len(),
{
    if rows.len() == 0 {
        Seq::empty()
    } else {
        match fees_of(rows.last()) {
            Some(s) => rates(rows.drop_last()).push(s.number_or_0("median_feerate"@)),
            None => rates(rows.drop_last()),
        }
    }
}

/// The smaller comes first.
pub open spec fn smaller_first() -> spec_fn(i64, i64) -> bool {
    |a: i64, b: i64| a < b
}

/// Whether `m` is the upper median of `s`, or 0 where there is nothing.
pub open spec fn is_middle(m: i64, s: Seq<i64>) -> bool {
    if s.len() == 0 {
        m == 0
    } else {
        exists|sorted: Seq<i64>| #[trigger]
            stably_sorted(sorted, s, smaller_first()) && m == sorted[s.len() as int / 2]
    }
}

fn middle(s: &Vec<i64>) -> (r: i64)
    ensures
        is_middle(r, s@),
{
    if s.len() == 0 {
        return 0;
    }
    let mut keys: Vec<i128> = Vec::new();
    let mut i: usize = 0;
    while i < s.len()
        invariant
            i <= s@.len(),
            keys@.len() == i,
            forall|j: int| 0 <= j < i ==> #[trigger] keys@[j] == s@[j],
        decreases s@.len() - i,
    {
        keys.push(s[i] as i128);
        i = i + 1;
    }
    let sorted = sort_by_keys(s, &keys, Ghost(smaller_first()));
    sorted[sorted.len() / 2]
}

/// Whether the figures of `rows` can be told: no sum is too large.
pub open spec fn sums_fit(rows: Seq<BlockAnalysis>) -> bool {
    &&& fits64(payload_sum(rows, "insc_count"@))
    &&& fits64(payload_sum(rows, "rune_count"@))
    &&& fits64(payload_sum(rows, "payload_weight"@))
    &&& fits64(payload_sum(rows, "bip110_reject_weight"@))
    &&& fits64(fee_sum(rows))
}

/// The figures of a period from the analyses of its blocks; none where a sum does not fit.
pub fn read_period_block_stats(rows: &Vec<BlockAnalysis>) -> (r: Option<PeriodStats>)
    ensures
        match r {
            None => !sums_fit(rows@),
            Some(p) => {
                &&& sums_fit(rows@)
                &&& p.analysed == analysed(rows@)
                &&& p.with_stats == rates(rows@).len()
                &&& p.insc_count == payload_sum(rows@, "insc_count"@)
                &&& p.rune_count == payload_sum(rows@, "rune_count"@)
                &&& p.payload_weight == payload_sum(rows@, "payload_weight"@)
                &&& p.reject_weight == payload_sum(rows@, "bip110_reject_weight"@)
                &&& p.total_fee == fee_sum(rows@)
                &&& is_middle(p.median_feerate, rates(rows@))
            },
        },
{
    let mut n: usize = 0;
    let mut insc: i128 = 0;
    let mut runes: i128 = 0;
    let mut weight: i128 = 0;
    let mut reject: i128 = 0;
    let mut fee: i128 = 0;
    let mut list: Vec<i64> = Vec::new();
    let mut i: usize = 0;
    assert(rows@.take(0) =~= Seq::<BlockAnalysis>::empty());
    while i < rows.len()
        invariant
            i <= rows@.len(),
            n <= i,
            n == analysed(rows@.take(i as int)),
            insc == payload_sum(rows@.take(i as int), "insc_count"@),
            runes == payload_sum(rows@.take(i as int), "rune_count"@),
            weight == payload_sum(rows@.take(i as int), "payload_weight"@),
            reject == payload_sum(rows@.take(i as int), "bip110_reject_weight"@),
            fee == fee_sum(rows@.take(i as int)),
            list@ == rates(rows@.take(i as int)),
            i64::MIN * i <= insc <= i64::MAX * i,
            i64::MIN * i <= runes <= i64::MAX * i,
            i64::MIN * i <= weight <= i64::MAX * i,
            i64::MIN * i <= reject <= i64::MAX * i,
            i64::MIN * i <= fee <= i64::MAX * i,
        decreases rows@.len() - i,
    {
        proof {
            assert(rows@.take(i + 1).drop_last() == rows@.take(i as int));
            assert(rows@.take(i + 1).last() == rows@[i as int]);
        }
        if let Some(p) = &rows[i].payload {
            n = n + 1;
            insc = insc + p.get_i64("insc_count") as i128;
            runes = runes + p.get_i64("rune_count") as i128;
            weight = weight + p.get_i64("payload_weight") as i128;
            reject = reject + p.get_i64("bip110_reject_weight") as i128;
            if let Some(s) = &rows[i].stats {
                fee = fee + s.get_i64("total_fee") as i128;
                list.push(s.get_i64("median_feerate"));
            }
        }
        i = i + 1;
    }
    assert(rows@.take(rows@.len() as int) == rows@);
    match (narrow(insc), narrow(runes), narrow(weight), narrow(reject), narrow(fee)) {
        (
            Some(insc_count),
            Some(rune_count),
            Some(payload_weight),
            Some(reject_weight),
            Some(total_fee),
        ) => Some(
            PeriodStats {
                analysed: n,
                with_stats: list.len(),
                insc_count,
                rune_count,
                payload_weight,
                reject_weight,
                total_fee,
                median_feerate: middle(&list),
            },
        ),
        _ => None,
    }
}

/// A block that is written is stored with what was written of it; its analysis stays, or is missing
/// where it had none. The last block of a height counts.
pub proof fn law_written_block_is_stored(m: Map<i64, StoredBlock>, blocks: Seq<BlockInfo>, i: int)
    requires
        0 <= i < blocks.len(),
        forall|j: int| i < j < blocks.len() ==> (#[trigger] blocks[j]).height != blocks[i].height,
    ensures
        ({
            let r = with_blocks(m, blocks);
            let h = blocks[i].height;
            &&& r.contains_key(h)
            &&& r[h].info == blocks[i]
            &&& m.contains_key(h) ==> r[h].payload == m[h].payload && r[h].stats == m[h].stats
            &&& !m.contains_key(h) ==> r[h].payload.is_none() && r[h].stats.is_none()
        }),
    decreases blocks.len(),
{
    let d = blocks.drop_last();
    let h = blocks[i].height;
    assert(blocks[blocks.len() - 1] == blocks.last());
    lemma_analysis_stays(m, d, h);
    if i < d.len() {
        assert(d[i] == blocks[i]);
        assert forall|j: int| i < j < d.len() implies (#[trigger] d[j]).height != d[i].height by {
            assert(d[j] == blocks[j]);
        }
        law_written_block_is_stored(m, d, i);
    }
}

proof fn lemma_analysis_stays(m: Map<i64, StoredBlock>, blocks: Seq<BlockInfo>, h: i64)
    ensures
        ({
            let r = with_blocks(m, blocks);
            &&& m.contains_key(h) ==> r.contains_key(h) && r[h].payload == m[h].payload && r[h].stats
                == m[h].stats
            &&& !m.contains_key(h) && r.contains_key(h) ==> r[h].payload.is_none()
                && r[h].stats.is_none()
        }),
    decreases blocks.len(),
{
    if blocks.len() > 0 {
        lemma_analysis_stays(m, blocks.drop_last(), h);
    }
}

/// Blocks are shown, analysed and counted by these conditions: a block needs analysis where it has
/// none; it counts as signalling in a period where it signals and lies in it, and as analysed where
/// it lies in it and has an analysis. A period has at least one block.
pub proof fn law_block_conditions(b: StoredBlock, start: int, n: i64)
    ensures
        is_unanalysed()(b) <==> b.payload.is_none(),
        signals_from(start)(b) <==> b.info.signals && b.info.height >= start,
        analysed_from(start)(b) <==> b.payload.is_some() && b.info.height >= start,
        at_least_one(n) >= 1,
        n >= 1 ==> at_least_one(n) == n,
        n <= 1 ==> at_least_one(n) == 1,
{
}

/// The figures of a period add up over its blocks: one more block adds what its analysis says, and
/// nothing where it has none. Fees count only for blocks with an analysis.
pub proof fn law_period_figures_add_up(rows: Seq<BlockAnalysis>, row: BlockAnalysis, key: Seq<char>)
    ensures
        analysed(Seq::empty()) == 0 && payload_sum(Seq::empty(), key) == 0 && fee_sum(Seq::empty())
            == 0 && rates(Seq::empty()).len() == 0,
        row.payload matches Some(p) ==> analysed(rows.push(row)) == analysed(rows) + 1
            && payload_sum(rows.push(row), key) == payload_sum(rows, key) + p.number_or_0(key),
        row.payload.is_none() ==> analysed(rows.push(row)) == analysed(rows) && payload_sum(
            rows.push(row),
            key,
        ) == payload_sum(rows, key) && fee_sum(rows.push(row)) == fee_sum(rows) && rates(
            rows.push(row),
        ) == rates(rows),
        row.payload.is_some() && row.stats.is_some() ==> fee_sum(rows.push(row)) == fee_sum(rows)
            + row.stats.unwrap().number_or_0("total_fee"@) && rates(rows.push(row)) == rates(
            rows,
        ).push(row.stats.unwrap().number_or_0("median_feerate"@)),
        row.stats.is_none() ==> fee_sum(rows.push(row)) == fee_sum(rows) && rates(rows.push(row))
            == rates(rows),
{
    assert(rows.push(row).drop_last() =~= rows);
}

/// The median of rates is the one in the middle of them in ascending order, and 0 of none.
pub proof fn law_middle_rate(m: i64, s: Seq<i64>)
    requires
        is_middle(m, s),
        s.len() <= usize::MAX,
    ensures
        s.len() == 0 ==> m == 0,
        s.len() > 0 ==> exists|sorted: Seq<i64>|
            #![trigger sorted.to_multiset()]
            sorted.to_multiset() == s.to_multiset() && sorted.len() == s.len() && (forall|i: int, j: int|
                0 <= i < j < sorted.len() ==> sorted[i] <= sorted[j]) && m == sorted[(s.len()
                / 2) as int],
{
    if s.len() > 0 {
        let less = smaller_first();
        let sorted = choose|sorted: Seq<i64>| #[trigger]
            stably_sorted(sorted, s, less) && m == sorted[s.len() as int / 2];
        assert forall|x: i64, y: i64| #[trigger] less(x, y) implies !less(y, x) by {}
        crate::order::law_sorting_keeps_values(sorted, s, less);
        let p = choose|p: Seq<usize>| crate::order::arranges(p, sorted, s, less);
        assert forall|i: int, j: int| 0 <= i < j < sorted.len() implies sorted[i] <= sorted[j] by {
            assert(less(sorted[i], sorted[j]) || !less(sorted[j], sorted[i]));
        }
        assert(sorted.to_multiset() == s.to_multiset());
    }
}

/// A loaded row is stored under its height unless a later one has the same height, and every stored
/// row was loaded.
pub proof fn law_loaded_rows(rows: Seq<StoredBlock>, i: int, height: i64)
    requires
        0 <= i < rows.len(),
    ensures
        (forall|j: int| i < j < rows.len() ==> (#[trigger] rows[j]).info.height
            != rows[i].info.height) ==> of_rows(rows).contains_key(rows[i].info.height) && of_rows(
            rows,
        )[rows[i].info.height] == rows[i],
        of_rows(rows).contains_key(height) ==> exists|j: int|
            0 <= j < rows.len() && (#[trigger] rows[j]).info.height == height && of_rows(
                rows,
            )[height] == rows[j],
    decreases rows.len(),
{
    let d = rows.drop_last();
    assert(rows[rows.len() - 1] == rows.last());
    if i < d.len() {
        law_loaded_rows(d, i, height);
        assert(d[i] == rows[i]);
        if forall|j: int| i < j < rows.len() ==> (#[trigger] rows[j]).info.height
            != rows[i].info.height {
            assert forall|j: int| i < j < d.len() implies (#[trigger] d[j]).info.height
                != d[i].info.height by {
                assert(d[j] == rows[j]);
            }
        }
        if of_rows(d).contains_key(height) {
            let j = choose|j: int|
                0 <= j < d.len() && (#[trigger] d[j]).info.height == height && of_rows(d)[height]
                    == d[j];
            assert(d[j] == rows[j]);
        }
    } else if d.len() > 0 {
        law_loaded_rows(d, 0, height);
        if of_rows(d).contains_key(height) {
            let j = choose|j: int|
                0 <= j < d.len() && (#[trigger] d[j]).info.height == height && of_rows(d)[height]
                    == d[j];
            assert(d[j] == rows[j]);
        }
    }
}

/// A limited list holds the first items, all of them where they are no more than the limit.
pub proof fn law_first_few<T>(s: Seq<T>, limit: usize)
    ensures
        first_few(s, limit).len() <= limit,
        first_few(s, limit).len() == limit || first_few(s, limit) == s,
        forall|i: int| 0 <= i < first_few(s, limit).len() ==> first_few(s, limit)[i] == s[i],
{
}

/// The tip is a stored height, and one added above it is the new tip.
pub proof fn law_tip_is_the_highest(m: Map<i64, StoredBlock>, tip: i64, b: StoredBlock, height: i64)
    requires
        is_tip(m, tip),
    ensures
        m.contains_key(tip),
        m.contains_key(height) ==> height <= tip,
        height > tip ==> is_tip(m.insert(height, b), height),
        height <= tip ==> is_tip(m.insert(height, b), tip),
{
}

} // verus!
