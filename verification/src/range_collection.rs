//! Sets of block numbers kept as disjoint closed ranges.
//!
//! An [`IntervalSet`] stands for a set of `u64` points. It stores the set as a
//! short list of closed ranges, so that a range of a million block numbers
//! costs as much as a range of one. Every operation is described by what it
//! does to the set of points.

use vstd::prelude::*;

verus! {

/// A closed range of block numbers, `lo` and `hi` both included. A range with
/// `hi < lo` holds no point.
#[derive(Clone, Copy, Debug, PartialEq, Eq, Structural)]
pub struct BlockRange {
    pub lo: u64,
    pub hi: u64,
}

/// The points of the closed range `[lo, hi]`; empty when `hi < lo`.
pub open spec fn range_set(lo: int, hi: int) -> Set<int> {
    Set::new(|x: int| lo <= x <= hi)
}

/// Whether one of the first `upto` ranges of `spans` holds `x`.
pub open spec fn covers_upto(spans: Seq<BlockRange>, upto: int, x: int) -> bool {
    exists|i: int| 0 <= i < upto && i < spans.len() && (#[trigger] spans[i]).lo <= x <= spans[i].hi
}

/// Whether one of the ranges of `spans` holds `x`.
pub open spec fn covers(spans: Seq<BlockRange>, x: int) -> bool {
    covers_upto(spans, spans.len() as int, x)
}

/// The set of points that the ranges of `spans` hold together.
pub open spec fn points_of(spans: Seq<BlockRange>) -> Set<int> {
    Set::new(|x: int| covers(spans, x))
}

/// The stored form: no range is empty, and each range ends at least two
/// below the start of every later one, so the ranges are strictly ascending,
/// disjoint and never adjacent.
pub open spec fn canonical(spans: Seq<BlockRange>) -> bool {
    &&& forall|i: int| 0 <= i < spans.len() ==> (#[trigger] spans[i]).lo <= spans[i].hi
    &&& forall|i: int, j: int|
        0 <= i < j < spans.len() ==> (#[trigger] spans[i]).hi + 1 < (#[trigger] spans[j]).lo
}

/// What `first_gap_after` answers with: `[lo, hi]` is the lowest stretch of
/// points at or after `point` that `s` does not hold, cut to `max_len` points.
pub open spec fn is_first_gap(s: Set<int>, point: int, max_len: int, lo: int, hi: int) -> bool {
    &&& point <= lo <= hi <= u64::MAX
    &&& hi - lo < max_len
    &&& forall|x: int| point <= x < lo ==> s.contains(x)
    &&& forall|x: int| lo <= x <= hi ==> !s.contains(x)
    &&& (hi - lo + 1 == max_len || hi == u64::MAX || s.contains(hi + 1))
}

/// What `first_covered_after` answers with: `[lo, hi]` is the lowest stretch
/// of points at or after `point` that `s` holds, cut to `max_len` points.
pub open spec fn is_first_run(s: Set<int>, point: int, max_len: int, lo: int, hi: int) -> bool {
    &&& point <= lo <= hi <= u64::MAX
    &&& hi - lo < max_len
    &&& forall|x: int| point <= x < lo ==> !s.contains(x)
    &&& forall|x: int| lo <= x <= hi ==> s.contains(x)
    &&& (hi - lo + 1 == max_len || hi == u64::MAX || !s.contains(hi + 1))
}

/// The lowest stretch of points at or after `point` that `s` does not hold,
/// cut to `max_len` points; `None` where there is no such point.
pub open spec fn first_gap(s: Set<int>, point: int, max_len: int) -> Option<BlockRange> {
    if exists|r: BlockRange| is_first_gap(s, point, max_len, r.lo as int, r.hi as int) {
        Some(choose|r: BlockRange| is_first_gap(s, point, max_len, r.lo as int, r.hi as int))
    } else {
        None
    }
}

/// The lowest stretch of points at or after `point` that `s` holds, cut to
/// `max_len` points; `None` where there is no such point.
pub open spec fn first_run(s: Set<int>, point: int, max_len: int) -> Option<BlockRange> {
    if exists|r: BlockRange| is_first_run(s, point, max_len, r.lo as int, r.hi as int) {
        Some(choose|r: BlockRange| is_first_run(s, point, max_len, r.lo as int, r.hi as int))
    } else {
        None
    }
}

/// At most one range is the first gap.
pub proof fn lemma_first_gap_is_unique(
    s: Set<int>,
    point: int,
    max_len: int,
    p: BlockRange,
    q: BlockRange,
)
    requires
        is_first_gap(s, point, max_len, p.lo as int, p.hi as int),
        is_first_gap(s, point, max_len, q.lo as int, q.hi as int),
    ensures
        p == q,
{
    if p.lo < q.lo {
        assert(s.contains(p.lo as int));
    }
    if q.lo < p.lo {
        assert(s.contains(q.lo as int));
    }
    if p.hi < q.hi {
        assert(!s.contains(p.hi + 1));
    }
    if q.hi < p.hi {
        assert(!s.contains(q.hi + 1));
    }
}

/// At most one range is the first held stretch.
pub proof fn lemma_first_run_is_unique(
    s: Set<int>,
    point: int,
    max_len: int,
    p: BlockRange,
    q: BlockRange,
)
    requires
        is_first_run(s, point, max_len, p.lo as int, p.hi as int),
        is_first_run(s, point, max_len, q.lo as int, q.hi as int),
    ensures
        p == q,
{
    if p.lo < q.lo {
        assert(s.contains(p.lo as int));
    }
    if q.lo < p.lo {
        assert(s.contains(q.lo as int));
    }
    if p.hi < q.hi {
        assert(s.contains(p.hi + 1));
    }
    if q.hi < p.hi {
        assert(s.contains(q.hi + 1));
    }
}

/// A range that is the first gap is what `first_gap` gives.
pub proof fn lemma_first_gap_found(s: Set<int>, point: int, max_len: int, g: BlockRange)
    requires
        is_first_gap(s, point, max_len, g.lo as int, g.hi as int),
    ensures
        first_gap(s, point, max_len) == Some(g),
{
    let c = choose|r: BlockRange| is_first_gap(s, point, max_len, r.lo as int, r.hi as int);
    lemma_first_gap_is_unique(s, point, max_len, c, g);
}

/// Where no point is left out, or none may be taken, `first_gap` gives none.
pub proof fn lemma_first_gap_none(s: Set<int>, point: int, max_len: int)
    requires
        max_len <= 0 || forall|x: int| point <= x <= u64::MAX ==> s.contains(x),
    ensures
        first_gap(s, point, max_len) is None,
{
    assert forall|r: BlockRange| !is_first_gap(s, point, max_len, r.lo as int, r.hi as int) by {
        if is_first_gap(s, point, max_len, r.lo as int, r.hi as int) {
            assert(!s.contains(r.lo as int));
        }
    }
}

/// A range that is the first held stretch is what `first_run` gives.
pub proof fn lemma_first_run_found(s: Set<int>, point: int, max_len: int, g: BlockRange)
    requires
        is_first_run(s, point, max_len, g.lo as int, g.hi as int),
    ensures
        first_run(s, point, max_len) == Some(g),
{
    let c = choose|r: BlockRange| is_first_run(s, point, max_len, r.lo as int, r.hi as int);
    lemma_first_run_is_unique(s, point, max_len, c, g);
}

/// Where no point is held, or none may be taken, `first_run` gives none.
pub proof fn lemma_first_run_none(s: Set<int>, point: int, max_len: int)
    requires
        max_len <= 0 || forall|x: int| point <= x <= u64::MAX ==> !s.contains(x),
    ensures
        first_run(s, point, max_len) is None,
{
    assert forall|r: BlockRange| !is_first_run(s, point, max_len, r.lo as int, r.hi as int) by {
        if is_first_run(s, point, max_len, r.lo as int, r.hi as int) {
            assert(s.contains(r.lo as int));
        }
    }
}

/// The lowest point of `[from, x]` that `s` holds, given that it holds `x`.
pub open spec fn lowest_held(s: Set<int>, from: int, x: int) -> int
    decreases x - from,
{
    if from >= x || s.contains(from) {
        from
    } else {
        lowest_held(s, from + 1, x)
    }
}

/// The end of the stretch that `s` holds from `lo` up, cut to `left` more
/// points and to the top of the numbers.
pub open spec fn run_end(s: Set<int>, lo: int, left: int) -> int
    decreases left,
{
    if left <= 0 || lo >= u64::MAX || !s.contains(lo + 1) {
        lo
    } else {
        run_end(s, lo + 1, left - 1)
    }
}

proof fn lemma_lowest_held(s: Set<int>, from: int, x: int)
    requires
        from <= x,
        s.contains(x),
    ensures
        from <= lowest_held(s, from, x) <= x,
        s.contains(lowest_held(s, from, x)),
        forall|y: int| from <= y < lowest_held(s, from, x) ==> !s.contains(y),
    decreases x - from,
{
    if from < x && !s.contains(from) {
        lemma_lowest_held(s, from + 1, x);
    }
}

proof fn lemma_run_end(s: Set<int>, lo: int, left: int)
    requires
        s.contains(lo),
        0 <= left,
        0 <= lo <= u64::MAX,
    ensures
        lo <= run_end(s, lo, left) <= u64::MAX,
        run_end(s, lo, left) - lo <= left,
        forall|y: int| lo <= y <= run_end(s, lo, left) ==> s.contains(y),
        run_end(s, lo, left) - lo == left || run_end(s, lo, left) == u64::MAX || !s.contains(
            run_end(s, lo, left) + 1,
        ),
    decreases left,
{
    if left > 0 && lo < u64::MAX && s.contains(lo + 1) {
        lemma_run_end(s, lo + 1, left - 1);
    }
}

/// Where `first_run` gives none although points may be taken, the set holds
/// no point from `point` up.
pub proof fn lemma_no_run_means_nothing_held(s: Set<int>, point: int, max_len: int, x: int)
    requires
        first_run(s, point, max_len) is None,
        max_len > 0,
        0 <= point <= x <= u64::MAX,
    ensures
        !s.contains(x),
{
    if s.contains(x) {
        lemma_lowest_held(s, point, x);
        let lo = lowest_held(s, point, x);
        lemma_run_end(s, lo, max_len - 1);
        let hi = run_end(s, lo, max_len - 1);
        let r = BlockRange { lo: lo as u64, hi: hi as u64 };
        assert(is_first_run(s, point, max_len, r.lo as int, r.hi as int));
    }
}

/// Where `first_gap` gives none although points may be taken, the set holds
/// every point from `point` up.
pub proof fn lemma_no_gap_means_all_held(s: Set<int>, point: int, max_len: int, x: int)
    requires
        first_gap(s, point, max_len) is None,
        max_len > 0,
        0 <= point <= x <= u64::MAX,
    ensures
        s.contains(x),
{
    let c = Set::new(|y: int| !s.contains(y));
    if !s.contains(x) {
        lemma_lowest_held(c, point, x);
        let lo = lowest_held(c, point, x);
        lemma_run_end(c, lo, max_len - 1);
        let hi = run_end(c, lo, max_len - 1);
        let r = BlockRange { lo: lo as u64, hi: hi as u64 };
        assert forall|y: int| point <= y < lo implies s.contains(y) by {
            assert(!c.contains(y));
        }
        assert forall|y: int| lo <= y <= hi implies !s.contains(y) by {
            assert(c.contains(y));
        }
        if hi - lo + 1 != max_len && hi != u64::MAX {
            assert(!c.contains(hi + 1));
        }
        assert(is_first_gap(s, point, max_len, r.lo as int, r.hi as int));
    }
}

/// One change to an interval set.
#[derive(Clone, Copy, Debug, PartialEq, Eq, Structural)]
pub enum RangeOp {
    /// Add the points of the range.
    Insert(BlockRange),
    /// Take the points of the range out.
    Remove(BlockRange),
}

impl RangeOp {
    /// The range that the change speaks of.
    pub open spec fn range(self) -> BlockRange {
        match self {
            RangeOp::Insert(r) => r,
            RangeOp::Remove(r) => r,
        }
    }

    /// Whether the change touches the point `x`.
    pub open spec fn touches(self, x: int) -> bool {
        self.range().lo <= x <= self.range().hi
    }

    /// The set after the change is made to `s`.
    pub open spec fn apply_to(self, s: Set<int>) -> Set<int> {
        match self {
            RangeOp::Insert(r) => s.union(range_set(r.lo as int, r.hi as int)),
            RangeOp::Remove(r) => s.difference(range_set(r.lo as int, r.hi as int)),
        }
    }
}

/// The set after the changes `ops` are made to `start`, first to last.
pub open spec fn replay(start: Set<int>, ops: Seq<RangeOp>) -> Set<int>
    decreases ops.len(),
{
    if ops.len() == 0 {
        start
    } else {
        ops.last().apply_to(replay(start, ops.drop_last()))
    }
}

/// Whether `x` is held after the changes `ops`, told from the changes alone:
/// the last change that touches `x` decides, and if none does, `x` is held
/// exactly when it was at the start.
pub open spec fn held_after(held_at_start: bool, ops: Seq<RangeOp>, x: int) -> bool
    decreases ops.len(),
{
    if ops.len() == 0 {
        held_at_start
    } else if ops.last().touches(x) {
        ops.last() is Insert
    } else {
        held_after(held_at_start, ops.drop_last(), x)
    }
}

/// Replaying any sequence of inserts and removes leaves a point in the set
/// exactly when the last change that touches it is an insert, or when no
/// change touches it and it was in the set before.
pub proof fn lemma_replay_membership(start: Set<int>, ops: Seq<RangeOp>, x: int)
    ensures
        replay(start, ops).contains(x) == held_after(start.contains(x), ops, x),
    decreases ops.len(),
{
    if ops.len() > 0 {
        lemma_replay_membership(start, ops.drop_last(), x);
    }
}

/// Inserting a range and then removing the same range leaves every point
/// outside the range as it was, and no point of the range in the set.
pub proof fn lemma_insert_then_remove(s: Set<int>, lo: int, hi: int, x: int)
    ensures
        !(lo <= x <= hi) ==> s.union(range_set(lo, hi)).difference(range_set(lo, hi)).contains(x)
            == s.contains(x),
        lo <= x <= hi ==> !s.union(range_set(lo, hi)).difference(range_set(lo, hi)).contains(x),
{
}

/// Removing a range and then inserting the same range leaves every point
/// outside the range as it was, and every point of the range in the set.
pub proof fn lemma_remove_then_insert(s: Set<int>, lo: int, hi: int, x: int)
    ensures
        !(lo <= x <= hi) ==> s.difference(range_set(lo, hi)).union(range_set(lo, hi)).contains(x)
            == s.contains(x),
        lo <= x <= hi ==> s.difference(range_set(lo, hi)).union(range_set(lo, hi)).contains(x),
{
}

/// When the set already held the whole range, removing it and inserting it
/// again gives the same set back.
pub proof fn lemma_remove_then_insert_restores(s: Set<int>, lo: int, hi: int)
    requires
        range_set(lo, hi).subset_of(s),
    ensures
        s.difference(range_set(lo, hi)).union(range_set(lo, hi)) == s,
{
    assert(s.difference(range_set(lo, hi)).union(range_set(lo, hi)) =~= s);
}

/// Replacing the ranges `a..b` of `prev` by their hull with `[lo, hi]` adds
/// exactly the points of `[lo, hi]` and keeps the stored form.
proof fn lemma_merge(
    prev: Seq<BlockRange>,
    a: int,
    b: int,
    lo: int,
    hi: int,
    merged: BlockRange,
    out: Seq<BlockRange>,
)
    requires
        canonical(prev),
        0 <= a <= b <= prev.len(),
        lo <= hi,
        forall|k: int| 0 <= k < a ==> (#[trigger] prev[k]).hi + 1 < lo,
        forall|k: int| a <= k < b ==> (#[trigger] prev[k]).hi + 1 >= lo && prev[k].lo <= hi + 1,
        forall|k: int| b <= k < prev.len() ==> hi + 1 < (#[trigger] prev[k]).lo,
        merged.lo == (if a < b && prev[a].lo < lo { prev[a].lo as int } else { lo }),
        merged.hi == (if a < b && prev[b - 1].hi > hi { prev[b - 1].hi as int } else { hi }),
        out == prev.subrange(0, a).push(merged) + prev.subrange(b, prev.len() as int),
    ensures
        canonical(out),
        points_of(out) == points_of(prev).union(range_set(lo, hi)),
{
    let tail = prev.len() - b;
    assert(out.len() == a + 1 + tail);
    assert(forall|j: int| 0 <= j < a ==> out[j] == prev[j]);
    assert(out[a] == merged);
    assert(forall|j: int| a < j < out.len() ==> out[j] == prev[j - a - 1 + b]);
    assert(forall|k: int| a <= k < b ==> merged.lo <= (#[trigger] prev[k]).lo && prev[k].hi <= merged.hi) by {
        assert forall|k: int| a <= k < b implies merged.lo <= (#[trigger] prev[k]).lo && prev[k].hi
            <= merged.hi by {
            if a < k {
                assert(prev[a].hi + 1 < prev[k].lo);
            }
            if k < b - 1 {
                assert(prev[k].hi + 1 < prev[b - 1].lo);
            }
        }
    }
    assert(canonical(out)) by {
        assert forall|i: int, j: int| 0 <= i < j < out.len() implies (#[trigger] out[i]).hi + 1 < (
        #[trigger] out[j]).lo by {
            if j < a {
            } else if j == a {
                if a < b {
                    assert(prev[i].hi + 1 < prev[a].lo);
                }
            } else if i == a {
                let kj = j - a - 1 + b;
                if a < b {
                    assert(prev[b - 1].hi + 1 < prev[kj].lo);
                }
            } else if i < a {
                let kj = j - a - 1 + b;
                assert(prev[i].hi + 1 < prev[kj].lo);
            } else {
                let ki = i - a - 1 + b;
                let kj = j - a - 1 + b;
                assert(prev[ki].hi + 1 < prev[kj].lo);
            }
        }
    }
    assert forall|x: int| covers(out, x) <==> (covers(prev, x) || lo <= x <= hi) by {
        if covers(out, x) {
            let j = choose|j: int| 0 <= j < out.len() && (#[trigger] out[j]).lo <= x <= out[j].hi;
            if j < a {
                assert(prev[j].lo <= x <= prev[j].hi);
            } else if j == a {
                if x < lo {
                    assert(prev[a].lo <= x <= prev[a].hi);
                } else if x > hi {
                    assert(prev[b - 1].lo <= x <= prev[b - 1].hi);
                }
            } else {
                let k = j - a - 1 + b;
                assert(prev[k].lo <= x <= prev[k].hi);
            }
        }
        if lo <= x <= hi {
            assert(out[a].lo <= x <= out[a].hi);
        }
        if covers(prev, x) {
            let k = choose|k: int| 0 <= k < prev.len() && (#[trigger] prev[k]).lo <= x <= prev[k].hi;
            if k < a {
                assert(out[k].lo <= x <= out[k].hi);
            } else if k < b {
                assert(out[a].lo <= x <= out[a].hi);
            } else {
                let j = k - b + a + 1;
                assert(out[j].lo <= x <= out[j].hi);
            }
        }
    }
    assert(points_of(out) =~= points_of(prev).union(range_set(lo, hi)));
}

/// A set of block numbers.
pub struct IntervalSet {
    ranges: Vec<BlockRange>,
}

impl View for IntervalSet {
    type V = Set<int>;

    closed spec fn view(&self) -> Set<int> {
        points_of(self.ranges@)
    }
}

impl IntervalSet {
    #[verifier::type_invariant]
    spec fn stored_canonical(&self) -> bool {
        canonical(self.ranges@)
    }

    /// The empty set.
    pub fn new() -> (s: IntervalSet)
        ensures
            s@ == Set::<int>::empty(),
    {
        let s = IntervalSet { ranges: Vec::new() };
        assert(s@ =~= Set::<int>::empty());
        s
    }

    /// Whether the set holds no point.
    pub fn is_empty(&self) -> (b: bool)
        ensures
            b == (self@ == Set::<int>::empty()),
    {
        proof {
            use_type_invariant(self);
            if self.ranges.len() > 0 {
                let r = self.ranges@[0];
                assert(covers(self.ranges@, r.lo as int));
                assert(self@.contains(r.lo as int));
            } else {
                assert(self@ =~= Set::<int>::empty());
            }
        }
        self.ranges.len() == 0
    }

    /// The ranges that make up the set, lowest first.
    pub fn ranges(&self) -> (v: Vec<BlockRange>)
        ensures
            canonical(v@),
            points_of(v@) == self@,
    {
        proof {
            use_type_invariant(self);
        }
        let mut v: Vec<BlockRange> = Vec::new();
        let mut i: usize = 0;
        while i < self.ranges.len()
            invariant
                i <= self.ranges.len(),
                v@ == self.ranges@.subrange(0, i as int),
            decreases self.ranges.len() - i,
        {
            v.push(self.ranges[i]);
            i += 1;
            assert(v@ =~= self.ranges@.subrange(0, i as int));
        }
        assert(v@ =~= self.ranges@);
        v
    }

    /// The index of the first range that ends at or after `x`; the number of
    /// ranges if there is none.
    fn lower_bound(&self, x: u64) -> (i: usize)
        ensures
            i <= self.ranges.len(),
            forall|k: int| 0 <= k < i ==> (#[trigger] self.ranges@[k]).hi < x,
            forall|k: int| i <= k < self.ranges.len() ==> (#[trigger] self.ranges@[k]).hi >= x,
    {
        proof {
            use_type_invariant(self);
        }
        let mut left: usize = 0;
        let mut right: usize = self.ranges.len();
        while left < right
            invariant
                left <= right <= self.ranges.len(),
                canonical(self.ranges@),
                forall|k: int| 0 <= k < left ==> (#[trigger] self.ranges@[k]).hi < x,
                forall|k: int| right <= k < self.ranges.len() ==> (#[trigger] self.ranges@[k]).hi >= x,
            decreases right - left,
        {
            let mid: usize = left + (right - left) / 2;
            if self.ranges[mid].hi < x {
                left = mid + 1;
            } else {
                right = mid;
            }
        }
        left
    }

    /// Whether the set holds `x`.
    pub fn contains(&self, x: u64) -> (b: bool)
        ensures
            b == self@.contains(x as int),
    {
        proof {
            use_type_invariant(self);
        }
        let i = self.lower_bound(x);
        let b = i < self.ranges.len() && self.ranges[i].lo <= x;
        proof {
            if b {
                assert(self.ranges@[i as int].lo <= x <= self.ranges@[i as int].hi);
            } else if covers(self.ranges@, x as int) {
                let k = choose|k: int|
                    0 <= k < self.ranges@.len() && (#[trigger] self.ranges@[k]).lo <= x
                        <= self.ranges@[k].hi;
                assert(k >= i);
                if k > i {
                    assert(self.ranges@[i as int].hi + 1 < self.ranges@[k].lo);
                }
            }
        }
        b
    }

    /// Adds every point of `[lo, hi]` to the set. Ranges that the new one
    /// overlaps or touches are merged with it. An empty range adds nothing.
    pub fn insert(&mut self, lo: u64, hi: u64)
        ensures
            final(self)@ == old(self)@.union(range_set(lo as int, hi as int)),
    {
        proof {
            use_type_invariant(&*self);
        }
        if lo > hi {
            assert(self@.union(range_set(lo as int, hi as int)) =~= self@);
            return ;
        }
        let n = self.ranges.len();
        let mut out: Vec<BlockRange> = Vec::new();
        let mut i: usize = 0;
        while i < n && self.ranges[i].hi < lo && lo - self.ranges[i].hi > 1
            invariant
                n == self.ranges.len(),
                i <= n,
                out@ == self.ranges@.subrange(0, i as int),
                forall|k: int| 0 <= k < i ==> (#[trigger] self.ranges@[k]).hi + 1 < lo,
            decreases n - i,
        {
            out.push(self.ranges[i]);
            i += 1;
            assert(out@ =~= self.ranges@.subrange(0, i as int));
        }
        let a = i;
        let mut merged = BlockRange { lo, hi };
        while i < n && (hi == u64::MAX || self.ranges[i].lo <= hi + 1)
            invariant
                n == self.ranges.len(),
                a <= i <= n,
                canonical(self.ranges@),
                lo <= hi,
                a < n ==> self.ranges@[a as int].hi + 1 >= lo,
                forall|k: int|
                    a <= k < i ==> (#[trigger] self.ranges@[k]).hi + 1 >= lo && self.ranges@[k].lo
                        <= hi + 1,
                merged.lo == (if a < i && self.ranges@[a as int].lo < lo {
                    self.ranges@[a as int].lo
                } else {
                    lo
                }),
                merged.hi == (if a < i && self.ranges@[i - 1].hi > hi {
                    self.ranges@[i - 1].hi
                } else {
                    hi
                }),
            decreases n - i,
        {
            let r = self.ranges[i];
            proof {
                if a < i {
                    assert(self.ranges@[a as int].hi + 1 < self.ranges@[i as int].lo);
                    assert(self.ranges@[i - 1].hi + 1 < self.ranges@[i as int].lo);
                }
            }
            if r.lo < merged.lo {
                merged.lo = r.lo;
            }
            if r.hi > merged.hi {
                merged.hi = r.hi;
            }
            i += 1;
        }
        let b = i;
        out.push(merged);
        while i < n
            invariant
                n == self.ranges.len(),
                b <= i <= n,
                out@ == self.ranges@.subrange(0, a as int).push(merged) + self.ranges@.subrange(
                    b as int,
                    i as int,
                ),
            decreases n - i,
        {
            out.push(self.ranges[i]);
            i += 1;
            assert(out@ =~= self.ranges@.subrange(0, a as int).push(merged)
                + self.ranges@.subrange(b as int, i as int));
        }
        proof {
            assert forall|k: int| b <= k < n implies hi + 1 < (#[trigger] self.ranges@[k]).lo by {
                if k > b {
                    assert(self.ranges@[b as int].hi + 1 < self.ranges@[k].lo);
                }
            }
            lemma_merge(self.ranges@, a as int, b as int, lo as int, hi as int, merged, out@);
        }
        self.ranges = out;
    }

    /// Takes every point of `[lo, hi]` out of the set. A stored range that
    /// reaches past both ends of `[lo, hi]` is split in two. An empty range
    /// takes nothing out.
    pub fn remove(&mut self, lo: u64, hi: u64)
        ensures
            final(self)@ == old(self)@.difference(range_set(lo as int, hi as int)),
    {
        proof {
            use_type_invariant(&*self);
        }
        if lo > hi {
            assert(self@.difference(range_set(lo as int, hi as int)) =~= self@);
            return ;
        }
        let n = self.ranges.len();
        let mut out: Vec<BlockRange> = Vec::new();
        let mut i: usize = 0;
        while i < n
            invariant
                n == self.ranges.len(),
                i <= n,
                lo <= hi,
                canonical(self.ranges@),
                canonical(out@),
                forall|j: int|
                    0 <= j < out.len() ==> i > 0 && (#[trigger] out@[j]).hi <= self.ranges@[i - 1].hi,
                forall|x: int|
                    covers(out@, x) <==> covers_upto(self.ranges@, i as int, x) && !(lo <= x <= hi),
            decreases n - i,
        {
            let r = self.ranges[i];
            let ghost before = out@;
            proof {
                if i > 0 {
                    assert(self.ranges@[i - 1].hi + 1 < self.ranges@[i as int].lo);
                }
            }
            if r.hi < lo || r.lo > hi {
                out.push(r);
            } else {
                if r.lo < lo {
                    out.push(BlockRange { lo: r.lo, hi: lo - 1 });
                }
                if r.hi > hi {
                    out.push(BlockRange { lo: hi + 1, hi: r.hi });
                }
            }
            proof {
                let after = out@;
                assert(forall|j: int| 0 <= j < before.len() ==> after[j] == before[j]);
                assert forall|x: int|
                    covers(after, x) <==> covers_upto(self.ranges@, i + 1, x) && !(lo <= x
                        <= hi) by {
                    if covers(after, x) {
                        let j = choose|j: int|
                            0 <= j < after.len() && (#[trigger] after[j]).lo <= x <= after[j].hi;
                        if j < before.len() {
                            assert(before[j].lo <= x <= before[j].hi);
                            assert(covers(before, x));
                            let k = choose|k: int|
                                0 <= k < i && k < self.ranges@.len() && (
                                #[trigger] self.ranges@[k]).lo <= x <= self.ranges@[k].hi;
                            assert(self.ranges@[k].lo <= x <= self.ranges@[k].hi);
                        } else {
                            assert(self.ranges@[i as int].lo <= x <= self.ranges@[i as int].hi);
                        }
                    }
                    if covers_upto(self.ranges@, i + 1, x) && !(lo <= x <= hi) {
                        let k = choose|k: int|
                            0 <= k < i + 1 && k < self.ranges@.len() && (
                            #[trigger] self.ranges@[k]).lo <= x <= self.ranges@[k].hi;
                        if k < i {
                            assert(covers_upto(self.ranges@, i as int, x));
                            assert(covers(before, x));
                            let j = choose|j: int|
                                0 <= j < before.len() && (#[trigger] before[j]).lo <= x
                                    <= before[j].hi;
                            assert(after[j].lo <= x <= after[j].hi);
                        } else {
                            if x < lo {
                                let j = before.len() as int;
                                assert(after[j].lo <= x <= after[j].hi);
                            } else {
                                let j = after.len() - 1;
                                assert(after[j].lo <= x <= after[j].hi);
                            }
                        }
                    }
                }
            }
            i += 1;
        }
        proof {
            assert(points_of(out@) =~= points_of(self.ranges@).difference(
                range_set(lo as int, hi as int),
            ));
        }
        self.ranges = out;
    }

    /// Empties the set.
    pub fn clear(&mut self)
        ensures
            final(self)@ == Set::<int>::empty(),
    {
        self.ranges = Vec::new();
        assert(self@ =~= Set::<int>::empty());
    }

    /// Whether the set holds every point of `[lo, hi]`. An empty range is
    /// always held.
    pub fn contains_range(&self, lo: u64, hi: u64) -> (b: bool)
        ensures
            b == range_set(lo as int, hi as int).subset_of(self@),
    {
        proof {
            use_type_invariant(self);
        }
        if lo > hi {
            return true;
        }
        let i = self.lower_bound(lo);
        let b = i < self.ranges.len() && self.ranges[i].lo <= lo && hi <= self.ranges[i].hi;
        proof {
            let spans = self.ranges@;
            if b {
                assert forall|x: int| range_set(lo as int, hi as int).contains(x) implies self@.contains(
                    x,
                ) by {
                    assert(spans[i as int].lo <= x <= spans[i as int].hi);
                }
            } else if range_set(lo as int, hi as int).subset_of(self@) {
                assert(range_set(lo as int, hi as int).contains(lo as int));
                assert(covers(spans, lo as int));
                let k = choose|k: int|
                    0 <= k < spans.len() && (#[trigger] spans[k]).lo <= lo <= spans[k].hi;
                assert(k >= i);
                if k > i {
                    assert(spans[i as int].hi + 1 < spans[k].lo);
                }
                assert(k == i);
                let y = spans[i as int].hi + 1;
                assert(range_set(lo as int, hi as int).contains(y));
                assert(covers(spans, y));
                let m = choose|m: int|
                    0 <= m < spans.len() && (#[trigger] spans[m]).lo <= y <= spans[m].hi;
                if m < i {
                    assert(spans[m].hi + 1 < spans[i as int].lo);
                } else if m > i {
                    assert(spans[i as int].hi + 1 < spans[m].lo);
                }
            }
        }
        b
    }

    /// The lowest stretch of points at or after `point` that the set does not
    /// hold, cut to at most `max_len` points. `None` when `max_len` is zero or
    /// the set holds every point from `point` up to `u64::MAX`.
    pub fn first_gap_after(&self, point: u64, max_len: u64) -> (gap: Option<BlockRange>)
        ensures
            gap == first_gap(self@, point as int, max_len as int),
            match gap {
                Some(g) => is_first_gap(
                    self@,
                    point as int,
                    max_len as int,
                    g.lo as int,
                    g.hi as int,
                ),
                None => max_len == 0 || forall|x: int|
                    point <= x <= u64::MAX ==> self@.contains(x),
            },
    {
        proof {
            use_type_invariant(self);
        }
        if max_len == 0 {
            proof {
                lemma_first_gap_none(self@, point as int, max_len as int);
            }
            return None;
        }
        let n = self.ranges.len();
        let i = self.lower_bound(point);
        let ghost spans = self.ranges@;
        let lo: u64;
        let limit: u64;
        let next: usize;
        if i < n && self.ranges[i].lo <= point {
            if self.ranges[i].hi == u64::MAX {
                proof {
                    assert forall|x: int| point <= x <= u64::MAX implies self@.contains(x) by {
                        assert(spans[i as int].lo <= x <= spans[i as int].hi);
                    }
                    lemma_first_gap_none(self@, point as int, max_len as int);
                }
                return None;
            }
            lo = self.ranges[i].hi + 1;
            next = i + 1;
            proof {
                assert forall|x: int| point <= x < lo implies self@.contains(x) by {
                    assert(spans[i as int].lo <= x <= spans[i as int].hi);
                }
            }
        } else {
            lo = point;
            next = i;
        }
        if next < n {
            proof {
                if next > i {
                    assert(spans[i as int].hi + 1 < spans[next as int].lo);
                }
            }
            limit = self.ranges[next].lo - 1;
        } else {
            limit = u64::MAX;
        }
        let hi: u64 = if limit - lo >= max_len - 1 {
            lo + (max_len - 1)
        } else {
            limit
        };
        proof {
            assert forall|x: int| lo <= x <= hi implies !self@.contains(x) by {
                if covers(spans, x) {
                    let k = choose|k: int|
                        0 <= k < spans.len() && (#[trigger] spans[k]).lo <= x <= spans[k].hi;
                    if k < next {
                        if k < i {
                        } else {
                            assert(k == i);
                        }
                    } else if k > next {
                        assert(spans[next as int].hi + 1 < spans[k].lo);
                    }
                }
            }
            if hi - lo + 1 != max_len && hi != u64::MAX {
                assert(next < n);
                assert(spans[next as int].lo <= hi + 1 <= spans[next as int].hi);
                assert(covers(spans, hi + 1));
            }
            lemma_first_gap_found(self@, point as int, max_len as int, BlockRange { lo, hi });
        }
        Some(BlockRange { lo, hi })
    }

    /// Makes one change to the set.
    pub fn apply(&mut self, op: RangeOp)
        ensures
            final(self)@ == op.apply_to(old(self)@),
    {
        match op {
            RangeOp::Insert(r) => self.insert(r.lo, r.hi),
            RangeOp::Remove(r) => self.remove(r.lo, r.hi),
        }
    }

    /// Makes the changes `ops` to the set, first to last.
    pub fn apply_all(&mut self, ops: &Vec<RangeOp>)
        ensures
            final(self)@ == replay(old(self)@, ops@),
    {
        let mut i: usize = 0;
        while i < ops.len()
            invariant
                i <= ops.len(),
                self@ == replay(old(self)@, ops@.subrange(0, i as int)),
            decreases ops.len() - i,
        {
            self.apply(ops[i]);
            proof {
                let done = ops@.subrange(0, i + 1);
                assert(done.drop_last() =~= ops@.subrange(0, i as int));
                assert(done.last() == ops@[i as int]);
            }
            i += 1;
        }
        assert(ops@.subrange(0, i as int) =~= ops@);
    }

    /// The lowest stretch of points at or after `point` that the set holds,
    /// cut to at most `max_len` points. `None` when `max_len` is zero or the
    /// set holds no point from `point` up.
    pub fn first_covered_after(&self, point: u64, max_len: u64) -> (run: Option<BlockRange>)
        ensures
            run == first_run(self@, point as int, max_len as int),
            match run {
                Some(g) => is_first_run(
                    self@,
                    point as int,
                    max_len as int,
                    g.lo as int,
                    g.hi as int,
                ),
                None => max_len == 0 || forall|x: int|
                    point <= x <= u64::MAX ==> !self@.contains(x),
            },
    {
        proof {
            use_type_invariant(self);
        }
        if max_len == 0 {
            proof {
                lemma_first_run_none(self@, point as int, max_len as int);
            }
            return None;
        }
        let n = self.ranges.len();
        let i = self.lower_bound(point);
        let ghost spans = self.ranges@;
        if i >= n {
            proof {
                assert forall|x: int| point <= x <= u64::MAX implies !self@.contains(x) by {
                    if covers(spans, x) {
                        let k = choose|k: int|
                            0 <= k < spans.len() && (#[trigger] spans[k]).lo <= x <= spans[k].hi;
                    }
                }
                lemma_first_run_none(self@, point as int, max_len as int);
            }
            return None;
        }
        let r = self.ranges[i];
        let lo: u64 = if r.lo > point {
            r.lo
        } else {
            point
        };
        let hi: u64 = if r.hi - lo >= max_len - 1 {
            lo + (max_len - 1)
        } else {
            r.hi
        };
        proof {
            assert forall|x: int| point <= x < lo implies !self@.contains(x) by {
                if covers(spans, x) {
                    let k = choose|k: int|
                        0 <= k < spans.len() && (#[trigger] spans[k]).lo <= x <= spans[k].hi;
                    if k > i {
                        assert(spans[i as int].hi + 1 < spans[k].lo);
                    }
                }
            }
            assert forall|x: int| lo <= x <= hi implies self@.contains(x) by {
                assert(spans[i as int].lo <= x <= spans[i as int].hi);
            }
            if hi - lo + 1 != max_len && hi != u64::MAX {
                let y = hi + 1;
                if covers(spans, y) {
                    let k = choose|k: int|
                        0 <= k < spans.len() && (#[trigger] spans[k]).lo <= y <= spans[k].hi;
                    if k < i {
                        assert(spans[k].hi + 1 < spans[i as int].lo);
                    } else if k > i {
                        assert(spans[i as int].hi + 1 < spans[k].lo);
                    }
                }
            }
            lemma_first_run_found(self@, point as int, max_len as int, BlockRange { lo, hi });
        }
        Some(BlockRange { lo, hi })
    }

    /// Every point of the set is a `u64`.
    pub proof fn lemma_points_are_u64(&self, x: int)
        requires
            self@.contains(x),
        ensures
            0 <= x <= u64::MAX,
    {
        let k = choose|k: int|
            0 <= k < self.ranges@.len() && (#[trigger] self.ranges@[k]).lo <= x
                <= self.ranges@[k].hi;
    }
}

} // verus!
