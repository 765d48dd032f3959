//! The download schedule: which block numbers have their header, which are
//! being asked for, which headers still want a body, and where the import
//! stands.
//!
//! The schedule is described by its model, [`ScheduleModel`], and every
//! operation by the function on models that it computes.

use std::collections::HashMap;
use vstd::prelude::*;
use crate::io::Action;
use crate::range_collection::{
    first_run,
    range_set,
    BlockRange,
    IntervalSet,
};
use crate::types::{BlockBody, BlockHeader, BlockReceipts, HeaderReport, PeerId, H256};

verus! {

broadcast use vstd::std_specs::hash::group_hash_axioms;

/// A header that waits for its body or its receipts, or a block that waits
/// for its turn to be imported.
#[derive(Clone, Copy, Debug, PartialEq, Eq, Structural)]
pub struct QueuedBlock {
    pub header: BlockHeader,
    /// Whether the body has come.
    pub body_ready: bool,
    /// Whether the receipts have come, or are not asked for at all.
    pub receipts_ready: bool,
    pub header_from: PeerId,
    pub body_from: PeerId,
    pub receipts_from: PeerId,
}

/// What the schedule holds.
#[verifier::ext_equal]
pub struct ScheduleModel {
    /// Numbers whose header has been obtained in this download.
    pub imported: Set<int>,
    /// Numbers whose header some peer is being asked for.
    pub requested: Set<int>,
    /// Numbers of queued headers whose body is neither there nor asked for.
    pub wanted: Set<int>,
    /// Numbers of queued blocks whose body is there and whose receipts are
    /// neither there nor asked for.
    pub receipts_wanted: Set<int>,
    /// The queued blocks by number.
    pub blocks: Map<u64, QueuedBlock>,
    /// The number of the next block to hand over for import.
    pub next_import: u64,
    /// Whether receipts are downloaded too: the fast variant.
    pub fast: bool,
}

/// Whether `[lo, hi]` is the lowest stretch within `[start, limit]` that `s`
/// does not hold, cut to `max_len` points.
pub open spec fn is_free_range(
    s: Set<int>,
    start: int,
    max_len: int,
    limit: int,
    lo: int,
    hi: int,
) -> bool {
    &&& start <= lo <= hi <= limit
    &&& hi - lo < max_len
    &&& forall|x: int| start <= x < lo ==> s.contains(x)
    &&& forall|x: int| lo <= x <= hi ==> !s.contains(x)
    &&& (hi - lo + 1 == max_len || hi == limit || s.contains(hi + 1))
}

/// The lowest stretch within `[start, limit]` that `s` does not hold, cut to
/// `max_len` points; `None` where `s` holds all of `[start, limit]`.
pub open spec fn free_range(s: Set<int>, start: int, max_len: int, limit: int) -> Option<
    BlockRange,
> {
    if exists|r: BlockRange| is_free_range(s, start, max_len, limit, r.lo as int, r.hi as int) {
        Some(
            choose|r: BlockRange| is_free_range(s, start, max_len, limit, r.lo as int, r.hi as int),
        )
    } else {
        None
    }
}

/// At most one range is the free range.
pub proof fn lemma_free_range_is_unique(
    s: Set<int>,
    start: int,
    max_len: int,
    limit: int,
    p: BlockRange,
    q: BlockRange,
)
    requires
        is_free_range(s, start, max_len, limit, p.lo as int, p.hi as int),
        is_free_range(s, start, max_len, limit, q.lo as int, q.hi as int),
    ensures
        p == q,
{
    if p.lo < q.lo {
        assert(s.contains(p.lo as int));
    }
    if q.lo < p.lo {
        assert(s.contains(q.lo as int));
    }
    if p.hi < q.hi {
        assert(!s.contains(p.hi + 1));
    }
    if q.hi < p.hi {
        assert(!s.contains(q.hi + 1));
    }
}

proof fn lemma_free_range_found(s: Set<int>, start: int, max_len: int, limit: int, g: BlockRange)
    requires
        is_free_range(s, start, max_len, limit, g.lo as int, g.hi as int),
    ensures
        free_range(s, start, max_len, limit) == Some(g),
{
    let c = choose|r: BlockRange|
        is_free_range(s, start, max_len, limit, r.lo as int, r.hi as int);
    lemma_free_range_is_unique(s, start, max_len, limit, c, g);
}

proof fn lemma_free_range_none(s: Set<int>, start: int, max_len: int, limit: int)
    requires
        max_len <= 0 || forall|x: int| start <= x <= limit ==> s.contains(x),
    ensures
        free_range(s, start, max_len, limit) is None,
{
    assert forall|r: BlockRange|
        !is_free_range(s, start, max_len, limit, r.lo as int, r.hi as int) by {
        if is_free_range(s, start, max_len, limit, r.lo as int, r.hi as int) {
            assert(!s.contains(r.lo as int));
        }
    }
}

/// The end of the stretch that `s` does not hold from `lo` up, cut to `left`
/// more points and to `limit`.
pub open spec fn gap_end(s: Set<int>, lo: int, left: int, limit: int) -> int
    decreases left,
{
    if left <= 0 || lo >= limit || s.contains(lo + 1) {
        lo
    } else {
        gap_end(s, lo + 1, left - 1, limit)
    }
}

/// The lowest point of `[from, x]` that `s` does not hold, given that it
/// does not hold `x`.
pub open spec fn lowest_free(s: Set<int>, from: int, x: int) -> int
    decreases x - from,
{
    if from >= x || !s.contains(from) {
        from
    } else {
        lowest_free(s, from + 1, x)
    }
}

proof fn lemma_lowest_free(s: Set<int>, from: int, x: int)
    requires
        from <= x,
        !s.contains(x),
    ensures
        from <= lowest_free(s, from, x) <= x,
        !s.contains(lowest_free(s, from, x)),
        forall|y: int| from <= y < lowest_free(s, from, x) ==> s.contains(y),
    decreases x - from,
{
    if from < x && s.contains(from) {
        lemma_lowest_free(s, from + 1, x);
    }
}

proof fn lemma_gap_end(s: Set<int>, lo: int, left: int, limit: int)
    requires
        !s.contains(lo),
        0 <= left,
        lo <= limit,
    ensures
        lo <= gap_end(s, lo, left, limit) <= limit,
        gap_end(s, lo, left, limit) - lo <= left,
        forall|y: int| lo <= y <= gap_end(s, lo, left, limit) ==> !s.contains(y),
        gap_end(s, lo, left, limit) - lo == left || gap_end(s, lo, left, limit) == limit
            || s.contains(gap_end(s, lo, left, limit) + 1),
    decreases left,
{
    if left > 0 && lo < limit && !s.contains(lo + 1) {
        lemma_gap_end(s, lo + 1, left - 1, limit);
    }
}

/// Where `free_range` gives none although points may be taken, the set
/// holds every point of `[start, limit]`.
pub proof fn lemma_no_free_range_means_all_taken(
    s: Set<int>,
    start: u64,
    max_len: int,
    limit: u64,
    x: int,
)
    requires
        free_range(s, start as int, max_len, limit as int) is None,
        max_len > 0,
        start <= x <= limit,
    ensures
        s.contains(x),
{
    if !s.contains(x) {
        lemma_lowest_free(s, start as int, x);
        let lo = lowest_free(s, start as int, x);
        lemma_gap_end(s, lo, max_len - 1, limit as int);
        let hi = gap_end(s, lo, max_len - 1, limit as int);
        let r = BlockRange { lo: lo as u64, hi: hi as u64 };
        assert(is_free_range(s, start as int, max_len, limit as int, r.lo as int, r.hi as int));
    }
}

/// Whether `headers` answers a request for the headers numbered `r`: at
/// least one and no more than asked for, numbered from the start of `r`
/// upwards without a gap, each naming the one before it as its parent.
pub open spec fn valid_batch(r: BlockRange, headers: Seq<HeaderReport>) -> bool {
    &&& 1 <= headers.len() <= r.hi - r.lo + 1
    &&& forall|k: int| 0 <= k < headers.len() ==> (#[trigger] headers[k]).header.number == r.lo + k
    &&& forall|k: int|
        1 <= k < headers.len() ==> (#[trigger] headers[k]).header.parent_hash == headers[k
            - 1].header.hash
}

/// The queued block of a header that has just come from peer `from`.
pub open spec fn fresh_block(header: BlockHeader, from: PeerId, fast: bool) -> QueuedBlock {
    QueuedBlock {
        header,
        body_ready: false,
        receipts_ready: !fast,
        header_from: from,
        body_from: from,
        receipts_from: from,
    }
}

/// Whether the block has all that it needs to be imported.
pub open spec fn whole(b: QueuedBlock) -> bool {
    b.body_ready && b.receipts_ready
}

/// The number of blocks, counted from number `n` upwards without a gap, that
/// are queued in `blocks` with all that they need.
pub open spec fn ready_from(blocks: Map<u64, QueuedBlock>, n: u64) -> nat
    decreases u64::MAX - n,
{
    if n < u64::MAX && blocks.contains_key(n) && whole(blocks[n]) {
        1 + ready_from(blocks, (n + 1) as u64)
    } else {
        0
    }
}

/// The order to import the queued block numbered `n`.
pub open spec fn import_of(blocks: Map<u64, QueuedBlock>, n: u64) -> Action {
    Action::Import {
        number: n,
        hash: blocks[n].header.hash,
        header_from: blocks[n].header_from,
        body_from: blocks[n].body_from,
    }
}

impl ScheduleModel {
    /// The schedule of a download that starts at block `start` and has
    /// nothing yet.
    pub open spec fn empty(start: u64, fast: bool) -> ScheduleModel {
        ScheduleModel {
            imported: Set::empty(),
            requested: Set::empty(),
            wanted: Set::empty(),
            receipts_wanted: Set::empty(),
            blocks: Map::empty(),
            next_import: start,
            fast,
        }
    }

    /// Whether the queued block numbered `n` fits the schedule: it is marked
    /// as obtained, lies at or after the next import and sits under its own
    /// number; it lacks receipts only in the fast variant, and there it
    /// lacks them as long as it lacks its body.
    pub open spec fn block_fits(self, n: u64) -> bool {
        &&& self.imported.contains(n as int)
        &&& n >= self.next_import
        &&& self.blocks[n].header.number == n
        &&& !self.fast ==> self.blocks[n].receipts_ready
        &&& self.fast && !self.blocks[n].body_ready ==> !self.blocks[n].receipts_ready
    }

    /// What holds of every schedule: nothing is asked for that is already
    /// there or already passed; every queued block is marked as obtained,
    /// lies at or after the next import and sits under its own number; a
    /// body is wanted only for a queued header that has none; receipts are
    /// wanted only for a queued block with its body and without them; and
    /// receipts are lacking only in the fast variant, where a header
    /// without its body lacks them too.
    pub open spec fn wf(self) -> bool {
        &&& forall|x: int| #[trigger]
            self.requested.contains(x) ==> !self.imported.contains(x) && x >= self.next_import
        &&& forall|n: u64| #[trigger] self.blocks.contains_key(n) ==> self.block_fits(n)
        &&& forall|n: u64| #[trigger]
            self.wanted.contains(n as int) ==> self.blocks.contains_key(n)
                && !self.blocks[n].body_ready
        &&& forall|n: u64| #[trigger]
            self.receipts_wanted.contains(n as int) ==> self.blocks.contains_key(n)
                && self.blocks[n].body_ready && !self.blocks[n].receipts_ready
    }

    /// Whether nothing is queued and nothing asked for.
    pub open spec fn is_idle(self) -> bool {
        self.blocks.dom() == Set::<u64>::empty() && self.requested == Set::<int>::empty()
    }

    /// Every number that is obtained or asked for.
    pub open spec fn taken(self) -> Set<int> {
        self.imported.union(self.requested)
    }

    /// The headers to ask a peer of height `limit` for: the lowest stretch
    /// from the next import up that is neither obtained nor asked for.
    pub open spec fn free_headers(self, max_len: u64, limit: u64) -> Option<BlockRange> {
        free_range(self.taken(), self.next_import as int, max_len as int, limit as int)
    }

    /// The schedule once the headers `r` are asked for.
    pub open spec fn reserve_headers(self, r: BlockRange) -> ScheduleModel {
        ScheduleModel { requested: self.requested.union(range_set(r.lo as int, r.hi as int)), ..self }
    }

    /// The schedule once the headers `r` are no longer asked for.
    pub open spec fn release_headers(self, r: BlockRange) -> ScheduleModel {
        ScheduleModel {
            requested: self.requested.difference(range_set(r.lo as int, r.hi as int)),
            ..self
        }
    }

    /// The schedule once peer `from` has answered the request for the
    /// headers `r` with the valid batch `headers`: the request is over, the
    /// headers that came are queued and want their bodies.
    pub open spec fn accept_headers(
        self,
        r: BlockRange,
        headers: Seq<HeaderReport>,
        from: PeerId,
    ) -> ScheduleModel {
        let last = r.lo + headers.len() - 1;
        ScheduleModel {
            requested: self.requested.difference(range_set(r.lo as int, r.hi as int)),
            imported: self.imported.union(range_set(r.lo as int, last)),
            wanted: self.wanted.union(range_set(r.lo as int, last)),
            blocks: Map::new(
                |n: u64| self.blocks.contains_key(n) || r.lo <= n <= last,
                |n: u64|
                    if r.lo <= n <= last {
                        fresh_block(headers[n - r.lo].header, from, self.fast)
                    } else {
                        self.blocks[n]
                    },
            ),
            ..self
        }
    }

    /// The bodies to ask for: the lowest stretch of queued headers from the
    /// next import up that want a body.
    pub open spec fn wanted_bodies(self, max_len: u64) -> Option<BlockRange> {
        first_run(self.wanted, self.next_import as int, max_len as int)
    }

    /// The schedule once the bodies `r` are asked for.
    pub open spec fn reserve_bodies(self, r: BlockRange) -> ScheduleModel {
        ScheduleModel { wanted: self.wanted.difference(range_set(r.lo as int, r.hi as int)), ..self }
    }

    /// The schedule once the bodies `r` are no longer asked for.
    pub open spec fn release_bodies(self, r: BlockRange) -> ScheduleModel {
        ScheduleModel { wanted: self.wanted.union(range_set(r.lo as int, r.hi as int)), ..self }
    }

    /// Whether every number of `r` is a queued header without a body.
    pub open spec fn awaits_bodies(self, r: BlockRange) -> bool {
        forall|n: u64|
            #![trigger self.blocks.contains_key(n)]
            #![trigger self.blocks[n]]
            r.lo <= n <= r.hi ==> self.blocks.contains_key(n) && !self.blocks[n].body_ready
    }

    /// Whether `bodies` answers a request for the bodies `r`: at least one
    /// and no more than asked for, each with the root that the header in its
    /// place commits to.
    pub open spec fn bodies_match(self, r: BlockRange, bodies: Seq<BlockBody>) -> bool {
        &&& 1 <= bodies.len() <= r.hi - r.lo + 1
        &&& forall|n: u64|
            #![trigger self.blocks.contains_key(n)]
            #![trigger self.blocks[n]]
            r.lo <= n < r.lo + bodies.len() ==> self.blocks.contains_key(n) && bodies[n
                - r.lo].root == self.blocks[n].header.body_root
    }

    /// The schedule once peer `from` has supplied the first `count` bodies
    /// of `r`: those blocks have their bodies and, in the fast variant, want
    /// their receipts; the rest of `r` wants its bodies again.
    pub open spec fn accept_bodies(self, r: BlockRange, count: int, from: PeerId) -> ScheduleModel {
        ScheduleModel {
            wanted: self.wanted.union(range_set(r.lo + count, r.hi as int)),
            receipts_wanted: if self.fast {
                self.receipts_wanted.union(range_set(r.lo as int, r.lo + count - 1))
            } else {
                self.receipts_wanted
            },
            blocks: Map::new(
                |n: u64| self.blocks.contains_key(n),
                |n: u64|
                    if r.lo <= n < r.lo + count {
                        QueuedBlock { body_ready: true, body_from: from, ..self.blocks[n] }
                    } else {
                        self.blocks[n]
                    },
            ),
            ..self
        }
    }

    /// The receipts to ask for: the lowest stretch of queued blocks from the
    /// next import up that want them.
    pub open spec fn wanted_receipts(self, max_len: u64) -> Option<BlockRange> {
        first_run(self.receipts_wanted, self.next_import as int, max_len as int)
    }

    /// The schedule once the receipts `r` are asked for.
    pub open spec fn reserve_receipts(self, r: BlockRange) -> ScheduleModel {
        ScheduleModel {
            receipts_wanted: self.receipts_wanted.difference(range_set(r.lo as int, r.hi as int)),
            ..self
        }
    }

    /// The schedule once the receipts `r` are no longer asked for.
    pub open spec fn release_receipts(self, r: BlockRange) -> ScheduleModel {
        ScheduleModel {
            receipts_wanted: self.receipts_wanted.union(range_set(r.lo as int, r.hi as int)),
            ..self
        }
    }

    /// Whether every number of `r` is a queued block with its body and
    /// without its receipts.
    pub open spec fn awaits_receipts(self, r: BlockRange) -> bool {
        forall|n: u64|
            #![trigger self.blocks.contains_key(n)]
            #![trigger self.blocks[n]]
            r.lo <= n <= r.hi ==> self.blocks.contains_key(n) && self.blocks[n].body_ready
                && !self.blocks[n].receipts_ready
    }

    /// Whether `receipts` answers a request for the receipts `r`: at least
    /// one and no more than asked for, each with the root that the header in
    /// its place commits to.
    pub open spec fn receipts_match(self, r: BlockRange, receipts: Seq<BlockReceipts>) -> bool {
        &&& 1 <= receipts.len() <= r.hi - r.lo + 1
        &&& forall|n: u64|
            #![trigger self.blocks.contains_key(n)]
            #![trigger self.blocks[n]]
            r.lo <= n < r.lo + receipts.len() ==> self.blocks.contains_key(n) && receipts[n
                - r.lo].root == self.blocks[n].header.receipts_root
    }

    /// The schedule once peer `from` has supplied the first `count`
    /// receipts of `r`: those blocks have their receipts, the rest of `r`
    /// wants them again.
    pub open spec fn accept_receipts(self, r: BlockRange, count: int, from: PeerId)
        -> ScheduleModel {
        ScheduleModel {
            receipts_wanted: self.receipts_wanted.union(range_set(r.lo + count, r.hi as int)),
            blocks: Map::new(
                |n: u64| self.blocks.contains_key(n),
                |n: u64|
                    if r.lo <= n < r.lo + count {
                        QueuedBlock { receipts_ready: true, receipts_from: from, ..self.blocks[n] }
                    } else {
                        self.blocks[n]
                    },
            ),
            ..self
        }
    }

    /// The number of blocks that can be handed over for import now.
    pub open spec fn ready_count(self) -> nat {
        ready_from(self.blocks, self.next_import)
    }

    /// The import orders for the blocks that can be handed over now: one
    /// for each number from the next import up, in ascending order.
    pub open spec fn imports(self) -> Seq<Action> {
        Seq::new(
            self.ready_count(),
            |k: int| import_of(self.blocks, (self.next_import + k) as u64),
        )
    }

    /// The schedule once those blocks are handed over.
    pub open spec fn drained(self) -> ScheduleModel {
        let end = self.next_import + self.ready_count();
        ScheduleModel {
            blocks: self.blocks.remove_keys(Set::new(|n: u64| self.next_import <= n < end)),
            next_import: end as u64,
            ..self
        }
    }
}

/// The count of blocks ready from `n` never passes the top of the numbers,
/// and each of the blocks counted is queued with its body.
pub proof fn lemma_ready_from_bounded(blocks: Map<u64, QueuedBlock>, n: u64)
    ensures
        n + ready_from(blocks, n) <= u64::MAX,
        forall|m: u64|
            #![trigger blocks.contains_key(m)]
            #![trigger blocks[m]]
            n <= m < n + ready_from(blocks, n) ==> blocks.contains_key(m) && whole(blocks[m]),
    decreases u64::MAX - n,
{
    if n < u64::MAX && blocks.contains_key(n) && whole(blocks[n]) {
        lemma_ready_from_bounded(blocks, (n + 1) as u64);
    }
}

/// Whether `headers` answers a request for the headers numbered `r`.
pub fn check_batch(r: BlockRange, headers: &Vec<HeaderReport>) -> (b: bool)
    ensures
        b == valid_batch(r, headers@),
{
    let n = headers.len();
    if n == 0 || r.lo > r.hi || (n - 1) as u64 > r.hi - r.lo {
        return false;
    }
    let mut k: usize = 0;
    while k < n
        invariant
            k <= n,
            n == headers.len(),
            1 <= n <= r.hi - r.lo + 1,
            forall|j: int| 0 <= j < k ==> (#[trigger] headers@[j]).header.number == r.lo + j,
            forall|j: int|
                1 <= j < k ==> (#[trigger] headers@[j]).header.parent_hash == headers@[j
                    - 1].header.hash,
        decreases n - k,
    {
        if headers[k].header.number != r.lo + k as u64 {
            return false;
        }
        if k > 0 && !(headers[k].header.parent_hash == headers[k - 1].header.hash) {
            return false;
        }
        k += 1;
    }
    true
}

/// The empty schedule is well formed.
pub proof fn lemma_empty_wf(start: u64, fast: bool)
    ensures
        ScheduleModel::empty(start, fast).wf(),
        ScheduleModel::empty(start, fast).is_idle(),
{
    assert(ScheduleModel::empty(start, fast).blocks.dom() =~= Set::<u64>::empty());
}

/// Asking for headers that are neither obtained nor asked for, from the
/// next import up, keeps the schedule well formed.
pub proof fn lemma_reserve_headers_wf(m: ScheduleModel, r: BlockRange)
    requires
        m.wf(),
        m.next_import <= r.lo,
        forall|x: int| r.lo <= x <= r.hi ==> !m.taken().contains(x),
    ensures
        m.reserve_headers(r).wf(),
{
    let t = m.reserve_headers(r);
    assert forall|x: int| #[trigger] t.requested.contains(x) implies !t.imported.contains(x) && x
        >= t.next_import by {
        if r.lo <= x <= r.hi {
            assert(!m.taken().contains(x));
        }
    }
    assert forall|n: u64| #[trigger] t.blocks.contains_key(n) implies t.block_fits(n) by {
        assert(m.block_fits(n));
    }
}

/// Giving a request for headers up keeps the schedule well formed.
pub proof fn lemma_release_headers_wf(m: ScheduleModel, r: BlockRange)
    requires
        m.wf(),
    ensures
        m.release_headers(r).wf(),
{
    let t = m.release_headers(r);
    assert forall|n: u64| #[trigger] t.blocks.contains_key(n) implies t.block_fits(n) by {
        assert(m.block_fits(n));
    }
}

/// Taking a valid batch for a request that was asked for keeps the schedule
/// well formed.
pub proof fn lemma_accept_headers_wf(
    m: ScheduleModel,
    r: BlockRange,
    headers: Seq<HeaderReport>,
    from: PeerId,
)
    requires
        m.wf(),
        range_set(r.lo as int, r.hi as int).subset_of(m.requested),
        valid_batch(r, headers),
    ensures
        m.accept_headers(r, headers, from).wf(),
{
    let t = m.accept_headers(r, headers, from);
    let last = r.lo + headers.len() - 1;
    assert forall|x: int| r.lo <= x <= r.hi implies m.requested.contains(x) by {
        assert(range_set(r.lo as int, r.hi as int).contains(x));
    }
    assert forall|n: u64| #[trigger] t.blocks.contains_key(n) implies t.block_fits(n) by {
        if r.lo <= n <= last {
            assert(m.requested.contains(n as int));
            assert(headers[n - r.lo].header.number == r.lo + (n - r.lo));
        } else {
            assert(m.blocks.contains_key(n));
            assert(m.block_fits(n));
        }
    }
    assert forall|n: u64| #[trigger] t.wanted.contains(n as int) implies t.blocks.contains_key(n)
        && !t.blocks[n].body_ready by {
        if !(r.lo <= n <= last) {
            assert(m.wanted.contains(n as int));
        }
    }
    assert forall|n: u64| #[trigger] t.receipts_wanted.contains(n as int) implies t.blocks.contains_key(
        n,
    ) && t.blocks[n].body_ready && !t.blocks[n].receipts_ready by {
        assert(m.receipts_wanted.contains(n as int));
        assert(m.blocks.contains_key(n));
        assert(m.block_fits(n));
        if r.lo <= n <= last {
            assert(m.requested.contains(n as int));
        }
    }
}

/// Asking for bodies keeps the schedule well formed.
pub proof fn lemma_reserve_bodies_wf(m: ScheduleModel, r: BlockRange)
    requires
        m.wf(),
    ensures
        m.reserve_bodies(r).wf(),
{
    let t = m.reserve_bodies(r);
    assert forall|n: u64| #[trigger] t.blocks.contains_key(n) implies t.block_fits(n) by {
        assert(m.block_fits(n));
    }
    assert forall|n: u64| #[trigger] t.wanted.contains(n as int) implies t.blocks.contains_key(n)
        && !t.blocks[n].body_ready by {
        assert(m.wanted.contains(n as int));
    }
}

/// Giving a request for bodies up keeps the schedule well formed, as long
/// as the headers of the request are still queued without a body.
pub proof fn lemma_release_bodies_wf(m: ScheduleModel, r: BlockRange)
    requires
        m.wf(),
        m.awaits_bodies(r),
    ensures
        m.release_bodies(r).wf(),
{
    let t = m.release_bodies(r);
    assert forall|n: u64| #[trigger] t.blocks.contains_key(n) implies t.block_fits(n) by {
        assert(m.block_fits(n));
    }
    assert forall|n: u64| #[trigger] t.wanted.contains(n as int) implies t.blocks.contains_key(n)
        && !t.blocks[n].body_ready by {
        if r.lo <= n <= r.hi {
            assert(m.blocks.contains_key(n));
        } else {
            assert(m.wanted.contains(n as int));
        }
    }
}

/// Taking bodies for a request whose headers are queued without a body, and
/// none of which is marked as wanted, keeps the schedule well formed.
pub proof fn lemma_accept_bodies_wf(m: ScheduleModel, r: BlockRange, count: int, from: PeerId)
    requires
        m.wf(),
        m.awaits_bodies(r),
        1 <= count <= r.hi - r.lo + 1,
        forall|x: int| r.lo <= x <= r.hi ==> !m.wanted.contains(x),
    ensures
        m.accept_bodies(r, count, from).wf(),
        forall|n: u64|
            #![trigger m.accept_bodies(r, count, from).blocks.contains_key(n)]
            #![trigger m.accept_bodies(r, count, from).blocks[n]]
            r.lo + count <= n <= r.hi ==> m.accept_bodies(r, count, from).blocks.contains_key(n)
                && !m.accept_bodies(r, count, from).blocks[n].body_ready,
{
    let t = m.accept_bodies(r, count, from);
    assert forall|n: u64| #[trigger] t.blocks.contains_key(n) implies t.block_fits(n) by {
        assert(m.blocks.contains_key(n));
        assert(m.block_fits(n));
    }
    assert forall|n: u64| #[trigger] t.wanted.contains(n as int) implies t.blocks.contains_key(n)
        && !t.blocks[n].body_ready by {
        if r.lo + count <= n <= r.hi {
            assert(m.blocks.contains_key(n));
        } else {
            assert(m.wanted.contains(n as int));
        }
    }
    assert forall|n: u64| #[trigger] t.receipts_wanted.contains(n as int) implies t.blocks.contains_key(
        n,
    ) && t.blocks[n].body_ready && !t.blocks[n].receipts_ready by {
        if m.fast && r.lo <= n < r.lo + count {
            assert(m.blocks.contains_key(n));
            assert(m.block_fits(n));
        } else {
            assert(m.receipts_wanted.contains(n as int));
            assert(m.blocks.contains_key(n));
        }
    }
    assert forall|n: u64|
        #![trigger t.blocks.contains_key(n)]
        #![trigger t.blocks[n]]
        r.lo + count <= n <= r.hi implies t.blocks.contains_key(n) && !t.blocks[n].body_ready by {
        assert(m.blocks.contains_key(n));
    }
}

/// Asking for receipts keeps the schedule well formed.
pub proof fn lemma_reserve_receipts_wf(m: ScheduleModel, r: BlockRange)
    requires
        m.wf(),
    ensures
        m.reserve_receipts(r).wf(),
{
    let t = m.reserve_receipts(r);
    assert forall|n: u64| #[trigger] t.blocks.contains_key(n) implies t.block_fits(n) by {
        assert(m.block_fits(n));
    }
    assert forall|n: u64| #[trigger] t.receipts_wanted.contains(n as int) implies t.blocks.contains_key(
        n,
    ) && t.blocks[n].body_ready && !t.blocks[n].receipts_ready by {
        assert(m.receipts_wanted.contains(n as int));
    }
}

/// Giving a request for receipts up keeps the schedule well formed, as long
/// as the blocks of the request are still queued without receipts.
pub proof fn lemma_release_receipts_wf(m: ScheduleModel, r: BlockRange)
    requires
        m.wf(),
        m.awaits_receipts(r),
    ensures
        m.release_receipts(r).wf(),
{
    let t = m.release_receipts(r);
    assert forall|n: u64| #[trigger] t.blocks.contains_key(n) implies t.block_fits(n) by {
        assert(m.block_fits(n));
    }
    assert forall|n: u64| #[trigger] t.receipts_wanted.contains(n as int) implies t.blocks.contains_key(
        n,
    ) && t.blocks[n].body_ready && !t.blocks[n].receipts_ready by {
        if r.lo <= n <= r.hi {
            assert(m.blocks.contains_key(n));
        } else {
            assert(m.receipts_wanted.contains(n as int));
        }
    }
}

/// Taking receipts for a request whose blocks are queued without them, and
/// none of which is marked as wanting them, keeps the schedule well formed.
pub proof fn lemma_accept_receipts_wf(m: ScheduleModel, r: BlockRange, count: int, from: PeerId)
    requires
        m.wf(),
        m.awaits_receipts(r),
        1 <= count <= r.hi - r.lo + 1,
        forall|x: int| r.lo <= x <= r.hi ==> !m.receipts_wanted.contains(x),
    ensures
        m.accept_receipts(r, count, from).wf(),
        forall|n: u64|
            #![trigger m.accept_receipts(r, count, from).blocks.contains_key(n)]
            #![trigger m.accept_receipts(r, count, from).blocks[n]]
            r.lo + count <= n <= r.hi ==> m.accept_receipts(r, count, from).blocks.contains_key(n)
                && m.accept_receipts(r, count, from).blocks[n].body_ready && !m.accept_receipts(
                r,
                count,
                from,
            ).blocks[n].receipts_ready,
{
    let t = m.accept_receipts(r, count, from);
    assert forall|n: u64| #[trigger] t.blocks.contains_key(n) implies t.block_fits(n) by {
        assert(m.blocks.contains_key(n));
        assert(m.block_fits(n));
    }
    assert forall|n: u64| #[trigger] t.wanted.contains(n as int) implies t.blocks.contains_key(n)
        && !t.blocks[n].body_ready by {
        assert(m.wanted.contains(n as int));
        assert(m.blocks.contains_key(n));
    }
    assert forall|n: u64| #[trigger] t.receipts_wanted.contains(n as int) implies t.blocks.contains_key(
        n,
    ) && t.blocks[n].body_ready && !t.blocks[n].receipts_ready by {
        if r.lo + count <= n <= r.hi {
            assert(m.blocks.contains_key(n));
        } else {
            assert(m.receipts_wanted.contains(n as int));
            assert(m.blocks.contains_key(n));
        }
    }
    assert forall|n: u64|
        #![trigger t.blocks.contains_key(n)]
        #![trigger t.blocks[n]]
        r.lo + count <= n <= r.hi implies t.blocks.contains_key(n) && t.blocks[n].body_ready
        && !t.blocks[n].receipts_ready by {
        assert(m.blocks.contains_key(n));
    }
}

/// Handing over the blocks that are ready keeps the schedule well formed,
/// and never moves the next import back. A block that lacks anything stays
/// queued as it is.
pub proof fn lemma_drained_wf(m: ScheduleModel)
    requires
        m.wf(),
    ensures
        m.drained().wf(),
        m.drained().next_import == m.next_import + m.ready_count(),
        m.drained().imported == m.imported,
        m.drained().requested == m.requested,
        m.drained().wanted == m.wanted,
        m.drained().receipts_wanted == m.receipts_wanted,
        m.drained().fast == m.fast,
        forall|n: u64|
            #![trigger m.drained().blocks.contains_key(n)]
            #![trigger m.drained().blocks[n]]
            m.blocks.contains_key(n) && !whole(m.blocks[n]) ==> m.drained().blocks.contains_key(n)
                && m.drained().blocks[n] == m.blocks[n],
        forall|n: u64|
            #![trigger m.drained().blocks.contains_key(n)]
            m.drained().blocks.contains_key(n) ==> m.blocks.contains_key(n) && m.drained().blocks[n]
                == m.blocks[n],
        forall|n: u64|
            #![trigger m.blocks.contains_key(n)]
            m.blocks.contains_key(n) ==> n < m.drained().next_import || m.drained().blocks.contains_key(
                n,
            ),
{
    lemma_ready_from_bounded(m.blocks, m.next_import);
    let t = m.drained();
    let end = m.next_import + m.ready_count();
    assert forall|x: int| #[trigger] t.requested.contains(x) implies !t.imported.contains(x) && x
        >= t.next_import by {
        assert(m.requested.contains(x));
        if x < end {
            assert(m.blocks.contains_key(x as u64));
            assert(m.block_fits(x as u64));
        }
    }
    assert forall|n: u64| #[trigger] t.blocks.contains_key(n) implies t.block_fits(n) by {
        assert(m.blocks.contains_key(n));
        assert(m.block_fits(n));
    }
    assert forall|n: u64| #[trigger] t.wanted.contains(n as int) implies t.blocks.contains_key(n)
        && !t.blocks[n].body_ready by {
        assert(m.wanted.contains(n as int));
        assert(m.blocks.contains_key(n));
        if m.next_import <= n < end {
            assert(whole(m.blocks[n]));
        }
    }
    assert forall|n: u64| #[trigger] t.receipts_wanted.contains(n as int) implies t.blocks.contains_key(
        n,
    ) && t.blocks[n].body_ready && !t.blocks[n].receipts_ready by {
        assert(m.receipts_wanted.contains(n as int));
        assert(m.blocks.contains_key(n));
        if m.next_import <= n < end {
            assert(whole(m.blocks[n]));
        }
    }
    assert forall|n: u64|
        #![trigger t.blocks.contains_key(n)]
        #![trigger t.blocks[n]]
        m.blocks.contains_key(n) && !whole(m.blocks[n]) implies t.blocks.contains_key(n)
            && t.blocks[n] == m.blocks[n] by {
        if m.next_import <= n < end {
            assert(whole(m.blocks[n]));
        }
    }
    assert forall|n: u64| #![trigger m.blocks.contains_key(n)] m.blocks.contains_key(n) implies n
        < t.next_import || t.blocks.contains_key(n) by {
        assert(m.block_fits(n));
    }
}

/// The import orders of one hand-over carry the numbers from the next import
/// up, each one more than the one before.
pub proof fn lemma_imports_ascend(m: ScheduleModel, k: int)
    requires
        0 <= k < m.imports().len(),
    ensures
        m.imports().len() == m.ready_count(),
        m.imports()[k] matches Action::Import { number, .. } && number == m.next_import + k,
        m.next_import + m.ready_count() <= u64::MAX,
{
    lemma_ready_from_bounded(m.blocks, m.next_import);
}

/// The schedule of a download.
pub struct DownloadSchedule {
    imported: IntervalSet,
    requested: IntervalSet,
    wanted: IntervalSet,
    receipts_wanted: IntervalSet,
    blocks: HashMap<u64, QueuedBlock>,
    next_import: u64,
    fast: bool,
}

impl View for DownloadSchedule {
    type V = ScheduleModel;

    closed spec fn view(&self) -> ScheduleModel {
        ScheduleModel {
            imported: self.imported@,
            requested: self.requested@,
            wanted: self.wanted@,
            receipts_wanted: self.receipts_wanted@,
            blocks: self.blocks@,
            next_import: self.next_import,
            fast: self.fast,
        }
    }
}

impl DownloadSchedule {
    /// The schedule of a download that starts at block `start`; `fast` says
    /// that receipts are downloaded too.
    pub fn new(start: u64, fast: bool) -> (s: DownloadSchedule)
        ensures
            s@ == ScheduleModel::empty(start, fast),
    {
        DownloadSchedule {
            imported: IntervalSet::new(),
            requested: IntervalSet::new(),
            wanted: IntervalSet::new(),
            receipts_wanted: IntervalSet::new(),
            blocks: HashMap::new(),
            next_import: start,
            fast,
        }
    }

    /// Forgets everything and starts over at block `start`.
    pub fn reset(&mut self, start: u64)
        ensures
            final(self)@ == ScheduleModel::empty(start, old(self)@.fast),
    {
        self.imported.clear();
        self.requested.clear();
        self.wanted.clear();
        self.receipts_wanted.clear();
        self.blocks.clear();
        self.next_import = start;
    }

    /// The number of the next block to hand over for import.
    pub fn next_import(&self) -> (n: u64)
        ensures
            n == self@.next_import,
    {
        self.next_import
    }

    /// Whether nothing is queued and nothing asked for.
    pub fn is_idle(&self) -> (b: bool)
        ensures
            b == self@.is_idle(),
    {
        let no_blocks = self.blocks.is_empty();
        let no_requests = self.requested.is_empty();
        proof {
            assert(self.blocks@.is_empty() <==> self.blocks@.dom() =~= Set::<u64>::empty());
        }
        no_blocks && no_requests
    }

    /// Whether any block is queued.
    pub fn has_queued(&self) -> (b: bool)
        ensures
            b == (self@.blocks.dom() != Set::<u64>::empty()),
    {
        proof {
            assert(self.blocks@.is_empty() <==> self.blocks@.dom() =~= Set::<u64>::empty());
        }
        !self.blocks.is_empty()
    }

    /// The queued block numbered `n`, as it stands.
    pub fn queued_block(&self, n: u64) -> (b: Option<QueuedBlock>)
        ensures
            b == (if self@.blocks.contains_key(n) {
                Some(self@.blocks[n])
            } else {
                None
            }),
    {
        match self.blocks.get(&n) {
            Some(b) => Some(*b),
            None => None,
        }
    }

    /// The hash of the queued header numbered `n`.
    pub fn queued_hash(&self, n: u64) -> (h: Option<H256>)
        ensures
            h == (if self@.blocks.contains_key(n) {
                Some(self@.blocks[n].header.hash)
            } else {
                None
            }),
    {
        match self.blocks.get(&n) {
            Some(b) => Some(b.header.hash),
            None => None,
        }
    }

    /// The headers to ask a peer of height `limit` for.
    pub fn free_headers(&self, max_len: u64, limit: u64) -> (r: Option<BlockRange>)
        ensures
            r == self@.free_headers(max_len, limit),
            r matches Some(g) ==> is_free_range(
                self@.taken(),
                self@.next_import as int,
                max_len as int,
                limit as int,
                g.lo as int,
                g.hi as int,
            ),
    {
        let ghost taken = self@.taken();
        let ghost start = self.next_import as int;
        let mut p: u64 = self.next_import;
        loop
            invariant
                taken == self@.taken(),
                start == self.next_import,
                start <= p,
                forall|x: int| start <= x < p ==> taken.contains(x),
            decreases u64::MAX - p,
        {
            let g1 = match self.imported.first_gap_after(p, max_len) {
                None => {
                    proof {
                        lemma_free_range_none(taken, start, max_len as int, limit as int);
                    }
                    return None;
                },
                Some(g) => g,
            };
            if g1.lo > limit {
                proof {
                    lemma_free_range_none(taken, start, max_len as int, limit as int);
                }
                return None;
            }
            let g2 = match self.requested.first_gap_after(g1.lo, max_len) {
                None => {
                    proof {
                        lemma_free_range_none(taken, start, max_len as int, limit as int);
                    }
                    return None;
                },
                Some(g) => g,
            };
            if g2.lo == g1.lo {
                let mut hi = if g1.hi < g2.hi {
                    g1.hi
                } else {
                    g2.hi
                };
                if limit < hi {
                    hi = limit;
                }
                let found = BlockRange { lo: g1.lo, hi };
                proof {
                    lemma_free_range_found(taken, start, max_len as int, limit as int, found);
                }
                return Some(found);
            }
            p = g2.lo;
        }
    }

    /// Marks the headers `r` as asked for.
    pub fn reserve_headers(&mut self, r: BlockRange)
        ensures
            final(self)@ == old(self)@.reserve_headers(r),
    {
        self.requested.insert(r.lo, r.hi);
    }

    /// Marks the headers `r` as no longer asked for.
    pub fn release_headers(&mut self, r: BlockRange)
        ensures
            final(self)@ == old(self)@.release_headers(r),
    {
        self.requested.remove(r.lo, r.hi);
    }

    /// Takes the batch `headers` that peer `from` sent for the request `r`.
    pub fn accept_headers(&mut self, r: BlockRange, headers: &Vec<HeaderReport>, from: PeerId)
        requires
            1 <= headers.len() <= r.hi - r.lo + 1,
        ensures
            final(self)@ == old(self)@.accept_headers(r, headers@, from),
    {
        let count: u64 = headers.len() as u64;
        let last: u64 = r.lo + (count - 1);
        self.requested.remove(r.lo, r.hi);
        self.imported.insert(r.lo, last);
        self.wanted.insert(r.lo, last);
        let fast = self.fast;
        let ghost goal = old(self)@.accept_headers(r, headers@, from);
        let mut k: usize = 0;
        while k < headers.len()
            invariant
                k <= headers.len(),
                headers.len() <= r.hi - r.lo + 1,
                self.requested@ == goal.requested,
                self.imported@ == goal.imported,
                self.wanted@ == goal.wanted,
                self.receipts_wanted@ == goal.receipts_wanted,
                self.next_import == goal.next_import,
                self.fast == goal.fast,
                fast == self.fast,
                self.blocks@ == Map::new(
                    |n: u64| old(self).blocks@.contains_key(n) || r.lo <= n < r.lo + k,
                    |n: u64|
                        if r.lo <= n < r.lo + k {
                            fresh_block(headers@[n - r.lo].header, from, fast)
                        } else {
                            old(self).blocks@[n]
                        },
                ),
            decreases headers.len() - k,
        {
            let n: u64 = r.lo + k as u64;
            self.blocks.insert(
                n,
                QueuedBlock {
                    header: headers[k].header,
                    body_ready: false,
                    receipts_ready: !fast,
                    header_from: from,
                    body_from: from,
                    receipts_from: from,
                },
            );
            k += 1;
            assert(self.blocks@ =~= Map::new(
                |n: u64| old(self).blocks@.contains_key(n) || r.lo <= n < r.lo + k,
                |n: u64|
                    if r.lo <= n < r.lo + k {
                        fresh_block(headers@[n - r.lo].header, from, fast)
                    } else {
                        old(self).blocks@[n]
                    },
            ));
        }
        assert(self.blocks@ =~= goal.blocks);
    }

    /// The bodies to ask for.
    pub fn wanted_bodies(&self, max_len: u64) -> (r: Option<BlockRange>)
        ensures
            r == self@.wanted_bodies(max_len),
    {
        self.wanted.first_covered_after(self.next_import, max_len)
    }

    /// Marks the bodies `r` as asked for.
    pub fn reserve_bodies(&mut self, r: BlockRange)
        ensures
            final(self)@ == old(self)@.reserve_bodies(r),
    {
        self.wanted.remove(r.lo, r.hi);
    }

    /// Marks the bodies `r` as no longer asked for.
    pub fn release_bodies(&mut self, r: BlockRange)
        ensures
            final(self)@ == old(self)@.release_bodies(r),
    {
        self.wanted.insert(r.lo, r.hi);
    }

    /// Whether `bodies` answers a request for the bodies `r`.
    pub fn bodies_match(&self, r: BlockRange, bodies: &Vec<BlockBody>) -> (b: bool)
        ensures
            b == self@.bodies_match(r, bodies@),
    {
        let n = bodies.len();
        if n == 0 || r.lo > r.hi || (n - 1) as u64 > r.hi - r.lo {
            return false;
        }
        let ghost queued = self.blocks@;
        let mut k: usize = 0;
        while k < n
            invariant
                k <= n,
                n == bodies.len(),
                1 <= n <= r.hi - r.lo + 1,
                queued == self.blocks@,
                forall|m: u64|
                    #![trigger queued.contains_key(m)]
                    #![trigger queued[m]]
                    r.lo <= m < r.lo + k ==> queued.contains_key(m) && bodies@[m - r.lo].root
                        == queued[m].header.body_root,
            decreases n - k,
        {
            let number: u64 = r.lo + k as u64;
            match self.blocks.get(&number) {
                None => {
                    assert(!self@.blocks.contains_key(number));
                    assert(r.lo <= number < r.lo + bodies@.len());
                    return false;
                },
                Some(b) => {
                    assert(self@.blocks[number] == *b);
                    if !(b.header.body_root == bodies[k].root) {
                        assert(bodies@[number - r.lo].root
                            != self@.blocks[number].header.body_root);
                        assert(r.lo <= number < r.lo + bodies@.len());
                        return false;
                    }
                },
            }
            k += 1;
        }
        true
    }

    /// Takes the first `count` bodies of the request `r` from peer `from`.
    pub fn accept_bodies(&mut self, r: BlockRange, count: u64, from: PeerId)
        requires
            1 <= count <= r.hi - r.lo + 1,
            forall|n: u64| r.lo <= n < r.lo + count ==> #[trigger] old(self)@.blocks.contains_key(n),
        ensures
            final(self)@ == old(self)@.accept_bodies(r, count as int, from),
    {
        if count - 1 < r.hi - r.lo {
            self.wanted.insert(r.lo + count, r.hi);
        } else {
            assert(self.wanted@.union(range_set(r.lo + count, r.hi as int)) =~= self.wanted@);
        }
        if self.fast {
            self.receipts_wanted.insert(r.lo, r.lo + (count - 1));
        }
        let ghost goal = old(self)@.accept_bodies(r, count as int, from);
        let mut k: u64 = 0;
        while k < count
            invariant
                k <= count <= r.hi - r.lo + 1,
                self.requested@ == goal.requested,
                self.imported@ == goal.imported,
                self.wanted@ == goal.wanted,
                self.receipts_wanted@ == goal.receipts_wanted,
                self.next_import == goal.next_import,
                self.fast == goal.fast,
                forall|n: u64|
                    r.lo <= n < r.lo + count ==> #[trigger] old(self)@.blocks.contains_key(n),
                self.blocks@ == Map::new(
                    |n: u64| old(self).blocks@.contains_key(n),
                    |n: u64|
                        if r.lo <= n < r.lo + k {
                            QueuedBlock {
                                body_ready: true,
                                body_from: from,
                                ..old(self).blocks@[n]
                            }
                        } else {
                            old(self).blocks@[n]
                        },
                ),
            decreases count - k,
        {
            let n: u64 = r.lo + k;
            assert(old(self)@.blocks.contains_key(n));
            let prev = match self.blocks.get(&n) {
                Some(b) => *b,
                None => {
                    assert(false);
                    return ;
                },
            };
            self.blocks.insert(n, QueuedBlock { body_ready: true, body_from: from, ..prev });
            k += 1;
            assert(self.blocks@ =~= Map::new(
                |n: u64| old(self).blocks@.contains_key(n),
                |n: u64|
                    if r.lo <= n < r.lo + k {
                        QueuedBlock { body_ready: true, body_from: from, ..old(self).blocks@[n] }
                    } else {
                        old(self).blocks@[n]
                    },
            ));
        }
        assert(self.blocks@ =~= goal.blocks);
    }

    /// The receipts to ask for.
    pub fn wanted_receipts(&self, max_len: u64) -> (r: Option<BlockRange>)
        ensures
            r == self@.wanted_receipts(max_len),
    {
        self.receipts_wanted.first_covered_after(self.next_import, max_len)
    }

    /// Marks the receipts `r` as asked for.
    pub fn reserve_receipts(&mut self, r: BlockRange)
        ensures
            final(self)@ == old(self)@.reserve_receipts(r),
    {
        self.receipts_wanted.remove(r.lo, r.hi);
    }

    /// Marks the receipts `r` as no longer asked for.
    pub fn release_receipts(&mut self, r: BlockRange)
        ensures
            final(self)@ == old(self)@.release_receipts(r),
    {
        self.receipts_wanted.insert(r.lo, r.hi);
    }

    /// Whether `receipts` answers a request for the receipts `r`.
    pub fn receipts_match(&self, r: BlockRange, receipts: &Vec<BlockReceipts>) -> (b: bool)
        ensures
            b == self@.receipts_match(r, receipts@),
    {
        let n = receipts.len();
        if n == 0 || r.lo > r.hi || (n - 1) as u64 > r.hi - r.lo {
            return false;
        }
        let ghost queued = self.blocks@;
        let mut k: usize = 0;
        while k < n
            invariant
                k <= n,
                n == receipts.len(),
                1 <= n <= r.hi - r.lo + 1,
                queued == self.blocks@,
                forall|m: u64|
                    #![trigger queued.contains_key(m)]
                    #![trigger queued[m]]
                    r.lo <= m < r.lo + k ==> queued.contains_key(m) && receipts@[m - r.lo].root
                        == queued[m].header.receipts_root,
            decreases n - k,
        {
            let number: u64 = r.lo + k as u64;
            match self.blocks.get(&number) {
                None => {
                    assert(!self@.blocks.contains_key(number));
                    assert(r.lo <= number < r.lo + receipts@.len());
                    return false;
                },
                Some(b) => {
                    assert(self@.blocks[number] == *b);
                    if !(b.header.receipts_root == receipts[k].root) {
                        assert(receipts@[number - r.lo].root
                            != self@.blocks[number].header.receipts_root);
                        assert(r.lo <= number < r.lo + receipts@.len());
                        return false;
                    }
                },
            }
            k += 1;
        }
        true
    }

    /// Takes the first `count` receipts of the request `r` from peer `from`.
    pub fn accept_receipts(&mut self, r: BlockRange, count: u64, from: PeerId)
        requires
            1 <= count <= r.hi - r.lo + 1,
            forall|n: u64| r.lo <= n < r.lo + count ==> #[trigger] old(self)@.blocks.contains_key(n),
        ensures
            final(self)@ == old(self)@.accept_receipts(r, count as int, from),
    {
        if count - 1 < r.hi - r.lo {
            self.receipts_wanted.insert(r.lo + count, r.hi);
        } else {
            assert(self.receipts_wanted@.union(range_set(r.lo + count, r.hi as int))
                =~= self.receipts_wanted@);
        }
        let ghost goal = old(self)@.accept_receipts(r, count as int, from);
        let mut k: u64 = 0;
        while k < count
            invariant
                k <= count <= r.hi - r.lo + 1,
                self.requested@ == goal.requested,
                self.imported@ == goal.imported,
                self.wanted@ == goal.wanted,
                self.receipts_wanted@ == goal.receipts_wanted,
                self.next_import == goal.next_import,
                self.fast == goal.fast,
                forall|n: u64|
                    r.lo <= n < r.lo + count ==> #[trigger] old(self)@.blocks.contains_key(n),
                self.blocks@ == Map::new(
                    |n: u64| old(self).blocks@.contains_key(n),
                    |n: u64|
                        if r.lo <= n < r.lo + k {
                            QueuedBlock {
                                receipts_ready: true,
                                receipts_from: from,
                                ..old(self).blocks@[n]
                            }
                        } else {
                            old(self).blocks@[n]
                        },
                ),
            decreases count - k,
        {
            let n: u64 = r.lo + k;
            assert(old(self)@.blocks.contains_key(n));
            let prev = match self.blocks.get(&n) {
                Some(b) => *b,
                None => {
                    assert(false);
                    return ;
                },
            };
            self.blocks.insert(
                n,
                QueuedBlock { receipts_ready: true, receipts_from: from, ..prev },
            );
            k += 1;
            assert(self.blocks@ =~= Map::new(
                |n: u64| old(self).blocks@.contains_key(n),
                |n: u64|
                    if r.lo <= n < r.lo + k {
                        QueuedBlock {
                            receipts_ready: true,
                            receipts_from: from,
                            ..old(self).blocks@[n]
                        }
                    } else {
                        old(self).blocks@[n]
                    },
            ));
        }
        assert(self.blocks@ =~= goal.blocks);
    }

    /// Hands over, in ascending order, every block from the next import up
    /// that is queued with all that it needs, and moves the next import past
    /// them.
    pub fn drain(&mut self) -> (orders: Vec<Action>)
        ensures
            orders@ == old(self)@.imports(),
            final(self)@ == old(self)@.drained(),
    {
        let ghost start = self.next_import;
        let ghost queued = self.blocks@;
        let mut orders: Vec<Action> = Vec::new();
        proof {
            lemma_ready_from_bounded(queued, start);
        }
        loop
            invariant
                start == old(self).next_import,
                queued == old(self).blocks@,
                self.imported == old(self).imported,
                self.requested == old(self).requested,
                self.wanted == old(self).wanted,
                self.receipts_wanted == old(self).receipts_wanted,
                self.fast == old(self).fast,
                self.next_import == start + orders.len(),
                ready_from(queued, start) == orders.len() + ready_from(queued, self.next_import),
                self.blocks@ == queued.remove_keys(
                    Set::new(|n: u64| start <= n < self.next_import),
                ),
                orders@ == Seq::new(
                    orders.len() as nat,
                    |k: int| import_of(queued, (start + k) as u64),
                ),
            ensures
                ready_from(queued, self.next_import) == 0,
            decreases u64::MAX - self.next_import,
        {
            let n = self.next_import;
            if n == u64::MAX {
                break ;
            }
            let block = match self.blocks.get(&n) {
                Some(b) => *b,
                None => {
                    break ;
                },
            };
            if !(block.body_ready && block.receipts_ready) {
                break ;
            }
            self.blocks.remove(&n);
            orders.push(
                Action::Import {
                    number: n,
                    hash: block.header.hash,
                    header_from: block.header_from,
                    body_from: block.body_from,
                },
            );
            self.next_import = n + 1;
            proof {
                assert(self.blocks@ =~= queued.remove_keys(
                    Set::new(|m: u64| start <= m < self.next_import),
                ));
                assert(orders@ =~= Seq::new(
                    orders.len() as nat,
                    |k: int| import_of(queued, (start + k) as u64),
                ));
            }
        }
        proof {
            assert(orders@ =~= old(self)@.imports());
        }
        orders
    }
}

} // verus!
