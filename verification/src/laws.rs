//! What holds of the engine in every state that it can reach, and why.
//!
//! The invariant [`SyncModel::wf`] holds of the initial state and is kept by
//! every event. From it follow the laws of the download: no block number is
//! ever set aside for two peers, blocks are handed over for import in
//! ascending order, a request that passes its time is given up and counted,
//! and a peer of another chain never becomes part of the download.

use vstd::prelude::*;
use crate::io::{Action, Announcement, Event, Packet, StatusMessage};
use crate::model::{
    compatible,
    index_from,
    restart_all,
    Step,
    SyncConfig,
    SyncModel,
};
use crate::peer::{spec_next_u32, spec_next_u64, PeerSyncPhase, PeerSyncState};
use crate::range_collection::BlockRange;
use crate::schedule::{
    is_free_range,
    lemma_accept_bodies_wf,
    lemma_accept_headers_wf,
    lemma_accept_receipts_wf,
    lemma_drained_wf,
    lemma_empty_wf,
    lemma_ready_from_bounded,
    lemma_release_bodies_wf,
    lemma_release_headers_wf,
    lemma_release_receipts_wf,
    lemma_reserve_bodies_wf,
    lemma_reserve_headers_wf,
    lemma_reserve_receipts_wf,
    valid_batch,
    whole,
    ScheduleModel,
};
use crate::range_collection::{is_first_run, range_set};
use crate::search::AncestorSearch;
use crate::types::{BlockBody, BlockHeader, BlockReceipts, ChainInfo, HeaderReport, PeerId, U256};

verus! {

/// Whether two ranges share no number.
pub open spec fn ranges_apart(a: BlockRange, b: BlockRange) -> bool {
    a.hi < b.lo || b.hi < a.lo
}

/// Whether what is set aside for `p` and what is set aside for `q` share no
/// number.
pub open spec fn apart(p: PeerSyncState, q: PeerSyncState) -> bool {
    match (p.reserved(), q.reserved()) {
        (Some(a), Some(b)) => ranges_apart(a, b),
        _ => true,
    }
}

/// Whether the record `p` fits the schedule `s`. A peer that downloads
/// headers has a range of them set aside, all marked as asked for. A peer
/// that downloads bodies has a range of queued headers set aside, none with
/// a body and none marked as wanted. A peer that downloads receipts has a
/// range of queued blocks set aside, all with their bodies, none with its
/// receipts and none marked as wanting them. A request is under way exactly
/// in the four phases that ask, and only to an admitted peer.
pub open spec fn peer_wf(p: PeerSyncState, s: ScheduleModel) -> bool {
    &&& p.state == PeerSyncPhase::DownloadingHeaders ==> match p.spec_pending_range() {
        Some(r) => r.lo <= r.hi && forall|x: int| r.lo <= x <= r.hi ==> s.requested.contains(x),
        None => false,
    }
    &&& p.state == PeerSyncPhase::DownloadingBodies ==> match p.spec_pending_range() {
        Some(r) => r.lo <= r.hi && s.awaits_bodies(r) && forall|x: int|
            r.lo <= x <= r.hi ==> !s.wanted.contains(x),
        None => false,
    }
    &&& p.state == PeerSyncPhase::DownloadingReceipts ==> match p.spec_pending_range() {
        Some(r) => r.lo <= r.hi && s.awaits_receipts(r) && forall|x: int|
            r.lo <= x <= r.hi ==> !s.receipts_wanted.contains(x),
        None => false,
    }
    &&& p.state == PeerSyncPhase::SearchingCommonAncestor ==> p.pending_request is Some
    &&& !p.spec_is_active() ==> p.pending_request is None
    &&& p.spec_is_active() ==> p.admitted
}

/// Whether the number `x` is set aside for the peer `p` in the phase `phase`.
pub open spec fn holds(p: PeerSyncState, phase: PeerSyncPhase, x: int) -> bool {
    p.state == phase && match p.spec_pending_range() {
        Some(r) => r.lo <= x <= r.hi,
        None => false,
    }
}

/// Whether the number `x` is set aside for one of `peers` in the phase
/// `phase`.
pub open spec fn held(peers: Seq<PeerSyncState>, phase: PeerSyncPhase, x: int) -> bool {
    exists|i: int| 0 <= i < peers.len() && holds(#[trigger] peers[i], phase, x)
}

impl SyncModel {
    /// Whether the schedule holds nothing that it has lost track of: every
    /// number that is marked as asked for is set aside for a peer that
    /// downloads headers; every queued header without a body is wanted or
    /// set aside for a peer that downloads bodies; every queued block that
    /// lacks its receipts alone wants them or is set aside for a peer that
    /// downloads receipts; and every number that is marked as obtained is
    /// queued or lies below the next import.
    pub open spec fn nothing_lost(self) -> bool {
        &&& forall|x: int| #[trigger]
            self.schedule.requested.contains(x) ==> held(
                self.peers,
                PeerSyncPhase::DownloadingHeaders,
                x,
            )
        &&& forall|n: u64|
            #![trigger self.schedule.blocks.contains_key(n)]
            self.schedule.blocks.contains_key(n) && !self.schedule.blocks[n].body_ready
                ==> self.schedule.wanted.contains(n as int) || held(
                self.peers,
                PeerSyncPhase::DownloadingBodies,
                n as int,
            )
        &&& forall|n: u64|
            #![trigger self.schedule.blocks.contains_key(n)]
            self.schedule.blocks.contains_key(n) && self.schedule.blocks[n].body_ready
                && !self.schedule.blocks[n].receipts_ready
                ==> self.schedule.receipts_wanted.contains(n as int) || held(
                self.peers,
                PeerSyncPhase::DownloadingReceipts,
                n as int,
            )
        &&& forall|x: int| #[trigger]
            self.schedule.imported.contains(x) ==> x < self.schedule.next_import || (0 <= x
                <= u64::MAX && self.schedule.blocks.contains_key(x as u64))
    }

    /// What holds of every state of the engine: the schedule is well formed
    /// and never stands before block 1; no peer is connected twice; every
    /// record fits the schedule; what is set aside for one peer shares no
    /// number with what is set aside for another; and the schedule has lost
    /// track of nothing.
    pub open spec fn wf(self) -> bool {
        &&& self.schedule.wf()
        &&& self.schedule.next_import >= 1
        &&& forall|i: int, j: int|
            0 <= i < j < self.peers.len() ==> (#[trigger] self.peers[i]).peer_id != (
            #[trigger] self.peers[j]).peer_id
        &&& forall|i: int| 0 <= i < self.peers.len() ==> peer_wf(#[trigger] self.peers[i], self.schedule)
        &&& forall|i: int, j: int|
            0 <= i < self.peers.len() && 0 <= j < self.peers.len() && i != j ==> apart(
                #[trigger] self.peers[i],
                #[trigger] self.peers[j],
            )
        &&& self.nothing_lost()
    }
}

/// The initial state is well formed.
pub proof fn lemma_initial_wf(config: SyncConfig, best_number: u64)
    ensures
        SyncModel::initial(config, best_number).wf(),
{
    lemma_empty_wf(spec_next_u64(best_number), config.fast);
}

/// What `index_of` finds is the one connection of the peer, and where it
/// finds none the peer has none.
pub proof fn lemma_index_from(peers: Seq<PeerSyncState>, id: PeerId, from: int)
    requires
        0 <= from,
    ensures
        match index_from(peers, id, from) {
            Some(i) => from <= i < peers.len() && peers[i].peer_id == id,
            None => forall|j: int| from <= j < peers.len() ==> (#[trigger] peers[j]).peer_id != id,
        },
    decreases peers.len() - from,
{
    if from < peers.len() && peers[from].peer_id != id {
        lemma_index_from(peers, id, from + 1);
    }
}

/// A schedule that fits a record fits it still when the record changes in
/// nothing that the schedule is asked of.
proof fn lemma_peer_wf_same_request(p: PeerSyncState, q: PeerSyncState, s: ScheduleModel)
    requires
        peer_wf(p, s),
        q.state == p.state,
        q.pending_request == p.pending_request,
        q.admitted == p.admitted,
    ensures
        peer_wf(q, s),
        q.reserved() == p.reserved(),
{
}

/// A number that was set aside for one of the records `a` is set aside for
/// one of the records `b`, if `b` is `a` but for the record at `skip`, and
/// that record did not hold the number or holds it still.
proof fn lemma_held_kept(
    a: Seq<PeerSyncState>,
    b: Seq<PeerSyncState>,
    phase: PeerSyncPhase,
    x: int,
    skip: int,
)
    requires
        held(a, phase, x),
        a.len() == b.len(),
        forall|k: int| 0 <= k < a.len() && k != skip ==> #[trigger] a[k] == b[k],
        0 <= skip < a.len() && holds(a[skip], phase, x) ==> holds(b[skip], phase, x),
    ensures
        held(b, phase, x),
{
    let k = choose|k: int| 0 <= k < a.len() && holds(#[trigger] a[k], phase, x);
    if k != skip {
        assert(a[k] == b[k]);
    }
    assert(holds(b[k], phase, x));
}

/// The schedule has lost track of nothing after a change of the record at
/// index `i` that leaves what is set aside for it as it was.
proof fn lemma_nothing_lost_same_schedule(m: SyncModel, t: SyncModel, i: int)
    requires
        m.nothing_lost(),
        t.schedule == m.schedule,
        t.peers.len() == m.peers.len(),
        forall|k: int| 0 <= k < m.peers.len() && k != i ==> #[trigger] m.peers[k] == t.peers[k],
        0 <= i < m.peers.len() ==> (m.peers[i].reserved() is None && t.peers[i].reserved() is None)
            || (t.peers[i].state == m.peers[i].state && t.peers[i].pending_request
            == m.peers[i].pending_request),
    ensures
        t.nothing_lost(),
{
    assert forall|x: int| #[trigger] t.schedule.requested.contains(x) implies held(
        t.peers,
        PeerSyncPhase::DownloadingHeaders,
        x,
    ) by {
        lemma_held_kept(m.peers, t.peers, PeerSyncPhase::DownloadingHeaders, x, i);
    }
    assert forall|n: u64|
        #![trigger t.schedule.blocks.contains_key(n)]
        t.schedule.blocks.contains_key(n) && !t.schedule.blocks[n].body_ready
            implies t.schedule.wanted.contains(n as int) || held(
        t.peers,
        PeerSyncPhase::DownloadingBodies,
        n as int,
    ) by {
        if !t.schedule.wanted.contains(n as int) {
            lemma_held_kept(m.peers, t.peers, PeerSyncPhase::DownloadingBodies, n as int, i);
        }
    }
    assert forall|n: u64|
        #![trigger t.schedule.blocks.contains_key(n)]
        t.schedule.blocks.contains_key(n) && t.schedule.blocks[n].body_ready
            && !t.schedule.blocks[n].receipts_ready implies t.schedule.receipts_wanted.contains(
        n as int,
    ) || held(t.peers, PeerSyncPhase::DownloadingReceipts, n as int) by {
        if !t.schedule.receipts_wanted.contains(n as int) {
            lemma_held_kept(m.peers, t.peers, PeerSyncPhase::DownloadingReceipts, n as int, i);
        }
    }
}

/// Replacing the record at index `i` by one of the same peer that fits the
/// schedule and has nothing set aside that the old one had not keeps the
/// state well formed.
pub proof fn lemma_with_peer_wf(m: SyncModel, i: int, q: PeerSyncState)
    requires
        m.wf(),
        0 <= i < m.peers.len(),
        q.peer_id == m.peers[i].peer_id,
        peer_wf(q, m.schedule),
        (m.peers[i].reserved() is None && q.reserved() is None) || (q.state == m.peers[i].state
            && q.pending_request == m.peers[i].pending_request),
    ensures
        m.with_peer(i, q).wf(),
{
    let t = m.with_peer(i, q);
    lemma_nothing_lost_same_schedule(m, t, i);
    assert forall|a: int, b: int| 0 <= a < b < t.peers.len() implies (#[trigger] t.peers[a]).peer_id
        != (#[trigger] t.peers[b]).peer_id by {
        assert(t.peers[a].peer_id == m.peers[a].peer_id);
        assert(t.peers[b].peer_id == m.peers[b].peer_id);
    }
    assert forall|a: int| 0 <= a < t.peers.len() implies peer_wf(#[trigger] t.peers[a], t.schedule) by {
        if a != i {
            assert(t.peers[a] == m.peers[a]);
        }
    }
    assert forall|a: int, b: int|
        0 <= a < t.peers.len() && 0 <= b < t.peers.len() && a != b implies apart(
        #[trigger] t.peers[a],
        #[trigger] t.peers[b],
    ) by {
        assert(apart(m.peers[a], m.peers[b]));
    }
}

/// Giving up the request of the peer at index `i` keeps the state well
/// formed, and leaves the peer with nothing set aside. The headers that
/// were set aside for it are no longer marked as asked for, and the bodies
/// and receipts are wanted again.
pub proof fn lemma_release_wf(m: SyncModel, i: int)
    requires
        m.wf(),
        0 <= i < m.peers.len(),
    ensures
        m.release(i).wf(),
        m.release(i).peers.len() == m.peers.len(),
        m.release(i).peers[i] == m.peers[i].spec_released(),
        m.release(i).peers[i].reserved() is None,
        m.release(i).peers[i].pending_request is None,
        m.release(i).schedule.next_import == m.schedule.next_import,
        forall|j: int| 0 <= j < m.peers.len() && j != i ==> m.release(i).peers[j] == m.peers[j],
        m.peers[i].spec_header_range() matches Some(r) ==> forall|x: int|
            r.lo <= x <= r.hi ==> !m.release(i).schedule.requested.contains(x),
        m.peers[i].spec_body_range() matches Some(r) ==> forall|x: int|
            r.lo <= x <= r.hi ==> m.release(i).schedule.wanted.contains(x),
        m.peers[i].spec_receipt_range() matches Some(r) ==> forall|x: int|
            r.lo <= x <= r.hi ==> m.release(i).schedule.receipts_wanted.contains(x),
{
    let p = m.peers[i];
    let t = m.release(i);
    assert(peer_wf(p, m.schedule));
    match p.spec_header_range() {
        Some(r) => {
            lemma_release_headers_wf(m.schedule, r);
        },
        None => match p.spec_body_range() {
            Some(r) => {
                lemma_release_bodies_wf(m.schedule, r);
            },
            None => match p.spec_receipt_range() {
                Some(r) => {
                    lemma_release_receipts_wf(m.schedule, r);
                },
                None => {},
            },
        },
    }
    assert forall|a: int, b: int| 0 <= a < b < t.peers.len() implies (#[trigger] t.peers[a]).peer_id
        != (#[trigger] t.peers[b]).peer_id by {
        assert(t.peers[a].peer_id == m.peers[a].peer_id);
        assert(t.peers[b].peer_id == m.peers[b].peer_id);
    }
    assert forall|a: int| 0 <= a < t.peers.len() implies peer_wf(#[trigger] t.peers[a], t.schedule) by {
        if a != i {
            let q = m.peers[a];
            assert(t.peers[a] == q);
            assert(peer_wf(q, m.schedule));
            assert(apart(q, p));
            if q.state == PeerSyncPhase::DownloadingHeaders {
                let rq = q.spec_pending_range()->0;
                assert forall|x: int| rq.lo <= x <= rq.hi implies t.schedule.requested.contains(
                    x,
                ) by {
                    assert(m.schedule.requested.contains(x));
                }
            }
            if q.state == PeerSyncPhase::DownloadingBodies {
                let rq = q.spec_pending_range()->0;
                assert forall|x: int| rq.lo <= x <= rq.hi implies !t.schedule.wanted.contains(x) by {
                    assert(!m.schedule.wanted.contains(x));
                }
                assert(t.schedule.awaits_bodies(rq)) by {
                    assert(m.schedule.awaits_bodies(rq));
                }
            }
            if q.state == PeerSyncPhase::DownloadingReceipts {
                let rq = q.spec_pending_range()->0;
                assert forall|x: int| rq.lo <= x <= rq.hi implies !t.schedule.receipts_wanted.contains(
                    x,
                ) by {
                    assert(!m.schedule.receipts_wanted.contains(x));
                }
                assert(t.schedule.awaits_receipts(rq)) by {
                    assert(m.schedule.awaits_receipts(rq));
                }
            }
        }
    }
    assert forall|a: int, b: int|
        0 <= a < t.peers.len() && 0 <= b < t.peers.len() && a != b implies apart(
        #[trigger] t.peers[a],
        #[trigger] t.peers[b],
    ) by {
        assert(apart(m.peers[a], m.peers[b]));
    }
    assert forall|x: int| #[trigger] t.schedule.requested.contains(x) implies held(
        t.peers,
        PeerSyncPhase::DownloadingHeaders,
        x,
    ) by {
        assert(m.schedule.requested.contains(x));
        lemma_held_kept(m.peers, t.peers, PeerSyncPhase::DownloadingHeaders, x, i);
    }
    assert forall|n: u64|
        #![trigger t.schedule.blocks.contains_key(n)]
        t.schedule.blocks.contains_key(n) && !t.schedule.blocks[n].body_ready
            implies t.schedule.wanted.contains(n as int) || held(
        t.peers,
        PeerSyncPhase::DownloadingBodies,
        n as int,
    ) by {
        assert(m.schedule.blocks.contains_key(n));
        if !t.schedule.wanted.contains(n as int) {
            assert(!m.schedule.wanted.contains(n as int));
            lemma_held_kept(m.peers, t.peers, PeerSyncPhase::DownloadingBodies, n as int, i);
        }
    }
    assert forall|n: u64|
        #![trigger t.schedule.blocks.contains_key(n)]
        t.schedule.blocks.contains_key(n) && t.schedule.blocks[n].body_ready
            && !t.schedule.blocks[n].receipts_ready implies t.schedule.receipts_wanted.contains(
        n as int,
    ) || held(t.peers, PeerSyncPhase::DownloadingReceipts, n as int) by {
        assert(m.schedule.blocks.contains_key(n));
        if !t.schedule.receipts_wanted.contains(n as int) {
            assert(!m.schedule.receipts_wanted.contains(n as int));
            lemma_held_kept(m.peers, t.peers, PeerSyncPhase::DownloadingReceipts, n as int, i);
        }
    }
}

/// Counting a failure against the peer at index `i` keeps the state well
/// formed.
pub proof fn lemma_penalize_wf(m: SyncModel, i: int)
    requires
        m.wf(),
        0 <= i < m.peers.len(),
    ensures
        m.penalize(i).wf(),
        m.penalize(i).peers.len() == m.peers.len(),
        m.penalize(i).peers[i] == m.peers[i].spec_penalized(),
        m.penalize(i).schedule == m.release(i).schedule,
        forall|j: int| 0 <= j < m.peers.len() && j != i ==> m.penalize(i).peers[j] == m.peers[j],
{
    lemma_release_wf(m, i);
    let r = m.release(i);
    let q = PeerSyncState { failures: spec_next_u32(r.peers[i].failures), resting: true, ..r.peers[i] };
    assert(peer_wf(r.peers[i], r.schedule));
    lemma_with_peer_wf(r, i, q);
}

/// Taking the record at index `i` out keeps the state well formed.
pub proof fn lemma_without_peer_wf(m: SyncModel, i: int)
    requires
        m.wf(),
        0 <= i < m.peers.len(),
        m.peers[i].reserved() is None,
    ensures
        m.without_peer(i).wf(),
        m.without_peer(i).peers.len() == m.peers.len() - 1,
        forall|j: int|
            0 <= j < m.peers.len() - 1 ==> (#[trigger] m.without_peer(i).peers[j]).peer_id
                != m.peers[i].peer_id,
{
    let t = m.without_peer(i);
    assert forall|a: int| 0 <= a < t.peers.len() implies #[trigger] t.peers[a] == m.peers[if a < i {
        a
    } else {
        a + 1
    }] by {}
    assert forall|a: int, b: int| 0 <= a < b < t.peers.len() implies (#[trigger] t.peers[a]).peer_id
        != (#[trigger] t.peers[b]).peer_id by {
        let a0 = if a < i { a } else { a + 1 };
        let b0 = if b < i { b } else { b + 1 };
        assert(m.peers[a0].peer_id != m.peers[b0].peer_id);
    }
    assert forall|a: int| 0 <= a < t.peers.len() implies peer_wf(#[trigger] t.peers[a], t.schedule) by {
        let a0 = if a < i { a } else { a + 1 };
        assert(peer_wf(m.peers[a0], m.schedule));
    }
    assert forall|a: int, b: int|
        0 <= a < t.peers.len() && 0 <= b < t.peers.len() && a != b implies apart(
        #[trigger] t.peers[a],
        #[trigger] t.peers[b],
    ) by {
        let a0 = if a < i { a } else { a + 1 };
        let b0 = if b < i { b } else { b + 1 };
        assert(apart(m.peers[a0], m.peers[b0]));
    }
    assert forall|j: int| 0 <= j < m.peers.len() - 1 implies (#[trigger] t.peers[j]).peer_id
        != m.peers[i].peer_id by {
        let j0 = if j < i { j } else { j + 1 };
        if j0 < i {
            assert(m.peers[j0].peer_id != m.peers[i].peer_id);
        } else {
            assert(m.peers[i].peer_id != m.peers[j0].peer_id);
        }
    }
    assert forall|phase: PeerSyncPhase, x: int|
        (phase == PeerSyncPhase::DownloadingHeaders || phase == PeerSyncPhase::DownloadingBodies
            || phase == PeerSyncPhase::DownloadingReceipts) && held(m.peers, phase, x)
            implies #[trigger] held(t.peers, phase, x) by {
        let k = choose|k: int| 0 <= k < m.peers.len() && holds(#[trigger] m.peers[k], phase, x);
        let k1 = if k < i { k } else { k - 1 };
        assert(t.peers[k1] == m.peers[k]);
        assert(holds(t.peers[k1], phase, x));
    }
}

/// Beginning the download anew keeps the state well formed, and leaves
/// nothing set aside for any peer.
pub proof fn lemma_reset_plan_wf(m: SyncModel, start: u64)
    requires
        m.wf(),
        start >= 1,
    ensures
        m.reset_plan(start).wf(),
        m.reset_plan(start).peers.len() == m.peers.len(),
        forall|j: int|
            0 <= j < m.peers.len() ==> (#[trigger] m.reset_plan(start).peers[j]).reserved() is None,
{
    let t = m.reset_plan(start);
    lemma_empty_wf(start, m.schedule.fast);
    assert forall|a: int, b: int| 0 <= a < b < t.peers.len() implies (#[trigger] t.peers[a]).peer_id
        != (#[trigger] t.peers[b]).peer_id by {
        assert(m.peers[a].peer_id != m.peers[b].peer_id);
    }
    assert forall|a: int| 0 <= a < t.peers.len() implies peer_wf(#[trigger] t.peers[a], t.schedule) by {
        assert(peer_wf(m.peers[a], m.schedule));
    }
}

/// Taking note of a common ancestor keeps the state well formed.
pub proof fn lemma_found_wf(m: SyncModel, i: int, c: u64)
    requires
        m.wf(),
        0 <= i < m.peers.len(),
    ensures
        m.found(i, c).wf(),
        m.found(i, c).peers.len() == m.peers.len(),
        m.found(i, c).peers[i].peer_id == m.peers[i].peer_id,
{
    let q = PeerSyncState { common_ancestor: Some(c), ..m.peers[i] };
    assert(peer_wf(m.peers[i], m.schedule));
    lemma_peer_wf_same_request(m.peers[i], q, m.schedule);
    lemma_with_peer_wf(m, i, q);
    lemma_reset_plan_wf(m.with_peer(i, q), spec_next_u64(c));
}

/// Whether every action is a request to a peer.
pub open spec fn all_sends(actions: Seq<Action>) -> bool {
    forall|k: int| 0 <= k < actions.len() ==> #[trigger] actions[k] is Send
}

/// Whether two lists of records are of the same peers in the same order.
pub open spec fn same_peers(a: Seq<PeerSyncState>, b: Seq<PeerSyncState>) -> bool {
    a.len() == b.len() && forall|j: int|
        0 <= j < a.len() ==> (#[trigger] a[j]).peer_id == (#[trigger] b[j]).peer_id
}

/// Whether the step from `m` has left the import where it stood: it has
/// handed nothing over and has not begun the download anew.
pub open spec fn import_untouched(m: SyncModel, step: Step) -> bool {
    &&& step.model.schedule.next_import == m.schedule.next_import
    &&& step.model.schedule.blocks == m.schedule.blocks
    &&& step.model.schedule.imported == m.schedule.imported
    &&& all_sends(step.actions)
    &&& same_peers(m.peers, step.model.peers)
}

/// The id of the next request is no part of what makes a state well formed.
proof fn lemma_id_taken_wf(m: SyncModel)
    requires
        m.wf(),
    ensures
        m.id_taken().wf(),
{
    let t = m.id_taken();
    assert forall|a: int| 0 <= a < t.peers.len() implies peer_wf(#[trigger] t.peers[a], t.schedule) by {
        assert(peer_wf(m.peers[a], m.schedule));
    }
}

/// Asking an admitted peer with nothing under way for its best header keeps
/// the state well formed.
pub proof fn lemma_ask_head_wf(m: SyncModel, i: int, now: u64)
    requires
        m.wf(),
        0 <= i < m.peers.len(),
        m.peers[i].admitted,
        !m.peers[i].spec_is_active(),
    ensures
        m.ask_head(i, now).model.wf(),
        import_untouched(m, m.ask_head(i, now)),
{
    let p = m.peers[i];
    let q = PeerSyncState {
        state: PeerSyncPhase::SearchingCommonAncestor,
        pending_request: Some(
            m.request(
                crate::peer::RequestKind::Headers,
                crate::peer::RequestTarget::Hash(p.best_hash),
                now,
            ),
        ),
        asking_hash: Some(p.best_hash),
        ..p
    };
    lemma_with_peer_wf(m, i, q);
    lemma_id_taken_wf(m.with_peer(i, q));
}

/// Asking an admitted peer with nothing under way for a probe keeps the
/// state well formed.
pub proof fn lemma_probe_wf(m: SyncModel, i: int, now: u64, s: AncestorSearch)
    requires
        m.wf(),
        0 <= i < m.peers.len(),
        m.peers[i].admitted,
        m.peers[i].reserved() is None,
    ensures
        m.probe(i, now, s).model.wf(),
        import_untouched(m, m.probe(i, now, s)),
{
    let p = m.peers[i];
    let n = s.spec_probe();
    let q = PeerSyncState {
        state: PeerSyncPhase::SearchingCommonAncestor,
        pending_request: Some(
            m.request(
                crate::peer::RequestKind::Headers,
                crate::peer::RequestTarget::Range(BlockRange { lo: n, hi: n }),
                now,
            ),
        ),
        asking_hash: None,
        search: s,
        ..p
    };
    lemma_with_peer_wf(m, i, q);
    lemma_id_taken_wf(m.with_peer(i, q));
}

/// A state in which the peer at index `i`, which had nothing set aside, has
/// the range `g` set aside is well formed, if the new record fits the new
/// schedule, the new schedule fits the other records as the old one did,
/// and `g` shares no number with what is set aside for the others.
proof fn lemma_reserve_wf(m: SyncModel, t: SyncModel, i: int, q: PeerSyncState)
    requires
        m.wf(),
        0 <= i < m.peers.len(),
        t.peers == m.peers.update(i, q),
        q.peer_id == m.peers[i].peer_id,
        t.schedule.wf(),
        t.schedule.next_import >= 1,
        peer_wf(q, t.schedule),
        forall|a: int|
            0 <= a < m.peers.len() && a != i ==> peer_wf(#[trigger] m.peers[a], t.schedule) && apart(
                q,
                m.peers[a],
            ),
        t.nothing_lost(),
    ensures
        t.wf(),
{
    assert forall|a: int, b: int| 0 <= a < b < t.peers.len() implies (#[trigger] t.peers[a]).peer_id
        != (#[trigger] t.peers[b]).peer_id by {
        assert(t.peers[a].peer_id == m.peers[a].peer_id);
        assert(t.peers[b].peer_id == m.peers[b].peer_id);
    }
    assert forall|a: int| 0 <= a < t.peers.len() implies peer_wf(#[trigger] t.peers[a], t.schedule) by {
        if a != i {
            assert(t.peers[a] == m.peers[a]);
        }
    }
    assert forall|a: int, b: int|
        0 <= a < t.peers.len() && 0 <= b < t.peers.len() && a != b implies apart(
        #[trigger] t.peers[a],
        #[trigger] t.peers[b],
    ) by {
        if a == i {
            assert(t.peers[b] == m.peers[b]);
            assert(apart(q, m.peers[b]));
        } else if b == i {
            assert(t.peers[a] == m.peers[a]);
            assert(apart(q, m.peers[a]));
        } else {
            assert(apart(m.peers[a], m.peers[b]));
        }
    }
}

/// What carries over of `nothing_lost` when the peer at index `i`, which
/// held nothing, is changed and the schedule with it: each part holds of
/// the new state as far as the schedule has not changed in what it speaks
/// of.
proof fn lemma_nothing_lost_but(m: SyncModel, t: SyncModel, i: int)
    requires
        m.nothing_lost(),
        0 <= i < m.peers.len(),
        m.peers[i].reserved() is None,
        t.peers.len() == m.peers.len(),
        forall|k: int| 0 <= k < m.peers.len() && k != i ==> #[trigger] m.peers[k] == t.peers[k],
        t.schedule.blocks == m.schedule.blocks,
        t.schedule.imported == m.schedule.imported,
        t.schedule.next_import == m.schedule.next_import,
    ensures
        t.schedule.requested == m.schedule.requested ==> forall|x: int| #[trigger]
            t.schedule.requested.contains(x) ==> held(
                t.peers,
                PeerSyncPhase::DownloadingHeaders,
                x,
            ),
        t.schedule.wanted == m.schedule.wanted ==> forall|n: u64|
            #![trigger t.schedule.blocks.contains_key(n)]
            t.schedule.blocks.contains_key(n) && !t.schedule.blocks[n].body_ready
                ==> t.schedule.wanted.contains(n as int) || held(
                t.peers,
                PeerSyncPhase::DownloadingBodies,
                n as int,
            ),
        t.schedule.receipts_wanted == m.schedule.receipts_wanted ==> forall|n: u64|
            #![trigger t.schedule.blocks.contains_key(n)]
            t.schedule.blocks.contains_key(n) && t.schedule.blocks[n].body_ready
                && !t.schedule.blocks[n].receipts_ready
                ==> t.schedule.receipts_wanted.contains(n as int) || held(
                t.peers,
                PeerSyncPhase::DownloadingReceipts,
                n as int,
            ),
        forall|x: int| #[trigger]
            t.schedule.imported.contains(x) ==> x < t.schedule.next_import || (0 <= x <= u64::MAX
                && t.schedule.blocks.contains_key(x as u64)),
{
    if t.schedule.requested == m.schedule.requested {
        assert forall|x: int| #[trigger] t.schedule.requested.contains(x) implies held(
            t.peers,
            PeerSyncPhase::DownloadingHeaders,
            x,
        ) by {
            lemma_held_kept(m.peers, t.peers, PeerSyncPhase::DownloadingHeaders, x, i);
        }
    }
    if t.schedule.wanted == m.schedule.wanted {
        assert forall|n: u64|
            #![trigger t.schedule.blocks.contains_key(n)]
            t.schedule.blocks.contains_key(n) && !t.schedule.blocks[n].body_ready
                implies t.schedule.wanted.contains(n as int) || held(
            t.peers,
            PeerSyncPhase::DownloadingBodies,
            n as int,
        ) by {
            if !t.schedule.wanted.contains(n as int) {
                lemma_held_kept(m.peers, t.peers, PeerSyncPhase::DownloadingBodies, n as int, i);
            }
        }
    }
    if t.schedule.receipts_wanted == m.schedule.receipts_wanted {
        assert forall|n: u64|
            #![trigger t.schedule.blocks.contains_key(n)]
            t.schedule.blocks.contains_key(n) && t.schedule.blocks[n].body_ready
                && !t.schedule.blocks[n].receipts_ready
                implies t.schedule.receipts_wanted.contains(n as int) || held(
            t.peers,
            PeerSyncPhase::DownloadingReceipts,
            n as int,
        ) by {
            if !t.schedule.receipts_wanted.contains(n as int) {
                lemma_held_kept(
                    m.peers,
                    t.peers,
                    PeerSyncPhase::DownloadingReceipts,
                    n as int,
                    i,
                );
            }
        }
    }
}

/// Giving an idle peer its share of the download keeps the state well
/// formed: what is set aside for it was set aside for no other.
pub proof fn lemma_download_wf(m: SyncModel, i: int, now: u64, height: u64)
    requires
        m.wf(),
        0 <= i < m.peers.len(),
        m.peers[i].spec_is_eligible(),
    ensures
        m.download(i, now, height).model.wf(),
        import_untouched(m, m.download(i, now, height)),
{
    let p = m.peers[i];
    let s = m.schedule;
    assert(peer_wf(p, s));
    match s.wanted_bodies(m.config.max_bodies) {
        Some(g) => {
            assert(is_first_run(
                s.wanted,
                s.next_import as int,
                m.config.max_bodies as int,
                g.lo as int,
                g.hi as int,
            ));
            let q = PeerSyncState {
                state: PeerSyncPhase::DownloadingBodies,
                pending_request: Some(
                    m.request(
                        crate::peer::RequestKind::Bodies,
                        crate::peer::RequestTarget::Range(g),
                        now,
                    ),
                ),
                ..p
            };
            let t = SyncModel { schedule: s.reserve_bodies(g), peers: m.peers.update(i, q), ..m };
            lemma_reserve_bodies_wf(s, g);
            assert(t.schedule.awaits_bodies(g)) by {
                assert forall|n: u64|
                    #![trigger t.schedule.blocks.contains_key(n)]
                    #![trigger t.schedule.blocks[n]]
                    g.lo <= n <= g.hi implies t.schedule.blocks.contains_key(n)
                    && !t.schedule.blocks[n].body_ready by {
                    assert(s.wanted.contains(n as int));
                }
            }
            assert forall|a: int| 0 <= a < m.peers.len() && a != i implies peer_wf(
                #[trigger] m.peers[a],
                t.schedule,
            ) && apart(q, m.peers[a]) by {
                let o = m.peers[a];
                assert(peer_wf(o, s));
                let x: u64 = if o.reserved() is Some && g.lo < o.reserved()->0.lo {
                    o.reserved()->0.lo
                } else {
                    g.lo
                };
                if o.state == PeerSyncPhase::DownloadingHeaders {
                    let b = o.spec_pending_range()->0;
                    if !ranges_apart(g, b) {
                        assert(s.wanted.contains(x as int));
                        assert(s.blocks.contains_key(x));
                        assert(s.block_fits(x));
                        assert(s.requested.contains(x as int));
                    }
                }
                if o.state == PeerSyncPhase::DownloadingBodies {
                    let b = o.spec_pending_range()->0;
                    assert(s.awaits_bodies(b));
                    assert(t.schedule.awaits_bodies(b));
                    if !ranges_apart(g, b) {
                        assert(s.wanted.contains(x as int));
                    }
                }
                if o.state == PeerSyncPhase::DownloadingReceipts {
                    let b = o.spec_pending_range()->0;
                    assert(s.awaits_receipts(b));
                    assert(t.schedule.awaits_receipts(b));
                    if !ranges_apart(g, b) {
                        assert(s.wanted.contains(x as int));
                        assert(s.blocks.contains_key(x));
                    }
                }
            }
            assert(t.nothing_lost()) by {
                lemma_nothing_lost_but(m, t, i);
                assert forall|n: u64|
                    #![trigger t.schedule.blocks.contains_key(n)]
                    t.schedule.blocks.contains_key(n) && !t.schedule.blocks[n].body_ready
                        implies t.schedule.wanted.contains(n as int) || held(
                    t.peers,
                    PeerSyncPhase::DownloadingBodies,
                    n as int,
                ) by {
                    if !t.schedule.wanted.contains(n as int) {
                        if g.lo <= n <= g.hi {
                            assert(holds(t.peers[i], PeerSyncPhase::DownloadingBodies, n as int));
                        } else {
                            assert(!s.wanted.contains(n as int));
                            lemma_held_kept(
                                m.peers,
                                t.peers,
                                PeerSyncPhase::DownloadingBodies,
                                n as int,
                                i,
                            );
                        }
                    }
                }
            }
            lemma_reserve_wf(m, t, i, q);
            lemma_id_taken_wf(t);
        },
        None => match s.wanted_receipts(m.config.max_receipts) {
            Some(g) => {
                assert(is_first_run(
                    s.receipts_wanted,
                    s.next_import as int,
                    m.config.max_receipts as int,
                    g.lo as int,
                    g.hi as int,
                ));
                let q = PeerSyncState {
                    state: PeerSyncPhase::DownloadingReceipts,
                    pending_request: Some(
                        m.request(
                            crate::peer::RequestKind::Receipts,
                            crate::peer::RequestTarget::Range(g),
                            now,
                        ),
                    ),
                    ..p
                };
                let t = SyncModel {
                    schedule: s.reserve_receipts(g),
                    peers: m.peers.update(i, q),
                    ..m
                };
                lemma_reserve_receipts_wf(s, g);
                assert(t.schedule.awaits_receipts(g)) by {
                    assert forall|n: u64|
                        #![trigger t.schedule.blocks.contains_key(n)]
                        #![trigger t.schedule.blocks[n]]
                        g.lo <= n <= g.hi implies t.schedule.blocks.contains_key(n)
                        && t.schedule.blocks[n].body_ready
                        && !t.schedule.blocks[n].receipts_ready by {
                        assert(s.receipts_wanted.contains(n as int));
                    }
                }
                assert forall|a: int| 0 <= a < m.peers.len() && a != i implies peer_wf(
                    #[trigger] m.peers[a],
                    t.schedule,
                ) && apart(q, m.peers[a]) by {
                    let o = m.peers[a];
                    assert(peer_wf(o, s));
                    let x: u64 = if o.reserved() is Some && g.lo < o.reserved()->0.lo {
                        o.reserved()->0.lo
                    } else {
                        g.lo
                    };
                    if o.state == PeerSyncPhase::DownloadingHeaders {
                        let b = o.spec_pending_range()->0;
                        if !ranges_apart(g, b) {
                            assert(s.receipts_wanted.contains(x as int));
                            assert(s.blocks.contains_key(x));
                            assert(s.block_fits(x));
                            assert(s.requested.contains(x as int));
                        }
                    }
                    if o.state == PeerSyncPhase::DownloadingBodies {
                        let b = o.spec_pending_range()->0;
                        assert(s.awaits_bodies(b));
                        assert(t.schedule.awaits_bodies(b));
                        if !ranges_apart(g, b) {
                            assert(s.receipts_wanted.contains(x as int));
                            assert(s.blocks.contains_key(x));
                        }
                    }
                    if o.state == PeerSyncPhase::DownloadingReceipts {
                        let b = o.spec_pending_range()->0;
                        assert(s.awaits_receipts(b));
                        assert(t.schedule.awaits_receipts(b));
                        if !ranges_apart(g, b) {
                            assert(s.receipts_wanted.contains(x as int));
                        }
                    }
                }
                assert(t.nothing_lost()) by {
                    lemma_nothing_lost_but(m, t, i);
                    assert forall|n: u64|
                        #![trigger t.schedule.blocks.contains_key(n)]
                        t.schedule.blocks.contains_key(n) && t.schedule.blocks[n].body_ready
                            && !t.schedule.blocks[n].receipts_ready
                            implies t.schedule.receipts_wanted.contains(n as int) || held(
                        t.peers,
                        PeerSyncPhase::DownloadingReceipts,
                        n as int,
                    ) by {
                        if !t.schedule.receipts_wanted.contains(n as int) {
                            if g.lo <= n <= g.hi {
                                assert(holds(
                                    t.peers[i],
                                    PeerSyncPhase::DownloadingReceipts,
                                    n as int,
                                ));
                            } else {
                                assert(!s.receipts_wanted.contains(n as int));
                                lemma_held_kept(
                                    m.peers,
                                    t.peers,
                                    PeerSyncPhase::DownloadingReceipts,
                                    n as int,
                                    i,
                                );
                            }
                        }
                    }
                }
                lemma_reserve_wf(m, t, i, q);
                lemma_id_taken_wf(t);
            },
            None => match s.free_headers(m.config.max_headers, height) {
                Some(g) => {
                    assert(is_free_range(
                        s.taken(),
                        s.next_import as int,
                        m.config.max_headers as int,
                        height as int,
                        g.lo as int,
                        g.hi as int,
                    ));
                    let q = PeerSyncState {
                        state: PeerSyncPhase::DownloadingHeaders,
                        pending_request: Some(
                            m.request(
                                crate::peer::RequestKind::Headers,
                                crate::peer::RequestTarget::Range(g),
                                now,
                            ),
                        ),
                        ..p
                    };
                    let t = SyncModel {
                        schedule: s.reserve_headers(g),
                        peers: m.peers.update(i, q),
                        ..m
                    };
                    lemma_reserve_headers_wf(s, g);
                    assert forall|a: int| 0 <= a < m.peers.len() && a != i implies peer_wf(
                        #[trigger] m.peers[a],
                        t.schedule,
                    ) && apart(q, m.peers[a]) by {
                        let o = m.peers[a];
                        assert(peer_wf(o, s));
                        let x: u64 = if o.reserved() is Some && g.lo < o.reserved()->0.lo {
                            o.reserved()->0.lo
                        } else {
                            g.lo
                        };
                        if o.state == PeerSyncPhase::DownloadingHeaders {
                            let b = o.spec_pending_range()->0;
                            assert forall|y: int| b.lo <= y <= b.hi implies t.schedule.requested.contains(
                                y,
                            ) by {
                                assert(s.requested.contains(y));
                            }
                            if !ranges_apart(g, b) {
                                assert(s.requested.contains(x as int));
                                assert(!s.taken().contains(x as int));
                            }
                        }
                        if o.state == PeerSyncPhase::DownloadingBodies {
                            let b = o.spec_pending_range()->0;
                            assert(s.awaits_bodies(b));
                            assert(t.schedule.awaits_bodies(b));
                            if !ranges_apart(g, b) {
                                assert(s.blocks.contains_key(x));
                                assert(s.block_fits(x));
                                assert(!s.taken().contains(x as int));
                            }
                        }
                        if o.state == PeerSyncPhase::DownloadingReceipts {
                            let b = o.spec_pending_range()->0;
                            assert(s.awaits_receipts(b));
                            assert(t.schedule.awaits_receipts(b));
                            if !ranges_apart(g, b) {
                                assert(s.blocks.contains_key(x));
                                assert(s.block_fits(x));
                                assert(!s.taken().contains(x as int));
                            }
                        }
                    }
                    assert(t.nothing_lost()) by {
                        lemma_nothing_lost_but(m, t, i);
                        assert forall|x: int| #[trigger] t.schedule.requested.contains(x) implies held(
                            t.peers,
                            PeerSyncPhase::DownloadingHeaders,
                            x,
                        ) by {
                            if g.lo <= x <= g.hi {
                                assert(holds(t.peers[i], PeerSyncPhase::DownloadingHeaders, x));
                            } else {
                                assert(s.requested.contains(x));
                                lemma_held_kept(
                                    m.peers,
                                    t.peers,
                                    PeerSyncPhase::DownloadingHeaders,
                                    x,
                                    i,
                                );
                            }
                        }
                    }
                    lemma_reserve_wf(m, t, i, q);
                    lemma_id_taken_wf(t);
                },
                None => {
                    if height < s.next_import {
                        lemma_with_peer_wf(
                            m,
                            i,
                            PeerSyncState { state: PeerSyncPhase::Confirmed, ..p },
                        );
                    }
                },
            },
        },
    }
}

/// Giving the peer at index `i` work keeps the state well formed. It asks
/// peers for things and does nothing else: no block is handed over, and the
/// download is not begun anew.
pub proof fn lemma_assign_wf(m: SyncModel, chain: ChainInfo, now: u64, i: int)
    requires
        m.wf(),
        0 <= i < m.peers.len(),
    ensures
        m.assign(chain, now, i).model.wf(),
        import_untouched(m, m.assign(chain, now, i)),
{
    let p = m.peers[i];
    assert(peer_wf(p, m.schedule));
    if !p.spec_is_eligible() {
    } else if !p.spec_is_ahead(chain) {
        lemma_with_peer_wf(m, i, PeerSyncState { state: PeerSyncPhase::NewBlocksOnly, ..p });
    } else {
        match p.latest_known_number {
            None => {
                lemma_ask_head_wf(m, i, now);
            },
            Some(height) => {
                if p.common_ancestor is None {
                    let s = AncestorSearch::spec_start(crate::model::lower(height, chain.best_number));
                    let q = PeerSyncState { search: s, probes: 0, ..p };
                    lemma_peer_wf_same_request(p, q, m.schedule);
                    lemma_with_peer_wf(m, i, q);
                    let m1 = m.with_peer(i, q);
                    if s.spec_is_done() {
                        lemma_found_wf(m1, i, s.lo);
                        let m2 = m1.found(i, s.lo);
                        assert(m2 == m1.with_peer(
                            i,
                            PeerSyncState { common_ancestor: Some(s.lo), ..q },
                        ));
                        lemma_download_wf(m2, i, now, height);
                    } else {
                        lemma_probe_wf(m1, i, now, s);
                    }
                } else {
                    lemma_download_wf(m, i, now, height);
                }
            },
        }
    }
}

/// Giving the peers from index `i` on work keeps the state well formed and
/// leaves the import where it stood.
pub proof fn lemma_assign_from_wf(m: SyncModel, chain: ChainInfo, now: u64, i: int, n: int)
    requires
        m.wf(),
        0 <= i <= n == m.peers.len(),
    ensures
        m.assign_from(chain, now, i, n).model.wf(),
        import_untouched(m, m.assign_from(chain, now, i, n)),
    decreases n - i,
{
    if i < n {
        let first = m.assign(chain, now, i);
        lemma_assign_wf(m, chain, now, i);
        lemma_assign_from_wf(first.model, chain, now, i + 1, n);
        let rest = first.model.assign_from(chain, now, i + 1, n);
        let whole = rest.after(first.actions);
        assert forall|k: int| 0 <= k < whole.actions.len() implies #[trigger] whole.actions[k] is Send by {
            if k < first.actions.len() {
                assert(first.actions[k] is Send);
            } else {
                assert(rest.actions[k - first.actions.len()] is Send);
            }
        }
        assert forall|j: int| 0 <= j < m.peers.len() implies (#[trigger] m.peers[j]).peer_id == (
        #[trigger] whole.model.peers[j]).peer_id by {
            assert(m.peers[j].peer_id == first.model.peers[j].peer_id);
            assert(first.model.peers[j].peer_id == rest.model.peers[j].peer_id);
        }
        assert(m.assign_from(chain, now, i, n) == whole);
    } else {
        assert(all_sends(Seq::<Action>::empty()));
    }
}

/// Giving every peer work keeps the state well formed and leaves the import
/// where it stood.
pub proof fn lemma_assign_all_wf(m: SyncModel, chain: ChainInfo, now: u64)
    requires
        m.wf(),
    ensures
        m.assign_all(chain, now).model.wf(),
        import_untouched(m, m.assign_all(chain, now)),
{
    lemma_assign_from_wf(m, chain, now, 0, m.peers.len() as int);
}

/// Whether one of `peers` is the record of peer `id`.
pub open spec fn has_peer(peers: Seq<PeerSyncState>, id: PeerId) -> bool {
    exists|k: int| 0 <= k < peers.len() && (#[trigger] peers[k]).peer_id == id
}

/// Whether every peer of which `t` has a record is one of which `m` has.
pub open spec fn no_new_peers(m: SyncModel, t: SyncModel) -> bool {
    forall|j: int| 0 <= j < t.peers.len() ==> has_peer(m.peers, (#[trigger] t.peers[j]).peer_id)
}

proof fn lemma_no_new_same(m: SyncModel, t: SyncModel)
    requires
        same_peers(m.peers, t.peers),
    ensures
        no_new_peers(m, t),
{
    assert forall|j: int| 0 <= j < t.peers.len() implies has_peer(
        m.peers,
        (#[trigger] t.peers[j]).peer_id,
    ) by {
        assert(m.peers[j].peer_id == t.peers[j].peer_id);
    }
}

proof fn lemma_no_new_via(m: SyncModel, mid: SyncModel, t: SyncModel)
    requires
        no_new_peers(m, mid),
        same_peers(mid.peers, t.peers),
    ensures
        no_new_peers(m, t),
{
    assert forall|j: int| 0 <= j < t.peers.len() implies has_peer(
        m.peers,
        (#[trigger] t.peers[j]).peer_id,
    ) by {
        assert(mid.peers[j].peer_id == t.peers[j].peer_id);
        assert(has_peer(m.peers, mid.peers[j].peer_id));
    }
}

proof fn lemma_no_new_removed(m: SyncModel, mid: SyncModel, i: int)
    requires
        no_new_peers(m, mid),
        0 <= i < mid.peers.len(),
    ensures
        no_new_peers(m, mid.without_peer(i)),
{
    let t = mid.without_peer(i);
    assert forall|j: int| 0 <= j < t.peers.len() implies has_peer(
        m.peers,
        (#[trigger] t.peers[j]).peer_id,
    ) by {
        let j0 = if j < i { j } else { j + 1 };
        assert(t.peers[j] == mid.peers[j0]);
        assert(has_peer(m.peers, mid.peers[j0].peer_id));
    }
}

/// What makes a state well formed is its records and its schedule alone.
proof fn lemma_same_core_wf(m: SyncModel, t: SyncModel)
    requires
        m.wf(),
        t.peers == m.peers,
        t.schedule == m.schedule,
    ensures
        t.wf(),
{
    assert forall|a: int| 0 <= a < t.peers.len() implies peer_wf(#[trigger] t.peers[a], t.schedule) by {
        assert(peer_wf(m.peers[a], m.schedule));
    }
}

/// A connection keeps the state well formed.
pub proof fn lemma_connect_wf(m: SyncModel, chain: ChainInfo, now: u64, peer: PeerId)
    requires
        m.wf(),
    ensures
        m.connect(chain, now, peer).model.wf(),
{
    if m.index_of(peer) is None {
        lemma_index_from(m.peers, peer, 0);
        let t = m.connect(chain, now, peer).model;
        let n = m.peers.len() as int;
        assert forall|a: int, b: int| 0 <= a < b < t.peers.len() implies (
        #[trigger] t.peers[a]).peer_id != (#[trigger] t.peers[b]).peer_id by {
            if b == n {
                assert(m.peers[a].peer_id != peer);
            } else {
                assert(m.peers[a].peer_id != m.peers[b].peer_id);
            }
        }
        assert forall|a: int| 0 <= a < t.peers.len() implies peer_wf(
            #[trigger] t.peers[a],
            t.schedule,
        ) by {
            if a < n {
                assert(peer_wf(m.peers[a], m.schedule));
            }
        }
        assert forall|a: int, b: int|
            0 <= a < t.peers.len() && 0 <= b < t.peers.len() && a != b implies apart(
            #[trigger] t.peers[a],
            #[trigger] t.peers[b],
        ) by {
            if a < n && b < n {
                assert(apart(m.peers[a], m.peers[b]));
            }
        }
        assert forall|phase: PeerSyncPhase, x: int| held(m.peers, phase, x) implies #[trigger] held(
            t.peers,
            phase,
            x,
        ) by {
            let k = choose|k: int| 0 <= k < m.peers.len() && holds(#[trigger] m.peers[k], phase, x);
            assert(t.peers[k] == m.peers[k]);
            assert(holds(t.peers[k], phase, x));
        }
    }
}

/// A handshake keeps the state well formed.
pub proof fn lemma_on_status_wf(
    m: SyncModel,
    chain: ChainInfo,
    now: u64,
    peer: PeerId,
    msg: StatusMessage,
)
    requires
        m.wf(),
    ensures
        m.on_status(chain, now, peer, msg).model.wf(),
        no_imports(m.on_status(chain, now, peer, msg).actions),
        no_new_peers(m, m.on_status(chain, now, peer, msg).model),
{
    lemma_index_from(m.peers, peer, 0);
    match m.index_of(peer) {
        None => {},
        Some(i) => {
            let p = m.peers[i];
            assert(peer_wf(p, m.schedule));
            lemma_no_new_same(m, m);
            if p.admitted {
            } else if !compatible(m.config, chain, msg) {
                lemma_without_peer_wf(m, i);
                lemma_no_new_removed(m, m, i);
            } else {
                lemma_with_peer_wf(m, i, p.spec_with_status(msg));
                let mid = m.with_peer(i, p.spec_with_status(msg));
                lemma_assign_wf(mid, chain, now, i);
                lemma_no_new_same(m, mid);
                lemma_no_new_via(m, mid, mid.assign(chain, now, i).model);
            }
        },
    }
    lemma_no_new_same(m, m);
}

/// Whether no action hands a block over for import.
pub open spec fn no_imports(actions: Seq<Action>) -> bool {
    forall|k: int| 0 <= k < actions.len() ==> !(#[trigger] actions[k] is Import)
}

/// The answer to the request for a peer's best header keeps the state well
/// formed.
pub proof fn lemma_on_head_wf(
    m: SyncModel,
    chain: ChainInfo,
    now: u64,
    i: int,
    headers: Seq<HeaderReport>,
)
    requires
        m.wf(),
        0 <= i < m.peers.len(),
        m.peers[i].state == PeerSyncPhase::SearchingCommonAncestor,
    ensures
        m.on_head(chain, now, i, headers).model.wf(),
        no_imports(m.on_head(chain, now, i, headers).actions),
        m.on_head(chain, now, i, headers).model.schedule.next_import == m.schedule.next_import,
        no_new_peers(m, m.on_head(chain, now, i, headers).model),
{
    let p = m.peers[i];
    assert(peer_wf(p, m.schedule));
    if headers.len() == 1 && p.asking_hash == Some(headers[0].header.hash) {
        let q = PeerSyncState {
            latest_known_number: Some(headers[0].header.number),
            ..p.spec_released()
        };
        lemma_with_peer_wf(m, i, q);
        let m1 = m.with_peer(i, q);
        let m2 = m1.note_height(headers[0].header.number);
        lemma_same_core_wf(m1, m2);
        lemma_assign_wf(m2, chain, now, i);
        lemma_no_new_same(m, m2);
        lemma_no_new_via(m, m2, m2.assign(chain, now, i).model);
    } else {
        lemma_penalize_wf(m, i);
        lemma_release_wf(m, i);
        lemma_no_new_same(m, m.penalize(i));
    }
}

/// The answer to a probe keeps the state well formed.
pub proof fn lemma_on_probe_wf(
    m: SyncModel,
    chain: ChainInfo,
    now: u64,
    i: int,
    n: u64,
    headers: Seq<HeaderReport>,
)
    requires
        m.wf(),
        0 <= i < m.peers.len(),
        m.peers[i].state == PeerSyncPhase::SearchingCommonAncestor,
    ensures
        m.on_probe(chain, now, i, n, headers).model.wf(),
        no_imports(m.on_probe(chain, now, i, n, headers).actions),
        no_new_peers(m, m.on_probe(chain, now, i, n, headers).model),
{
    let p = m.peers[i];
    assert(peer_wf(p, m.schedule));
    if headers.len() == 1 && headers[0].header.number == n && !p.search.spec_is_done()
        && p.search.spec_probe() == n {
        let s = p.search.spec_advance(headers[0].known);
        let q = PeerSyncState { search: s, probes: spec_next_u32(p.probes), ..p };
        if s.spec_is_done() {
            lemma_with_peer_wf(m, i, q.spec_released());
            let m1 = m.with_peer(i, q.spec_released());
            lemma_found_wf(m1, i, s.lo);
            let m2 = m1.found(i, s.lo);
            lemma_assign_all_wf(m2, chain, now);
            lemma_no_new_same(m, m2);
            lemma_no_new_via(m, m2, m2.assign_all(chain, now).model);
        } else if q.probes >= m.config.max_probes {
            let q2 = PeerSyncState { state: PeerSyncPhase::NewBlocksOnly, ..q.spec_released() };
            lemma_with_peer_wf(m, i, q2);
            lemma_no_new_same(m, m.with_peer(i, q2));
        } else {
            lemma_peer_wf_same_request(p, q, m.schedule);
            lemma_with_peer_wf(m, i, q);
            let m1 = m.with_peer(i, q);
            lemma_probe_wf(m1, i, now, s);
            lemma_no_new_same(m, m1);
            lemma_no_new_via(m, m1, m1.probe(i, now, s).model);
        }
    } else {
        lemma_penalize_wf(m, i);
        lemma_no_new_same(m, m.penalize(i));
    }
}

/// The answer to a request for headers keeps the state well formed.
pub proof fn lemma_on_batch_wf(
    m: SyncModel,
    chain: ChainInfo,
    now: u64,
    i: int,
    r: BlockRange,
    headers: Seq<HeaderReport>,
)
    requires
        m.wf(),
        0 <= i < m.peers.len(),
        m.peers[i].spec_header_range() == Some(r),
    ensures
        m.on_batch(chain, now, i, r, headers).model.wf(),
        no_imports(m.on_batch(chain, now, i, r, headers).actions),
        m.on_batch(chain, now, i, r, headers).model.schedule.next_import
            == m.schedule.next_import,
        no_new_peers(m, m.on_batch(chain, now, i, r, headers).model),
{
    let p = m.peers[i];
    let s = m.schedule;
    assert(peer_wf(p, s));
    if r.lo <= r.hi && valid_batch(r, headers) {
        let s2 = s.accept_headers(r, headers, p.peer_id);
        let last = r.lo + headers.len() - 1;
        assert(range_set(r.lo as int, r.hi as int).subset_of(s.requested));
        lemma_accept_headers_wf(s, r, headers, p.peer_id);
        let q = p.spec_released();
        let t = SyncModel { schedule: s2, peers: m.peers.update(i, q), ..m };
        assert forall|a: int| 0 <= a < m.peers.len() && a != i implies peer_wf(
            #[trigger] m.peers[a],
            s2,
        ) && apart(q, m.peers[a]) by {
            let o = m.peers[a];
            assert(peer_wf(o, s));
            assert(apart(o, p));
            if o.state == PeerSyncPhase::DownloadingHeaders {
                let b = o.spec_pending_range()->0;
                assert forall|x: int| b.lo <= x <= b.hi implies s2.requested.contains(x) by {
                    assert(s.requested.contains(x));
                }
            }
            if o.state == PeerSyncPhase::DownloadingBodies {
                let b = o.spec_pending_range()->0;
                assert(s.awaits_bodies(b));
                assert forall|n: u64|
                    #![trigger s2.blocks.contains_key(n)]
                    #![trigger s2.blocks[n]]
                    b.lo <= n <= b.hi implies s2.blocks.contains_key(n)
                    && !s2.blocks[n].body_ready by {
                    assert(s.blocks.contains_key(n));
                }
                assert forall|x: int| b.lo <= x <= b.hi implies !s2.wanted.contains(x) by {
                    assert(!s.wanted.contains(x));
                }
            }
            if o.state == PeerSyncPhase::DownloadingReceipts {
                let b = o.spec_pending_range()->0;
                assert(s.awaits_receipts(b));
                assert forall|n: u64|
                    #![trigger s2.blocks.contains_key(n)]
                    #![trigger s2.blocks[n]]
                    b.lo <= n <= b.hi implies s2.blocks.contains_key(n) && s2.blocks[n].body_ready
                    && !s2.blocks[n].receipts_ready by {
                    assert(s.blocks.contains_key(n));
                }
            }
        }
        assert(t.nothing_lost()) by {
            assert forall|x: int| #[trigger] s2.requested.contains(x) implies held(
                t.peers,
                PeerSyncPhase::DownloadingHeaders,
                x,
            ) by {
                assert(s.requested.contains(x));
                lemma_held_kept(m.peers, t.peers, PeerSyncPhase::DownloadingHeaders, x, i);
            }
            assert forall|n: u64|
                #![trigger s2.blocks.contains_key(n)]
                s2.blocks.contains_key(n) && !s2.blocks[n].body_ready implies s2.wanted.contains(
                n as int,
            ) || held(t.peers, PeerSyncPhase::DownloadingBodies, n as int) by {
                if !s2.wanted.contains(n as int) {
                    assert(s.blocks.contains_key(n));
                    assert(!s.wanted.contains(n as int));
                    lemma_held_kept(
                        m.peers,
                        t.peers,
                        PeerSyncPhase::DownloadingBodies,
                        n as int,
                        i,
                    );
                }
            }
            assert forall|n: u64|
                #![trigger s2.blocks.contains_key(n)]
                s2.blocks.contains_key(n) && s2.blocks[n].body_ready && !s2.blocks[n].receipts_ready
                    implies s2.receipts_wanted.contains(n as int) || held(
                t.peers,
                PeerSyncPhase::DownloadingReceipts,
                n as int,
            ) by {
                assert(s.blocks.contains_key(n));
                if !s2.receipts_wanted.contains(n as int) {
                    lemma_held_kept(
                        m.peers,
                        t.peers,
                        PeerSyncPhase::DownloadingReceipts,
                        n as int,
                        i,
                    );
                }
            }
            assert forall|x: int| #[trigger] s2.imported.contains(x) implies x < s2.next_import || (
            0 <= x <= u64::MAX && s2.blocks.contains_key(x as u64)) by {
                if r.lo <= x <= last {
                    assert(s2.blocks.contains_key(x as u64));
                } else {
                    assert(s.imported.contains(x));
                    if x >= s.next_import {
                        assert(s.blocks.contains_key(x as u64));
                    }
                }
            }
        }
        lemma_reserve_wf(m, t, i, q);
        let t2 = t.note_height(headers.last().header.number);
        lemma_same_core_wf(t, t2);
        lemma_assign_all_wf(t2, chain, now);
        lemma_no_new_same(m, t2);
        lemma_no_new_via(m, t2, t2.assign_all(chain, now).model);
    } else {
        lemma_penalize_wf(m, i);
        lemma_release_wf(m, i);
        lemma_assign_all_wf(m.penalize(i), chain, now);
        lemma_no_new_same(m, m.penalize(i));
        lemma_no_new_via(m, m.penalize(i), m.penalize(i).assign_all(chain, now).model);
    }
}

/// Headers from a peer keep the state well formed, and hand nothing over
/// for import.
pub proof fn lemma_on_headers_wf(
    m: SyncModel,
    chain: ChainInfo,
    now: u64,
    peer: PeerId,
    headers: Seq<HeaderReport>,
)
    requires
        m.wf(),
    ensures
        m.on_headers(chain, now, peer, headers).model.wf(),
        no_imports(m.on_headers(chain, now, peer, headers).actions),
        no_new_peers(m, m.on_headers(chain, now, peer, headers).model),
{
    lemma_index_from(m.peers, peer, 0);
    lemma_no_new_same(m, m);
    match m.index_of(peer) {
        None => {},
        Some(i) => {
            let p = m.peers[i];
            if p.state == PeerSyncPhase::SearchingCommonAncestor {
                match p.spec_pending_range() {
                    Some(r) => {
                        lemma_on_probe_wf(m, chain, now, i, r.lo, headers);
                    },
                    None => {
                        lemma_on_head_wf(m, chain, now, i, headers);
                    },
                }
            } else {
                match p.spec_header_range() {
                    Some(r) => {
                        lemma_on_batch_wf(m, chain, now, i, r, headers);
                    },
                    None => {},
                }
            }
        },
    }
}

/// Whether the step from `m` hands blocks over in order: its actions are
/// orders to import the blocks numbered from the next import up, each one
/// more than the one before, followed by requests to peers; and the next
/// import has moved on by the number of the orders.
pub open spec fn hands_over(m: SyncModel, step: Step) -> bool {
    exists|ready: Seq<Action>, sends: Seq<Action>|
        #![trigger ready + sends]
        {
            &&& step.actions == ready + sends
            &&& all_sends(sends)
            &&& forall|k: int|
                0 <= k < ready.len() ==> (#[trigger] ready[k] matches Action::Import { number, .. }
                    && number == m.schedule.next_import + k)
            &&& step.model.schedule.next_import == m.schedule.next_import + ready.len()
        }
}

proof fn lemma_hands_over(m: SyncModel, step: Step, ready: Seq<Action>, sends: Seq<Action>)
    requires
        step.actions == ready + sends,
        all_sends(sends),
        forall|k: int|
            0 <= k < ready.len() ==> (#[trigger] ready[k] matches Action::Import { number, .. }
                && number == m.schedule.next_import + k),
        step.model.schedule.next_import == m.schedule.next_import + ready.len(),
    ensures
        hands_over(m, step),
{
    assert(step.actions == ready + sends);
}

/// The step that does nothing hands nothing over and brings no peer.
proof fn lemma_quiet(m: SyncModel)
    ensures
        hands_over(m, Step::quiet(m)),
        no_new_peers(m, m),
{
    let none = Seq::<Action>::empty();
    assert(none =~= none + none);
    lemma_hands_over(m, Step::quiet(m), none, none);
    lemma_no_new_same(m, m);
}

/// What holds of a step from `t` holds of it as a step from `m`, where `t`
/// is `m` with another schedule that stands at the same import.
proof fn lemma_handed_on(m: SyncModel, t: SyncModel, step: Step)
    requires
        hands_over(t, step),
        no_new_peers(t, step.model),
        t.peers == m.peers,
        t.schedule.next_import == m.schedule.next_import,
    ensures
        hands_over(m, step),
        no_new_peers(m, step.model),
{
    let (ready, sends) = choose|ready: Seq<Action>, sends: Seq<Action>|
        #![trigger ready + sends]
        {
            &&& step.actions == ready + sends
            &&& all_sends(sends)
            &&& forall|k: int|
                0 <= k < ready.len() ==> (#[trigger] ready[k] matches Action::Import { number, .. }
                    && number == t.schedule.next_import + k)
            &&& step.model.schedule.next_import == t.schedule.next_import + ready.len()
        };
    lemma_hands_over(m, step, ready, sends);
    assert forall|j: int| 0 <= j < step.model.peers.len() implies has_peer(
        m.peers,
        (#[trigger] step.model.peers[j]).peer_id,
    ) by {
        assert(has_peer(t.peers, step.model.peers[j].peer_id));
    }
}

/// Whether the schedule `t` is the schedule `s` with more set aside and
/// nothing else changed: what is wanted has not grown, what is asked for
/// has not shrunk, and what is obtained and queued is the same.
pub open spec fn only_reserved(s: ScheduleModel, t: ScheduleModel) -> bool {
    &&& t.next_import == s.next_import
    &&& t.blocks == s.blocks
    &&& t.imported == s.imported
    &&& t.fast == s.fast
    &&& t.wanted.subset_of(s.wanted)
    &&& t.receipts_wanted.subset_of(s.receipts_wanted)
    &&& s.requested.subset_of(t.requested)
}

/// Giving the peer at index `k` work changes no other record, and sets
/// aside without freeing anything. A peer that may not be given work is
/// left as it is.
pub proof fn lemma_assign_leaves_others(m: SyncModel, chain: ChainInfo, now: u64, k: int, i: int)
    requires
        m.wf(),
        0 <= k < m.peers.len(),
        0 <= i < m.peers.len(),
        i != k || !m.peers[i].spec_is_eligible(),
    ensures
        m.assign(chain, now, k).model.peers.len() == m.peers.len(),
        m.assign(chain, now, k).model.peers[i] == m.peers[i],
        m.assign(chain, now, k).model.config == m.config,
        only_reserved(m.schedule, m.assign(chain, now, k).model.schedule),
{
    let p = m.peers[k];
    assert(peer_wf(p, m.schedule));
}

/// A peer that rests is left as it is when the peers are given work.
proof fn lemma_assign_from_keeps_resting(
    m: SyncModel,
    chain: ChainInfo,
    now: u64,
    from: int,
    n: int,
    i: int,
)
    requires
        m.wf(),
        0 <= from <= n == m.peers.len(),
        0 <= i < n,
        m.peers[i].resting,
        m.peers[i].reserved() is None,
    ensures
        m.assign_from(chain, now, from, n).model.peers.len() == n,
        m.assign_from(chain, now, from, n).model.peers[i] == m.peers[i],
    decreases n - from,
{
    if from < n {
        lemma_assign_wf(m, chain, now, from);
        lemma_assign_leaves_others(m, chain, now, from, i);
        lemma_assign_from_keeps_resting(m.assign(chain, now, from).model, chain, now, from + 1, n, i);
    }
}

proof fn lemma_assign_all_keeps_resting(m: SyncModel, chain: ChainInfo, now: u64, i: int)
    requires
        m.wf(),
        0 <= i < m.peers.len(),
        m.peers[i].resting,
        m.peers[i].reserved() is None,
    ensures
        m.assign_all(chain, now).model.peers.len() == m.peers.len(),
        m.assign_all(chain, now).model.peers[i] == m.peers[i],
{
    lemma_assign_from_keeps_resting(m, chain, now, 0, m.peers.len() as int, i);
}

/// Counting a failure against the peer at index `i` and giving the peers
/// work anew keeps the state well formed. Nothing is handed over for import.
pub proof fn lemma_fail_wf(m: SyncModel, chain: ChainInfo, now: u64, i: int)
    requires
        m.wf(),
        0 <= i < m.peers.len(),
    ensures
        m.penalize(i).assign_all(chain, now).model.wf(),
        all_sends(m.penalize(i).assign_all(chain, now).actions),
        hands_over(m, m.penalize(i).assign_all(chain, now)),
        no_new_peers(m, m.penalize(i).assign_all(chain, now).model),
        m.penalize(i).assign_all(chain, now).model.schedule.next_import == m.schedule.next_import,
{
    lemma_penalize_wf(m, i);
    lemma_release_wf(m, i);
    lemma_assign_all_wf(m.penalize(i), chain, now);
    let rest = m.penalize(i).assign_all(chain, now);
    let none = Seq::<Action>::empty();
    assert(rest.actions =~= none + rest.actions);
    lemma_hands_over(m, rest, none, rest.actions);
    lemma_no_new_same(m, m.penalize(i));
    lemma_no_new_via(m, m.penalize(i), rest.model);
}

/// The state in which the bodies or receipts of the peer at index `i` are
/// taken and its request is over: the state `t` with the peer's record
/// released. The blocks that are now whole are still queued.
pub open spec fn taken(t: SyncModel, i: int) -> SyncModel {
    SyncModel { peers: t.peers.update(i, t.peers[i].spec_released()), ..t }
}

/// Handing over the blocks that are whole, and giving the peers work anew,
/// keeps the state well formed. The blocks handed over are those from the
/// next import up, in ascending order, and the next import moves past them.
pub proof fn lemma_finish_wf(t: SyncModel, chain: ChainInfo, now: u64, i: int)
    requires
        0 <= i < t.peers.len(),
        taken(t, i).wf(),
    ensures
        t.finish(chain, now, i).model.wf(),
        hands_over(t, t.finish(chain, now, i)),
        no_new_peers(t, t.finish(chain, now, i).model),
{
    let m = taken(t, i);
    let s = m.schedule;
    lemma_drained_wf(s);
    lemma_ready_from_bounded(s.blocks, s.next_import);
    let s2 = s.drained();
    let d = SyncModel {
        schedule: s2,
        peers: m.peers,
        received: crate::model::capped_sum(t.received, s.ready_count()),
        ..t
    };
    assert forall|a: int| 0 <= a < d.peers.len() implies peer_wf(#[trigger] d.peers[a], s2) by {
        let o = m.peers[a];
        assert(peer_wf(o, s));
        if o.state == PeerSyncPhase::DownloadingBodies {
            let b = o.spec_pending_range()->0;
            assert(s.awaits_bodies(b));
            assert forall|n: u64|
                #![trigger s2.blocks.contains_key(n)]
                #![trigger s2.blocks[n]]
                b.lo <= n <= b.hi implies s2.blocks.contains_key(n) && !s2.blocks[n].body_ready by {
                assert(s.blocks.contains_key(n));
                assert(!whole(s.blocks[n]));
            }
        }
        if o.state == PeerSyncPhase::DownloadingReceipts {
            let b = o.spec_pending_range()->0;
            assert(s.awaits_receipts(b));
            assert forall|n: u64|
                #![trigger s2.blocks.contains_key(n)]
                #![trigger s2.blocks[n]]
                b.lo <= n <= b.hi implies s2.blocks.contains_key(n) && s2.blocks[n].body_ready
                && !s2.blocks[n].receipts_ready by {
                assert(s.blocks.contains_key(n));
                assert(!whole(s.blocks[n]));
            }
        }
    }
    assert forall|a: int, b: int| 0 <= a < b < d.peers.len() implies (#[trigger] d.peers[a]).peer_id
        != (#[trigger] d.peers[b]).peer_id by {
        assert(m.peers[a].peer_id != m.peers[b].peer_id);
    }
    assert forall|a: int, b: int|
        0 <= a < d.peers.len() && 0 <= b < d.peers.len() && a != b implies apart(
        #[trigger] d.peers[a],
        #[trigger] d.peers[b],
    ) by {
        assert(apart(m.peers[a], m.peers[b]));
    }
    assert(d.nothing_lost()) by {
        assert forall|n: u64|
            #![trigger s2.blocks.contains_key(n)]
            s2.blocks.contains_key(n) && !s2.blocks[n].body_ready implies s2.wanted.contains(
            n as int,
        ) || held(d.peers, PeerSyncPhase::DownloadingBodies, n as int) by {
            assert(s.blocks.contains_key(n));
        }
        assert forall|n: u64|
            #![trigger s2.blocks.contains_key(n)]
            s2.blocks.contains_key(n) && s2.blocks[n].body_ready && !s2.blocks[n].receipts_ready
                implies s2.receipts_wanted.contains(n as int) || held(
            d.peers,
            PeerSyncPhase::DownloadingReceipts,
            n as int,
        ) by {
            assert(s.blocks.contains_key(n));
        }
        assert forall|x: int| #[trigger] s2.imported.contains(x) implies x < s2.next_import || (0
            <= x <= u64::MAX && s2.blocks.contains_key(x as u64)) by {
            assert(s.imported.contains(x));
            if x >= s2.next_import {
                assert(s.blocks.contains_key(x as u64));
            }
        }
    }
    lemma_assign_all_wf(d, chain, now);
    let rest = d.assign_all(chain, now);
    let step = t.finish(chain, now, i);
    assert(step.actions == s.imports() + rest.actions);
    lemma_hands_over(t, step, s.imports(), rest.actions);
    lemma_no_new_same(t, d);
    lemma_no_new_via(t, d, rest.model);
}

/// Taking bodies that fit from the peer that was asked for them gives a
/// well-formed state: the blocks have their bodies and, in the fast variant,
/// want their receipts; what the peer did not send is wanted again.
pub proof fn lemma_bodies_taken_wf(m: SyncModel, i: int, r: BlockRange, count: int)
    requires
        m.wf(),
        0 <= i < m.peers.len(),
        m.peers[i].spec_body_range() == Some(r),
        1 <= count <= r.hi - r.lo + 1,
    ensures
        taken(
            SyncModel {
                schedule: m.schedule.accept_bodies(r, count, m.peers[i].peer_id),
                ..m
            },
            i,
        ).wf(),
{
    let p = m.peers[i];
    let s = m.schedule;
    assert(peer_wf(p, s));
    let s2 = s.accept_bodies(r, count, p.peer_id);
    lemma_accept_bodies_wf(s, r, count, p.peer_id);
    let q = p.spec_released();
    let t = taken(SyncModel { schedule: s2, ..m }, i);
    assert forall|a: int| 0 <= a < m.peers.len() && a != i implies peer_wf(
        #[trigger] m.peers[a],
        s2,
    ) && apart(q, m.peers[a]) by {
        let o = m.peers[a];
        assert(peer_wf(o, s));
        assert(apart(o, p));
        if o.state == PeerSyncPhase::DownloadingBodies {
            let b = o.spec_pending_range()->0;
            assert(s.awaits_bodies(b));
            assert forall|n: u64|
                #![trigger s2.blocks.contains_key(n)]
                #![trigger s2.blocks[n]]
                b.lo <= n <= b.hi implies s2.blocks.contains_key(n) && !s2.blocks[n].body_ready by {
                assert(s.blocks.contains_key(n));
            }
            assert forall|x: int| b.lo <= x <= b.hi implies !s2.wanted.contains(x) by {
                assert(!s.wanted.contains(x));
            }
        }
        if o.state == PeerSyncPhase::DownloadingReceipts {
            let b = o.spec_pending_range()->0;
            assert(s.awaits_receipts(b));
            assert forall|n: u64|
                #![trigger s2.blocks.contains_key(n)]
                #![trigger s2.blocks[n]]
                b.lo <= n <= b.hi implies s2.blocks.contains_key(n) && s2.blocks[n].body_ready
                && !s2.blocks[n].receipts_ready by {
                assert(s.blocks.contains_key(n));
            }
            assert forall|x: int| b.lo <= x <= b.hi implies !s2.receipts_wanted.contains(x) by {
                assert(!s.receipts_wanted.contains(x));
                if 0 <= x <= u64::MAX {
                    assert(s.blocks.contains_key(x as u64));
                }
            }
        }
    }
    assert(t.nothing_lost()) by {
        assert forall|x: int| #[trigger] s2.requested.contains(x) implies held(
            t.peers,
            PeerSyncPhase::DownloadingHeaders,
            x,
        ) by {
            lemma_held_kept(m.peers, t.peers, PeerSyncPhase::DownloadingHeaders, x, i);
        }
        assert forall|n: u64|
            #![trigger s2.blocks.contains_key(n)]
            s2.blocks.contains_key(n) && !s2.blocks[n].body_ready implies s2.wanted.contains(
            n as int,
        ) || held(t.peers, PeerSyncPhase::DownloadingBodies, n as int) by {
            assert(s.blocks.contains_key(n));
            if !s2.wanted.contains(n as int) {
                assert(!s.wanted.contains(n as int));
                lemma_held_kept(m.peers, t.peers, PeerSyncPhase::DownloadingBodies, n as int, i);
            }
        }
        assert forall|n: u64|
            #![trigger s2.blocks.contains_key(n)]
            s2.blocks.contains_key(n) && s2.blocks[n].body_ready && !s2.blocks[n].receipts_ready
                implies s2.receipts_wanted.contains(n as int) || held(
            t.peers,
            PeerSyncPhase::DownloadingReceipts,
            n as int,
        ) by {
            assert(s.blocks.contains_key(n));
            assert(s.block_fits(n));
            if !s2.receipts_wanted.contains(n as int) {
                assert(!s.receipts_wanted.contains(n as int));
                lemma_held_kept(
                    m.peers,
                    t.peers,
                    PeerSyncPhase::DownloadingReceipts,
                    n as int,
                    i,
                );
            }
        }
        assert forall|x: int| #[trigger] s2.imported.contains(x) implies x < s2.next_import || (0
            <= x <= u64::MAX && s2.blocks.contains_key(x as u64)) by {
            assert(s.imported.contains(x));
            if x >= s.next_import {
                assert(s.blocks.contains_key(x as u64));
            }
        }
    }
    lemma_reserve_wf(m, t, i, q);
}

/// Taking receipts that fit from the peer that was asked for them gives a
/// well-formed state: the blocks have their receipts, and what the peer did
/// not send is wanted again.
pub proof fn lemma_receipts_taken_wf(m: SyncModel, i: int, r: BlockRange, count: int)
    requires
        m.wf(),
        0 <= i < m.peers.len(),
        m.peers[i].spec_receipt_range() == Some(r),
        1 <= count <= r.hi - r.lo + 1,
    ensures
        taken(
            SyncModel {
                schedule: m.schedule.accept_receipts(r, count, m.peers[i].peer_id),
                ..m
            },
            i,
        ).wf(),
{
    let p = m.peers[i];
    let s = m.schedule;
    assert(peer_wf(p, s));
    let s2 = s.accept_receipts(r, count, p.peer_id);
    lemma_accept_receipts_wf(s, r, count, p.peer_id);
    let q = p.spec_released();
    let t = taken(SyncModel { schedule: s2, ..m }, i);
    assert forall|a: int| 0 <= a < m.peers.len() && a != i implies peer_wf(
        #[trigger] m.peers[a],
        s2,
    ) && apart(q, m.peers[a]) by {
        let o = m.peers[a];
        assert(peer_wf(o, s));
        assert(apart(o, p));
        if o.state == PeerSyncPhase::DownloadingBodies {
            let b = o.spec_pending_range()->0;
            assert(s.awaits_bodies(b));
            assert forall|n: u64|
                #![trigger s2.blocks.contains_key(n)]
                #![trigger s2.blocks[n]]
                b.lo <= n <= b.hi implies s2.blocks.contains_key(n) && !s2.blocks[n].body_ready by {
                assert(s.blocks.contains_key(n));
            }
        }
        if o.state == PeerSyncPhase::DownloadingReceipts {
            let b = o.spec_pending_range()->0;
            assert(s.awaits_receipts(b));
            assert forall|n: u64|
                #![trigger s2.blocks.contains_key(n)]
                #![trigger s2.blocks[n]]
                b.lo <= n <= b.hi implies s2.blocks.contains_key(n) && s2.blocks[n].body_ready
                && !s2.blocks[n].receipts_ready by {
                assert(s.blocks.contains_key(n));
            }
            assert forall|x: int| b.lo <= x <= b.hi implies !s2.receipts_wanted.contains(x) by {
                assert(!s.receipts_wanted.contains(x));
            }
        }
    }
    assert(t.nothing_lost()) by {
        assert forall|x: int| #[trigger] s2.requested.contains(x) implies held(
            t.peers,
            PeerSyncPhase::DownloadingHeaders,
            x,
        ) by {
            lemma_held_kept(m.peers, t.peers, PeerSyncPhase::DownloadingHeaders, x, i);
        }
        assert forall|n: u64|
            #![trigger s2.blocks.contains_key(n)]
            s2.blocks.contains_key(n) && !s2.blocks[n].body_ready implies s2.wanted.contains(
            n as int,
        ) || held(t.peers, PeerSyncPhase::DownloadingBodies, n as int) by {
            assert(s.blocks.contains_key(n));
            if !s2.wanted.contains(n as int) {
                lemma_held_kept(m.peers, t.peers, PeerSyncPhase::DownloadingBodies, n as int, i);
            }
        }
        assert forall|n: u64|
            #![trigger s2.blocks.contains_key(n)]
            s2.blocks.contains_key(n) && s2.blocks[n].body_ready && !s2.blocks[n].receipts_ready
                implies s2.receipts_wanted.contains(n as int) || held(
            t.peers,
            PeerSyncPhase::DownloadingReceipts,
            n as int,
        ) by {
            assert(s.blocks.contains_key(n));
            if !s2.receipts_wanted.contains(n as int) {
                assert(!s.receipts_wanted.contains(n as int));
                lemma_held_kept(
                    m.peers,
                    t.peers,
                    PeerSyncPhase::DownloadingReceipts,
                    n as int,
                    i,
                );
            }
        }
        assert forall|x: int| #[trigger] s2.imported.contains(x) implies x < s2.next_import || (0
            <= x <= u64::MAX && s2.blocks.contains_key(x as u64)) by {
            assert(s.imported.contains(x));
            if x >= s.next_import {
                assert(s.blocks.contains_key(x as u64));
            }
        }
    }
    lemma_reserve_wf(m, t, i, q);
}

/// Bodies from a peer keep the state well formed. What is handed over for
/// import are the blocks from the next import up, in ascending order, and
/// the next import moves past them.
pub proof fn lemma_on_bodies_wf(
    m: SyncModel,
    chain: ChainInfo,
    now: u64,
    peer: PeerId,
    bodies: Seq<BlockBody>,
)
    requires
        m.wf(),
    ensures
        m.on_bodies(chain, now, peer, bodies).model.wf(),
        hands_over(m, m.on_bodies(chain, now, peer, bodies)),
        no_new_peers(m, m.on_bodies(chain, now, peer, bodies).model),
{
    lemma_index_from(m.peers, peer, 0);
    lemma_quiet(m);
    match m.index_of(peer) {
        None => {},
        Some(i) => match m.peers[i].spec_body_range() {
            None => {},
            Some(r) => {
                if r.lo <= r.hi && m.schedule.bodies_match(r, bodies) {
                    let t = SyncModel {
                        schedule: m.schedule.accept_bodies(r, bodies.len() as int, peer),
                        ..m
                    };
                    lemma_bodies_taken_wf(m, i, r, bodies.len() as int);
                    lemma_finish_wf(t, chain, now, i);
                    lemma_handed_on(m, t, t.finish(chain, now, i));
                } else {
                    lemma_fail_wf(m, chain, now, i);
                }
            },
        },
    }
}

/// Receipts from a peer keep the state well formed. What is handed over
/// for import are the blocks from the next import up, in ascending order,
/// and the next import moves past them.
pub proof fn lemma_on_receipts_wf(
    m: SyncModel,
    chain: ChainInfo,
    now: u64,
    peer: PeerId,
    receipts: Seq<BlockReceipts>,
)
    requires
        m.wf(),
    ensures
        m.on_receipts(chain, now, peer, receipts).model.wf(),
        hands_over(m, m.on_receipts(chain, now, peer, receipts)),
        no_new_peers(m, m.on_receipts(chain, now, peer, receipts).model),
{
    lemma_index_from(m.peers, peer, 0);
    lemma_quiet(m);
    match m.index_of(peer) {
        None => {},
        Some(i) => match m.peers[i].spec_receipt_range() {
            None => {},
            Some(r) => {
                if r.lo <= r.hi && m.schedule.receipts_match(r, receipts) {
                    let t = SyncModel {
                        schedule: m.schedule.accept_receipts(r, receipts.len() as int, peer),
                        ..m
                    };
                    lemma_receipts_taken_wf(m, i, r, receipts.len() as int);
                    lemma_finish_wf(t, chain, now, i);
                    lemma_handed_on(m, t, t.finish(chain, now, i));
                } else {
                    lemma_fail_wf(m, chain, now, i);
                }
            },
        },
    }
}

/// Bytes that stand for no packet keep the state well formed: they cost
/// the peer a failure and hand nothing over for import.
pub proof fn lemma_on_malformed_wf(m: SyncModel, chain: ChainInfo, now: u64, peer: PeerId)
    requires
        m.wf(),
    ensures
        m.on_malformed(chain, now, peer).model.wf(),
        hands_over(m, m.on_malformed(chain, now, peer)),
        no_imports(m.on_malformed(chain, now, peer).actions),
        no_new_peers(m, m.on_malformed(chain, now, peer).model),
        m.on_malformed(chain, now, peer).model.schedule.next_import == m.schedule.next_import,
        m.index_of(peer) matches Some(i) ==> ({
            let t = m.on_malformed(chain, now, peer).model;
            &&& t.peers.len() == m.peers.len()
            &&& t.peers[i].peer_id == peer
            &&& t.peers[i].failures == spec_next_u32(m.peers[i].failures)
            &&& t.peers[i].resting
        }),
{
    lemma_index_from(m.peers, peer, 0);
    lemma_quiet(m);
    match m.index_of(peer) {
        None => {},
        Some(i) => {
            lemma_fail_wf(m, chain, now, i);
            lemma_penalize_wf(m, i);
            lemma_assign_all_keeps_resting(m.penalize(i), chain, now, i);
        },
    }
}

/// An announcement of a block keeps the state well formed.
pub proof fn lemma_on_new_block_wf(
    m: SyncModel,
    chain: ChainInfo,
    now: u64,
    peer: PeerId,
    header: BlockHeader,
    total_difficulty: U256,
    known: bool,
)
    requires
        m.wf(),
    ensures
        m.on_new_block(chain, now, peer, header, total_difficulty, known).model.wf(),
        no_imports(m.on_new_block(chain, now, peer, header, total_difficulty, known).actions),
        m.on_new_block(chain, now, peer, header, total_difficulty, known).model.schedule.next_import
            == m.schedule.next_import,
        no_new_peers(m, m.on_new_block(chain, now, peer, header, total_difficulty, known).model),
{
    lemma_index_from(m.peers, peer, 0);
    lemma_no_new_same(m, m);
    match m.index_of(peer) {
        None => {},
        Some(i) => {
            let p = m.peers[i];
            assert(peer_wf(p, m.schedule));
            if p.admitted {
                let q = PeerSyncState {
                    total_difficulty,
                    ..p.spec_announce(header.hash, header.number, known)
                };
                lemma_with_peer_wf(m, i, q);
                let m1 = m.with_peer(i, q);
                let m2 = m1.note_height(header.number);
                lemma_same_core_wf(m1, m2);
                lemma_assign_wf(m2, chain, now, i);
                lemma_no_new_same(m, m2);
                lemma_no_new_via(m, m2, m2.assign(chain, now, i).model);
            }
        },
    }
}

/// An announcement of hashes keeps the state well formed.
pub proof fn lemma_on_new_hashes_wf(
    m: SyncModel,
    chain: ChainInfo,
    now: u64,
    peer: PeerId,
    anns: Seq<Announcement>,
)
    requires
        m.wf(),
    ensures
        m.on_new_hashes(chain, now, peer, anns).model.wf(),
        no_imports(m.on_new_hashes(chain, now, peer, anns).actions),
        m.on_new_hashes(chain, now, peer, anns).model.schedule.next_import
            == m.schedule.next_import,
        no_new_peers(m, m.on_new_hashes(chain, now, peer, anns).model),
{
    lemma_index_from(m.peers, peer, 0);
    lemma_no_new_same(m, m);
    match m.index_of(peer) {
        None => {},
        Some(i) => {
            let p = m.peers[i];
            assert(peer_wf(p, m.schedule));
            if p.admitted {
                match crate::model::highest_news(anns, anns.len() as int) {
                    None => {},
                    Some(a) => {
                        let q = p.spec_announce(a.hash, a.number, false);
                        lemma_with_peer_wf(m, i, q);
                        let m1 = m.with_peer(i, q);
                        let m2 = m1.note_height(a.number);
                        lemma_same_core_wf(m1, m2);
                        lemma_assign_wf(m2, chain, now, i);
                        lemma_no_new_same(m, m2);
                        lemma_no_new_via(m, m2, m2.assign(chain, now, i).model);
                    },
                }
            }
        },
    }
}

/// The end of a connection keeps the state well formed, and the peer is
/// gone from it.
pub proof fn lemma_disconnect_wf(m: SyncModel, chain: ChainInfo, now: u64, peer: PeerId)
    requires
        m.wf(),
    ensures
        m.disconnect(chain, now, peer).model.wf(),
        no_imports(m.disconnect(chain, now, peer).actions),
        m.disconnect(chain, now, peer).model.schedule.next_import == m.schedule.next_import,
        forall|j: int|
            0 <= j < m.disconnect(chain, now, peer).model.peers.len() ==> (#[trigger] m.disconnect(
                chain,
                now,
                peer,
            ).model.peers[j]).peer_id != peer,
        no_new_peers(m, m.disconnect(chain, now, peer).model),
{
    lemma_index_from(m.peers, peer, 0);
    lemma_no_new_same(m, m);
    match m.index_of(peer) {
        None => {},
        Some(i) => {
            lemma_release_wf(m, i);
            lemma_without_peer_wf(m.release(i), i);
            let t = m.release(i).without_peer(i);
            lemma_assign_all_wf(t, chain, now);
            let step = t.assign_all(chain, now);
            lemma_no_new_same(m, m.release(i));
            lemma_no_new_removed(m, m.release(i), i);
            lemma_no_new_via(m, t, step.model);
            assert forall|j: int| 0 <= j < step.model.peers.len() implies (
            #[trigger] step.model.peers[j]).peer_id != peer by {
                assert(t.peers[j].peer_id == step.model.peers[j].peer_id);
                assert(t.peers[j].peer_id != m.release(i).peers[i].peer_id);
            }
        },
    }
}

/// The maintenance of one record keeps the state well formed.
pub proof fn lemma_sweep_peer_wf(m: SyncModel, now: u64, i: int)
    requires
        m.wf(),
        0 <= i < m.peers.len(),
    ensures
        m.sweep_peer(now, i).wf(),
        m.sweep_peer(now, i).schedule.next_import == m.schedule.next_import,
        m.sweep_peer(now, i).peers.len() == if m.drops(now, i) {
            m.peers.len() - 1
        } else {
            m.peers.len() as int
        },
        no_new_peers(m, m.sweep_peer(now, i)),
{
    let p = m.peers[i];
    assert(peer_wf(p, m.schedule));
    lemma_release_wf(m, i);
    lemma_no_new_same(m, m);
    if m.drops(now, i) {
        lemma_without_peer_wf(m.release(i), i);
        lemma_no_new_same(m, m.release(i));
        lemma_no_new_removed(m, m.release(i), i);
    } else if !p.admitted {
    } else if p.spec_timed_out(now, m.config.request_timeout) {
        lemma_penalize_wf(m, i);
        lemma_no_new_same(m, m.penalize(i));
    } else {
        let q = PeerSyncState { resting: false, ..p };
        lemma_peer_wf_same_request(p, q, m.schedule);
        lemma_with_peer_wf(m, i, q);
        lemma_no_new_same(m, m.with_peer(i, q));
    }
}

/// The maintenance of the records keeps the state well formed. It drops
/// peers and does nothing else to the outside.
pub proof fn lemma_sweep_wf(m: SyncModel, now: u64, i: int, left: nat)
    requires
        m.wf(),
        0 <= i,
    ensures
        m.sweep(now, i, left).model.wf(),
        m.sweep(now, i, left).model.schedule.next_import == m.schedule.next_import,
        forall|k: int|
            0 <= k < m.sweep(now, i, left).actions.len() ==> #[trigger] m.sweep(
                now,
                i,
                left,
            ).actions[k] is Disconnect,
        no_new_peers(m, m.sweep(now, i, left).model),
    decreases left,
{
    if left == 0 || i >= m.peers.len() {
        lemma_no_new_same(m, m);
    } else {
        lemma_sweep_peer_wf(m, now, i);
        let t = m.sweep_peer(now, i);
        let next = if m.drops(now, i) {
            i
        } else {
            i + 1
        };
        lemma_sweep_wf(t, now, next, (left - 1) as nat);
        let last = t.sweep(now, next, (left - 1) as nat).model;
        assert forall|j: int| 0 <= j < last.peers.len() implies has_peer(
            m.peers,
            (#[trigger] last.peers[j]).peer_id,
        ) by {
            let k = choose|k: int|
                0 <= k < t.peers.len() && (#[trigger] t.peers[k]).peer_id == last.peers[j].peer_id;
            assert(has_peer(m.peers, t.peers[k].peer_id));
        }
        if m.drops(now, i) {
            let rest = t.sweep(now, i, (left - 1) as nat);
            let head = seq![Action::Disconnect { peer: m.peers[i].peer_id }];
            let whole = rest.after(head);
            assert forall|k: int| 0 <= k < whole.actions.len() implies #[trigger] whole.actions[k] is Disconnect by {
                if k >= 1 {
                    assert(rest.actions[k - 1] is Disconnect);
                }
            }
        }
    }
}

/// Looking at the peers again keeps the state well formed. It changes no
/// request and nothing of the schedule.
pub proof fn lemma_rescan_wf(m: SyncModel, chain: ChainInfo)
    requires
        m.wf(),
    ensures
        m.rescan(chain).wf(),
        m.rescan(chain).schedule == m.schedule,
        m.rescan(chain).config == m.config,
        same_peers(m.peers, m.rescan(chain).peers),
        forall|j: int|
            0 <= j < m.peers.len() ==> (#[trigger] m.rescan(chain).peers[j]).pending_request
                == m.peers[j].pending_request,
{
    let t = m.rescan(chain);
    assert forall|a: int| 0 <= a < t.peers.len() implies peer_wf(#[trigger] t.peers[a], t.schedule) by {
        assert(peer_wf(m.peers[a], m.schedule));
    }
    assert forall|a: int, b: int| 0 <= a < b < t.peers.len() implies (#[trigger] t.peers[a]).peer_id
        != (#[trigger] t.peers[b]).peer_id by {
        assert(m.peers[a].peer_id != m.peers[b].peer_id);
    }
    assert forall|a: int, b: int|
        0 <= a < t.peers.len() && 0 <= b < t.peers.len() && a != b implies apart(
        #[trigger] t.peers[a],
        #[trigger] t.peers[b],
    ) by {
        assert(apart(m.peers[a], m.peers[b]));
    }
    assert forall|phase: PeerSyncPhase, x: int|
        (phase == PeerSyncPhase::DownloadingHeaders || phase == PeerSyncPhase::DownloadingBodies
            || phase == PeerSyncPhase::DownloadingReceipts) && held(m.peers, phase, x)
            implies #[trigger] held(t.peers, phase, x) by {
        let k = choose|k: int| 0 <= k < m.peers.len() && holds(#[trigger] m.peers[k], phase, x);
        assert(holds(t.peers[k], phase, x));
    }
}

/// A round of maintenance keeps the state well formed, and hands nothing
/// over for import.
pub proof fn lemma_tick_wf(m: SyncModel, chain: ChainInfo, now: u64)
    requires
        m.wf(),
    ensures
        m.tick(chain, now).model.wf(),
        no_imports(m.tick(chain, now).actions),
        m.tick(chain, now).model.schedule.next_import == m.schedule.next_import,
        no_new_peers(m, m.tick(chain, now).model),
{
    lemma_sweep_wf(m, now, 0, m.peers.len());
    let swept = m.sweep(now, 0, m.peers.len());
    lemma_rescan_wf(swept.model, chain);
    let scanned = swept.model.rescan(chain);
    lemma_assign_all_wf(scanned, chain, now);
    let rest = scanned.assign_all(chain, now);
    let whole = rest.after(swept.actions);
    lemma_no_new_via(m, swept.model, scanned);
    lemma_no_new_via(m, scanned, rest.model);
    assert forall|k: int| 0 <= k < whole.actions.len() implies !(#[trigger] whole.actions[k] is Import) by {
        if k < swept.actions.len() {
            assert(swept.actions[k] is Disconnect);
        } else {
            assert(rest.actions[k - swept.actions.len()] is Send);
        }
    }
}

/// An abort keeps the state well formed and leaves no request under way.
pub proof fn lemma_abort_wf(m: SyncModel)
    requires
        m.wf(),
    ensures
        m.abort().wf(),
        m.abort().schedule == ScheduleModel::empty(m.schedule.next_import, m.schedule.fast),
        forall|j: int|
            0 <= j < m.abort().peers.len() ==> (#[trigger] m.abort().peers[j]).state
                == PeerSyncPhase::Aborted && m.abort().peers[j].pending_request is None,
        no_new_peers(m, m.abort()),
{
    let t = m.abort();
    lemma_empty_wf(m.schedule.next_import, m.schedule.fast);
    lemma_no_new_same(m, t);
    assert forall|a: int, b: int| 0 <= a < b < t.peers.len() implies (#[trigger] t.peers[a]).peer_id
        != (#[trigger] t.peers[b]).peer_id by {
        assert(m.peers[a].peer_id != m.peers[b].peer_id);
    }
}

/// A restart keeps the state well formed.
pub proof fn lemma_restart_wf(m: SyncModel, chain: ChainInfo, now: u64)
    requires
        m.wf(),
    ensures
        m.restart(chain, now).model.wf(),
        no_imports(m.restart(chain, now).actions),
        no_new_peers(m, m.restart(chain, now).model),
{
    let t = SyncModel {
        schedule: ScheduleModel::empty(spec_next_u64(chain.best_number), m.schedule.fast),
        peers: restart_all(m.peers),
        starting_block: chain.best_number,
        highest_block: crate::model::higher(m.highest_block, chain.best_number),
        received: 0,
        ..m
    };
    lemma_empty_wf(spec_next_u64(chain.best_number), m.schedule.fast);
    assert forall|a: int, b: int| 0 <= a < b < t.peers.len() implies (#[trigger] t.peers[a]).peer_id
        != (#[trigger] t.peers[b]).peer_id by {
        assert(m.peers[a].peer_id != m.peers[b].peer_id);
    }
    assert forall|a: int| 0 <= a < t.peers.len() implies peer_wf(#[trigger] t.peers[a], t.schedule) by {
        assert(peer_wf(m.peers[a], m.schedule));
    }
    lemma_assign_all_wf(t, chain, now);
    lemma_no_new_same(m, t);
    lemma_no_new_via(m, t, t.assign_all(chain, now).model);
}

/// The refusal of a block keeps the state well formed, and hands nothing
/// over for import.
pub proof fn lemma_import_rejected_wf(
    m: SyncModel,
    chain: ChainInfo,
    now: u64,
    number: u64,
    peer: PeerId,
)
    requires
        m.wf(),
    ensures
        m.import_rejected(chain, now, number, peer).model.wf(),
        no_imports(m.import_rejected(chain, now, number, peer).actions),
        no_new_peers(m, m.import_rejected(chain, now, number, peer).model),
{
    lemma_index_from(m.peers, peer, 0);
    let start = spec_next_u64(chain.best_number);
    lemma_no_new_same(m, m);
    if number < m.schedule.next_import {
        match m.index_of(peer) {
            None => {
                lemma_reset_plan_wf(m, start);
                lemma_assign_all_wf(m.reset_plan(start), chain, now);
                lemma_no_new_same(m, m.reset_plan(start));
                lemma_no_new_via(
                    m,
                    m.reset_plan(start),
                    m.reset_plan(start).assign_all(chain, now).model,
                );
            },
            Some(i) => {
                lemma_release_wf(m, i);
                lemma_without_peer_wf(m.release(i), i);
                let t = m.release(i).without_peer(i);
                lemma_reset_plan_wf(t, start);
                lemma_assign_all_wf(t.reset_plan(start), chain, now);
                let rest = t.reset_plan(start).assign_all(chain, now);
                lemma_no_new_same(m, m.release(i));
                lemma_no_new_removed(m, m.release(i), i);
                lemma_no_new_via(m, t, t.reset_plan(start));
                lemma_no_new_via(m, t.reset_plan(start), rest.model);
                let whole = rest.after(seq![Action::Disconnect { peer }]);
                assert forall|k: int| 0 <= k < whole.actions.len() implies !(
                #[trigger] whole.actions[k] is Import) by {
                    if k >= 1 {
                        assert(rest.actions[k - 1] is Send);
                    }
                }
            },
        }
    }
}

/// A packet keeps the state well formed.
pub proof fn lemma_on_packet_wf(m: SyncModel, chain: ChainInfo, now: u64, peer: PeerId, packet: Packet)
    requires
        m.wf(),
    ensures
        m.on_packet(chain, now, peer, packet).model.wf(),
        no_new_peers(m, m.on_packet(chain, now, peer, packet).model),
{
    match packet {
        Packet::Status(msg) => {
            lemma_on_status_wf(m, chain, now, peer, msg);
        },
        Packet::BlockHeaders(headers) => {
            lemma_on_headers_wf(m, chain, now, peer, headers@);
        },
        Packet::BlockBodies(bodies) => {
            lemma_on_bodies_wf(m, chain, now, peer, bodies@);
        },
        Packet::Receipts(receipts) => {
            lemma_on_receipts_wf(m, chain, now, peer, receipts@);
        },
        Packet::NewBlockHashes(anns) => {
            lemma_on_new_hashes_wf(m, chain, now, peer, anns@);
        },
        Packet::NewBlock { header, total_difficulty, known } => {
            lemma_on_new_block_wf(m, chain, now, peer, header, total_difficulty, known);
        },
        Packet::Other(_) => {
            lemma_no_new_same(m, m);
        },
        Packet::Malformed => {
            lemma_on_malformed_wf(m, chain, now, peer);
        },
    }
}

/// Every event keeps the state well formed.
pub proof fn lemma_apply_wf(m: SyncModel, chain: ChainInfo, now: u64, event: Event)
    requires
        m.wf(),
    ensures
        m.apply(chain, now, event).model.wf(),
{
    match event {
        Event::Connected { peer } => {
            lemma_connect_wf(m, chain, now, peer);
        },
        Event::Received { peer, packet } => {
            lemma_on_packet_wf(m, chain, now, peer, packet);
        },
        Event::Disconnected { peer } => {
            lemma_disconnect_wf(m, chain, now, peer);
        },
        Event::Timer => {
            lemma_tick_wf(m, chain, now);
        },
        Event::Abort => {
            lemma_abort_wf(m);
        },
        Event::Restart => {
            lemma_restart_wf(m, chain, now);
        },
        Event::ImportFailed { number, peer } => {
            lemma_import_rejected_wf(m, chain, now, number, peer);
        },
    }
}

/// One event of a run: what happened, when, and beside which local chain.
pub struct Moment {
    pub chain: ChainInfo,
    pub now: u64,
    pub event: Event,
}

/// The state after the events `run`, in their order, from the state `m`.
pub open spec fn state_after(m: SyncModel, run: Seq<Moment>) -> SyncModel
    decreases run.len(),
{
    if run.len() == 0 {
        m
    } else {
        let last = run.last();
        state_after(m, run.drop_last()).apply(last.chain, last.now, last.event).model
    }
}

/// At every point of every run the state is well formed.
pub proof fn lemma_every_run_is_wf(config: SyncConfig, best_number: u64, run: Seq<Moment>)
    ensures
        state_after(SyncModel::initial(config, best_number), run).wf(),
    decreases run.len(),
{
    if run.len() == 0 {
        lemma_initial_wf(config, best_number);
    } else {
        lemma_every_run_is_wf(config, best_number, run.drop_last());
        let last = run.last();
        lemma_apply_wf(
            state_after(SyncModel::initial(config, best_number), run.drop_last()),
            last.chain,
            last.now,
            last.event,
        );
    }
}

/// No block number is set aside for two peers at once: in a well-formed
/// state, a number that is set aside for one peer is set aside for no other.
pub proof fn lemma_no_duplicate_assignment(m: SyncModel, i: int, j: int, x: int)
    requires
        m.wf(),
        0 <= i < m.peers.len(),
        0 <= j < m.peers.len(),
        i != j,
        m.peers[i].reservation().contains(x),
    ensures
        !m.peers[j].reservation().contains(x),
{
    assert(apart(m.peers[i], m.peers[j]));
}

/// At every point of every run, no block number is set aside for two peers
/// at once.
pub proof fn lemma_no_duplicate_assignment_in_any_run(
    config: SyncConfig,
    best_number: u64,
    run: Seq<Moment>,
    i: int,
    j: int,
    x: int,
)
    requires
        0 <= i < state_after(SyncModel::initial(config, best_number), run).peers.len(),
        0 <= j < state_after(SyncModel::initial(config, best_number), run).peers.len(),
        i != j,
        state_after(SyncModel::initial(config, best_number), run).peers[i].reservation().contains(x),
    ensures
        !state_after(SyncModel::initial(config, best_number), run).peers[j].reservation().contains(
            x,
        ),
{
    lemma_every_run_is_wf(config, best_number, run);
    lemma_no_duplicate_assignment(state_after(SyncModel::initial(config, best_number), run), i, j, x);
}

/// What is set aside for a peer is marked in the schedule: headers as asked
/// for, bodies as those of queued headers that have none, receipts as those
/// of queued blocks that have their bodies and lack them.
pub proof fn lemma_reservation_is_scheduled(m: SyncModel, i: int, x: int)
    requires
        m.wf(),
        0 <= i < m.peers.len(),
        m.peers[i].reservation().contains(x),
    ensures
        m.peers[i].state == PeerSyncPhase::DownloadingHeaders ==> m.schedule.requested.contains(x)
            && !m.schedule.imported.contains(x),
        m.peers[i].state == PeerSyncPhase::DownloadingBodies ==> 0 <= x <= u64::MAX
            && m.schedule.blocks.contains_key(x as u64) && !m.schedule.blocks[x as u64].body_ready
            && m.schedule.imported.contains(x),
        m.peers[i].state == PeerSyncPhase::DownloadingReceipts ==> 0 <= x <= u64::MAX
            && m.schedule.blocks.contains_key(x as u64) && m.schedule.blocks[x as u64].body_ready
            && !m.schedule.blocks[x as u64].receipts_ready && m.schedule.imported.contains(x),
        x >= m.schedule.next_import,
{
    let p = m.peers[i];
    assert(peer_wf(p, m.schedule));
    let r = p.spec_pending_range()->0;
    if p.state == PeerSyncPhase::DownloadingHeaders {
        assert(m.schedule.requested.contains(x));
    }
    if p.state == PeerSyncPhase::DownloadingBodies {
        assert(m.schedule.awaits_bodies(r));
        assert(m.schedule.blocks.contains_key(x as u64));
        assert(m.schedule.block_fits(x as u64));
    }
    if p.state == PeerSyncPhase::DownloadingReceipts {
        assert(m.schedule.awaits_receipts(r));
        assert(m.schedule.blocks.contains_key(x as u64));
        assert(m.schedule.block_fits(x as u64));
    }
}

/// Whether `actions` begins with orders to import the blocks numbered from
/// `start` up, each one more than the one before, and holds no other order
/// to import; `count` is the number of those orders.
pub open spec fn imports_ascend_from(actions: Seq<Action>, start: int, count: int) -> bool {
    &&& 0 <= count <= actions.len()
    &&& forall|k: int|
        0 <= k < count ==> (#[trigger] actions[k] matches Action::Import { number, .. } && number
            == start + k)
    &&& forall|k: int| count <= k < actions.len() ==> !(#[trigger] actions[k] is Import)
}

proof fn lemma_handed_over_ascends(m: SyncModel, step: Step)
    requires
        hands_over(m, step),
    ensures
        exists|count: int|
            {
                &&& #[trigger] imports_ascend_from(
                    step.actions,
                    m.schedule.next_import as int,
                    count,
                )
                &&& count > 0 ==> step.model.schedule.next_import == m.schedule.next_import + count
            },
{
    let start = m.schedule.next_import as int;
    let (ready, sends) = choose|ready: Seq<Action>, sends: Seq<Action>|
        #![trigger ready + sends]
        {
            &&& step.actions == ready + sends
            &&& all_sends(sends)
            &&& forall|k: int|
                0 <= k < ready.len() ==> (#[trigger] ready[k] matches Action::Import { number, .. }
                    && number == m.schedule.next_import + k)
            &&& step.model.schedule.next_import == m.schedule.next_import + ready.len()
        };
    let count = ready.len() as int;
    assert forall|k: int| 0 <= k < count implies (#[trigger] step.actions[k] matches Action::Import {
        number,
        ..
    } && number == start + k) by {
        assert(step.actions[k] == ready[k]);
    }
    assert forall|k: int| count <= k < step.actions.len() implies !(
    #[trigger] step.actions[k] is Import) by {
        assert(step.actions[k] == sends[k - count]);
        assert(sends[k - count] is Send);
    }
    assert(imports_ascend_from(step.actions, start, count));
}

/// Blocks are handed over for import in ascending order. The orders to
/// import that an event gives carry the numbers from the next import up,
/// without a gap; and where it gives any, the next import moves on by their
/// count, so that the orders of the next event go on where these end.
pub proof fn lemma_imports_in_order(m: SyncModel, chain: ChainInfo, now: u64, event: Event)
    requires
        m.wf(),
    ensures
        exists|count: int|
            {
                &&& #[trigger] imports_ascend_from(
                    m.apply(chain, now, event).actions,
                    m.schedule.next_import as int,
                    count,
                )
                &&& count > 0 ==> m.apply(chain, now, event).model.schedule.next_import
                    == m.schedule.next_import + count
            },
{
    let step = m.apply(chain, now, event);
    let start = m.schedule.next_import as int;
    match event {
        Event::Connected { peer } => {
            assert(imports_ascend_from(step.actions, start, 0));
        },
        Event::Received { peer, packet } => {
            match packet {
                Packet::Status(msg) => {
                    lemma_on_status_wf(m, chain, now, peer, msg);
                    assert(imports_ascend_from(step.actions, start, 0));
                },
                Packet::BlockHeaders(headers) => {
                    lemma_on_headers_wf(m, chain, now, peer, headers@);
                    assert(imports_ascend_from(step.actions, start, 0));
                },
                Packet::BlockBodies(bodies) => {
                    lemma_on_bodies_wf(m, chain, now, peer, bodies@);
                    lemma_handed_over_ascends(m, step);
                },
                Packet::Receipts(receipts) => {
                    lemma_on_receipts_wf(m, chain, now, peer, receipts@);
                    lemma_handed_over_ascends(m, step);
                },
                Packet::NewBlockHashes(anns) => {
                    lemma_on_new_hashes_wf(m, chain, now, peer, anns@);
                    assert(imports_ascend_from(step.actions, start, 0));
                },
                Packet::NewBlock { header, total_difficulty, known } => {
                    lemma_on_new_block_wf(m, chain, now, peer, header, total_difficulty, known);
                    assert(imports_ascend_from(step.actions, start, 0));
                },
                Packet::Other(_) => {
                    assert(imports_ascend_from(step.actions, start, 0));
                },
                Packet::Malformed => {
                    lemma_on_malformed_wf(m, chain, now, peer);
                    assert(imports_ascend_from(step.actions, start, 0));
                },
            }
        },
        Event::Disconnected { peer } => {
            lemma_disconnect_wf(m, chain, now, peer);
            assert(imports_ascend_from(step.actions, start, 0));
        },
        Event::Timer => {
            lemma_tick_wf(m, chain, now);
            assert(imports_ascend_from(step.actions, start, 0));
        },
        Event::Abort => {
            assert(imports_ascend_from(step.actions, start, 0));
        },
        Event::Restart => {
            lemma_restart_wf(m, chain, now);
            assert(imports_ascend_from(step.actions, start, 0));
        },
        Event::ImportFailed { number, peer } => {
            lemma_import_rejected_wf(m, chain, now, number, peer);
            assert(imports_ascend_from(step.actions, start, 0));
        },
    }
}

/// The next import never moves back, but where the download is begun anew:
/// by an answer to a probe that shows a fork, by a restart, or after the
/// refusal of a block.
pub proof fn lemma_next_import_moves_on(m: SyncModel, chain: ChainInfo, now: u64, event: Event)
    requires
        m.wf(),
        !(event is Restart),
        !(event is ImportFailed),
        !(event matches Event::Received { packet, .. } && packet is BlockHeaders),
    ensures
        m.apply(chain, now, event).model.schedule.next_import >= m.schedule.next_import,
{
    match event {
        Event::Connected { peer } => {},
        Event::Received { peer, packet } => {
            match packet {
                Packet::Status(msg) => {
                    lemma_index_from(m.peers, peer, 0);
                    match m.index_of(peer) {
                        None => {},
                        Some(i) => {
                            let p = m.peers[i];
                            assert(peer_wf(p, m.schedule));
                            if !p.admitted && compatible(m.config, chain, msg) {
                                lemma_with_peer_wf(m, i, p.spec_with_status(msg));
                                lemma_assign_wf(
                                    m.with_peer(i, p.spec_with_status(msg)),
                                    chain,
                                    now,
                                    i,
                                );
                            }
                        },
                    }
                },
                Packet::BlockHeaders(headers) => {},
                Packet::BlockBodies(bodies) => {
                    lemma_on_bodies_wf(m, chain, now, peer, bodies@);
                },
                Packet::Receipts(receipts) => {
                    lemma_on_receipts_wf(m, chain, now, peer, receipts@);
                },
                Packet::NewBlockHashes(anns) => {
                    lemma_on_new_hashes_wf(m, chain, now, peer, anns@);
                },
                Packet::NewBlock { header, total_difficulty, known } => {
                    lemma_on_new_block_wf(m, chain, now, peer, header, total_difficulty, known);
                },
                Packet::Other(_) => {},
                Packet::Malformed => {
                    lemma_on_malformed_wf(m, chain, now, peer);
                },
            }
        },
        Event::Disconnected { peer } => {
            lemma_disconnect_wf(m, chain, now, peer);
        },
        Event::Timer => {
            lemma_tick_wf(m, chain, now);
        },
        Event::Abort => {},
        Event::Restart => {},
        Event::ImportFailed { number, peer } => {},
    }
}

/// A peer whose handshake does not fit the local chain is dropped for good:
/// the one action is to disable it, and no record of it is left, so that
/// nothing is ever set aside for it or asked of it.
pub proof fn lemma_incompatible_peer_is_rejected(
    m: SyncModel,
    chain: ChainInfo,
    now: u64,
    peer: PeerId,
    msg: StatusMessage,
)
    requires
        m.wf(),
        m.index_of(peer) matches Some(i) && !m.peers[i].admitted,
        !compatible(m.config, chain, msg),
    ensures
        m.on_status(chain, now, peer, msg).actions == seq![Action::Disable { peer }],
        m.on_status(chain, now, peer, msg).model.index_of(peer) is None,
        forall|j: int|
            0 <= j < m.on_status(chain, now, peer, msg).model.peers.len() ==> (
            #[trigger] m.on_status(chain, now, peer, msg).model.peers[j]).peer_id != peer,
        m.on_status(chain, now, peer, msg).model.schedule == m.schedule,
{
    lemma_index_from(m.peers, peer, 0);
    let i = m.index_of(peer)->0;
    lemma_without_peer_wf(m, i);
    let t = m.without_peer(i);
    lemma_index_from(t.peers, peer, 0);
    if t.index_of(peer) is Some {
        let k = t.index_of(peer)->0;
        assert(t.peers[k].peer_id != m.peers[i].peer_id);
    }
}

/// A peer whose handshake names the local genesis block and the local
/// network is admitted, whatever else the handshake says: its record stays,
/// with what the handshake said of it, and nothing closes its connection. If
/// its total difficulty is higher than the local one, it is asked for one
/// header, its best, and the search for the common ancestor has begun. Else
/// it is asked for nothing and kept for new blocks only.
pub proof fn lemma_compatible_peer_is_admitted(
    m: SyncModel,
    chain: ChainInfo,
    now: u64,
    peer: PeerId,
    msg: StatusMessage,
)
    requires
        m.wf(),
        m.index_of(peer) matches Some(i) && m.peers[i] == PeerSyncState::spec_connected(
            peer,
            m.peers[i].connected_at,
        ),
        msg.genesis_hash == chain.genesis_hash,
        msg.network_id == m.config.network_id,
    ensures
        ({
            let step = m.on_status(chain, now, peer, msg);
            let i = m.index_of(peer)->0;
            let q = step.model.peers[i];
            &&& step.model.index_of(peer) == Some(i)
            &&& step.model.peers.len() == m.peers.len()
            &&& q.peer_id == peer
            &&& q.admitted
            &&& q.protocol_version == msg.protocol_version
            &&& q.total_difficulty == msg.total_difficulty
            &&& q.best_hash == msg.best_hash
            &&& q.genesis_hash == msg.genesis_hash
            &&& step.model.schedule == m.schedule
            &&& msg.total_difficulty.value() > chain.total_difficulty.value() ==> {
                &&& q.state == PeerSyncPhase::SearchingCommonAncestor
                &&& q.asking_hash == Some(msg.best_hash)
                &&& step.actions == seq![
                    Action::Send {
                        peer,
                        request: crate::io::Request::HeaderByHash { hash: msg.best_hash },
                    },
                ]
            }
            &&& msg.total_difficulty.value() <= chain.total_difficulty.value() ==> {
                &&& q.state == PeerSyncPhase::NewBlocksOnly
                &&& q.pending_request is None
                &&& step.actions == Seq::<Action>::empty()
            }
        }),
{
    lemma_index_from(m.peers, peer, 0);
    let i = m.index_of(peer)->0;
    let step = m.on_status(chain, now, peer, msg);
    lemma_index_from(step.model.peers, peer, 0);
    assert(step.model.peers[i].peer_id == peer);
    if step.model.index_of(peer) != Some(i) {
        let k = step.model.index_of(peer)->0;
        assert(step.model.peers[k].peer_id == peer);
        assert(m.peers[k].peer_id == step.model.peers[k].peer_id);
        assert(m.peers[k].peer_id != m.peers[i].peer_id);
    }
}

/// Before its handshake has come and fitted, a peer is asked for nothing
/// and has nothing set aside.
pub proof fn lemma_only_admitted_peers_work(m: SyncModel, i: int)
    requires
        m.wf(),
        0 <= i < m.peers.len(),
        !m.peers[i].admitted,
    ensures
        m.peers[i].pending_request is None,
        m.peers[i].reserved() is None,
        !m.peers[i].spec_is_eligible(),
{
    assert(peer_wf(m.peers[i], m.schedule));
}

/// A request that has passed its time is given up in the next round of
/// maintenance. The peer is dropped if that is one failure too many. Else
/// the failure is counted, the peer is idle and rests for the round. Either
/// way the headers that were set aside for it are free to be asked of
/// another peer, and the bodies or receipts are wanted again.
pub proof fn lemma_overdue_request_is_reclaimed(m: SyncModel, now: u64, i: int)
    requires
        m.wf(),
        0 <= i < m.peers.len(),
        m.peers[i].spec_timed_out(now, m.config.request_timeout),
    ensures
        m.sweep_peer(now, i).wf(),
        m.drops(now, i) == (spec_next_u32(m.peers[i].failures) > m.config.max_failures),
        m.drops(now, i) ==> m.sweep_peer(now, i).peers == m.release(i).peers.remove(i) && forall|
            j: int,
        |
            0 <= j < m.sweep_peer(now, i).peers.len() ==> (#[trigger] m.sweep_peer(
                now,
                i,
            ).peers[j]).peer_id != m.peers[i].peer_id,
        !m.drops(now, i) ==> {
            let q = m.sweep_peer(now, i).peers[i];
            &&& m.sweep_peer(now, i).peers.len() == m.peers.len()
            &&& q.peer_id == m.peers[i].peer_id
            &&& q.failures == spec_next_u32(m.peers[i].failures)
            &&& q.state == PeerSyncPhase::Idle
            &&& q.pending_request is None
            &&& q.resting
            &&& !q.spec_is_eligible()
        },
        m.peers[i].spec_header_range() matches Some(r) ==> forall|x: int|
            r.lo <= x <= r.hi ==> !m.sweep_peer(now, i).schedule.requested.contains(x)
                && !m.sweep_peer(now, i).schedule.imported.contains(x),
        m.peers[i].spec_body_range() matches Some(r) ==> forall|x: int|
            r.lo <= x <= r.hi ==> m.sweep_peer(now, i).schedule.wanted.contains(x),
        m.peers[i].spec_receipt_range() matches Some(r) ==> forall|x: int|
            r.lo <= x <= r.hi ==> m.sweep_peer(now, i).schedule.receipts_wanted.contains(x),
{
    let p = m.peers[i];
    assert(peer_wf(p, m.schedule));
    lemma_sweep_peer_wf(m, now, i);
    lemma_release_wf(m, i);
    lemma_penalize_wf(m, i);
    if m.drops(now, i) {
        lemma_without_peer_wf(m.release(i), i);
    }
    if p.spec_header_range() is Some {
        let r = p.spec_header_range()->0;
        assert forall|x: int| r.lo <= x <= r.hi implies !m.sweep_peer(
            now,
            i,
        ).schedule.requested.contains(x) && !m.sweep_peer(now, i).schedule.imported.contains(x) by {
            assert(m.schedule.requested.contains(x));
        }
    }
}

/// Whether no record holds a request that is overdue at `now`.
pub open spec fn no_overdue(m: SyncModel, now: u64) -> bool {
    forall|j: int|
        0 <= j < m.peers.len() ==> !(#[trigger] m.peers[j]).spec_timed_out(
            now,
            m.config.request_timeout,
        )
}

/// Whether the step from `m` at `now` has left every record with the
/// request that it had, with none, or with one made at `now`.
pub open spec fn requests_fresh(m: SyncModel, t: SyncModel, now: u64) -> bool {
    &&& t.peers.len() == m.peers.len()
    &&& t.config == m.config
    &&& forall|j: int|
        0 <= j < m.peers.len() ==> (#[trigger] t.peers[j]).pending_request
            == m.peers[j].pending_request || t.peers[j].pending_request is None || (
        t.peers[j].pending_request matches Some(q) && q.issued_at == now)
}

proof fn lemma_download_fresh(m: SyncModel, i: int, now: u64, height: u64)
    requires
        0 <= i < m.peers.len(),
    ensures
        requests_fresh(m, m.download(i, now, height).model, now),
{
}

proof fn lemma_found_fresh(m: SyncModel, i: int, c: u64, now: u64)
    requires
        0 <= i < m.peers.len(),
    ensures
        requests_fresh(m, m.found(i, c), now),
{
}

proof fn lemma_fresh_chain(m: SyncModel, t: SyncModel, u: SyncModel, now: u64)
    requires
        requests_fresh(m, t, now),
        requests_fresh(t, u, now),
    ensures
        requests_fresh(m, u, now),
{
    assert forall|j: int| 0 <= j < m.peers.len() implies (#[trigger] u.peers[j]).pending_request
        == m.peers[j].pending_request || u.peers[j].pending_request is None || (
    u.peers[j].pending_request matches Some(q) && q.issued_at == now) by {
        let a = t.peers[j];
    }
}

proof fn lemma_assign_fresh(m: SyncModel, chain: ChainInfo, now: u64, i: int)
    requires
        0 <= i < m.peers.len(),
    ensures
        requests_fresh(m, m.assign(chain, now, i).model, now),
{
    let p = m.peers[i];
    if p.spec_is_eligible() && p.spec_is_ahead(chain) {
        match p.latest_known_number {
            None => {},
            Some(height) => {
                if p.common_ancestor is None {
                    let s = AncestorSearch::spec_start(crate::model::lower(height, chain.best_number));
                    let m1 = m.with_peer(i, PeerSyncState { search: s, probes: 0, ..p });
                    if s.spec_is_done() {
                        lemma_found_fresh(m1, i, s.lo, now);
                        lemma_download_fresh(m1.found(i, s.lo), i, now, height);
                        assert(requests_fresh(m, m1, now));
                        lemma_fresh_chain(m, m1, m1.found(i, s.lo), now);
                        lemma_fresh_chain(
                            m,
                            m1.found(i, s.lo),
                            m1.found(i, s.lo).download(i, now, height).model,
                            now,
                        );
                    }
                } else {
                    lemma_download_fresh(m, i, now, height);
                }
            },
        }
    }
}

proof fn lemma_assign_from_fresh(m: SyncModel, chain: ChainInfo, now: u64, i: int, n: int)
    requires
        0 <= i <= n == m.peers.len(),
    ensures
        requests_fresh(m, m.assign_from(chain, now, i, n).model, now),
    decreases n - i,
{
    if i < n {
        lemma_assign_fresh(m, chain, now, i);
        let first = m.assign(chain, now, i);
        lemma_assign_from_fresh(first.model, chain, now, i + 1, n);
        lemma_fresh_chain(m, first.model, first.model.assign_from(chain, now, i + 1, n).model, now);
    }
}

proof fn lemma_sweep_clears_overdue(m: SyncModel, now: u64, i: int, left: nat)
    requires
        m.wf(),
        0 <= i,
        left >= m.peers.len() - i,
        forall|j: int|
            0 <= j < i && j < m.peers.len() ==> !(#[trigger] m.peers[j]).spec_timed_out(
                now,
                m.config.request_timeout,
            ),
    ensures
        no_overdue(m.sweep(now, i, left).model, now),
        m.sweep(now, i, left).model.config == m.config,
    decreases left,
{
    if left == 0 || i >= m.peers.len() {
    } else {
        let p = m.peers[i];
        assert(peer_wf(p, m.schedule));
        lemma_sweep_peer_wf(m, now, i);
        lemma_release_wf(m, i);
        lemma_penalize_wf(m, i);
        let t = m.sweep_peer(now, i);
        if m.drops(now, i) {
            assert forall|j: int| 0 <= j < i && j < t.peers.len() implies !(
            #[trigger] t.peers[j]).spec_timed_out(now, t.config.request_timeout) by {
                assert(t.peers[j] == m.peers[j]);
            }
            lemma_sweep_clears_overdue(t, now, i, (left - 1) as nat);
        } else {
            assert forall|j: int| 0 <= j < i + 1 && j < t.peers.len() implies !(
            #[trigger] t.peers[j]).spec_timed_out(now, t.config.request_timeout) by {
                if j < i {
                    assert(t.peers[j] == m.peers[j]);
                }
            }
            lemma_sweep_clears_overdue(t, now, i + 1, (left - 1) as nat);
        }
    }
}

/// After a round of maintenance no request is overdue: every request that
/// had passed its time is given up, and every request that is under way
/// was made in time.
pub proof fn lemma_tick_leaves_nothing_overdue(m: SyncModel, chain: ChainInfo, now: u64)
    requires
        m.wf(),
    ensures
        no_overdue(m.tick(chain, now).model, now),
{
    lemma_sweep_clears_overdue(m, now, 0, m.peers.len());
    lemma_sweep_wf(m, now, 0, m.peers.len());
    let swept = m.sweep(now, 0, m.peers.len()).model;
    lemma_rescan_wf(swept, chain);
    let scanned = swept.rescan(chain);
    lemma_assign_from_fresh(scanned, chain, now, 0, scanned.peers.len() as int);
    let t = m.tick(chain, now).model;
    assert forall|j: int| 0 <= j < t.peers.len() implies !(#[trigger] t.peers[j]).spec_timed_out(
        now,
        t.config.request_timeout,
    ) by {
        let before = swept.peers[j];
        let between = scanned.peers[j];
    }
}

/// Every number that is marked as asked for is set aside for one peer, and
/// for one only: nothing is asked for twice, and nothing stays marked that
/// no peer is asked for.
pub proof fn lemma_every_request_has_one_holder(m: SyncModel, x: int)
    requires
        m.wf(),
        m.schedule.requested.contains(x),
    ensures
        exists|i: int|
            0 <= i < m.peers.len() && #[trigger] m.peers[i].reservation().contains(x) && forall|
                j: int,
            |
                0 <= j < m.peers.len() && j != i ==> !(#[trigger] m.peers[j]).reservation().contains(
                    x,
                ),
{
    assert(held(m.peers, PeerSyncPhase::DownloadingHeaders, x));
    let i = choose|i: int|
        0 <= i < m.peers.len() && holds(#[trigger] m.peers[i], PeerSyncPhase::DownloadingHeaders, x);
    assert(m.peers[i].reservation().contains(x));
    assert forall|j: int| 0 <= j < m.peers.len() && j != i implies !(
    #[trigger] m.peers[j]).reservation().contains(x) by {
        lemma_no_duplicate_assignment(m, i, j, x);
    }
}

/// A peer that may be given work is given some whenever there is any for
/// it: it stays without only if no queued block from the next import up
/// wants a body or receipts, and every header from the next import up to
/// the peer's height is obtained or asked of another peer.
pub proof fn lemma_idle_peer_takes_what_is_free(m: SyncModel, i: int, now: u64, height: u64, x: int)
    requires
        m.wf(),
        0 <= i < m.peers.len(),
        m.peers[i].spec_is_eligible(),
        m.download(i, now, height).model.peers[i].reserved() is None,
        m.schedule.next_import <= x <= u64::MAX,
    ensures
        m.config.max_bodies > 0 ==> !m.schedule.wanted.contains(x),
        m.config.max_receipts > 0 ==> !m.schedule.receipts_wanted.contains(x),
        m.config.max_headers > 0 && x <= height ==> m.schedule.taken().contains(x),
{
    let s = m.schedule;
    assert(peer_wf(m.peers[i], s));
    if m.config.max_bodies > 0 {
        crate::range_collection::lemma_no_run_means_nothing_held(
            s.wanted,
            s.next_import as int,
            m.config.max_bodies as int,
            x,
        );
    }
    if m.config.max_receipts > 0 {
        crate::range_collection::lemma_no_run_means_nothing_held(
            s.receipts_wanted,
            s.next_import as int,
            m.config.max_receipts as int,
            x,
        );
    }
    if m.config.max_headers > 0 && x <= height {
        crate::schedule::lemma_no_free_range_means_all_taken(
            s.taken(),
            s.next_import,
            m.config.max_headers as int,
            height,
            x,
        );
    }
}

/// Only a connection brings a peer into the state: a peer of which there
/// is no record has none after any event but its own connection. So a peer
/// that was dropped for its handshake takes no part in anything that
/// follows.
pub proof fn lemma_only_a_connection_brings_a_peer(
    m: SyncModel,
    chain: ChainInfo,
    now: u64,
    event: Event,
    id: PeerId,
)
    requires
        m.wf(),
        !has_peer(m.peers, id),
        !(event matches Event::Connected { peer } && peer == id),
    ensures
        !has_peer(m.apply(chain, now, event).model.peers, id),
{
    let t = m.apply(chain, now, event).model;
    match event {
        Event::Connected { peer } => {
            if has_peer(t.peers, id) {
                let k = choose|k: int| 0 <= k < t.peers.len() && (#[trigger] t.peers[k]).peer_id == id;
                if k < m.peers.len() {
                    assert(m.peers[k].peer_id == id);
                }
            }
        },
        Event::Received { peer, packet } => {
            lemma_on_packet_wf(m, chain, now, peer, packet);
        },
        Event::Disconnected { peer } => {
            lemma_disconnect_wf(m, chain, now, peer);
        },
        Event::Timer => {
            lemma_tick_wf(m, chain, now);
        },
        Event::Abort => {
            lemma_abort_wf(m);
        },
        Event::Restart => {
            lemma_restart_wf(m, chain, now);
        },
        Event::ImportFailed { number, peer } => {
            lemma_import_rejected_wf(m, chain, now, number, peer);
        },
    }
    if !(event is Connected) && has_peer(t.peers, id) {
        let k = choose|k: int| 0 <= k < t.peers.len() && (#[trigger] t.peers[k]).peer_id == id;
        assert(has_peer(m.peers, t.peers[k].peer_id));
    }
}

/// Whether nothing of the download is free for a peer of height `height`:
/// no queued block from the next import up wants a body or receipts, and
/// every header from the next import up to `height` is obtained or asked
/// for. A batch size of zero frees that part of the download from the
/// question.
pub open spec fn nothing_free(m: SyncModel, height: u64) -> bool {
    &&& m.config.max_bodies > 0 ==> forall|x: int|
        m.schedule.next_import <= x <= u64::MAX ==> !m.schedule.wanted.contains(x)
    &&& m.config.max_receipts > 0 ==> forall|x: int|
        m.schedule.next_import <= x <= u64::MAX ==> !m.schedule.receipts_wanted.contains(x)
    &&& m.config.max_headers > 0 ==> forall|x: int|
        m.schedule.next_import <= x <= height ==> m.schedule.taken().contains(x)
}

/// Whether the peer at index `j` has been seen to: if it may still be given
/// work, it is ahead of the local chain, its height and its common ancestor
/// are known, and nothing of the download is free for it.
pub open spec fn settled(m: SyncModel, chain: ChainInfo, j: int) -> bool {
    let p = m.peers[j];
    p.spec_is_eligible() ==> p.spec_is_ahead(chain) && p.common_ancestor is Some && match p.latest_known_number {
        Some(h) => nothing_free(m, h),
        None => false,
    }
}

/// Giving the peer at index `k` work sees to it.
proof fn lemma_assign_settles(m: SyncModel, chain: ChainInfo, now: u64, k: int)
    requires
        m.wf(),
        0 <= k < m.peers.len(),
    ensures
        settled(m.assign(chain, now, k).model, chain, k),
{
    let p = m.peers[k];
    let t = m.assign(chain, now, k).model;
    assert(peer_wf(p, m.schedule));
    if p.spec_is_eligible() && p.spec_is_ahead(chain) && p.latest_known_number is Some {
        let height = p.latest_known_number->0;
        let before = if p.common_ancestor is None {
            let s = AncestorSearch::spec_start(crate::model::lower(height, chain.best_number));
            let q = PeerSyncState { search: s, probes: 0, ..p };
            lemma_peer_wf_same_request(p, q, m.schedule);
            lemma_with_peer_wf(m, k, q);
            let m1 = m.with_peer(k, q);
            if s.spec_is_done() {
                lemma_found_wf(m1, k, s.lo);
                assert(m1.found(k, s.lo) == m1.with_peer(
                    k,
                    PeerSyncState { common_ancestor: Some(s.lo), ..q },
                ));
            }
            m1.found(k, s.lo)
        } else {
            m
        };
        if t.peers[k].spec_is_eligible() {
            assert(t == before.download(k, now, height).model);
            assert(t == before);
            assert forall|x: int| t.schedule.next_import <= x <= u64::MAX implies (
            t.config.max_bodies > 0 ==> !t.schedule.wanted.contains(x)) && (t.config.max_receipts
                > 0 ==> !t.schedule.receipts_wanted.contains(x)) && (t.config.max_headers > 0 && x
                <= height ==> t.schedule.taken().contains(x)) by {
                lemma_idle_peer_takes_what_is_free(before, k, now, height, x);
            }
        }
    }
}

/// Giving the peer at index `k` work leaves every other peer seen to that
/// was.
proof fn lemma_assign_keeps_settled(m: SyncModel, chain: ChainInfo, now: u64, k: int, j: int)
    requires
        m.wf(),
        0 <= k < m.peers.len(),
        0 <= j < m.peers.len(),
        j != k,
        settled(m, chain, j),
    ensures
        settled(m.assign(chain, now, k).model, chain, j),
{
    lemma_assign_leaves_others(m, chain, now, k, j);
    let t = m.assign(chain, now, k).model;
    let p = m.peers[j];
    if p.spec_is_eligible() {
        let h = p.latest_known_number->0;
        assert(nothing_free(m, h));
        assert forall|x: int| t.schedule.next_import <= x <= h && t.config.max_headers
            > 0 implies t.schedule.taken().contains(x) by {
            assert(m.schedule.taken().contains(x));
        }
    }
}

proof fn lemma_assign_from_settles(m: SyncModel, chain: ChainInfo, now: u64, from: int, n: int)
    requires
        m.wf(),
        0 <= from <= n == m.peers.len(),
        forall|j: int| 0 <= j < from ==> settled(m, chain, j),
    ensures
        m.assign_from(chain, now, from, n).model.peers.len() == n,
        forall|j: int| 0 <= j < n ==> settled(m.assign_from(chain, now, from, n).model, chain, j),
    decreases n - from,
{
    if from < n {
        let t = m.assign(chain, now, from).model;
        lemma_assign_wf(m, chain, now, from);
        lemma_assign_settles(m, chain, now, from);
        assert forall|j: int| 0 <= j < from + 1 implies settled(t, chain, j) by {
            if j < from {
                lemma_assign_keeps_settled(m, chain, now, from, j);
            }
        }
        lemma_assign_from_settles(t, chain, now, from + 1, n);
    }
}

/// Once the peers are given work, every peer is seen to: whoever may still
/// be given work is ahead of the local chain, with its height and common
/// ancestor known, and nothing of the download is free for it.
pub proof fn lemma_assign_all_settles(m: SyncModel, chain: ChainInfo, now: u64, j: int)
    requires
        m.wf(),
        0 <= j < m.peers.len(),
    ensures
        0 <= j < m.assign_all(chain, now).model.peers.len(),
        settled(m.assign_all(chain, now).model, chain, j),
{
    lemma_assign_from_settles(m, chain, now, 0, m.peers.len() as int);
}

/// What a request that has passed its time had set aside goes to another
/// peer in the same round of maintenance, if one is there to take it. Said
/// of the state after the round: where a peer is left that may be given
/// work, every header from the next import up to its height is obtained or
/// set aside for exactly one peer, and that peer is asked for it by a
/// request made in time; no queued block wants a body or receipts.
pub proof fn lemma_tick_gives_out_what_is_free(m: SyncModel, chain: ChainInfo, now: u64, j: int)
    requires
        m.wf(),
        0 <= j < m.tick(chain, now).model.peers.len(),
        m.tick(chain, now).model.peers[j].spec_is_eligible(),
    ensures
        ({
            let t = m.tick(chain, now).model;
            &&& t.peers[j].latest_known_number is Some
            &&& nothing_free(t, t.peers[j].latest_known_number->0)
            &&& forall|x: int|
                #![trigger t.schedule.imported.contains(x)]
                t.config.max_headers > 0 && t.schedule.next_import <= x
                    <= t.peers[j].latest_known_number->0 && !t.schedule.imported.contains(x)
                    ==> exists|i: int|
                    0 <= i < t.peers.len() && i != j && #[trigger] t.peers[i].reservation().contains(
                        x,
                    ) && t.peers[i].state == PeerSyncPhase::DownloadingHeaders
                        && !t.peers[i].spec_timed_out(now, t.config.request_timeout)
                        && forall|k: int|
                        0 <= k < t.peers.len() && k != i ==> !(
                        #[trigger] t.peers[k]).reservation().contains(x)
        }),
{
    lemma_sweep_wf(m, now, 0, m.peers.len());
    let swept = m.sweep(now, 0, m.peers.len()).model;
    lemma_rescan_wf(swept, chain);
    let scanned = swept.rescan(chain);
    lemma_assign_all_wf(scanned, chain, now);
    lemma_assign_all_settles(scanned, chain, now, j);
    lemma_tick_wf(m, chain, now);
    lemma_tick_leaves_nothing_overdue(m, chain, now);
    let t = m.tick(chain, now).model;
    assert(t == scanned.assign_all(chain, now).model);
    let h = t.peers[j].latest_known_number->0;
    assert forall|x: int|
        #![trigger t.schedule.imported.contains(x)]
        t.config.max_headers > 0 && t.schedule.next_import <= x <= h
            && !t.schedule.imported.contains(x) implies exists|i: int|
        0 <= i < t.peers.len() && i != j && #[trigger] t.peers[i].reservation().contains(x)
            && t.peers[i].state == PeerSyncPhase::DownloadingHeaders && !t.peers[i].spec_timed_out(
            now,
            t.config.request_timeout,
        ) && forall|k: int|
            0 <= k < t.peers.len() && k != i ==> !(#[trigger] t.peers[k]).reservation().contains(
                x,
            ) by {
        assert(t.schedule.taken().contains(x));
        assert(t.schedule.requested.contains(x));
        assert(held(t.peers, PeerSyncPhase::DownloadingHeaders, x));
        let i = choose|i: int|
            0 <= i < t.peers.len() && holds(
                #[trigger] t.peers[i],
                PeerSyncPhase::DownloadingHeaders,
                x,
            );
        assert(t.peers[i].reservation().contains(x));
        assert forall|k: int| 0 <= k < t.peers.len() && k != i implies !(
        #[trigger] t.peers[k]).reservation().contains(x) by {
            lemma_no_duplicate_assignment(t, i, k, x);
        }
    }
}

/// Whether the record of a peer that rests is that of a peer that is asked
/// for nothing: it is idle, no request is under way, nothing is set aside.
pub open spec fn rests_idle(p: PeerSyncState) -> bool {
    p.admitted && p.resting ==> p.state == PeerSyncPhase::Idle && p.pending_request is None
        && p.reserved() is None
}

proof fn lemma_sweep_rests_the_late(m: SyncModel, now: u64, i: int, left: nat)
    requires
        m.wf(),
        0 <= i,
        left >= m.peers.len() - i,
        forall|j: int| 0 <= j < i && j < m.peers.len() ==> rests_idle(#[trigger] m.peers[j]),
    ensures
        forall|j: int|
            0 <= j < m.sweep(now, i, left).model.peers.len() ==> rests_idle(
                #[trigger] m.sweep(now, i, left).model.peers[j],
            ),
    decreases left,
{
    if left == 0 || i >= m.peers.len() {
    } else {
        let p = m.peers[i];
        assert(peer_wf(p, m.schedule));
        lemma_sweep_peer_wf(m, now, i);
        lemma_release_wf(m, i);
        lemma_penalize_wf(m, i);
        let t = m.sweep_peer(now, i);
        if m.drops(now, i) {
            assert forall|j: int| 0 <= j < i && j < t.peers.len() implies rests_idle(
                #[trigger] t.peers[j],
            ) by {
                assert(t.peers[j] == m.peers[j]);
            }
            lemma_sweep_rests_the_late(t, now, i, (left - 1) as nat);
            assert(m.sweep(now, i, left).model == t.sweep(now, i, (left - 1) as nat).model);
        } else {
            assert forall|j: int| 0 <= j < i + 1 && j < t.peers.len() implies rests_idle(
                #[trigger] t.peers[j],
            ) by {
                if j < i {
                    assert(t.peers[j] == m.peers[j]);
                } else {
                    assert(peer_wf(t.peers[i], t.schedule));
                }
            }
            lemma_sweep_rests_the_late(t, now, i + 1, (left - 1) as nat);
            assert(m.sweep(now, i, left).model == t.sweep(now, i + 1, (left - 1) as nat).model);
        }
    }
}

proof fn lemma_assign_from_keeps_rest(m: SyncModel, chain: ChainInfo, now: u64, from: int, n: int)
    requires
        m.wf(),
        0 <= from <= n == m.peers.len(),
        forall|j: int| 0 <= j < n ==> rests_idle(#[trigger] m.peers[j]),
    ensures
        m.assign_from(chain, now, from, n).model.peers.len() == n,
        forall|j: int|
            0 <= j < n ==> rests_idle(#[trigger] m.assign_from(chain, now, from, n).model.peers[j])
                && m.assign_from(chain, now, from, n).model.peers[j].resting == m.peers[j].resting,
    decreases n - from,
{
    if from < n {
        let t = m.assign(chain, now, from).model;
        lemma_assign_wf(m, chain, now, from);
        assert forall|j: int| 0 <= j < n implies rests_idle(#[trigger] t.peers[j])
            && t.peers[j].resting == m.peers[j].resting by {
            if j != from || !m.peers[j].spec_is_eligible() {
                lemma_assign_leaves_others(m, chain, now, from, j);
            } else {
                lemma_assign_keeps_flags(m, chain, now, from);
            }
        }
        lemma_assign_from_keeps_rest(t, chain, now, from + 1, n);
    }
}

/// Giving the peer at index `k` work does not make it rest.
proof fn lemma_assign_keeps_flags(m: SyncModel, chain: ChainInfo, now: u64, k: int)
    requires
        m.wf(),
        0 <= k < m.peers.len(),
    ensures
        m.assign(chain, now, k).model.peers.len() == m.peers.len(),
        m.assign(chain, now, k).model.peers[k].resting == m.peers[k].resting,
        m.assign(chain, now, k).model.peers[k].admitted == m.peers[k].admitted,
{
    lemma_assign_wf(m, chain, now, k);
    let p = m.peers[k];
    assert(peer_wf(p, m.schedule));
}

/// A peer whose request has passed its time is asked for nothing in the
/// round of maintenance that gives the request up: after the round, every
/// admitted peer that rests is idle, with no request under way and nothing
/// set aside. What it had set aside can have gone to other peers only.
pub proof fn lemma_tick_asks_nothing_of_the_late(m: SyncModel, chain: ChainInfo, now: u64, j: int)
    requires
        m.wf(),
        0 <= j < m.tick(chain, now).model.peers.len(),
    ensures
        rests_idle(m.tick(chain, now).model.peers[j]),
{
    lemma_sweep_wf(m, now, 0, m.peers.len());
    lemma_sweep_rests_the_late(m, now, 0, m.peers.len());
    let swept = m.sweep(now, 0, m.peers.len()).model;
    lemma_rescan_wf(swept, chain);
    let scanned = swept.rescan(chain);
    assert forall|k: int| 0 <= k < scanned.peers.len() implies rests_idle(
        #[trigger] scanned.peers[k],
    ) by {
        assert(rests_idle(swept.peers[k]));
    }
    lemma_assign_from_keeps_rest(scanned, chain, now, 0, scanned.peers.len() as int);
}

/// A request for blocks keeps within its bounds: headers are asked for from
/// the next import up, no more than the batch size and none above the
/// peer's height; bodies and receipts no more than their batch sizes.
pub proof fn lemma_download_asks_within_bounds(m: SyncModel, i: int, now: u64, height: u64, k: int)
    requires
        0 <= i < m.peers.len(),
        0 <= k < m.download(i, now, height).actions.len(),
    ensures
        m.download(i, now, height).actions.len() == 1,
        match m.download(i, now, height).actions[k] {
            Action::Send { peer, request } => peer == m.peers[i].peer_id && match request {
                crate::io::Request::Headers { start, count } => {
                    &&& 1 <= count <= m.config.max_headers
                    &&& m.schedule.next_import <= start
                    &&& start + count - 1 <= height
                },
                crate::io::Request::Bodies { first, last } => {
                    &&& m.schedule.next_import <= first <= last
                    &&& last - first < m.config.max_bodies
                },
                crate::io::Request::Receipts { first, last } => {
                    &&& m.schedule.next_import <= first <= last
                    &&& last - first < m.config.max_receipts
                },
                _ => false,
            },
            _ => false,
        },
{
    let s = m.schedule;
    match s.wanted_bodies(m.config.max_bodies) {
        Some(g) => {
            assert(is_first_run(
                s.wanted,
                s.next_import as int,
                m.config.max_bodies as int,
                g.lo as int,
                g.hi as int,
            ));
        },
        None => match s.wanted_receipts(m.config.max_receipts) {
            Some(g) => {
                assert(is_first_run(
                    s.receipts_wanted,
                    s.next_import as int,
                    m.config.max_receipts as int,
                    g.lo as int,
                    g.hi as int,
                ));
            },
            None => match s.free_headers(m.config.max_headers, height) {
                Some(g) => {
                    assert(is_free_range(
                        s.taken(),
                        s.next_import as int,
                        m.config.max_headers as int,
                        height as int,
                        g.lo as int,
                        g.hi as int,
                    ));
                },
                None => {},
            },
        },
    }
}

/// The numbers of the blocks that `actions` hand over for import, in their
/// order.
pub open spec fn imports_of(actions: Seq<Action>) -> Seq<u64>
    decreases actions.len(),
{
    if actions.len() == 0 {
        Seq::empty()
    } else {
        match actions.last() {
            Action::Import { number, .. } => imports_of(actions.drop_last()).push(number),
            _ => imports_of(actions.drop_last()),
        }
    }
}

/// The numbers of the blocks that are handed over for import in the course
/// of the events `run` from the state `m`, in their order.
pub open spec fn run_imports(m: SyncModel, run: Seq<Moment>) -> Seq<u64>
    decreases run.len(),
{
    if run.len() == 0 {
        Seq::empty()
    } else {
        let last = run.last();
        run_imports(m, run.drop_last()) + imports_of(
            state_after(m, run.drop_last()).apply(last.chain, last.now, last.event).actions,
        )
    }
}

/// Whether the download is never begun anew in the course of the events
/// `run` from the state `m`: at each event the next import moves on by the
/// number of blocks handed over, and not otherwise.
pub open spec fn steady(m: SyncModel, run: Seq<Moment>) -> bool
    decreases run.len(),
{
    run.len() == 0 || {
        let last = run.last();
        let before = state_after(m, run.drop_last());
        let step = before.apply(last.chain, last.now, last.event);
        &&& steady(m, run.drop_last())
        &&& step.model.schedule.next_import == before.schedule.next_import + imports_of(
            step.actions,
        ).len()
    }
}

proof fn lemma_imports_of_ascending(actions: Seq<Action>, start: int, count: int)
    requires
        imports_ascend_from(actions, start, count),
        start + count <= u64::MAX + 1,
        0 <= start,
    ensures
        imports_of(actions) == Seq::new(count as nat, |j: int| (start + j) as u64),
    decreases actions.len(),
{
    let goal = Seq::new(count as nat, |j: int| (start + j) as u64);
    if actions.len() == 0 {
        assert(imports_of(actions) =~= goal);
    } else {
        let k = actions.len() - 1;
        let rest = actions.drop_last();
        if k < count {
            assert(actions[k] is Import);
            assert forall|j: int| 0 <= j < count - 1 implies (#[trigger] rest[j] matches Action::Import {
                number,
                ..
            } && number == start + j) by {
                assert(rest[j] == actions[j]);
            }
            assert(imports_ascend_from(rest, start, count - 1));
            lemma_imports_of_ascending(rest, start, count - 1);
            assert(imports_of(actions) =~= goal);
        } else {
            assert(!(actions[k] is Import));
            assert forall|j: int| 0 <= j < count implies (#[trigger] rest[j] matches Action::Import {
                number,
                ..
            } && number == start + j) by {
                assert(rest[j] == actions[j]);
            }
            assert forall|j: int| count <= j < rest.len() implies !(#[trigger] rest[j] is Import) by {
                assert(rest[j] == actions[j]);
            }
            assert(imports_ascend_from(rest, start, count));
            lemma_imports_of_ascending(rest, start, count);
            assert(imports_of(actions) =~= goal);
        }
    }
}

/// The blocks that one event hands over are those numbered from the next
/// import up, each once, in ascending order.
pub proof fn lemma_step_imports(m: SyncModel, chain: ChainInfo, now: u64, event: Event)
    requires
        m.wf(),
    ensures
        imports_of(m.apply(chain, now, event).actions) == Seq::new(
            imports_of(m.apply(chain, now, event).actions).len(),
            |j: int| (m.schedule.next_import + j) as u64,
        ),
        m.schedule.next_import + imports_of(m.apply(chain, now, event).actions).len() <= u64::MAX,
{
    lemma_imports_in_order(m, chain, now, event);
    let step = m.apply(chain, now, event);
    let start = m.schedule.next_import as int;
    let count = choose|count: int|
        {
            &&& #[trigger] imports_ascend_from(step.actions, start, count)
            &&& count > 0 ==> step.model.schedule.next_import == m.schedule.next_import + count
        };
    if count > 0 {
        lemma_imports_of_ascending(step.actions, start, count);
    } else {
        lemma_imports_of_ascending(step.actions, start, 0);
    }
}

/// Over a whole run in which the download is never begun anew, the blocks
/// handed over for import are exactly those numbered from where the import
/// stood at the start up to where it stands at the end, each once, in
/// ascending order, whatever the events of the run and their order.
pub proof fn lemma_run_imports_in_order(m: SyncModel, run: Seq<Moment>)
    requires
        m.wf(),
        steady(m, run),
    ensures
        state_after(m, run).wf(),
        state_after(m, run).schedule.next_import == m.schedule.next_import + run_imports(
            m,
            run,
        ).len(),
        run_imports(m, run) == Seq::new(
            run_imports(m, run).len(),
            |j: int| (m.schedule.next_import + j) as u64,
        ),
    decreases run.len(),
{
    if run.len() == 0 {
        assert(run_imports(m, run) =~= Seq::new(0, |j: int| (m.schedule.next_import + j) as u64));
    } else {
        let last = run.last();
        let early = run.drop_last();
        lemma_run_imports_in_order(m, early);
        let before = state_after(m, early);
        lemma_apply_wf(before, last.chain, last.now, last.event);
        lemma_step_imports(before, last.chain, last.now, last.event);
        let step = before.apply(last.chain, last.now, last.event);
        assert(run_imports(m, run) =~= Seq::new(
            run_imports(m, run).len(),
            |j: int| (m.schedule.next_import + j) as u64,
        ));
    }
}

} // verus!
