//! The synchronisation engine.
//!
//! `ChainSync` holds the state of the download and takes the events of the
//! network one at a time: a peer connects, a packet comes, a peer leaves, the
//! maintenance timer fires. It performs nothing itself. Each event returns
//! the actions that the driver is to perform, and each is specified by the
//! function of the model that it computes.

use vstd::prelude::*;
use crate::io::{Action, Announcement, Event, Packet, Request, StatusMessage};
use crate::model::{
    abort_all,
    active_count,
    awakened,
    cancel_downloads,
    count_admitted,
    count_phase,
    highest_news,
    index_from,
    restart_all,
    SyncConfig,
    SyncModel,
    SyncOverallState,
    SyncStatus,
};
use crate::peer::{
    expired,
    next_u32,
    next_u64,
    PeerSyncPhase,
    PeerSyncState,
    PendingRequest,
    RequestKind,
    RequestTarget,
};
use crate::range_collection::BlockRange;
use crate::schedule::{
    check_batch,
    lemma_ready_from_bounded,
    DownloadSchedule,
    QueuedBlock,
    ScheduleModel,
};
use crate::search::AncestorSearch;
use crate::types::{
    BlockBody,
    BlockHeader,
    BlockReceipts,
    ChainInfo,
    HeaderReport,
    PeerId,
    H256,
    U256,
};

verus! {

/// The synchronisation engine.
pub struct ChainSync {
    config: SyncConfig,
    peers: Vec<PeerSyncState>,
    schedule: DownloadSchedule,
    starting_block: u64,
    highest_block: u64,
    received: u64,
    next_request_id: u64,
}

impl View for ChainSync {
    type V = SyncModel;

    closed spec fn view(&self) -> SyncModel {
        SyncModel {
            config: self.config,
            peers: self.peers@,
            schedule: self.schedule@,
            starting_block: self.starting_block,
            highest_block: self.highest_block,
            received: self.received,
            next_request_id: self.next_request_id,
        }
    }
}

/// The announcement of the highest block among `anns` that the local chain
/// lacks.
pub fn pick_news(anns: &Vec<Announcement>) -> (best: Option<Announcement>)
    ensures
        best == highest_news(anns@, anns@.len() as int),
{
    let mut best: Option<Announcement> = None;
    let mut k: usize = 0;
    while k < anns.len()
        invariant
            k <= anns.len(),
            best == highest_news(anns@, k as int),
        decreases anns.len() - k,
    {
        let a = anns[k];
        best = match best {
            Some(b) => if !a.known && a.number > b.number {
                Some(a)
            } else {
                Some(b)
            },
            None => if a.known {
                None
            } else {
                Some(a)
            },
        };
        k += 1;
    }
    best
}

impl ChainSync {
    /// The engine before any event, beside the local chain `chain`.
    pub fn new(config: SyncConfig, chain: &ChainInfo) -> (s: ChainSync)
        ensures
            s@ == SyncModel::initial(config, chain.best_number),
            s@.wf(),
    {
        proof {
            crate::laws::lemma_initial_wf(config, chain.best_number);
        }
        ChainSync {
            config,
            peers: Vec::new(),
            schedule: DownloadSchedule::new(next_u64(chain.best_number), config.fast),
            starting_block: chain.best_number,
            highest_block: chain.best_number,
            received: 0,
            next_request_id: 0,
        }
    }

    /// The policy that the engine was made with.
    pub fn config(&self) -> (c: SyncConfig)
        ensures
            c == self@.config,
    {
        self.config
    }

    /// The number of connections.
    pub fn connections(&self) -> (n: usize)
        ensures
            n == self@.peers.len(),
    {
        self.peers.len()
    }

    /// The record of the connection of peer `id`.
    pub fn peer(&self, id: PeerId) -> (p: Option<PeerSyncState>)
        ensures
            p == (match self@.index_of(id) {
                Some(i) => Some(self@.peers[i]),
                None => None,
            }),
    {
        match self.find(id) {
            Some(i) => Some(self.peers[i]),
            None => None,
        }
    }

    /// The number of the next block to hand over for import.
    pub fn next_import(&self) -> (n: u64)
        ensures
            n == self@.schedule.next_import,
    {
        self.schedule.next_import()
    }

    /// The queued block numbered `n`, as it stands: its header, which of its
    /// parts have come, and from whom.
    pub fn queued_block(&self, n: u64) -> (b: Option<QueuedBlock>)
        ensures
            b == (if self@.schedule.blocks.contains_key(n) {
                Some(self@.schedule.blocks[n])
            } else {
                None
            }),
    {
        self.schedule.queued_block(n)
    }

    /// The hash of the queued header numbered `n`: what a request for bodies
    /// names the block by.
    pub fn queued_hash(&self, n: u64) -> (h: Option<H256>)
        ensures
            h == (if self@.schedule.blocks.contains_key(n) {
                Some(self@.schedule.blocks[n].header.hash)
            } else {
                None
            }),
    {
        self.schedule.queued_hash(n)
    }

    /// The index of the connection of peer `id`.
    fn find(&self, id: PeerId) -> (r: Option<usize>)
        ensures
            match r {
                Some(i) => i < self.peers.len() && self@.index_of(id) == Some(i as int),
                None => self@.index_of(id) is None,
            },
    {
        let mut i: usize = 0;
        while i < self.peers.len()
            invariant
                i <= self.peers.len(),
                index_from(self.peers@, id, 0) == index_from(self.peers@, id, i as int),
            decreases self.peers.len() - i,
        {
            if self.peers[i].peer_id == id {
                return Some(i);
            }
            i += 1;
        }
        None
    }

    /// Puts `p` in place of the record at index `i`.
    fn set_peer(&mut self, i: usize, p: PeerSyncState)
        requires
            i < old(self).peers.len(),
        ensures
            final(self)@ == old(self)@.with_peer(i as int, p),
            final(self).peers.len() == old(self).peers.len(),
    {
        self.peers.set(i, p);
    }

    /// Takes the record at index `i` out.
    fn remove_peer(&mut self, i: usize)
        requires
            i < old(self).peers.len(),
        ensures
            final(self)@ == old(self)@.without_peer(i as int),
            final(self).peers.len() == old(self).peers.len() - 1,
    {
        self.peers.remove(i);
    }

    /// Takes note that a block numbered `n` has been seen at a peer.
    fn note_height(&mut self, n: u64)
        ensures
            final(self)@ == old(self)@.note_height(n),
            final(self).peers.len() == old(self).peers.len(),
    {
        if n > self.highest_block {
            self.highest_block = n;
        }
    }

    /// Makes the request that is issued at `now` and takes its id.
    fn take_request(&mut self, kind: RequestKind, target: RequestTarget, now: u64) -> (q:
        PendingRequest)
        ensures
            q == old(self)@.request(kind, target, now),
            final(self)@ == old(self)@.id_taken(),
            final(self).peers.len() == old(self).peers.len(),
    {
        let q = PendingRequest { request_id: self.next_request_id, kind, target, issued_at: now };
        self.next_request_id = if self.next_request_id == u64::MAX {
            0
        } else {
            self.next_request_id + 1
        };
        q
    }

    /// Gives up the request to the peer at index `i` and frees what was set
    /// aside for it.
    fn release(&mut self, i: usize)
        requires
            i < old(self).peers.len(),
        ensures
            final(self)@ == old(self)@.release(i as int),
            final(self).peers.len() == old(self).peers.len(),
    {
        let p = self.peers[i];
        match p.header_range() {
            Some(r) => {
                self.schedule.release_headers(r);
            },
            None => match p.body_range() {
                Some(r) => {
                    self.schedule.release_bodies(r);
                },
                None => match p.receipt_range() {
                    Some(r) => {
                        self.schedule.release_receipts(r);
                    },
                    None => {},
                },
            },
        }
        self.peers.set(i, p.released());
    }

    /// Counts a failure against the peer at index `i`.
    fn penalize(&mut self, i: usize)
        requires
            i < old(self).peers.len(),
        ensures
            final(self)@ == old(self)@.penalize(i as int),
            final(self).peers.len() == old(self).peers.len(),
    {
        self.release(i);
        let p = self.peers[i];
        self.peers.set(i, PeerSyncState { failures: next_u32(p.failures), resting: true, ..p });
    }

    /// Begins the download anew at block `start`.
    fn reset_plan(&mut self, start: u64)
        ensures
            final(self)@ == old(self)@.reset_plan(start),
            final(self).peers.len() == old(self).peers.len(),
    {
        self.schedule.reset(start);
        let ghost before = self.peers@;
        let mut j: usize = 0;
        while j < self.peers.len()
            invariant
                j <= self.peers.len(),
                self.peers@.len() == before.len(),
                forall|k: int| 0 <= k < j ==> self.peers@[k] == cancel_downloads(before)[k],
                forall|k: int| j <= k < before.len() ==> self.peers@[k] == before[k],
                self.config == old(self).config,
                self.schedule@ == ScheduleModel::empty(start, old(self)@.schedule.fast),
                self.starting_block == old(self).starting_block,
                self.highest_block == old(self).highest_block,
                self.received == old(self).received,
                self.next_request_id == old(self).next_request_id,
            decreases self.peers.len() - j,
        {
            let p = self.peers[j];
            match p.state {
                PeerSyncPhase::DownloadingHeaders => {
                    self.peers.set(j, p.released());
                },
                PeerSyncPhase::DownloadingBodies => {
                    self.peers.set(j, p.released());
                },
                PeerSyncPhase::DownloadingReceipts => {
                    self.peers.set(j, p.released());
                },
                PeerSyncPhase::Confirmed => {
                    self.peers.set(j, PeerSyncState { state: PeerSyncPhase::Idle, ..p });
                },
                PeerSyncPhase::NewBlocksOnly => {
                    self.peers.set(j, PeerSyncState { state: PeerSyncPhase::Idle, ..p });
                },
                _ => {},
            }
            j += 1;
        }
        assert(self.peers@ =~= cancel_downloads(before));
    }

    /// Takes note that block `c` is the common ancestor with the peer at
    /// index `i`.
    fn found(&mut self, i: usize, c: u64)
        requires
            i < old(self).peers.len(),
        ensures
            final(self)@ == old(self)@.found(i as int, c),
            final(self).peers.len() == old(self).peers.len(),
    {
        let p = self.peers[i];
        self.peers.set(i, PeerSyncState { common_ancestor: Some(c), ..p });
        let start = next_u64(c);
        let at = self.schedule.next_import();
        if c < p.search.top || (start > at && self.schedule.is_idle()) {
            self.reset_plan(start);
        }
    }

    /// Asks the peer at index `i` for its best header.
    fn ask_head(&mut self, i: usize, now: u64, actions: &mut Vec<Action>)
        requires
            i < old(self).peers.len(),
        ensures
            final(self)@ == old(self)@.ask_head(i as int, now).model,
            final(actions)@ == old(actions)@ + old(self)@.ask_head(i as int, now).actions,
            final(self).peers.len() == old(self).peers.len(),
    {
        let p = self.peers[i];
        let q = self.take_request(RequestKind::Headers, RequestTarget::Hash(p.best_hash), now);
        self.peers.set(
            i,
            PeerSyncState {
                state: PeerSyncPhase::SearchingCommonAncestor,
                pending_request: Some(q),
                asking_hash: Some(p.best_hash),
                ..p
            },
        );
        actions.push(
            Action::Send { peer: p.peer_id, request: Request::HeaderByHash { hash: p.best_hash } },
        );
        assert(actions@ =~= old(actions)@ + old(self)@.ask_head(i as int, now).actions);
    }

    /// Asks the peer at index `i` for the probe of the search `s`.
    fn probe(&mut self, i: usize, now: u64, s: AncestorSearch, actions: &mut Vec<Action>)
        requires
            i < old(self).peers.len(),
            !s.spec_is_done(),
        ensures
            final(self)@ == old(self)@.probe(i as int, now, s).model,
            final(actions)@ == old(actions)@ + old(self)@.probe(i as int, now, s).actions,
            final(self).peers.len() == old(self).peers.len(),
    {
        let p = self.peers[i];
        let n = match s.next_probe() {
            Some(n) => n,
            None => 0,
        };
        let q = self.take_request(
            RequestKind::Headers,
            RequestTarget::Range(BlockRange { lo: n, hi: n }),
            now,
        );
        self.peers.set(
            i,
            PeerSyncState {
                state: PeerSyncPhase::SearchingCommonAncestor,
                pending_request: Some(q),
                asking_hash: None,
                search: s,
                ..p
            },
        );
        actions.push(
            Action::Send { peer: p.peer_id, request: Request::Headers { start: n, count: 1 } },
        );
        assert(actions@ =~= old(actions)@ + old(self)@.probe(i as int, now, s).actions);
    }

    /// Sets the range `g` aside for the peer at index `i`, in a schedule
    /// that has it marked already, and sends the request.
    fn reserve(
        &mut self,
        i: usize,
        now: u64,
        phase: PeerSyncPhase,
        kind: RequestKind,
        g: BlockRange,
        request: Request,
        actions: &mut Vec<Action>,
    )
        requires
            i < old(self).peers.len(),
        ensures
            final(self)@ == old(self)@.reserve(
                i as int,
                now,
                old(self)@.schedule,
                phase,
                kind,
                g,
                request,
            ).model,
            final(actions)@ == old(actions)@ + old(self)@.reserve(
                i as int,
                now,
                old(self)@.schedule,
                phase,
                kind,
                g,
                request,
            ).actions,
            final(self).peers.len() == old(self).peers.len(),
    {
        let p = self.peers[i];
        let q = self.take_request(kind, RequestTarget::Range(g), now);
        self.peers.set(i, PeerSyncState { state: phase, pending_request: Some(q), ..p });
        actions.push(Action::Send { peer: p.peer_id, request });
        assert(actions@ =~= old(actions)@ + seq![Action::Send { peer: p.peer_id, request }]);
    }

    /// Gives the peer at index `i` its share of the download.
    fn download(&mut self, i: usize, now: u64, height: u64, actions: &mut Vec<Action>)
        requires
            i < old(self).peers.len(),
        ensures
            final(self)@ == old(self)@.download(i as int, now, height).model,
            final(actions)@ == old(actions)@ + old(self)@.download(i as int, now, height).actions,
            final(self).peers.len() == old(self).peers.len(),
    {
        let p = self.peers[i];
        match self.schedule.wanted_bodies(self.config.max_bodies) {
            Some(g) => {
                self.schedule.reserve_bodies(g);
                self.reserve(
                    i,
                    now,
                    PeerSyncPhase::DownloadingBodies,
                    RequestKind::Bodies,
                    g,
                    Request::Bodies { first: g.lo, last: g.hi },
                    actions,
                );
            },
            None => match self.schedule.wanted_receipts(self.config.max_receipts) {
                Some(g) => {
                    self.schedule.reserve_receipts(g);
                    self.reserve(
                        i,
                        now,
                        PeerSyncPhase::DownloadingReceipts,
                        RequestKind::Receipts,
                        g,
                        Request::Receipts { first: g.lo, last: g.hi },
                        actions,
                    );
                },
                None => match self.schedule.free_headers(self.config.max_headers, height) {
                    Some(g) => {
                        self.schedule.reserve_headers(g);
                        self.reserve(
                            i,
                            now,
                            PeerSyncPhase::DownloadingHeaders,
                            RequestKind::Headers,
                            g,
                            Request::Headers { start: g.lo, count: g.hi - g.lo + 1 },
                            actions,
                        );
                    },
                    None => {
                        if height < self.schedule.next_import() {
                            self.peers.set(
                                i,
                                PeerSyncState { state: PeerSyncPhase::Confirmed, ..p },
                            );
                        }
                        assert(actions@ =~= old(actions)@ + Seq::<Action>::empty());
                    },
                },
            },
        }
    }

    /// Gives the peer at index `i` work, if it may have any.
    fn assign(&mut self, chain: &ChainInfo, now: u64, i: usize, actions: &mut Vec<Action>)
        requires
            i < old(self).peers.len(),
        ensures
            final(self)@ == old(self)@.assign(*chain, now, i as int).model,
            final(actions)@ == old(actions)@ + old(self)@.assign(*chain, now, i as int).actions,
            final(self).peers.len() == old(self).peers.len(),
    {
        let p = self.peers[i];
        if !p.is_eligible() {
            assert(actions@ =~= old(actions)@ + Seq::<Action>::empty());
            return ;
        }
        if !p.is_ahead(chain) {
            self.peers.set(i, PeerSyncState { state: PeerSyncPhase::NewBlocksOnly, ..p });
            assert(actions@ =~= old(actions)@ + Seq::<Action>::empty());
            return ;
        }
        match p.latest_known_number {
            None => {
                self.ask_head(i, now, actions);
            },
            Some(height) => {
                if p.common_ancestor.is_none() {
                    let top = if height <= chain.best_number {
                        height
                    } else {
                        chain.best_number
                    };
                    let s = AncestorSearch::start(top);
                    self.peers.set(i, PeerSyncState { search: s, probes: 0, ..p });
                    if s.is_done() {
                        self.found(i, s.lo);
                        self.download(i, now, height, actions);
                    } else {
                        self.probe(i, now, s, actions);
                    }
                } else {
                    self.download(i, now, height, actions);
                }
            },
        }
    }

    /// Gives work to every peer that may have any, oldest connection first.
    fn assign_all(&mut self, chain: &ChainInfo, now: u64, actions: &mut Vec<Action>)
        ensures
            final(self)@ == old(self)@.assign_all(*chain, now).model,
            final(actions)@ == old(actions)@ + old(self)@.assign_all(*chain, now).actions,
            final(self).peers.len() == old(self).peers.len(),
    {
        let n = self.peers.len();
        let ghost goal = self@.assign_all(*chain, now);
        let mut i: usize = 0;
        assert(actions@ + self@.assign_from(*chain, now, 0, n as int).actions =~= old(actions)@
            + goal.actions);
        while i < n
            invariant
                i <= n,
                n == self.peers.len(),
                self@.assign_from(*chain, now, i as int, n as int).model == goal.model,
                actions@ + self@.assign_from(*chain, now, i as int, n as int).actions == old(
                    actions,
                )@ + goal.actions,
            decreases n - i,
        {
            let ghost here = self@;
            let ghost had = actions@;
            self.assign(chain, now, i, actions);
            proof {
                let first = here.assign(*chain, now, i as int);
                let rest = first.model.assign_from(*chain, now, i + 1, n as int);
                assert(here.assign_from(*chain, now, i as int, n as int) == rest.after(
                    first.actions,
                ));
                assert(actions@ + rest.actions =~= had + (first.actions + rest.actions));
            }
            i += 1;
        }
        assert(actions@ + Seq::<Action>::empty() =~= actions@);
    }

    /// A peer has connected.
    pub fn on_peer_connected(&mut self, chain: &ChainInfo, now: u64, peer: PeerId) -> (actions: Vec<
        Action,
    >)
        ensures
            final(self)@ == old(self)@.connect(*chain, now, peer).model,
            actions@ == old(self)@.connect(*chain, now, peer).actions,
            old(self)@.wf() ==> final(self)@.wf(),
    {
        proof {
            if self@.wf() {
                crate::laws::lemma_connect_wf(self@, *chain, now, peer);
            }
        }
        let mut actions: Vec<Action> = Vec::new();
        match self.find(peer) {
            Some(_) => {},
            None => {
                self.peers.push(PeerSyncState::connected(peer, now));
                actions.push(
                    Action::Send {
                        peer,
                        request: Request::Status(
                            StatusMessage {
                                protocol_version: crate::io::ETH_PROTOCOL_VERSION_63,
                                network_id: self.config.network_id,
                                total_difficulty: chain.total_difficulty,
                                best_hash: chain.best_hash,
                                genesis_hash: chain.genesis_hash,
                            },
                        ),
                    },
                );
                assert(actions@ =~= old(self)@.connect(*chain, now, peer).actions);
            },
        }
        actions
    }

    /// A peer's handshake has come.
    fn on_status(&mut self, chain: &ChainInfo, now: u64, peer: PeerId, msg: StatusMessage) -> (actions:
        Vec<Action>)
        ensures
            final(self)@ == old(self)@.on_status(*chain, now, peer, msg).model,
            actions@ == old(self)@.on_status(*chain, now, peer, msg).actions,
    {
        let mut actions: Vec<Action> = Vec::new();
        match self.find(peer) {
            None => {},
            Some(i) => {
                let p = self.peers[i];
                if p.admitted {
                } else if !(msg.genesis_hash == chain.genesis_hash && msg.network_id
                    == self.config.network_id) {
                    self.remove_peer(i);
                    actions.push(Action::Disable { peer });
                    assert(actions@ =~= seq![Action::Disable { peer }]);
                } else {
                    self.set_peer(i, p.with_status(msg));
                    self.assign(chain, now, i, &mut actions);
                }
            },
        }
        proof {
            assert(Seq::<Action>::empty() + old(self)@.on_status(*chain, now, peer, msg).actions
                =~= old(self)@.on_status(*chain, now, peer, msg).actions);
        }
        actions
    }

    /// The peer at index `i` has answered the request for its best header.
    fn on_head(
        &mut self,
        chain: &ChainInfo,
        now: u64,
        i: usize,
        headers: &Vec<HeaderReport>,
        actions: &mut Vec<Action>,
    )
        requires
            i < old(self).peers.len(),
        ensures
            final(self)@ == old(self)@.on_head(*chain, now, i as int, headers@).model,
            final(actions)@ == old(actions)@ + old(self)@.on_head(
                *chain,
                now,
                i as int,
                headers@,
            ).actions,
    {
        let p = self.peers[i];
        let fits = headers.len() == 1 && match p.asking_hash {
            Some(h) => h == headers[0].header.hash,
            None => false,
        };
        if fits {
            let number = headers[0].header.number;
            self.peers.set(i, PeerSyncState { latest_known_number: Some(number), ..p.released() });
            self.note_height(number);
            self.assign(chain, now, i, actions);
        } else {
            self.penalize(i);
            assert(actions@ =~= old(actions)@ + Seq::<Action>::empty());
        }
    }

    /// The peer at index `i` has answered the probe for block `n`.
    fn on_probe(
        &mut self,
        chain: &ChainInfo,
        now: u64,
        i: usize,
        n: u64,
        headers: &Vec<HeaderReport>,
        actions: &mut Vec<Action>,
    )
        requires
            i < old(self).peers.len(),
        ensures
            final(self)@ == old(self)@.on_probe(*chain, now, i as int, n, headers@).model,
            final(actions)@ == old(actions)@ + old(self)@.on_probe(
                *chain,
                now,
                i as int,
                n,
                headers@,
            ).actions,
    {
        let p = self.peers[i];
        let fits = headers.len() == 1 && headers[0].header.number == n && match p.search.next_probe() {
            Some(m) => m == n,
            None => false,
        };
        if fits {
            let mut s = p.search;
            s.advance(headers[0].known);
            let q = PeerSyncState { search: s, probes: next_u32(p.probes), ..p };
            if s.is_done() {
                self.peers.set(i, q.released());
                self.found(i, s.lo);
                self.assign_all(chain, now, actions);
            } else if q.probes >= self.config.max_probes {
                self.peers.set(
                    i,
                    PeerSyncState { state: PeerSyncPhase::NewBlocksOnly, ..q.released() },
                );
                assert(actions@ =~= old(actions)@ + Seq::<Action>::empty());
            } else {
                self.peers.set(i, q);
                self.probe(i, now, s, actions);
            }
        } else {
            self.penalize(i);
            assert(actions@ =~= old(actions)@ + Seq::<Action>::empty());
        }
    }

    /// The peer at index `i` has answered the request for the headers `r`.
    fn on_batch(
        &mut self,
        chain: &ChainInfo,
        now: u64,
        i: usize,
        r: BlockRange,
        headers: &Vec<HeaderReport>,
        actions: &mut Vec<Action>,
    )
        requires
            i < old(self).peers.len(),
        ensures
            final(self)@ == old(self)@.on_batch(*chain, now, i as int, r, headers@).model,
            final(actions)@ == old(actions)@ + old(self)@.on_batch(
                *chain,
                now,
                i as int,
                r,
                headers@,
            ).actions,
    {
        let p = self.peers[i];
        if r.lo <= r.hi && check_batch(r, headers) {
            self.schedule.accept_headers(r, headers, p.peer_id);
            self.peers.set(i, p.released());
            self.note_height(headers[headers.len() - 1].header.number);
            self.assign_all(chain, now, actions);
        } else {
            self.penalize(i);
            self.assign_all(chain, now, actions);
        }
    }

    /// Headers have come from a peer.
    fn on_headers(&mut self, chain: &ChainInfo, now: u64, peer: PeerId, headers: &Vec<HeaderReport>)
        -> (actions: Vec<Action>)
        ensures
            final(self)@ == old(self)@.on_headers(*chain, now, peer, headers@).model,
            actions@ == old(self)@.on_headers(*chain, now, peer, headers@).actions,
    {
        let mut actions: Vec<Action> = Vec::new();
        match self.find(peer) {
            None => {},
            Some(i) => {
                let p = self.peers[i];
                match p.state {
                    PeerSyncPhase::SearchingCommonAncestor => match p.pending_range() {
                        Some(r) => {
                            self.on_probe(chain, now, i, r.lo, headers, &mut actions);
                        },
                        None => {
                            self.on_head(chain, now, i, headers, &mut actions);
                        },
                    },
                    _ => match p.header_range() {
                        Some(r) => {
                            self.on_batch(chain, now, i, r, headers, &mut actions);
                        },
                        None => {},
                    },
                }
            },
        }
        proof {
            let goal = old(self)@.on_headers(*chain, now, peer, headers@).actions;
            assert(Seq::<Action>::empty() + goal =~= goal);
        }
        actions
    }

    /// Hands over the blocks that are whole after bodies or receipts of the
    /// peer at index `i` were taken, ends the peer's request and gives the
    /// peers work anew.
    fn finish(&mut self, chain: &ChainInfo, now: u64, i: usize) -> (actions: Vec<Action>)
        requires
            i < old(self).peers.len(),
        ensures
            final(self)@ == old(self)@.finish(*chain, now, i as int).model,
            actions@ == old(self)@.finish(*chain, now, i as int).actions,
    {
        proof {
            lemma_ready_from_bounded(self@.schedule.blocks, self@.schedule.next_import);
        }
        let mut actions = self.schedule.drain();
        let count = actions.len() as u64;
        self.received = if self.received > u64::MAX - count {
            u64::MAX
        } else {
            self.received + count
        };
        let p = self.peers[i];
        self.peers.set(i, p.released());
        self.assign_all(chain, now, &mut actions);
        actions
    }

    /// Counts a failure against the peer at index `i` and gives the peers
    /// work anew.
    fn fail(&mut self, chain: &ChainInfo, now: u64, i: usize) -> (actions: Vec<Action>)
        requires
            i < old(self).peers.len(),
        ensures
            final(self)@ == old(self)@.penalize(i as int).assign_all(*chain, now).model,
            actions@ == old(self)@.penalize(i as int).assign_all(*chain, now).actions,
    {
        let mut actions: Vec<Action> = Vec::new();
        self.penalize(i);
        self.assign_all(chain, now, &mut actions);
        proof {
            let goal = old(self)@.penalize(i as int).assign_all(*chain, now).actions;
            assert(Seq::<Action>::empty() + goal =~= goal);
        }
        actions
    }

    /// Bodies have come from a peer.
    fn on_bodies(&mut self, chain: &ChainInfo, now: u64, peer: PeerId, bodies: &Vec<BlockBody>) -> (actions:
        Vec<Action>)
        ensures
            final(self)@ == old(self)@.on_bodies(*chain, now, peer, bodies@).model,
            actions@ == old(self)@.on_bodies(*chain, now, peer, bodies@).actions,
    {
        match self.find(peer) {
            None => Vec::new(),
            Some(i) => match self.peers[i].body_range() {
                None => Vec::new(),
                Some(r) => {
                    if r.lo <= r.hi && self.schedule.bodies_match(r, bodies) {
                        self.schedule.accept_bodies(r, bodies.len() as u64, peer);
                        self.finish(chain, now, i)
                    } else {
                        self.fail(chain, now, i)
                    }
                },
            },
        }
    }

    /// Receipts have come from a peer.
    fn on_receipts(
        &mut self,
        chain: &ChainInfo,
        now: u64,
        peer: PeerId,
        receipts: &Vec<BlockReceipts>,
    ) -> (actions: Vec<Action>)
        ensures
            final(self)@ == old(self)@.on_receipts(*chain, now, peer, receipts@).model,
            actions@ == old(self)@.on_receipts(*chain, now, peer, receipts@).actions,
    {
        match self.find(peer) {
            None => Vec::new(),
            Some(i) => match self.peers[i].receipt_range() {
                None => Vec::new(),
                Some(r) => {
                    if r.lo <= r.hi && self.schedule.receipts_match(r, receipts) {
                        self.schedule.accept_receipts(r, receipts.len() as u64, peer);
                        self.finish(chain, now, i)
                    } else {
                        self.fail(chain, now, i)
                    }
                },
            },
        }
    }

    /// Bytes that stand for no packet have come from a peer.
    fn on_malformed(&mut self, chain: &ChainInfo, now: u64, peer: PeerId) -> (actions: Vec<Action>)
        ensures
            final(self)@ == old(self)@.on_malformed(*chain, now, peer).model,
            actions@ == old(self)@.on_malformed(*chain, now, peer).actions,
    {
        match self.find(peer) {
            None => Vec::new(),
            Some(i) => self.fail(chain, now, i),
        }
    }

    /// A peer has announced a block.
    fn on_new_block(
        &mut self,
        chain: &ChainInfo,
        now: u64,
        peer: PeerId,
        header: BlockHeader,
        total_difficulty: U256,
        known: bool,
    ) -> (actions: Vec<Action>)
        ensures
            final(self)@ == old(self)@.on_new_block(
                *chain,
                now,
                peer,
                header,
                total_difficulty,
                known,
            ).model,
            actions@ == old(self)@.on_new_block(
                *chain,
                now,
                peer,
                header,
                total_difficulty,
                known,
            ).actions,
    {
        let mut actions: Vec<Action> = Vec::new();
        match self.find(peer) {
            None => {},
            Some(i) => {
                let p = self.peers[i];
                if p.admitted {
                    self.peers.set(
                        i,
                        PeerSyncState {
                            total_difficulty,
                            ..p.announce(header.hash, header.number, known)
                        },
                    );
                    self.note_height(header.number);
                    self.assign(chain, now, i, &mut actions);
                }
            },
        }
        proof {
            let goal = old(self)@.on_new_block(
                *chain,
                now,
                peer,
                header,
                total_difficulty,
                known,
            ).actions;
            assert(Seq::<Action>::empty() + goal =~= goal);
        }
        actions
    }

    /// A peer has announced blocks by their hashes.
    fn on_new_hashes(&mut self, chain: &ChainInfo, now: u64, peer: PeerId, anns: &Vec<Announcement>)
        -> (actions: Vec<Action>)
        ensures
            final(self)@ == old(self)@.on_new_hashes(*chain, now, peer, anns@).model,
            actions@ == old(self)@.on_new_hashes(*chain, now, peer, anns@).actions,
    {
        let mut actions: Vec<Action> = Vec::new();
        match self.find(peer) {
            None => {},
            Some(i) => {
                let p = self.peers[i];
                if p.admitted {
                    match pick_news(anns) {
                        None => {},
                        Some(a) => {
                            self.peers.set(i, p.announce(a.hash, a.number, false));
                            self.note_height(a.number);
                            self.assign(chain, now, i, &mut actions);
                        },
                    }
                }
            },
        }
        proof {
            let goal = old(self)@.on_new_hashes(*chain, now, peer, anns@).actions;
            assert(Seq::<Action>::empty() + goal =~= goal);
        }
        actions
    }

    /// A packet has come from a peer.
    pub fn on_packet(&mut self, chain: &ChainInfo, now: u64, peer: PeerId, packet: Packet) -> (actions:
        Vec<Action>)
        ensures
            final(self)@ == old(self)@.on_packet(*chain, now, peer, packet).model,
            actions@ == old(self)@.on_packet(*chain, now, peer, packet).actions,
            old(self)@.wf() ==> final(self)@.wf(),
    {
        proof {
            if self@.wf() {
                crate::laws::lemma_on_packet_wf(self@, *chain, now, peer, packet);
            }
        }
        match packet {
            Packet::Status(msg) => self.on_status(chain, now, peer, msg),
            Packet::BlockHeaders(headers) => self.on_headers(chain, now, peer, &headers),
            Packet::BlockBodies(bodies) => self.on_bodies(chain, now, peer, &bodies),
            Packet::Receipts(receipts) => self.on_receipts(chain, now, peer, &receipts),
            Packet::NewBlockHashes(anns) => self.on_new_hashes(chain, now, peer, &anns),
            Packet::NewBlock { header, total_difficulty, known } => self.on_new_block(
                chain,
                now,
                peer,
                header,
                total_difficulty,
                known,
            ),
            Packet::Other(_) => Vec::new(),
            Packet::Malformed => self.on_malformed(chain, now, peer),
        }
    }

    /// A peer's connection has ended.
    pub fn on_peer_aborting(&mut self, chain: &ChainInfo, now: u64, peer: PeerId) -> (actions: Vec<
        Action,
    >)
        ensures
            final(self)@ == old(self)@.disconnect(*chain, now, peer).model,
            actions@ == old(self)@.disconnect(*chain, now, peer).actions,
            old(self)@.wf() ==> final(self)@.wf(),
    {
        proof {
            if self@.wf() {
                crate::laws::lemma_disconnect_wf(self@, *chain, now, peer);
            }
        }
        let mut actions: Vec<Action> = Vec::new();
        match self.find(peer) {
            None => {},
            Some(i) => {
                self.release(i);
                self.remove_peer(i);
                self.assign_all(chain, now, &mut actions);
            },
        }
        proof {
            let goal = old(self)@.disconnect(*chain, now, peer).actions;
            assert(Seq::<Action>::empty() + goal =~= goal);
        }
        actions
    }

    /// Whether the maintenance at `now` drops the record at index `i`.
    fn drops(&self, now: u64, i: usize) -> (b: bool)
        requires
            i < self.peers.len(),
        ensures
            b == self@.drops(now, i as int),
    {
        let p = self.peers[i];
        if !p.admitted {
            expired(now, p.connected_at, self.config.handshake_timeout)
        } else if p.timed_out(now, self.config.request_timeout) {
            next_u32(p.failures) > self.config.max_failures
        } else {
            p.failures > self.config.max_failures
        }
    }

    /// Maintains every record, oldest first.
    fn sweep(&mut self, now: u64, actions: &mut Vec<Action>)
        ensures
            final(self)@ == old(self)@.sweep(now, 0, old(self)@.peers.len()).model,
            final(actions)@ == old(actions)@ + old(self)@.sweep(
                now,
                0,
                old(self)@.peers.len(),
            ).actions,
    {
        let ghost goal = self@.sweep(now, 0, self@.peers.len());
        let mut i: usize = 0;
        let mut left: usize = self.peers.len();
        assert(actions@ + goal.actions =~= old(actions)@ + goal.actions);
        while left > 0
            invariant
                i + left == self.peers.len(),
                self@.sweep(now, i as int, left as nat).model == goal.model,
                actions@ + self@.sweep(now, i as int, left as nat).actions == old(actions)@
                    + goal.actions,
            decreases left,
        {
            let ghost here = self@;
            let ghost had = actions@;
            let p = self.peers[i];
            if self.drops(now, i) {
                self.release(i);
                self.remove_peer(i);
                actions.push(Action::Disconnect { peer: p.peer_id });
                proof {
                    let rest = here.sweep_peer(now, i as int).sweep(now, i as int, (left - 1) as nat);
                    assert(here.sweep(now, i as int, left as nat) == rest.after(
                        seq![Action::Disconnect { peer: p.peer_id }],
                    ));
                    assert(actions@ + rest.actions =~= had + (seq![
                        Action::Disconnect { peer: p.peer_id },
                    ] + rest.actions));
                }
            } else {
                if !p.admitted {
                } else if p.timed_out(now, self.config.request_timeout) {
                    self.penalize(i);
                } else {
                    self.peers.set(i, PeerSyncState { resting: false, ..p });
                }
                i += 1;
            }
            left -= 1;
        }
        assert(actions@ + Seq::<Action>::empty() =~= actions@);
    }

    /// The maintenance timer has fired.
    pub fn maintain_peers(&mut self, chain: &ChainInfo, now: u64) -> (actions: Vec<Action>)
        ensures
            final(self)@ == old(self)@.tick(*chain, now).model,
            actions@ == old(self)@.tick(*chain, now).actions,
            old(self)@.wf() ==> final(self)@.wf(),
    {
        proof {
            if self@.wf() {
                crate::laws::lemma_tick_wf(self@, *chain, now);
            }
        }
        let mut actions: Vec<Action> = Vec::new();
        self.sweep(now, &mut actions);
        let ghost swept = old(self)@.sweep(now, 0, old(self)@.peers.len());
        assert(actions@ =~= swept.actions);
        self.rescan(chain);
        self.assign_all(chain, now, &mut actions);
        actions
    }

    /// The number of peers to which a request is under way.
    fn active(&self) -> (n: usize)
        ensures
            n == active_count(self.peers@),
    {
        let len = self.peers.len();
        let mut searching: usize = 0;
        let mut headers: usize = 0;
        let mut bodies: usize = 0;
        let mut receipts: usize = 0;
        let mut i: usize = 0;
        while i < len
            invariant
                i <= len,
                len == self.peers.len(),
                searching == count_phase(
                    self.peers@,
                    PeerSyncPhase::SearchingCommonAncestor,
                    i as int,
                ),
                headers == count_phase(self.peers@, PeerSyncPhase::DownloadingHeaders, i as int),
                bodies == count_phase(self.peers@, PeerSyncPhase::DownloadingBodies, i as int),
                receipts == count_phase(self.peers@, PeerSyncPhase::DownloadingReceipts, i as int),
                searching + headers + bodies + receipts <= i,
            decreases len - i,
        {
            match self.peers[i].state {
                PeerSyncPhase::SearchingCommonAncestor => {
                    searching += 1;
                },
                PeerSyncPhase::DownloadingHeaders => {
                    headers += 1;
                },
                PeerSyncPhase::DownloadingBodies => {
                    bodies += 1;
                },
                PeerSyncPhase::DownloadingReceipts => {
                    receipts += 1;
                },
                _ => {},
            }
            i += 1;
        }
        searching + headers + bodies + receipts
    }

    /// Looks at the peers again, where that is due.
    fn rescan(&mut self, chain: &ChainInfo)
        ensures
            final(self)@ == old(self)@.rescan(*chain),
            final(self).peers.len() == old(self).peers.len(),
    {
        if self.active() == 0 && chain.best_number < self.highest_block {
            let ghost before = self.peers@;
            let ghost goal = Seq::new(before.len(), |j: int| awakened(before[j]));
            let mut j: usize = 0;
            while j < self.peers.len()
                invariant
                    j <= self.peers.len(),
                    self.peers@.len() == before.len(),
                    goal == Seq::new(before.len(), |j: int| awakened(before[j])),
                    forall|k: int| 0 <= k < j ==> self.peers@[k] == goal[k],
                    forall|k: int| j <= k < before.len() ==> self.peers@[k] == before[k],
                    self.config == old(self).config,
                    self.schedule == old(self).schedule,
                    self.starting_block == old(self).starting_block,
                    self.highest_block == old(self).highest_block,
                    self.received == old(self).received,
                    self.next_request_id == old(self).next_request_id,
                decreases self.peers.len() - j,
            {
                let p = self.peers[j];
                match p.state {
                    PeerSyncPhase::Confirmed => {
                        self.peers.set(j, PeerSyncState { state: PeerSyncPhase::Idle, ..p });
                    },
                    PeerSyncPhase::NewBlocksOnly => {
                        self.peers.set(j, PeerSyncState { state: PeerSyncPhase::Idle, ..p });
                    },
                    _ => {},
                }
                j += 1;
            }
            assert(self.peers@ =~= goal);
        }
    }

    /// Aborts the synchronisation. Nothing is sent.
    pub fn abort(&mut self)
        ensures
            final(self)@ == old(self)@.abort(),
            old(self)@.wf() ==> final(self)@.wf(),
    {
        proof {
            if self@.wf() {
                crate::laws::lemma_abort_wf(self@);
            }
        }
        self.schedule.reset(self.schedule.next_import());
        let ghost before = self.peers@;
        let mut j: usize = 0;
        while j < self.peers.len()
            invariant
                j <= self.peers.len(),
                self.peers@.len() == before.len(),
                forall|k: int| 0 <= k < j ==> self.peers@[k] == abort_all(before)[k],
                forall|k: int| j <= k < before.len() ==> self.peers@[k] == before[k],
                self.config == old(self).config,
                self.schedule@ == ScheduleModel::empty(
                    old(self)@.schedule.next_import,
                    old(self)@.schedule.fast,
                ),
                self.starting_block == old(self).starting_block,
                self.highest_block == old(self).highest_block,
                self.received == old(self).received,
                self.next_request_id == old(self).next_request_id,
            decreases self.peers.len() - j,
        {
            let p = self.peers[j];
            self.peers.set(
                j,
                PeerSyncState {
                    state: PeerSyncPhase::Aborted,
                    pending_request: None,
                    asking_hash: None,
                    ..p
                },
            );
            j += 1;
        }
        assert(self.peers@ =~= abort_all(before));
    }

    /// Begins the synchronisation anew from the local best block.
    pub fn restart(&mut self, chain: &ChainInfo, now: u64) -> (actions: Vec<Action>)
        ensures
            final(self)@ == old(self)@.restart(*chain, now).model,
            actions@ == old(self)@.restart(*chain, now).actions,
            old(self)@.wf() ==> final(self)@.wf(),
    {
        proof {
            if self@.wf() {
                crate::laws::lemma_restart_wf(self@, *chain, now);
            }
        }
        let mut actions: Vec<Action> = Vec::new();
        self.schedule.reset(next_u64(chain.best_number));
        self.starting_block = chain.best_number;
        if chain.best_number > self.highest_block {
            self.highest_block = chain.best_number;
        }
        self.received = 0;
        let ghost before = self.peers@;
        let mut j: usize = 0;
        while j < self.peers.len()
            invariant
                j <= self.peers.len(),
                self.peers@.len() == before.len(),
                forall|k: int| 0 <= k < j ==> self.peers@[k] == restart_all(before)[k],
                forall|k: int| j <= k < before.len() ==> self.peers@[k] == before[k],
                self.config == old(self).config,
                self.schedule@ == ScheduleModel::empty(
                    crate::peer::spec_next_u64(chain.best_number),
                    old(self)@.schedule.fast,
                ),
                self.starting_block == chain.best_number,
                self.highest_block == crate::model::higher(
                    old(self).highest_block,
                    chain.best_number,
                ),
                self.received == 0,
                self.next_request_id == old(self).next_request_id,
            decreases self.peers.len() - j,
        {
            let p = self.peers[j];
            if p.admitted {
                self.peers.set(
                    j,
                    PeerSyncState {
                        state: PeerSyncPhase::Idle,
                        pending_request: None,
                        asking_hash: None,
                        common_ancestor: None,
                        probes: 0,
                        resting: false,
                        ..p
                    },
                );
            }
            j += 1;
        }
        assert(self.peers@ =~= restart_all(before));
        self.assign_all(chain, now, &mut actions);
        proof {
            let goal = old(self)@.restart(*chain, now).actions;
            assert(Seq::<Action>::empty() + goal =~= goal);
        }
        actions
    }

    /// The chain store has refused block `number`, which `peer` supplied.
    pub fn on_block_import_failed(&mut self, chain: &ChainInfo, now: u64, number: u64, peer: PeerId)
        -> (actions: Vec<Action>)
        ensures
            final(self)@ == old(self)@.import_rejected(*chain, now, number, peer).model,
            actions@ == old(self)@.import_rejected(*chain, now, number, peer).actions,
            old(self)@.wf() ==> final(self)@.wf(),
    {
        proof {
            if self@.wf() {
                crate::laws::lemma_import_rejected_wf(self@, *chain, now, number, peer);
            }
        }
        let mut actions: Vec<Action> = Vec::new();
        let ghost goal = old(self)@.import_rejected(*chain, now, number, peer).actions;
        if number >= self.schedule.next_import() {
            return actions;
        }
        match self.find(peer) {
            None => {
                self.reset_plan(next_u64(chain.best_number));
                self.assign_all(chain, now, &mut actions);
                assert(Seq::<Action>::empty() + goal =~= goal);
            },
            Some(i) => {
                self.release(i);
                self.remove_peer(i);
                self.reset_plan(next_u64(chain.best_number));
                actions.push(Action::Disconnect { peer });
                assert(actions@ =~= seq![Action::Disconnect { peer }]);
                self.assign_all(chain, now, &mut actions);
            },
        }
        actions
    }

    /// A snapshot of the synchronisation.
    pub fn status(&self) -> (s: SyncStatus)
        ensures
            s == self@.status(),
    {
        let n = self.peers.len();
        let mut admitted: usize = 0;
        let mut confirmed: usize = 0;
        let mut news: usize = 0;
        let mut i: usize = 0;
        while i < n
            invariant
                i <= n,
                n == self.peers.len(),
                admitted == count_admitted(self.peers@, i as int),
                confirmed == count_phase(self.peers@, PeerSyncPhase::Confirmed, i as int),
                news == count_phase(self.peers@, PeerSyncPhase::NewBlocksOnly, i as int),
                admitted <= i,
                confirmed + news <= i,
            decreases n - i,
        {
            let p = self.peers[i];
            if p.admitted {
                admitted += 1;
            }
            match p.state {
                PeerSyncPhase::Confirmed => {
                    confirmed += 1;
                },
                PeerSyncPhase::NewBlocksOnly => {
                    news += 1;
                },
                _ => {},
            }
            i += 1;
        }
        let active = self.active();
        let state = if active > 0 || self.schedule.has_queued() {
            SyncOverallState::Blocks
        } else if confirmed > 0 {
            SyncOverallState::Confirmed
        } else if news > 0 {
            SyncOverallState::NewBlocks
        } else if admitted > 0 {
            SyncOverallState::Waiting
        } else {
            SyncOverallState::Idle
        };
        SyncStatus {
            state,
            starting_block: self.starting_block,
            highest_block_seen: self.highest_block,
            blocks_received: self.received,
            blocks_total: if self.highest_block > self.starting_block {
                self.highest_block - self.starting_block
            } else {
                0
            },
            num_peers: admitted,
            num_active_peers: active,
        }
    }

    /// Takes one event, whatever it is, and returns what is to be done.
    pub fn handle(&mut self, chain: &ChainInfo, now: u64, event: Event) -> (actions: Vec<Action>)
        ensures
            final(self)@ == old(self)@.apply(*chain, now, event).model,
            actions@ == old(self)@.apply(*chain, now, event).actions,
            old(self)@.wf() ==> final(self)@.wf(),
    {
        proof {
            if self@.wf() {
                crate::laws::lemma_apply_wf(self@, *chain, now, event);
            }
        }
        match event {
            Event::Connected { peer } => self.on_peer_connected(chain, now, peer),
            Event::Received { peer, packet } => self.on_packet(chain, now, peer, packet),
            Event::Disconnected { peer } => self.on_peer_aborting(chain, now, peer),
            Event::Timer => self.maintain_peers(chain, now),
            Event::Abort => {
                self.abort();
                Vec::new()
            },
            Event::Restart => self.restart(chain, now),
            Event::ImportFailed { number, peer } => self.on_block_import_failed(
                chain,
                now,
                number,
                peer,
            ),
        }
    }
}

} // verus!
