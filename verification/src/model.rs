//! The synchronisation as a state machine: its state, and for every event
//! the state that follows and the actions to perform.
//!
//! Everything here is ghost code. `ChainSync` computes these functions; the
//! laws of the machine are proved of them.

use vstd::prelude::*;
use crate::io::{
    Action,
    Announcement,
    Event,
    Packet,
    Request,
    StatusMessage,
    ETH_PROTOCOL_VERSION_63,
};
use crate::peer::{
    spec_expired,
    spec_next_u32,
    spec_next_u64,
    PeerSyncPhase,
    PeerSyncState,
    PendingRequest,
    RequestKind,
    RequestTarget,
};
use crate::range_collection::BlockRange;
use crate::schedule::{valid_batch, ScheduleModel};
use crate::search::AncestorSearch;
use crate::types::{
    BlockBody,
    BlockHeader,
    BlockReceipts,
    ChainInfo,
    HeaderReport,
    PeerId,
    U256,
};

verus! {

/// The policy of the engine.
#[derive(Clone, Copy, Debug, PartialEq, Eq, Structural)]
pub struct SyncConfig {
    /// The network that peers must be on.
    pub network_id: u64,
    /// The most headers to ask one peer for at a time.
    pub max_headers: u64,
    /// The most bodies to ask one peer for at a time.
    pub max_bodies: u64,
    /// The most receipts to ask one peer for at a time.
    pub max_receipts: u64,
    /// Whether receipts are downloaded too: the fast variant.
    pub fast: bool,
    /// The most probes to spend on the search for a common ancestor.
    pub max_probes: u32,
    /// The number of failures that a peer may have without being dropped.
    pub max_failures: u32,
    /// How long a peer may take to answer a request.
    pub request_timeout: u64,
    /// How long a peer may take to send its handshake.
    pub handshake_timeout: u64,
}

/// Whether any synchronisation is under way.
#[derive(Clone, Copy, Debug, PartialEq, Eq, Structural)]
pub enum SyncOverallState {
    /// No peer is admitted.
    Idle,
    /// Peers are admitted, none has work or anything to give.
    Waiting,
    /// Blocks are being downloaded.
    Blocks,
    /// The peers are not ahead: only new blocks are awaited.
    NewBlocks,
    /// The local chain holds everything that some peer had to give.
    Confirmed,
}

/// A snapshot of the synchronisation.
#[derive(Clone, Copy, Debug, PartialEq, Eq, Structural)]
pub struct SyncStatus {
    pub state: SyncOverallState,
    pub starting_block: u64,
    pub highest_block_seen: u64,
    pub blocks_received: u64,
    pub blocks_total: u64,
    pub num_peers: usize,
    pub num_active_peers: usize,
}

/// The state of the engine.
#[verifier::ext_equal]
pub struct SyncModel {
    pub config: SyncConfig,
    /// The connections, oldest first.
    pub peers: Seq<PeerSyncState>,
    pub schedule: ScheduleModel,
    /// The local best block when the download began.
    pub starting_block: u64,
    /// The highest block number that any peer has shown.
    pub highest_block: u64,
    /// The number of blocks handed over for import.
    pub received: u64,
    /// The id of the next request.
    pub next_request_id: u64,
}

/// A state and the actions that led to it.
#[verifier::ext_equal]
pub struct Step {
    pub model: SyncModel,
    pub actions: Seq<Action>,
}

impl Step {
    /// The step that changes nothing but the state.
    pub open spec fn quiet(model: SyncModel) -> Step {
        Step { model, actions: Seq::empty() }
    }

    /// The step `self` with the actions `before` ahead of its own.
    pub open spec fn after(self, before: Seq<Action>) -> Step {
        Step { model: self.model, actions: before + self.actions }
    }
}

/// The first index at or after `from` of a connection of peer `id`.
pub open spec fn index_from(peers: Seq<PeerSyncState>, id: PeerId, from: int) -> Option<int>
    decreases peers.len() - from,
{
    if from < 0 || from >= peers.len() {
        None
    } else if peers[from].peer_id == id {
        Some(from)
    } else {
        index_from(peers, id, from + 1)
    }
}

/// The number of the first `upto` connections that are admitted.
pub open spec fn count_admitted(peers: Seq<PeerSyncState>, upto: int) -> nat
    decreases upto,
{
    if upto <= 0 || upto > peers.len() {
        0
    } else {
        count_admitted(peers, upto - 1) + if peers[upto - 1].admitted {
            1nat
        } else {
            0nat
        }
    }
}

/// The number of the first `upto` connections that are in phase `phase`.
pub open spec fn count_phase(peers: Seq<PeerSyncState>, phase: PeerSyncPhase, upto: int) -> nat
    decreases upto,
{
    if upto <= 0 || upto > peers.len() {
        0
    } else {
        count_phase(peers, phase, upto - 1) + if peers[upto - 1].state == phase {
            1nat
        } else {
            0nat
        }
    }
}

/// The announcement of the highest block among those of `anns`, up to index
/// `upto`, that the local chain lacks; the first of them where several are
/// as high.
pub open spec fn highest_news(anns: Seq<Announcement>, upto: int) -> Option<Announcement>
    decreases upto,
{
    if upto <= 0 || upto > anns.len() {
        None
    } else {
        let a = anns[upto - 1];
        match highest_news(anns, upto - 1) {
            Some(b) => if !a.known && a.number > b.number {
                Some(a)
            } else {
                Some(b)
            },
            None => if a.known {
                None
            } else {
                Some(a)
            },
        }
    }
}

/// Whether `anns[i]` is the news of the first `upto` announcements: the
/// local chain lacks it, none of those that the local chain lacks is higher,
/// and none before it is as high.
pub open spec fn is_news(anns: Seq<Announcement>, upto: int, i: int) -> bool {
    &&& 0 <= i < upto <= anns.len()
    &&& !anns[i].known
    &&& forall|k: int| 0 <= k < upto && !(#[trigger] anns[k]).known ==> anns[k].number <= anns[i].number
    &&& forall|k: int| 0 <= k < i && !(#[trigger] anns[k]).known ==> anns[k].number < anns[i].number
}

/// What `highest_news` gives, said directly. It gives none exactly when the
/// local chain holds every announced block. Otherwise it gives an
/// announcement that the local chain lacks, than which none that it lacks is
/// higher, and which is the first of those as high.
pub proof fn lemma_highest_news(anns: Seq<Announcement>, upto: int)
    requires
        0 <= upto <= anns.len(),
    ensures
        highest_news(anns, upto) is None <==> forall|k: int|
            0 <= k < upto ==> (#[trigger] anns[k]).known,
        highest_news(anns, upto) matches Some(a) ==> exists|i: int|
            #[trigger] is_news(anns, upto, i) && anns[i] == a,
    decreases upto,
{
    if upto > 0 {
        lemma_highest_news(anns, upto - 1);
        let a = anns[upto - 1];
        match highest_news(anns, upto - 1) {
            Some(b) => {
                let i = choose|i: int| #[trigger] is_news(anns, upto - 1, i) && anns[i] == b;
                if !a.known && a.number > b.number {
                    assert(is_news(anns, upto, upto - 1));
                } else {
                    assert(is_news(anns, upto, i));
                }
            },
            None => {
                if !a.known {
                    assert(is_news(anns, upto, upto - 1));
                }
            },
        }
    }
}

/// At most one announcement is the news.
pub proof fn lemma_news_is_unique(anns: Seq<Announcement>, upto: int, i: int, j: int)
    requires
        is_news(anns, upto, i),
        is_news(anns, upto, j),
    ensures
        i == j,
{
}

/// The record of a peer when the download is begun anew: a download under
/// way is given up, and a peer that was out of the download, confirmed or
/// kept for new blocks only, is idle and will be looked at again.
pub open spec fn replanned(p: PeerSyncState) -> PeerSyncState {
    if p.state == PeerSyncPhase::DownloadingHeaders || p.state == PeerSyncPhase::DownloadingBodies
        || p.state == PeerSyncPhase::DownloadingReceipts {
        p.spec_released()
    } else if p.state == PeerSyncPhase::Confirmed || p.state == PeerSyncPhase::NewBlocksOnly {
        PeerSyncState { state: PeerSyncPhase::Idle, ..p }
    } else {
        p
    }
}

/// The records of `peers` when the download is begun anew.
pub open spec fn cancel_downloads(peers: Seq<PeerSyncState>) -> Seq<PeerSyncState> {
    Seq::new(peers.len(), |j: int| replanned(peers[j]))
}

/// The record of a peer when all peers are looked at again: a peer that
/// was out of the download, confirmed or kept for new blocks only, is idle.
pub open spec fn awakened(p: PeerSyncState) -> PeerSyncState {
    if p.state == PeerSyncPhase::Confirmed || p.state == PeerSyncPhase::NewBlocksOnly {
        PeerSyncState { state: PeerSyncPhase::Idle, ..p }
    } else {
        p
    }
}

/// The number of `peers` to which a request is under way.
pub open spec fn active_count(peers: Seq<PeerSyncState>) -> nat {
    let n = peers.len() as int;
    count_phase(peers, PeerSyncPhase::SearchingCommonAncestor, n) + count_phase(
        peers,
        PeerSyncPhase::DownloadingHeaders,
        n,
    ) + count_phase(peers, PeerSyncPhase::DownloadingBodies, n) + count_phase(
        peers,
        PeerSyncPhase::DownloadingReceipts,
        n,
    )
}

/// The records of `peers` after an abort.
pub open spec fn abort_all(peers: Seq<PeerSyncState>) -> Seq<PeerSyncState> {
    Seq::new(
        peers.len(),
        |j: int|
            PeerSyncState {
                state: PeerSyncPhase::Aborted,
                pending_request: None,
                asking_hash: None,
                ..peers[j]
            },
    )
}

/// The record of a peer after a restart: an admitted peer is idle and its
/// common ancestor is to be found anew.
pub open spec fn restarted(p: PeerSyncState) -> PeerSyncState {
    if p.admitted {
        PeerSyncState {
            state: PeerSyncPhase::Idle,
            pending_request: None,
            asking_hash: None,
            common_ancestor: None,
            probes: 0,
            resting: false,
            ..p
        }
    } else {
        p
    }
}

/// The records of `peers` after a restart.
pub open spec fn restart_all(peers: Seq<PeerSyncState>) -> Seq<PeerSyncState> {
    Seq::new(peers.len(), |j: int| restarted(peers[j]))
}

/// The handshake that the engine sends.
pub open spec fn local_status(config: SyncConfig, chain: ChainInfo) -> StatusMessage {
    StatusMessage {
        protocol_version: ETH_PROTOCOL_VERSION_63,
        network_id: config.network_id,
        total_difficulty: chain.total_difficulty,
        best_hash: chain.best_hash,
        genesis_hash: chain.genesis_hash,
    }
}

/// Whether a peer with the handshake `msg` can be synchronised with: it is
/// on the same network and has the same genesis block. The protocol version
/// that it names plays no part.
pub open spec fn compatible(config: SyncConfig, chain: ChainInfo, msg: StatusMessage) -> bool {
    msg.genesis_hash == chain.genesis_hash && msg.network_id == config.network_id
}

/// The lower of two numbers.
pub open spec fn lower(a: u64, b: u64) -> u64 {
    if a <= b {
        a
    } else {
        b
    }
}

/// The higher of two numbers.
pub open spec fn higher(a: u64, b: u64) -> u64 {
    if a >= b {
        a
    } else {
        b
    }
}

/// `a + b`, or the highest number where that does not fit.
pub open spec fn capped_sum(a: u64, b: nat) -> u64 {
    if a + b > u64::MAX {
        u64::MAX
    } else {
        (a + b) as u64
    }
}

impl SyncModel {
    /// The engine before any event, beside a local chain whose best block
    /// has number `best_number`.
    pub open spec fn initial(config: SyncConfig, best_number: u64) -> SyncModel {
        SyncModel {
            config,
            peers: Seq::empty(),
            schedule: ScheduleModel::empty(spec_next_u64(best_number), config.fast),
            starting_block: best_number,
            highest_block: best_number,
            received: 0,
            next_request_id: 0,
        }
    }

    /// The index of the connection of peer `id`.
    pub open spec fn index_of(self, id: PeerId) -> Option<int> {
        index_from(self.peers, id, 0)
    }

    /// The state with `p` as the record at index `i`.
    pub open spec fn with_peer(self, i: int, p: PeerSyncState) -> SyncModel {
        SyncModel { peers: self.peers.update(i, p), ..self }
    }

    /// The state without the record at index `i`.
    pub open spec fn without_peer(self, i: int) -> SyncModel {
        SyncModel { peers: self.peers.remove(i), ..self }
    }

    /// The state once a block numbered `n` has been seen at a peer.
    pub open spec fn note_height(self, n: u64) -> SyncModel {
        SyncModel { highest_block: higher(self.highest_block, n), ..self }
    }

    /// The request that is made at `now`.
    pub open spec fn request(self, kind: RequestKind, target: RequestTarget, now: u64)
        -> PendingRequest {
        PendingRequest { request_id: self.next_request_id, kind, target, issued_at: now }
    }

    /// The state once a request has taken its id.
    pub open spec fn id_taken(self) -> SyncModel {
        SyncModel {
            next_request_id: if self.next_request_id == u64::MAX {
                0
            } else {
                (self.next_request_id + 1) as u64
            },
            ..self
        }
    }

    /// The state once the request to the peer at index `i` is given up: the
    /// block numbers set aside for it are free again, headers to be asked
    /// for, bodies and receipts to be wanted.
    pub open spec fn release(self, i: int) -> SyncModel {
        let p = self.peers[i];
        SyncModel {
            schedule: match p.spec_header_range() {
                Some(r) => self.schedule.release_headers(r),
                None => match p.spec_body_range() {
                    Some(r) => self.schedule.release_bodies(r),
                    None => match p.spec_receipt_range() {
                        Some(r) => self.schedule.release_receipts(r),
                        None => self.schedule,
                    },
                },
            },
            peers: self.peers.update(i, p.spec_released()),
            ..self
        }
    }

    /// The state once the peer at index `i` has failed: its request is given
    /// up, the failure is counted, and the peer rests until the next round
    /// of maintenance.
    pub open spec fn penalize(self, i: int) -> SyncModel {
        let m = self.release(i);
        m.with_peer(
            i,
            PeerSyncState { failures: spec_next_u32(m.peers[i].failures), resting: true, ..m.peers[i] },
        )
    }

    /// The state once the download is begun anew at block `start`: the
    /// schedule is empty, every download under way is given up, and every
    /// peer that was out of the download is idle.
    pub open spec fn reset_plan(self, start: u64) -> SyncModel {
        SyncModel {
            schedule: ScheduleModel::empty(start, self.schedule.fast),
            peers: cancel_downloads(self.peers),
            ..self
        }
    }

    /// The state once block `c` is found to be the highest that the local
    /// chain shares with the peer at index `i`. Where `c` lies below the top
    /// of the search, the peer's chain is a fork of the local one, and the
    /// download is begun anew at the block after `c`. So it is where the
    /// download stands below that block with nothing under way. Else the
    /// peer joins the download as it stands.
    pub open spec fn found(self, i: int, c: u64) -> SyncModel {
        let m = self.with_peer(i, PeerSyncState { common_ancestor: Some(c), ..self.peers[i] });
        let start = spec_next_u64(c);
        if c < self.peers[i].search.top || (start > m.schedule.next_import
            && m.schedule.is_idle()) {
            m.reset_plan(start)
        } else {
            m
        }
    }

    /// Asks the peer at index `i` for its best header, to learn its height.
    pub open spec fn ask_head(self, i: int, now: u64) -> Step {
        let p = self.peers[i];
        let q = self.request(RequestKind::Headers, RequestTarget::Hash(p.best_hash), now);
        Step {
            model: self.with_peer(
                i,
                PeerSyncState {
                    state: PeerSyncPhase::SearchingCommonAncestor,
                    pending_request: Some(q),
                    asking_hash: Some(p.best_hash),
                    ..p
                },
            ).id_taken(),
            actions: seq![
                Action::Send { peer: p.peer_id, request: Request::HeaderByHash { hash: p.best_hash } },
            ],
        }
    }

    /// Asks the peer at index `i` for the probe of the search `s`, which is
    /// not done.
    pub open spec fn probe(self, i: int, now: u64, s: AncestorSearch) -> Step {
        let p = self.peers[i];
        let n = s.spec_probe();
        let q = self.request(
            RequestKind::Headers,
            RequestTarget::Range(BlockRange { lo: n, hi: n }),
            now,
        );
        Step {
            model: self.with_peer(
                i,
                PeerSyncState {
                    state: PeerSyncPhase::SearchingCommonAncestor,
                    pending_request: Some(q),
                    asking_hash: None,
                    search: s,
                    ..p
                },
            ).id_taken(),
            actions: seq![
                Action::Send { peer: p.peer_id, request: Request::Headers { start: n, count: 1 } },
            ],
        }
    }

    /// The step that sets the range `g` aside for the peer at index `i` in
    /// the phase `phase`, with the schedule `schedule`, and sends the
    /// request `request`.
    pub open spec fn reserve(
        self,
        i: int,
        now: u64,
        schedule: ScheduleModel,
        phase: PeerSyncPhase,
        kind: RequestKind,
        g: BlockRange,
        request: Request,
    ) -> Step {
        let p = self.peers[i];
        Step {
            model: SyncModel {
                schedule,
                peers: self.peers.update(
                    i,
                    PeerSyncState {
                        state: phase,
                        pending_request: Some(self.request(kind, RequestTarget::Range(g), now)),
                        ..p
                    },
                ),
                ..self
            }.id_taken(),
            actions: seq![Action::Send { peer: p.peer_id, request }],
        }
    }

    /// Gives the peer at index `i`, whose height is `height`, its share of
    /// the download. Bodies come first: the lowest queued headers that want
    /// one. Then receipts: the lowest queued blocks that want them. Else
    /// headers: the lowest stretch, up to the peer's height, that is
    /// neither obtained nor asked of another peer. Where the peer has
    /// nothing above what is imported, it is confirmed.
    pub open spec fn download(self, i: int, now: u64, height: u64) -> Step {
        let p = self.peers[i];
        match self.schedule.wanted_bodies(self.config.max_bodies) {
            Some(g) => self.reserve(
                i,
                now,
                self.schedule.reserve_bodies(g),
                PeerSyncPhase::DownloadingBodies,
                RequestKind::Bodies,
                g,
                Request::Bodies { first: g.lo, last: g.hi },
            ),
            None => match self.schedule.wanted_receipts(self.config.max_receipts) {
                Some(g) => self.reserve(
                    i,
                    now,
                    self.schedule.reserve_receipts(g),
                    PeerSyncPhase::DownloadingReceipts,
                    RequestKind::Receipts,
                    g,
                    Request::Receipts { first: g.lo, last: g.hi },
                ),
                None => match self.schedule.free_headers(self.config.max_headers, height) {
                    Some(g) => self.reserve(
                        i,
                        now,
                        self.schedule.reserve_headers(g),
                        PeerSyncPhase::DownloadingHeaders,
                        RequestKind::Headers,
                        g,
                        Request::Headers { start: g.lo, count: (g.hi - g.lo + 1) as u64 },
                    ),
                    None => if height < self.schedule.next_import {
                        Step::quiet(
                            self.with_peer(
                                i,
                                PeerSyncState { state: PeerSyncPhase::Confirmed, ..p },
                            ),
                        )
                    } else {
                        Step::quiet(self)
                    },
                },
            },
        }
    }

    /// Gives the peer at index `i` work, if it may have any. A peer that is
    /// not ahead of the local chain is kept for new blocks only. A peer of
    /// unknown height is asked for its best header. A peer whose common
    /// ancestor is unknown is searched for it, from the lower of its height
    /// and the local best block down. A peer whose common ancestor is known
    /// gets its share of the download.
    pub open spec fn assign(self, chain: ChainInfo, now: u64, i: int) -> Step {
        let p = self.peers[i];
        if !p.spec_is_eligible() {
            Step::quiet(self)
        } else if !p.spec_is_ahead(chain) {
            Step::quiet(self.with_peer(i, PeerSyncState { state: PeerSyncPhase::NewBlocksOnly, ..p }))
        } else {
            match p.latest_known_number {
                None => self.ask_head(i, now),
                Some(height) => if p.common_ancestor is None {
                    let s = AncestorSearch::spec_start(lower(height, chain.best_number));
                    let m = self.with_peer(i, PeerSyncState { search: s, probes: 0, ..p });
                    if s.spec_is_done() {
                        m.found(i, s.lo).download(i, now, height)
                    } else {
                        m.probe(i, now, s)
                    }
                } else {
                    self.download(i, now, height)
                },
            }
        }
    }

    /// Gives work to the peers from index `i` up to `n`, in turn.
    pub open spec fn assign_from(self, chain: ChainInfo, now: u64, i: int, n: int) -> Step
        decreases n - i,
    {
        if i >= n {
            Step::quiet(self)
        } else {
            let first = self.assign(chain, now, i);
            first.model.assign_from(chain, now, i + 1, n).after(first.actions)
        }
    }

    /// Gives work to every peer that may have any, oldest connection first.
    pub open spec fn assign_all(self, chain: ChainInfo, now: u64) -> Step {
        self.assign_from(chain, now, 0, self.peers.len() as int)
    }

    /// A peer has connected: it is sent the local handshake and awaited.
    /// A second connection of a peer that is already there is ignored.
    pub open spec fn connect(self, chain: ChainInfo, now: u64, peer: PeerId) -> Step {
        if self.index_of(peer) is Some {
            Step::quiet(self)
        } else {
            Step {
                model: SyncModel {
                    peers: self.peers.push(PeerSyncState::spec_connected(peer, now)),
                    ..self
                },
                actions: seq![
                    Action::Send {
                        peer,
                        request: Request::Status(local_status(self.config, chain)),
                    },
                ],
            }
        }
    }

    /// A peer's handshake has come. A peer that cannot be synchronised with
    /// is dropped for good; another is admitted, whatever protocol version
    /// it names, and given work. The handshake of an unknown peer, or a
    /// second handshake, is ignored.
    pub open spec fn on_status(self, chain: ChainInfo, now: u64, peer: PeerId, msg: StatusMessage)
        -> Step {
        match self.index_of(peer) {
            None => Step::quiet(self),
            Some(i) => if self.peers[i].admitted {
                Step::quiet(self)
            } else if !compatible(self.config, chain, msg) {
                Step { model: self.without_peer(i), actions: seq![Action::Disable { peer }] }
            } else {
                self.with_peer(i, self.peers[i].spec_with_status(msg)).assign(chain, now, i)
            },
        }
    }

    /// The peer at index `i` has answered the request for its best header.
    pub open spec fn on_head(self, chain: ChainInfo, now: u64, i: int, headers: Seq<HeaderReport>)
        -> Step {
        let p = self.peers[i];
        if headers.len() == 1 && p.asking_hash == Some(headers[0].header.hash) {
            self.with_peer(
                i,
                PeerSyncState {
                    latest_known_number: Some(headers[0].header.number),
                    ..p.spec_released()
                },
            ).note_height(headers[0].header.number).assign(chain, now, i)
        } else {
            Step::quiet(self.penalize(i))
        }
    }

    /// The peer at index `i` has answered the probe for block `n`.
    pub open spec fn on_probe(
        self,
        chain: ChainInfo,
        now: u64,
        i: int,
        n: u64,
        headers: Seq<HeaderReport>,
    ) -> Step {
        let p = self.peers[i];
        if headers.len() == 1 && headers[0].header.number == n && !p.search.spec_is_done()
            && p.search.spec_probe() == n {
            let s = p.search.spec_advance(headers[0].known);
            let q = PeerSyncState { search: s, probes: spec_next_u32(p.probes), ..p };
            if s.spec_is_done() {
                self.with_peer(i, q.spec_released()).found(i, s.lo).assign_all(chain, now)
            } else if q.probes >= self.config.max_probes {
                Step::quiet(
                    self.with_peer(
                        i,
                        PeerSyncState { state: PeerSyncPhase::NewBlocksOnly, ..q.spec_released() },
                    ),
                )
            } else {
                self.with_peer(i, q).probe(i, now, s)
            }
        } else {
            Step::quiet(self.penalize(i))
        }
    }

    /// The peer at index `i` has answered the request for the headers `r`.
    /// A valid batch is queued; anything else is thrown away and counted
    /// against the peer. Either way the peers are given work anew.
    pub open spec fn on_batch(
        self,
        chain: ChainInfo,
        now: u64,
        i: int,
        r: BlockRange,
        headers: Seq<HeaderReport>,
    ) -> Step {
        let p = self.peers[i];
        if r.lo <= r.hi && valid_batch(r, headers) {
            SyncModel {
                schedule: self.schedule.accept_headers(r, headers, p.peer_id),
                peers: self.peers.update(i, p.spec_released()),
                ..self
            }.note_height(headers.last().header.number).assign_all(chain, now)
        } else {
            self.penalize(i).assign_all(chain, now)
        }
    }

    /// Headers have come from a peer. They are taken as the answer to what
    /// the peer was asked for; headers that were not asked for are ignored.
    pub open spec fn on_headers(
        self,
        chain: ChainInfo,
        now: u64,
        peer: PeerId,
        headers: Seq<HeaderReport>,
    ) -> Step {
        match self.index_of(peer) {
            None => Step::quiet(self),
            Some(i) => {
                let p = self.peers[i];
                if p.state == PeerSyncPhase::SearchingCommonAncestor {
                    match p.spec_pending_range() {
                        Some(r) => self.on_probe(chain, now, i, r.lo, headers),
                        None => self.on_head(chain, now, i, headers),
                    }
                } else {
                    match p.spec_header_range() {
                        Some(r) => self.on_batch(chain, now, i, r, headers),
                        None => Step::quiet(self),
                    }
                }
            },
        }
    }

    /// The step that follows the taking of bodies or receipts from the peer
    /// at index `i`, in a state whose schedule holds them already: every
    /// block that is now whole and next in line is handed over for import,
    /// in ascending order; the peer's request is over; and the peers are
    /// given work anew.
    pub open spec fn finish(self, chain: ChainInfo, now: u64, i: int) -> Step {
        SyncModel {
            schedule: self.schedule.drained(),
            peers: self.peers.update(i, self.peers[i].spec_released()),
            received: capped_sum(self.received, self.schedule.ready_count()),
            ..self
        }.assign_all(chain, now).after(self.schedule.imports())
    }

    /// Bodies have come from a peer. Bodies that fit the headers in their
    /// places are taken, and the blocks that are now whole are handed over.
    /// Bodies that do not fit are thrown away and counted against the peer.
    /// Bodies that were not asked for are ignored.
    pub open spec fn on_bodies(self, chain: ChainInfo, now: u64, peer: PeerId, bodies: Seq<BlockBody>)
        -> Step {
        match self.index_of(peer) {
            None => Step::quiet(self),
            Some(i) => match self.peers[i].spec_body_range() {
                None => Step::quiet(self),
                Some(r) => if r.lo <= r.hi && self.schedule.bodies_match(r, bodies) {
                    SyncModel {
                        schedule: self.schedule.accept_bodies(r, bodies.len() as int, peer),
                        ..self
                    }.finish(chain, now, i)
                } else {
                    self.penalize(i).assign_all(chain, now)
                },
            },
        }
    }

    /// Receipts have come from a peer. Receipts that fit the headers in
    /// their places are taken, and the blocks that are now whole are handed
    /// over. Receipts that do not fit are thrown away and counted against
    /// the peer. Receipts that were not asked for are ignored.
    pub open spec fn on_receipts(
        self,
        chain: ChainInfo,
        now: u64,
        peer: PeerId,
        receipts: Seq<BlockReceipts>,
    ) -> Step {
        match self.index_of(peer) {
            None => Step::quiet(self),
            Some(i) => match self.peers[i].spec_receipt_range() {
                None => Step::quiet(self),
                Some(r) => if r.lo <= r.hi && self.schedule.receipts_match(r, receipts) {
                    SyncModel {
                        schedule: self.schedule.accept_receipts(r, receipts.len() as int, peer),
                        ..self
                    }.finish(chain, now, i)
                } else {
                    self.penalize(i).assign_all(chain, now)
                },
            },
        }
    }

    /// Bytes that stand for no packet have come from a peer. They are
    /// counted against the peer as a failure: what it was asked for is given
    /// up, and the peers are given work anew. From a peer of which there is
    /// no record they are ignored.
    pub open spec fn on_malformed(self, chain: ChainInfo, now: u64, peer: PeerId) -> Step {
        match self.index_of(peer) {
            None => Step::quiet(self),
            Some(i) => self.penalize(i).assign_all(chain, now),
        }
    }

    /// A peer has announced that it has got the block with header
    /// `header`, with which its chain reaches `total_difficulty`.
    pub open spec fn on_new_block(
        self,
        chain: ChainInfo,
        now: u64,
        peer: PeerId,
        header: BlockHeader,
        total_difficulty: U256,
        known: bool,
    ) -> Step {
        match self.index_of(peer) {
            None => Step::quiet(self),
            Some(i) => if !self.peers[i].admitted {
                Step::quiet(self)
            } else {
                self.with_peer(
                    i,
                    PeerSyncState {
                        total_difficulty,
                        ..self.peers[i].spec_announce(header.hash, header.number, known)
                    },
                ).note_height(header.number).assign(chain, now, i)
            },
        }
    }

    /// A peer has announced blocks by their hashes. The highest of those
    /// that the local chain lacks is taken as the peer's best block.
    pub open spec fn on_new_hashes(
        self,
        chain: ChainInfo,
        now: u64,
        peer: PeerId,
        anns: Seq<Announcement>,
    ) -> Step {
        match self.index_of(peer) {
            None => Step::quiet(self),
            Some(i) => if !self.peers[i].admitted {
                Step::quiet(self)
            } else {
                match highest_news(anns, anns.len() as int) {
                    None => Step::quiet(self),
                    Some(a) => self.with_peer(
                        i,
                        self.peers[i].spec_announce(a.hash, a.number, false),
                    ).note_height(a.number).assign(chain, now, i),
                }
            },
        }
    }

    /// A packet has come from a peer.
    pub open spec fn on_packet(self, chain: ChainInfo, now: u64, peer: PeerId, packet: Packet)
        -> Step {
        match packet {
            Packet::Status(msg) => self.on_status(chain, now, peer, msg),
            Packet::BlockHeaders(headers) => self.on_headers(chain, now, peer, headers@),
            Packet::BlockBodies(bodies) => self.on_bodies(chain, now, peer, bodies@),
            Packet::Receipts(receipts) => self.on_receipts(chain, now, peer, receipts@),
            Packet::NewBlockHashes(anns) => self.on_new_hashes(chain, now, peer, anns@),
            Packet::NewBlock { header, total_difficulty, known } => self.on_new_block(
                chain,
                now,
                peer,
                header,
                total_difficulty,
                known,
            ),
            Packet::Other(_) => Step::quiet(self),
            Packet::Malformed => self.on_malformed(chain, now, peer),
        }
    }

    /// A peer's connection has ended: what was set aside for it is free
    /// again and the other peers are given work anew.
    pub open spec fn disconnect(self, chain: ChainInfo, now: u64, peer: PeerId) -> Step {
        match self.index_of(peer) {
            None => Step::quiet(self),
            Some(i) => self.release(i).without_peer(i).assign_all(chain, now),
        }
    }

    /// Whether the record at index `i` is dropped by the maintenance at
    /// `now`: a connection whose handshake is overdue, or a peer with too
    /// many failures, the one of this round counted.
    pub open spec fn drops(self, now: u64, i: int) -> bool {
        let p = self.peers[i];
        if !p.admitted {
            spec_expired(now, p.connected_at, self.config.handshake_timeout)
        } else if p.spec_timed_out(now, self.config.request_timeout) {
            spec_next_u32(p.failures) > self.config.max_failures
        } else {
            p.failures > self.config.max_failures
        }
    }

    /// The maintenance of the record at index `i`. A peer whose request is
    /// overdue has it given up and counted as a failure; a peer that rested
    /// rests no longer. A record that is to be dropped is taken out, with
    /// what was set aside for it freed.
    pub open spec fn sweep_peer(self, now: u64, i: int) -> SyncModel {
        let p = self.peers[i];
        if self.drops(now, i) {
            self.release(i).without_peer(i)
        } else if !p.admitted {
            self
        } else if p.spec_timed_out(now, self.config.request_timeout) {
            self.penalize(i)
        } else {
            self.with_peer(i, PeerSyncState { resting: false, ..p })
        }
    }

    /// The maintenance of the records from index `i` on, of which `left`
    /// are still to be looked at.
    pub open spec fn sweep(self, now: u64, i: int, left: nat) -> Step
        decreases left,
    {
        if left == 0 || i < 0 || i >= self.peers.len() {
            Step::quiet(self)
        } else if self.drops(now, i) {
            self.sweep_peer(now, i).sweep(now, i, (left - 1) as nat).after(
                seq![Action::Disconnect { peer: self.peers[i].peer_id }],
            )
        } else {
            self.sweep_peer(now, i).sweep(now, i + 1, (left - 1) as nat)
        }
    }

    /// The state once the peers are looked at again, where that is due: no
    /// request is under way although the local chain is behind the highest
    /// block that a peer has shown. Then every peer that was out of the
    /// download is idle.
    pub open spec fn rescan(self, chain: ChainInfo) -> SyncModel {
        if active_count(self.peers) == 0 && chain.best_number < self.highest_block {
            SyncModel { peers: Seq::new(self.peers.len(), |j: int| awakened(self.peers[j])), ..self }
        } else {
            self
        }
    }

    /// A round of maintenance at `now`: every record is maintained, oldest
    /// first; the peers are looked at again where that is due; and then
    /// every peer that may have work is given some.
    pub open spec fn tick(self, chain: ChainInfo, now: u64) -> Step {
        let swept = self.sweep(now, 0, self.peers.len());
        swept.model.rescan(chain).assign_all(chain, now).after(swept.actions)
    }

    /// The synchronisation is aborted: every peer is marked so and the
    /// schedule is emptied. Nothing is sent.
    pub open spec fn abort(self) -> SyncModel {
        SyncModel {
            schedule: ScheduleModel::empty(self.schedule.next_import, self.schedule.fast),
            peers: abort_all(self.peers),
            ..self
        }
    }

    /// The synchronisation is begun anew from the local best block: the
    /// schedule is emptied, every admitted peer is idle, and all are given
    /// work.
    pub open spec fn restart(self, chain: ChainInfo, now: u64) -> Step {
        SyncModel {
            schedule: ScheduleModel::empty(spec_next_u64(chain.best_number), self.schedule.fast),
            peers: restart_all(self.peers),
            starting_block: chain.best_number,
            highest_block: higher(self.highest_block, chain.best_number),
            received: 0,
            ..self
        }.assign_all(chain, now)
    }

    /// The chain store has refused block `number`, which `peer` supplied.
    /// The peer is dropped, the download is begun anew after the local best
    /// block, and the other peers are given work. A refusal of a block that
    /// has not been handed over in this download is ignored.
    pub open spec fn import_rejected(self, chain: ChainInfo, now: u64, number: u64, peer: PeerId)
        -> Step {
        if number >= self.schedule.next_import {
            Step::quiet(self)
        } else {
            match self.index_of(peer) {
                None => self.reset_plan(spec_next_u64(chain.best_number)).assign_all(chain, now),
                Some(i) => self.release(i).without_peer(i).reset_plan(
                    spec_next_u64(chain.best_number),
                ).assign_all(chain, now).after(seq![Action::Disconnect { peer }]),
            }
        }
    }

    /// The step that the event `event` makes at time `now`, beside the local
    /// chain `chain`.
    pub open spec fn apply(self, chain: ChainInfo, now: u64, event: Event) -> Step {
        match event {
            Event::Connected { peer } => self.connect(chain, now, peer),
            Event::Received { peer, packet } => self.on_packet(chain, now, peer, packet),
            Event::Disconnected { peer } => self.disconnect(chain, now, peer),
            Event::Timer => self.tick(chain, now),
            Event::Abort => Step::quiet(self.abort()),
            Event::Restart => self.restart(chain, now),
            Event::ImportFailed { number, peer } => self.import_rejected(chain, now, number, peer),
        }
    }

    /// The overall state: blocks are being downloaded while any request is
    /// under way or any block is queued; else the download is confirmed if a
    /// peer is; else new blocks are awaited if a peer is kept for them; else
    /// the engine waits if any peer is admitted, and is idle if none is.
    pub open spec fn overall(self) -> SyncOverallState {
        let n = self.peers.len() as int;
        if active_count(self.peers) > 0 || self.schedule.blocks.dom() != Set::<u64>::empty() {
            SyncOverallState::Blocks
        } else if count_phase(self.peers, PeerSyncPhase::Confirmed, n) > 0 {
            SyncOverallState::Confirmed
        } else if count_phase(self.peers, PeerSyncPhase::NewBlocksOnly, n) > 0 {
            SyncOverallState::NewBlocks
        } else if count_admitted(self.peers, n) > 0 {
            SyncOverallState::Waiting
        } else {
            SyncOverallState::Idle
        }
    }

    /// The snapshot of the synchronisation.
    pub open spec fn status(self) -> SyncStatus {
        let n = self.peers.len() as int;
        SyncStatus {
            state: self.overall(),
            starting_block: self.starting_block,
            highest_block_seen: self.highest_block,
            blocks_received: self.received,
            blocks_total: if self.highest_block > self.starting_block {
                (self.highest_block - self.starting_block) as u64
            } else {
                0
            },
            num_peers: count_admitted(self.peers, n) as usize,
            num_active_peers: active_count(self.peers) as usize,
        }
    }
}

/// Whether one of `peers` is in phase `phase`.
pub open spec fn has_phase(peers: Seq<PeerSyncState>, phase: PeerSyncPhase) -> bool {
    exists|j: int| 0 <= j < peers.len() && (#[trigger] peers[j]).state == phase
}

/// Whether one of `peers` is admitted.
pub open spec fn has_admitted(peers: Seq<PeerSyncState>) -> bool {
    exists|j: int| 0 <= j < peers.len() && (#[trigger] peers[j]).admitted
}

/// A count of peers in a phase is above zero exactly when a peer is in the
/// phase, and never above the number of peers.
pub proof fn lemma_count_phase(peers: Seq<PeerSyncState>, phase: PeerSyncPhase, upto: int)
    requires
        0 <= upto <= peers.len(),
    ensures
        count_phase(peers, phase, upto) <= upto,
        count_phase(peers, phase, upto) > 0 <==> exists|j: int|
            0 <= j < upto && (#[trigger] peers[j]).state == phase,
    decreases upto,
{
    if upto > 0 {
        lemma_count_phase(peers, phase, upto - 1);
        if peers[upto - 1].state != phase && count_phase(peers, phase, upto) > 0 {
            let j = choose|j: int| 0 <= j < upto - 1 && (#[trigger] peers[j]).state == phase;
            assert(peers[j].state == phase);
        }
    }
}

/// The count of admitted peers is above zero exactly when a peer is
/// admitted, and never above the number of peers.
pub proof fn lemma_count_admitted(peers: Seq<PeerSyncState>, upto: int)
    requires
        0 <= upto <= peers.len(),
    ensures
        count_admitted(peers, upto) <= upto,
        count_admitted(peers, upto) > 0 <==> exists|j: int|
            0 <= j < upto && (#[trigger] peers[j]).admitted,
    decreases upto,
{
    if upto > 0 {
        lemma_count_admitted(peers, upto - 1);
        if !peers[upto - 1].admitted && count_admitted(peers, upto) > 0 {
            let j = choose|j: int| 0 <= j < upto - 1 && (#[trigger] peers[j]).admitted;
            assert(peers[j].admitted);
        }
    }
}

/// The overall state, said directly. Blocks are being downloaded exactly
/// when a request is under way to some peer or a block is queued. Else the
/// download is confirmed exactly when some peer is; else new blocks are
/// awaited exactly when some peer is kept for them; else the engine waits
/// exactly when some peer is admitted; else it is idle. The total of the
/// blocks is the distance from where the download began to the highest
/// block seen.
pub proof fn lemma_status(m: SyncModel)
    ensures
        ({
            let busy = (exists|j: int| 0 <= j < m.peers.len() && (#[trigger] m.peers[j]).spec_is_active())
                || m.schedule.blocks.dom() != Set::<u64>::empty();
            let st = m.status();
            &&& st.state == SyncOverallState::Blocks <==> busy
            &&& st.state == SyncOverallState::Confirmed <==> !busy && has_phase(
                m.peers,
                PeerSyncPhase::Confirmed,
            )
            &&& st.state == SyncOverallState::NewBlocks <==> !busy && !has_phase(
                m.peers,
                PeerSyncPhase::Confirmed,
            ) && has_phase(m.peers, PeerSyncPhase::NewBlocksOnly)
            &&& st.state == SyncOverallState::Waiting <==> !busy && !has_phase(
                m.peers,
                PeerSyncPhase::Confirmed,
            ) && !has_phase(m.peers, PeerSyncPhase::NewBlocksOnly) && has_admitted(m.peers)
            &&& st.state == SyncOverallState::Idle <==> !busy && !has_phase(
                m.peers,
                PeerSyncPhase::Confirmed,
            ) && !has_phase(m.peers, PeerSyncPhase::NewBlocksOnly) && !has_admitted(m.peers)
            &&& st.blocks_total == if m.highest_block > m.starting_block {
                m.highest_block - m.starting_block
            } else {
                0
            }
            &&& st.blocks_received == m.received
            &&& st.num_peers <= m.peers.len()
            &&& st.num_active_peers <= m.peers.len()
        }),
{
    let n = m.peers.len() as int;
    lemma_count_phase(m.peers, PeerSyncPhase::SearchingCommonAncestor, n);
    lemma_count_phase(m.peers, PeerSyncPhase::DownloadingHeaders, n);
    lemma_count_phase(m.peers, PeerSyncPhase::DownloadingBodies, n);
    lemma_count_phase(m.peers, PeerSyncPhase::DownloadingReceipts, n);
    lemma_count_phase(m.peers, PeerSyncPhase::Confirmed, n);
    lemma_count_phase(m.peers, PeerSyncPhase::NewBlocksOnly, n);
    lemma_count_admitted(m.peers, n);
    lemma_active_count(m.peers, n);
    let active = exists|j: int| 0 <= j < m.peers.len() && (#[trigger] m.peers[j]).spec_is_active();
    if active {
        let j = choose|j: int| 0 <= j < m.peers.len() && (#[trigger] m.peers[j]).spec_is_active();
        assert(m.peers[j].state == PeerSyncPhase::SearchingCommonAncestor || m.peers[j].state
            == PeerSyncPhase::DownloadingHeaders || m.peers[j].state
            == PeerSyncPhase::DownloadingBodies || m.peers[j].state
            == PeerSyncPhase::DownloadingReceipts);
    }
    if active_count(m.peers) > 0 {
        if count_phase(m.peers, PeerSyncPhase::SearchingCommonAncestor, n) > 0 {
            let j = choose|j: int|
                0 <= j < n && (#[trigger] m.peers[j]).state
                    == PeerSyncPhase::SearchingCommonAncestor;
            assert(m.peers[j].spec_is_active());
        } else if count_phase(m.peers, PeerSyncPhase::DownloadingHeaders, n) > 0 {
            let j = choose|j: int|
                0 <= j < n && (#[trigger] m.peers[j]).state == PeerSyncPhase::DownloadingHeaders;
            assert(m.peers[j].spec_is_active());
        } else if count_phase(m.peers, PeerSyncPhase::DownloadingBodies, n) > 0 {
            let j = choose|j: int|
                0 <= j < n && (#[trigger] m.peers[j]).state == PeerSyncPhase::DownloadingBodies;
            assert(m.peers[j].spec_is_active());
        } else {
            let j = choose|j: int|
                0 <= j < n && (#[trigger] m.peers[j]).state == PeerSyncPhase::DownloadingReceipts;
            assert(m.peers[j].spec_is_active());
        }
    }
}

/// The four counts of peers that are asked for something never add up to
/// more than the number of peers.
proof fn lemma_active_count(peers: Seq<PeerSyncState>, upto: int)
    requires
        0 <= upto <= peers.len(),
    ensures
        count_phase(peers, PeerSyncPhase::SearchingCommonAncestor, upto) + count_phase(
            peers,
            PeerSyncPhase::DownloadingHeaders,
            upto,
        ) + count_phase(peers, PeerSyncPhase::DownloadingBodies, upto) + count_phase(
            peers,
            PeerSyncPhase::DownloadingReceipts,
            upto,
        ) <= upto,
    decreases upto,
{
    if upto > 0 {
        lemma_active_count(peers, upto - 1);
    }
}

} // verus!
