use ethsync::chain::ChainSync;
use ethsync::io::{Action, Announcement, Event, Packet, PacketKind, Request, StatusMessage};
use ethsync::model::{SyncConfig, SyncOverallState};
use ethsync::peer::{PeerSyncPhase, RequestTarget};
use ethsync::types::{
    BlockBody, BlockHeader, BlockReceipts, ChainInfo, HeaderReport, H256, U256,
};

fn hash(fork: u64, number: u64) -> H256 {
    H256 { a: fork, b: number, c: 0, d: 1 }
}

fn root(fork: u64, number: u64) -> H256 {
    H256 { a: fork, b: number, c: 7, d: 2 }
}

fn receipts_root(fork: u64, number: u64) -> H256 {
    H256 { a: fork, b: number, c: 5, d: 3 }
}

/// A chain of `height + 1` blocks that follows fork 0 up to block `split` and
/// fork `fork` above it.
fn make_chain(fork: u64, split: u64, height: u64) -> Vec<BlockHeader> {
    let fork_of = |n: u64| if n <= split { 0 } else { fork };
    (0..=height)
        .map(|n| BlockHeader {
            number: n,
            hash: hash(fork_of(n), n),
            parent_hash: if n == 0 { H256::zero() } else { hash(fork_of(n - 1), n - 1) },
            body_root: root(fork_of(n), n),
            receipts_root: receipts_root(fork_of(n), n),
        })
        .collect()
}

fn config() -> SyncConfig {
    SyncConfig {
        network_id: 1,
        max_headers: 16,
        max_bodies: 8,
        max_receipts: 8,
        fast: false,
        max_probes: 64,
        max_failures: 2,
        request_timeout: 5,
        handshake_timeout: 5,
    }
}

#[derive(Clone, Copy, PartialEq)]
enum Manner {
    /// Answers everything truthfully.
    Honest,
    /// Answers the handshake and the search, but no request for blocks.
    Stalls,
    /// Sends header batches with a broken parent link.
    BreaksHeaders,
    /// Sends bodies that do not belong to the headers.
    BreaksBodies,
    /// Sends receipts that do not belong to the headers.
    BreaksReceipts,
    /// Answers nothing at all.
    Silent,
}

struct SimPeer {
    id: usize,
    chain: Vec<BlockHeader>,
    manner: Manner,
    status: StatusMessage,
}

struct World {
    sync: ChainSync,
    local: Vec<BlockHeader>,
    peers: Vec<SimPeer>,
    now: u64,
    inbox: Vec<(usize, Request)>,
    imported: Vec<u64>,
    dropped: Vec<usize>,
    disabled: Vec<usize>,
    probes: usize,
    header_requests: Vec<(usize, u64, u64)>,
}

impl World {
    fn new(local: Vec<BlockHeader>) -> World {
        let mut w = World {
            sync: ChainSync::new(config(), &info_of(&local)),
            local,
            peers: Vec::new(),
            now: 0,
            inbox: Vec::new(),
            imported: Vec::new(),
            dropped: Vec::new(),
            disabled: Vec::new(),
            probes: 0,
            header_requests: Vec::new(),
        };
        w.check_disjoint();
        w
    }

    fn info(&self) -> ChainInfo {
        info_of(&self.local)
    }

    fn knows(&self, h: &H256) -> bool {
        self.local.iter().any(|b| b.hash == *h)
    }

    fn connect(&mut self, id: usize, chain: Vec<BlockHeader>) {
        self.connect_as(id, chain, Manner::Honest);
    }

    fn connect_as(&mut self, id: usize, chain: Vec<BlockHeader>, manner: Manner) {
        let status = StatusMessage {
            protocol_version: 63,
            network_id: 1,
            total_difficulty: U256::from_u64(chain.len() as u64 - 1),
            best_hash: chain.last().unwrap().hash,
            genesis_hash: chain[0].hash,
        };
        self.peers.push(SimPeer { id, chain, manner, status });
        let actions = self.sync.on_peer_connected(&self.info(), self.now, id);
        self.perform(actions);
    }

    fn send(&mut self, peer: usize, packet: Packet) -> Vec<Action> {
        let actions = self.sync.on_packet(&self.info(), self.now, peer, packet);
        self.perform(actions.clone());
        actions
    }

    fn perform(&mut self, actions: Vec<Action>) {
        for action in actions {
            match action {
                Action::Send { peer, request } => {
                    if let Request::Headers { start, count } = request {
                        let searching = self
                            .sync
                            .peer(peer)
                            .map(|p| p.state == PeerSyncPhase::SearchingCommonAncestor)
                            .unwrap_or(false);
                        if searching {
                            self.probes += 1;
                        } else {
                            self.header_requests.push((peer, start, start + count - 1));
                        }
                    }
                    self.inbox.push((peer, request));
                }
                Action::Import { number, hash, .. } => {
                    let block = self
                        .peers
                        .iter()
                        .flat_map(|p| p.chain.iter())
                        .find(|b| b.hash == hash)
                        .copied()
                        .expect("an imported block is one that a peer has");
                    assert_eq!(block.number, number);
                    assert!(number >= 1 && number <= self.local.len() as u64);
                    if let Some(last) = self.imported.last() {
                        assert_eq!(number, last + 1, "imports come in order");
                    }
                    self.local.truncate(number as usize);
                    assert_eq!(block.parent_hash, self.local.last().unwrap().hash);
                    self.local.push(block);
                    self.imported.push(number);
                }
                Action::Disconnect { peer } => {
                    self.dropped.push(peer);
                    self.peers.retain(|p| p.id != peer);
                }
                Action::Disable { peer } => {
                    self.disabled.push(peer);
                    self.peers.retain(|p| p.id != peer);
                }
            }
        }
        self.check_disjoint();
    }

    /// No block number is set aside for two peers at once.
    fn check_disjoint(&self) {
        let mut ranges: Vec<(u64, u64)> = Vec::new();
        for p in &self.peers {
            if let Some(state) = self.sync.peer(p.id) {
                let downloading = state.state == PeerSyncPhase::DownloadingHeaders
                    || state.state == PeerSyncPhase::DownloadingBodies
                    || state.state == PeerSyncPhase::DownloadingReceipts;
                if let (true, Some(q)) = (downloading, state.pending_request) {
                    if let RequestTarget::Range(r) = q.target {
                        for (lo, hi) in &ranges {
                            assert!(r.hi < *lo || r.lo > *hi, "two peers share a range");
                        }
                        ranges.push((r.lo, r.hi));
                    }
                }
            }
        }
    }

    fn answer(&self, peer: usize, request: Request) -> Option<Packet> {
        let p = self.peers.iter().find(|p| p.id == peer)?;
        if p.manner == Manner::Silent {
            return None;
        }
        let searching = self
            .sync
            .peer(peer)
            .map(|s| s.state == PeerSyncPhase::SearchingCommonAncestor)
            .unwrap_or(false);
        let report = |h: &BlockHeader| HeaderReport { header: *h, known: self.knows(&h.hash) };
        Some(match request {
            Request::Status(_) => Packet::Status(p.status),
            Request::HeaderByHash { hash } => {
                Packet::BlockHeaders(p.chain.iter().filter(|b| b.hash == hash).map(report).collect())
            }
            Request::Headers { start, count } => {
                if p.manner == Manner::Stalls && !searching {
                    return None;
                }
                let mut batch: Vec<HeaderReport> = p
                    .chain
                    .iter()
                    .filter(|b| b.number >= start && b.number - start < count)
                    .map(report)
                    .collect();
                if p.manner == Manner::BreaksHeaders && !searching && batch.len() > 1 {
                    let last = batch.len() - 1;
                    batch[last].header.parent_hash = hash(99, 99);
                }
                Packet::BlockHeaders(batch)
            }
            Request::Bodies { first, last } => {
                if p.manner == Manner::Stalls {
                    return None;
                }
                let mut bodies: Vec<BlockBody> = (first..=last)
                    .filter_map(|n| self.sync.queued_hash(n))
                    .filter_map(|h| p.chain.iter().find(|b| b.hash == h))
                    .map(|b| BlockBody { root: b.body_root })
                    .collect();
                if p.manner == Manner::BreaksBodies && !bodies.is_empty() {
                    bodies[0].root = root(99, 99);
                }
                Packet::BlockBodies(bodies)
            }
            Request::Receipts { first, last } => {
                if p.manner == Manner::Stalls {
                    return None;
                }
                let mut receipts: Vec<BlockReceipts> = (first..=last)
                    .filter_map(|n| self.sync.queued_hash(n))
                    .filter_map(|h| p.chain.iter().find(|b| b.hash == h))
                    .map(|b| BlockReceipts { root: b.receipts_root })
                    .collect();
                if p.manner == Manner::BreaksReceipts && !receipts.is_empty() {
                    receipts[0].root = root(99, 99);
                }
                Packet::Receipts(receipts)
            }
        })
    }

    /// Delivers the answer to the oldest request that is under way, or to
    /// the newest where `newest_first` is set.
    fn deliver_one(&mut self, newest_first: bool) -> bool {
        if self.inbox.is_empty() {
            return false;
        }
        let (peer, request) =
            if newest_first { self.inbox.pop().unwrap() } else { self.inbox.remove(0) };
        if let Some(packet) = self.answer(peer, request) {
            let actions = self.sync.on_packet(&self.info(), self.now, peer, packet);
            self.perform(actions);
        }
        true
    }

    fn run(&mut self, newest_first: bool) {
        let mut steps = 0;
        while self.deliver_one(newest_first) {
            steps += 1;
            assert!(steps < 10_000, "the run does not end");
        }
    }

    fn tick(&mut self, by: u64) {
        self.now += by;
        let actions = self.sync.maintain_peers(&self.info(), self.now);
        self.perform(actions);
    }
}

fn info_of(local: &[BlockHeader]) -> ChainInfo {
    let best = local.last().unwrap();
    ChainInfo {
        genesis_hash: local[0].hash,
        best_hash: best.hash,
        best_number: best.number,
        total_difficulty: U256::from_u64(best.number),
    }
}

#[test]
fn one_peer_brings_a_hundred_blocks() {
    let mut w = World::new(make_chain(0, 0, 0));
    w.connect(1, make_chain(0, 0, 100));
    w.run(false);
    assert_eq!(w.imported, (1..=100).collect::<Vec<u64>>());
    let status = w.sync.status();
    assert_eq!(status.blocks_total, 100);
    assert_eq!(status.blocks_received, 100);
    assert_eq!(status.starting_block, 0);
    assert_eq!(status.highest_block_seen, 100);
    assert_eq!(status.state, SyncOverallState::Confirmed);
    assert_eq!(status.num_peers, 1);
    assert_eq!(status.num_active_peers, 0);
    assert_eq!(w.sync.next_import(), 101);
    assert_eq!(w.sync.peer(1).unwrap().state, PeerSyncPhase::Confirmed);
    assert_eq!(w.sync.peer(1).unwrap().common_ancestor, Some(0));
    assert!(w.dropped.is_empty() && w.disabled.is_empty());
    for (_, lo, hi) in &w.header_requests {
        assert!(hi - lo < 16, "a batch is within the bound");
    }
}

#[test]
fn two_peers_on_one_fork_share_the_download() {
    let mut w = World::new(make_chain(0, 0, 0));
    w.connect(1, make_chain(0, 0, 100));
    w.connect(2, make_chain(0, 0, 100));
    w.run(false);
    assert_eq!(w.imported, (1..=100).collect::<Vec<u64>>());
    let mut seen: Vec<u64> = Vec::new();
    let mut by_peer = [0usize; 3];
    for (peer, lo, hi) in &w.header_requests {
        by_peer[*peer] += 1;
        for n in *lo..=*hi {
            assert!(!seen.contains(&n), "header {} is asked for twice", n);
            seen.push(n);
        }
    }
    assert!(by_peer[1] > 0 && by_peer[2] > 0, "both peers take part");
    assert_eq!(w.sync.status().state, SyncOverallState::Confirmed);
}

#[test]
fn answers_out_of_order_are_imported_in_order() {
    let mut w = World::new(make_chain(0, 0, 0));
    w.connect(1, make_chain(0, 0, 60));
    w.connect(2, make_chain(0, 0, 60));
    w.connect(3, make_chain(0, 0, 60));
    w.run(true);
    assert_eq!(w.imported, (1..=60).collect::<Vec<u64>>());
}

fn log2_floor(n: u64) -> usize {
    63 - n.leading_zeros() as usize
}

#[test]
fn peer_on_a_fork_is_searched_in_logarithmic_time() {
    for depth in [1u64, 2, 10, 100, 777] {
        let mut w = World::new(make_chain(0, 0, 1000));
        w.connect(1, make_chain(5, 1000 - depth, 1100));
        w.run(false);
        assert!(w.probes <= 2 * log2_floor(depth + 1) + 2, "depth {}: {} probes", depth, w.probes);
        assert_eq!(w.imported, (1001 - depth..=1100).collect::<Vec<u64>>());
        assert_eq!(w.sync.peer(1).unwrap().common_ancestor, Some(1000 - depth));
        assert_eq!(w.local, make_chain(5, 1000 - depth, 1100));
        assert_eq!(w.sync.status().state, SyncOverallState::Confirmed);
    }
}

#[test]
fn peer_that_extends_the_local_chain_takes_one_probe() {
    let mut w = World::new(make_chain(0, 0, 500));
    w.connect(1, make_chain(0, 0, 520));
    w.run(false);
    assert_eq!(w.probes, 1);
    assert_eq!(w.imported, (501..=520).collect::<Vec<u64>>());
    assert_eq!(w.sync.status().starting_block, 500);
    assert_eq!(w.sync.status().blocks_total, 20);
    assert_eq!(w.sync.status().blocks_received, 20);
}

#[test]
fn search_that_takes_too_many_probes_is_given_up() {
    let local = make_chain(0, 0, 1000);
    let mut few = config();
    few.max_probes = 3;
    let mut w = World::new(local.clone());
    w.sync = ChainSync::new(few, &info_of(&local));
    w.connect(1, make_chain(5, 500, 1100));
    w.run(false);
    assert_eq!(w.probes, 3);
    assert!(w.imported.is_empty());
    let p = w.sync.peer(1).unwrap();
    assert_eq!(p.state, PeerSyncPhase::NewBlocksOnly);
    assert_eq!(p.common_ancestor, None);
    assert_eq!(p.pending_request, None);
    assert_eq!(w.sync.status().state, SyncOverallState::NewBlocks);
}

#[test]
fn peer_that_is_not_ahead_is_kept_for_new_blocks_only() {
    let mut w = World::new(make_chain(0, 0, 50));
    w.connect(1, make_chain(0, 0, 50));
    w.connect(2, make_chain(0, 0, 20));
    w.run(false);
    assert!(w.imported.is_empty());
    assert_eq!(w.sync.peer(1).unwrap().state, PeerSyncPhase::NewBlocksOnly);
    assert_eq!(w.sync.peer(2).unwrap().state, PeerSyncPhase::NewBlocksOnly);
    let status = w.sync.status();
    assert_eq!(status.state, SyncOverallState::NewBlocks);
    assert_eq!(status.num_peers, 2);
    assert_eq!(status.num_active_peers, 0);
    assert_eq!(status.blocks_total, 0);
}

#[test]
fn status_of_a_new_engine_is_idle() {
    let w = World::new(make_chain(0, 0, 7));
    let status = w.sync.status();
    assert_eq!(status.state, SyncOverallState::Idle);
    assert_eq!(status.starting_block, 7);
    assert_eq!(status.highest_block_seen, 7);
    assert_eq!(status.blocks_received, 0);
    assert_eq!(status.blocks_total, 0);
    assert_eq!(status.num_peers, 0);
    assert_eq!(status.num_active_peers, 0);
    assert_eq!(w.sync.next_import(), 8);
    assert_eq!(w.sync.connections(), 0);
    assert_eq!(w.sync.config(), config());
}

#[test]
fn connection_sends_the_local_handshake() {
    let local = make_chain(0, 0, 7);
    let mut sync = ChainSync::new(config(), &info_of(&local));
    let actions = sync.on_peer_connected(&info_of(&local), 3, 42);
    assert_eq!(
        actions,
        vec![Action::Send {
            peer: 42,
            request: Request::Status(StatusMessage {
                protocol_version: 63,
                network_id: 1,
                total_difficulty: U256::from_u64(7),
                best_hash: hash(0, 7),
                genesis_hash: hash(0, 0),
            }),
        }]
    );
    let p = sync.peer(42).unwrap();
    assert!(!p.admitted);
    assert_eq!(p.state, PeerSyncPhase::Idle);
    assert_eq!(p.connected_at, 3);
    assert_eq!(sync.status().num_peers, 0);
    assert_eq!(sync.status().state, SyncOverallState::Idle);
    assert_eq!(sync.on_peer_connected(&info_of(&local), 4, 42), vec![]);
    assert_eq!(sync.connections(), 1);
}

#[test]
fn peer_with_another_genesis_is_disabled_and_forgotten() {
    let mut w = World::new(make_chain(0, 0, 0));
    let mut other = make_chain(0, 0, 100);
    other[0].hash = hash(3, 0);
    w.connect(9, other.clone());
    let (peer, request) = w.inbox.remove(0);
    let packet = w.answer(peer, request).unwrap();
    let actions = w.send(9, packet);
    assert_eq!(actions, vec![Action::Disable { peer: 9 }]);
    assert_eq!(w.disabled, vec![9]);
    assert_eq!(w.sync.peer(9), None);
    assert_eq!(w.sync.connections(), 0);
    let headers = other[1..5].iter().map(|h| HeaderReport { header: *h, known: false }).collect();
    assert_eq!(w.send(9, Packet::BlockHeaders(headers)), vec![]);
    assert_eq!(w.send(9, Packet::BlockBodies(vec![BlockBody { root: root(0, 1) }])), vec![]);
    w.connect(1, make_chain(0, 0, 30));
    w.run(false);
    w.tick(10);
    w.run(false);
    assert_eq!(w.imported, (1..=30).collect::<Vec<u64>>());
    assert_eq!(w.sync.peer(9), None);
    assert!(w.header_requests.iter().all(|(peer, _, _)| *peer == 1));
}

#[test]
fn peer_on_another_network_is_disabled() {
    for (network_id, protocol_version) in [(2u64, 63u8), (0, 62), (u64::MAX, 63), (2, 0)] {
        let local = make_chain(0, 0, 0);
        let mut sync = ChainSync::new(config(), &info_of(&local));
        sync.on_peer_connected(&info_of(&local), 0, 5);
        let msg = StatusMessage {
            protocol_version,
            network_id,
            total_difficulty: U256::from_u64(100),
            best_hash: hash(0, 100),
            genesis_hash: hash(0, 0),
        };
        let actions = sync.on_packet(&info_of(&local), 0, 5, Packet::Status(msg));
        assert_eq!(actions, vec![Action::Disable { peer: 5 }]);
        assert_eq!(sync.peer(5), None);
    }
}

#[test]
fn peer_is_admitted_whatever_version_it_names() {
    for protocol_version in [0u8, 61, 62, 63, 64, 255] {
        let local = make_chain(0, 0, 0);
        let mut sync = ChainSync::new(config(), &info_of(&local));
        sync.on_peer_connected(&info_of(&local), 0, 5);
        let msg = StatusMessage {
            protocol_version,
            network_id: 1,
            total_difficulty: U256::from_u64(100),
            best_hash: hash(0, 100),
            genesis_hash: hash(0, 0),
        };
        let actions = sync.on_packet(&info_of(&local), 0, 5, Packet::Status(msg));
        assert_eq!(
            actions,
            vec![Action::Send { peer: 5, request: Request::HeaderByHash { hash: hash(0, 100) } }]
        );
        let p = sync.peer(5).unwrap();
        assert!(p.admitted);
        assert_eq!(p.protocol_version, protocol_version);
        assert_eq!(p.state, PeerSyncPhase::SearchingCommonAncestor);
    }
}

#[test]
fn admitted_peer_that_is_not_ahead_is_asked_for_nothing() {
    let local = make_chain(0, 0, 10);
    for difficulty in [0u64, 9, 10] {
        let mut sync = ChainSync::new(config(), &info_of(&local));
        sync.on_peer_connected(&info_of(&local), 0, 5);
        let msg = StatusMessage {
            protocol_version: 64,
            network_id: 1,
            total_difficulty: U256::from_u64(difficulty),
            best_hash: hash(0, difficulty),
            genesis_hash: hash(0, 0),
        };
        assert_eq!(sync.on_packet(&info_of(&local), 0, 5, Packet::Status(msg)), vec![]);
        let p = sync.peer(5).unwrap();
        assert!(p.admitted);
        assert_eq!(p.state, PeerSyncPhase::NewBlocksOnly);
        assert_eq!(p.pending_request, None);
    }
}

#[test]
fn peer_with_protocol_version_62_is_admitted() {
    let local = make_chain(0, 0, 0);
    let mut sync = ChainSync::new(config(), &info_of(&local));
    sync.on_peer_connected(&info_of(&local), 0, 5);
    let msg = StatusMessage {
        protocol_version: 62,
        network_id: 1,
        total_difficulty: U256::from_u64(100),
        best_hash: hash(0, 100),
        genesis_hash: hash(0, 0),
    };
    let actions = sync.on_packet(&info_of(&local), 0, 5, Packet::Status(msg));
    assert_eq!(
        actions,
        vec![Action::Send { peer: 5, request: Request::HeaderByHash { hash: hash(0, 100) } }]
    );
    let p = sync.peer(5).unwrap();
    assert!(p.admitted);
    assert_eq!(p.protocol_version, 62);
    assert_eq!(p.state, PeerSyncPhase::SearchingCommonAncestor);
    assert_eq!(p.asking_hash, Some(hash(0, 100)));
    assert_eq!(sync.on_packet(&info_of(&local), 0, 5, Packet::Status(msg)), vec![]);
    assert_eq!(sync.status().num_peers, 1);
    assert_eq!(sync.status().num_active_peers, 1);
    assert_eq!(sync.status().state, SyncOverallState::Blocks);
}

#[test]
fn handshake_of_an_unknown_peer_is_ignored() {
    let local = make_chain(0, 0, 0);
    let mut sync = ChainSync::new(config(), &info_of(&local));
    let msg = StatusMessage {
        protocol_version: 63,
        network_id: 1,
        total_difficulty: U256::from_u64(100),
        best_hash: hash(0, 100),
        genesis_hash: hash(0, 0),
    };
    assert_eq!(sync.on_packet(&info_of(&local), 0, 5, Packet::Status(msg)), vec![]);
    assert_eq!(sync.connections(), 0);
}

#[test]
fn connection_without_a_handshake_is_dropped_by_the_maintenance() {
    let mut w = World::new(make_chain(0, 0, 0));
    w.connect_as(1, make_chain(0, 0, 10), Manner::Silent);
    w.run(false);
    w.tick(5);
    assert!(w.dropped.is_empty());
    assert!(w.sync.peer(1).is_some());
    w.tick(1);
    assert_eq!(w.dropped, vec![1]);
    assert_eq!(w.sync.peer(1), None);
}

#[test]
fn request_that_passes_its_time_is_given_to_another_peer() {
    let mut w = World::new(make_chain(0, 0, 0));
    w.connect_as(1, make_chain(0, 0, 100), Manner::Stalls);
    w.run(false);
    let stalled = w.sync.peer(1).unwrap();
    assert_eq!(stalled.state, PeerSyncPhase::DownloadingHeaders);
    let range = match stalled.pending_request.unwrap().target {
        RequestTarget::Range(r) => r,
        RequestTarget::Hash(_) => panic!("a range is asked for"),
    };
    assert_eq!((range.lo, range.hi), (1, 16));
    w.connect(2, make_chain(0, 0, 100));
    w.run(false);
    assert!(w.imported.is_empty(), "the first blocks are still with the stalled peer");
    assert_eq!(w.sync.peer(2).unwrap().state, PeerSyncPhase::Idle);
    w.tick(5);
    assert_eq!(w.sync.peer(1).unwrap().state, PeerSyncPhase::DownloadingHeaders);
    w.tick(1);
    let reclaimed = w.sync.peer(1).unwrap();
    assert_eq!(reclaimed.state, PeerSyncPhase::Idle);
    assert_eq!(reclaimed.pending_request, None);
    assert_eq!(reclaimed.failures, 1);
    assert!(reclaimed.resting);
    let taker = w.sync.peer(2).unwrap();
    assert_eq!(taker.state, PeerSyncPhase::DownloadingHeaders);
    assert_eq!(taker.pending_request.unwrap().target, RequestTarget::Range(range));
    assert_eq!(taker.pending_request.unwrap().issued_at, w.now);
    w.run(false);
    assert_eq!(w.imported, (1..=100).collect::<Vec<u64>>());
    assert!(w.dropped.is_empty());
}

#[test]
fn peer_that_keeps_stalling_is_dropped() {
    let mut w = World::new(make_chain(0, 0, 0));
    w.connect_as(1, make_chain(0, 0, 100), Manner::Stalls);
    w.run(false);
    let mut failures = Vec::new();
    for _ in 0..20 {
        w.tick(6);
        w.inbox.clear();
        match w.sync.peer(1) {
            Some(p) => failures.push(p.failures),
            None => break,
        }
    }
    assert_eq!(failures, vec![1, 1, 2, 2]);
    assert_eq!(w.dropped, vec![1]);
    assert_eq!(w.sync.peer(1), None);
    assert_eq!(w.sync.status().state, SyncOverallState::Idle);
    assert_eq!(w.sync.status().num_peers, 0);
}

#[test]
fn batch_with_a_broken_link_is_thrown_away_and_asked_of_another_peer() {
    let mut w = World::new(make_chain(0, 0, 0));
    w.connect_as(1, make_chain(0, 0, 100), Manner::BreaksHeaders);
    w.run(false);
    let bad = w.sync.peer(1).unwrap();
    assert_eq!(bad.failures, 1);
    assert!(bad.resting);
    assert_eq!(bad.state, PeerSyncPhase::Idle);
    assert_eq!(w.sync.queued_hash(1), None);
    assert!(w.imported.is_empty());
    w.connect(2, make_chain(0, 0, 100));
    w.run(false);
    assert_eq!(w.imported, (1..=100).collect::<Vec<u64>>());
    assert_eq!(w.sync.peer(1).unwrap().failures, 1);
}

#[test]
fn bodies_that_do_not_fit_are_thrown_away_and_asked_of_another_peer() {
    let mut w = World::new(make_chain(0, 0, 0));
    w.connect_as(1, make_chain(0, 0, 40), Manner::BreaksBodies);
    w.run(false);
    let bad = w.sync.peer(1).unwrap();
    assert_eq!(bad.failures, 1);
    assert!(bad.resting);
    assert!(w.imported.is_empty());
    assert_eq!(w.sync.queued_hash(1), Some(hash(0, 1)));
    w.connect(2, make_chain(0, 0, 40));
    w.run(false);
    assert_eq!(w.imported, (1..=40).collect::<Vec<u64>>());
}

#[test]
fn packets_that_were_not_asked_for_are_ignored() {
    let mut w = World::new(make_chain(0, 0, 0));
    w.connect(1, make_chain(0, 0, 20));
    w.run(false);
    let before = w.sync.peer(1).unwrap();
    let chain = make_chain(0, 0, 20);
    let headers: Vec<HeaderReport> =
        chain[1..4].iter().map(|h| HeaderReport { header: *h, known: true }).collect();
    assert_eq!(w.send(1, Packet::BlockHeaders(headers.clone())), vec![]);
    assert_eq!(w.send(1, Packet::BlockBodies(vec![BlockBody { root: root(0, 1) }])), vec![]);
    assert_eq!(w.send(1, Packet::Other(PacketKind::Transactions)), vec![]);
    assert_eq!(w.send(1, Packet::Other(PacketKind::GetBlockHeaders)), vec![]);
    assert_eq!(w.send(1, Packet::NewBlockHashes(vec![])), vec![]);
    assert_eq!(w.send(77, Packet::BlockHeaders(headers)), vec![]);
    assert_eq!(w.sync.peer(1).unwrap(), before);
}

#[test]
fn new_block_is_fetched_from_the_peer_that_announces_it() {
    let mut w = World::new(make_chain(0, 0, 0));
    let mut chain = make_chain(0, 0, 30);
    w.connect(1, chain.clone());
    w.run(false);
    assert_eq!(w.sync.peer(1).unwrap().state, PeerSyncPhase::Confirmed);
    chain = make_chain(0, 0, 31);
    w.peers[0].chain = chain.clone();
    let actions = w.send(
        1,
        Packet::NewBlock {
            header: chain[31],
            total_difficulty: U256::from_u64(31),
            known: false,
        },
    );
    assert_eq!(
        actions,
        vec![Action::Send { peer: 1, request: Request::Headers { start: 31, count: 1 } }]
    );
    let p = w.sync.peer(1).unwrap();
    assert_eq!(p.latest_known_number, Some(31));
    assert_eq!(p.best_hash, hash(0, 31));
    assert_eq!(p.total_difficulty, U256::from_u64(31));
    assert!(p.announced);
    w.run(false);
    assert_eq!(w.imported, (1..=31).collect::<Vec<u64>>());
    assert_eq!(w.sync.status().highest_block_seen, 31);
    assert_eq!(w.sync.peer(1).unwrap().state, PeerSyncPhase::Confirmed);
}

#[test]
fn announced_hashes_wake_a_peer_that_was_not_ahead() {
    let mut w = World::new(make_chain(0, 0, 30));
    w.connect(1, make_chain(0, 0, 30));
    w.run(false);
    assert_eq!(w.sync.peer(1).unwrap().state, PeerSyncPhase::NewBlocksOnly);
    let chain = make_chain(0, 0, 33);
    w.peers[0].chain = chain.clone();
    let known = Announcement { hash: hash(0, 30), number: 30, known: true };
    assert_eq!(w.send(1, Packet::NewBlockHashes(vec![known])), vec![]);
    assert_eq!(w.sync.peer(1).unwrap().state, PeerSyncPhase::NewBlocksOnly);
    let anns = vec![
        Announcement { hash: hash(0, 31), number: 31, known: false },
        Announcement { hash: hash(0, 33), number: 33, known: false },
        Announcement { hash: hash(0, 32), number: 32, known: false },
        known,
    ];
    w.send(1, Packet::NewBlockHashes(anns));
    let p = w.sync.peer(1).unwrap();
    assert_eq!(p.latest_known_number, Some(33));
    assert_eq!(p.best_hash, hash(0, 33));
    w.run(false);
    assert_eq!(w.imported, vec![31, 32, 33]);
}

#[test]
fn abort_stops_everything_without_a_packet() {
    let mut w = World::new(make_chain(0, 0, 0));
    w.connect(1, make_chain(0, 0, 100));
    w.connect(2, make_chain(0, 0, 100));
    for _ in 0..6 {
        w.deliver_one(false);
    }
    w.sync.abort();
    w.check_disjoint();
    for id in [1, 2] {
        let p = w.sync.peer(id).unwrap();
        assert_eq!(p.state, PeerSyncPhase::Aborted);
        assert_eq!(p.pending_request, None);
    }
    let status = w.sync.status();
    assert_eq!(status.state, SyncOverallState::Waiting);
    assert_eq!(status.num_active_peers, 0);
    let imported = w.imported.clone();
    w.run(false);
    w.tick(10);
    w.run(false);
    assert_eq!(w.imported, imported, "nothing is imported after an abort");
    assert_eq!(w.sync.peer(1).unwrap().state, PeerSyncPhase::Aborted);
}

#[test]
fn restart_takes_the_download_up_from_the_local_best_block() {
    let mut w = World::new(make_chain(0, 0, 0));
    w.connect(1, make_chain(0, 0, 100));
    w.connect(2, make_chain(0, 0, 100));
    for _ in 0..12 {
        w.deliver_one(false);
    }
    w.sync.abort();
    w.inbox.clear();
    let done = w.imported.len() as u64;
    let actions = w.sync.restart(&w.info(), w.now);
    assert!(!actions.is_empty());
    w.perform(actions);
    assert_eq!(w.sync.next_import(), done + 1);
    assert_eq!(w.sync.status().starting_block, done);
    w.run(false);
    assert_eq!(w.imported, (1..=100).collect::<Vec<u64>>());
    assert_eq!(w.sync.status().state, SyncOverallState::Confirmed);
    assert_eq!(w.sync.status().blocks_received, 100 - done);
}

#[test]
fn refused_block_costs_its_peer_the_connection() {
    let mut w = World::new(make_chain(0, 0, 0));
    w.connect(1, make_chain(0, 0, 40));
    w.connect(2, make_chain(0, 0, 40));
    w.run(false);
    assert_eq!(w.imported, (1..=40).collect::<Vec<u64>>());
    assert_eq!(w.sync.on_block_import_failed(&w.info(), w.now, 41, 1), vec![]);
    assert!(w.sync.peer(1).is_some());
    w.local.truncate(21);
    w.imported.truncate(20);
    let actions = w.sync.on_block_import_failed(&w.info(), w.now, 21, 1);
    assert_eq!(actions[0], Action::Disconnect { peer: 1 });
    w.perform(actions);
    assert_eq!(w.dropped, vec![1]);
    assert_eq!(w.sync.peer(1), None);
    assert_eq!(w.sync.peer(2).unwrap().state, PeerSyncPhase::DownloadingHeaders);
    w.run(false);
    assert_eq!(w.imported, (1..=40).collect::<Vec<u64>>());
    assert!(w.header_requests.iter().rev().take(2).all(|(peer, _, _)| *peer == 2));
}

#[test]
fn peer_that_leaves_frees_its_range_for_the_others() {
    let mut w = World::new(make_chain(0, 0, 0));
    w.connect_as(1, make_chain(0, 0, 60), Manner::Stalls);
    w.run(false);
    w.connect(2, make_chain(0, 0, 60));
    w.run(false);
    assert!(w.imported.is_empty());
    w.peers.retain(|p| p.id != 1);
    let actions = w.sync.on_peer_aborting(&w.info(), w.now, 1);
    assert_eq!(
        actions,
        vec![Action::Send { peer: 2, request: Request::Headers { start: 1, count: 16 } }]
    );
    w.perform(actions);
    assert_eq!(w.sync.peer(1), None);
    w.run(false);
    assert_eq!(w.imported, (1..=60).collect::<Vec<u64>>());
    assert_eq!(w.sync.on_peer_aborting(&w.info(), w.now, 1), vec![]);
}

#[test]
fn handle_takes_every_kind_of_event() {
    let local = make_chain(0, 0, 0);
    let info = info_of(&local);
    let mut a = ChainSync::new(config(), &info);
    let mut b = ChainSync::new(config(), &info);
    let msg = StatusMessage {
        protocol_version: 63,
        network_id: 1,
        total_difficulty: U256::from_u64(9),
        best_hash: hash(0, 9),
        genesis_hash: hash(0, 0),
    };
    assert_eq!(
        a.handle(&info, 0, Event::Connected { peer: 1 }),
        b.on_peer_connected(&info, 0, 1)
    );
    assert_eq!(
        a.handle(&info, 1, Event::Received { peer: 1, packet: Packet::Status(msg) }),
        b.on_packet(&info, 1, 1, Packet::Status(msg))
    );
    assert_eq!(a.handle(&info, 9, Event::Timer), b.maintain_peers(&info, 9));
    assert_eq!(a.peer(1), b.peer(1));
    assert_eq!(a.peer(1).unwrap().failures, 1);
    assert_eq!(
        a.handle(&info, 9, Event::ImportFailed { number: 0, peer: 1 }),
        b.on_block_import_failed(&info, 9, 0, 1)
    );
    assert_eq!(a.handle(&info, 9, Event::Abort), vec![]);
    b.abort();
    assert_eq!(a.peer(1), b.peer(1));
    assert_eq!(a.handle(&info, 10, Event::Restart), b.restart(&info, 10));
    assert_eq!(a.peer(1), b.peer(1));
    assert_eq!(
        a.handle(&info, 11, Event::Disconnected { peer: 1 }),
        b.on_peer_aborting(&info, 11, 1)
    );
    assert_eq!(a.connections(), 0);
    assert_eq!(a.status(), b.status());
}

#[test]
fn request_ids_count_up() {
    let mut w = World::new(make_chain(0, 0, 0));
    w.connect(1, make_chain(0, 0, 40));
    let mut ids = Vec::new();
    while w.deliver_one(false) {
        if let Some(q) = w.sync.peer(1).unwrap().pending_request {
            if ids.last() != Some(&q.request_id) {
                ids.push(q.request_id);
            }
        }
    }
    assert!(ids.len() > 5);
    assert_eq!(ids, (0..ids.len() as u64).collect::<Vec<u64>>());
}

fn fast_world(local: Vec<BlockHeader>) -> World {
    let mut fast = config();
    fast.fast = true;
    fast.max_receipts = 5;
    let mut w = World::new(local.clone());
    w.sync = ChainSync::new(fast, &info_of(&local));
    w
}

#[test]
fn fast_variant_fetches_receipts_before_it_imports() {
    let mut w = fast_world(make_chain(0, 0, 0));
    w.connect(1, make_chain(0, 0, 50));
    let mut receipt_requests: Vec<(u64, u64)> = Vec::new();
    let mut steps = 0;
    loop {
        for (_, request) in &w.inbox {
            if let Request::Receipts { first, last } = request {
                if receipt_requests.last() != Some(&(*first, *last)) {
                    receipt_requests.push((*first, *last));
                }
            }
        }
        if let Some((_, Request::Receipts { first, .. })) = w.inbox.first() {
            assert!(w.imported.iter().all(|n| n < first), "no block is imported without receipts");
            assert_eq!(w.sync.peer(1).unwrap().state, PeerSyncPhase::DownloadingReceipts);
            assert_eq!(w.sync.status().num_active_peers, 1);
        }
        if !w.deliver_one(false) {
            break;
        }
        steps += 1;
        assert!(steps < 10_000);
    }
    assert_eq!(w.imported, (1..=50).collect::<Vec<u64>>());
    assert!(!receipt_requests.is_empty());
    let mut covered: Vec<u64> = Vec::new();
    for (first, last) in &receipt_requests {
        assert!(last - first < 5, "a batch of receipts is within the bound");
        covered.extend(*first..=*last);
    }
    assert_eq!(covered, (1..=50).collect::<Vec<u64>>());
    assert_eq!(w.sync.status().state, SyncOverallState::Confirmed);
}

#[test]
fn fast_variant_shares_the_work_among_peers() {
    let mut w = fast_world(make_chain(0, 0, 0));
    w.connect(1, make_chain(0, 0, 80));
    w.connect(2, make_chain(0, 0, 80));
    w.connect(3, make_chain(0, 0, 80));
    w.run(true);
    assert_eq!(w.imported, (1..=80).collect::<Vec<u64>>());
}

#[test]
fn receipts_that_do_not_fit_are_thrown_away_and_asked_of_another_peer() {
    let mut w = fast_world(make_chain(0, 0, 0));
    w.connect_as(1, make_chain(0, 0, 20), Manner::BreaksReceipts);
    w.run(false);
    let bad = w.sync.peer(1).unwrap();
    assert_eq!(bad.failures, 1);
    assert!(bad.resting);
    assert_eq!(bad.state, PeerSyncPhase::Idle);
    assert!(w.imported.is_empty());
    w.connect(2, make_chain(0, 0, 20));
    w.run(false);
    assert_eq!(w.imported, (1..=20).collect::<Vec<u64>>());
}

#[test]
fn receipts_that_pass_their_time_are_wanted_again() {
    let mut w = fast_world(make_chain(0, 0, 0));
    w.connect(1, make_chain(0, 0, 8));
    let mut steps = 0;
    while !matches!(w.inbox.first(), Some((_, Request::Receipts { .. }))) {
        assert!(w.deliver_one(false));
        steps += 1;
        assert!(steps < 100);
    }
    w.inbox.clear();
    w.tick(6);
    let p = w.sync.peer(1).unwrap();
    assert_eq!(p.failures, 1);
    assert_eq!(p.state, PeerSyncPhase::Idle);
    w.tick(1);
    assert_eq!(w.sync.peer(1).unwrap().state, PeerSyncPhase::DownloadingReceipts);
    w.run(false);
    assert_eq!(w.imported, (1..=8).collect::<Vec<u64>>());
}

#[test]
fn plain_variant_asks_for_no_receipts() {
    let mut w = World::new(make_chain(0, 0, 0));
    w.connect(1, make_chain(0, 0, 30));
    let mut steps = 0;
    loop {
        assert!(w.inbox.iter().all(|(_, request)| !matches!(request, Request::Receipts { .. })));
        if !w.deliver_one(false) {
            break;
        }
        steps += 1;
        assert!(steps < 10_000);
    }
    assert_eq!(w.imported, (1..=30).collect::<Vec<u64>>());
    let receipts = vec![BlockReceipts { root: receipts_root(0, 1) }];
    assert_eq!(w.send(1, Packet::Receipts(receipts)), vec![]);
}

#[test]
fn maintenance_looks_at_all_peers_again_when_nobody_downloads() {
    let local = make_chain(0, 0, 1000);
    let mut few = config();
    few.max_probes = 3;
    let mut w = World::new(local.clone());
    w.sync = ChainSync::new(few, &info_of(&local));
    w.connect(1, make_chain(5, 500, 1100));
    w.run(false);
    assert_eq!(w.sync.peer(1).unwrap().state, PeerSyncPhase::NewBlocksOnly);
    assert_eq!(w.probes, 3);
    assert_eq!(w.sync.status().highest_block_seen, 1100);
    assert_eq!(w.sync.status().num_active_peers, 0);
    w.tick(1);
    let p = w.sync.peer(1).unwrap();
    assert_eq!(p.state, PeerSyncPhase::SearchingCommonAncestor);
    assert_eq!(p.probes, 0);
    assert_eq!(w.probes, 4);
    w.run(false);
    assert_eq!(w.sync.peer(1).unwrap().state, PeerSyncPhase::NewBlocksOnly);
    assert_eq!(w.probes, 6);
}

#[test]
fn maintenance_leaves_peers_alone_when_the_chain_is_not_behind() {
    let mut w = World::new(make_chain(0, 0, 50));
    w.connect(1, make_chain(0, 0, 50));
    w.connect(2, make_chain(0, 0, 20));
    w.run(false);
    w.tick(1);
    assert!(w.inbox.is_empty());
    assert_eq!(w.sync.peer(1).unwrap().state, PeerSyncPhase::NewBlocksOnly);
    assert_eq!(w.sync.peer(2).unwrap().state, PeerSyncPhase::NewBlocksOnly);
    let mut v = World::new(make_chain(0, 0, 0));
    v.connect(1, make_chain(0, 0, 20));
    v.run(false);
    v.tick(1);
    assert!(v.inbox.is_empty());
    assert_eq!(v.sync.peer(1).unwrap().state, PeerSyncPhase::Confirmed);
}

#[test]
fn bytes_that_stand_for_no_packet_cost_the_peer_a_failure() {
    let mut w = World::new(make_chain(0, 0, 0));
    w.connect_as(1, make_chain(0, 0, 60), Manner::Stalls);
    w.run(false);
    w.connect(2, make_chain(0, 0, 60));
    w.run(false);
    let before = w.sync.peer(1).unwrap();
    assert_eq!(before.state, PeerSyncPhase::DownloadingHeaders);
    assert_eq!(before.failures, 0);
    let range = before.pending_request.unwrap().target;
    let actions = w.send(1, Packet::Malformed);
    assert_eq!(
        actions,
        vec![Action::Send { peer: 2, request: Request::Headers { start: 1, count: 16 } }]
    );
    let after = w.sync.peer(1).unwrap();
    assert_eq!(after.failures, 1);
    assert!(after.resting);
    assert_eq!(after.state, PeerSyncPhase::Idle);
    assert_eq!(after.pending_request, None);
    assert_eq!(w.sync.peer(2).unwrap().pending_request.unwrap().target, range);
    assert!(w.dropped.is_empty(), "one failure does not close the connection");
    w.run(false);
    assert_eq!(w.imported, (1..=60).collect::<Vec<u64>>());
}

#[test]
fn peer_that_keeps_sending_bytes_that_stand_for_no_packet_is_dropped() {
    let mut w = World::new(make_chain(0, 0, 0));
    w.connect(1, make_chain(0, 0, 0));
    w.run(false);
    for failures in 1..=3 {
        assert_eq!(w.send(1, Packet::Malformed), vec![]);
        assert_eq!(w.sync.peer(1).unwrap().failures, failures);
    }
    assert!(w.dropped.is_empty());
    w.tick(1);
    assert_eq!(w.dropped, vec![1]);
    assert_eq!(w.sync.peer(1), None);
}

#[test]
fn bytes_that_stand_for_no_packet_from_a_stranger_are_ignored() {
    let mut w = World::new(make_chain(0, 0, 0));
    w.connect(1, make_chain(0, 0, 10));
    let before = w.sync.peer(1).unwrap();
    assert_eq!(w.send(9, Packet::Malformed), vec![]);
    assert_eq!(w.sync.peer(9), None);
    assert_eq!(w.sync.peer(1).unwrap(), before);
    assert_eq!(w.sync.connections(), 1);
}

#[test]
fn queued_block_tells_which_parts_have_come_and_from_whom() {
    let mut w = World::new(make_chain(0, 0, 0));
    w.connect(1, make_chain(0, 0, 40));
    assert_eq!(w.sync.queued_block(1), None);
    while w.sync.queued_block(17).is_none() {
        assert!(w.deliver_one(false));
    }
    let queued = w.sync.queued_block(17).unwrap();
    assert_eq!(queued.header.hash, hash(0, 17));
    assert_eq!(queued.header.number, 17);
    assert_eq!(queued.header_from, 1);
    assert!(!queued.body_ready);
    assert!(queued.receipts_ready);
    assert_eq!(w.sync.queued_hash(17), Some(hash(0, 17)));
    w.run(false);
    assert_eq!(w.sync.queued_block(17), None);
    assert_eq!(w.imported, (1..=40).collect::<Vec<u64>>());
}
