//! What the engine keeps of each connected peer.

use vstd::prelude::*;
use crate::io::StatusMessage;
use crate::range_collection::{range_set, BlockRange};
use crate::search::AncestorSearch;
use crate::types::{ChainInfo, PeerId, H256, U256};

verus! {

/// Where a peer stands in the synchronisation.
#[derive(Clone, Copy, Debug, PartialEq, Eq, Structural)]
pub enum PeerSyncPhase {
    /// Nothing is asked of the peer.
    Idle,
    /// The peer is asked for its best header, or for a probe of the search
    /// for the common ancestor.
    SearchingCommonAncestor,
    /// The peer is asked for a range of headers.
    DownloadingHeaders,
    /// The peer is asked for a range of bodies.
    DownloadingBodies,
    /// The peer is asked for the receipts of a range of blocks. This
    /// happens in the fast variant only.
    DownloadingReceipts,
    /// The peer is not ahead of the local chain: it takes part in the
    /// announcement of new blocks only.
    NewBlocksOnly,
    /// The local chain holds everything that the peer has.
    Confirmed,
    /// The synchronisation was aborted.
    Aborted,
}

/// What a request asks for.
#[derive(Clone, Copy, Debug, PartialEq, Eq, Structural)]
pub enum RequestKind {
    Headers,
    Bodies,
    Receipts,
}

/// Which blocks a request speaks of.
#[derive(Clone, Copy, Debug, PartialEq, Eq, Structural)]
pub enum RequestTarget {
    /// The blocks numbered in the range.
    Range(BlockRange),
    /// The block with the hash.
    Hash(H256),
}

/// A request that a peer has not answered yet.
#[derive(Clone, Copy, Debug, PartialEq, Eq, Structural)]
pub struct PendingRequest {
    pub request_id: u64,
    pub kind: RequestKind,
    pub target: RequestTarget,
    pub issued_at: u64,
}

/// The record of one connection.
#[derive(Clone, Copy, Debug, PartialEq, Eq, Structural)]
pub struct PeerSyncState {
    pub peer_id: PeerId,
    /// Whether the peer has sent a handshake that fits the local chain. Only
    /// an admitted peer is ever asked for anything.
    pub admitted: bool,
    /// When the connection was made.
    pub connected_at: u64,
    pub protocol_version: u8,
    pub genesis_hash: H256,
    pub best_hash: H256,
    pub total_difficulty: U256,
    /// The highest block number that the peer is known to have.
    pub latest_known_number: Option<u64>,
    pub state: PeerSyncPhase,
    pub pending_request: Option<PendingRequest>,
    /// The hash of the header that the peer is asked for by hash.
    pub asking_hash: Option<H256>,
    /// How often the peer has sent something wrong or let a request pass its
    /// time.
    pub failures: u32,
    /// The search for the common ancestor with this peer.
    pub search: AncestorSearch,
    /// The number of probes that the peer has answered.
    pub probes: u32,
    /// The highest block that the local chain shares with the peer's.
    pub common_ancestor: Option<u64>,
    /// Whether the peer has announced a block that the local chain lacks.
    pub announced: bool,
    /// Whether the peer has just failed: it is given no work until the next
    /// maintenance round.
    pub resting: bool,
}

/// `n + 1`, or `n` where that does not fit.
pub open spec fn spec_next_u32(n: u32) -> u32 {
    if n == u32::MAX {
        n
    } else {
        (n + 1) as u32
    }
}

/// `n + 1`, or `n` where that does not fit.
#[verifier::when_used_as_spec(spec_next_u32)]
pub fn next_u32(n: u32) -> (m: u32)
    ensures
        m == spec_next_u32(n),
{
    if n == u32::MAX {
        n
    } else {
        n + 1
    }
}

/// `n + 1`, or `n` where that does not fit.
pub open spec fn spec_next_u64(n: u64) -> u64 {
    if n == u64::MAX {
        n
    } else {
        (n + 1) as u64
    }
}

/// `n + 1`, or `n` where that does not fit.
#[verifier::when_used_as_spec(spec_next_u64)]
pub fn next_u64(n: u64) -> (m: u64)
    ensures
        m == spec_next_u64(n),
{
    if n == u64::MAX {
        n
    } else {
        n + 1
    }
}

/// Whether more than `timeout` has passed at `now` since `since`.
pub open spec fn spec_expired(now: u64, since: u64, timeout: u64) -> bool {
    now > since && now - since > timeout
}

/// Whether more than `timeout` has passed at `now` since `since`.
#[verifier::when_used_as_spec(spec_expired)]
pub fn expired(now: u64, since: u64, timeout: u64) -> (b: bool)
    ensures
        b == spec_expired(now, since, timeout),
{
    now > since && now - since > timeout
}

/// The higher of a known height and `n`.
pub open spec fn spec_raise(known: Option<u64>, n: u64) -> Option<u64> {
    match known {
        Some(h) => if h >= n {
            Some(h)
        } else {
            Some(n)
        },
        None => Some(n),
    }
}

/// The higher of a known height and `n`.
#[verifier::when_used_as_spec(spec_raise)]
pub fn raise(known: Option<u64>, n: u64) -> (r: Option<u64>)
    ensures
        r == spec_raise(known, n),
{
    match known {
        Some(h) => if h >= n {
            Some(h)
        } else {
            Some(n)
        },
        None => Some(n),
    }
}

impl PeerSyncState {
    /// The record of a connection made at `now`, before the peer's handshake
    /// has come.
    pub open spec fn spec_connected(peer_id: PeerId, now: u64) -> PeerSyncState {
        PeerSyncState {
            peer_id,
            admitted: false,
            connected_at: now,
            protocol_version: 0,
            genesis_hash: H256 { a: 0, b: 0, c: 0, d: 0 },
            best_hash: H256 { a: 0, b: 0, c: 0, d: 0 },
            total_difficulty: U256 { hi: 0, lo: 0 },
            latest_known_number: None,
            state: PeerSyncPhase::Idle,
            pending_request: None,
            asking_hash: None,
            failures: 0,
            search: AncestorSearch { lo: 0, hi: 0, step: 0, top: 0 },
            probes: 0,
            common_ancestor: None,
            announced: false,
            resting: false,
        }
    }

    /// The record of a connection made at `now`, before the peer's handshake
    /// has come.
    #[verifier::when_used_as_spec(spec_connected)]
    pub fn connected(peer_id: PeerId, now: u64) -> (p: PeerSyncState)
        ensures
            p == Self::spec_connected(peer_id, now),
    {
        PeerSyncState {
            peer_id,
            admitted: false,
            connected_at: now,
            protocol_version: 0,
            genesis_hash: H256::zero(),
            best_hash: H256::zero(),
            total_difficulty: U256 { hi: 0, lo: 0 },
            latest_known_number: None,
            state: PeerSyncPhase::Idle,
            pending_request: None,
            asking_hash: None,
            failures: 0,
            search: AncestorSearch { lo: 0, hi: 0, step: 0, top: 0 },
            probes: 0,
            common_ancestor: None,
            announced: false,
            resting: false,
        }
    }

    /// The record once the handshake `msg` has admitted the peer.
    pub open spec fn spec_with_status(self, msg: StatusMessage) -> PeerSyncState {
        PeerSyncState {
            admitted: true,
            protocol_version: msg.protocol_version,
            genesis_hash: msg.genesis_hash,
            best_hash: msg.best_hash,
            total_difficulty: msg.total_difficulty,
            ..self
        }
    }

    /// The record once the handshake `msg` has admitted the peer.
    #[verifier::when_used_as_spec(spec_with_status)]
    pub fn with_status(self, msg: StatusMessage) -> (p: PeerSyncState)
        ensures
            p == self.spec_with_status(msg),
    {
        PeerSyncState {
            admitted: true,
            protocol_version: msg.protocol_version,
            genesis_hash: msg.genesis_hash,
            best_hash: msg.best_hash,
            total_difficulty: msg.total_difficulty,
            ..self
        }
    }

    /// Whether a request to the peer is under way.
    pub open spec fn spec_is_active(self) -> bool {
        self.state == PeerSyncPhase::SearchingCommonAncestor || self.state
            == PeerSyncPhase::DownloadingHeaders || self.state == PeerSyncPhase::DownloadingBodies
            || self.state == PeerSyncPhase::DownloadingReceipts
    }

    /// Whether a request to the peer is under way.
    #[verifier::when_used_as_spec(spec_is_active)]
    pub fn is_active(self) -> (b: bool)
        ensures
            b == self.spec_is_active(),
    {
        match self.state {
            PeerSyncPhase::SearchingCommonAncestor => true,
            PeerSyncPhase::DownloadingHeaders => true,
            PeerSyncPhase::DownloadingBodies => true,
            PeerSyncPhase::DownloadingReceipts => true,
            _ => false,
        }
    }

    /// The range that the pending request speaks of, if it speaks of one.
    pub open spec fn spec_pending_range(self) -> Option<BlockRange> {
        match self.pending_request {
            Some(q) => match q.target {
                RequestTarget::Range(r) => Some(r),
                RequestTarget::Hash(_) => None,
            },
            None => None,
        }
    }

    /// The range that the pending request speaks of, if it speaks of one.
    #[verifier::when_used_as_spec(spec_pending_range)]
    pub fn pending_range(self) -> (r: Option<BlockRange>)
        ensures
            r == self.spec_pending_range(),
    {
        match self.pending_request {
            Some(q) => match q.target {
                RequestTarget::Range(r) => Some(r),
                RequestTarget::Hash(_) => None,
            },
            None => None,
        }
    }

    /// The headers that are set aside for the peer to send.
    pub open spec fn spec_header_range(self) -> Option<BlockRange> {
        if self.state == PeerSyncPhase::DownloadingHeaders {
            self.spec_pending_range()
        } else {
            None
        }
    }

    /// The headers that are set aside for the peer to send.
    #[verifier::when_used_as_spec(spec_header_range)]
    pub fn header_range(self) -> (r: Option<BlockRange>)
        ensures
            r == self.spec_header_range(),
    {
        match self.state {
            PeerSyncPhase::DownloadingHeaders => self.pending_range(),
            _ => None,
        }
    }

    /// The bodies that are set aside for the peer to send.
    pub open spec fn spec_body_range(self) -> Option<BlockRange> {
        if self.state == PeerSyncPhase::DownloadingBodies {
            self.spec_pending_range()
        } else {
            None
        }
    }

    /// The bodies that are set aside for the peer to send.
    #[verifier::when_used_as_spec(spec_body_range)]
    pub fn body_range(self) -> (r: Option<BlockRange>)
        ensures
            r == self.spec_body_range(),
    {
        match self.state {
            PeerSyncPhase::DownloadingBodies => self.pending_range(),
            _ => None,
        }
    }

    /// The receipts that are set aside for the peer to send.
    pub open spec fn spec_receipt_range(self) -> Option<BlockRange> {
        if self.state == PeerSyncPhase::DownloadingReceipts {
            self.spec_pending_range()
        } else {
            None
        }
    }

    /// The receipts that are set aside for the peer to send.
    #[verifier::when_used_as_spec(spec_receipt_range)]
    pub fn receipt_range(self) -> (r: Option<BlockRange>)
        ensures
            r == self.spec_receipt_range(),
    {
        match self.state {
            PeerSyncPhase::DownloadingReceipts => self.pending_range(),
            _ => None,
        }
    }

    /// The range of block numbers that is set aside for the peer: that of the
    /// headers, of the bodies or of the receipts that it is asked for.
    pub open spec fn reserved(self) -> Option<BlockRange> {
        if self.state == PeerSyncPhase::DownloadingHeaders || self.state
            == PeerSyncPhase::DownloadingBodies || self.state == PeerSyncPhase::DownloadingReceipts {
            self.spec_pending_range()
        } else {
            None
        }
    }

    /// The block numbers that are set aside for the peer.
    pub open spec fn reservation(self) -> Set<int> {
        match self.reserved() {
            Some(r) => range_set(r.lo as int, r.hi as int),
            None => Set::empty(),
        }
    }

    /// The record once the request to the peer, if one is under way, is
    /// given up.
    pub open spec fn spec_released(self) -> PeerSyncState {
        if self.spec_is_active() {
            PeerSyncState {
                state: PeerSyncPhase::Idle,
                pending_request: None,
                asking_hash: None,
                ..self
            }
        } else {
            self
        }
    }

    /// The record once the request to the peer, if one is under way, is
    /// given up.
    #[verifier::when_used_as_spec(spec_released)]
    pub fn released(self) -> (p: PeerSyncState)
        ensures
            p == self.spec_released(),
    {
        if self.is_active() {
            PeerSyncState {
                state: PeerSyncPhase::Idle,
                pending_request: None,
                asking_hash: None,
                ..self
            }
        } else {
            self
        }
    }

    /// The record once the peer has failed: its request is given up, the
    /// failure is counted, and the peer rests.
    pub open spec fn spec_penalized(self) -> PeerSyncState {
        PeerSyncState {
            failures: spec_next_u32(self.failures),
            resting: true,
            ..self.spec_released()
        }
    }

    /// The record once the peer has failed.
    #[verifier::when_used_as_spec(spec_penalized)]
    pub fn penalized(self) -> (p: PeerSyncState)
        ensures
            p == self.spec_penalized(),
    {
        PeerSyncState { failures: next_u32(self.failures), resting: true, ..self.released() }
    }

    /// Whether the request to the peer has been under way for more than
    /// `timeout` at `now`.
    pub open spec fn spec_timed_out(self, now: u64, timeout: u64) -> bool {
        match self.pending_request {
            Some(q) => spec_expired(now, q.issued_at, timeout),
            None => false,
        }
    }

    /// Whether the request to the peer has been under way for more than
    /// `timeout` at `now`.
    #[verifier::when_used_as_spec(spec_timed_out)]
    pub fn timed_out(self, now: u64, timeout: u64) -> (b: bool)
        ensures
            b == self.spec_timed_out(now, timeout),
    {
        match self.pending_request {
            Some(q) => expired(now, q.issued_at, timeout),
            None => false,
        }
    }

    /// Whether the peer's chain is ahead of the local one: its total
    /// difficulty is higher, or it has announced a block that the local
    /// chain lacks, above the local best block.
    pub open spec fn spec_is_ahead(self, chain: ChainInfo) -> bool {
        self.total_difficulty.value() > chain.total_difficulty.value() || (self.announced
            && match self.latest_known_number {
            Some(h) => h > chain.best_number,
            None => false,
        })
    }

    /// Whether the peer's chain is ahead of the local one.
    pub fn is_ahead(&self, chain: &ChainInfo) -> (b: bool)
        ensures
            b == self.spec_is_ahead(*chain),
    {
        self.total_difficulty.gt(&chain.total_difficulty) || (self.announced
            && match self.latest_known_number {
            Some(h) => h > chain.best_number,
            None => false,
        })
    }

    /// Whether the peer may be given work: it is admitted, nothing is asked
    /// of it, and it does not rest.
    pub open spec fn spec_is_eligible(self) -> bool {
        self.admitted && self.state == PeerSyncPhase::Idle && !self.resting
    }

    /// Whether the peer may be given work.
    #[verifier::when_used_as_spec(spec_is_eligible)]
    pub fn is_eligible(self) -> (b: bool)
        ensures
            b == self.spec_is_eligible(),
    {
        self.admitted && matches!(self.state, PeerSyncPhase::Idle) && !self.resting
    }

    /// The record once an announcement of block `number` with hash `hash`
    /// has come from the peer; `known` says that the local chain holds the
    /// block. A peer that was out of the download for want of anything to
    /// give is idle again when the block is news.
    pub open spec fn spec_announce(self, hash: H256, number: u64, known: bool) -> PeerSyncState {
        PeerSyncState {
            best_hash: hash,
            latest_known_number: spec_raise(self.latest_known_number, number),
            announced: self.announced || !known,
            state: if !known && (self.state == PeerSyncPhase::NewBlocksOnly || self.state
                == PeerSyncPhase::Confirmed) {
                PeerSyncPhase::Idle
            } else {
                self.state
            },
            ..self
        }
    }

    /// The record once an announcement has come from the peer.
    #[verifier::when_used_as_spec(spec_announce)]
    pub fn announce(self, hash: H256, number: u64, known: bool) -> (p: PeerSyncState)
        ensures
            p == self.spec_announce(hash, number, known),
    {
        let wake = !known && match self.state {
            PeerSyncPhase::NewBlocksOnly => true,
            PeerSyncPhase::Confirmed => true,
            _ => false,
        };
        PeerSyncState {
            best_hash: hash,
            latest_known_number: raise(self.latest_known_number, number),
            announced: self.announced || !known,
            state: if wake {
                PeerSyncPhase::Idle
            } else {
                self.state
            },
            ..self
        }
    }
}

} // verus!
