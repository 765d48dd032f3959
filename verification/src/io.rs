//! The seam between the synchronisation logic and the outside: the packets
//! that come in, already decoded, and the actions that go out. The logic
//! performs nothing itself; whoever drives it sends, disconnects and imports
//! as the returned actions say.

use vstd::prelude::*;
use crate::types::{BlockBody, BlockHeader, BlockReceipts, HeaderReport, PeerId, H256, U256};

verus! {

/// The lower of the two protocol versions spoken.
pub const ETH_PROTOCOL_VERSION_62: u8 = 62;

/// The higher of the two protocol versions spoken.
pub const ETH_PROTOCOL_VERSION_63: u8 = 63;

/// Whether `version` is a protocol version that the engine speaks.
pub open spec fn spec_supported_version(version: u8) -> bool {
    version == ETH_PROTOCOL_VERSION_62 || version == ETH_PROTOCOL_VERSION_63
}

/// Whether `version` is a protocol version that the engine speaks.
#[verifier::when_used_as_spec(spec_supported_version)]
pub fn supported_version(version: u8) -> (b: bool)
    ensures
        b == spec_supported_version(version),
{
    version == ETH_PROTOCOL_VERSION_62 || version == ETH_PROTOCOL_VERSION_63
}

/// The kinds of packet on the wire.
#[derive(Clone, Copy, Debug, PartialEq, Eq, Structural)]
pub enum PacketKind {
    Status,
    NewBlockHashes,
    Transactions,
    GetBlockHeaders,
    BlockHeaders,
    GetBlockBodies,
    BlockBodies,
    NewBlock,
    GetNodeData,
    NodeData,
    GetReceipts,
    Receipts,
}

impl PacketKind {
    /// The packet id that stands for the kind on the wire.
    pub open spec fn spec_id(self) -> u8 {
        match self {
            PacketKind::Status => 0x00,
            PacketKind::NewBlockHashes => 0x01,
            PacketKind::Transactions => 0x02,
            PacketKind::GetBlockHeaders => 0x03,
            PacketKind::BlockHeaders => 0x04,
            PacketKind::GetBlockBodies => 0x05,
            PacketKind::BlockBodies => 0x06,
            PacketKind::NewBlock => 0x07,
            PacketKind::GetNodeData => 0x0d,
            PacketKind::NodeData => 0x0e,
            PacketKind::GetReceipts => 0x0f,
            PacketKind::Receipts => 0x10,
        }
    }

    /// The packet id that stands for the kind on the wire.
    #[verifier::when_used_as_spec(spec_id)]
    pub fn id(self) -> (id: u8)
        ensures
            id == self.spec_id(),
    {
        match self {
            PacketKind::Status => 0x00,
            PacketKind::NewBlockHashes => 0x01,
            PacketKind::Transactions => 0x02,
            PacketKind::GetBlockHeaders => 0x03,
            PacketKind::BlockHeaders => 0x04,
            PacketKind::GetBlockBodies => 0x05,
            PacketKind::BlockBodies => 0x06,
            PacketKind::NewBlock => 0x07,
            PacketKind::GetNodeData => 0x0d,
            PacketKind::NodeData => 0x0e,
            PacketKind::GetReceipts => 0x0f,
            PacketKind::Receipts => 0x10,
        }
    }

    /// The kind that a packet id stands for; `None` for an id that stands
    /// for none.
    pub open spec fn spec_from_id(id: u8) -> Option<PacketKind> {
        if id == 0x00 {
            Some(PacketKind::Status)
        } else if id == 0x01 {
            Some(PacketKind::NewBlockHashes)
        } else if id == 0x02 {
            Some(PacketKind::Transactions)
        } else if id == 0x03 {
            Some(PacketKind::GetBlockHeaders)
        } else if id == 0x04 {
            Some(PacketKind::BlockHeaders)
        } else if id == 0x05 {
            Some(PacketKind::GetBlockBodies)
        } else if id == 0x06 {
            Some(PacketKind::BlockBodies)
        } else if id == 0x07 {
            Some(PacketKind::NewBlock)
        } else if id == 0x0d {
            Some(PacketKind::GetNodeData)
        } else if id == 0x0e {
            Some(PacketKind::NodeData)
        } else if id == 0x0f {
            Some(PacketKind::GetReceipts)
        } else if id == 0x10 {
            Some(PacketKind::Receipts)
        } else {
            None
        }
    }

    /// The kind that a packet id stands for; `None` for an id that stands
    /// for none.
    #[verifier::when_used_as_spec(spec_from_id)]
    pub fn from_id(id: u8) -> (kind: Option<PacketKind>)
        ensures
            kind == Self::spec_from_id(id),
    {
        if id == 0x00 {
            Some(PacketKind::Status)
        } else if id == 0x01 {
            Some(PacketKind::NewBlockHashes)
        } else if id == 0x02 {
            Some(PacketKind::Transactions)
        } else if id == 0x03 {
            Some(PacketKind::GetBlockHeaders)
        } else if id == 0x04 {
            Some(PacketKind::BlockHeaders)
        } else if id == 0x05 {
            Some(PacketKind::GetBlockBodies)
        } else if id == 0x06 {
            Some(PacketKind::BlockBodies)
        } else if id == 0x07 {
            Some(PacketKind::NewBlock)
        } else if id == 0x0d {
            Some(PacketKind::GetNodeData)
        } else if id == 0x0e {
            Some(PacketKind::NodeData)
        } else if id == 0x0f {
            Some(PacketKind::GetReceipts)
        } else if id == 0x10 {
            Some(PacketKind::Receipts)
        } else {
            None
        }
    }
}

/// No two kinds share a packet id.
pub proof fn lemma_packet_ids_are_distinct(a: PacketKind, b: PacketKind)
    requires
        a.spec_id() == b.spec_id(),
    ensures
        a == b,
{
}

/// The kind of an id is the one kind with that id: every kind is found
/// again from its id, and an id that gives a kind is the id of that kind.
pub proof fn lemma_packet_kind_of_id(kind: PacketKind, id: u8)
    ensures
        PacketKind::spec_from_id(kind.spec_id()) == Some(kind),
        PacketKind::spec_from_id(id) == Some(kind) <==> kind.spec_id() == id,
{
}

/// A peer's handshake: what it says of itself and of its chain.
#[derive(Clone, Copy, Debug, PartialEq, Eq, Structural)]
pub struct StatusMessage {
    pub protocol_version: u8,
    pub network_id: u64,
    pub total_difficulty: U256,
    pub best_hash: H256,
    pub genesis_hash: H256,
}

/// A block that a peer announces. `known` is the local chain's answer to
/// whether it already holds a block of that hash.
#[derive(Clone, Copy, Debug, PartialEq, Eq, Structural)]
pub struct Announcement {
    pub hash: H256,
    pub number: u64,
    pub known: bool,
}

/// A packet from a peer, decoded.
pub enum Packet {
    /// The peer's handshake.
    Status(StatusMessage),
    /// Headers, in the order sent.
    BlockHeaders(Vec<HeaderReport>),
    /// Bodies, in the order sent.
    BlockBodies(Vec<BlockBody>),
    /// The receipts of blocks, in the order sent.
    Receipts(Vec<BlockReceipts>),
    /// Hashes of blocks that the peer has newly got.
    NewBlockHashes(Vec<Announcement>),
    /// A block that the peer has newly got, with the total difficulty that
    /// its chain reaches with it.
    NewBlock { header: BlockHeader, total_difficulty: U256, known: bool },
    /// Any other packet: transactions, a request to serve, node data. The
    /// download takes no part in these.
    Other(PacketKind),
    /// Bytes that stand for no packet: the packet id is unknown, or the data
    /// cannot be decoded as what the id says.
    Malformed,
}

/// What is asked of a peer.
#[derive(Clone, Copy, Debug, PartialEq, Eq, Structural)]
pub enum Request {
    /// The local handshake.
    Status(StatusMessage),
    /// The one header with this hash.
    HeaderByHash { hash: H256 },
    /// `count` headers in ascending order, starting at number `start`.
    Headers { start: u64, count: u64 },
    /// The bodies of the queued headers numbered `first` to `last`, which the
    /// wire asks for by their hashes (see `ChainSync::queued_hash`).
    Bodies { first: u64, last: u64 },
    /// The receipts of the queued blocks numbered `first` to `last`, which
    /// the wire asks for by their hashes too.
    Receipts { first: u64, last: u64 },
}

/// One thing for the driver to do.
#[derive(Clone, Copy, Debug, PartialEq, Eq, Structural)]
pub enum Action {
    /// Send the request to the peer.
    Send { peer: PeerId, request: Request },
    /// Close the connection to the peer.
    Disconnect { peer: PeerId },
    /// Close the connection to the peer and take no further connection from
    /// it: its chain is not ours.
    Disable { peer: PeerId },
    /// Hand the block to the chain store. `header_from` and `body_from` are
    /// the peers that supplied its two halves.
    Import { number: u64, hash: H256, header_from: PeerId, body_from: PeerId },
}

/// Something that happens to the engine.
pub enum Event {
    /// A peer has connected.
    Connected { peer: PeerId },
    /// A packet has come from a peer.
    Received { peer: PeerId, packet: Packet },
    /// A peer's connection has ended.
    Disconnected { peer: PeerId },
    /// The maintenance timer has fired.
    Timer,
    /// The host stops the synchronisation.
    Abort,
    /// The host begins the synchronisation anew.
    Restart,
    /// The chain store has refused block `number`, which `peer` supplied.
    ImportFailed { number: u64, peer: PeerId },
}

} // verus!
