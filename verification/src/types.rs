//! Plain values that the synchronisation logic reads: hashes, difficulties,
//! headers and a snapshot of the local chain.

use vstd::prelude::*;

verus! {

/// Identifies a connected peer for as long as its connection lasts.
pub type PeerId = usize;

/// The height of a block.
pub type BlockNumber = u64;

/// A 256-bit hash, held as four words. Only equality is ever asked of it.
#[derive(Clone, Copy, Debug, PartialEq, Eq, Structural, Hash)]
pub struct H256 {
    pub a: u64,
    pub b: u64,
    pub c: u64,
    pub d: u64,
}

impl H256 {
    /// The hash whose bits are all zero.
    pub fn zero() -> (h: H256)
        ensures
            h == (H256 { a: 0, b: 0, c: 0, d: 0 }),
    {
        H256 { a: 0, b: 0, c: 0, d: 0 }
    }
}

/// A 256-bit unsigned number, as total difficulties are: `hi` holds the upper
/// 128 bits and `lo` the lower.
#[derive(Clone, Copy, Debug, PartialEq, Eq, Structural, Hash)]
pub struct U256 {
    pub hi: u128,
    pub lo: u128,
}

impl U256 {
    /// The number that the two halves stand for.
    pub open spec fn value(self) -> nat {
        (self.hi * 0x1_0000_0000_0000_0000_0000_0000_0000_0000 + self.lo) as nat
    }

    /// Zero.
    pub fn zero() -> (n: U256)
        ensures
            n.value() == 0,
    {
        U256 { hi: 0, lo: 0 }
    }

    /// The number `n`.
    pub fn from_u64(n: u64) -> (r: U256)
        ensures
            r.value() == n,
    {
        U256 { hi: 0, lo: n as u128 }
    }

    /// Whether `self` is the larger number.
    pub fn gt(&self, other: &U256) -> (b: bool)
        ensures
            b == (self.value() > other.value()),
    {
        self.hi > other.hi || (self.hi == other.hi && self.lo > other.lo)
    }
}

/// Two numbers with the same value have the same halves.
pub proof fn lemma_u256_value_is_injective(x: U256, y: U256)
    requires
        x.value() == y.value(),
    ensures
        x == y,
{
}

/// What the logic reads of a block header. `body_root` commits to the body:
/// a body belongs to the header exactly when its own root equals it. So
/// does `receipts_root` to the receipts.
#[derive(Clone, Copy, Debug, PartialEq, Eq, Structural)]
pub struct BlockHeader {
    pub number: u64,
    pub hash: H256,
    pub parent_hash: H256,
    pub body_root: H256,
    pub receipts_root: H256,
}

/// What the logic reads of a block body: the root computed from its
/// transactions and uncles.
#[derive(Clone, Copy, Debug, PartialEq, Eq, Structural)]
pub struct BlockBody {
    pub root: H256,
}

/// What the logic reads of the receipts of a block: the root computed from
/// them.
#[derive(Clone, Copy, Debug, PartialEq, Eq, Structural)]
pub struct BlockReceipts {
    pub root: H256,
}

/// A header as a peer sent it, with the local chain's answer to whether it
/// already holds a block of that hash.
#[derive(Clone, Copy, Debug, PartialEq, Eq, Structural)]
pub struct HeaderReport {
    pub header: BlockHeader,
    pub known: bool,
}

/// The local chain at the moment an event is handled.
#[derive(Clone, Copy, Debug, PartialEq, Eq, Structural)]
pub struct ChainInfo {
    pub genesis_hash: H256,
    pub best_hash: H256,
    pub best_number: u64,
    pub total_difficulty: U256,
}

} // verus!
