use ethsync::io::{supported_version, PacketKind, ETH_PROTOCOL_VERSION_62, ETH_PROTOCOL_VERSION_63};
use ethsync::types::{H256, U256};

const KINDS: [(PacketKind, u8); 12] = [
    (PacketKind::Status, 0x00),
    (PacketKind::NewBlockHashes, 0x01),
    (PacketKind::Transactions, 0x02),
    (PacketKind::GetBlockHeaders, 0x03),
    (PacketKind::BlockHeaders, 0x04),
    (PacketKind::GetBlockBodies, 0x05),
    (PacketKind::BlockBodies, 0x06),
    (PacketKind::NewBlock, 0x07),
    (PacketKind::GetNodeData, 0x0d),
    (PacketKind::NodeData, 0x0e),
    (PacketKind::GetReceipts, 0x0f),
    (PacketKind::Receipts, 0x10),
];

#[test]
fn packet_kinds_have_their_wire_ids() {
    for (kind, id) in KINDS {
        assert_eq!(kind.id(), id);
        assert_eq!(PacketKind::from_id(id), Some(kind));
    }
}

#[test]
fn other_ids_stand_for_no_packet_kind() {
    for id in 0..=255u8 {
        let known = KINDS.iter().any(|(_, k)| *k == id);
        assert_eq!(PacketKind::from_id(id).is_some(), known, "id {}", id);
    }
    assert_eq!(PacketKind::from_id(0x08), None);
    assert_eq!(PacketKind::from_id(0x0c), None);
    assert_eq!(PacketKind::from_id(0x11), None);
}

#[test]
fn protocol_versions_62_and_63_are_spoken() {
    assert_eq!(ETH_PROTOCOL_VERSION_62, 62);
    assert_eq!(ETH_PROTOCOL_VERSION_63, 63);
    assert!(supported_version(62));
    assert!(supported_version(63));
    assert!(!supported_version(61));
    assert!(!supported_version(64));
    assert!(!supported_version(0));
}

#[test]
fn difficulties_compare_as_numbers() {
    let small = U256 { hi: 0, lo: 5 };
    let large_low = U256 { hi: 0, lo: u128::MAX };
    let high = U256 { hi: 1, lo: 0 };
    let higher = U256 { hi: 1, lo: 1 };
    assert!(large_low.gt(&small));
    assert!(!small.gt(&large_low));
    assert!(high.gt(&large_low));
    assert!(!large_low.gt(&high));
    assert!(higher.gt(&high));
    assert!(!high.gt(&high));
    assert!(!U256::zero().gt(&U256::zero()));
    assert!(U256::from_u64(1).gt(&U256::zero()));
    assert_eq!(U256::from_u64(77), U256 { hi: 0, lo: 77 });
}

#[test]
fn zero_hash_is_all_zero() {
    assert_eq!(H256::zero(), H256 { a: 0, b: 0, c: 0, d: 0 });
}
