use ethsync::io::Action;
use ethsync::range_collection::BlockRange;
use ethsync::schedule::{check_batch, DownloadSchedule};
use ethsync::types::{BlockBody, BlockHeader, BlockReceipts, HeaderReport, H256};

fn r(lo: u64, hi: u64) -> BlockRange {
    BlockRange { lo, hi }
}

fn hash(n: u64) -> H256 {
    H256 { a: 9, b: n, c: 0, d: 0 }
}

fn root(n: u64) -> H256 {
    H256 { a: 8, b: n, c: 0, d: 0 }
}

fn receipts_root(n: u64) -> H256 {
    H256 { a: 7, b: n, c: 0, d: 0 }
}

fn header(n: u64) -> HeaderReport {
    HeaderReport {
        header: BlockHeader {
            number: n,
            hash: hash(n),
            parent_hash: hash(n.wrapping_sub(1)),
            body_root: root(n),
            receipts_root: receipts_root(n),
        },
        known: false,
    }
}

fn receipts(lo: u64, hi: u64) -> Vec<BlockReceipts> {
    (lo..=hi).map(|n| BlockReceipts { root: receipts_root(n) }).collect()
}

fn headers(lo: u64, hi: u64) -> Vec<HeaderReport> {
    (lo..=hi).map(header).collect()
}

fn bodies(lo: u64, hi: u64) -> Vec<BlockBody> {
    (lo..=hi).map(|n| BlockBody { root: root(n) }).collect()
}

#[test]
fn batch_that_fits_the_request_is_valid() {
    assert!(check_batch(r(5, 9), &headers(5, 9)));
    assert!(check_batch(r(5, 9), &headers(5, 7)));
    assert!(check_batch(r(5, 5), &headers(5, 5)));
}

#[test]
fn batch_that_is_empty_or_too_long_is_not_valid() {
    assert!(!check_batch(r(5, 9), &Vec::new()));
    assert!(!check_batch(r(5, 9), &headers(5, 10)));
}

#[test]
fn batch_that_starts_elsewhere_or_has_a_gap_is_not_valid() {
    assert!(!check_batch(r(5, 9), &headers(6, 9)));
    assert!(!check_batch(r(5, 9), &headers(4, 8)));
    let mut gap = headers(5, 8);
    gap.remove(1);
    assert!(!check_batch(r(5, 9), &gap));
    let mut twice = headers(5, 7);
    twice[2] = twice[1];
    assert!(!check_batch(r(5, 9), &twice));
}

#[test]
fn batch_with_a_broken_parent_link_is_not_valid() {
    let mut broken = headers(5, 9);
    broken[3].header.parent_hash = hash(999);
    assert!(!check_batch(r(5, 9), &broken));
}

#[test]
fn new_schedule_offers_headers_from_its_start() {
    let s = DownloadSchedule::new(1, false);
    assert_eq!(s.next_import(), 1);
    assert!(s.is_idle());
    assert!(!s.has_queued());
    assert_eq!(s.free_headers(16, 100), Some(r(1, 16)));
    assert_eq!(s.free_headers(16, 5), Some(r(1, 5)));
    assert_eq!(s.free_headers(16, 1), Some(r(1, 1)));
    assert_eq!(s.free_headers(16, 0), None);
    assert_eq!(s.free_headers(0, 100), None);
    assert_eq!(s.wanted_bodies(8), None);
    assert_eq!(s.queued_hash(1), None);
}

#[test]
fn reserved_headers_are_not_offered_again() {
    let mut s = DownloadSchedule::new(1, false);
    s.reserve_headers(r(1, 16));
    assert!(!s.is_idle());
    assert_eq!(s.free_headers(16, 100), Some(r(17, 32)));
    s.reserve_headers(r(17, 32));
    assert_eq!(s.free_headers(16, 40), Some(r(33, 40)));
    assert_eq!(s.free_headers(16, 32), None);
    s.release_headers(r(1, 16));
    assert_eq!(s.free_headers(16, 100), Some(r(1, 16)));
    assert_eq!(s.free_headers(4, 100), Some(r(1, 4)));
}

#[test]
fn free_headers_skip_what_is_obtained_and_what_is_asked_for() {
    let mut s = DownloadSchedule::new(1, false);
    s.reserve_headers(r(1, 4));
    s.accept_headers(r(1, 4), &headers(1, 4), 7);
    s.reserve_headers(r(5, 8));
    s.reserve_headers(r(11, 12));
    assert_eq!(s.free_headers(16, 100), Some(r(9, 10)));
    assert_eq!(s.free_headers(1, 100), Some(r(9, 9)));
    s.reserve_headers(r(9, 10));
    assert_eq!(s.free_headers(16, 100), Some(r(13, 28)));
}

#[test]
fn accepted_headers_are_queued_and_want_bodies() {
    let mut s = DownloadSchedule::new(1, false);
    s.reserve_headers(r(1, 10));
    s.accept_headers(r(1, 10), &headers(1, 6), 7);
    assert!(s.has_queued());
    assert_eq!(s.queued_hash(1), Some(hash(1)));
    assert_eq!(s.queued_hash(6), Some(hash(6)));
    assert_eq!(s.queued_hash(7), None);
    assert_eq!(s.wanted_bodies(4), Some(r(1, 4)));
    assert_eq!(s.wanted_bodies(100), Some(r(1, 6)));
    assert_eq!(s.free_headers(16, 100), Some(r(7, 22)));
}

#[test]
fn bodies_must_fit_the_headers_in_their_places() {
    let mut s = DownloadSchedule::new(1, false);
    s.reserve_headers(r(1, 6));
    s.accept_headers(r(1, 6), &headers(1, 6), 7);
    assert!(s.bodies_match(r(1, 4), &bodies(1, 4)));
    assert!(s.bodies_match(r(1, 4), &bodies(1, 2)));
    assert!(!s.bodies_match(r(1, 4), &Vec::new()));
    assert!(!s.bodies_match(r(1, 4), &bodies(1, 5)));
    assert!(!s.bodies_match(r(1, 4), &bodies(2, 4)));
    assert!(!s.bodies_match(r(5, 8), &bodies(5, 8)));
    let mut wrong = bodies(1, 4);
    wrong[2].root = root(99);
    assert!(!s.bodies_match(r(1, 4), &wrong));
}

#[test]
fn whole_blocks_are_drained_in_order_without_a_gap() {
    let mut s = DownloadSchedule::new(1, false);
    s.reserve_headers(r(1, 6));
    s.accept_headers(r(1, 6), &headers(1, 6), 7);
    s.reserve_bodies(r(1, 3));
    s.reserve_bodies(r(4, 6));
    assert_eq!(s.wanted_bodies(8), None);
    s.accept_bodies(r(4, 6), 3, 8);
    assert_eq!(s.drain(), vec![]);
    assert_eq!(s.next_import(), 1);
    s.accept_bodies(r(1, 3), 2, 9);
    assert_eq!(s.wanted_bodies(8), Some(r(3, 3)));
    let first = s.drain();
    assert_eq!(
        first,
        vec![
            Action::Import { number: 1, hash: hash(1), header_from: 7, body_from: 9 },
            Action::Import { number: 2, hash: hash(2), header_from: 7, body_from: 9 },
        ]
    );
    assert_eq!(s.next_import(), 3);
    assert_eq!(s.queued_hash(2), None);
    s.reserve_bodies(r(3, 3));
    s.accept_bodies(r(3, 3), 1, 9);
    let rest = s.drain();
    assert_eq!(
        rest,
        vec![
            Action::Import { number: 3, hash: hash(3), header_from: 7, body_from: 9 },
            Action::Import { number: 4, hash: hash(4), header_from: 7, body_from: 8 },
            Action::Import { number: 5, hash: hash(5), header_from: 7, body_from: 8 },
            Action::Import { number: 6, hash: hash(6), header_from: 7, body_from: 8 },
        ]
    );
    assert_eq!(s.next_import(), 7);
    assert!(!s.has_queued());
    assert!(s.is_idle());
    assert_eq!(s.drain(), vec![]);
}

#[test]
fn released_bodies_are_wanted_again() {
    let mut s = DownloadSchedule::new(1, false);
    s.reserve_headers(r(1, 6));
    s.accept_headers(r(1, 6), &headers(1, 6), 7);
    s.reserve_bodies(r(1, 6));
    assert_eq!(s.wanted_bodies(8), None);
    s.release_bodies(r(1, 6));
    assert_eq!(s.wanted_bodies(8), Some(r(1, 6)));
}

#[test]
fn reset_forgets_everything() {
    let mut s = DownloadSchedule::new(1, false);
    s.reserve_headers(r(1, 6));
    s.accept_headers(r(1, 6), &headers(1, 6), 7);
    s.reserve_headers(r(7, 9));
    s.reset(40);
    assert_eq!(s.next_import(), 40);
    assert!(s.is_idle());
    assert!(!s.has_queued());
    assert_eq!(s.wanted_bodies(8), None);
    assert_eq!(s.free_headers(16, 100), Some(r(40, 55)));
}

#[test]
fn schedule_at_the_top_of_the_numbers_does_not_overflow() {
    let mut s = DownloadSchedule::new(u64::MAX, false);
    assert_eq!(s.free_headers(16, u64::MAX), Some(r(u64::MAX, u64::MAX)));
    s.reserve_headers(r(u64::MAX, u64::MAX));
    assert_eq!(s.free_headers(16, u64::MAX), None);
    s.accept_headers(r(u64::MAX, u64::MAX), &headers(u64::MAX, u64::MAX), 1);
    s.reserve_bodies(r(u64::MAX, u64::MAX));
    s.accept_bodies(r(u64::MAX, u64::MAX), 1, 1);
    assert_eq!(s.drain(), vec![]);
    assert_eq!(s.next_import(), u64::MAX);
}

#[test]
fn plain_schedule_wants_no_receipts() {
    let mut s = DownloadSchedule::new(1, false);
    s.reserve_headers(r(1, 4));
    s.accept_headers(r(1, 4), &headers(1, 4), 7);
    s.reserve_bodies(r(1, 4));
    s.accept_bodies(r(1, 4), 4, 7);
    assert_eq!(s.wanted_receipts(8), None);
    assert_eq!(s.drain().len(), 4);
}

#[test]
fn fast_schedule_wants_receipts_once_the_bodies_are_there() {
    let mut s = DownloadSchedule::new(1, true);
    s.reserve_headers(r(1, 6));
    s.accept_headers(r(1, 6), &headers(1, 6), 7);
    assert_eq!(s.wanted_receipts(8), None);
    s.reserve_bodies(r(1, 6));
    s.accept_bodies(r(1, 6), 4, 8);
    assert_eq!(s.wanted_bodies(8), Some(r(5, 6)));
    assert_eq!(s.wanted_receipts(8), Some(r(1, 4)));
    assert_eq!(s.wanted_receipts(3), Some(r(1, 3)));
    assert_eq!(s.wanted_receipts(0), None);
    assert_eq!(s.drain(), vec![]);
    assert_eq!(s.next_import(), 1);
}

#[test]
fn receipts_must_fit_the_headers_in_their_places() {
    let mut s = DownloadSchedule::new(1, true);
    s.reserve_headers(r(1, 6));
    s.accept_headers(r(1, 6), &headers(1, 6), 7);
    assert!(s.receipts_match(r(1, 4), &receipts(1, 4)));
    assert!(s.receipts_match(r(1, 4), &receipts(1, 1)));
    assert!(!s.receipts_match(r(1, 4), &Vec::new()));
    assert!(!s.receipts_match(r(1, 4), &receipts(1, 5)));
    assert!(!s.receipts_match(r(1, 4), &receipts(2, 5)));
    assert!(!s.receipts_match(r(6, 9), &receipts(6, 9)));
    let mut wrong = receipts(1, 4);
    wrong[3].root = root(4);
    assert!(!s.receipts_match(r(1, 4), &wrong));
}

#[test]
fn fast_schedule_drains_blocks_that_have_body_and_receipts() {
    let mut s = DownloadSchedule::new(1, true);
    s.reserve_headers(r(1, 4));
    s.accept_headers(r(1, 4), &headers(1, 4), 7);
    s.reserve_bodies(r(1, 4));
    s.accept_bodies(r(1, 4), 4, 8);
    s.reserve_receipts(r(1, 4));
    assert_eq!(s.wanted_receipts(8), None);
    s.accept_receipts(r(1, 4), 2, 9);
    assert_eq!(s.wanted_receipts(8), Some(r(3, 4)));
    assert_eq!(
        s.drain(),
        vec![
            Action::Import { number: 1, hash: hash(1), header_from: 7, body_from: 8 },
            Action::Import { number: 2, hash: hash(2), header_from: 7, body_from: 8 },
        ]
    );
    assert_eq!(s.next_import(), 3);
    s.reserve_receipts(r(3, 4));
    s.release_receipts(r(3, 4));
    assert_eq!(s.wanted_receipts(8), Some(r(3, 4)));
    s.reserve_receipts(r(3, 4));
    s.accept_receipts(r(3, 4), 2, 9);
    assert_eq!(s.drain().len(), 2);
    assert_eq!(s.next_import(), 5);
    assert!(s.is_idle());
}

#[test]
fn reset_keeps_the_variant() {
    let mut s = DownloadSchedule::new(1, true);
    s.reset(10);
    s.reserve_headers(r(10, 11));
    s.accept_headers(r(10, 11), &headers(10, 11), 7);
    s.reserve_bodies(r(10, 11));
    s.accept_bodies(r(10, 11), 2, 7);
    assert_eq!(s.wanted_receipts(8), Some(r(10, 11)));
}
