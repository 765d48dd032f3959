use ethsync::search::AncestorSearch;

/// Runs the search from `top` against a peer whose chain is the local one
/// up to block `a`; gives the ancestor found and the probes made.
fn run(top: u64, a: u64) -> (u64, Vec<u64>) {
    let mut s = AncestorSearch::start(top);
    let mut probes = Vec::new();
    while let Some(n) = s.next_probe() {
        assert!(s.lo < n && n < s.hi);
        probes.push(n);
        s.advance(n <= a);
        assert!(probes.len() <= 200);
    }
    assert!(s.is_done());
    (s.ancestor().unwrap(), probes)
}

fn log2_floor(n: u64) -> u64 {
    63 - n.leading_zeros() as u64
}

#[test]
fn search_over_genesis_alone_is_done_at_once() {
    let s = AncestorSearch::start(0);
    assert!(s.is_done());
    assert_eq!(s.next_probe(), None);
    assert_eq!(s.ancestor(), Some(0));
}

#[test]
fn search_that_is_not_done_has_no_ancestor_yet() {
    let s = AncestorSearch::start(10);
    assert!(!s.is_done());
    assert_eq!(s.ancestor(), None);
    assert_eq!(s.next_probe(), Some(10));
}

#[test]
fn search_with_the_top_shared_takes_one_probe() {
    assert_eq!(run(100, 100), (100, vec![100]));
}

#[test]
fn search_walks_back_with_a_doubling_stride() {
    assert_eq!(run(100, 0).1[..6], [100, 98, 94, 86, 70, 38]);
}

#[test]
fn search_finds_a_fork_one_below_the_top() {
    assert_eq!(run(100, 99), (99, vec![100, 98, 99]));
}

#[test]
fn search_finds_a_fork_deep_below_the_top() {
    assert_eq!(run(100, 90), (90, vec![100, 98, 94, 86, 90, 92, 91]));
}

#[test]
fn search_finds_every_ancestor_within_the_bound() {
    for top in [1u64, 2, 3, 7, 64, 1000] {
        for a in 0..=top {
            let (found, probes) = run(top, a);
            assert_eq!(found, a, "top {} ancestor {}", top, a);
            let d = top - a;
            assert!(
                probes.len() as u64 <= 2 * log2_floor(d + 1) + 2,
                "top {} ancestor {}: {} probes",
                top,
                a,
                probes.len()
            );
        }
    }
}

#[test]
fn search_over_a_long_chain_is_logarithmic_in_the_depth() {
    let top = 5_000_000u64;
    assert_eq!(run(top, top - 3), (top - 3, vec![top, top - 2, top - 6, top - 4, top - 3]));
    let (found, probes) = run(top, top - 1_000_000);
    assert_eq!(found, top - 1_000_000);
    assert!(probes.len() <= 2 * 19 + 2);
    let (found, probes) = run(top, 0);
    assert_eq!(found, 0);
    assert!(probes.len() as u64 <= 2 * log2_floor(top + 1) + 2);
}

#[test]
fn search_ends_against_a_peer_that_answers_at_random() {
    let mut seed = 12345u64;
    for _ in 0..200 {
        let mut s = AncestorSearch::start(1 << 40);
        let mut count = 0;
        while s.next_probe().is_some() {
            seed = seed.wrapping_mul(6364136223846793005).wrapping_add(1442695040888963407);
            s.advance((seed >> 40) % 2 == 0);
            count += 1;
            assert!(count <= 200);
        }
        assert!(s.is_done());
    }
}

#[test]
fn search_from_the_highest_number_does_not_overflow() {
    let s = AncestorSearch::start(u64::MAX);
    assert_eq!(s.hi, u64::MAX);
    assert_eq!(s.next_probe(), Some(u64::MAX - 1));
    let mut t = s;
    let mut answers = 0;
    while !t.is_done() {
        t.advance(false);
        answers += 1;
        assert!(answers <= 128);
    }
    assert_eq!(t.ancestor(), Some(0));
}

#[test]
fn advance_of_a_finished_search_changes_nothing() {
    let mut s = AncestorSearch::start(0);
    let before = s;
    s.advance(true);
    assert_eq!(s, before);
    s.advance(false);
    assert_eq!(s, before);
}
