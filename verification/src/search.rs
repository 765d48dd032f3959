//! The search for the highest block that the local chain and a peer's chain
//! share.
//!
//! The search asks the peer for one header at a time and is told, for each,
//! whether the local chain holds it. It first walks back from the top with a
//! stride that doubles at every miss, then bisects the bracket that the first
//! hit leaves. Every probe lies strictly inside the bracket, so the search
//! ends whatever the peer answers; against an honest peer it ends at the
//! common ancestor after a number of probes logarithmic in the depth of the
//! fork.

use vstd::prelude::*;

verus! {

/// The state of one search. `lo` is the highest number known to be shared
/// (block 0, the genesis block, is shared by every admitted peer); `hi` is
/// the lowest number known not to be, or one past the top. `step` is the
/// stride of the walk back, and zero once the search bisects. `top` is the
/// number that the search began at.
#[derive(Clone, Copy, Debug, PartialEq, Eq, Structural)]
pub struct AncestorSearch {
    pub lo: u64,
    pub hi: u64,
    pub step: u64,
    pub top: u64,
}

impl AncestorSearch {
    /// The search over the numbers `0..=top`.
    pub open spec fn spec_start(top: u64) -> AncestorSearch {
        AncestorSearch {
            lo: 0,
            hi: if top == u64::MAX {
                top
            } else {
                (top + 1) as u64
            },
            step: 1,
            top,
        }
    }

    /// Whether the bracket has closed on one number.
    pub open spec fn spec_is_done(self) -> bool {
        self.hi - self.lo <= 1
    }

    /// The number to ask for next, for a search that is not done.
    pub open spec fn spec_probe(self) -> u64 {
        if 0 < self.step < self.hi - self.lo {
            (self.hi - self.step) as u64
        } else {
            (self.lo + (self.hi - self.lo) / 2) as u64
        }
    }

    /// The search after the answer to its probe: `known` says that the local
    /// chain holds the header that the peer sent for it.
    pub open spec fn spec_advance(self, known: bool) -> AncestorSearch {
        if self.spec_is_done() {
            self
        } else if known {
            AncestorSearch { lo: self.spec_probe(), hi: self.hi, step: 0, top: self.top }
        } else {
            AncestorSearch {
                lo: self.lo,
                hi: self.spec_probe(),
                step: if self.step > u64::MAX / 2 {
                    u64::MAX
                } else {
                    (self.step * 2) as u64
                },
                top: self.top,
            }
        }
    }

    /// The search over the numbers `0..=top`.
    #[verifier::when_used_as_spec(spec_start)]
    pub fn start(top: u64) -> (s: AncestorSearch)
        ensures
            s == Self::spec_start(top),
    {
        AncestorSearch { lo: 0, hi: if top == u64::MAX { top } else { top + 1 }, step: 1, top }
    }

    /// Whether the bracket has closed on one number.
    pub fn is_done(&self) -> (b: bool)
        ensures
            b == self.spec_is_done(),
    {
        self.hi <= self.lo || self.hi - self.lo <= 1
    }

    /// Whether the search has met a block of the peer's that the local chain
    /// lacks: the peer's chain leaves the local one below the top.
    pub open spec fn spec_forked(self) -> bool {
        self.lo < self.top
    }

    /// The common ancestor, once the search is done.
    pub fn ancestor(&self) -> (a: Option<u64>)
        ensures
            a == (if self.spec_is_done() { Some(self.lo) } else { None }),
    {
        if self.is_done() {
            Some(self.lo)
        } else {
            None
        }
    }

    /// The number to ask the peer for next; `None` once the search is done.
    /// The number lies strictly between `lo` and `hi`.
    pub fn next_probe(&self) -> (p: Option<u64>)
        ensures
            p == (if self.spec_is_done() { None } else { Some(self.spec_probe()) }),
            p matches Some(n) ==> self.lo < n < self.hi,
    {
        if self.is_done() {
            None
        } else if 0 < self.step && self.step < self.hi - self.lo {
            Some(self.hi - self.step)
        } else {
            Some(self.lo + (self.hi - self.lo) / 2)
        }
    }

    /// Takes the answer to the probe. A search that is done stays as it is.
    pub fn advance(&mut self, known: bool)
        ensures
            *final(self) == old(self).spec_advance(known),
    {
        match self.next_probe() {
            None => {},
            Some(p) => {
                if known {
                    self.lo = p;
                    self.step = 0;
                } else {
                    self.hi = p;
                    self.step = if self.step > u64::MAX / 2 {
                        u64::MAX
                    } else {
                        self.step * 2
                    };
                }
            },
        }
    }
}

/// The whole-number logarithm to base two: the greatest `k` with
/// `2^k <= n`, and zero for `n` below two.
pub open spec fn log2_floor(n: nat) -> nat
    decreases n,
{
    if n <= 1 {
        0
    } else {
        1 + log2_floor(n / 2)
    }
}

/// The search as it ends against a peer whose chain is the local one up to
/// block `a` and another above it.
pub open spec fn run(s: AncestorSearch, a: int) -> AncestorSearch
    decreases s.hi - s.lo,
{
    if s.spec_is_done() {
        s
    } else {
        run(s.spec_advance(s.spec_probe() <= a), a)
    }
}

/// The number of probes that the search makes against such a peer.
pub open spec fn probes_needed(s: AncestorSearch, a: int) -> nat
    decreases s.hi - s.lo,
{
    if s.spec_is_done() {
        0
    } else {
        1 + probes_needed(s.spec_advance(s.spec_probe() <= a), a)
    }
}

/// The logarithm never falls as its argument grows.
proof fn lemma_log2_monotonic(m: nat, n: nat)
    requires
        m <= n,
    ensures
        log2_floor(m) <= log2_floor(n),
    decreases n,
{
    if m > 1 {
        lemma_log2_monotonic(m / 2, n / 2);
    }
}

/// The bound on the probes of a bisection over a bracket `width` wide.
spec fn bisect_bound(width: int) -> nat {
    if width <= 1 {
        0
    } else {
        log2_floor((width - 1) as nat) + 1
    }
}

proof fn lemma_bisect_bound_monotonic(v: int, w: int)
    requires
        v <= w,
    ensures
        bisect_bound(v) <= bisect_bound(w),
{
    if v > 1 {
        lemma_log2_monotonic((v - 1) as nat, (w - 1) as nat);
    }
}

/// The count of strides `t, 2t, 4t, ..` that stay at or below half of `m`.
spec fn gallop_bound(t: int, m: int) -> nat
    decreases m - t,
{
    if 1 <= t && 2 * t <= m {
        1 + gallop_bound(2 * t, m)
    } else {
        0
    }
}

proof fn lemma_gallop_bound(t: int, m: int)
    requires
        1 <= t <= m,
    ensures
        gallop_bound(t, m) + log2_floor(t as nat) <= log2_floor(m as nat),
    decreases m - t,
{
    if 2 * t <= m {
        lemma_gallop_bound(2 * t, m);
        assert((2 * t) / 2 == t);
    } else {
        lemma_log2_monotonic(t as nat, m as nat);
    }
}

/// Once the stride is spent, the search halves its bracket at every probe.
proof fn lemma_bisect(s: AncestorSearch, a: int)
    requires
        s.lo <= a < s.hi,
        s.step == 0 || s.step >= s.hi - s.lo,
    ensures
        probes_needed(s, a) <= bisect_bound(s.hi - s.lo),
        run(s, a).lo == a,
    decreases s.hi - s.lo,
{
    let w = s.hi - s.lo;
    if w > 1 {
        let p = s.spec_probe();
        let next = s.spec_advance(p <= a);
        let v = next.hi - next.lo;
        lemma_bisect(next, a);
        assert(v <= w - w / 2);
        if v > 1 {
            lemma_log2_monotonic((v - 1) as nat, (w - w / 2 - 1) as nat);
            assert(w - w / 2 - 1 == (w - 1) / 2);
        }
    }
}

/// While the stride doubles: `top` is where the walk began, so that `hi` has
/// come down from `top + 1` by one less than the stride.
proof fn lemma_gallop(s: AncestorSearch, a: int, top: int)
    requires
        s.lo <= a < s.hi,
        s.step >= 1,
        s.hi + s.step == top + 2,
        top < u64::MAX,
    ensures
        probes_needed(s, a) <= gallop_bound(s.step as int, top - a + 1) + 1 + bisect_bound(
            top - a + 1,
        ),
        run(s, a).lo == a,
    decreases s.hi - s.lo,
{
    let m = top - a + 1;
    let w = s.hi - s.lo;
    if w > 1 {
        if s.step < w {
            let p = s.spec_probe();
            let next = s.spec_advance(p <= a);
            if p <= a {
                lemma_bisect(next, a);
                lemma_bisect_bound_monotonic(s.step as int, m);
            } else {
                lemma_gallop(next, a, top);
            }
        } else {
            lemma_bisect(s, a);
            lemma_bisect_bound_monotonic(w, m);
        }
    }
}

/// Against a peer whose chain leaves the local one after block `a`, the
/// search from `top` ends with `a` as the common ancestor, after at most
/// `2 * log2(d + 1) + 2` probes, where `d = top - a` is the depth of the
/// fork below the top.
pub proof fn lemma_search_is_logarithmic(top: u64, a: int)
    requires
        0 <= a <= top,
        top < u64::MAX,
    ensures
        run(AncestorSearch::spec_start(top), a).spec_is_done(),
        run(AncestorSearch::spec_start(top), a).lo == a,
        probes_needed(AncestorSearch::spec_start(top), a) <= 2 * log2_floor((top - a + 1) as nat)
            + 2,
{
    let s = AncestorSearch::spec_start(top);
    let m = top - a + 1;
    lemma_gallop(s, a, top as int);
    lemma_gallop_bound(1, m);
    if m > 1 {
        lemma_log2_monotonic((m - 1) as nat, m as nat);
    }
    lemma_run_ends(s, a);
}

/// The search ends with its bracket closed, whatever the peer's chain.
pub proof fn lemma_run_ends(s: AncestorSearch, a: int)
    ensures
        run(s, a).spec_is_done(),
    decreases s.hi - s.lo,
{
    if !s.spec_is_done() {
        lemma_run_ends(s.spec_advance(s.spec_probe() <= a), a);
    }
}

/// A search that ends against a peer whose chain leaves the local one after
/// block `a` sees a fork exactly when `a` lies below the top.
pub proof fn lemma_fork_is_seen(top: u64, a: int)
    requires
        0 <= a <= top,
        top < u64::MAX,
    ensures
        run(AncestorSearch::spec_start(top), a).spec_forked() == (a < top),
{
    lemma_search_is_logarithmic(top, a);
    lemma_run_keeps_top(AncestorSearch::spec_start(top), a);
}

/// The top of a search never changes.
pub proof fn lemma_run_keeps_top(s: AncestorSearch, a: int)
    ensures
        run(s, a).top == s.top,
    decreases s.hi - s.lo,
{
    if !s.spec_is_done() {
        lemma_run_keeps_top(s.spec_advance(s.spec_probe() <= a), a);
    }
}

/// Every answer, true or not, narrows the bracket of a search that is not
/// done: no peer can keep the search going for ever.
pub proof fn lemma_advance_narrows(s: AncestorSearch, known: bool)
    requires
        !s.spec_is_done(),
    ensures
        s.spec_advance(known).hi - s.spec_advance(known).lo < s.hi - s.lo,
        s.lo <= s.spec_advance(known).lo,
        s.spec_advance(known).hi <= s.hi,
{
}

} // verus!
