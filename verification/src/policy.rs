//! The numeric policy of the store: ranks are fixed-point scores held in
//! hundredths, every visit adds a fixed weight, and when the sum of all
//! ranks crosses a ceiling every rank is multiplied by a decay factor of
//! three quarters; entries whose rank falls to the pruning threshold or
//! below are dropped.

use vstd::prelude::*;

verus! {

/// One visit adds this much rank (1.00 in hundredths).
pub const VISIT_WEIGHT: u64 = 100;

/// Aging fires when the sum of all ranks exceeds this ceiling
/// (9000.00 in hundredths).
pub const AGING_CEILING: u64 = 900000;

/// After aging, an entry whose rank is at or below this threshold
/// (0.10 in hundredths) is pruned.
pub const PRUNE_EPSILON: u64 = 10;

/// A rank after one aging step: three quarters of the old rank,
/// rounded down.
pub open spec fn aged_rank(r: u64) -> u64 {
    ((r * 3) / 4) as u64
}

/// Aging strictly shrinks every positive rank.
pub proof fn lemma_aged_rank_shrinks(r: u64)
    requires
        r >= 1,
        r <= AGING_CEILING + VISIT_WEIGHT,
    ensures
        aged_rank(r) < r,
{
}

/// Aging keeps the relative order of ranks: a rank no larger than
/// another stays no larger after aging.
pub proof fn lemma_aged_rank_monotone(r1: u64, r2: u64)
    requires
        r1 <= r2,
        r2 <= AGING_CEILING + VISIT_WEIGHT,
    ensures
        aged_rank(r1) <= aged_rank(r2),
{
}

/// Aging keeps strict order between ranks at least two hundredths
/// apart: only immediately adjacent fixed-point ranks can fall
/// together.
pub proof fn lemma_aged_rank_strict(r1: u64, r2: u64)
    requires
        r1 + 2 <= r2,
        r2 <= AGING_CEILING + VISIT_WEIGHT,
    ensures
        aged_rank(r1) < aged_rank(r2),
{
    assert((r1 * 3) / 4 < (r2 * 3) / 4) by {
        assert(r1 * 3 + 6 <= r2 * 3) by (nonlinear_arith)
            requires r1 + 2 <= r2;
    }
}

} // verus!
