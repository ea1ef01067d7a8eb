//! The frecency database: the entry collection, visit insertion,
//! removal, aging and pruning, and the load/persist lifecycle. The
//! collection keeps one entry per path; a visit bumps the entry's rank
//! by the visit weight, and when the sum of all ranks crosses the
//! aging ceiling every rank decays and entries at or below the pruning
//! threshold are dropped.

use vstd::prelude::*;

use crate::codec;
use crate::entry::{Entry, EntryModel, models_of};
use crate::policy::{AGING_CEILING, PRUNE_EPSILON, VISIT_WEIGHT, aged_rank};

verus! {

/// The rank of the first entry for `p`, or `None` when no entry has
/// that path.
pub open spec fn rank_of(s: Seq<EntryModel>, p: Seq<u8>) -> Option<u64>
    decreases s.len(),
{
    if s.len() == 0 {
        None
    } else if s[0].path == p {
        Some(s[0].rank)
    } else {
        rank_of(s.drop_first(), p)
    }
}

/// Some entry has path `p`.
pub open spec fn has_path(s: Seq<EntryModel>, p: Seq<u8>) -> bool {
    exists|i: int| 0 <= i < s.len() && (#[trigger] s[i]).path == p
}

/// No two entries share a path.
pub open spec fn paths_unique(s: Seq<EntryModel>) -> bool {
    forall|i: int, j: int|
        0 <= i < j < s.len() ==> (#[trigger] s[i]).path != (#[trigger] s[j]).path
}

/// The sum of all ranks.
pub open spec fn sum_ranks(s: Seq<EntryModel>) -> int
    decreases s.len(),
{
    if s.len() == 0 {
        0
    } else {
        s[0].rank + sum_ranks(s.drop_first())
    }
}

/// One entry after aging: the same path and stamp, three quarters of
/// the rank.
pub open spec fn aged_model(e: EntryModel) -> EntryModel {
    EntryModel { path: e.path, rank: aged_rank(e.rank), last_access: e.last_access }
}

/// The collection after aging: every rank decayed, entries at or
/// below the pruning threshold dropped.
pub open spec fn age_spec(s: Seq<EntryModel>) -> Seq<EntryModel>
    decreases s.len(),
{
    if s.len() == 0 {
        Seq::empty()
    } else {
        let rest = age_spec(s.drop_first());
        if aged_rank(s[0].rank) > PRUNE_EPSILON {
            seq![aged_model(s[0])] + rest
        } else {
            rest
        }
    }
}

/// The collection after one visit of `p` at `now`: the first entry
/// for `p` gains the visit weight and a fresh stamp; when none exists
/// a new entry is appended.
pub open spec fn bump_spec(s: Seq<EntryModel>, p: Seq<u8>, now: u64) -> Seq<EntryModel>
    decreases s.len(),
{
    if s.len() == 0 {
        seq![EntryModel { path: p, rank: VISIT_WEIGHT, last_access: now }]
    } else if s[0].path == p {
        seq![
            EntryModel {
                path: s[0].path,
                rank: ((s[0].rank + VISIT_WEIGHT) as u64),
                last_access: now,
            },
        ] + s.drop_first()
    } else {
        seq![s[0]] + bump_spec(s.drop_first(), p, now)
    }
}

/// The collection after removing the entry for `p`, if any.
pub open spec fn remove_spec(s: Seq<EntryModel>, p: Seq<u8>) -> Seq<EntryModel>
    decreases s.len(),
{
    if s.len() == 0 {
        s
    } else if s[0].path == p {
        s.drop_first()
    } else {
        seq![s[0]] + remove_spec(s.drop_first(), p)
    }
}

/// The collection after a full `add` call: the visit is recorded, and
/// aging fires when the rank sum crosses the ceiling.
pub open spec fn add_spec(s: Seq<EntryModel>, p: Seq<u8>, now: u64) -> Seq<EntryModel> {
    let b = bump_spec(s, p, now);
    if sum_ranks(b) > AGING_CEILING {
        age_spec(b)
    } else {
        b
    }
}

/// The database invariant on the collection: unique paths, rank sum
/// within the aging ceiling, every rank above the pruning threshold.
pub open spec fn entries_wf(s: Seq<EntryModel>) -> bool {
    &&& paths_unique(s)
    &&& sum_ranks(s) <= AGING_CEILING
    &&& forall|i: int| 0 <= i < s.len() ==> (#[trigger] s[i]).rank > PRUNE_EPSILON
}

/// The rank sum is never negative.
pub proof fn lemma_sum_nonneg(s: Seq<EntryModel>)
    ensures
        sum_ranks(s) >= 0,
    decreases s.len(),
{
    if s.len() > 0 {
        lemma_sum_nonneg(s.drop_first());
    }
}

/// Each rank is at most the rank sum.
pub proof fn lemma_elem_le_sum(s: Seq<EntryModel>, i: int)
    requires
        0 <= i < s.len(),
    ensures
        s[i].rank <= sum_ranks(s),
    decreases s.len(),
{
    lemma_sum_nonneg(s.drop_first());
    if i > 0 {
        lemma_elem_le_sum(s.drop_first(), i - 1);
    }
}

/// A path has a rank exactly when some entry carries it.
pub proof fn lemma_rank_of_has_path(s: Seq<EntryModel>, p: Seq<u8>)
    ensures
        rank_of(s, p) is Some <==> has_path(s, p),
    decreases s.len(),
{
    if s.len() > 0 {
        lemma_rank_of_has_path(s.drop_first(), p);
        if s[0].path != p {
            assert(forall|i: int|
                1 <= i < s.len() ==> #[trigger] s[i] == s.drop_first()[i - 1]);
            if has_path(s, p) {
                let i = choose|i: int| 0 <= i < s.len() && (#[trigger] s[i]).path == p;
                assert(s.drop_first()[i - 1].path == p);
            }
        }
    }
}

/// Summing distributes over replacing one entry.
pub proof fn lemma_sum_update(s: Seq<EntryModel>, i: int, e: EntryModel)
    requires
        0 <= i < s.len(),
    ensures
        sum_ranks(s.update(i, e)) == sum_ranks(s) - s[i].rank + e.rank,
    decreases s.len(),
{
    if i == 0 {
        assert(s.update(0, e)[0] == e);
        assert(s.update(0, e).drop_first() =~= s.drop_first());
    } else {
        assert(s.update(i, e)[0] == s[0]);
        assert(s.update(i, e).drop_first() =~= s.drop_first().update(i - 1, e));
        lemma_sum_update(s.drop_first(), i - 1, e);
    }
}

/// Summing distributes over appending one entry.
pub proof fn lemma_sum_push(s: Seq<EntryModel>, e: EntryModel)
    ensures
        sum_ranks(s.push(e)) == sum_ranks(s) + e.rank,
    decreases s.len(),
{
    if s.len() == 0 {
        reveal_with_fuel(sum_ranks, 3);
        assert(s.push(e)[0] == e);
        assert(s.push(e).drop_first() =~= Seq::<EntryModel>::empty());
    } else {
        assert(s.push(e)[0] == s[0]);
        assert(s.push(e).drop_first() =~= s.drop_first().push(e));
        lemma_sum_push(s.drop_first(), e);
    }
}

/// Where the first entry for `p` sits at index `i`, a bump is exactly
/// an in-place update at `i`.
pub proof fn lemma_bump_at(s: Seq<EntryModel>, p: Seq<u8>, now: u64, i: int)
    requires
        0 <= i < s.len(),
        s[i].path == p,
        forall|k: int| 0 <= k < i ==> (#[trigger] s[k]).path != p,
    ensures
        bump_spec(s, p, now) == s.update(
            i,
            EntryModel { path: s[i].path, rank: ((s[i].rank + VISIT_WEIGHT) as u64), last_access: now },
        ),
    decreases s.len(),
{
    if i == 0 {
        assert(bump_spec(s, p, now) =~= s.update(
            0,
            EntryModel { path: s[0].path, rank: ((s[0].rank + VISIT_WEIGHT) as u64), last_access: now },
        ));
    } else {
        assert(forall|k: int| 0 <= k < i - 1 ==> (#[trigger] s.drop_first()[k]).path != p);
        lemma_bump_at(s.drop_first(), p, now, i - 1);
        assert(bump_spec(s, p, now) =~= s.update(
            i,
            EntryModel { path: s[i].path, rank: ((s[i].rank + VISIT_WEIGHT) as u64), last_access: now },
        ));
    }
}

/// Where no entry has path `p`, a bump is exactly an append.
pub proof fn lemma_bump_absent(s: Seq<EntryModel>, p: Seq<u8>, now: u64)
    requires
        forall|k: int| 0 <= k < s.len() ==> (#[trigger] s[k]).path != p,
    ensures
        bump_spec(s, p, now) == s.push(
            EntryModel { path: p, rank: VISIT_WEIGHT, last_access: now },
        ),
    decreases s.len(),
{
    if s.len() == 0 {
        assert(bump_spec(s, p, now) =~= s.push(
            EntryModel { path: p, rank: VISIT_WEIGHT, last_access: now },
        ));
    } else {
        assert(forall|k: int|
            0 <= k < s.len() - 1 ==> (#[trigger] s.drop_first()[k]).path != p);
        lemma_bump_absent(s.drop_first(), p, now);
        assert(bump_spec(s, p, now) =~= s.push(
            EntryModel { path: p, rank: VISIT_WEIGHT, last_access: now },
        ));
    }
}

/// Where the first entry for `p` sits at index `i`, removal is exactly
/// dropping index `i`.
pub proof fn lemma_remove_at(s: Seq<EntryModel>, p: Seq<u8>, i: int)
    requires
        0 <= i < s.len(),
        s[i].path == p,
        forall|k: int| 0 <= k < i ==> (#[trigger] s[k]).path != p,
    ensures
        remove_spec(s, p) == s.remove(i),
    decreases s.len(),
{
    if i == 0 {
        assert(remove_spec(s, p) =~= s.remove(0));
    } else {
        assert(forall|k: int| 0 <= k < i - 1 ==> (#[trigger] s.drop_first()[k]).path != p);
        lemma_remove_at(s.drop_first(), p, i - 1);
        assert(remove_spec(s, p) =~= s.remove(i));
    }
}

/// Where no entry has path `p`, removal changes nothing.
pub proof fn lemma_remove_absent(s: Seq<EntryModel>, p: Seq<u8>)
    requires
        forall|k: int| 0 <= k < s.len() ==> (#[trigger] s[k]).path != p,
    ensures
        remove_spec(s, p) == s,
    decreases s.len(),
{
    if s.len() > 0 {
        assert(forall|k: int|
            0 <= k < s.len() - 1 ==> (#[trigger] s.drop_first()[k]).path != p);
        lemma_remove_absent(s.drop_first(), p);
        assert(remove_spec(s, p) =~= s);
    }
}

/// Aging distributes over appending one entry.
pub proof fn lemma_age_push(s: Seq<EntryModel>, e: EntryModel)
    ensures
        age_spec(s.push(e)) == age_spec(s) + (if aged_rank(e.rank) > PRUNE_EPSILON {
            seq![aged_model(e)]
        } else {
            Seq::<EntryModel>::empty()
        }),
    decreases s.len(),
{
    let tail = (if aged_rank(e.rank) > PRUNE_EPSILON {
        seq![aged_model(e)]
    } else {
        Seq::<EntryModel>::empty()
    });
    if s.len() == 0 {
        reveal_with_fuel(age_spec, 3);
        assert(s.push(e)[0] == e);
        assert(s.push(e).drop_first() =~= Seq::<EntryModel>::empty());
        assert(age_spec(s.push(e)) =~= age_spec(s) + tail);
    } else {
        assert(s.push(e)[0] == s[0]);
        assert(s.push(e).drop_first() =~= s.drop_first().push(e));
        lemma_age_push(s.drop_first(), e);
        assert(age_spec(s.push(e)) =~= age_spec(s) + tail);
    }
}

/// Every path in the aged collection was in the collection before.
pub proof fn lemma_age_has_path(s: Seq<EntryModel>, p: Seq<u8>)
    requires
        has_path(age_spec(s), p),
    ensures
        has_path(s, p),
    decreases s.len(),
{
    if s.len() > 0 {
        let a = age_spec(s);
        let rest = age_spec(s.drop_first());
        let i = choose|i: int| 0 <= i < a.len() && (#[trigger] a[i]).path == p;
        if aged_rank(s[0].rank) > PRUNE_EPSILON && i == 0 {
            assert(s[0].path == p);
        } else {
            let j = if aged_rank(s[0].rank) > PRUNE_EPSILON {
                i - 1
            } else {
                i
            };
            assert(rest[j].path == p);
            lemma_age_has_path(s.drop_first(), p);
            let k = choose|k: int|
                0 <= k < s.drop_first().len() && (#[trigger] s.drop_first()[k]).path == p;
            assert(s[k + 1].path == p);
        }
    }
}

/// Aging keeps paths unique.
pub proof fn lemma_age_unique(s: Seq<EntryModel>)
    requires
        paths_unique(s),
    ensures
        paths_unique(age_spec(s)),
    decreases s.len(),
{
    if s.len() > 0 {
        let rest0 = s.drop_first();
        assert(forall|i: int, j: int|
            0 <= i < j < rest0.len() ==> (#[trigger] rest0[i]).path != (#[trigger] rest0[j]).path)
            by {
            assert(forall|i: int| 0 <= i < rest0.len() ==> #[trigger] rest0[i] == s[i + 1]);
        }
        lemma_age_unique(rest0);
        let rest = age_spec(rest0);
        if aged_rank(s[0].rank) > PRUNE_EPSILON {
            let a = seq![aged_model(s[0])] + rest;
            assert forall|i: int, j: int| 0 <= i < j < a.len() implies (#[trigger] a[i]).path != (
            #[trigger] a[j]).path by {
                if i == 0 {
                    assert(a[j] == rest[j - 1]);
                    if a[0].path == a[j].path {
                        assert(has_path(rest, s[0].path)) by {
                            assert(rest[j - 1].path == s[0].path);
                        }
                        lemma_age_has_path(rest0, s[0].path);
                        let k = choose|k: int|
                            0 <= k < rest0.len() && (#[trigger] rest0[k]).path == s[0].path;
                        assert(s[k + 1].path == s[0].path);
                    }
                } else {
                    assert(a[i] == rest[i - 1] && a[j] == rest[j - 1]);
                }
            }
        }
    }
}

/// What aging does to the entry of each path: the rank decays to three
/// quarters, and the entry survives exactly when that stays above the
/// pruning threshold.
pub proof fn lemma_age_rank_of(s: Seq<EntryModel>, p: Seq<u8>)
    requires
        paths_unique(s),
    ensures
        rank_of(age_spec(s), p) == (match rank_of(s, p) {
            Some(r) => if aged_rank(r) > PRUNE_EPSILON {
                Some(aged_rank(r))
            } else {
                None::<u64>
            },
            None => None::<u64>,
        }),
    decreases s.len(),
{
    if s.len() > 0 {
        let rest0 = s.drop_first();
        assert(forall|i: int, j: int|
            0 <= i < j < rest0.len() ==> (#[trigger] rest0[i]).path != (#[trigger] rest0[j]).path)
            by {
            assert(forall|i: int| 0 <= i < rest0.len() ==> #[trigger] rest0[i] == s[i + 1]);
        }
        lemma_age_rank_of(rest0, p);
        let rest = age_spec(rest0);
        if s[0].path == p {
            if aged_rank(s[0].rank) > PRUNE_EPSILON {
                let a = seq![aged_model(s[0])] + rest;
                assert(a[0].path == p);
                assert(rank_of(a, p) == Some(aged_rank(s[0].rank)));
            } else {
                // the entry for p is pruned; p cannot also sit in the rest
                assert(forall|k: int|
                    0 <= k < rest0.len() ==> (#[trigger] rest0[k]).path != p);
                if rank_of(rest0, p) is Some {
                    lemma_rank_of_has_path(rest0, p);
                }
            }
        } else {
            if aged_rank(s[0].rank) > PRUNE_EPSILON {
                let a = seq![aged_model(s[0])] + rest;
                assert(a.drop_first() =~= rest);
                assert(rank_of(a, p) == rank_of(rest, p));
            }
        }
    }
}

/// Four times the aged rank sum never exceeds three times the old one:
/// aging shrinks the sum to at most three quarters.
pub proof fn lemma_age_sum(s: Seq<EntryModel>)
    ensures
        4 * sum_ranks(age_spec(s)) <= 3 * sum_ranks(s),
        sum_ranks(age_spec(s)) >= 0,
    decreases s.len(),
{
    lemma_sum_nonneg(age_spec(s));
    if s.len() > 0 {
        lemma_age_sum(s.drop_first());
        let rest = age_spec(s.drop_first());
        if aged_rank(s[0].rank) > PRUNE_EPSILON {
            let a = seq![aged_model(s[0])] + rest;
            assert(a[0] == aged_model(s[0]));
            assert(a.drop_first() =~= rest);
            assert(4 * (((s[0].rank * 3) / 4) as int) <= 3 * s[0].rank);
        }
    }
}

/// Summing distributes over dropping one entry.
pub proof fn lemma_sum_remove(s: Seq<EntryModel>, i: int)
    requires
        0 <= i < s.len(),
    ensures
        sum_ranks(s.remove(i)) == sum_ranks(s) - s[i].rank,
    decreases s.len(),
{
    if i == 0 {
        assert(s.remove(0) =~= s.drop_first());
    } else {
        assert(s.remove(i)[0] == s[0]);
        assert(s.remove(i).drop_first() =~= s.drop_first().remove(i - 1));
        lemma_sum_remove(s.drop_first(), i - 1);
    }
}

/// The rank sum splits at any cut point.
pub proof fn lemma_sum_take_skip(s: Seq<EntryModel>, i: int)
    requires
        0 <= i <= s.len(),
    ensures
        sum_ranks(s) == sum_ranks(s.take(i)) + sum_ranks(s.skip(i)),
    decreases i,
{
    if i == 0 {
        assert(s.take(0) =~= Seq::<EntryModel>::empty());
        assert(s.skip(0) =~= s);
    } else {
        let t = s.take(i);
        assert(t[0] == s[0]);
        assert(t.drop_first() =~= s.drop_first().take(i - 1));
        assert(s.skip(i) =~= s.drop_first().skip(i - 1));
        lemma_sum_take_skip(s.drop_first(), i - 1);
    }
}

/// The rank a path carries is one of the entries' ranks.
pub proof fn lemma_rank_of_is_elem(s: Seq<EntryModel>, p: Seq<u8>)
    requires
        rank_of(s, p) is Some,
    ensures
        exists|i: int|
            0 <= i < s.len() && (#[trigger] s[i]).path == p && s[i].rank == rank_of(s, p)->Some_0,
    decreases s.len(),
{
    if s.len() > 0 && s[0].path != p {
        lemma_rank_of_is_elem(s.drop_first(), p);
        let i = choose|i: int|
            0 <= i < s.drop_first().len() && (#[trigger] s.drop_first()[i]).path == p
                && s.drop_first()[i].rank == rank_of(s.drop_first(), p)->Some_0;
        assert(s[i + 1].path == p && s[i + 1].rank == rank_of(s, p)->Some_0);
    }
}

/// Every rank that survives aging is above the pruning threshold.
pub proof fn lemma_age_above_eps(s: Seq<EntryModel>)
    ensures
        forall|i: int|
            0 <= i < age_spec(s).len() ==> (#[trigger] age_spec(s)[i]).rank > PRUNE_EPSILON,
    decreases s.len(),
{
    if s.len() > 0 {
        lemma_age_above_eps(s.drop_first());
        let rest = age_spec(s.drop_first());
        if aged_rank(s[0].rank) > PRUNE_EPSILON {
            let a = seq![aged_model(s[0])] + rest;
            assert(forall|i: int| 1 <= i < a.len() ==> #[trigger] a[i] == rest[i - 1]);
        }
    }
}

/// Aging monotonicity: every surviving entry's rank is strictly below
/// its rank before aging, and the relative order of two surviving
/// ranks is never inverted.
pub proof fn lemma_aging_monotone(s: Seq<EntryModel>, p: Seq<u8>, q: Seq<u8>)
    requires
        paths_unique(s),
        sum_ranks(s) <= AGING_CEILING + VISIT_WEIGHT,
        forall|i: int| 0 <= i < s.len() ==> (#[trigger] s[i]).rank >= 1,
        has_path(age_spec(s), p),
        has_path(age_spec(s), q),
    ensures
        rank_of(s, p) is Some,
        rank_of(age_spec(s), p) is Some,
        rank_of(age_spec(s), p)->Some_0 < rank_of(s, p)->Some_0,
        rank_of(s, p)->Some_0 <= rank_of(s, q)->Some_0 ==> rank_of(age_spec(s), p)->Some_0
            <= rank_of(age_spec(s), q)->Some_0,
        rank_of(s, p)->Some_0 + 2 <= rank_of(s, q)->Some_0 ==> rank_of(age_spec(s), p)->Some_0
            < rank_of(age_spec(s), q)->Some_0,
{
    lemma_rank_of_has_path(age_spec(s), p);
    lemma_rank_of_has_path(age_spec(s), q);
    lemma_age_rank_of(s, p);
    lemma_age_rank_of(s, q);
    let rp = rank_of(s, p)->Some_0;
    let rq = rank_of(s, q)->Some_0;
    lemma_rank_of_is_elem(s, p);
    lemma_rank_of_is_elem(s, q);
    let i = choose|i: int|
        0 <= i < s.len() && (#[trigger] s[i]).path == p && s[i].rank == rp;
    let j = choose|j: int|
        0 <= j < s.len() && (#[trigger] s[j]).path == q && s[j].rank == rq;
    lemma_elem_le_sum(s, i);
    lemma_elem_le_sum(s, j);
    crate::policy::lemma_aged_rank_shrinks(rp);
    if rp <= rq {
        crate::policy::lemma_aged_rank_monotone(rp, rq);
    }
    if rp + 2 <= rq {
        crate::policy::lemma_aged_rank_strict(rp, rq);
    }
}

/// Pruning: an entry whose rank aging drives to the threshold or below
/// is gone from the aged collection.
pub proof fn lemma_pruned_entry_gone(s: Seq<EntryModel>, p: Seq<u8>)
    requires
        paths_unique(s),
        rank_of(s, p) is Some,
        aged_rank(rank_of(s, p)->Some_0) <= PRUNE_EPSILON,
    ensures
        !has_path(age_spec(s), p),
{
    lemma_age_rank_of(s, p);
    lemma_rank_of_has_path(age_spec(s), p);
}

/// The collection after a whole sequence of visits of one path.
pub open spec fn add_many(s: Seq<EntryModel>, p: Seq<u8>, nows: Seq<u64>) -> Seq<EntryModel>
    decreases nows.len(),
{
    if nows.len() == 0 {
        s
    } else {
        add_many(add_spec(s, p, nows[0]), p, nows.drop_first())
    }
}

/// One visit of the single stored path, below the aging ceiling: the
/// rank grows by exactly the visit weight and the stamp is refreshed.
proof fn lemma_add_single(p: Seq<u8>, r: u64, t: u64, now: u64)
    requires
        r + VISIT_WEIGHT <= AGING_CEILING,
    ensures
        add_spec(seq![EntryModel { path: p, rank: r, last_access: t }], p, now) == seq![
            EntryModel { path: p, rank: (r + VISIT_WEIGHT) as u64, last_access: now },
        ],
{
    reveal_with_fuel(sum_ranks, 3);
    reveal_with_fuel(bump_spec, 2);
    let s = seq![EntryModel { path: p, rank: r, last_access: t }];
    let b = bump_spec(s, p, now);
    assert(s.drop_first() =~= Seq::<EntryModel>::empty());
    assert(b =~= seq![EntryModel { path: p, rank: (r + VISIT_WEIGHT) as u64, last_access: now }]);
    assert(b.drop_first() =~= Seq::<EntryModel>::empty());
    assert(sum_ranks(b) == r + VISIT_WEIGHT);
}

/// Visits of one stored path, each below the aging ceiling in sum:
/// the ranks add up and the stamp is the last visit's.
proof fn lemma_adds_from_single(p: Seq<u8>, r: u64, t: u64, nows: Seq<u64>)
    requires
        r + nows.len() * VISIT_WEIGHT <= AGING_CEILING,
    ensures
        add_many(seq![EntryModel { path: p, rank: r, last_access: t }], p, nows) == seq![
            EntryModel {
                path: p,
                rank: (r + nows.len() * VISIT_WEIGHT) as u64,
                last_access: (if nows.len() == 0 {
                    t
                } else {
                    nows.last()
                }),
            },
        ],
    decreases nows.len(),
{
    if nows.len() > 0 {
        lemma_add_single(p, r, t, nows[0]);
        lemma_adds_from_single(p, (r + VISIT_WEIGHT) as u64, nows[0], nows.drop_first());
        if nows.len() > 1 {
            assert(nows.drop_first().last() == nows.last());
        }
    }
}

/// Uniqueness under repeated visits: visiting one path `n` times from
/// an empty store leaves exactly one entry for it, with rank `n` times
/// the visit weight and the last visit's stamp — as long as aging
/// never fires.
pub proof fn lemma_repeated_add(p: Seq<u8>, nows: Seq<u64>)
    requires
        nows.len() >= 1,
        nows.len() * VISIT_WEIGHT <= AGING_CEILING,
    ensures
        add_many(Seq::empty(), p, nows) == seq![
            EntryModel {
                path: p,
                rank: (nows.len() * VISIT_WEIGHT) as u64,
                last_access: nows.last(),
            },
        ],
{
    reveal_with_fuel(sum_ranks, 3);
    reveal_with_fuel(bump_spec, 2);
    let first = add_spec(Seq::empty(), p, nows[0]);
    let one = seq![EntryModel { path: p, rank: VISIT_WEIGHT, last_access: nows[0] }];
    assert(bump_spec(Seq::empty(), p, nows[0]) =~= one);
    assert(one.drop_first() =~= Seq::<EntryModel>::empty());
    assert(sum_ranks(one) == VISIT_WEIGHT);
    assert(first == one);
    lemma_adds_from_single(p, VISIT_WEIGHT, nows[0], nows.drop_first());
    if nows.len() > 1 {
        assert(nows.drop_first().last() == nows.last());
    }
}

/// Why a store image was rejected at open time.
#[derive(Debug, Clone, Copy, PartialEq, Eq, Structural)]
pub enum DecodeError {
    /// The bytes are not an encoding of any entry collection.
    Malformed,
    /// The bytes encode a collection that breaks the database
    /// invariant.
    Invalid,
}

/// Byte-for-byte equality of two paths.
pub fn paths_equal(a: &Vec<u8>, b: &Vec<u8>) -> (r: bool)
    ensures
        r == (a@ == b@),
{
    if a.len() != b.len() {
        return false;
    }
    let mut i: usize = 0;
    while i < a.len()
        invariant
            a@.len() == b@.len(),
            i <= a@.len(),
            forall|k: int| 0 <= k < i ==> a@[k] == b@[k],
        decreases a@.len() - i,
    {
        if a[i] != b[i] {
            return false;
        }
        i = i + 1;
    }
    assert(a@ =~= b@);
    true
}

/// The index of the first entry for `path`, if any.
fn find_index(entries: &Vec<Entry>, path: &Vec<u8>) -> (r: Option<usize>)
    ensures
        match r {
            Some(i) => {
                &&& i < entries@.len()
                &&& models_of(entries@)[i as int].path == path@
                &&& forall|k: int|
                    0 <= k < i ==> (#[trigger] models_of(entries@)[k]).path != path@
            },
            None => forall|k: int|
                0 <= k < entries@.len() ==> (#[trigger] models_of(entries@)[k]).path != path@,
        },
{
    let mut i: usize = 0;
    while i < entries.len()
        invariant
            i <= entries@.len(),
            forall|k: int| 0 <= k < i ==> (#[trigger] models_of(entries@)[k]).path != path@,
        decreases entries@.len() - i,
    {
        if paths_equal(&entries[i].path, path) {
            return Some(i);
        }
        i = i + 1;
    }
    None
}

/// The sum of all ranks, computed while it is known to stay within
/// the machine's range.
fn sum_entries(entries: &Vec<Entry>) -> (r: u64)
    requires
        sum_ranks(models_of(entries@)) <= AGING_CEILING + VISIT_WEIGHT,
    ensures
        r == sum_ranks(models_of(entries@)),
{
    let ghost m = models_of(entries@);
    let mut total: u64 = 0;
    let mut i: usize = 0;
    proof {
        assert(m.skip(0) =~= m);
    }
    while i < entries.len()
        invariant
            i <= entries@.len(),
            m == models_of(entries@),
            m.len() == entries@.len(),
            sum_ranks(m) <= AGING_CEILING + VISIT_WEIGHT,
            total + sum_ranks(m.skip(i as int)) == sum_ranks(m),
        decreases entries@.len() - i,
    {
        proof {
            assert(m.skip(i as int)[0] == m[i as int]);
            assert(m.skip(i as int).drop_first() =~= m.skip(i + 1));
            lemma_sum_nonneg(m.skip(i + 1));
        }
        total = total + entries[i].rank;
        i = i + 1;
    }
    proof {
        assert(m.skip(m.len() as int) =~= Seq::<EntryModel>::empty());
    }
    total
}

/// Ages the whole collection: every rank decays to three quarters and
/// entries at or below the pruning threshold are dropped.
fn age_entries(entries: &mut Vec<Entry>)
    requires
        sum_ranks(models_of(old(entries)@)) <= AGING_CEILING + VISIT_WEIGHT,
    ensures
        models_of(final(entries)@) == age_spec(models_of(old(entries)@)),
{
    let ghost m = models_of(entries@);
    let mut out: Vec<Entry> = Vec::new();
    let mut i: usize = 0;
    proof {
        assert(m.take(0) =~= Seq::<EntryModel>::empty());
    }
    while i < entries.len()
        invariant
            i <= entries@.len(),
            m == models_of(entries@),
            m.len() == entries@.len(),
            sum_ranks(m) <= AGING_CEILING + VISIT_WEIGHT,
            models_of(out@) == age_spec(m.take(i as int)),
        decreases entries@.len() - i,
    {
        proof {
            lemma_elem_le_sum(m, i as int);
            lemma_sum_take_skip(m, i as int);
            lemma_sum_nonneg(m.take(i as int));
            lemma_sum_nonneg(m.skip(i as int));
            lemma_age_push(m.take(i as int), m[i as int]);
            assert(m.take(i + 1) =~= m.take(i as int).push(m[i as int]));
        }
        let e = entries[i].duplicate();
        assert(e.rank <= AGING_CEILING + VISIT_WEIGHT);
        let aged: u64 = e.rank * 3 / 4;
        if aged > PRUNE_EPSILON {
            out.push(Entry { path: e.path, rank: aged, last_access: e.last_access });
            assert(models_of(out@) =~= age_spec(m.take(i + 1)));
        } else {
            assert(models_of(out@) =~= age_spec(m.take(i + 1)));
        }
        i = i + 1;
    }
    proof {
        assert(m.take(m.len() as int) =~= m);
    }
    *entries = out;
}

/// The frecency database: the entry collection, and whether this
/// process has mutated it since it was loaded.
pub struct Database {
    pub entries: Vec<Entry>,
    pub dirty: bool,
}

impl View for Database {
    type V = Seq<EntryModel>;

    open spec fn view(&self) -> Seq<EntryModel> {
        models_of(self.entries@)
    }
}

impl Database {
    /// The database invariant.
    pub open spec fn wf(self) -> bool {
        entries_wf(self@)
    }

    /// An empty database, as an absent store file yields.
    pub fn new() -> (r: Database)
        ensures
            r@ == Seq::<EntryModel>::empty(),
            r.wf(),
            !r.dirty,
    {
        let db = Database { entries: Vec::new(), dirty: false };
        proof {
            assert(db@ =~= Seq::<EntryModel>::empty());
        }
        db
    }

    /// Opens a database from a store image. Accepts exactly the byte
    /// strings that decode to a well-formed collection; a byte string
    /// that decodes to no collection is `Malformed`, one that decodes
    /// to a collection breaking the invariant is `Invalid`.
    pub fn open_from(bytes: &Vec<u8>) -> (r: Result<Database, DecodeError>)
        ensures
            match r {
                Ok(db) => {
                    &&& codec::decode(bytes@) == Some(db@)
                    &&& db.wf()
                    &&& !db.dirty
                },
                Err(DecodeError::Malformed) => codec::decode(bytes@) is None,
                Err(DecodeError::Invalid) => {
                    &&& codec::decode(bytes@) is Some
                    &&& !entries_wf(codec::decode(bytes@)->Some_0)
                },
            },
    {
        match codec::decode_entries(bytes) {
            None => Err(DecodeError::Malformed),
            Some(entries) => {
                if Self::check_entries(&entries) {
                    Ok(Database { entries, dirty: false })
                } else {
                    Err(DecodeError::Invalid)
                }
            },
        }
    }

    /// Does a collection satisfy the database invariant?
    fn check_entries(entries: &Vec<Entry>) -> (r: bool)
        ensures
            r == entries_wf(models_of(entries@)),
    {
        let ghost m = models_of(entries@);
        // unique paths
        let mut i: usize = 0;
        while i < entries.len()
            invariant
                i <= entries@.len(),
                m == models_of(entries@),
                m.len() == entries@.len(),
                forall|a: int, b: int|
                    0 <= a < b < i ==> (#[trigger] m[a]).path != (#[trigger] m[b]).path,
            decreases entries@.len() - i,
        {
            let mut j: usize = 0;
            while j < i
                invariant
                    j <= i < entries@.len(),
                    m == models_of(entries@),
                    m.len() == entries@.len(),
                    forall|a: int| 0 <= a < j ==> (#[trigger] m[a]).path != m[i as int].path,
                decreases i - j,
            {
                if paths_equal(&entries[j].path, &entries[i].path) {
                    assert(!paths_unique(m)) by {
                        assert(m[j as int].path == m[i as int].path);
                    }
                    return false;
                }
                j = j + 1;
            }
            i = i + 1;
        }
        assert(paths_unique(m));
        // ranks above the pruning threshold, and their sum within the
        // aging ceiling
        let mut total: u64 = 0;
        let mut k: usize = 0;
        proof {
            assert(m.take(0) =~= Seq::<EntryModel>::empty());
        }
        while k < entries.len()
            invariant
                k <= entries@.len(),
                m == models_of(entries@),
                m.len() == entries@.len(),
                total == sum_ranks(m.take(k as int)),
                total <= AGING_CEILING,
                forall|a: int| 0 <= a < k ==> (#[trigger] m[a]).rank > PRUNE_EPSILON,
            decreases entries@.len() - k,
        {
            proof {
                assert(m.take(k + 1) =~= m.take(k as int).push(m[k as int]));
                lemma_sum_push(m.take(k as int), m[k as int]);
            }
            let rank = entries[k].rank;
            if rank <= PRUNE_EPSILON {
                assert(!entries_wf(m)) by {
                    assert(m[k as int].rank <= PRUNE_EPSILON);
                }
                return false;
            }
            if rank > AGING_CEILING - total {
                proof {
                    lemma_sum_take_skip(m, k + 1);
                    lemma_sum_nonneg(m.skip(k + 1));
                    assert(sum_ranks(m) > AGING_CEILING);
                }
                return false;
            }
            total = total + rank;
            k = k + 1;
        }
        proof {
            assert(m.take(m.len() as int) =~= m);
        }
        true
    }

    /// Records a visit of `path` at `now`: the entry's rank grows by
    /// the visit weight (a new entry starts with it), the stamp is
    /// refreshed, and aging fires when the rank sum crosses the
    /// ceiling.
    pub fn add(&mut self, path: Vec<u8>, now: u64)
        requires
            old(self).wf(),
        ensures
            final(self).wf(),
            final(self)@ == add_spec(old(self)@, path@, now),
            final(self).dirty,
    {
        let ghost s0 = self@;
        let ghost p = path@;
        match find_index(&self.entries, &path) {
            Some(i) => {
                proof {
                    lemma_elem_le_sum(s0, i as int);
                    lemma_sum_nonneg(s0);
                    lemma_bump_at(s0, p, now, i as int);
                    lemma_sum_update(
                        s0,
                        i as int,
                        EntryModel {
                            path: s0[i as int].path,
                            rank: ((s0[i as int].rank + VISIT_WEIGHT) as u64),
                            last_access: now,
                        },
                    );
                }
                let e = self.entries.remove(i);
                let rank = e.rank + VISIT_WEIGHT;
                self.entries.insert(i, Entry { path: e.path, rank, last_access: now });
                proof {
                    let b = bump_spec(s0, p, now);
                    assert(models_of(self.entries@) =~= b);
                    assert(forall|k: int| 0 <= k < b.len() ==> (#[trigger] b[k]).path == s0[k].path);
                    assert(paths_unique(b));
                    assert(forall|k: int|
                        0 <= k < b.len() ==> (#[trigger] b[k]).rank > PRUNE_EPSILON);
                }
            },
            None => {
                proof {
                    lemma_bump_absent(s0, p, now);
                    lemma_sum_push(
                        s0,
                        EntryModel { path: p, rank: VISIT_WEIGHT, last_access: now },
                    );
                }
                self.entries.push(Entry { path, rank: VISIT_WEIGHT, last_access: now });
                proof {
                    let b = bump_spec(s0, p, now);
                    assert(models_of(self.entries@) =~= b);
                    assert(forall|k: int| 0 <= k < s0.len() ==> #[trigger] b[k] == s0[k]);
                    assert(paths_unique(b));
                    assert(forall|k: int|
                        0 <= k < b.len() ==> (#[trigger] b[k]).rank > PRUNE_EPSILON);
                }
            },
        }
        self.dirty = true;
        let ghost b = models_of(self.entries@);
        assert(b == bump_spec(s0, p, now));
        assert(sum_ranks(b) <= AGING_CEILING + VISIT_WEIGHT);
        let total = sum_entries(&self.entries);
        if total > AGING_CEILING {
            age_entries(&mut self.entries);
            proof {
                lemma_age_unique(b);
                lemma_age_above_eps(b);
                lemma_age_sum(b);
            }
        }
    }

    /// Deletes the entry for `path` if one exists; idempotent, and
    /// marks the database dirty exactly when something was removed.
    pub fn remove(&mut self, path: &Vec<u8>)
        requires
            old(self).wf(),
        ensures
            final(self).wf(),
            final(self)@ == remove_spec(old(self)@, path@),
            !has_path(final(self)@, path@),
            final(self).dirty == (old(self).dirty || has_path(old(self)@, path@)),
    {
        let ghost s0 = self@;
        match find_index(&self.entries, path) {
            Some(i) => {
                proof {
                    lemma_remove_at(s0, path@, i as int);
                    lemma_sum_remove(s0, i as int);
                }
                let _ = self.entries.remove(i);
                self.dirty = true;
                proof {
                    let s1 = models_of(self.entries@);
                    assert(s1 =~= s0.remove(i as int));
                    assert(has_path(s0, path@)) by {
                        assert(s0[i as int].path == path@);
                    }
                    assert forall|k: int| 0 <= k < s1.len() implies (#[trigger] s1[k]).path
                        != path@ by {
                        if k < i {
                            assert(s1[k] == s0[k]);
                        } else {
                            assert(s1[k] == s0[k + 1]);
                        }
                    }
                }
            },
            None => {
                proof {
                    lemma_remove_absent(s0, path@);
                    if has_path(s0, path@) {
                        let w = choose|w: int|
                            0 <= w < s0.len() && (#[trigger] s0[w]).path == path@;
                        assert(false);
                    }
                }
            },
        }
    }

    /// The bytes to persist: the encoding of the collection when this
    /// process has changes to write, nothing otherwise. The caller
    /// owns the atomic replace of the store file.
    pub fn save_payload(&self) -> (r: Option<Vec<u8>>)
        ensures
            match r {
                Some(bytes) => self.dirty && bytes@ == codec::encode(self@),
                None => !self.dirty,
            },
    {
        if self.dirty {
            Some(codec::encode_entries(&self.entries))
        } else {
            None
        }
    }

    /// Notes that the collection has been persisted: the entries stay,
    /// the dirty flag clears.
    pub fn mark_saved(&mut self)
        ensures
            final(self)@ == old(self)@,
            !final(self).dirty,
            old(self).wf() ==> final(self).wf(),
    {
        self.dirty = false;
    }

    /// How many entries are stored.
    pub fn len(&self) -> (r: usize)
        ensures
            r == self@.len(),
    {
        self.entries.len()
    }
}

} // verus!
