//! The query stream: a pull-based cursor over the database's entries
//! that applies keyword and exclusion filtering and yields candidates
//! in descending frecency order, ties broken by larger rank and then
//! by lexicographically smaller path — a deterministic total order.

use vstd::prelude::*;

use crate::db::{Database, age_spec, has_path, lemma_pruned_entry_gone, paths_unique, rank_of};
use crate::entry::{Entry, EntryModel, frecency, models_of};
use crate::matching::matches_from;
use crate::matching::matches_keywords;

verus! {

/// Strict lexicographic order on paths, byte for byte; a proper
/// prefix comes first.
pub open spec fn lex_lt(a: Seq<u8>, b: Seq<u8>) -> bool
    decreases a.len(),
{
    if b.len() == 0 {
        false
    } else if a.len() == 0 {
        true
    } else if a[0] < b[0] {
        true
    } else if a[0] > b[0] {
        false
    } else {
        lex_lt(a.drop_first(), b.drop_first())
    }
}

/// No path precedes itself.
pub proof fn lemma_lex_irrefl(a: Seq<u8>)
    ensures
        !lex_lt(a, a),
    decreases a.len(),
{
    if a.len() > 0 {
        lemma_lex_irrefl(a.drop_first());
    }
}

/// Lexicographic order is transitive.
pub proof fn lemma_lex_trans(a: Seq<u8>, b: Seq<u8>, c: Seq<u8>)
    requires
        lex_lt(a, b),
        lex_lt(b, c),
    ensures
        lex_lt(a, c),
    decreases a.len(),
{
    if a.len() > 0 && b.len() > 0 && a[0] == b[0] && b[0] == c[0] {
        lemma_lex_trans(a.drop_first(), b.drop_first(), c.drop_first());
    }
}

/// Two paths neither of which precedes the other are equal.
pub proof fn lemma_lex_connected(a: Seq<u8>, b: Seq<u8>)
    requires
        !lex_lt(a, b),
        !lex_lt(b, a),
    ensures
        a == b,
    decreases a.len(),
{
    if a.len() == 0 || b.len() == 0 {
        assert(a.len() == 0 && b.len() == 0);
        assert(a =~= b);
    } else {
        assert(a[0] == b[0]);
        lemma_lex_connected(a.drop_first(), b.drop_first());
        assert forall|k: int| 0 <= k < a.len() implies a[k] == b[k] by {
            if k > 0 {
                assert(a[k] == a.drop_first()[k - 1]);
                assert(b[k] == b.drop_first()[k - 1]);
            }
        }
        assert(a =~= b);
    }
}

/// `a` is produced before `b`: higher frecency first, then larger
/// rank, then lexicographically smaller path.
pub open spec fn ranked_before(now: u64, a: EntryModel, b: EntryModel) -> bool {
    let fa = frecency(a.rank, now, a.last_access);
    let fb = frecency(b.rank, now, b.last_access);
    ||| fa > fb
    ||| (fa == fb && a.rank > b.rank)
    ||| (fa == fb && a.rank == b.rank && lex_lt(a.path, b.path))
}

/// The production order never holds both ways.
pub proof fn lemma_before_asym(now: u64, a: EntryModel, b: EntryModel)
    requires
        ranked_before(now, a, b),
    ensures
        !ranked_before(now, b, a),
{
    if ranked_before(now, b, a) {
        lemma_lex_trans(a.path, b.path, a.path);
        lemma_lex_irrefl(a.path);
    }
}

/// The production order is transitive.
pub proof fn lemma_before_trans(now: u64, a: EntryModel, b: EntryModel, c: EntryModel)
    requires
        ranked_before(now, a, b),
        ranked_before(now, b, c),
    ensures
        ranked_before(now, a, c),
{
    let fa = frecency(a.rank, now, a.last_access);
    let fb = frecency(b.rank, now, b.last_access);
    let fc = frecency(c.rank, now, c.last_access);
    if fa == fb && fb == fc && a.rank == b.rank && b.rank == c.rank {
        lemma_lex_trans(a.path, b.path, c.path);
    }
}

/// Two entries neither of which precedes the other agree on score,
/// rank and path.
pub proof fn lemma_before_connected(now: u64, a: EntryModel, b: EntryModel)
    requires
        !ranked_before(now, a, b),
        !ranked_before(now, b, a),
    ensures
        a.path == b.path,
        a.rank == b.rank,
{
    lemma_lex_connected(a.path, b.path);
}

/// The candidate predicate: the entry matches every keyword in order,
/// and is not the excluded path.
pub open spec fn keeps(kws: Seq<Seq<u8>>, excl: Option<Seq<u8>>, e: EntryModel) -> bool {
    &&& matches_from(e.path, kws, 0)
    &&& (excl matches Some(x) ==> e.path != x)
}

/// The entries that pass the filters, in stored order.
pub open spec fn candidates(s: Seq<EntryModel>, kws: Seq<Seq<u8>>, excl: Option<Seq<u8>>) -> Seq<
    EntryModel,
>
    decreases s.len(),
{
    if s.len() == 0 {
        Seq::empty()
    } else {
        let rest = candidates(s.drop_first(), kws, excl);
        if keeps(kws, excl, s[0]) {
            seq![s[0]] + rest
        } else {
            rest
        }
    }
}

/// Did the exclusion filter alone drop a keyword-matching entry?
pub open spec fn excluded_spec(s: Seq<EntryModel>, kws: Seq<Seq<u8>>, excl: Option<Seq<u8>>) -> bool
    decreases s.len(),
{
    if s.len() == 0 {
        false
    } else {
        ||| (matches_from(s[0].path, kws, 0) && excl == Some(s[0].path))
        ||| excluded_spec(s.drop_first(), kws, excl)
    }
}

/// Insertion of one entry into a run already in production order.
pub open spec fn insert_ord(now: u64, e: EntryModel, s: Seq<EntryModel>) -> Seq<EntryModel>
    decreases s.len(),
{
    if s.len() == 0 {
        seq![e]
    } else if ranked_before(now, e, s[0]) {
        seq![e] + s
    } else {
        seq![s[0]] + insert_ord(now, e, s.drop_first())
    }
}

/// The candidates sorted into production order.
pub open spec fn sort_ord(now: u64, s: Seq<EntryModel>) -> Seq<EntryModel>
    decreases s.len(),
{
    if s.len() == 0 {
        Seq::empty()
    } else {
        insert_ord(now, s.last(), sort_ord(now, s.drop_last()))
    }
}

/// The full stream: what a query yields, in order.
pub open spec fn stream_spec(
    s: Seq<EntryModel>,
    now: u64,
    kws: Seq<Seq<u8>>,
    excl: Option<Seq<u8>>,
) -> Seq<EntryModel> {
    sort_ord(now, candidates(s, kws, excl))
}

/// In production order: no later element strictly precedes an earlier
/// one.
pub open spec fn sorted_desc(now: u64, s: Seq<EntryModel>) -> bool {
    forall|i: int, j: int|
        0 <= i < j < s.len() ==> !ranked_before(now, #[trigger] s[j], #[trigger] s[i])
}

/// How often an entry occurs.
pub open spec fn count_elem(s: Seq<EntryModel>, x: EntryModel) -> nat
    decreases s.len(),
{
    if s.len() == 0 {
        0
    } else {
        (if s[0] == x {
            1nat
        } else {
            0nat
        }) + count_elem(s.drop_first(), x)
    }
}

/// An entry occurs exactly when its count is positive.
pub proof fn lemma_count_contains(s: Seq<EntryModel>, x: EntryModel)
    ensures
        count_elem(s, x) > 0 <==> exists|i: int| 0 <= i < s.len() && s[i] == x,
    decreases s.len(),
{
    if s.len() > 0 {
        lemma_count_contains(s.drop_first(), x);
        if s[0] == x {
            assert(s[0] == x && 0 < s.len());
        } else {
            if count_elem(s, x) > 0 {
                let i = choose|i: int| 0 <= i < s.drop_first().len() && s.drop_first()[i] == x;
                assert(s[i + 1] == x);
            }
            if exists|i: int| 0 <= i < s.len() && s[i] == x {
                let i = choose|i: int| 0 <= i < s.len() && s[i] == x;
                assert(s.drop_first()[i - 1] == x);
            }
        }
    }
}

/// Counting distributes over appending one entry.
pub proof fn lemma_count_push(s: Seq<EntryModel>, e: EntryModel, x: EntryModel)
    ensures
        count_elem(s.push(e), x) == count_elem(s, x) + (if x == e {
            1nat
        } else {
            0nat
        }),
    decreases s.len(),
{
    if s.len() == 0 {
        reveal_with_fuel(count_elem, 3);
        assert(s.push(e)[0] == e);
        assert(s.push(e).drop_first() =~= Seq::<EntryModel>::empty());
    } else {
        assert(s.push(e)[0] == s[0]);
        assert(s.push(e).drop_first() =~= s.drop_first().push(e));
        lemma_count_push(s.drop_first(), e, x);
    }
}

/// Ordered insertion adds exactly one occurrence of the inserted
/// entry.
pub proof fn lemma_insert_ord_count(now: u64, e: EntryModel, s: Seq<EntryModel>, x: EntryModel)
    ensures
        count_elem(insert_ord(now, e, s), x) == count_elem(s, x) + (if x == e {
            1nat
        } else {
            0nat
        }),
    decreases s.len(),
{
    let r = insert_ord(now, e, s);
    if s.len() == 0 {
        reveal_with_fuel(count_elem, 3);
        assert(r.drop_first() =~= Seq::<EntryModel>::empty());
    } else if ranked_before(now, e, s[0]) {
        assert(r[0] == e);
        assert(r.drop_first() =~= s);
    } else {
        assert(r[0] == s[0]);
        assert(r.drop_first() =~= insert_ord(now, e, s.drop_first()));
        lemma_insert_ord_count(now, e, s.drop_first(), x);
    }
}

/// Sorting keeps every occurrence count: the output is a permutation
/// of the input.
pub proof fn lemma_sort_ord_count(now: u64, s: Seq<EntryModel>, x: EntryModel)
    ensures
        count_elem(sort_ord(now, s), x) == count_elem(s, x),
    decreases s.len(),
{
    if s.len() > 0 {
        lemma_sort_ord_count(now, s.drop_last(), x);
        lemma_insert_ord_count(now, s.last(), sort_ord(now, s.drop_last()), x);
        assert(s =~= s.drop_last().push(s.last()));
        lemma_count_push(s.drop_last(), s.last(), x);
    }
}

/// Every element an ordered insertion yields was the inserted entry or
/// an element of the run.
pub proof fn lemma_insert_ord_elems(now: u64, e: EntryModel, s: Seq<EntryModel>)
    ensures
        forall|k: int|
            0 <= k < insert_ord(now, e, s).len() ==> (#[trigger] insert_ord(now, e, s)[k] == e
                || s.contains(insert_ord(now, e, s)[k])),
    decreases s.len(),
{
    let r = insert_ord(now, e, s);
    if s.len() == 0 {
    } else if ranked_before(now, e, s[0]) {
        assert(forall|k: int| 1 <= k < r.len() ==> #[trigger] r[k] == s[k - 1]);
    } else {
        lemma_insert_ord_elems(now, e, s.drop_first());
        let rest = insert_ord(now, e, s.drop_first());
        assert forall|k: int| 0 <= k < r.len() implies (#[trigger] r[k] == e || s.contains(r[k]))
            by {
            if k == 0 {
                assert(s[0] == r[0]);
            } else {
                assert(r[k] == rest[k - 1]);
                if rest[k - 1] != e {
                    let m = choose|m: int|
                        0 <= m < s.drop_first().len() && s.drop_first()[m] == rest[k - 1];
                    assert(s[m + 1] == rest[k - 1]);
                }
            }
        }
    }
}

/// Ordered insertion into an ordered run stays ordered.
pub proof fn lemma_insert_ord_sorted(now: u64, e: EntryModel, s: Seq<EntryModel>)
    requires
        sorted_desc(now, s),
    ensures
        sorted_desc(now, insert_ord(now, e, s)),
    decreases s.len(),
{
    let r = insert_ord(now, e, s);
    if s.len() == 0 {
    } else if ranked_before(now, e, s[0]) {
        assert forall|i: int, j: int| 0 <= i < j < r.len() implies !ranked_before(
            now,
            #[trigger] r[j],
            #[trigger] r[i],
        ) by {
            if i == 0 {
                assert(r[j] == s[j - 1]);
                if ranked_before(now, s[j - 1], e) {
                    lemma_before_trans(now, s[j - 1], e, s[0]);
                    if j == 1 {
                        lemma_before_asym(now, e, s[0]);
                    }
                }
            } else {
                assert(r[i] == s[i - 1] && r[j] == s[j - 1]);
            }
        }
    } else {
        let rest0 = s.drop_first();
        assert(sorted_desc(now, rest0)) by {
            assert(forall|i: int| 0 <= i < rest0.len() ==> #[trigger] rest0[i] == s[i + 1]);
        }
        lemma_insert_ord_sorted(now, e, rest0);
        lemma_insert_ord_elems(now, e, rest0);
        let ins = insert_ord(now, e, rest0);
        assert forall|i: int, j: int| 0 <= i < j < r.len() implies !ranked_before(
            now,
            #[trigger] r[j],
            #[trigger] r[i],
        ) by {
            if i == 0 {
                assert(r[j] == ins[j - 1]);
                if ins[j - 1] == e {
                } else {
                    let m = choose|m: int| 0 <= m < rest0.len() && rest0[m] == ins[j - 1];
                    assert(s[m + 1] == ins[j - 1]);
                }
            } else {
                assert(r[i] == ins[i - 1] && r[j] == ins[j - 1]);
            }
        }
    }
}

/// The sorted candidates are in production order.
pub proof fn lemma_sort_ord_sorted(now: u64, s: Seq<EntryModel>)
    ensures
        sorted_desc(now, sort_ord(now, s)),
    decreases s.len(),
{
    if s.len() > 0 {
        lemma_sort_ord_sorted(now, s.drop_last());
        lemma_insert_ord_sorted(now, s.last(), sort_ord(now, s.drop_last()));
    }
}

/// Ordering determinism: for fixed entries, time and filters, the
/// stream is one fixed sequence — in production order, and a
/// permutation of the filtered candidates.
pub proof fn lemma_stream_order(
    s: Seq<EntryModel>,
    now: u64,
    kws: Seq<Seq<u8>>,
    excl: Option<Seq<u8>>,
)
    ensures
        sorted_desc(now, stream_spec(s, now, kws, excl)),
        forall|x: EntryModel|
            count_elem(#[trigger] stream_spec(s, now, kws, excl), x) == count_elem(
                candidates(s, kws, excl),
                x,
            ),
{
    lemma_sort_ord_sorted(now, candidates(s, kws, excl));
    assert forall|x: EntryModel|
        count_elem(#[trigger] stream_spec(s, now, kws, excl), x) == count_elem(
            candidates(s, kws, excl),
            x,
        ) by {
        lemma_sort_ord_count(now, candidates(s, kws, excl), x);
    }
}

/// Between any two produced entries the order is strict, unless they
/// tie on path and rank completely: the tie-break by rank and then by
/// path leaves no two distinct candidates unordered.
pub proof fn lemma_stream_pairwise(
    s: Seq<EntryModel>,
    now: u64,
    kws: Seq<Seq<u8>>,
    excl: Option<Seq<u8>>,
)
    ensures
        forall|i: int, j: int|
            0 <= i < j < stream_spec(s, now, kws, excl).len() ==> (ranked_before(
                now,
                #[trigger] stream_spec(s, now, kws, excl)[i],
                #[trigger] stream_spec(s, now, kws, excl)[j],
            ) || (stream_spec(s, now, kws, excl)[i].path == stream_spec(s, now, kws, excl)[j].path
                && stream_spec(s, now, kws, excl)[i].rank == stream_spec(s, now, kws, excl)[j].rank)),
{
    lemma_stream_order(s, now, kws, excl);
    let st = stream_spec(s, now, kws, excl);
    assert forall|i: int, j: int| 0 <= i < j < st.len() implies ranked_before(
        now,
        #[trigger] st[i],
        #[trigger] st[j],
    ) || (st[i].path == st[j].path && st[i].rank == st[j].rank) by {
        if !ranked_before(now, st[i], st[j]) {
            lemma_before_connected(now, st[i], st[j]);
        }
    }
}

/// A candidate's occurrences come from the stored entries, and only
/// filter-passing entries are candidates.
pub proof fn lemma_candidates_count(
    s: Seq<EntryModel>,
    kws: Seq<Seq<u8>>,
    excl: Option<Seq<u8>>,
    x: EntryModel,
)
    ensures
        count_elem(candidates(s, kws, excl), x) == (if keeps(kws, excl, x) {
            count_elem(s, x)
        } else {
            0nat
        }),
    decreases s.len(),
{
    if s.len() > 0 {
        lemma_candidates_count(s.drop_first(), kws, excl, x);
        if keeps(kws, excl, s[0]) {
            let c = candidates(s, kws, excl);
            assert(c[0] == s[0]);
            assert(c.drop_first() =~= candidates(s.drop_first(), kws, excl));
        }
    }
}

/// Filtering distributes over appending one entry.
pub proof fn lemma_candidates_push(
    s: Seq<EntryModel>,
    e: EntryModel,
    kws: Seq<Seq<u8>>,
    excl: Option<Seq<u8>>,
)
    ensures
        candidates(s.push(e), kws, excl) == candidates(s, kws, excl) + (if keeps(kws, excl, e) {
            seq![e]
        } else {
            Seq::<EntryModel>::empty()
        }),
    decreases s.len(),
{
    let tail = (if keeps(kws, excl, e) {
        seq![e]
    } else {
        Seq::<EntryModel>::empty()
    });
    if s.len() == 0 {
        reveal_with_fuel(candidates, 3);
        assert(s.push(e)[0] == e);
        assert(s.push(e).drop_first() =~= Seq::<EntryModel>::empty());
        assert(candidates(s.push(e), kws, excl) =~= candidates(s, kws, excl) + tail);
    } else {
        assert(s.push(e)[0] == s[0]);
        assert(s.push(e).drop_first() =~= s.drop_first().push(e));
        lemma_candidates_push(s.drop_first(), e, kws, excl);
        assert(candidates(s.push(e), kws, excl) =~= candidates(s, kws, excl) + tail);
    }
}

/// The exclusion flag after appending one entry.
pub proof fn lemma_excluded_push(
    s: Seq<EntryModel>,
    e: EntryModel,
    kws: Seq<Seq<u8>>,
    excl: Option<Seq<u8>>,
)
    ensures
        excluded_spec(s.push(e), kws, excl) == (excluded_spec(s, kws, excl) || (matches_from(
            e.path,
            kws,
            0,
        ) && excl == Some(e.path))),
    decreases s.len(),
{
    if s.len() == 0 {
        reveal_with_fuel(excluded_spec, 3);
        assert(s.push(e)[0] == e);
        assert(s.push(e).drop_first() =~= Seq::<EntryModel>::empty());
    } else {
        assert(s.push(e)[0] == s[0]);
        assert(s.push(e).drop_first() =~= s.drop_first().push(e));
        lemma_excluded_push(s.drop_first(), e, kws, excl);
    }
}

/// Ordered insertion at the scanned position is insertion at an index.
pub proof fn lemma_insert_ord_at(now: u64, e: EntryModel, s: Seq<EntryModel>, j: int)
    requires
        0 <= j <= s.len(),
        forall|k: int| 0 <= k < j ==> !ranked_before(now, e, #[trigger] s[k]),
        j < s.len() ==> ranked_before(now, e, s[j]),
    ensures
        insert_ord(now, e, s) == s.insert(j, e),
    decreases s.len(),
{
    if s.len() == 0 {
        assert(insert_ord(now, e, s) =~= s.insert(0, e));
    } else if j == 0 {
        assert(insert_ord(now, e, s) =~= s.insert(0, e));
    } else {
        assert(!ranked_before(now, e, s[0]));
        assert(forall|k: int|
            0 <= k < j - 1 ==> !ranked_before(now, e, #[trigger] s.drop_first()[k]));
        lemma_insert_ord_at(now, e, s.drop_first(), j - 1);
        assert(insert_ord(now, e, s) =~= s.insert(j, e));
    }
}

/// A path absent from the stored entries never appears in the stream.
pub proof fn lemma_stream_no_foreign_path(
    s: Seq<EntryModel>,
    now: u64,
    kws: Seq<Seq<u8>>,
    excl: Option<Seq<u8>>,
    p: Seq<u8>,
)
    requires
        !has_path(s, p),
    ensures
        !has_path(stream_spec(s, now, kws, excl), p),
{
    let st = stream_spec(s, now, kws, excl);
    if has_path(st, p) {
        let i = choose|i: int| 0 <= i < st.len() && (#[trigger] st[i]).path == p;
        let x = st[i];
        lemma_count_contains(st, x);
        lemma_sort_ord_count(now, candidates(s, kws, excl), x);
        lemma_candidates_count(s, kws, excl, x);
        lemma_count_contains(s, x);
        let j = choose|j: int| 0 <= j < s.len() && s[j] == x;
        assert(s[j].path == p);
    }
}

/// Pruning, end to end: an entry whose rank aging drives to the
/// pruning threshold or below appears in no stream over the aged
/// collection, whatever the query.
pub proof fn lemma_pruned_never_streamed(
    s: Seq<EntryModel>,
    now: u64,
    kws: Seq<Seq<u8>>,
    excl: Option<Seq<u8>>,
    p: Seq<u8>,
)
    requires
        paths_unique(s),
        rank_of(s, p) is Some,
        crate::policy::aged_rank(rank_of(s, p)->Some_0) <= crate::policy::PRUNE_EPSILON,
    ensures
        !has_path(stream_spec(age_spec(s), now, kws, excl), p),
{
    lemma_pruned_entry_gone(s, p);
    lemma_stream_no_foreign_path(age_spec(s), now, kws, excl, p);
}

/// The model of an optional exclusion path.
pub open spec fn opt_path_view(o: Option<Vec<u8>>) -> Option<Seq<u8>> {
    match o {
        Some(v) => Some(v@),
        None => None,
    }
}

/// Strict lexicographic comparison of two paths.
fn lex_less(a: &Vec<u8>, b: &Vec<u8>) -> (r: bool)
    ensures
        r == lex_lt(a@, b@),
{
    let al: usize = a.len();
    let bl: usize = b.len();
    let mut i: usize = 0;
    proof {
        assert(a@.skip(0) =~= a@);
        assert(b@.skip(0) =~= b@);
    }
    while i < al && i < bl
        invariant
            i <= al,
            i <= bl,
            al == a@.len(),
            bl == b@.len(),
            lex_lt(a@, b@) == lex_lt(a@.skip(i as int), b@.skip(i as int)),
        decreases al - i,
    {
        if a[i] < b[i] {
            return true;
        }
        if a[i] > b[i] {
            return false;
        }
        proof {
            assert(a@.skip(i as int)[0] == a@[i as int]);
            assert(b@.skip(i as int)[0] == b@[i as int]);
            assert(a@.skip(i as int).drop_first() =~= a@.skip(i + 1));
            assert(b@.skip(i as int).drop_first() =~= b@.skip(i + 1));
        }
        i = i + 1;
    }
    assert(a@.skip(i as int).len() == al - i);
    assert(b@.skip(i as int).len() == bl - i);
    al < bl
}

/// Does `a` come out of the stream before `b`?
fn ranked_before_exec(now: u64, a: &Entry, b: &Entry) -> (r: bool)
    ensures
        r == ranked_before(now, a@, b@),
{
    let fa = a.score(now);
    let fb = b.score(now);
    if fa != fb {
        return fa > fb;
    }
    if a.rank != b.rank {
        return a.rank > b.rank;
    }
    lex_less(&a.path, &b.path)
}

/// A fresh copy of a whole entry collection, equal in the model.
fn clone_entries(v: &Vec<Entry>) -> (r: Vec<Entry>)
    ensures
        models_of(r@) == models_of(v@),
{
    let mut out: Vec<Entry> = Vec::new();
    let mut i: usize = 0;
    proof {
        assert(models_of(out@) =~= models_of(v@.take(0)));
    }
    while i < v.len()
        invariant
            i <= v@.len(),
            models_of(out@) == models_of(v@.take(i as int)),
        decreases v@.len() - i,
    {
        let e2 = v[i].duplicate();
        let ghost prev = out@;
        let ghost ge: Entry = e2;
        out.push(e2);
        proof {
            assert(out@ == prev.push(ge));
            crate::entry::lemma_models_push(prev, ge);
            assert(v@.take(i + 1) =~= v@.take(i as int).push(v@[i as int]));
            crate::entry::lemma_models_push(v@.take(i as int), v@[i as int]);
            assert(ge@ == v@[i as int]@);
            assert(models_of(out@) == models_of(v@.take(i + 1)));
        }
        i = i + 1;
    }
    proof {
        assert(v@.take(v@.len() as int) =~= v@);
    }
    out
}

/// The position where `e` belongs in a run already in production
/// order: before the first element that `e` precedes.
fn insert_pos(now: u64, items: &Vec<Entry>, e: &Entry) -> (j: usize)
    ensures
        j <= items@.len(),
        forall|k: int| 0 <= k < j ==> !ranked_before(now, e@, #[trigger] models_of(items@)[k]),
        j < items@.len() ==> ranked_before(now, e@, models_of(items@)[j as int]),
{
    let mut j: usize = 0;
    while j < items.len()
        invariant
            j <= items@.len(),
            forall|k: int| 0 <= k < j ==> !ranked_before(now, e@, #[trigger] models_of(items@)[k]),
        decreases items@.len() - j,
    {
        if ranked_before_exec(now, e, &items[j]) {
            return j;
        }
        j = j + 1;
    }
    j
}

/// Inserts one entry into a run kept in production order.
fn insert_sorted(now: u64, items: &mut Vec<Entry>, e: Entry)
    ensures
        models_of(final(items)@) == insert_ord(now, e@, models_of(old(items)@)),
{
    let ghost s = models_of(items@);
    let j = insert_pos(now, items, &e);
    proof {
        lemma_insert_ord_at(now, e@, s, j as int);
    }
    items.insert(j, e);
    assert(models_of(items@) =~= s.insert(j as int, e@));
}

/// Builds the produced sequence and the exclusion flag for one query.
fn build_items(base: &Vec<Entry>, now: u64, keywords: &Vec<Vec<u8>>, exclude: &Option<Vec<u8>>) -> (r: (
    Vec<Entry>,
    bool,
))
    ensures
        models_of(r.0@) == stream_spec(
            models_of(base@),
            now,
            keywords.deep_view(),
            opt_path_view(*exclude),
        ),
        r.1 == excluded_spec(models_of(base@), keywords.deep_view(), opt_path_view(*exclude)),
{
    let ghost m = models_of(base@);
    let ghost kws = keywords.deep_view();
    let ghost ex = opt_path_view(*exclude);
    let mut cands: Vec<Entry> = Vec::new();
    let mut hit: bool = false;
    let mut i: usize = 0;
    proof {
        assert(m.take(0) =~= Seq::<EntryModel>::empty());
        assert(models_of(cands@) =~= Seq::<EntryModel>::empty());
    }
    while i < base.len()
        invariant
            i <= base@.len(),
            m == models_of(base@),
            m.len() == base@.len(),
            kws == keywords.deep_view(),
            ex == opt_path_view(*exclude),
            models_of(cands@) == candidates(m.take(i as int), kws, ex),
            hit == excluded_spec(m.take(i as int), kws, ex),
        decreases base@.len() - i,
    {
        proof {
            lemma_candidates_push(m.take(i as int), m[i as int], kws, ex);
            lemma_excluded_push(m.take(i as int), m[i as int], kws, ex);
            assert(m.take(i + 1) =~= m.take(i as int).push(m[i as int]));
        }
        let e = &base[i];
        if matches_keywords(&e.path, keywords) {
            let is_excluded: bool = match exclude {
                Some(x) => crate::db::paths_equal(&e.path, x),
                None => false,
            };
            if is_excluded {
                hit = true;
                assert(ex == Some(m[i as int].path));
            } else {
                cands.push(e.duplicate());
                assert(keeps(kws, ex, m[i as int]));
                assert(models_of(cands@) =~= candidates(m.take(i + 1), kws, ex));
            }
        }
        i = i + 1;
    }
    proof {
        assert(m.take(m.len() as int) =~= m);
    }
    let ghost c = models_of(cands@);
    let mut items: Vec<Entry> = Vec::new();
    let mut j: usize = 0;
    proof {
        assert(c.take(0) =~= Seq::<EntryModel>::empty());
        assert(models_of(items@) =~= sort_ord(now, c.take(0)));
    }
    while j < cands.len()
        invariant
            j <= cands@.len(),
            c == models_of(cands@),
            c.len() == cands@.len(),
            models_of(items@) == sort_ord(now, c.take(j as int)),
        decreases cands@.len() - j,
    {
        insert_sorted(now, &mut items, cands[j].duplicate());
        proof {
            assert(c.take(j + 1).drop_last() =~= c.take(j as int));
            assert(c.take(j + 1).last() == c[j as int]);
        }
        j = j + 1;
    }
    proof {
        assert(c.take(c.len() as int) =~= c);
    }
    (items, hit)
}

/// A lazy, filtered, ranked cursor over the stored entries for one
/// query. The existence filter is configuration only: checking a path
/// against the disk is the caller's I/O, guided by `exists_mode`.
pub struct Stream {
    pub base: Vec<Entry>,
    pub now: u64,
    pub keywords: Vec<Vec<u8>>,
    pub exclude: Option<Vec<u8>>,
    pub check_exists: bool,
    pub resolve_symlinks: bool,
    pub built: bool,
    pub items: Vec<Entry>,
    pub pos: usize,
    pub excluded: bool,
}

impl Stream {
    /// The stored entries the stream ranges over.
    pub open spec fn base_view(self) -> Seq<EntryModel> {
        models_of(self.base@)
    }

    /// The query epoch.
    pub open spec fn now_view(self) -> u64 {
        self.now
    }

    /// The configured keywords.
    pub open spec fn kws_view(self) -> Seq<Seq<u8>> {
        self.keywords.deep_view()
    }

    /// The configured exclusion path.
    pub open spec fn excl_view(self) -> Option<Seq<u8>> {
        opt_path_view(self.exclude)
    }

    /// What this stream yields, in order.
    pub open spec fn result_view(self) -> Seq<EntryModel> {
        stream_spec(self.base_view(), self.now, self.kws_view(), self.excl_view())
    }

    /// How many candidates have been pulled so far.
    pub open spec fn taken(self) -> int {
        if self.built {
            self.pos as int
        } else {
            0
        }
    }

    /// The stream invariant: once built, the items are exactly the
    /// ranked candidates and the exclusion flag is exact.
    pub open spec fn wf(self) -> bool {
        &&& (self.built ==> models_of(self.items@) == self.result_view())
        &&& (self.built ==> self.excluded == excluded_spec(
            self.base_view(),
            self.kws_view(),
            self.excl_view(),
        ))
        &&& self.pos <= self.items@.len()
        &&& (!self.built ==> self.pos == 0)
    }

    /// The same stream configuration, seen in the model.
    pub open spec fn same_config(self, other: Stream) -> bool {
        &&& other.base_view() == self.base_view()
        &&& other.now == self.now
        &&& other.kws_view() == self.kws_view()
        &&& other.excl_view() == self.excl_view()
        &&& other.check_exists == self.check_exists
        &&& other.resolve_symlinks == self.resolve_symlinks
    }

    /// Narrows the stream to entries matching every keyword in order.
    pub fn with_keywords(self, keywords: Vec<Vec<u8>>) -> (r: Stream)
        ensures
            r.base_view() == self.base_view(),
            r.now == self.now,
            r.kws_view() == keywords.deep_view(),
            r.excl_view() == self.excl_view(),
            r.check_exists == self.check_exists,
            r.resolve_symlinks == self.resolve_symlinks,
            !r.built,
            r.wf(),
    {
        Stream {
            base: self.base,
            now: self.now,
            keywords,
            exclude: self.exclude,
            check_exists: self.check_exists,
            resolve_symlinks: self.resolve_symlinks,
            built: false,
            items: Vec::new(),
            pos: 0,
            excluded: false,
        }
    }

    /// Drops exactly the entry with this path from the stream.
    pub fn with_exclude(self, path: Vec<u8>) -> (r: Stream)
        ensures
            r.base_view() == self.base_view(),
            r.now == self.now,
            r.kws_view() == self.kws_view(),
            r.excl_view() == Some(path@),
            r.check_exists == self.check_exists,
            r.resolve_symlinks == self.resolve_symlinks,
            !r.built,
            r.wf(),
    {
        Stream {
            base: self.base,
            now: self.now,
            keywords: self.keywords,
            exclude: Some(path),
            check_exists: self.check_exists,
            resolve_symlinks: self.resolve_symlinks,
            built: false,
            items: Vec::new(),
            pos: 0,
            excluded: false,
        }
    }

    /// Asks the caller to keep only paths that still exist on disk,
    /// following symlinks when `resolve_symlinks` holds. The check
    /// itself is the caller's I/O; `exists_mode` reports the setting.
    pub fn with_exists(self, resolve_symlinks: bool) -> (r: Stream)
        ensures
            r.base_view() == self.base_view(),
            r.now == self.now,
            r.kws_view() == self.kws_view(),
            r.excl_view() == self.excl_view(),
            r.check_exists,
            r.resolve_symlinks == resolve_symlinks,
            !r.built,
            r.wf(),
    {
        Stream {
            base: self.base,
            now: self.now,
            keywords: self.keywords,
            exclude: self.exclude,
            check_exists: true,
            resolve_symlinks,
            built: false,
            items: Vec::new(),
            pos: 0,
            excluded: false,
        }
    }

    /// The configured existence check: `None` when disabled, otherwise
    /// whether symlinks are to be resolved.
    pub fn exists_mode(&self) -> (r: Option<bool>)
        ensures
            r == (if self.check_exists {
                Some(self.resolve_symlinks)
            } else {
                None::<bool>
            }),
    {
        if self.check_exists {
            Some(self.resolve_symlinks)
        } else {
            None
        }
    }

    /// Pulls the next best-ranked, filter-passing entry.
    pub fn next(&mut self) -> (r: Option<Entry>)
        requires
            old(self).wf(),
        ensures
            final(self).wf(),
            final(self).built,
            old(self).same_config(*final(self)),
            match r {
                Some(e) => {
                    &&& old(self).taken() < old(self).result_view().len()
                    &&& e@ == old(self).result_view()[old(self).taken()]
                    &&& final(self).taken() == old(self).taken() + 1
                },
                None => {
                    &&& old(self).taken() >= old(self).result_view().len()
                    &&& final(self).taken() == old(self).taken()
                },
            },
    {
        if !self.built {
            let built = build_items(&self.base, self.now, &self.keywords, &self.exclude);
            self.items = built.0;
            self.excluded = built.1;
            self.built = true;
        }
        if self.pos < self.items.len() {
            let e = self.items[self.pos].duplicate();
            self.pos = self.pos + 1;
            Some(e)
        } else {
            None
        }
    }

    /// Whether the exclusion filter alone removed a keyword-matching
    /// candidate: distinguishes "the only match was excluded" from
    /// "nothing matched".
    pub fn did_exclude(&mut self) -> (r: bool)
        requires
            old(self).wf(),
        ensures
            final(self).wf(),
            final(self).built,
            old(self).same_config(*final(self)),
            final(self).taken() == old(self).taken(),
            r == excluded_spec(old(self).base_view(), old(self).kws_view(), old(self).excl_view()),
    {
        if !self.built {
            let built = build_items(&self.base, self.now, &self.keywords, &self.exclude);
            self.items = built.0;
            self.excluded = built.1;
            self.built = true;
        }
        self.excluded
    }
}

impl Database {
    /// A fresh stream over the current entries, bound to `now`, with
    /// no filters configured.
    pub fn stream(&self, now: u64) -> (r: Stream)
        ensures
            r.base_view() == self@,
            r.now == now,
            r.kws_view() == Seq::<Seq<u8>>::empty(),
            r.excl_view() is None,
            !r.check_exists,
            !r.built,
            r.wf(),
    {
        let base = clone_entries(&self.entries);
        let keywords: Vec<Vec<u8>> = Vec::new();
        proof {
            assert(keywords.deep_view() =~= Seq::<Seq<u8>>::empty());
        }
        Stream {
            base,
            now,
            keywords,
            exclude: None,
            check_exists: false,
            resolve_symlinks: false,
            built: false,
            items: Vec::new(),
            pos: 0,
            excluded: false,
        }
    }
}

} // verus!
