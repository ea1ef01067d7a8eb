//! Keyword matching: a path matches a keyword list when every keyword
//! occurs, ASCII-case-insensitively, as a substring of the path, and
//! the occurrences come in keyword order without overlapping — each
//! keyword matches at or after the end of the previous keyword's match.

use vstd::prelude::*;

verus! {

/// ASCII lower-casing of one byte.
pub open spec fn fold_byte(b: u8) -> u8 {
    if 65 <= b <= 90 {
        (b + 32) as u8
    } else {
        b
    }
}

/// The keyword `kw` matches `path` starting exactly at position `i`,
/// ignoring ASCII case.
pub open spec fn matches_at(path: Seq<u8>, kw: Seq<u8>, i: int) -> bool {
    &&& 0 <= i
    &&& i + kw.len() <= path.len()
    &&& forall|j: int| 0 <= j < kw.len() ==> fold_byte(path[i + j]) == fold_byte(#[trigger] kw[j])
}

/// The keywords `kws` all match `path` in order, each starting at or
/// after `start` and after the end of the previous keyword's match.
pub open spec fn matches_from(path: Seq<u8>, kws: Seq<Seq<u8>>, start: int) -> bool
    decreases kws.len(),
{
    if kws.len() == 0 {
        true
    } else {
        exists|i: int|
            i >= start && #[trigger] matches_at(path, kws[0], i) && matches_from(
                path,
                kws.drop_first(),
                i + kws[0].len(),
            )
    }
}

/// A path that matches from a later start also matches from any
/// earlier one.
pub proof fn lemma_matches_from_weaken(path: Seq<u8>, kws: Seq<Seq<u8>>, a: int, b: int)
    requires
        a <= b,
        matches_from(path, kws, b),
    ensures
        matches_from(path, kws, a),
{
    if kws.len() > 0 {
        let i = choose|i: int|
            i >= b && #[trigger] matches_at(path, kws[0], i) && matches_from(
                path,
                kws.drop_first(),
                i + kws[0].len(),
            );
        assert(i >= a && matches_at(path, kws[0], i) && matches_from(
            path,
            kws.drop_first(),
            i + kws[0].len(),
        ));
    }
}

/// ASCII lower-casing of one byte.
pub fn fold_byte_exec(b: u8) -> (r: u8)
    ensures
        r == fold_byte(b),
{
    if 65 <= b && b <= 90 {
        b + 32
    } else {
        b
    }
}

/// Does `kw` match `path` starting exactly at `i`?
fn check_at(path: &Vec<u8>, kw: &Vec<u8>, i: usize) -> (r: bool)
    requires
        i + kw@.len() <= path@.len(),
    ensures
        r == matches_at(path@, kw@, i as int),
{
    let pl: usize = path.len();
    let mut j: usize = 0;
    while j < kw.len()
        invariant
            j <= kw@.len(),
            pl == path@.len(),
            i + kw@.len() <= pl,
            forall|k: int| 0 <= k < j ==> fold_byte(path@[i + k]) == fold_byte(#[trigger] kw@[k]),
        decreases kw@.len() - j,
    {
        assert(i + j < pl);
        if fold_byte_exec(path[i + j]) != fold_byte_exec(kw[j]) {
            assert(!matches_at(path@, kw@, i as int));
            return false;
        }
        j = j + 1;
    }
    true
}

/// The earliest position at or after `start` where `kw` matches
/// `path`, or `None` when there is none.
fn find_at_or_after(path: &Vec<u8>, kw: &Vec<u8>, start: usize) -> (r: Option<usize>)
    ensures
        match r {
            Some(i) => {
                &&& start <= i
                &&& matches_at(path@, kw@, i as int)
                &&& forall|k: int| start <= k < i ==> !matches_at(path@, kw@, k)
            },
            None => forall|k: int| k >= start ==> !matches_at(path@, kw@, k),
        },
{
    if kw.len() > path.len() || start > path.len() - kw.len() {
        assert(forall|k: int| k >= start ==> !matches_at(path@, kw@, k));
        return None;
    }
    let limit: usize = path.len() - kw.len();
    let mut i: usize = start;
    loop
        invariant
            kw@.len() <= path@.len(),
            limit == path@.len() - kw@.len(),
            start <= i <= limit,
            forall|k: int| start <= k < i ==> !matches_at(path@, kw@, k),
        decreases limit - i,
    {
        if check_at(path, kw, i) {
            return Some(i);
        }
        if i == limit {
            assert(forall|k: int| k > limit ==> !matches_at(path@, kw@, k));
            return None;
        }
        i = i + 1;
    }
}

/// Does `path` match all of `kws`, in order and ignoring ASCII case?
pub fn matches_keywords(path: &Vec<u8>, kws: &Vec<Vec<u8>>) -> (r: bool)
    ensures
        r == matches_from(path@, kws.deep_view(), 0),
{
    let ghost dkws: Seq<Seq<u8>> = kws.deep_view();
    let mut k: usize = 0;
    let mut pos: usize = 0;
    proof {
        assert(dkws.skip(0) =~= dkws);
    }
    while k < kws.len()
        invariant
            k <= kws@.len(),
            dkws == kws.deep_view(),
            dkws.len() == kws@.len(),
            forall|q: int| 0 <= q < dkws.len() ==> #[trigger] dkws[q] == kws@[q]@,
            pos <= path@.len() + 1,
            matches_from(path@, dkws, 0) <==> matches_from(path@, dkws.skip(k as int), pos as int),
        decreases kws@.len() - k,
    {
        let ghost rest: Seq<Seq<u8>> = dkws.skip(k as int);
        assert(rest[0] == dkws[k as int]);
        match find_at_or_after(path, &kws[k], pos) {
            None => {
                proof {
                    if matches_from(path@, rest, pos as int) {
                        let i = choose|i: int|
                            i >= pos && #[trigger] matches_at(path@, rest[0], i) && matches_from(
                                path@,
                                rest.drop_first(),
                                i + rest[0].len(),
                            );
                        assert(matches_at(path@, kws@[k as int]@, i));
                        assert(false);
                    }
                }
                return false;
            },
            Some(i0) => {
                let kl: usize = kws[k].len();
                let pl: usize = path.len();
                assert(i0 + kl <= pl);
                let new_pos: usize = i0 + kl;
                proof {
                    let rest2 = rest.drop_first();
                    assert(rest2 =~= dkws.skip(k + 1));
                    if matches_from(path@, rest, pos as int) {
                        let i = choose|i: int|
                            i >= pos && #[trigger] matches_at(path@, rest[0], i) && matches_from(
                                path@,
                                rest2,
                                i + rest[0].len(),
                            );
                        // the earliest occurrence is no later, so the tail
                        // still matches from the earlier resume point
                        assert(i0 <= i);
                        lemma_matches_from_weaken(path@, rest2, new_pos as int, i + rest[0].len() as int);
                    }
                    if matches_from(path@, rest2, new_pos as int) {
                        assert(i0 >= pos && matches_at(path@, rest[0], i0 as int) && matches_from(
                            path@,
                            rest.drop_first(),
                            i0 + rest[0].len(),
                        ));
                    }
                }
                pos = new_pos;
                k = k + 1;
            },
        }
    }
    assert(dkws.skip(k as int) =~= Seq::<Seq<u8>>::empty());
    true
}

} // verus!
