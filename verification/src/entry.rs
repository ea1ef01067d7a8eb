//! A tracked directory: its path (OS-native bytes, compared byte for
//! byte), its rank, and the epoch of its last visit. The visible score
//! of an entry is its frecency: the rank divided by a step-function
//! weight that grows with the age of the last visit.

use vstd::prelude::*;

verus! {

/// Age bands for the frecency weight, in seconds.
pub const HOUR: u64 = 3600;

/// One day, in seconds.
pub const DAY: u64 = 86400;

/// One week, in seconds.
pub const WEEK: u64 = 604800;

/// The mathematical model of an entry.
#[verifier::ext_equal]
pub ghost struct EntryModel {
    pub path: Seq<u8>,
    pub rank: u64,
    pub last_access: u64,
}

/// A tracked directory with its rank and last-visit epoch.
pub struct Entry {
    pub path: Vec<u8>,
    pub rank: u64,
    pub last_access: u64,
}

impl View for Entry {
    type V = EntryModel;

    open spec fn view(&self) -> EntryModel {
        EntryModel { path: self.path@, rank: self.rank, last_access: self.last_access }
    }
}

/// The models of a sequence of entries, element by element.
pub open spec fn models_of(s: Seq<Entry>) -> Seq<EntryModel> {
    s.map_values(|e: Entry| e@)
}

/// Taking models distributes over appending one entry.
pub proof fn lemma_models_push(s: Seq<Entry>, e: Entry)
    ensures
        models_of(s.push(e)) == models_of(s).push(e@),
{
    assert forall|k: int| 0 <= k < s.len() + 1 implies models_of(s.push(e))[k] == models_of(
        s,
    ).push(e@)[k] by {
        if k < s.len() {
            assert(s.push(e)[k] == s[k]);
        } else {
            assert(s.push(e)[k] == e);
        }
    }
    assert(models_of(s.push(e)) =~= models_of(s).push(e@));
}

/// The age of a visit: how many seconds before `now` it happened.
/// A visit stamped after `now` counts as age zero.
pub open spec fn age_of(now: u64, last_access: u64) -> u64 {
    if now >= last_access {
        (now - last_access) as u64
    } else {
        0
    }
}

/// The step-function decay weight: recent visits keep their full rank,
/// older visits are divided by ever larger powers of two.
pub open spec fn decay_weight(age: u64) -> u64 {
    if age < HOUR {
        1
    } else if age < DAY {
        2
    } else if age < WEEK {
        4
    } else {
        8
    }
}

/// The frecency score used to order candidates: the rank divided by
/// the decay weight of the visit's age.
pub open spec fn frecency(rank: u64, now: u64, last_access: u64) -> u64 {
    (rank / decay_weight(age_of(now, last_access))) as u64
}

impl Entry {
    /// A fresh copy of this entry, equal to it in the model.
    pub fn duplicate(&self) -> (r: Entry)
        ensures
            r@ == self@,
    {
        let mut path: Vec<u8> = Vec::new();
        let mut i: usize = 0;
        while i < self.path.len()
            invariant
                i <= self.path.len(),
                path@ == self.path@.take(i as int),
            decreases self.path.len() - i,
        {
            path.push(self.path[i]);
            assert(self.path@.take(i + 1 as int) =~= self.path@.take(i as int).push(self.path@[i as int]));
            i = i + 1;
        }
        assert(self.path@.take(self.path.len() as int) =~= self.path@);
        Entry { path, rank: self.rank, last_access: self.last_access }
    }

    /// The score shown for this entry at `now`: exactly the frecency
    /// value the query stream orders by.
    pub fn score(&self, now: u64) -> (r: u64)
        ensures
            r == frecency(self@.rank, now, self@.last_access),
    {
        let age: u64 = if now >= self.last_access {
            now - self.last_access
        } else {
            0
        };
        let weight: u64 = if age < HOUR {
            1
        } else if age < DAY {
            2
        } else if age < WEEK {
            4
        } else {
            8
        };
        self.rank / weight
    }
}

} // verus!
