use crate::maplib;
use crate::tracker::saturating_score;
use crate::types::BufferKey;
use std::collections::HashMap;
use vstd::prelude::*;

verus! {

broadcast use vstd::std_specs::hash::group_hash_axioms;

/// The recorded count of a key, zero when never accessed.
pub open spec fn count_of(counts: Map<u64, u32>, key: u64) -> u32 {
    if counts.contains_key(key) {
        counts[key]
    } else {
        0
    }
}

/// One more access, saturating at the largest count.
pub open spec fn bumped(count: u32) -> u32 {
    if count < u32::MAX {
        (count + 1) as u32
    } else {
        u32::MAX
    }
}

/// The (key, score) pairs of the tracked keys, each key scored by its capped count.
pub open spec fn scored(counts: Map<u64, u32>) -> Set<(u64, u64)> {
    Set::new(|p: (u64, u64)| counts.contains_key(p.0) && p.1 == super::capped(counts[p.0] as nat) as u64)
}

/// The plain form of a ranking: key identifier and score.
pub open spec fn ranking_pairs(r: Seq<(BufferKey, u16)>) -> Seq<(u64, u64)> {
    r.map_values(|p: (BufferKey, u16)| (p.0.0, p.1 as u64))
}

/// Every key in the map has a count of at least one.
pub open spec fn counts_positive(counts: Map<u64, u32>) -> bool {
    forall|k: u64| #[trigger] counts.contains_key(k) ==> counts[k] >= 1
}

/// Frequency tracker that counts accesses per key.
#[derive(Debug)]
pub struct FrequencyTracker {
    counts: HashMap<u64, u32>,
}

impl View for FrequencyTracker {
    type V = Map<u64, u32>;

    closed spec fn view(&self) -> Map<u64, u32> {
        self.counts@
    }
}

impl FrequencyTracker {
    /// Every tracked key has been accessed at least once; every tracker holds this.
    #[verifier::type_invariant]
    pub open spec fn well_formed(&self) -> bool {
        counts_positive(self@)
    }

    /// Creates an empty frequency tracker.
    pub fn new() -> (res: FrequencyTracker)
        ensures
            res@ == Map::<u64, u32>::empty(),
    {
        FrequencyTracker { counts: HashMap::new() }
    }

    /// Returns the raw access count for a key.
    pub fn count(&self, key: BufferKey) -> (res: u32)
        ensures
            res == count_of(self@, key.0),
    {
        match self.counts.get(&key.0) {
            Some(c) => *c,
            None => 0,
        }
    }

    /// Records one access; the count saturates at its largest value.
    pub fn record_access(&mut self, key: BufferKey)
        ensures
            final(self).well_formed(),
            final(self)@ == old(self)@.insert(key.0, bumped(count_of(old(self)@, key.0))),
    {
        proof {
            use_type_invariant(&*self);
        }
        let next = self.count(key).saturating_add(1);
        let mut counts: HashMap<u64, u32> = HashMap::new();
        std::mem::swap(&mut counts, &mut self.counts);
        counts.insert(key.0, next);
        self.counts = counts;
    }

    /// Returns the score of a key: its count capped at the largest 16-bit value.
    pub fn score(&self, key: BufferKey) -> (res: u16)
        ensures
            res == super::capped(count_of(self@, key.0) as nat),
    {
        saturating_score(self.count(key) as u64)
    }

    /// Returns the tracked keys with their scores, from hottest to coldest:
    /// higher score first, and among equal scores the smaller key first.
    pub fn ranked(&self) -> (res: Vec<(BufferKey, u16)>)
        ensures
            maplib::ranked(ranking_pairs(res@)),
            ranking_pairs(res@).to_set() == scored(self@),
            res@.len() == self@.dom().len(),
            forall|j: int| 0 <= j < res@.len() ==> (#[trigger] res@[j]).1 >= 1,
    {
        proof {
            use_type_invariant(self);
        }
        let sorted = ranked_counts(&self.counts);
        let mut res: Vec<(BufferKey, u16)> = Vec::new();
        let mut i: usize = 0;
        while i < sorted.len()
            invariant
                i <= sorted.len(),
                res@.len() == i,
                forall|j: int| 0 <= j < sorted@.len() ==> (#[trigger] sorted@[j]).1 <= u16::MAX,
                forall|j: int| 0 <= j < sorted@.len() ==> (#[trigger] sorted@[j]).1 >= 1,
                forall|j: int|
                    0 <= j < i ==> (#[trigger] res@[j]).0.0 == sorted@[j].0 && res@[j].1 as u64
                        == sorted@[j].1,
            decreases sorted.len() - i,
        {
            let (k, s) = sorted[i];
            res.push((BufferKey(k), s as u16));
            i = i + 1;
        }
        proof {
            assert(ranking_pairs(res@) =~= sorted@);
        }
        res
    }
}

/// Ranks the entries of a count map: each key with its count capped at 16
/// bits, higher score first, and among equal scores the smaller key first.
pub fn ranked_counts(counts: &HashMap<u64, u32>) -> (res: Vec<(u64, u64)>)
    ensures
        maplib::ranked(res@),
        res@.to_set() == scored(counts@),
        res@.len() == counts@.dom().len(),
        forall|j: int| 0 <= j < res@.len() ==> (#[trigger] res@[j]).1 <= u16::MAX,
        counts_positive(counts@) ==> forall|j: int| 0 <= j < res@.len() ==> (#[trigger] res@[j]).1 >= 1,
{
    let mut pairs: Vec<(u64, u64)> = Vec::new();
    let ghost ks = vstd::std_specs::iter::IteratorSpec::remaining(&counts.keys()).unref();
    for k in it: counts.keys()
        invariant
            it.seq().unref() == ks,
            ks.to_set() == counts@.dom(),
            ks.no_duplicates(),
            pairs@.len() == it.index(),
            forall|i: int|
                0 <= i < it.index() ==> #[trigger] pairs@[i] == (ks[i], super::capped(
                    counts@[ks[i]] as nat,
                ) as u64),
    {
        let c = match counts.get(k) {
            Some(c) => *c,
            None => 0,
        };
        proof {
            assert(ks[it.index()] == *k);
            assert(ks.to_set().contains(*k));
        }
        pairs.push((*k, saturating_score(c as u64) as u64));
    }
    proof {
        assert(pairs@.no_duplicates()) by {
            assert forall|a: int, b: int| 0 <= a < b < pairs@.len() implies pairs@[a]
                != pairs@[b] by {
                assert(pairs@[a].0 == ks[a]);
                assert(pairs@[b].0 == ks[b]);
            }
        }
        assert(pairs@.to_set() =~= scored(counts@)) by {
            assert forall|p: (u64, u64)| pairs@.to_set().contains(p) implies scored(
                counts@,
            ).contains(p) by {
                let i = choose|i: int| 0 <= i < pairs@.len() && pairs@[i] == p;
                assert(ks.to_set().contains(ks[i]));
            }
            assert forall|p: (u64, u64)| scored(counts@).contains(p) implies pairs@.to_set().contains(
                p,
            ) by {
                assert(ks.to_set().contains(p.0));
                let i = choose|i: int| 0 <= i < ks.len() && ks[i] == p.0;
                assert(pairs@[i] == p);
            }
        }
        ks.lemma_no_dup_set_cardinality();
    }
    let sorted = maplib::sort_ranked(&pairs);
    proof {
        assert forall|j: int| 0 <= j < sorted@.len() implies (#[trigger] sorted@[j]).1
            <= u16::MAX by {
            assert(sorted@.to_set().contains(sorted@[j]));
            assert(pairs@.to_set().contains(sorted@[j]));
            let i = choose|i: int| 0 <= i < pairs@.len() && pairs@[i] == sorted@[j];
            assert(pairs@[i].1 == super::capped(counts@[ks[i]] as nat) as u64);
        }
        if counts_positive(counts@) {
            assert forall|j: int| 0 <= j < sorted@.len() implies (#[trigger] sorted@[j]).1 >= 1 by {
                assert(sorted@.to_set().contains(sorted@[j]));
                assert(pairs@.to_set().contains(sorted@[j]));
                let i = choose|i: int| 0 <= i < pairs@.len() && pairs@[i] == sorted@[j];
                assert(ks.to_set().contains(ks[i]));
                assert(counts@.contains_key(ks[i]));
            }
        }
    }
    sorted
}

impl Clone for FrequencyTracker {
    fn clone(&self) -> (res: FrequencyTracker)
        ensures
            res@ == self@,
    {
        proof {
            use_type_invariant(self);
        }
        FrequencyTracker { counts: self.counts.clone() }
    }
}

impl Default for FrequencyTracker {
    fn default() -> (res: FrequencyTracker)
        ensures
            res@ == Map::<u64, u32>::empty(),
    {
        FrequencyTracker::new()
    }
}

} // verus!
