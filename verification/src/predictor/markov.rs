use crate::maplib;
use crate::predictor::{saturating_count, Prediction};
use crate::tracker::frequency::{self, ranked_counts};
use crate::types::BufferKey;
use std::collections::HashMap;
use vstd::prelude::*;

verus! {

broadcast use vstd::std_specs::hash::group_hash_axioms;

/// The counts of the transitions seen out of `from`; empty when none was seen.
pub open spec fn destinations(m: Map<u64, Map<u64, u32>>, from: u64) -> Map<u64, u32> {
    if m.contains_key(from) {
        m[from]
    } else {
        Map::empty()
    }
}

/// The transitions after one more `from -> to`, its count saturating.
pub open spec fn with_transition(m: Map<u64, Map<u64, u32>>, from: u64, to: u64) -> Map<
    u64,
    Map<u64, u32>,
> {
    let d = destinations(m, from);
    m.insert(from, d.insert(to, frequency::bumped(frequency::count_of(d, to))))
}

/// The transitions after recording each adjacent pair of a history, in order.
pub open spec fn with_history(m: Map<u64, Map<u64, u32>>, h: Seq<u64>) -> Map<u64, Map<u64, u32>>
    decreases h.len(),
{
    if h.len() < 2 {
        m
    } else {
        with_transition(with_history(m, h.drop_last()), h[h.len() - 2], h[h.len() - 1])
    }
}

/// The share of one count in a total.
pub open spec fn count_share() -> spec_fn(u32) -> nat {
    |c: u32| c as nat
}

/// The number of transitions seen out of a key, given its destination counts.
pub open spec fn outgoing_total(d: Map<u64, u32>) -> nat {
    maplib::map_total(d, count_share())
}

/// The sum of the counts stored under a sequence of keys.
pub open spec fn keys_total(d: Map<u64, u32>, ks: Seq<u64>) -> nat
    decreases ks.len(),
{
    if ks.len() == 0 {
        0
    } else {
        keys_total(d, ks.drop_last()) + d[ks.last()] as nat
    }
}

/// The plain form of predictions: key identifier and weight.
pub open spec fn prediction_pairs(r: Seq<Prediction>) -> Seq<(u64, u64)> {
    r.map_values(|p: Prediction| (p.key.0, p.weight as u64))
}

/// Sums over the same keys agree when the counts under those keys agree.
proof fn lemma_keys_total_agree(d1: Map<u64, u32>, d2: Map<u64, u32>, ks: Seq<u64>)
    requires
        forall|i: int| 0 <= i < ks.len() ==> d1[#[trigger] ks[i]] == d2[ks[i]],
    ensures
        keys_total(d1, ks) == keys_total(d2, ks),
    decreases ks.len(),
{
    if ks.len() > 0 {
        let p = ks.drop_last();
        assert forall|i: int| 0 <= i < p.len() implies d1[#[trigger] p[i]] == d2[p[i]] by {
            assert(p[i] == ks[i]);
        }
        lemma_keys_total_agree(d1, d2, p);
        assert(ks.last() == ks[ks.len() - 1]);
    }
}

/// Summing the counts along the keys of a map, each once, gives its total.
proof fn lemma_keys_total(d: Map<u64, u32>, ks: Seq<u64>)
    requires
        ks.no_duplicates(),
        ks.to_set() == d.dom(),
    ensures
        keys_total(d, ks) == outgoing_total(d),
    decreases ks.len(),
{
    if ks.len() == 0 {
        assert(d.dom() =~= Set::<u64>::empty());
    } else {
        let k = ks.last();
        let p = ks.drop_last();
        let r = d.remove(k);
        assert(ks[ks.len() - 1] == k);
        assert(!p.contains(k)) by {
            if p.contains(k) {
                let j = choose|j: int| 0 <= j < p.len() && p[j] == k;
                assert(ks[j] == ks[ks.len() - 1]);
            }
        }
        assert(p.no_duplicates()) by {
            assert forall|a: int, b: int| 0 <= a < b < p.len() implies p[a] != p[b] by {
                assert(p[a] == ks[a] && p[b] == ks[b]);
            }
        }
        assert(p.to_set() =~= r.dom()) by {
            assert forall|x: u64| p.to_set().contains(x) implies r.dom().contains(x) by {
                let j = choose|j: int| 0 <= j < p.len() && p[j] == x;
                assert(ks[j] == x);
                assert(ks.to_set().contains(x));
            }
            assert forall|x: u64| r.dom().contains(x) implies p.to_set().contains(x) by {
                assert(ks.to_set().contains(x));
                let j = choose|j: int| 0 <= j < ks.len() && ks[j] == x;
                assert(j != ks.len() - 1);
                assert(p[j] == x);
            }
        }
        lemma_keys_total(r, p);
        assert forall|i: int| 0 <= i < p.len() implies d[#[trigger] p[i]] == r[p[i]] by {
            assert(p.contains(p[i]));
        }
        lemma_keys_total_agree(d, r, p);
        assert(d.dom().finite()) by {
            assert(ks.to_set().finite());
        }
        assert(ks.to_set().contains(k));
        maplib::lemma_map_total_remove(d, count_share(), k);
    }
}

/// No single count exceeds the total it belongs to.
proof fn lemma_count_within_total(d: Map<u64, u32>, k: u64)
    requires
        d.dom().finite(),
        d.contains_key(k),
    ensures
        d[k] <= outgoing_total(d),
{
    maplib::lemma_map_total_remove(d, count_share(), k);
}

/// A sum along a prefix never exceeds the sum along the whole sequence.
proof fn lemma_keys_total_prefix(d: Map<u64, u32>, ks: Seq<u64>, i: int)
    requires
        0 <= i <= ks.len(),
    ensures
        keys_total(d, ks.take(i)) <= keys_total(d, ks),
    decreases ks.len(),
{
    if i < ks.len() {
        lemma_keys_total_prefix(d, ks.drop_last(), i);
        assert(ks.drop_last().take(i) =~= ks.take(i));
    } else {
        assert(ks.take(i) =~= ks);
    }
}

/// Recording a transition raises its count by one, saturating, and leaves
/// the count of every other transition unchanged.
pub proof fn law_markov_record(m: Map<u64, Map<u64, u32>>, from: u64, to: u64, a: u64, b: u64)
    requires
        a != from || b != to,
    ensures
        frequency::count_of(destinations(with_transition(m, from, to), from), to)
            == frequency::bumped(frequency::count_of(destinations(m, from), to)),
        frequency::count_of(destinations(with_transition(m, from, to), a), b)
            == frequency::count_of(destinations(m, a), b),
{
}

/// Recording a history is recording its adjacent transitions one by one, in
/// order: a history of fewer than two keys records nothing, and one more key
/// after a history adds exactly the transition from its last key to the new one.
pub proof fn law_history_one_by_one(m: Map<u64, Map<u64, u32>>, h: Seq<u64>, next: u64)
    ensures
        h.len() < 2 ==> with_history(m, h) == m,
        h.len() >= 1 ==> with_history(m, h.push(next)) == with_transition(
            with_history(m, h),
            h.last(),
            next,
        ),
{
    if h.len() >= 1 {
        assert(h.push(next).drop_last() =~= h);
    }
}

/// Every recorded transition has a count of at least one.
pub open spec fn transitions_positive(m: Map<u64, Map<u64, u32>>) -> bool {
    forall|from: u64| #[trigger] m.contains_key(from) ==> frequency::counts_positive(m[from])
}

/// First-order Markov predictor over observed buffer transitions.
#[derive(Debug)]
pub struct MarkovPredictor {
    transitions: HashMap<u64, HashMap<u64, u32>>,
}

impl View for MarkovPredictor {
    type V = Map<u64, Map<u64, u32>>;

    closed spec fn view(&self) -> Map<u64, Map<u64, u32>> {
        self.transitions@.map_values(|d: HashMap<u64, u32>| d@)
    }
}

impl MarkovPredictor {
    /// Every recorded transition was seen at least once; every predictor holds this.
    #[verifier::type_invariant]
    pub open spec fn well_formed(&self) -> bool {
        transitions_positive(self@)
    }

    /// Creates an empty Markov predictor.
    pub fn new() -> (res: MarkovPredictor)
        ensures
            res@ == Map::<u64, Map<u64, u32>>::empty(),
    {
        let res = MarkovPredictor { transitions: HashMap::new() };
        proof {
            assert(res@ =~= Map::<u64, Map<u64, u32>>::empty());
        }
        res
    }

    /// Records one transition; its count saturates at the largest value.
    pub fn record_transition(&mut self, from: BufferKey, to: BufferKey)
        ensures
            final(self).well_formed(),
            final(self)@ == with_transition(old(self)@, from.0, to.0),
    {
        proof {
            use_type_invariant(&*self);
        }
        let ghost start = self@;
        let mut transitions: HashMap<u64, HashMap<u64, u32>> = HashMap::new();
        std::mem::swap(&mut transitions, &mut self.transitions);
        proof {
            assert(transitions@.map_values(|d: HashMap<u64, u32>| d@) == start);
        }
        let mut d = match transitions.remove(&from.0) {
            Some(d) => d,
            None => HashMap::new(),
        };
        proof {
            assert(d@ == destinations(start, from.0));
        }
        let current = match d.get(&to.0) {
            Some(c) => *c,
            None => 0,
        };
        d.insert(to.0, current.saturating_add(1));
        transitions.insert(from.0, d);
        proof {
            let next = transitions@.map_values(|d: HashMap<u64, u32>| d@);
            assert(next =~= with_transition(start, from.0, to.0));
            assert(transitions_positive(next)) by {
                assert forall|a: u64| #[trigger] next.contains_key(a) implies frequency::counts_positive(
                    next[a],
                ) by {
                    if a != from.0 {
                        assert(start.contains_key(a));
                    } else {
                        assert forall|b: u64| #[trigger] next[a].contains_key(b) implies next[a][b] >= 1 by {
                            if b != to.0 {
                                assert(start.contains_key(from.0));
                            }
                        }
                    }
                }
            }
        }
        self.transitions = transitions;
    }

    /// Records all adjacent transitions of a history, oldest first.
    pub fn record_history(&mut self, history: &[BufferKey])
        ensures
            final(self).well_formed(),
            final(self)@ == with_history(old(self)@, crate::types::key_ids(history@)),
    {
        proof {
            use_type_invariant(&*self);
        }
        let ghost start = self@;
        let ghost ids = crate::types::key_ids(history@);
        let n = history.len();
        if n < 2 {
            return;
        }
        let mut i: usize = 1;
        proof {
            assert(ids.take(1).len() == 1);
        }
        while i < n
            invariant
                n == history@.len(),
                ids == crate::types::key_ids(history@),
                1 <= i <= n,
                self.well_formed(),
                self@ == with_history(start, ids.take(i as int)),
            decreases n - i,
        {
            self.record_transition(history[i - 1], history[i]);
            proof {
                let t = ids.take(i + 1);
                assert(t.drop_last() =~= ids.take(i as int));
                assert(t[t.len() - 2] == history@[i - 1].0);
                assert(t[t.len() - 1] == history@[i as int].0);
            }
            i = i + 1;
        }
        proof {
            assert(ids.take(n as int) =~= ids);
        }
    }

    /// Returns the number of transitions seen out of `from`, or `None` when
    /// that number does not fit in 32 bits.
    pub fn outgoing_total(&self, from: BufferKey) -> (res: Option<u32>)
        ensures
            res == (if outgoing_total(destinations(self@, from.0)) <= u32::MAX {
                Some(outgoing_total(destinations(self@, from.0)) as u32)
            } else {
                None
            }),
    {
        match self.transitions.get(&from.0) {
            None => {
                proof {
                    assert(destinations(self@, from.0) == Map::<u64, u32>::empty());
                    assert(Map::<u64, u32>::empty().dom() =~= Set::<u64>::empty());
                }
                Some(0)
            },
            Some(d) => {
                let ghost dv = d@;
                proof {
                    assert(dv == destinations(self@, from.0));
                }
                let ghost ks = vstd::std_specs::iter::IteratorSpec::remaining(&d.keys()).unref();
                let mut total: u32 = 0;
                for k in it: d.keys()
                    invariant
                        it.seq().unref() == ks,
                        ks.to_set() == dv.dom(),
                        ks.no_duplicates(),
                        dv == d@,
                        dv == destinations(self@, from.0),
                        total == keys_total(dv, ks.take(it.index())),
                {
                    let c = match d.get(k) {
                        Some(c) => *c,
                        None => 0,
                    };
                    proof {
                        let t = ks.take(it.index() + 1);
                        assert(ks[it.index()] == *k);
                        assert(ks.to_set().contains(*k));
                        assert(t.drop_last() =~= ks.take(it.index()));
                        assert(t.last() == *k);
                    }
                    match total.checked_add(c) {
                        Some(t) => {
                            total = t;
                        },
                        None => {
                            proof {
                                lemma_keys_total_prefix(dv, ks, it.index() + 1);
                                lemma_keys_total(dv, ks);
                            }
                            return None;
                        },
                    }
                }
                proof {
                    assert(ks.take(ks.len() as int) =~= ks);
                    lemma_keys_total(dv, ks);
                }
                Some(total)
            },
        }
    }

    /// Predicts the keys that follow the last key of the history: every key
    /// seen after it, weighted by how often, out of all transitions seen out
    /// of it; higher weight first, and among equal weights the smaller key
    /// first. Nothing is predicted for an empty history or an unseen key.
    pub fn predict_next(&self, history: &[BufferKey]) -> (res: Vec<Prediction>)
        requires
            history@.len() > 0 ==> outgoing_total(destinations(self@, history@.last().0))
                <= u32::MAX,
        ensures
            history@.len() == 0 || !self@.contains_key(history@.last().0) ==> res@.len() == 0,
            history@.len() > 0 && self@.contains_key(history@.last().0) ==> {
                let d = self@[history@.last().0];
                &&& maplib::ranked(prediction_pairs(res@))
                &&& prediction_pairs(res@).to_set() == frequency::scored(d)
                &&& res@.len() == d.dom().len()
                &&& forall|i: int|
                    0 <= i < res@.len() ==> (#[trigger] res@[i]).total == crate::tracker::capped(
                        if outgoing_total(d) < 1 {
                            1
                        } else {
                            outgoing_total(d)
                        },
                    )
            },
            forall|i: int|
                0 <= i < res@.len() ==> 0 < (#[trigger] res@[i]).weight && res@[i].weight
                    <= res@[i].total,
    {
        proof {
            use_type_invariant(self);
        }
        let mut res: Vec<Prediction> = Vec::new();
        if history.len() == 0 {
            return res;
        }
        let last = history[history.len() - 1];
        proof {
            assert(history@.last() == last);
        }
        match self.transitions.get(&last.0) {
            None => res,
            Some(d) => {
                let t = self.outgoing_total(last).unwrap();
                let total = saturating_count(
                    if t < 1 {
                        1
                    } else {
                        t as u64
                    },
                );
                let pairs = ranked_counts(d);
                proof {
                    let dv = d@;
                    assert(dv == self@[last.0]);
                    assert(frequency::counts_positive(dv));
                    assert forall|j: int| 0 <= j < pairs@.len() implies (#[trigger] pairs@[j]).1
                        <= total by {
                        assert(pairs@.to_set().contains(pairs@[j]));
                        let k = pairs@[j].0;
                        assert(dv.contains_key(k));
                        lemma_count_within_total(dv, k);
                    }
                }
                let mut i: usize = 0;
                while i < pairs.len()
                    invariant
                        i <= pairs@.len(),
                        res@.len() == i,
                        forall|j: int| 0 <= j < pairs@.len() ==> (#[trigger] pairs@[j]).1 <= u16::MAX,
                        forall|j: int| 0 <= j < pairs@.len() ==> (#[trigger] pairs@[j]).1 <= total,
                        forall|j: int| 0 <= j < pairs@.len() ==> (#[trigger] pairs@[j]).1 >= 1,
                        0 < total,
                        forall|j: int|
                            0 <= j < i ==> (#[trigger] res@[j]).key.0 == pairs@[j].0
                                && res@[j].weight as u64 == pairs@[j].1 && res@[j].total == total,
                    decreases pairs@.len() - i,
                {
                    let (k, w) = pairs[i];
                    res.push(Prediction { key: BufferKey(k), weight: w as u16, total });
                    i = i + 1;
                }
                proof {
                    assert(prediction_pairs(res@) =~= pairs@);
                }
                res
            },
        }
    }
}

impl Clone for MarkovPredictor {
    fn clone(&self) -> (res: MarkovPredictor)
        ensures
            res@ == self@,
    {
        proof {
            use_type_invariant(self);
        }
        let res = MarkovPredictor { transitions: self.transitions.clone() };
        proof {
            assert(res@ =~= self@);
        }
        res
    }
}

impl Default for MarkovPredictor {
    fn default() -> (res: MarkovPredictor)
        ensures
            res@ == Map::<u64, Map<u64, u32>>::empty(),
    {
        MarkovPredictor::new()
    }
}

} // verus!
