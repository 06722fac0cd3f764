use crate::tracker::saturating_score;
use crate::types::BufferKey;
use std::collections::VecDeque;
use vstd::prelude::*;

verus! {

/// Keeps the keys other than `key`.
pub open spec fn other_than(key: u64) -> spec_fn(u64) -> bool {
    |x: u64| x != key
}

/// The order after accessing `key`: any earlier place of it dropped, then
/// `key` appended as the most recent.
pub open spec fn touched(order: Seq<u64>, key: u64) -> Seq<u64> {
    order.filter(other_than(key)).push(key)
}

/// The recency score of `key`: its place counted from one at the least
/// recent, capped at the largest 16-bit value; zero when never accessed.
pub open spec fn recency_score(order: Seq<u64>, key: u64) -> u16 {
    if order.contains(key) {
        super::capped((choose|i: int| 0 <= i < order.len() && order[i] == key) as nat + 1)
    } else {
        0
    }
}

/// Dropping a key that does not occur changes nothing.
pub proof fn lemma_filter_absent(s: Seq<u64>, key: u64)
    requires
        !s.contains(key),
    ensures
        s.filter(other_than(key)) == s,
    decreases s.len(),
{
    reveal(Seq::filter);
    if s.len() > 0 {
        assert(!s.drop_last().contains(key)) by {
            if s.drop_last().contains(key) {
                let j = choose|j: int| 0 <= j < s.drop_last().len() && s.drop_last()[j] == key;
                assert(s[j] == key);
            }
        }
        lemma_filter_absent(s.drop_last(), key);
        assert(s.last() != key) by {
            assert(s[s.len() - 1] == s.last());
        }
        assert(s.drop_last().push(s.last()) =~= s);
    }
}

/// Dropping a key that occurs once removes exactly that place.
pub proof fn lemma_filter_once(s: Seq<u64>, key: u64, i: int)
    requires
        0 <= i < s.len(),
        s[i] == key,
        s.no_duplicates(),
    ensures
        s.filter(other_than(key)) == s.remove(i),
{
    let a = s.subrange(0, i);
    let b = s.subrange(i + 1, s.len() as int);
    assert(s =~= a + seq![key] + b);
    assert(!a.contains(key)) by {
        if a.contains(key) {
            let j = choose|j: int| 0 <= j < a.len() && a[j] == key;
            assert(s[j] == key);
        }
    }
    assert(!b.contains(key)) by {
        if b.contains(key) {
            let j = choose|j: int| 0 <= j < b.len() && b[j] == key;
            assert(s[i + 1 + j] == key);
        }
    }
    lemma_filter_absent(a, key);
    lemma_filter_absent(b, key);
    Seq::filter_distributes_over_add(a + seq![key], b, other_than(key));
    Seq::filter_distributes_over_add(a, seq![key], other_than(key));
    assert(seq![key].filter(other_than(key)) =~= Seq::<u64>::empty()) by {
        reveal(Seq::filter);
        let e = seq![key];
        assert(e.drop_last() =~= Seq::<u64>::empty());
        assert(Seq::<u64>::empty().filter(other_than(key)) =~= Seq::<u64>::empty());
        assert(e.last() == key);
        assert(!(other_than(key))(key));
    }
    assert(a + seq![key] + b =~= (a + seq![key]) + b);
    assert(s.remove(i) =~= a + b);
}

/// Dropping a key from an order without repeats leaves an order without
/// repeats and without the key, one shorter exactly when the key was there.
pub proof fn lemma_filter_facts(s: Seq<u64>, key: u64)
    requires
        s.no_duplicates(),
    ensures
        s.filter(other_than(key)).no_duplicates(),
        !s.filter(other_than(key)).contains(key),
        s.filter(other_than(key)).len() == if s.contains(key) {
            s.len() - 1
        } else {
            s.len() as int
        },
{
    if s.contains(key) {
        let i = choose|i: int| 0 <= i < s.len() && s[i] == key;
        lemma_filter_once(s, key, i);
        let r = s.remove(i);
        assert forall|a: int, b: int| 0 <= a < b < r.len() implies r[a] != r[b] by {
            let a0 = if a < i { a } else { a + 1 };
            let b0 = if b < i { b } else { b + 1 };
            assert(r[a] == s[a0] && r[b] == s[b0]);
        }
        if r.contains(key) {
            let j = choose|j: int| 0 <= j < r.len() && r[j] == key;
            if j < i {
                assert(s[j] == key);
            } else {
                assert(s[j + 1] == key);
            }
        }
    } else {
        lemma_filter_absent(s, key);
    }
}

/// The plain form of a ranking: key identifier and score.
pub open spec fn ranking_pairs(r: Seq<(BufferKey, u16)>) -> Seq<(u64, u64)> {
    r.map_values(|p: (BufferKey, u16)| (p.0.0, p.1 as u64))
}

/// Makes `key` the most recent entry of an order without repeats.
fn touch(order: &mut VecDeque<u64>, key: u64)
    requires
        old(order)@.no_duplicates(),
    ensures
        final(order)@.no_duplicates(),
        final(order)@ == touched(old(order)@, key),
{
    let n = order.len();
    let mut i: usize = 0;
    while i < n && order[i] != key
        invariant
            n == order@.len(),
            i <= n,
            forall|j: int| 0 <= j < i ==> order@[j] != key,
        decreases n - i,
    {
        i = i + 1;
    }
    let ghost before = order@;
    if i < n {
        proof {
            lemma_filter_once(before, key, i as int);
        }
        let _removed = order.remove(i);
    } else {
        proof {
            assert(!before.contains(key));
            lemma_filter_absent(before, key);
        }
    }
    let ghost middle = order@;
    order.push_back(key);
    proof {
        assert(middle =~= before.filter(other_than(key)));
        assert(!middle.contains(key)) by {
            if middle.contains(key) {
                let j = choose|j: int| 0 <= j < middle.len() && middle[j] == key;
                if i < n {
                    if j < i {
                        assert(before[j] == key);
                    } else {
                        assert(before[j + 1] == key);
                    }
                } else {
                    assert(before[j] == key);
                }
            }
        }
        assert(middle.no_duplicates()) by {
            if i < n {
                assert forall|a: int, b: int| 0 <= a < b < middle.len() implies middle[a]
                    != middle[b] by {
                    let a0 = if a < i {
                        a
                    } else {
                        a + 1
                    };
                    let b0 = if b < i {
                        b
                    } else {
                        b + 1
                    };
                    assert(middle[a] == before[a0]);
                    assert(middle[b] == before[b0]);
                }
            }
        }
    }
}

/// Least-recently-used tracker backed by a deque.
#[derive(Debug)]
pub struct RecencyTracker {
    order: VecDeque<u64>,
}

impl View for RecencyTracker {
    type V = Seq<u64>;

    closed spec fn view(&self) -> Seq<u64> {
        self.order@
    }
}

impl RecencyTracker {
    /// No key appears twice in the order; every tracker is.
    #[verifier::type_invariant]
    pub open spec fn well_formed(&self) -> bool {
        self@.no_duplicates()
    }

    /// Creates an empty recency tracker.
    pub fn new() -> (res: RecencyTracker)
        ensures
            res@ == Seq::<u64>::empty(),
            res.well_formed(),
    {
        RecencyTracker { order: VecDeque::new() }
    }

    /// Returns keys from least recent to most recent.
    pub fn lru_order(&self) -> (res: Vec<BufferKey>)
        ensures
            crate::types::key_ids(res@) == self@,
    {
        let mut res: Vec<BufferKey> = Vec::new();
        let mut i: usize = 0;
        while i < self.order.len()
            invariant
                i <= self.order@.len(),
                res@.len() == i,
                forall|j: int| 0 <= j < i ==> (#[trigger] res@[j]).0 == self.order@[j],
            decreases self.order@.len() - i,
        {
            res.push(BufferKey(self.order[i]));
            i = i + 1;
        }
        proof {
            assert(crate::types::key_ids(res@) =~= self@);
        }
        res
    }

    /// Records one access: the key becomes the most recent, appearing once.
    pub fn record_access(&mut self, key: BufferKey)
        ensures
            final(self).well_formed(),
            final(self)@ == touched(old(self)@, key.0),
    {
        proof {
            use_type_invariant(&*self);
        }
        let mut order: VecDeque<u64> = VecDeque::new();
        std::mem::swap(&mut order, &mut self.order);
        touch(&mut order, key.0);
        self.order = order;
    }

    /// Returns the recency score of a key: its place counted from one at the
    /// least recent, or zero when never accessed.
    pub fn score(&self, key: BufferKey) -> (res: u16)
        ensures
            self.well_formed(),
            res == recency_score(self@, key.0),
    {
        proof {
            use_type_invariant(self);
        }
        let n = self.order.len();
        let mut i: usize = 0;
        while i < n
            invariant
                n == self.order@.len(),
                i <= n,
                self@.no_duplicates(),
                forall|j: int| 0 <= j < i ==> self.order@[j] != key.0,
            decreases n - i,
        {
            if self.order[i] == key.0 {
                proof {
                    assert(self@.contains(key.0));
                    let c = choose|c: int| 0 <= c < self@.len() && self@[c] == key.0;
                    assert(c == i);
                }
                return saturating_score(i as u64 + 1);
            }
            i = i + 1;
        }
        proof {
            assert(!self@.contains(key.0));
        }
        0
    }

    /// Returns keys from most recent to least recent, each with its recency score.
    pub fn ranked(&self) -> (res: Vec<(BufferKey, u16)>)
        ensures
            res@.len() == self@.len(),
            forall|j: int|
                0 <= j < res@.len() ==> (#[trigger] res@[j]).0.0 == self@[self@.len() - 1 - j]
                    && res@[j].1 == super::capped((self@.len() - j) as nat),
    {
        let n = self.order.len();
        let mut res: Vec<(BufferKey, u16)> = Vec::new();
        let mut j: usize = 0;
        while j < n
            invariant
                n == self.order@.len(),
                j <= n,
                res@.len() == j,
                forall|k: int|
                    0 <= k < j ==> (#[trigger] res@[k]).0.0 == self.order@[n - 1 - k] && res@[k].1
                        == super::capped((n - k) as nat),
            decreases n - j,
        {
            res.push((BufferKey(self.order[n - 1 - j]), saturating_score((n - j) as u64)));
            j = j + 1;
        }
        res
    }
}

impl Clone for RecencyTracker {
    fn clone(&self) -> (res: RecencyTracker)
        ensures
            res@ == self@,
    {
        proof {
            use_type_invariant(self);
        }
        let order = self.order.clone();
        proof {
            assert forall|i: int| 0 <= i < order@.len() implies order@[i] == self.order@[i] by {
                assert(cloned::<u64>(self.order@[i], order@[i]));
            }
            assert(order@ =~= self.order@);
        }
        RecencyTracker { order }
    }
}

impl Default for RecencyTracker {
    fn default() -> (res: RecencyTracker)
        ensures
            res@ == Seq::<u64>::empty(),
            res.well_formed(),
    {
        RecencyTracker::new()
    }
}

} // verus!
