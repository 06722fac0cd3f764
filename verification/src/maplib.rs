use vstd::prelude::*;

verus! {

/// Sum of `f` over the values of a finite map keyed by integers.
pub open spec fn map_total<V>(m: Map<u64, V>, f: spec_fn(V) -> nat) -> nat
    decreases m.dom().len(),
{
    if m.dom().finite() && m.dom().len() > 0 {
        let k = m.dom().choose();
        f(m[k]) + map_total(m.remove(k), f)
    } else {
        0
    }
}

/// Taking one entry out of a finite map takes its value's share out of the total.
pub proof fn lemma_map_total_remove<V>(m: Map<u64, V>, f: spec_fn(V) -> nat, k: u64)
    requires
        m.dom().finite(),
        m.contains_key(k),
    ensures
        map_total(m, f) == f(m[k]) + map_total(m.remove(k), f),
    decreases m.dom().len(),
{
    let c = m.dom().choose();
    if c != k {
        lemma_map_total_remove(m.remove(c), f, k);
        lemma_map_total_remove(m.remove(k), f, c);
        assert(m.remove(c).remove(k) =~= m.remove(k).remove(c));
    }
}

/// Adding a fresh entry to a finite map adds its value's share to the total.
pub proof fn lemma_map_total_insert<V>(m: Map<u64, V>, f: spec_fn(V) -> nat, k: u64, v: V)
    requires
        m.dom().finite(),
        !m.contains_key(k),
    ensures
        map_total(m.insert(k, v), f) == f(v) + map_total(m, f),
{
    lemma_map_total_remove(m.insert(k, v), f, k);
    assert(m.insert(k, v).remove(k) =~= m);
}


/// A sequence of keys in strictly increasing order.
pub open spec fn ascending(s: Seq<u64>) -> bool {
    forall|i: int, j: int| 0 <= i < j < s.len() ==> s[i] < s[j]
}

/// Ranking order: a higher score comes first, and among equal scores the smaller key.
pub open spec fn ranks_before(a: (u64, u64), b: (u64, u64)) -> bool {
    a.1 > b.1 || (a.1 == b.1 && a.0 < b.0)
}

/// A sequence of (key, score) pairs in strict ranking order.
pub open spec fn ranked(s: Seq<(u64, u64)>) -> bool {
    forall|i: int, j: int| 0 <= i < j < s.len() ==> ranks_before(s[i], s[j])
}

/// Inserts a fresh key into an ascending vector at its place.
fn insert_ascending(v: &mut Vec<u64>, x: u64)
    requires
        ascending(old(v)@),
        !old(v)@.contains(x),
    ensures
        ascending(final(v)@),
        final(v)@.to_set() == old(v)@.to_set().insert(x),
        final(v)@.len() == old(v)@.len() + 1,
{
    let mut i: usize = 0;
    while i < v.len() && v[i] < x
        invariant
            i <= v.len(),
            forall|j: int| 0 <= j < i ==> v@[j] < x,
        decreases v.len() - i,
    {
        i = i + 1;
    }
    let ghost before = v@;
    v.insert(i, x);
    proof {
        before.insert_ensures(i as int, x);
        assert forall|a: int, b: int| 0 <= a < b < v@.len() implies v@[a] < v@[b] by {
            if b < i {
            } else if a < i && b == i {
            } else if a < i && b > i {
                assert(v@[b] == before[b - 1]);
            } else if a == i {
                assert(v@[b] == before[b - 1]);
                assert(before[i as int] != x);
            } else {
                assert(v@[a] == before[a - 1]);
                assert(v@[b] == before[b - 1]);
            }
        }
        assert forall|y: u64| v@.contains(y) <==> before.contains(y) || y == x by {
            if v@.contains(y) {
                let k = choose|k: int| 0 <= k < v@.len() && v@[k] == y;
                if k < i {
                    assert(before[k] == y);
                } else if k > i {
                    assert(before[k - 1] == y);
                }
            }
            if before.contains(y) {
                let k = choose|k: int| 0 <= k < before.len() && before[k] == y;
                if k < i {
                    assert(v@[k] == y);
                } else {
                    assert(v@[k + 1] == y);
                }
            }
            if y == x {
                assert(v@[i as int] == x);
            }
        }
        assert(v@.to_set() =~= before.to_set().insert(x));
    }
}

/// Sorts distinct keys into ascending order.
pub fn sort_ascending(items: &Vec<u64>) -> (res: Vec<u64>)
    requires
        items@.no_duplicates(),
    ensures
        ascending(res@),
        res@.to_set() == items@.to_set(),
        res@.len() == items@.len(),
{
    let mut res: Vec<u64> = Vec::new();
    let mut i: usize = 0;
    while i < items.len()
        invariant
            i <= items.len(),
            items@.no_duplicates(),
            ascending(res@),
            res@.to_set() == items@.take(i as int).to_set(),
            res@.len() == i,
        decreases items.len() - i,
    {
        proof {
            if res@.contains(items@[i as int]) {
                assert(res@.to_set().contains(items@[i as int]));
                let k = choose|k: int| 0 <= k < i && items@.take(i as int)[k] == items@[i as int];
                assert(items@[k] == items@[i as int]);
            }
        }
        insert_ascending(&mut res, items[i]);
        proof {
            assert(items@.take(i + 1) =~= items@.take(i as int).push(items@[i as int]));
            items@.take(i as int).lemma_push_to_set_commute(items@[i as int]);
        }
        i = i + 1;
    }
    proof {
        assert(items@.take(i as int) =~= items@);
    }
    res
}

/// Inserts a fresh (key, score) pair into a ranked vector at its place.
fn insert_ranked(v: &mut Vec<(u64, u64)>, x: (u64, u64))
    requires
        ranked(old(v)@),
        !old(v)@.contains(x),
    ensures
        ranked(final(v)@),
        final(v)@.to_set() == old(v)@.to_set().insert(x),
        final(v)@.len() == old(v)@.len() + 1,
{
    let mut i: usize = 0;
    while i < v.len() && (v[i].1 > x.1 || (v[i].1 == x.1 && v[i].0 < x.0))
        invariant
            i <= v.len(),
            forall|j: int| 0 <= j < i ==> ranks_before(#[trigger] v@[j], x),
        decreases v.len() - i,
    {
        i = i + 1;
    }
    let ghost before = v@;
    v.insert(i, x);
    proof {
        before.insert_ensures(i as int, x);
        assert forall|a: int, b: int| 0 <= a < b < v@.len() implies ranks_before(v@[a], v@[b]) by {
            if b < i {
            } else if a < i && b == i {
            } else if a < i && b > i {
                assert(v@[b] == before[b - 1]);
            } else if a == i {
                assert(v@[b] == before[b - 1]);
                assert(before[i as int] != x);
                assert(before[i as int].0 != x.0 || before[i as int].1 != x.1);
                assert(ranks_before(x, before[i as int]));
                if b - 1 > i {
                    assert(ranks_before(before[i as int], before[b - 1]));
                }
            } else {
                assert(v@[a] == before[a - 1]);
                assert(v@[b] == before[b - 1]);
            }
        }
        assert forall|y: (u64, u64)| v@.contains(y) <==> before.contains(y) || y == x by {
            if v@.contains(y) {
                let k = choose|k: int| 0 <= k < v@.len() && v@[k] == y;
                if k < i {
                    assert(before[k] == y);
                } else if k > i {
                    assert(before[k - 1] == y);
                }
            }
            if before.contains(y) {
                let k = choose|k: int| 0 <= k < before.len() && before[k] == y;
                if k < i {
                    assert(v@[k] == y);
                } else {
                    assert(v@[k + 1] == y);
                }
            }
            if y == x {
                assert(v@[i as int] == x);
            }
        }
        assert(v@.to_set() =~= before.to_set().insert(x));
    }
}

/// Sorts distinct (key, score) pairs into ranking order.
pub fn sort_ranked(items: &Vec<(u64, u64)>) -> (res: Vec<(u64, u64)>)
    requires
        items@.no_duplicates(),
    ensures
        ranked(res@),
        res@.to_set() == items@.to_set(),
        res@.len() == items@.len(),
{
    let mut res: Vec<(u64, u64)> = Vec::new();
    let mut i: usize = 0;
    while i < items.len()
        invariant
            i <= items.len(),
            items@.no_duplicates(),
            ranked(res@),
            res@.to_set() == items@.take(i as int).to_set(),
            res@.len() == i,
        decreases items.len() - i,
    {
        proof {
            if res@.contains(items@[i as int]) {
                assert(res@.to_set().contains(items@[i as int]));
                let k = choose|k: int| 0 <= k < i && items@.take(i as int)[k] == items@[i as int];
                assert(items@[k] == items@[i as int]);
            }
        }
        insert_ranked(&mut res, items[i]);
        proof {
            assert(items@.take(i + 1) =~= items@.take(i as int).push(items@[i as int]));
            items@.take(i as int).lemma_push_to_set_commute(items@[i as int]);
        }
        i = i + 1;
    }
    proof {
        assert(items@.take(i as int) =~= items@);
    }
    res
}


/// A sequence a `BTreeMap` reports as increasing is ascending.
pub proof fn lemma_increasing_keys(w: Seq<u64>)
    requires
        vstd::std_specs::btree::increasing_seq(w),
    ensures
        ascending(w),
{
    broadcast use vstd::laws_cmp::group_laws_cmp;
    broadcast use vstd::std_specs::btree::group_btree_axioms;

    assert forall|i: int, j: int| 0 <= i < j < w.len() implies w[i] < w[j] by {
        assert(vstd::std_specs::cmp::OrdSpec::cmp_spec(&w[i], &w[j]) is Less);
    }
}

/// Integer keys obey the ordering laws ordered maps rely on.
pub proof fn lemma_u64_ordered()
    ensures
        vstd::laws_cmp::obeys_cmp::<u64>(),
{
    broadcast use vstd::laws_cmp::group_laws_cmp;

}

/// Two ascending sequences of the same keys are equal.
pub proof fn lemma_ascending_unique(a: Seq<u64>, b: Seq<u64>)
    requires
        ascending(a),
        ascending(b),
        a.to_set() == b.to_set(),
    ensures
        a == b,
    decreases a.len(),
{
    if a.len() == 0 {
        if b.len() > 0 {
            assert(b.to_set().contains(b[0]));
        }
        assert(a =~= b);
    } else {
        assert(a.to_set().contains(a[0]));
        assert(b.len() > 0);
        assert(b.to_set().contains(b[0]));
        let i = choose|i: int| 0 <= i < a.len() && a[i] == b[0];
        let j = choose|j: int| 0 <= j < b.len() && b[j] == a[0];
        assert(a[0] == b[0]);
        let a1 = a.drop_first();
        let b1 = b.drop_first();
        assert forall|x: u64| a1.to_set().contains(x) <==> b1.to_set().contains(x) by {
            if a1.to_set().contains(x) {
                let k = choose|k: int| 0 <= k < a1.len() && a1[k] == x;
                assert(a[k + 1] == x);
                assert(a.to_set().contains(x));
                let m = choose|m: int| 0 <= m < b.len() && b[m] == x;
                assert(m != 0);
                assert(b1[m - 1] == x);
            }
            if b1.to_set().contains(x) {
                let k = choose|k: int| 0 <= k < b1.len() && b1[k] == x;
                assert(b[k + 1] == x);
                assert(b.to_set().contains(x));
                let m = choose|m: int| 0 <= m < a.len() && a[m] == x;
                assert(m != 0);
                assert(a1[m - 1] == x);
            }
        }
        assert(a1.to_set() =~= b1.to_set());
        lemma_ascending_unique(a1, b1);
        assert(a.len() == b.len());
        assert forall|k: int| 0 <= k < a.len() implies a[k] == b[k] by {
            if k > 0 {
                assert(a[k] == a1[k - 1]);
                assert(b[k] == b1[k - 1]);
            }
        }
        assert(a =~= b);
    }
}

/// The keys of a finite set in ascending order.
pub open spec fn ascending_keys(keys: Set<u64>) -> Seq<u64> {
    choose|s: Seq<u64>| ascending(s) && s.to_set() == keys
}

/// An ascending sequence of a set's keys is its ascending key order.
pub proof fn lemma_ascending_keys_is(s: Seq<u64>, keys: Set<u64>)
    requires
        ascending(s),
        s.to_set() == keys,
    ensures
        ascending_keys(keys) == s,
{
    let c = ascending_keys(keys);
    assert(ascending(c) && c.to_set() == keys);
    lemma_ascending_unique(c, s);
}


/// `x` put into its place in an ascending sequence.
pub open spec fn insert_sorted(t: Seq<u64>, x: u64) -> Seq<u64>
    decreases t.len(),
{
    if t.len() == 0 {
        seq![x]
    } else if x < t[0] {
        seq![x] + t
    } else {
        seq![t[0]] + insert_sorted(t.drop_first(), x)
    }
}

/// Putting a fresh key into its place keeps a sequence ascending and adds the key.
pub proof fn lemma_insert_sorted(t: Seq<u64>, x: u64)
    requires
        ascending(t),
        !t.contains(x),
    ensures
        ascending(insert_sorted(t, x)),
        insert_sorted(t, x).to_set() == t.to_set().insert(x),
        insert_sorted(t, x).len() > 0,
        insert_sorted(t, x)[0] == x || (t.len() > 0 && insert_sorted(t, x)[0] == t[0]),
    decreases t.len(),
{
    let r = insert_sorted(t, x);
    if t.len() == 0 {
        assert(r.to_set() =~= t.to_set().insert(x)) by {
            assert(r[0] == x);
        }
    } else if x < t[0] {
        assert forall|y: u64| r.to_set().contains(y) <==> t.to_set().insert(x).contains(y) by {
            if r.contains(y) {
                let k = choose|k: int| 0 <= k < r.len() && r[k] == y;
                if k > 0 {
                    assert(t[k - 1] == y);
                }
            }
            if t.contains(y) {
                let k = choose|k: int| 0 <= k < t.len() && t[k] == y;
                assert(r[k + 1] == y);
            }
            if y == x {
                assert(r[0] == x);
            }
        }
        assert(r.to_set() =~= t.to_set().insert(x));
    } else {
        let t1 = t.drop_first();
        assert(x != t[0]);
        assert(!t1.contains(x)) by {
            if t1.contains(x) {
                let k = choose|k: int| 0 <= k < t1.len() && t1[k] == x;
                assert(t[k + 1] == x);
            }
        }
        lemma_insert_sorted(t1, x);
        let r1 = insert_sorted(t1, x);
        assert(r =~= seq![t[0]] + r1);
        assert forall|a: int, b: int| 0 <= a < b < r.len() implies r[a] < r[b] by {
            if a == 0 {
                assert(r1.to_set().contains(r1[b - 1]));
                if r1[b - 1] == x {
                } else {
                    assert(t1.to_set().contains(r1[b - 1]));
                    let k = choose|k: int| 0 <= k < t1.len() && t1[k] == r1[b - 1];
                    assert(t[k + 1] == r1[b - 1]);
                }
            } else {
                assert(r[a] == r1[a - 1]);
                assert(r[b] == r1[b - 1]);
            }
        }
        assert forall|y: u64| r.to_set().contains(y) <==> t.to_set().insert(x).contains(y) by {
            if r.contains(y) {
                let k = choose|k: int| 0 <= k < r.len() && r[k] == y;
                if k == 0 {
                    assert(t[0] == y);
                    assert(t.contains(y));
                }
                if k > 0 {
                    assert(r1[k - 1] == y);
                    assert(r1.to_set().contains(y));
                    if y != x {
                        assert(t1.to_set().contains(y));
                        let m = choose|m: int| 0 <= m < t1.len() && t1[m] == y;
                        assert(t[m + 1] == y);
                    }
                }
            }
            if t.contains(y) {
                let k = choose|k: int| 0 <= k < t.len() && t[k] == y;
                if k == 0 {
                    assert(r[0] == y);
                }
                if k > 0 {
                    assert(t1[k - 1] == y);
                    assert(t1.to_set().contains(y));
                    assert(r1.to_set().contains(y));
                    let m = choose|m: int| 0 <= m < r1.len() && r1[m] == y;
                    assert(r[m + 1] == y);
                }
            }
            if y == x {
                assert(r1.to_set().contains(x));
                let m = choose|m: int| 0 <= m < r1.len() && r1[m] == x;
                assert(r[m + 1] == x);
            }
        }
        assert(r.to_set() =~= t.to_set().insert(x));
    }
}

/// The keys of a finite set sorted by repeated insertion.
pub open spec fn sorted_keys(keys: Set<u64>) -> Seq<u64>
    decreases keys.len(),
{
    if keys.finite() && keys.len() > 0 {
        let x = keys.choose();
        insert_sorted(sorted_keys(keys.remove(x)), x)
    } else {
        Seq::empty()
    }
}

/// Every finite set of keys has an ascending order, which is its ascending key order.
pub proof fn lemma_ascending_keys_exist(keys: Set<u64>)
    requires
        keys.finite(),
    ensures
        ascending(ascending_keys(keys)),
        ascending_keys(keys).to_set() == keys,
    decreases keys.len(),
{
    let s = sorted_keys(keys);
    if keys.len() > 0 {
        let x = keys.choose();
        lemma_ascending_keys_exist(keys.remove(x));
        let t = sorted_keys(keys.remove(x));
        lemma_ascending_keys_is(ascending_keys(keys.remove(x)), keys.remove(x));
        assert(ascending(t) && t.to_set() == keys.remove(x)) by {
            lemma_sorted_keys(keys.remove(x));
        }
        assert(!t.contains(x)) by {
            if t.contains(x) {
                assert(t.to_set().contains(x));
            }
        }
        lemma_insert_sorted(t, x);
        assert(s.to_set() =~= keys);
        lemma_ascending_keys_is(s, keys);
    } else {
        assert(s.to_set() =~= keys);
        lemma_ascending_keys_is(s, keys);
    }
}

/// Sorting by repeated insertion gives an ascending order of exactly the keys.
pub proof fn lemma_sorted_keys(keys: Set<u64>)
    requires
        keys.finite(),
    ensures
        ascending(sorted_keys(keys)),
        sorted_keys(keys).to_set() == keys,
    decreases keys.len(),
{
    let s = sorted_keys(keys);
    if keys.len() > 0 {
        let x = keys.choose();
        lemma_sorted_keys(keys.remove(x));
        let t = sorted_keys(keys.remove(x));
        assert(!t.contains(x)) by {
            if t.contains(x) {
                assert(t.to_set().contains(x));
            }
        }
        lemma_insert_sorted(t, x);
        assert(s.to_set() =~= keys);
    } else {
        assert(s.to_set() =~= keys);
    }
}

} // verus!
