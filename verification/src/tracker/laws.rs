use crate::tracker::frequency::{bumped, count_of};
use crate::tracker::recency::{other_than, recency_score, touched};
use vstd::prelude::*;

verus! {

/// Recording an access raises that key's count by one, saturating, and
/// leaves every other key's count unchanged.
pub proof fn law_frequency_record(counts: Map<u64, u32>, key: u64, other: u64)
    requires
        other != key,
    ensures
        count_of(counts.insert(key, bumped(count_of(counts, key))), key) == bumped(
            count_of(counts, key),
        ),
        count_of(counts.insert(key, bumped(count_of(counts, key))), other) == count_of(
            counts,
            other,
        ),
        count_of(counts, key) < u32::MAX ==> count_of(
            counts.insert(key, bumped(count_of(counts, key))),
            key,
        ) == count_of(counts, key) + 1,
{
}

/// After an access the key is the most recent, appears exactly once, the
/// other keys keep their relative order, and no key scores above it.
pub proof fn law_recency_touch(order: Seq<u64>, key: u64)
    requires
        order.no_duplicates(),
    ensures
        touched(order, key).no_duplicates(),
        touched(order, key).last() == key,
        touched(order, key).drop_last() == order.filter(other_than(key)),
        touched(order, key).len() == if order.contains(key) {
            order.len()
        } else {
            order.len() + 1
        },
        recency_score(touched(order, key), key) == super::capped(touched(order, key).len()),
        forall|k: u64| #[trigger]
            recency_score(touched(order, key), k) <= recency_score(touched(order, key), key),
        forall|k: u64|
            k != key && touched(order, key).contains(k) && touched(order, key).len() <= u16::MAX
                ==> #[trigger] recency_score(touched(order, key), k) < recency_score(
                touched(order, key),
                key,
            ),
{
    let f = order.filter(other_than(key));
    let t = touched(order, key);
    crate::tracker::recency::lemma_filter_facts(order, key);
    assert(t.drop_last() =~= f);
    assert(t[t.len() - 1] == key);
    assert(t.no_duplicates()) by {
        assert forall|a: int, b: int| 0 <= a < b < t.len() implies t[a] != t[b] by {
            if b == t.len() - 1 {
                assert(f.contains(f[a]));
            } else {
                assert(t[a] == f[a] && t[b] == f[b]);
            }
        }
    }
    assert(t.contains(key));
    let c = choose|c: int| 0 <= c < t.len() && t[c] == key;
    assert(c == t.len() - 1);
    assert forall|k: u64| #[trigger]
        recency_score(t, k) <= recency_score(t, key) by {
        if t.contains(k) {
            let ck = choose|ck: int| 0 <= ck < t.len() && t[ck] == k;
            assert(ck <= t.len() - 1);
        }
    }
    assert forall|k: u64|
        k != key && t.contains(k) && t.len() <= u16::MAX implies #[trigger] recency_score(t, k)
        < recency_score(t, key) by {
        let ck = choose|ck: int| 0 <= ck < t.len() && t[ck] == k;
        assert(ck != t.len() - 1);
    }
}

} // verus!
