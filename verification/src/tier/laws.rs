use crate::maplib;
use crate::tier::model::{self, TiersView};
use crate::tier::store::{self, StoreView};
use crate::types::{BufferKey, TierError, TierLevel};
use vstd::prelude::*;

verus! {

/// A successful insert places the buffer in the reported tier, a read of the
/// key gives back exactly the inserted bytes, and no other key changes.
pub proof fn law_insert_then_read(s: TiersView, key: u64, data: Seq<u8>)
    requires
        s.well_formed(),
        s.insert(key, data).1 is Ok,
    ensures
        s.insert(key, data).0.tier_of(key) == Some(s.insert(key, data).1->Ok_0),
        model::buffer_at(s.insert(key, data).0, key) == Some(data),
        forall|k: u64| k != key ==> #[trigger] model::buffer_at(s.insert(key, data).0, k)
            == model::buffer_at(s, k),
{
    let t = s.first_fit(data.len()).unwrap();
    model::lemma_insert_into(s, t, key, data);
}

/// An insert succeeds exactly when the key is new and some tier has the free
/// bytes for the buffer; it then picks the hottest such tier. A refused insert
/// changes nothing.
pub proof fn law_insert_outcome(s: TiersView, key: u64, data: Seq<u8>)
    requires
        s.well_formed(),
    ensures
        s.insert(key, data).1 is Ok <==> s.tier_of(key) is None && (data.len()
            <= s.vram.available() || data.len() <= s.host.available() || data.len()
            <= s.storage.available()),
        s.insert(key, data).1 is Ok ==> s.insert(key, data).1->Ok_0 == s.first_fit(data.len()).unwrap(),
        s.insert(key, data).1 is Err ==> s.insert(key, data).0 == s,
        s.tier_of(key) is Some ==> s.insert(key, data).1 == Err::<TierLevel, TierError>(
            TierError::DuplicateKey(BufferKey(key)),
        ),
{
    if s.tier_of(key) is None {
        if let Some(t) = s.first_fit(data.len()) {
            model::lemma_insert_into(s, t, key, data);
        }
    }
}

/// Evicting a freshly inserted buffer gives back its bytes and restores the
/// tiers exactly as they were before the insert.
pub proof fn law_insert_then_evict(s: TiersView, key: u64, data: Seq<u8>)
    requires
        s.well_formed(),
        s.insert(key, data).1 is Ok,
    ensures
        ({
            let r = s.insert(key, data).0;
            let t = r.tier_of(key).unwrap();
            &&& r.remove_from(t, key).1 == Ok::<Seq<u8>, TierError>(data)
            &&& r.remove_from(t, key).0 == s
        }),
{
    let t = s.first_fit(data.len()).unwrap();
    model::lemma_insert_into(s, t, key, data);
    let r = s.insert(key, data).0;
    crate::tier::store::lemma_store_insert_wf(s.store(t), key, data);
    crate::tier::store::lemma_store_remove_wf(r.store(t), key);
    assert(r.store(t).buffers.remove(key) =~= s.store(t).buffers);
    assert(r.remove_from(t, key).0.store(t) == s.store(t));
}

/// Eviction leaves the key in no tier and touches no other key.
pub proof fn law_evict_forgets(s: TiersView, key: u64)
    requires
        s.well_formed(),
        s.tier_of(key) is Some,
    ensures
        ({
            let r = s.remove_from(s.tier_of(key).unwrap(), key).0;
            &&& r.tier_of(key) is None
            &&& r.well_formed()
            &&& forall|k: u64| k != key ==> #[trigger] model::buffer_at(r, k) == model::buffer_at(s, k)
        }),
{
    let t = s.tier_of(key).unwrap();
    model::lemma_remove_from(s, t, key);
}

/// Promotion never alters a buffer's bytes nor invents a buffer; on success
/// the promoted buffer sits in the target tier with its bytes unchanged, and
/// a failed promotion leaves the tiers exactly as they were.
pub proof fn law_promote(s: TiersView, key: u64, target: TierLevel)
    requires
        s.well_formed(),
    ensures
        ({
            let (r, res) = s.promote(key, target);
            &&& r.well_formed()
            &&& model::keeps_data(s, r)
            &&& model::same_capacities(s, r)
            &&& res is Ok ==> r.tier_of(key) == Some(target) && model::buffer_at(r, key)
                == model::buffer_at(s, key) && model::buffer_at(s, key) is Some
            &&& res is Err ==> r == s
        }),
{
    lemma_promote_steps(s, key, target);
}

/// The steps of a promotion never alter or invent a buffer.
proof fn lemma_promote_steps(s: TiersView, key: u64, target: TierLevel)
    requires
        s.well_formed(),
    ensures
        ({
            let (r, res) = s.promote_steps(key, target);
            &&& r.well_formed()
            &&& model::keeps_data(s, r)
            &&& model::same_capacities(s, r)
            &&& res is Ok ==> r.tier_of(key) == Some(target) && model::buffer_at(r, key)
                == model::buffer_at(s, key) && model::buffer_at(s, key) is Some
        }),
{
    match s.tier_of(key) {
        None => {},
        Some(current) => {
            if current != target {
                model::lemma_remove_from(s, current, key);
                let (s1, taken) = s.remove_from(current, key);
                let data = s.store(current).buffers[key];
                assert(model::buffer_at(s1, key) is None);
                assert(model::buffer_at(s, key) == Some(data));
                if data.len() > s.store(target).capacity {
                    model::lemma_insert_into(s1, current, key, data);
                    crate::tier::store::lemma_store_remove_wf(s.store(current), key);
                    assert(s1.insert_into(current, key, data).0.store(current).buffers =~= s.store(
                        current,
                    ).buffers);
                    assert(s1.insert_into(current, key, data).0 == s);
                } else {
                    model::lemma_make_room(s1, target, data.len() as usize, Some(key));
                    let (s2, made) = s1.make_room(target, data.len() as usize, Some(key));
                    if model::buffer_at(s2, key) is Some {
                        assert(model::buffer_at(s2, key) == model::buffer_at(s1, key));
                    }
                    if made is Ok {
                        model::lemma_insert_into(s2, target, key, data);
                        let r = s2.insert_into(target, key, data).0;
                        assert forall|k: u64| #[trigger] model::buffer_at(r, k) is Some implies model::buffer_at(
                            r,
                            k,
                        ) == model::buffer_at(s, k) by {
                            if k != key {
                                assert(model::buffer_at(r, k) == model::buffer_at(s2, k));
                                assert(model::buffer_at(s2, k) == model::buffer_at(s1, k));
                            }
                        }
                    } else {
                        assert forall|k: u64| #[trigger] model::buffer_at(s2, k) is Some implies model::buffer_at(
                            s2,
                            k,
                        ) == model::buffer_at(s, k) by {
                            assert(model::buffer_at(s2, k) == model::buffer_at(s1, k));
                        }
                    }
                }
            }
        },
    }
}

/// Promoting a buffer larger than the whole target tier is refused and
/// changes nothing.
pub proof fn law_promote_oversized(s: TiersView, key: u64, target: TierLevel)
    requires
        s.well_formed(),
        s.tier_of(key) is Some,
        s.tier_of(key) != Some(target),
        model::buffer_at(s, key).unwrap().len() > s.store(target).capacity,
    ensures
        s.promote(key, target).0 == s,
        s.promote(key, target).1 == Err::<(), TierError>(
            TierError::CapacityExceeded {
                requested: model::buffer_at(s, key).unwrap().len() as usize,
                available: s.store(target).capacity,
            },
        ),
{
    law_promote(s, key, target);
    let current = s.tier_of(key).unwrap();
    model::lemma_remove_from(s, current, key);
    let s1 = s.remove_from(current, key).0;
    let data = s.store(current).buffers[key];
    model::lemma_insert_into(s1, current, key, data);
    crate::tier::store::lemma_store_remove_wf(s.store(current), key);
    assert(s1.insert_into(current, key, data).0.store(current).buffers =~= s.store(current).buffers);
}

/// Demotion moves a buffer exactly one tier colder with its bytes unchanged,
/// never alters or invents any buffer, and a failed demotion leaves the
/// tiers exactly as they were.
pub proof fn law_demote(s: TiersView, key: u64)
    requires
        s.well_formed(),
    ensures
        s.demoted(key).well_formed(),
        model::keeps_data(s, s.demoted(key)),
        model::same_capacities(s, s.demoted(key)),
        s.tier_of(key) is Some && s.tier_of(key) != Some(TierLevel::Storage) ==> {
            let t = s.tier_of(key).unwrap();
            let res = s.move_down(key, t).1;
            &&& res is Ok ==> s.demoted(key).tier_of(key) == t.spec_colder()
                && model::buffer_at(s.demoted(key), key) == model::buffer_at(s, key)
            &&& res is Err ==> s.demoted(key) == s
        },
{
    match s.tier_of(key) {
        None => {},
        Some(TierLevel::Storage) => {},
        Some(t) => {
            model::lemma_move_down(s, key, t);
        },
    }
}

/// Freeing room never alters or invents a buffer, never exceeds a capacity,
/// and on success leaves room for the request in that tier.
pub proof fn law_make_room(s: TiersView, tier: TierLevel, bytes: usize, protected: Option<u64>)
    requires
        s.well_formed(),
    ensures
        ({
            let (r, res) = s.make_room(tier, bytes, protected);
            &&& r.well_formed()
            &&& model::keeps_data(s, r)
            &&& res is Ok ==> r.store(tier).used + bytes <= r.store(tier).capacity
        }),
{
    model::lemma_make_room(s, tier, bytes, protected);
}

/// One call of a tier operation that changes the tiers.
pub enum TierCall {
    /// `insert` of a key with its bytes.
    Insert(u64, Seq<u8>),
    /// `promote` of a key into a tier.
    Promote(u64, TierLevel),
    /// `demote` of a key.
    Demote(u64),
    /// `evict` of a key.
    Evict(u64),
}

/// The tiers after one call, whatever the call returned.
pub open spec fn after_call(s: TiersView, c: TierCall) -> TiersView {
    match c {
        TierCall::Insert(k, d) => s.insert(k, d).0,
        TierCall::Promote(k, t) => s.promote(k, t).0,
        TierCall::Demote(k) => s.demoted(k),
        TierCall::Evict(k) => s.evicted(k),
    }
}

/// The tiers after a sequence of calls, applied in order.
pub open spec fn after_calls(s: TiersView, calls: Seq<TierCall>) -> TiersView
    decreases calls.len(),
{
    if calls.len() == 0 {
        s
    } else {
        after_call(after_calls(s, calls.drop_last()), calls.last())
    }
}

/// Whatever sequence of inserts, promotions, demotions and evictions is
/// applied, and whatever each returns, no key is held by two tiers, each
/// byte counter matches its buffers and stays within its capacity, and the
/// capacities never change.
pub proof fn law_calls_keep_invariant(s: TiersView, calls: Seq<TierCall>)
    requires
        s.well_formed(),
    ensures
        after_calls(s, calls).well_formed(),
        model::same_capacities(s, after_calls(s, calls)),
    decreases calls.len(),
{
    if calls.len() > 0 {
        law_calls_keep_invariant(s, calls.drop_last());
        let p = after_calls(s, calls.drop_last());
        match calls.last() {
            TierCall::Insert(k, d) => {
                if p.tier_of(k) is None {
                    if let Some(t) = p.first_fit(d.len()) {
                        model::lemma_insert_into(p, t, k, d);
                    }
                }
            },
            TierCall::Promote(k, t) => {
                law_promote(p, k, t);
            },
            TierCall::Demote(k) => {
                law_demote(p, k);
            },
            TierCall::Evict(k) => {
                if let Some(t) = p.tier_of(k) {
                    model::lemma_remove_from(p, t, k);
                }
            },
        }
    }
}

/// Making room stops as soon as the request fits: when the tier already has
/// the free bytes, the call succeeds and nothing moves.
pub proof fn law_make_room_fits(s: TiersView, tier: TierLevel, bytes: usize, protected: Option<u64>)
    requires
        s.well_formed(),
        s.store(tier).used + bytes <= s.store(tier).capacity,
    ensures
        s.make_room(tier, bytes, protected) == (s, Ok::<(), TierError>(())),
{
}

/// Promoting into a tier that already has room for the buffer moves that
/// buffer alone: it lands in the target with its bytes, and every other key
/// keeps its tier and its bytes.
pub proof fn law_promote_with_room(s: TiersView, key: u64, target: TierLevel)
    requires
        s.well_formed(),
        s.tier_of(key) is Some,
        s.tier_of(key) != Some(target),
        s.store(target).used + model::buffer_at(s, key).unwrap().len() <= s.store(target).capacity,
    ensures
        s.promote(key, target).1 is Ok,
        s.promote(key, target).0.tier_of(key) == Some(target),
        model::buffer_at(s.promote(key, target).0, key) == model::buffer_at(s, key),
        forall|k: u64|
            k != key ==> #[trigger] s.promote(key, target).0.tier_of(k) == s.tier_of(k)
                && model::buffer_at(s.promote(key, target).0, k) == model::buffer_at(s, k),
{
    let current = s.tier_of(key).unwrap();
    let data = s.store(current).buffers[key];
    model::lemma_remove_from(s, current, key);
    let s1 = s.remove_from(current, key).0;
    assert(s1.store(target) == s.store(target));
    assert(model::buffer_at(s, key) == Some(data));
    law_make_room_fits(s1, target, data.len() as usize, Some(key));
    assert(model::buffer_at(s1, key) is None);
    model::lemma_insert_into(s1, target, key, data);
    law_promote(s, key, target);
}

/// The smallest key of a finite store other than `protected` exists whenever
/// the store holds some other key.
proof fn lemma_has_victim(st: StoreView, protected: Option<u64>, k: u64)
    requires
        st.buffers.dom().finite(),
        st.buffers.contains_key(k),
        protected != Some(k),
    ensures
        model::has_victim(st, protected),
{
    let keys = st.buffers.dom();
    maplib::lemma_ascending_keys_exist(keys);
    let c = maplib::ascending_keys(keys);
    assert(c.contains(k)) by {
        assert(c.to_set().contains(k));
    }
    let m = choose|m: int| 0 <= m < c.len() && c[m] == k;
    let first = if protected == Some(c[0]) {
        1int
    } else {
        0int
    };
    if protected == Some(c[0]) {
        assert(m != 0);
    }
    assert(0 <= first < c.len());
    let v = c[first];
    assert(c.to_set().contains(v));
    assert forall|j: u64| #[trigger] st.buffers.contains_key(j) && protected != Some(j) implies v
        <= j by {
        assert(c.to_set().contains(j));
        let n = choose|n: int| 0 <= n < c.len() && c[n] == j;
        if n < first {
            assert(n == 0);
        }
        if first < n {
            assert(c[first] < c[n]);
        }
    }
    assert(model::is_victim(st, protected, v));
}

/// A store whose counter is positive holds some buffer.
proof fn lemma_used_has_key(st: StoreView) -> (k: u64)
    requires
        st.well_formed(),
        st.used > 0,
    ensures
        st.buffers.contains_key(k),
{
    if !(exists|k: u64| st.buffers.contains_key(k)) {
        assert(st.buffers.dom() =~= Set::<u64>::empty());
        assert(store::stored_bytes(st.buffers) == 0);
    }
    choose|k: u64| st.buffers.contains_key(k)
}

/// Storage can always free room for a request that fits its capacity, by
/// dropping its smallest keys.
proof fn lemma_room_storage_succeeds(s: TiersView, bytes: usize, protected: Option<u64>)
    requires
        s.well_formed(),
        bytes <= s.storage.capacity,
        protected is None || !s.storage.buffers.contains_key(protected->0),
    ensures
        s.make_room(TierLevel::Storage, bytes, protected).1 is Ok,
    decreases s.storage.buffers.dom().len(),
{
    let st = s.storage;
    if st.used + bytes > st.capacity {
        let k = lemma_used_has_key(st);
        lemma_has_victim(st, protected, k);
        let v = model::victim(st, protected);
        assert(model::is_victim(st, protected, v));
        model::lemma_remove_from(s, TierLevel::Storage, v);
        let s1 = s.remove_from(TierLevel::Storage, v).0;
        assert(s1.storage.buffers == st.buffers.remove(v));
        assert(s1.storage.buffers.dom().len() < st.buffers.dom().len());
        lemma_room_storage_succeeds(s1, bytes, protected);
        assert(s1 == (TiersView { storage: st.remove(v).0, ..s }));
    }
}

/// Storage takes a host buffer that fits its capacity.
proof fn lemma_move_host_succeeds(s: TiersView, key: u64)
    requires
        s.well_formed(),
        s.host.buffers.contains_key(key),
        s.host.buffers[key].len() <= s.storage.capacity,
    ensures
        s.move_down(key, TierLevel::Host).1 is Ok,
{
    let data = s.host.buffers[key];
    model::lemma_remove_from(s, TierLevel::Host, key);
    let s1 = s.remove_from(TierLevel::Host, key).0;
    assert(!s1.storage.buffers.contains_key(key));
    lemma_room_storage_succeeds(s1, data.len() as usize, Some(key));
    model::lemma_make_room(s1, TierLevel::Storage, data.len() as usize, Some(key));
    let s2 = s1.make_room(TierLevel::Storage, data.len() as usize, Some(key)).0;
    assert(!s2.storage.buffers.contains_key(key));
}

/// Host memory can free room for a request that fits its capacity when every
/// host buffer fits storage, by moving its smallest keys down.
proof fn lemma_room_host_succeeds(s: TiersView, bytes: usize, protected: Option<u64>)
    requires
        s.well_formed(),
        bytes <= s.host.capacity,
        protected is None || !s.host.buffers.contains_key(protected->0),
        forall|k: u64| #[trigger]
            s.host.buffers.contains_key(k) ==> s.host.buffers[k].len() <= s.storage.capacity,
    ensures
        s.make_room(TierLevel::Host, bytes, protected).1 is Ok,
    decreases s.host.buffers.dom().len(),
{
    let h = s.host;
    if h.used + bytes > h.capacity {
        let k = lemma_used_has_key(h);
        lemma_has_victim(h, protected, k);
        let v = model::victim(h, protected);
        assert(model::is_victim(h, protected, v));
        lemma_move_host_succeeds(s, v);
        model::lemma_move_down(s, v, TierLevel::Host);
        let s1 = s.move_down(v, TierLevel::Host).0;
        assert(s1.host == h.remove(v).0);
        assert(s1.host.buffers == h.buffers.remove(v));
        assert(s1.host.buffers.dom().len() < h.buffers.dom().len());
        lemma_room_host_succeeds(s1, bytes, protected);
    }
}

/// Demoting makes room below. A buffer leaving VRAM fits host memory whenever
/// it fits the host's capacity and every host buffer fits storage's capacity:
/// the host's smallest keys move down to storage, which drops its smallest
/// keys as needed. A buffer leaving host memory fits storage whenever it fits
/// storage's capacity. The demotion then succeeds and the buffer sits one
/// tier colder with its bytes unchanged.
pub proof fn law_demote_makes_room(s: TiersView, key: u64)
    requires
        s.well_formed(),
        s.tier_of(key) is Some,
        s.tier_of(key) != Some(TierLevel::Storage),
        model::buffer_at(s, key).unwrap().len() <= s.store(
            s.tier_of(key).unwrap().spec_colder().unwrap(),
        ).capacity,
        s.tier_of(key) == Some(TierLevel::Vram) ==> forall|k: u64| #[trigger]
            s.host.buffers.contains_key(k) ==> s.host.buffers[k].len() <= s.storage.capacity,
    ensures
        s.move_down(key, s.tier_of(key).unwrap()).1 is Ok,
        s.demoted(key).tier_of(key) == s.tier_of(key).unwrap().spec_colder(),
        model::buffer_at(s.demoted(key), key) == model::buffer_at(s, key),
{
    let t = s.tier_of(key).unwrap();
    if t == TierLevel::Vram {
        let data = s.vram.buffers[key];
        model::lemma_remove_from(s, TierLevel::Vram, key);
        let s1 = s.remove_from(TierLevel::Vram, key).0;
        assert(s1.host == s.host && s1.storage == s.storage);
        assert(!s1.host.buffers.contains_key(key));
        lemma_room_host_succeeds(s1, data.len() as usize, Some(key));
        model::lemma_make_room(s1, TierLevel::Host, data.len() as usize, Some(key));
        let s2 = s1.make_room(TierLevel::Host, data.len() as usize, Some(key)).0;
        assert(!s2.host.buffers.contains_key(key));
    } else {
        lemma_move_host_succeeds(s, key);
    }
    model::lemma_move_down(s, key, t);
    law_demote(s, key);
}

} // verus!
