use crate::tier::store::{self, StoreView};
use crate::types::{BufferKey, TierError, TierLevel};
use vstd::prelude::*;

verus! {

/// Abstract state of the three tiers.
pub struct TiersView {
    /// The VRAM store.
    pub vram: StoreView,
    /// The host memory store.
    pub host: StoreView,
    /// The storage store.
    pub storage: StoreView,
}

/// `k` is the buffer to move out of `s` first: the smallest key other than the protected one.
pub open spec fn is_victim(s: StoreView, protected: Option<u64>, k: u64) -> bool {
    &&& s.buffers.contains_key(k)
    &&& protected != Some(k)
    &&& forall|j: u64| #[trigger] s.buffers.contains_key(j) && protected != Some(j) ==> k <= j
}

/// Some buffer of `s` other than the protected one exists.
pub open spec fn has_victim(s: StoreView, protected: Option<u64>) -> bool {
    exists|k: u64| is_victim(s, protected, k)
}

/// The smallest key of `s` other than the protected one.
pub open spec fn victim(s: StoreView, protected: Option<u64>) -> u64 {
    choose|k: u64| is_victim(s, protected, k)
}

/// The error for a request that cannot fit a tier even when it is emptied.
pub open spec fn exceeds_capacity(s: StoreView, bytes: usize) -> TierError {
    TierError::CapacityExceeded { requested: bytes, available: s.capacity }
}

/// The error for a request that still does not fit after every movable buffer left.
pub open spec fn nothing_to_evict(s: StoreView, bytes: usize) -> TierError {
    TierError::CapacityExceeded { requested: bytes, available: (s.capacity - s.used) as usize }
}

/// Frees room for `bytes` in the storage tier by dropping its smallest keys.
pub open spec fn room_storage(st: StoreView, bytes: usize, protected: Option<u64>) -> (
    StoreView,
    Result<(), TierError>,
)
    decreases st.buffers.dom().len(),
{
    if bytes > st.capacity {
        (st, Err(exceeds_capacity(st, bytes)))
    } else if st.used + bytes <= st.capacity {
        (st, Ok(()))
    } else if !has_victim(st, protected) {
        (st, Err(nothing_to_evict(st, bytes)))
    } else if st.buffers.dom().finite() {
        let v = victim(st, protected);
        room_storage(st.remove(v).0, bytes, protected)
    } else {
        (st, Ok(()))
    }
}

/// Moves the buffer under `key` from host memory down to storage.
pub open spec fn move_host_storage(h: StoreView, st: StoreView, key: u64) -> (
    StoreView,
    StoreView,
    Result<(), TierError>,
) {
    let (h1, taken) = h.remove(key);
    match taken {
        Err(e) => (h1, st, Err(e)),
        Ok(data) => {
            let (st1, made) = room_storage(st, data.len() as usize, Some(key));
            match made {
                Err(e) => (h1, st1, Err(e)),
                Ok(_) => {
                    let (st2, put) = st1.insert(key, data);
                    (h1, st2, put)
                },
            }
        },
    }
}

/// Frees room for `bytes` in host memory by demoting its smallest keys to storage.
pub open spec fn room_host(h: StoreView, st: StoreView, bytes: usize, protected: Option<u64>) -> (
    StoreView,
    StoreView,
    Result<(), TierError>,
)
    decreases h.buffers.dom().len(),
{
    if bytes > h.capacity {
        (h, st, Err(exceeds_capacity(h, bytes)))
    } else if h.used + bytes <= h.capacity {
        (h, st, Ok(()))
    } else if !has_victim(h, protected) {
        (h, st, Err(nothing_to_evict(h, bytes)))
    } else if h.buffers.dom().finite() {
        let v = victim(h, protected);
        let (h1, st1, moved) = move_host_storage(h, st, v);
        match moved {
            Err(e) => (h1, st1, Err(e)),
            Ok(_) => room_host(h1, st1, bytes, protected),
        }
    } else {
        (h, st, Ok(()))
    }
}

/// Moves the buffer under `key` from VRAM down to host memory.
pub open spec fn move_vram_host(v: StoreView, h: StoreView, st: StoreView, key: u64) -> (
    StoreView,
    StoreView,
    StoreView,
    Result<(), TierError>,
) {
    let (v1, taken) = v.remove(key);
    match taken {
        Err(e) => (v1, h, st, Err(e)),
        Ok(data) => {
            let (h1, st1, made) = room_host(h, st, data.len() as usize, Some(key));
            match made {
                Err(e) => (v1, h1, st1, Err(e)),
                Ok(_) => {
                    let (h2, put) = h1.insert(key, data);
                    (v1, h2, st1, put)
                },
            }
        },
    }
}

/// Frees room for `bytes` in VRAM by demoting its smallest keys to host memory.
pub open spec fn room_vram(
    v: StoreView,
    h: StoreView,
    st: StoreView,
    bytes: usize,
    protected: Option<u64>,
) -> (StoreView, StoreView, StoreView, Result<(), TierError>)
    decreases v.buffers.dom().len(),
{
    if bytes > v.capacity {
        (v, h, st, Err(exceeds_capacity(v, bytes)))
    } else if v.used + bytes <= v.capacity {
        (v, h, st, Ok(()))
    } else if !has_victim(v, protected) {
        (v, h, st, Err(nothing_to_evict(v, bytes)))
    } else if v.buffers.dom().finite() {
        let k = victim(v, protected);
        let (v1, h1, st1, moved) = move_vram_host(v, h, st, k);
        match moved {
            Err(e) => (v1, h1, st1, Err(e)),
            Ok(_) => room_vram(v1, h1, st1, bytes, protected),
        }
    } else {
        (v, h, st, Ok(()))
    }
}

impl TiersView {
    /// The store of one tier.
    pub open spec fn store(self, tier: TierLevel) -> StoreView {
        match tier {
            TierLevel::Vram => self.vram,
            TierLevel::Host => self.host,
            TierLevel::Storage => self.storage,
        }
    }

    /// The same tiers with the store of `tier` replaced.
    pub open spec fn with(self, tier: TierLevel, s: StoreView) -> TiersView {
        match tier {
            TierLevel::Vram => TiersView { vram: s, ..self },
            TierLevel::Host => TiersView { host: s, ..self },
            TierLevel::Storage => TiersView { storage: s, ..self },
        }
    }

    /// The hottest tier holding `key`.
    pub open spec fn tier_of(self, key: u64) -> Option<TierLevel> {
        if self.vram.buffers.contains_key(key) {
            Some(TierLevel::Vram)
        } else if self.host.buffers.contains_key(key) {
            Some(TierLevel::Host)
        } else if self.storage.buffers.contains_key(key) {
            Some(TierLevel::Storage)
        } else {
            None
        }
    }

    /// Every store is well-formed and no key is held by two tiers.
    pub open spec fn well_formed(self) -> bool {
        &&& self.vram.well_formed()
        &&& self.host.well_formed()
        &&& self.storage.well_formed()
        &&& self.vram.buffers.dom().disjoint(self.host.buffers.dom())
        &&& self.vram.buffers.dom().disjoint(self.storage.buffers.dom())
        &&& self.host.buffers.dom().disjoint(self.storage.buffers.dom())
    }

    /// Storing into the store of one tier.
    pub open spec fn insert_into(self, tier: TierLevel, key: u64, data: Seq<u8>) -> (
        TiersView,
        Result<(), TierError>,
    ) {
        let (s, r) = self.store(tier).insert(key, data);
        (self.with(tier, s), r)
    }

    /// Taking a buffer out of the store of one tier.
    pub open spec fn remove_from(self, tier: TierLevel, key: u64) -> (
        TiersView,
        Result<Seq<u8>, TierError>,
    ) {
        let (s, r) = self.store(tier).remove(key);
        (self.with(tier, s), r)
    }

    /// Frees room for `bytes` in `tier`, moving its smallest keys other than
    /// `protected` one tier colder, and dropping them from storage.
    pub open spec fn make_room(self, tier: TierLevel, bytes: usize, protected: Option<u64>) -> (
        TiersView,
        Result<(), TierError>,
    ) {
        match tier {
            TierLevel::Vram => {
                let (v, h, st, r) = room_vram(self.vram, self.host, self.storage, bytes, protected);
                (TiersView { vram: v, host: h, storage: st }, r)
            },
            TierLevel::Host => {
                let (h, st, r) = room_host(self.host, self.storage, bytes, protected);
                (TiersView { host: h, storage: st, ..self }, r)
            },
            TierLevel::Storage => {
                let (st, r) = room_storage(self.storage, bytes, protected);
                (TiersView { storage: st, ..self }, r)
            },
        }
    }

    /// Moves the buffer under `key` from `source` one tier colder.
    pub open spec fn move_down(self, key: u64, source: TierLevel) -> (
        TiersView,
        Result<(), TierError>,
    ) {
        match source {
            TierLevel::Vram => {
                let (v, h, st, r) = move_vram_host(self.vram, self.host, self.storage, key);
                (TiersView { vram: v, host: h, storage: st }, r)
            },
            TierLevel::Host => {
                let (h, st, r) = move_host_storage(self.host, self.storage, key);
                (TiersView { host: h, storage: st, ..self }, r)
            },
            TierLevel::Storage => (self, Ok(())),
        }
    }

    /// The hottest tier, in the order VRAM, host, storage, whose free bytes fit `len`.
    pub open spec fn first_fit(self, len: nat) -> Option<TierLevel> {
        if len <= self.vram.available() {
            Some(TierLevel::Vram)
        } else if len <= self.host.available() {
            Some(TierLevel::Host)
        } else if len <= self.storage.available() {
            Some(TierLevel::Storage)
        } else {
            None
        }
    }

    /// Inserting a new buffer into the hottest tier with room for it.
    pub open spec fn insert(self, key: u64, data: Seq<u8>) -> (TiersView, Result<TierLevel, TierError>) {
        if self.tier_of(key) is Some {
            (self, Err(TierError::DuplicateKey(BufferKey(key))))
        } else {
            match self.first_fit(data.len()) {
                Some(t) => {
                    let (s, r) = self.insert_into(t, key, data);
                    match r {
                        Ok(_) => (s, Ok(t)),
                        Err(e) => (s, Err(e)),
                    }
                },
                None => (
                    self,
                    Err(
                        TierError::CapacityExceeded {
                            requested: data.len() as usize,
                            available: self.storage.available(),
                        },
                    ),
                ),
            }
        }
    }

    /// Moving the buffer under `key` into `target`: the buffer is taken out,
    /// room is made in the target, and the buffer is stored there. A failure
    /// leaves the tiers as they were.
    pub open spec fn promote(self, key: u64, target: TierLevel) -> (TiersView, Result<(), TierError>) {
        let (s, r) = self.promote_steps(key, target);
        match r {
            Ok(_) => (s, r),
            Err(_) => (self, r),
        }
    }

    /// The tiers after demoting `key` one tier colder; unchanged when the key
    /// is in no tier or in storage, or when the move fails.
    pub open spec fn demoted(self, key: u64) -> TiersView {
        match self.tier_of(key) {
            None => self,
            Some(TierLevel::Storage) => self,
            Some(t) => {
                let (s, r) = self.move_down(key, t);
                if r is Ok {
                    s
                } else {
                    self
                }
            },
        }
    }

    /// The tiers after evicting `key`; unchanged when the key is in no tier.
    pub open spec fn evicted(self, key: u64) -> TiersView {
        match self.tier_of(key) {
            None => self,
            Some(t) => self.remove_from(t, key).0,
        }
    }

    /// The steps of a promotion, each applied in turn up to the first failure.
    pub open spec fn promote_steps(self, key: u64, target: TierLevel) -> (
        TiersView,
        Result<(), TierError>,
    ) {
        match self.tier_of(key) {
            None => (self, Err(TierError::MissingKey(BufferKey(key)))),
            Some(current) => {
                if current == target {
                    (self, Ok(()))
                } else {
                    let (s1, taken) = self.remove_from(current, key);
                    match taken {
                        Err(e) => (s1, Err(e)),
                        Ok(data) => {
                            if data.len() > self.store(target).capacity {
                                let (s2, back) = s1.insert_into(current, key, data);
                                match back {
                                    Err(e) => (s2, Err(e)),
                                    Ok(_) => (
                                        s2,
                                        Err(
                                            TierError::CapacityExceeded {
                                                requested: data.len() as usize,
                                                available: self.store(target).capacity,
                                            },
                                        ),
                                    ),
                                }
                            } else {
                                let (s2, made) = s1.make_room(target, data.len() as usize, Some(key));
                                match made {
                                    Err(e) => (s2, Err(e)),
                                    Ok(_) => s2.insert_into(target, key, data),
                                }
                            }
                        },
                    }
                }
            },
        }
    }
}


/// The buffer stored under `k` in the hottest tier holding it.
pub open spec fn buffer_at(s: TiersView, k: u64) -> Option<Seq<u8>> {
    if s.vram.buffers.contains_key(k) {
        Some(s.vram.buffers[k])
    } else if s.host.buffers.contains_key(k) {
        Some(s.host.buffers[k])
    } else if s.storage.buffers.contains_key(k) {
        Some(s.storage.buffers[k])
    } else {
        None
    }
}

/// Every buffer held after was held before, with the same bytes.
pub open spec fn keeps_data(before: TiersView, after: TiersView) -> bool {
    forall|k: u64| #[trigger] buffer_at(after, k) is Some ==> buffer_at(after, k) == buffer_at(before, k)
}

/// The tiers have the same capacities.
pub open spec fn same_capacities(a: TiersView, b: TiersView) -> bool {
    &&& a.vram.capacity == b.vram.capacity
    &&& a.host.capacity == b.host.capacity
    &&& a.storage.capacity == b.storage.capacity
}

/// Taking a buffer out of a tier keeps the tiers well-formed and invents nothing.
pub proof fn lemma_remove_from(s: TiersView, tier: TierLevel, key: u64)
    requires
        s.well_formed(),
    ensures
        s.remove_from(tier, key).0.well_formed(),
        keeps_data(s, s.remove_from(tier, key).0),
        same_capacities(s, s.remove_from(tier, key).0),
        s.remove_from(tier, key).0.store(tier).buffers == s.store(tier).buffers.remove(key),
{
    store::lemma_store_remove_wf(s.store(tier), key);
    let r = s.remove_from(tier, key).0;
    assert(r.store(tier).buffers =~= s.store(tier).buffers.remove(key));
    assert forall|k: u64| #[trigger] buffer_at(r, k) is Some implies buffer_at(r, k) == buffer_at(s, k) by {
    }
}

/// Storing a buffer under a key no tier holds keeps the tiers well-formed,
/// and on success that buffer is what the key reads.
pub proof fn lemma_insert_into(s: TiersView, tier: TierLevel, key: u64, data: Seq<u8>)
    requires
        s.well_formed(),
        buffer_at(s, key) is None,
    ensures
        s.insert_into(tier, key, data).0.well_formed(),
        same_capacities(s, s.insert_into(tier, key, data).0),
        s.insert_into(tier, key, data).1 is Ok <==> data.len() <= s.store(tier).available(),
        s.insert_into(tier, key, data).1 is Ok ==> buffer_at(s.insert_into(tier, key, data).0, key)
            == Some(data) && s.insert_into(tier, key, data).0.store(tier).buffers == s.store(
            tier,
        ).buffers.insert(key, data),
        s.insert_into(tier, key, data).1 is Err ==> s.insert_into(tier, key, data).0 == s,
        forall|k: u64|
            k != key ==> #[trigger] buffer_at(s.insert_into(tier, key, data).0, k) == buffer_at(s, k),
{
    store::lemma_store_insert_wf(s.store(tier), key, data);
    let r = s.insert_into(tier, key, data).0;
    if data.len() <= s.store(tier).available() {
        assert(r.store(tier).buffers.dom() =~= s.store(tier).buffers.dom().insert(key));
    }
}

/// Freeing room in storage keeps the tiers well-formed, drops buffers without
/// altering any, and on success leaves room for the request.
pub proof fn lemma_room_storage(s: TiersView, bytes: usize, protected: Option<u64>)
    requires
        s.well_formed(),
    ensures
        ({
            let (r, res) = s.make_room(TierLevel::Storage, bytes, protected);
            &&& r.well_formed()
            &&& same_capacities(s, r)
            &&& keeps_data(s, r)
            &&& r.vram == s.vram
            &&& r.host == s.host
            &&& r.storage.buffers.dom().subset_of(s.storage.buffers.dom())
            &&& res is Ok ==> r.storage.used + bytes <= r.storage.capacity
        }),
    decreases s.storage.buffers.dom().len(),
{
    let st = s.storage;
    if bytes > st.capacity {
    } else if st.used + bytes <= st.capacity {
    } else if !has_victim(st, protected) {
    } else {
        let v = victim(st, protected);
        assert(is_victim(st, protected, v));
        let s1 = s.remove_from(TierLevel::Storage, v).0;
        lemma_remove_from(s, TierLevel::Storage, v);
        lemma_room_storage(s1, bytes, protected);
        assert(s.make_room(TierLevel::Storage, bytes, protected) == s1.make_room(
            TierLevel::Storage,
            bytes,
            protected,
        ));
    }
}

/// Moving a buffer from host memory to storage keeps the tiers well-formed and
/// invents nothing; on success the buffer sits in storage.
pub proof fn lemma_move_host(s: TiersView, key: u64)
    requires
        s.well_formed(),
    ensures
        ({
            let (r, res) = s.move_down(key, TierLevel::Host);
            &&& r.well_formed()
            &&& same_capacities(s, r)
            &&& keeps_data(s, r)
            &&& r.vram == s.vram
            &&& r.host == s.host.remove(key).0
            &&& res is Ok ==> s.host.buffers.contains_key(key) && r.storage.buffers.contains_key(key)
        }),
{
    let (s1, taken) = s.remove_from(TierLevel::Host, key);
    lemma_remove_from(s, TierLevel::Host, key);
    if s.host.buffers.contains_key(key) {
        let data = s.host.buffers[key];
        lemma_room_storage(s1, data.len() as usize, Some(key));
        let (s2, made) = s1.make_room(TierLevel::Storage, data.len() as usize, Some(key));
        assert(buffer_at(s2, key) is None) by {
            assert(!s1.vram.buffers.contains_key(key));
            assert(!s1.storage.buffers.contains_key(key));
        }
        if made is Ok {
            lemma_insert_into(s2, TierLevel::Storage, key, data);
            let r = s2.insert_into(TierLevel::Storage, key, data).0;
            assert(s.move_down(key, TierLevel::Host) == s2.insert_into(TierLevel::Storage, key, data));
            assert forall|k: u64| #[trigger] buffer_at(r, k) is Some implies buffer_at(r, k)
                == buffer_at(s, k) by {
                if k == key {
                    assert(!s.vram.buffers.contains_key(key));
                } else {
                    assert(buffer_at(r, k) == buffer_at(s2, k));
                    assert(buffer_at(s2, k) == buffer_at(s1, k));
                }
            }
        } else {
            assert(s.move_down(key, TierLevel::Host) == (s2, made));
            assert forall|k: u64| #[trigger] buffer_at(s2, k) is Some implies buffer_at(s2, k)
                == buffer_at(s, k) by {
                assert(buffer_at(s2, k) == buffer_at(s1, k));
            }
        }
    } else {
        assert(s1 == s) by {
            assert(s1.host.buffers =~= s.host.buffers);
        }
    }
}

/// Freeing room in host memory keeps the tiers well-formed, moves or drops
/// buffers without altering any, and on success leaves room for the request.
pub proof fn lemma_room_host(s: TiersView, bytes: usize, protected: Option<u64>)
    requires
        s.well_formed(),
    ensures
        ({
            let (r, res) = s.make_room(TierLevel::Host, bytes, protected);
            &&& r.well_formed()
            &&& same_capacities(s, r)
            &&& keeps_data(s, r)
            &&& r.vram == s.vram
            &&& r.host.buffers.dom().subset_of(s.host.buffers.dom())
            &&& res is Ok ==> r.host.used + bytes <= r.host.capacity
        }),
    decreases s.host.buffers.dom().len(),
{
    let h = s.host;
    if bytes > h.capacity {
    } else if h.used + bytes <= h.capacity {
    } else if !has_victim(h, protected) {
    } else {
        let v = victim(h, protected);
        assert(is_victim(h, protected, v));
        lemma_move_host(s, v);
        let (s1, moved) = s.move_down(v, TierLevel::Host);
        assert(s1.host.buffers =~= h.buffers.remove(v));
        if moved is Ok {
            lemma_room_host(s1, bytes, protected);
            assert(s.make_room(TierLevel::Host, bytes, protected) == s1.make_room(
                TierLevel::Host,
                bytes,
                protected,
            ));
            let r = s1.make_room(TierLevel::Host, bytes, protected).0;
            assert forall|k: u64| #[trigger] buffer_at(r, k) is Some implies buffer_at(r, k)
                == buffer_at(s, k) by {
                assert(buffer_at(r, k) == buffer_at(s1, k));
            }
        } else {
            assert(s.make_room(TierLevel::Host, bytes, protected) == (s1, moved));
        }
    }
}

/// Moving a buffer from VRAM to host memory keeps the tiers well-formed and
/// invents nothing; on success the buffer sits in host memory.
pub proof fn lemma_move_vram(s: TiersView, key: u64)
    requires
        s.well_formed(),
    ensures
        ({
            let (r, res) = s.move_down(key, TierLevel::Vram);
            &&& r.well_formed()
            &&& same_capacities(s, r)
            &&& keeps_data(s, r)
            &&& r.vram == s.vram.remove(key).0
            &&& res is Ok ==> s.vram.buffers.contains_key(key) && r.host.buffers.contains_key(key)
        }),
{
    let (s1, taken) = s.remove_from(TierLevel::Vram, key);
    lemma_remove_from(s, TierLevel::Vram, key);
    if s.vram.buffers.contains_key(key) {
        let data = s.vram.buffers[key];
        lemma_room_host(s1, data.len() as usize, Some(key));
        let (s2, made) = s1.make_room(TierLevel::Host, data.len() as usize, Some(key));
        assert(buffer_at(s2, key) is None) by {
            assert(!s1.host.buffers.contains_key(key));
            assert(!s1.storage.buffers.contains_key(key));
            if buffer_at(s2, key) is Some {
                assert(buffer_at(s2, key) == buffer_at(s1, key));
            }
        }
        if made is Ok {
            lemma_insert_into(s2, TierLevel::Host, key, data);
            let r = s2.insert_into(TierLevel::Host, key, data).0;
            assert(s.move_down(key, TierLevel::Vram) == s2.insert_into(TierLevel::Host, key, data));
            assert forall|k: u64| #[trigger] buffer_at(r, k) is Some implies buffer_at(r, k)
                == buffer_at(s, k) by {
                if k != key {
                    assert(buffer_at(r, k) == buffer_at(s2, k));
                    assert(buffer_at(s2, k) == buffer_at(s1, k));
                }
            }
        } else {
            assert(s.move_down(key, TierLevel::Vram) == (s2, made));
            assert forall|k: u64| #[trigger] buffer_at(s2, k) is Some implies buffer_at(s2, k)
                == buffer_at(s, k) by {
                assert(buffer_at(s2, k) == buffer_at(s1, k));
            }
        }
    } else {
        assert(s1 == s) by {
            assert(s1.vram.buffers =~= s.vram.buffers);
        }
    }
}

/// Freeing room in VRAM keeps the tiers well-formed, moves or drops buffers
/// without altering any, and on success leaves room for the request.
pub proof fn lemma_room_vram(s: TiersView, bytes: usize, protected: Option<u64>)
    requires
        s.well_formed(),
    ensures
        ({
            let (r, res) = s.make_room(TierLevel::Vram, bytes, protected);
            &&& r.well_formed()
            &&& same_capacities(s, r)
            &&& keeps_data(s, r)
            &&& r.vram.buffers.dom().subset_of(s.vram.buffers.dom())
            &&& res is Ok ==> r.vram.used + bytes <= r.vram.capacity
        }),
    decreases s.vram.buffers.dom().len(),
{
    let v = s.vram;
    if bytes > v.capacity {
    } else if v.used + bytes <= v.capacity {
    } else if !has_victim(v, protected) {
    } else {
        let k0 = victim(v, protected);
        assert(is_victim(v, protected, k0));
        lemma_move_vram(s, k0);
        let (s1, moved) = s.move_down(k0, TierLevel::Vram);
        assert(s1.vram.buffers =~= v.buffers.remove(k0));
        if moved is Ok {
            lemma_room_vram(s1, bytes, protected);
            assert(s.make_room(TierLevel::Vram, bytes, protected) == s1.make_room(
                TierLevel::Vram,
                bytes,
                protected,
            ));
            let r = s1.make_room(TierLevel::Vram, bytes, protected).0;
            assert forall|k: u64| #[trigger] buffer_at(r, k) is Some implies buffer_at(r, k)
                == buffer_at(s, k) by {
                assert(buffer_at(r, k) == buffer_at(s1, k));
            }
        } else {
            assert(s.make_room(TierLevel::Vram, bytes, protected) == (s1, moved));
        }
    }
}

/// Freeing room in any tier keeps the tiers well-formed, moves or drops buffers
/// without altering any, never grows that tier's key set, and on success leaves
/// room for the request.
pub proof fn lemma_make_room(s: TiersView, tier: TierLevel, bytes: usize, protected: Option<u64>)
    requires
        s.well_formed(),
    ensures
        ({
            let (r, res) = s.make_room(tier, bytes, protected);
            &&& r.well_formed()
            &&& same_capacities(s, r)
            &&& keeps_data(s, r)
            &&& r.store(tier).buffers.dom().subset_of(s.store(tier).buffers.dom())
            &&& res is Ok ==> r.store(tier).used + bytes <= r.store(tier).capacity
        }),
{
    match tier {
        TierLevel::Vram => lemma_room_vram(s, bytes, protected),
        TierLevel::Host => lemma_room_host(s, bytes, protected),
        TierLevel::Storage => lemma_room_storage(s, bytes, protected),
    }
}

/// Moving a buffer one tier colder keeps the tiers well-formed and invents
/// nothing; the source loses exactly that buffer; on success it sits one tier colder.
pub proof fn lemma_move_down(s: TiersView, key: u64, source: TierLevel)
    requires
        s.well_formed(),
        source != TierLevel::Storage,
    ensures
        ({
            let (r, res) = s.move_down(key, source);
            &&& r.well_formed()
            &&& same_capacities(s, r)
            &&& keeps_data(s, r)
            &&& r.store(source) == s.store(source).remove(key).0
            &&& res is Ok ==> s.store(source).buffers.contains_key(key) && r.store(
                source.spec_colder().unwrap(),
            ).buffers.contains_key(key)
        }),
{
    match source {
        TierLevel::Vram => lemma_move_vram(s, key),
        TierLevel::Host => lemma_move_host(s, key),
        TierLevel::Storage => {},
    }
}

/// One round of freeing room: with no room yet, either nothing is movable, or
/// the smallest movable key moves one tier colder (or is dropped from storage)
/// and freeing room goes on from there.
pub proof fn lemma_make_room_step(s: TiersView, tier: TierLevel, bytes: usize, protected: Option<u64>)
    requires
        s.well_formed(),
        bytes <= s.store(tier).capacity,
        s.store(tier).used + bytes > s.store(tier).capacity,
    ensures
        !has_victim(s.store(tier), protected) ==> s.make_room(tier, bytes, protected) == (
            s,
            Err::<(), TierError>(nothing_to_evict(s.store(tier), bytes)),
        ),
        has_victim(s.store(tier), protected) && tier != TierLevel::Storage ==> s.make_room(
            tier,
            bytes,
            protected,
        ) == ({
            let (s1, moved) = s.move_down(victim(s.store(tier), protected), tier);
            if moved is Ok {
                s1.make_room(tier, bytes, protected)
            } else {
                (s1, moved)
            }
        }),
        has_victim(s.store(tier), protected) && tier == TierLevel::Storage ==> s.make_room(
            tier,
            bytes,
            protected,
        ) == s.remove_from(tier, victim(s.store(tier), protected)).0.make_room(
            tier,
            bytes,
            protected,
        ),
{
}

} // verus!
