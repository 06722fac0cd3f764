//! Memory tier manager.

/// Properties of the tier operations.
pub mod laws;
/// Abstract model of the tiers and of the moves between them.
pub mod model;
/// Tier storage abstractions and simulated store.
pub mod store;

use crate::maplib;
use crate::tier::model::TiersView;
use crate::tier::store::{SimulatedStore, TierStore};
use crate::types::{self, BufferKey, TierError, TierLevel};
use vstd::prelude::*;

verus! {

/// Identifier of an optional key.
pub open spec fn key_id(k: Option<BufferKey>) -> Option<u64> {
    match k {
        Some(b) => Some(b.0),
        None => None,
    }
}

/// Depth of a tier below which moves can cascade.
pub open spec fn depth(t: TierLevel) -> nat {
    match t {
        TierLevel::Vram => 2,
        TierLevel::Host => 1,
        TierLevel::Storage => 0,
    }
}

/// The three stores, with the operations on them.
#[derive(Debug)]
struct Tiers {
    vram: SimulatedStore,
    host: SimulatedStore,
    storage: SimulatedStore,
}

impl View for Tiers {
    type V = TiersView;

    closed spec fn view(&self) -> TiersView {
        TiersView { vram: self.vram@, host: self.host@, storage: self.storage@ }
    }
}

impl Tiers {
    /// The stores are well-formed and hold disjoint keys.
    spec fn well_formed(&self) -> bool {
        self@.well_formed()
    }

    /// Creates a tier manager backed by simulated stores.
    fn new(vram_bytes: usize, host_bytes: usize, storage_bytes: usize) -> (res: Tiers)
        ensures
            res.well_formed(),
            res@.vram.capacity == vram_bytes,
            res@.host.capacity == host_bytes,
            res@.storage.capacity == storage_bytes,
            res@.vram.used == 0 && res@.host.used == 0 && res@.storage.used == 0,
            res@.vram.buffers == Map::<u64, Seq<u8>>::empty(),
            res@.host.buffers == Map::<u64, Seq<u8>>::empty(),
            res@.storage.buffers == Map::<u64, Seq<u8>>::empty(),
    {
        Tiers {
            vram: SimulatedStore::new(vram_bytes),
            host: SimulatedStore::new(host_bytes),
            storage: SimulatedStore::new(storage_bytes),
        }
    }

    fn store(&self, tier: TierLevel) -> (res: &SimulatedStore)
        ensures
            res@ == self@.store(tier),
    {
        match tier {
            TierLevel::Vram => &self.vram,
            TierLevel::Host => &self.host,
            TierLevel::Storage => &self.storage,
        }
    }

    fn store_mut(&mut self, tier: TierLevel) -> (res: &mut SimulatedStore)
        ensures
            res@ == old(self)@.store(tier),
            final(self)@ == old(self)@.with(tier, final(res)@),
    {
        match tier {
            TierLevel::Vram => &mut self.vram,
            TierLevel::Host => &mut self.host,
            TierLevel::Storage => &mut self.storage,
        }
    }

    /// Inserts a buffer into the hottest tier that can accept it.
    ///
    /// # Errors
    ///
    /// Returns an error if the key exists or all tiers lack capacity.
    fn insert(&mut self, key: BufferKey, data: Vec<u8>) -> (res: Result<TierLevel, TierError>)
        requires
            old(self).well_formed(),
        ensures
            final(self).well_formed(),
            (final(self)@, res) == old(self)@.insert(key.0, data@),
    {
        if self.tier_of(key).is_some() {
            return Err(TierError::DuplicateKey(key));
        }
        let tiers = [TierLevel::Vram, TierLevel::Host, TierLevel::Storage];
        let ghost s = self@;
        let mut i: usize = 0;
        while i < 3
            invariant
                i <= 3,
                self@ == s,
                s == old(self)@,
                s.well_formed(),
                s.tier_of(key.0) is None,
                tiers@ == seq![TierLevel::Vram, TierLevel::Host, TierLevel::Storage],
                forall|j: int| 0 <= j < i ==> data@.len() > s.store(#[trigger] tiers@[j]).available(),
            decreases 3 - i,
        {
            let tier = tiers[i];
            let available = self.store(tier).capacity().saturating_sub(self.store(tier).used_bytes());
            if data.len() <= available {
                proof {
                    assert(s.first_fit(data@.len()) == Some(tier));
                    model::lemma_insert_into(s, tier, key.0, data@);
                }
                match self.store_mut(tier).insert(key, data) {
                    Ok(()) => {
                        return Ok(tier);
                    },
                    Err(e) => {
                        return Err(e);
                    },
                }
            }
            i = i + 1;
        }
        proof {
            assert(data@.len() > s.store(tiers@[0]).available());
            assert(data@.len() > s.store(tiers@[1]).available());
            assert(data@.len() > s.store(tiers@[2]).available());
        }
        Err(
            TierError::CapacityExceeded {
                requested: data.len(),
                available: self.storage.capacity().saturating_sub(self.storage.used_bytes()),
            },
        )
    }

    /// Reads a managed buffer from any tier.
    ///
    /// # Errors
    ///
    /// Returns an error if the key is absent.
    fn get(&self, key: BufferKey) -> (res: Result<Vec<u8>, TierError>)
        requires
            self.well_formed(),
        ensures
            match res {
                Ok(d) => model::buffer_at(self@, key.0) == Some(d@),
                Err(e) => model::buffer_at(self@, key.0) is None && e == TierError::MissingKey(key),
            },
    {
        let tier = match self.tier_of(key) {
            Some(t) => t,
            None => {
                return Err(TierError::MissingKey(key));
            },
        };
        self.store(tier).get(key)
    }

    /// Promotes a buffer to the requested tier, first moving the smallest keys
    /// of that tier one tier colder until the buffer fits.
    ///
    /// # Errors
    ///
    /// Returns an error if the key is absent or the target cannot fit the buffer.
    /// A failed promotion leaves every buffer where it was.
    fn promote(&mut self, key: BufferKey, target: TierLevel) -> (res: Result<(), TierError>)
        requires
            old(self).well_formed(),
        ensures
            final(self).well_formed(),
            (final(self)@, res) == old(self)@.promote(key.0, target),
    {
        match self.tier_of(key) {
            None => {
                return Err(TierError::MissingKey(key));
            },
            Some(current) => {
                if current == target {
                    return Ok(());
                }
            },
        }
        let saved = self.duplicate();
        match self.promote_steps(key, target) {
            Ok(()) => Ok(()),
            Err(e) => {
                *self = saved;
                Err(e)
            },
        }
    }

    /// A copy of the manager, buffers included.
    fn duplicate(&self) -> (res: Tiers)
        ensures
            res@ == self@,
    {
        Tiers {
            vram: self.vram.duplicate(),
            host: self.host.duplicate(),
            storage: self.storage.duplicate(),
        }
    }

    /// Takes the buffer out, makes room in the target and stores it there,
    /// stopping at the first failure.
    fn promote_steps(&mut self, key: BufferKey, target: TierLevel) -> (res: Result<(), TierError>)
        requires
            old(self).well_formed(),
        ensures
            final(self).well_formed(),
            (final(self)@, res) == old(self)@.promote_steps(key.0, target),
    {
        let ghost s0 = self@;
        let current = match self.tier_of(key) {
            Some(t) => t,
            None => {
                return Err(TierError::MissingKey(key));
            },
        };
        if current == target {
            return Ok(());
        }
        proof {
            model::lemma_remove_from(s0, current, key.0);
        }
        let data = match self.store_mut(current).remove(key) {
            Ok(d) => d,
            Err(e) => {
                return Err(e);
            },
        };
        let ghost s1 = self@;
        proof {
            assert(model::buffer_at(s1, key.0) is None);
        }
        if data.len() > self.store(target).capacity() {
            proof {
                model::lemma_insert_into(s1, current, key.0, data@);
            }
            match self.store_mut(current).insert(key, data) {
                Ok(()) => {},
                Err(e) => {
                    return Err(e);
                },
            }
            let requested = match self.store(current).get(key) {
                Ok(d) => d.len(),
                Err(e) => {
                    return Err(e);
                },
            };
            return Err(
                TierError::CapacityExceeded {
                    requested,
                    available: self.store(target).capacity(),
                },
            );
        }
        let len = data.len();
        match self.make_room(target, len, Some(key)) {
            Ok(()) => {},
            Err(e) => {
                return Err(e);
            },
        }
        let ghost s2 = self@;
        proof {
            model::lemma_make_room(s1, target, len, Some(key.0));
            if model::buffer_at(s2, key.0) is Some {
                assert(model::buffer_at(s2, key.0) == model::buffer_at(s1, key.0));
            }
            model::lemma_insert_into(s2, target, key.0, data@);
        }
        self.store_mut(target).insert(key, data)
    }

    /// Demotes a buffer by one tier.
    ///
    /// # Errors
    ///
    /// Returns an error if the key is absent or already in storage, or if
    /// the colder tier cannot make room for the buffer (a capacity error). A
    /// failed demotion leaves every buffer where it was.
    fn demote(&mut self, key: BufferKey) -> (res: Result<TierLevel, TierError>)
        requires
            old(self).well_formed(),
        ensures
            final(self).well_formed(),
            final(self)@ == old(self)@.demoted(key.0),
            match old(self)@.tier_of(key.0) {
                None => res == Err::<TierLevel, TierError>(TierError::MissingKey(key)),
                Some(TierLevel::Storage) => match res {
                    Err(TierError::InvalidInput(m)) => m@ == "cannot demote a buffer already in storage"@,
                    _ => false,
                },
                Some(t) => match old(self)@.move_down(key.0, t).1 {
                    Ok(_) => res == Ok::<TierLevel, TierError>(t.spec_colder().unwrap()),
                    Err(e) => res == Err::<TierLevel, TierError>(e),
                },
            },
    {
        let current = match self.tier_of(key) {
            Some(t) => t,
            None => {
                return Err(TierError::MissingKey(key));
            },
        };
        let target = match current.colder() {
            Some(t) => t,
            None => {
                return Err(TierError::InvalidInput("cannot demote a buffer already in storage".to_owned()));
            },
        };
        let saved = self.duplicate();
        match self.move_to(key, current, target) {
            Ok(()) => Ok(target),
            Err(e) => {
                *self = saved;
                Err(e)
            },
        }
    }

    /// Evicts a buffer from whichever tier currently holds it.
    ///
    /// # Errors
    ///
    /// Returns an error if the key is absent.
    fn evict(&mut self, key: BufferKey) -> (res: Result<Vec<u8>, TierError>)
        requires
            old(self).well_formed(),
        ensures
            final(self).well_formed(),
            final(self)@ == old(self)@.evicted(key.0),
            match res {
                Ok(d) => model::buffer_at(old(self)@, key.0) == Some(d@) && final(self)@ == old(
                    self,
                )@.remove_from(old(self)@.tier_of(key.0).unwrap(), key.0).0,
                Err(e) => model::buffer_at(old(self)@, key.0) is None && e == TierError::MissingKey(
                    key,
                ) && final(self)@ == old(self)@,
            },
    {
        let tier = match self.tier_of(key) {
            Some(t) => t,
            None => {
                return Err(TierError::MissingKey(key));
            },
        };
        proof {
            model::lemma_remove_from(self@, tier, key.0);
        }
        self.store_mut(tier).remove(key)
    }

    /// Returns the current tier for a key.
    fn tier_of(&self, key: BufferKey) -> (res: Option<TierLevel>)
        ensures
            res == self@.tier_of(key.0),
    {
        if self.vram.contains(key) {
            Some(TierLevel::Vram)
        } else if self.host.contains(key) {
            Some(TierLevel::Host)
        } else if self.storage.contains(key) {
            Some(TierLevel::Storage)
        } else {
            None
        }
    }

    /// The smallest key of a tier other than `protected`, if any.
    fn find_victim(&self, tier: TierLevel, protected: Option<BufferKey>) -> (res: Option<BufferKey>)
        ensures
            match res {
                Some(k) => model::is_victim(self@.store(tier), key_id(protected), k.0) && model::victim(self@.store(tier),
                    key_id(protected),
                ) == k.0,
                None => !model::has_victim(self@.store(tier), key_id(protected)),
            },
    {
        let keys = self.store(tier).keys();
        let ghost ids = types::key_ids(keys@);
        let ghost s = self@.store(tier);
        let mut i: usize = 0;
        while i < keys.len()
            invariant
                i <= keys.len(),
                ids == types::key_ids(keys@),
                maplib::ascending(ids),
                ids.to_set() == s.buffers.dom(),
                s == self@.store(tier),
                forall|j: int| 0 <= j < i ==> key_id(protected) == Some(#[trigger] ids[j]),
            decreases keys.len() - i,
        {
            let k = keys[i];
            let skip = match protected {
                Some(p) => p.0 == k.0,
                None => false,
            };
            if !skip {
                proof {
                    assert(ids[i as int] == k.0);
                    assert(ids.contains(k.0));
                    assert forall|j: u64| #[trigger] s.buffers.contains_key(j) && key_id(protected)
                        != Some(j) implies k.0 <= j by {
                        assert(ids.to_set().contains(j));
                        let m = choose|m: int| 0 <= m < ids.len() && ids[m] == j;
                        assert(ids[m] == j);
                    }
                    assert(model::is_victim(s, key_id(protected), k.0));
                    let c = model::victim(s, key_id(protected));
                    assert(model::is_victim(s, key_id(protected), c));
                }
                return Some(k);
            }
            i = i + 1;
        }
        proof {
            if model::has_victim(s, key_id(protected)) {
                let c = model::victim(s, key_id(protected));
                assert(model::is_victim(s, key_id(protected), c));
                assert(ids.to_set().contains(c));
                let m = choose|m: int| 0 <= m < ids.len() && ids[m] == c;
                assert(key_id(protected) == Some(ids[m]));
            }
        }
        None
    }

    /// Frees room for `bytes` in `tier` by moving its smallest keys, other than
    /// `protected`, one tier colder (or dropping them from storage).
    fn make_room(&mut self, tier: TierLevel, bytes: usize, protected: Option<BufferKey>) -> (res:
        Result<(), TierError>)
        requires
            old(self).well_formed(),
        ensures
            final(self).well_formed(),
            (final(self)@, res) == old(self)@.make_room(tier, bytes, key_id(protected)),
        decreases depth(tier), 1nat,
    {
        if bytes > self.store(tier).capacity() {
            return Err(
                TierError::CapacityExceeded { requested: bytes, available: self.store(tier).capacity() },
            );
        }
        while self.store(tier).used_bytes() > self.store(tier).capacity() - bytes
            invariant
                self.well_formed(),
                bytes <= self@.store(tier).capacity,
                self@.make_room(tier, bytes, key_id(protected)) == old(self)@.make_room(
                    tier,
                    bytes,
                    key_id(protected),
                ),
            decreases self@.store(tier).buffers.dom().len(),
        {
            proof {
                model::lemma_make_room_step(self@, tier, bytes, key_id(protected));
            }
            let victim = match self.find_victim(tier, protected) {
                Some(v) => v,
                None => {
                    return Err(
                        TierError::CapacityExceeded {
                            requested: bytes,
                            available: self.store(tier).capacity() - self.store(tier).used_bytes(),
                        },
                    );
                },
            };
            match tier.colder() {
                Some(colder) => {
                    match self.move_to(victim, tier, colder) {
                        Ok(()) => {},
                        Err(e) => {
                            return Err(e);
                        },
                    }
                },
                None => {
                    let ghost before = self@;
                    proof {
                        store::lemma_store_remove_wf(before.storage, victim.0);
                    }
                    match self.store_mut(tier).remove(victim) {
                        Ok(_removed) => {},
                        Err(e) => {
                            return Err(e);
                        },
                    }
                },
            }
        }
        Ok(())
    }

    fn move_to(&mut self, key: BufferKey, source: TierLevel, target: TierLevel) -> (res: Result<
        (),
        TierError,
    >)
        requires
            old(self).well_formed(),
            source.spec_colder() == Some(target),
        ensures
            final(self).well_formed(),
            (final(self)@, res) == old(self)@.move_down(key.0, source),
        decreases depth(target), 2nat,
    {
        proof {
            model::lemma_move_down(self@, key.0, source);
        }
        let data = match self.store_mut(source).remove(key) {
            Ok(d) => d,
            Err(e) => {
                return Err(e);
            },
        };
        let len = data.len();
        proof {
            store::lemma_store_remove_wf(old(self)@.store(source), key.0);
        }
        match self.make_room(target, len, Some(key)) {
            Ok(()) => {},
            Err(e) => {
                return Err(e);
            },
        }
        self.store_mut(target).insert(key, data)
    }

    /// Returns used bytes in a tier.
    fn used_bytes(&self, tier: TierLevel) -> (res: usize)
        ensures
            res == self@.store(tier).used,
    {
        self.store(tier).used_bytes()
    }

    /// Returns the keys in a tier, in ascending order.
    fn keys(&self, tier: TierLevel) -> (res: Vec<BufferKey>)
        ensures
            maplib::ascending(types::key_ids(res@)),
            types::key_ids(res@).to_set() == self@.store(tier).buffers.dom(),
    {
        self.store(tier).keys()
    }
}

/// Coordinates placement across VRAM, host memory, and storage.
#[derive(Debug)]
pub struct TierManager {
    tiers: Tiers,
}

impl View for TierManager {
    type V = TiersView;

    closed spec fn view(&self) -> TiersView {
        self.tiers@
    }
}

impl TierManager {
    /// The stores are well-formed and hold disjoint keys; every manager is.
    #[verifier::type_invariant]
    pub open spec fn well_formed(&self) -> bool {
        self@.well_formed()
    }

    /// Takes the stores out, leaving empty ones in their place.
    fn take_tiers(&mut self) -> (res: Tiers)
        ensures
            res.well_formed(),
            res@ == old(self)@,
    {
        proof {
            use_type_invariant(&*self);
        }
        let mut tiers = Tiers::new(0, 0, 0);
        std::mem::swap(&mut tiers, &mut self.tiers);
        tiers
    }

    /// Creates a tier manager backed by simulated stores.
    pub fn new(vram_bytes: usize, host_bytes: usize, storage_bytes: usize) -> (res: TierManager)
        ensures
            res.well_formed(),
            res@.vram.capacity == vram_bytes,
            res@.host.capacity == host_bytes,
            res@.storage.capacity == storage_bytes,
            res@.vram.used == 0 && res@.host.used == 0 && res@.storage.used == 0,
            res@.vram.buffers == Map::<u64, Seq<u8>>::empty(),
            res@.host.buffers == Map::<u64, Seq<u8>>::empty(),
            res@.storage.buffers == Map::<u64, Seq<u8>>::empty(),
    {
        TierManager { tiers: Tiers::new(vram_bytes, host_bytes, storage_bytes) }
    }

    /// Inserts a buffer into the hottest tier that can accept it.
    ///
    /// # Errors
    ///
    /// Returns an error if the key exists or all tiers lack capacity.
    pub fn insert(&mut self, key: BufferKey, data: Vec<u8>) -> (res: Result<TierLevel, TierError>)
        ensures
            final(self).well_formed(),
            (final(self)@, res) == old(self)@.insert(key.0, data@),
    {
        let mut tiers = self.take_tiers();
        let res = tiers.insert(key, data);
        self.tiers = tiers;
        res
    }

    /// Reads a managed buffer from any tier.
    ///
    /// # Errors
    ///
    /// Returns an error if the key is absent.
    pub fn get(&self, key: BufferKey) -> (res: Result<Vec<u8>, TierError>)
        ensures
            self.well_formed(),
            match res {
                Ok(d) => model::buffer_at(self@, key.0) == Some(d@),
                Err(e) => model::buffer_at(self@, key.0) is None && e == TierError::MissingKey(key),
            },
    {
        proof {
            use_type_invariant(self);
        }
        self.tiers.get(key)
    }

    /// Promotes a buffer to the requested hotter or equal tier.
    ///
    /// # Errors
    ///
    /// Returns an error if the key is absent or the target cannot fit the buffer.
    /// A failed promotion leaves every buffer where it was.
    pub fn promote(&mut self, key: BufferKey, target: TierLevel) -> (res: Result<(), TierError>)
        ensures
            final(self).well_formed(),
            (final(self)@, res) == old(self)@.promote(key.0, target),
    {
        let mut tiers = self.take_tiers();
        let res = tiers.promote(key, target);
        self.tiers = tiers;
        res
    }

    /// Demotes a buffer by one tier.
    ///
    /// # Errors
    ///
    /// Returns an error if the key is absent or already in storage, or if
    /// the colder tier cannot make room for the buffer (a capacity error). A
    /// failed demotion leaves every buffer where it was.
    pub fn demote(&mut self, key: BufferKey) -> (res: Result<TierLevel, TierError>)
        ensures
            final(self).well_formed(),
            final(self)@ == old(self)@.demoted(key.0),
            match old(self)@.tier_of(key.0) {
                None => res == Err::<TierLevel, TierError>(TierError::MissingKey(key)),
                Some(TierLevel::Storage) => match res {
                    Err(TierError::InvalidInput(m)) => m@ == "cannot demote a buffer already in storage"@,
                    _ => false,
                },
                Some(t) => match old(self)@.move_down(key.0, t).1 {
                    Ok(_) => res == Ok::<TierLevel, TierError>(t.spec_colder().unwrap()),
                    Err(e) => res == Err::<TierLevel, TierError>(e),
                },
            },
    {
        let mut tiers = self.take_tiers();
        let res = tiers.demote(key);
        self.tiers = tiers;
        res
    }

    /// Evicts a buffer from whichever tier currently holds it.
    ///
    /// # Errors
    ///
    /// Returns an error if the key is absent.
    pub fn evict(&mut self, key: BufferKey) -> (res: Result<Vec<u8>, TierError>)
        ensures
            final(self).well_formed(),
            final(self)@ == old(self)@.evicted(key.0),
            match res {
                Ok(d) => model::buffer_at(old(self)@, key.0) == Some(d@) && final(self)@ == old(
                    self,
                )@.remove_from(old(self)@.tier_of(key.0).unwrap(), key.0).0,
                Err(e) => model::buffer_at(old(self)@, key.0) is None && e == TierError::MissingKey(
                    key,
                ) && final(self)@ == old(self)@,
            },
    {
        let mut tiers = self.take_tiers();
        let res = tiers.evict(key);
        self.tiers = tiers;
        res
    }

    /// Returns the current tier for a key.
    pub fn tier_of(&self, key: BufferKey) -> (res: Option<TierLevel>)
        ensures
            self.well_formed(),
            res == self@.tier_of(key.0),
    {
        proof {
            use_type_invariant(self);
        }
        self.tiers.tier_of(key)
    }

    /// Returns used bytes in a tier.
    pub fn used_bytes(&self, tier: TierLevel) -> (res: usize)
        ensures
            self.well_formed(),
            res == self@.store(tier).used,
    {
        proof {
            use_type_invariant(self);
        }
        self.tiers.used_bytes(tier)
    }

    /// Returns the keys in a tier, in ascending order.
    pub fn keys(&self, tier: TierLevel) -> (res: Vec<BufferKey>)
        ensures
            self.well_formed(),
            maplib::ascending(types::key_ids(res@)),
            types::key_ids(res@).to_set() == self@.store(tier).buffers.dom(),
    {
        proof {
            use_type_invariant(self);
        }
        self.tiers.keys(tier)
    }
}

impl Clone for TierManager {
    fn clone(&self) -> (res: TierManager)
        ensures
            res@ == self@,
    {
        proof {
            use_type_invariant(self);
        }
        TierManager { tiers: self.tiers.duplicate() }
    }
}

} // verus!
