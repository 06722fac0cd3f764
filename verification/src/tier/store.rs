use crate::maplib;
use crate::types::{self, BufferKey, TierError};
use std::collections::HashMap;
use vstd::prelude::*;

verus! {

broadcast use vstd::std_specs::hash::group_hash_axioms;

/// Length of a buffer, as the share it takes of a store's capacity.
pub open spec fn byte_len() -> spec_fn(Seq<u8>) -> nat {
    |d: Seq<u8>| d.len()
}

/// Total number of bytes held by a set of buffers.
pub open spec fn stored_bytes(buffers: Map<u64, Seq<u8>>) -> nat {
    maplib::map_total(buffers, byte_len())
}

/// Abstract state of one tier store: its capacity, its byte counter and its buffers.
pub struct StoreView {
    /// Total byte capacity.
    pub capacity: usize,
    /// The byte counter.
    pub used: usize,
    /// The buffers held, by key identifier.
    pub buffers: Map<u64, Seq<u8>>,
}

impl StoreView {
    /// The byte counter matches the buffers held, which fit the capacity.
    pub open spec fn well_formed(self) -> bool {
        &&& self.buffers.dom().finite()
        &&& self.used == stored_bytes(self.buffers)
        &&& self.used <= self.capacity
    }

    /// Bytes still free, never negative.
    pub open spec fn available(self) -> usize {
        if self.used <= self.capacity {
            (self.capacity - self.used) as usize
        } else {
            0
        }
    }

    /// Storing `data` under a fresh `key` when it fits the free bytes.
    pub open spec fn insert(self, key: u64, data: Seq<u8>) -> (StoreView, Result<(), TierError>) {
        if self.buffers.contains_key(key) {
            (self, Err(TierError::DuplicateKey(BufferKey(key))))
        } else if data.len() > self.available() {
            (
                self,
                Err(
                    TierError::CapacityExceeded {
                        requested: data.len() as usize,
                        available: self.available(),
                    },
                ),
            )
        } else {
            (
                StoreView {
                    capacity: self.capacity,
                    used: (self.used + data.len()) as usize,
                    buffers: self.buffers.insert(key, data),
                },
                Ok(()),
            )
        }
    }

    /// Taking the buffer under `key` out, when present.
    pub open spec fn remove(self, key: u64) -> (StoreView, Result<Seq<u8>, TierError>) {
        if self.buffers.contains_key(key) {
            let data = self.buffers[key];
            (
                StoreView {
                    capacity: self.capacity,
                    used: if self.used >= data.len() {
                        (self.used - data.len()) as usize
                    } else {
                        0
                    },
                    buffers: self.buffers.remove(key),
                },
                Ok(data),
            )
        } else {
            (self, Err(TierError::MissingKey(BufferKey(key))))
        }
    }
}

/// Storing a buffer keeps a well-formed store well-formed.
pub proof fn lemma_store_insert_wf(s: StoreView, key: u64, data: Seq<u8>)
    requires
        s.well_formed(),
    ensures
        s.insert(key, data).0.well_formed(),
{
    if !s.buffers.contains_key(key) && data.len() <= s.available() {
        maplib::lemma_map_total_insert(s.buffers, byte_len(), key, data);
    }
}

/// Taking a buffer out keeps a well-formed store well-formed, and the counter exact.
pub proof fn lemma_store_remove_wf(s: StoreView, key: u64)
    requires
        s.well_formed(),
    ensures
        s.remove(key).0.well_formed(),
        s.buffers.contains_key(key) ==> s.remove(key).0.used == s.used - s.buffers[key].len(),
{
    if s.buffers.contains_key(key) {
        maplib::lemma_map_total_remove(s.buffers, byte_len(), key);
    }
}

/// Storage abstraction used by tier managers.
pub trait TierStore {
    /// Abstract state of the store.
    spec fn store_view(&self) -> StoreView;

    /// Returns total byte capacity.
    fn capacity(&self) -> (res: usize)
        ensures
            res == self.store_view().capacity,
    ;

    /// Returns currently used bytes.
    fn used_bytes(&self) -> (res: usize)
        ensures
            res == self.store_view().used,
    ;

    /// Returns whether a key is present.
    fn contains(&self, key: BufferKey) -> (res: bool)
        ensures
            res == self.store_view().buffers.contains_key(key.0),
    ;

    /// Inserts an owned buffer.
    ///
    /// # Errors
    ///
    /// Returns an error if the key exists or capacity is insufficient.
    fn insert(&mut self, key: BufferKey, data: Vec<u8>) -> (res: Result<(), TierError>)
        ensures
            (final(self).store_view(), res) == old(self).store_view().insert(key.0, data@),
    ;

    /// Reads a buffer copy.
    ///
    /// # Errors
    ///
    /// Returns an error if the key is absent.
    fn get(&self, key: BufferKey) -> (res: Result<Vec<u8>, TierError>)
        ensures
            match res {
                Ok(d) => self.store_view().buffers.contains_key(key.0) && d@
                    == self.store_view().buffers[key.0],
                Err(e) => !self.store_view().buffers.contains_key(key.0) && e
                    == TierError::MissingKey(key),
            },
    ;

    /// Removes a buffer and returns it.
    ///
    /// # Errors
    ///
    /// Returns an error if the key is absent.
    fn remove(&mut self, key: BufferKey) -> (res: Result<Vec<u8>, TierError>)
        ensures
            final(self).store_view() == old(self).store_view().remove(key.0).0,
            match res {
                Ok(d) => old(self).store_view().buffers.contains_key(key.0) && d@
                    == old(self).store_view().buffers[key.0],
                Err(e) => !old(self).store_view().buffers.contains_key(key.0) && e
                    == TierError::MissingKey(key),
            },
    ;

    /// Returns all keys currently in the store, in ascending order.
    fn keys(&self) -> (res: Vec<BufferKey>)
        ensures
            maplib::ascending(types::key_ids(res@)),
            types::key_ids(res@).to_set() == self.store_view().buffers.dom(),
    ;
}

/// In-memory tier store for deterministic tests without GPU hardware.
#[derive(Clone, Debug)]
pub struct SimulatedStore {
    capacity: usize,
    used_bytes: usize,
    buffers: HashMap<u64, Vec<u8>>,
}

impl View for SimulatedStore {
    type V = StoreView;

    closed spec fn view(&self) -> StoreView {
        StoreView {
            capacity: self.capacity,
            used: self.used_bytes,
            buffers: self.buffers@.map_values(|v: Vec<u8>| v@),
        }
    }
}

impl SimulatedStore {
    /// Creates an empty simulated store.
    pub fn new(capacity: usize) -> (res: SimulatedStore)
        ensures
            res@ == (StoreView { capacity, used: 0, buffers: Map::empty() }),
            res@.well_formed(),
    {
        let res = SimulatedStore { capacity, used_bytes: 0, buffers: HashMap::new() };
        proof {
            assert(res@.buffers =~= Map::empty());
        }
        res
    }

    /// A copy of the store, buffers included.
    pub fn duplicate(&self) -> (res: SimulatedStore)
        ensures
            res@ == self@,
    {
        let res = SimulatedStore {
            capacity: self.capacity,
            used_bytes: self.used_bytes,
            buffers: self.buffers.clone(),
        };
        proof {
            assert(res@.buffers =~= self@.buffers);
        }
        res
    }

    fn available(&self) -> (res: usize)
        ensures
            res == self@.available(),
    {
        self.capacity.saturating_sub(self.used_bytes)
    }
}

impl TierStore for SimulatedStore {
    open spec fn store_view(&self) -> StoreView {
        self@
    }

    fn capacity(&self) -> (res: usize) {
        self.capacity
    }

    fn used_bytes(&self) -> (res: usize) {
        self.used_bytes
    }

    fn contains(&self, key: BufferKey) -> (res: bool) {
        self.buffers.contains_key(&key.0)
    }

    fn insert(&mut self, key: BufferKey, data: Vec<u8>) -> (res: Result<(), TierError>) {
        if self.contains(key) {
            return Err(TierError::DuplicateKey(key));
        }
        let len = data.len();
        if len > self.available() {
            return Err(TierError::CapacityExceeded { requested: len, available: self.available() });
        }
        self.used_bytes = self.used_bytes + len;
        self.buffers.insert(key.0, data);
        proof {
            assert(self@.buffers =~= old(self)@.buffers.insert(key.0, data@));
        }
        Ok(())
    }

    fn get(&self, key: BufferKey) -> (res: Result<Vec<u8>, TierError>) {
        match self.buffers.get(&key.0) {
            Some(data) => Ok(data.clone()),
            None => Err(TierError::MissingKey(key)),
        }
    }

    fn remove(&mut self, key: BufferKey) -> (res: Result<Vec<u8>, TierError>) {
        match self.buffers.remove(&key.0) {
            Some(data) => {
                self.used_bytes = self.used_bytes.saturating_sub(data.len());
                proof {
                    assert(self@.buffers =~= old(self)@.buffers.remove(key.0));
                }
                Ok(data)
            },
            None => {
                proof {
                    assert(self@.buffers =~= old(self)@.buffers);
                }
                Err(TierError::MissingKey(key))
            },
        }
    }

    fn keys(&self) -> (res: Vec<BufferKey>) {
        let mut raw: Vec<u64> = Vec::new();
        let ghost ks = vstd::std_specs::iter::IteratorSpec::remaining(&self.buffers.keys()).unref();
        for k in it: self.buffers.keys()
            invariant
                it.seq().unref() == ks,
                ks.to_set() == self.buffers@.dom(),
                ks.no_duplicates(),
                raw@ == ks.take(it.index()),
        {
            raw.push(*k);
            proof {
                assert(ks.take(it.index() + 1) =~= raw@);
            }
        }
        proof {
            assert(ks.take(ks.len() as int) =~= ks);
        }
        let sorted = maplib::sort_ascending(&raw);
        let mut res: Vec<BufferKey> = Vec::new();
        let mut i: usize = 0;
        while i < sorted.len()
            invariant
                i <= sorted.len(),
                res@.len() == i,
                forall|j: int| 0 <= j < i ==> (#[trigger] res@[j]).0 == sorted@[j],
            decreases sorted.len() - i,
        {
            res.push(BufferKey(sorted[i]));
            i = i + 1;
        }
        proof {
            assert(types::key_ids(res@) =~= sorted@);
            assert(self@.buffers.dom() =~= self.buffers@.dom());
        }
        res
    }
}

} // verus!
