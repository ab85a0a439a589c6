//! A bounded-shape, key-addressed associative store: a fixed number of
//! buckets chosen at construction, per-entry optional time-to-live, and
//! shared handles that serialize every operation through one lock.
//!
//! `MiniMap` is the shared handle; the state it guards, and the contracts
//! that pin down what every operation computes, live in [`store::Store`].
//! All instants and durations are nanosecond values of one clock.
use std::sync::Arc;
use vstd::prelude::*;
use vstd::rwlock::{RwLock, RwLockPredicate};

pub mod hashing;
pub mod laws;
pub mod store;
pub mod ttl;

use crate::store::Store;

verus! {

/// The single error the store can report: `insert_many` was given key and
/// value sequences of different lengths.
#[derive(Debug, PartialEq, Eq)]
pub enum MapError {
    LengthMismatch,
}

/// What a handle's lock protects: a well-formed store built with `n`
/// buckets. Every release of the lock re-establishes it, so every
/// acquisition may assume it.
pub struct StorePred {
    pub n: usize,
}

impl<T> RwLockPredicate<Store<T>> for StorePred {
    open spec fn inv(self, s: Store<T>) -> bool {
        s.wf() && s.num_buckets() == self.n
    }
}

/// Relies on `std::time::SystemTime::now` and `duration_since(UNIX_EPOCH)`:
/// a reading of the system clock, converted to whole nanoseconds and held
/// to `u64` range. Nothing is assumed of the value: every function that
/// interprets it takes the reading as an argument and is verified for all
/// of them.
#[verifier::external_body]
fn clock_now_nanos() -> u64 {
    match std::time::SystemTime::now().duration_since(std::time::UNIX_EPOCH) {
        Ok(d) => u64::try_from(d.as_nanos()).unwrap_or(u64::MAX),
        Err(_) => 0,
    }
}

/// A simple hash map with a fixed bucket count.
///
/// `N` fixes the number of buckets at construction and is never changed
/// afterward. A larger `N` spreads keys over more buckets and so shortens
/// the linear scans, at the expense of more up-front memory.
///
/// A `MiniMap` is a handle to shared storage: cloning it yields another
/// handle to the same entries, and every operation of every handle takes
/// the one lock for its full duration, so all operations observe a single
/// total order. A caller that dies while holding the lock leaves the map
/// unusable for all handles; that is a process-fatal condition, not one
/// the interface reports.
pub struct MiniMap<const N: usize, T: Clone> {
    storage: Arc<RwLock<Store<T>, StorePred>>,
}

impl<const N: usize, T: Clone> MiniMap<N, T> {
    #[verifier::type_invariant]
    spec fn wf_handle(self) -> bool {
        &&& (*self.storage).pred() == (StorePred { n: N })
        &&& N >= 1
    }

    /// Creates an empty map of `N` buckets, all pre-allocated.
    pub fn new() -> (r: MiniMap<N, T>)
        requires
            N >= 1,
    {
        let store = Store::<T>::new(N);
        let lock = RwLock::<Store<T>, StorePred>::new(store, Ghost(StorePred { n: N }));
        MiniMap { storage: Arc::new(lock) }
    }

    /// Inserts or replaces the item at the given key, taking the current
    /// clock reading; an optional `ttl` (in nanoseconds) controls the
    /// expiration of an item first inserted now. The key's routing, the
    /// update-in-place rule and the kept expiration clock are pinned down
    /// by [`Store::insert_at`], which this calls under the lock.
    pub fn insert(&mut self, key: &str, value: T, ttl: Option<u64>) {
        proof {
            use_type_invariant(&*self);
        }
        let now = clock_now_nanos();
        let (mut store, handle) = self.storage.acquire_write();
        store.insert_at(key, value, ttl, now);
        handle.release_write(store);
    }

    /// Inserts or replaces an item at each of the given keys under one
    /// lock acquisition. The lengths are checked before the lock is taken:
    /// on a mismatch nothing is inserted and the error says so, if and
    /// only if.
    pub fn insert_many(&mut self, keys: &[&str], values: &[T], ttl: Option<u64>) -> (r: Result<
        (),
        MapError,
    >)
        ensures
            r is Ok <==> keys@.len() == values@.len(),
    {
        if keys.len() != values.len() {
            return Result::Err(MapError::LengthMismatch);
        }
        proof {
            use_type_invariant(&*self);
        }
        let now = clock_now_nanos();
        let (mut store, handle) = self.storage.acquire_write();
        let r = store.insert_many_at(keys, values, ttl, now);
        handle.release_write(store);
        r
    }

    /// Gets the item at the given key, if it exists and is not expired at
    /// the current clock reading, together with its remaining time-to-live
    /// in nanoseconds. An expired item reads as absent but is not removed
    /// until [`Self::expire`] runs. What a lookup returns for every store
    /// state is pinned down by [`Store::get_at`], which this calls under
    /// the lock.
    pub fn get(&self, key: &str) -> Option<(T, Option<u64>)> {
        proof {
            use_type_invariant(self);
        }
        let now = clock_now_nanos();
        let handle = self.storage.acquire_read();
        let r = handle.borrow().get_at(key, now);
        handle.release_read();
        r
    }

    /// Removes the item at the given key and returns its value; its
    /// expiration status, if any, is ignored. The contract of
    /// [`Store::remove`], which this calls under the lock, pins both down.
    pub fn remove(&mut self, key: &str) -> Option<T> {
        proof {
            use_type_invariant(&*self);
        }
        let (mut store, handle) = self.storage.acquire_write();
        let r = store.remove(key);
        handle.release_write(store);
        r
    }

    /// Checks the expiration status of every key at the current clock
    /// reading and permanently removes the expired items, returning how
    /// many were removed. Which entries one sweep removes is pinned down
    /// by [`Store::expire_at`], which this calls under the lock.
    pub fn expire(&mut self) -> usize {
        proof {
            use_type_invariant(&*self);
        }
        let now = clock_now_nanos();
        let (mut store, handle) = self.storage.acquire_write();
        let r = store.expire_at(now);
        handle.release_write(store);
        r
    }

    /// Returns the total number of keys in the map, ignoring expiration
    /// status.
    pub fn len(&self) -> usize {
        proof {
            use_type_invariant(self);
        }
        let handle = self.storage.acquire_read();
        let r = handle.borrow().len();
        handle.release_read();
        r
    }
}

impl<const N: usize, T: Clone> Clone for MiniMap<N, T> {
    /// Yields a new handle to the same storage: the clone and the original
    /// are the same map, not two copies of its entries.
    fn clone(&self) -> (res: Self)
        ensures
            res == *self,
    {
        proof {
            use_type_invariant(self);
        }
        MiniMap { storage: self.storage.clone() }
    }
}

} // verus!
