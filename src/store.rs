//! The storage contract and its concurrent in-memory backend.
use vstd::prelude::*;
use std::hash::Hash;
use dashmap::DashMap;

verus! {

/// Failures of a storage backend. None is defined yet: the private field
/// keeps any value of it from being made outside this module, and the
/// in-memory backend never makes one.
#[derive(Debug)]
pub struct StorageError {
    reserved: (),
}

pub type StorageResult<T> = Result<T, StorageError>;

/// Key-value access that callers may share across threads: a missing key
/// reads as `None`, and a write replaces whatever the key held.
pub trait Storage<K, V> {
    fn get(&self, key: &K) -> StorageResult<Option<V>>;

    fn set(&self, key: K, value: V) -> StorageResult<()>;
}

#[verifier::external_type_specification]
#[verifier::external_body]
#[verifier::reject_recursive_types(K)]
#[verifier::reject_recursive_types(V)]
#[verifier::reject_recursive_types(S)]
pub struct ExDashMap<K, V, S>(DashMap<K, V, S>);

/// Relies on `DashMap::new`: a map with no entries and the default hasher.
#[verifier::external_body]
fn empty_map<K: Eq + Hash, V>() -> DashMap<K, V> {
    DashMap::new()
}

/// Relies on `DashMap::get` and `Ref::value`: a copy of what the map holds
/// under `key`, taken under the shard's read lock.
#[verifier::external_body]
fn map_get<K: Eq + Hash, V: Clone>(m: &DashMap<K, V>, key: &K) -> Option<V> {
    m.get(key).map(|r| r.value().clone())
}

/// Relies on `DashMap::insert`: stores `value` under `key` under the
/// shard's write lock, dropping any earlier value.
#[verifier::external_body]
fn map_insert<K: Eq + Hash, V>(m: &DashMap<K, V>, key: K, value: V) {
    m.insert(key, value);
}

/// A store held in memory, sharded so that writers of different keys
/// rarely wait on one another.
#[verifier::reject_recursive_types(K)]
#[verifier::reject_recursive_types(V)]
pub struct MemoryStorage<K: Eq + Hash, V> {
    data: DashMap<K, V>,
}

impl<K: Eq + Hash, V> MemoryStorage<K, V> {
    pub fn new() -> Self {
        MemoryStorage { data: empty_map() }
    }
}

impl<K: Eq + Hash, V: Clone> Storage<K, V> for MemoryStorage<K, V> {
    /// Never fails: a key that holds nothing reads as `None`.
    fn get(&self, key: &K) -> (r: StorageResult<Option<V>>)
        ensures
            r is Ok,
    {
        Ok(map_get(&self.data, key))
    }

    /// Never fails: the write replaces whatever `key` held.
    fn set(&self, key: K, value: V) -> (r: StorageResult<()>)
        ensures
            r == Ok::<(), StorageError>(()),
    {
        map_insert(&self.data, key, value);
        Ok(())
    }
}

} // verus!
