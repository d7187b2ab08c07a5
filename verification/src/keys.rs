//! The verifying keys of users.
use crate::types::{PublicKey, UserID};
use dashmap::DashMap;
use std::hash::RandomState;
use vstd::prelude::*;

verus! {

/// The keys that a map holds, by user number.
pub uninterp spec fn keys_in(map: DashMap<u64, PublicKey, RandomState>) -> Map<u64, PublicKey>;

/// No key at all.
pub open spec fn no_keys() -> Map<u64, PublicKey> {
    Map::empty()
}

/// Calls `DashMap::new`: the map holds nothing.
#[verifier::external_body]
fn new_key_map() -> (r: DashMap<u64, PublicKey, RandomState>)
    ensures
        keys_in(r) == no_keys(),
{
    DashMap::new()
}

/// Calls `DashMap::get` and hands out a copy of what the map holds for the key.
#[verifier::external_body]
fn key_map_get(map: &DashMap<u64, PublicKey, RandomState>, key: u64) -> (r: Option<PublicKey>)
    ensures
        r == (if keys_in(*map).contains_key(key) {
            Some(keys_in(*map)[key])
        } else {
            None
        }),
{
    map.get(&key).map(|entry| *entry.value())
}

/// Calls `DashMap::insert`: the map holds the value for the key, in place of what
/// it held for it before.
#[verifier::external_body]
fn key_map_insert(map: &mut DashMap<u64, PublicKey, RandomState>, key: u64, value: PublicKey)
    ensures
        keys_in(*final(map)) == keys_in(*old(map)).insert(key, value),
{
    map.insert(key, value);
}

/// The verifying keys of all users.
#[derive(Debug)]
pub struct PublicKeyCache {
    map: DashMap<u64, PublicKey, RandomState>,
}

impl View for PublicKeyCache {
    type V = Map<u64, PublicKey>;

    closed spec fn view(&self) -> Map<u64, PublicKey> {
        keys_in(self.map)
    }
}

impl PublicKeyCache {
    /// A cache without keys.
    pub fn new() -> (r: PublicKeyCache)
        ensures
            r@ == no_keys(),
    {
        PublicKeyCache { map: new_key_map() }
    }

    /// The key of a user, if there is one.
    pub fn get(&self, user_id: UserID) -> (r: Option<PublicKey>)
        ensures
            r == (if self@.contains_key(user_id.0) {
                Some(self@[user_id.0])
            } else {
                None
            }),
    {
        key_map_get(&self.map, user_id.0)
    }

    /// Puts the key of a user in, in place of the one that they had.
    pub fn put(&mut self, user_id: UserID, key: PublicKey)
        ensures
            final(self)@ == old(self)@.insert(user_id.0, key),
    {
        key_map_insert(&mut self.map, user_id.0, key);
    }
}

} // verus!
