//! The cache of identifiers that were resolved to remote ids.
//!
//! It is `ttl_cache::TtlCache` behind a few trusted declarations. Entries
//! leave it when their time is up or when room is needed, so a lookup may
//! miss whatever was stored; what it returns was stored.

use std::collections::hash_map::RandomState;
use std::hash::{BuildHasher, Hash};
use std::time::Duration;
use ttl_cache::TtlCache;
use vstd::prelude::*;

verus! {

/// `ttl_cache::TtlCache`, carried as a value that nothing here looks into.
#[verifier::external_type_specification]
#[verifier::external_body]
#[verifier::reject_recursive_types(K)]
#[verifier::reject_recursive_types(V)]
#[verifier::reject_recursive_types(S)]
pub struct ExTtlCache<K: Eq + Hash, V, S: BuildHasher>(TtlCache<K, V, S>);

/// The pairs that the cache keeps, those whose time is up among them as long
/// as they have not been dropped.
pub uninterp spec fn cache_entries(c: TtlCache<String, String, RandomState>) -> Map<
    Seq<char>,
    Seq<char>,
>;

/// The number of pairs that the cache was made to keep at most.
pub uninterp spec fn cache_capacity(c: TtlCache<String, String, RandomState>) -> nat;

/// The contents of a cache in which nothing was stored.
pub open spec fn no_entries() -> Map<Seq<char>, Seq<char>> {
    Map::empty()
}

/// The longest time to live that an entry may be given, in seconds.
pub const MAX_TTL_SECS: u64 = 4294967295;

/// The time to live of a resolved identifier: a day.
pub const CACHE_TTL_SECS: u64 = 86400;

/// The number of entries that the cache of a client keeps at most.
pub const CACHE_CAPACITY: usize = 100;

/// The cache keeps a finite number of pairs, no more than it was made for.
pub open spec fn within_capacity(c: TtlCache<String, String, RandomState>) -> bool {
    &&& cache_entries(c).dom().finite()
    &&& cache_entries(c).dom().len() <= cache_capacity(c)
}

/// `TtlCache::new`: an empty cache for at most `capacity` pairs.
#[verifier::external_body]
fn ttl_new(capacity: usize) -> (r: TtlCache<String, String, RandomState>)
    ensures
        cache_entries(r) == no_entries(),
        cache_capacity(r) == capacity,
{
    TtlCache::new(capacity)
}

/// `TtlCache::get`, with the value copied out. What comes back is the value
/// kept under the key; nothing comes back for a key that is not kept, and
/// nothing may come back for one that is, once its time is up.
#[verifier::external_body]
fn ttl_get(c: &TtlCache<String, String, RandomState>, key: &str) -> (r: Option<String>)
    ensures
        r matches Some(v) ==> cache_entries(*c).contains_key(key@) && cache_entries(*c)[key@]
            == v@,
{
    c.get(key).cloned()
}

/// `TtlCache::insert` with a time to live in whole seconds. The pair is
/// stored over what the key had; if that is one pair too many, the pair that
/// was stored longest ago is dropped, which is the new one only where the
/// cache was made for none. What comes back was kept under the key before.
/// The call adds the time to live to the clock's reading, which is why the
/// time to live is bounded: within the bound the call does not panic.
#[verifier::external_body]
fn ttl_insert(
    c: &mut TtlCache<String, String, RandomState>,
    key: String,
    value: String,
    ttl_secs: u64,
) -> (r: Option<String>)
    requires
        within_capacity(*old(c)),
        ttl_secs <= MAX_TTL_SECS,
    ensures
        cache_capacity(*final(c)) == cache_capacity(*old(c)),
        within_capacity(*final(c)),
        cache_entries(*final(c)).submap_of(cache_entries(*old(c)).insert(key@, value@)),
        cache_capacity(*old(c)) > 0 ==> cache_entries(*final(c)).contains_pair(key@, value@),
        cache_entries(*old(c)).contains_key(key@) || cache_entries(*old(c)).dom().len()
            < cache_capacity(*old(c)) ==> cache_entries(*final(c)) == cache_entries(
            *old(c),
        ).insert(key@, value@),
        r matches Some(v) ==> cache_entries(*old(c)).contains_pair(key@, v@),
    no_unwind
{
    c.insert(key, value, Duration::from_secs(ttl_secs))
}

/// The times to live that identifiers were stored with, in seconds.
pub type Lifetimes = Map<Seq<char>, u64>;

/// The times to live of a cache in which nothing was stored.
pub open spec fn no_lifetimes() -> Lifetimes {
    Map::empty()
}

/// Identifiers resolved to remote ids, each kept for a limited time. Beside
/// the cache itself stands a note of the time to live that each identifier
/// was last stored with: the cache keeps a deadline read off the clock, not
/// that number.
pub struct IdentityCache {
    inner: TtlCache<String, String, RandomState>,
    asked: Ghost<Lifetimes>,
}

impl IdentityCache {
    /// The pairs that are kept.
    pub closed spec fn entries(&self) -> Map<Seq<char>, Seq<char>> {
        cache_entries(self.inner)
    }

    /// The number of pairs kept at most.
    pub closed spec fn capacity(&self) -> nat {
        cache_capacity(self.inner)
    }

    /// The time to live that each identifier was last stored with.
    pub closed spec fn lifetimes(&self) -> Lifetimes {
        self.asked@
    }

    /// No more is kept than there is room for.
    #[verifier::type_invariant]
    spec fn fits(&self) -> bool {
        within_capacity(self.inner)
    }

    /// An empty cache for at most `capacity` entries.
    pub fn new(capacity: usize) -> (r: IdentityCache)
        ensures
            r.entries() == no_entries(),
            r.capacity() == capacity,
            r.lifetimes() == no_lifetimes(),
    {
        let inner = ttl_new(capacity);
        assert(cache_entries(inner).dom() =~= Set::empty());
        IdentityCache { inner, asked: Ghost(Map::empty()) }
    }

    /// The remote id kept for the identifier, unless its time is up. A miss
    /// is never an error: the entry may have left early.
    pub fn get(&self, id: &str) -> (r: Option<String>)
        ensures
            r matches Some(remote_id) ==> self.entries().contains_pair(id@, remote_id@),
            !self.entries().contains_key(id@) ==> r is None,
    {
        ttl_get(&self.inner, id)
    }

    /// Stores the remote id for the identifier, over what it had, with the
    /// given time to live, and starts its time anew. Where the cache is full
    /// the entry stored longest ago makes room.
    pub fn put(&mut self, id: String, remote_id: String, ttl_secs: u64)
        requires
            ttl_secs <= MAX_TTL_SECS,
        ensures
            final(self).capacity() == old(self).capacity(),
            final(self).lifetimes() == old(self).lifetimes().insert(id@, ttl_secs),
            final(self).entries().dom().finite(),
            final(self).entries().dom().len() <= final(self).capacity(),
            final(self).entries().submap_of(old(self).entries().insert(id@, remote_id@)),
            old(self).capacity() > 0 ==> final(self).entries().contains_pair(id@, remote_id@),
            old(self).entries().contains_key(id@) || old(self).entries().dom().len() < old(
                self,
            ).capacity() ==> final(self).entries() == old(self).entries().insert(
                id@,
                remote_id@,
            ),
    {
        proof {
            use_type_invariant(&*self);
        }
        self.asked = Ghost(self.asked@.insert(id@, ttl_secs));
        let _ = ttl_insert(&mut self.inner, id, remote_id, ttl_secs);
    }
}

} // verus!
