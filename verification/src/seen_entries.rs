//! The entries the tracker has already posted, in a bounded LRU cache of the
//! `lru` crate.

use vstd::prelude::*;

verus! {

#[verifier::external_type_specification]
#[verifier::external_body]
#[verifier::reject_recursive_types(K)]
#[verifier::reject_recursive_types(V)]
#[verifier::reject_recursive_types(S)]
pub struct ExLruCache<K, V, S>(lru::LruCache<K, V, S>);

#[verifier::external_type_specification]
#[verifier::external_body]
pub struct ExLruHasher(lru::DefaultHasher);

/// The keys of the cache, most recently used first.
pub uninterp spec fn lru_keys(cache: lru::LruCache<String, ()>) -> Seq<Seq<char>>;

/// The number of keys the cache was made to hold.
pub uninterp spec fn lru_capacity(cache: lru::LruCache<String, ()>) -> nat;

/// `lru::LruCache::new`: an empty cache holding at most `cap` keys.
#[verifier::external_body]
fn lru_new(cap: usize) -> (r: lru::LruCache<String, ()>)
    requires
        cap > 0,
    ensures
        lru_keys(r) == Seq::<Seq<char>>::empty(),
        lru_capacity(r) == cap,
{
    lru::LruCache::new(std::num::NonZeroUsize::new(cap).unwrap())
}

/// `lru::LruCache::contains`: whether `key` is in the cache (the recency
/// order is left as it is).
#[verifier::external_body]
fn lru_contains(cache: &lru::LruCache<String, ()>, key: &str) -> (b: bool)
    ensures
        b == lru_keys(*cache).contains(key@),
{
    cache.contains(key)
}

/// The keys after `key` is put into a cache holding `keys` at most `cap` at a
/// time: `key` becomes the most recent; a key already present moves there,
/// and otherwise a full cache drops its least recent key.
pub open spec fn keys_after_put(keys: Seq<Seq<char>>, cap: nat, key: Seq<char>) -> Seq<Seq<char>> {
    if keys.contains(key) {
        seq![key] + keys.remove(keys.index_of(key))
    } else if keys.len() >= cap {
        seq![key] + keys.drop_last()
    } else {
        seq![key] + keys
    }
}

/// `lru::LruCache::put` with the unit value: `key` becomes the most recently
/// used key, and a full cache gives up its least recently used key to make
/// room. The keys stay distinct and never exceed the capacity.
#[verifier::external_body]
fn lru_put(cache: &mut lru::LruCache<String, ()>, key: String)
    ensures
        lru_capacity(*final(cache)) == lru_capacity(*old(cache)),
        lru_keys(*final(cache)) == keys_after_put(
            lru_keys(*old(cache)),
            lru_capacity(*old(cache)),
            key@,
        ),
        lru_keys(*final(cache)).no_duplicates(),
        lru_keys(*final(cache)).len() <= lru_capacity(*final(cache)),
{
    cache.put(key, ());
}

/// A remembered key stays remembered when another key is recorded, unless the
/// cache is full, the new key is not in it, and the remembered key is the least
/// recently used one.
pub proof fn lemma_remembered_until_evicted(keys: Seq<Seq<char>>, cap: nat, key: Seq<char>, other: Seq<char>)
    requires
        keys.len() <= cap,
        keys.contains(other),
        other != key,
        !(keys.len() == cap && !keys.contains(key) && keys.last() == other),
    ensures
        keys_after_put(keys, cap, key).contains(other),
{
    let i = choose|i: int| 0 <= i < keys.len() && keys[i] == other;
    let after = keys_after_put(keys, cap, key);
    if keys.contains(key) {
        let k = keys.index_of(key);
        let rest = keys.remove(k);
        if i < k {
            assert(after[i + 1] == other);
        } else {
            assert(i != k);
            assert(rest[i - 1] == other);
            assert(after[i] == other);
        }
    } else if keys.len() >= cap {
        assert(i < keys.len() - 1);
        assert(after[i + 1] == other);
    } else {
        assert(after[i + 1] == other);
    }
}

/// Keys of entries already handled, the most recent first, at most a fixed
/// number of them.
pub struct SeenEntries {
    cache: lru::LruCache<String, ()>,
}

impl SeenEntries {
    /// The remembered keys, the most recently recorded first.
    pub closed spec fn keys(&self) -> Seq<Seq<char>> {
        lru_keys(self.cache)
    }

    /// How many keys are remembered at most.
    pub closed spec fn capacity(&self) -> nat {
        lru_capacity(self.cache)
    }

    /// The keys are distinct and no more than the capacity.
    #[verifier::type_invariant]
    spec fn bounded(self) -> bool {
        &&& self.keys().no_duplicates()
        &&& self.keys().len() <= self.capacity()
        &&& self.capacity() > 0
    }

    /// Nothing remembered yet; room for `cap` keys.
    pub fn new(cap: usize) -> (r: SeenEntries)
        requires
            cap > 0,
        ensures
            r.keys() == Seq::<Seq<char>>::empty(),
            r.capacity() == cap,
    {
        SeenEntries { cache: lru_new(cap) }
    }

    /// Whether `key` is remembered (the remembered keys are distinct and no
    /// more than the capacity).
    pub fn contains(&self, key: &str) -> (b: bool)
        ensures
            b == self.keys().contains(key@),
            self.keys().no_duplicates(),
            self.keys().len() <= self.capacity(),
    {
        proof {
            use_type_invariant(self);
        }
        lru_contains(&self.cache, key)
    }

    /// Remembers `key` as the most recent one; the keys stay distinct and
    /// within the capacity.
    pub fn record(&mut self, key: String)
        ensures
            final(self).capacity() == old(self).capacity(),
            final(self).keys() == keys_after_put(old(self).keys(), old(self).capacity(), key@),
            final(self).keys().no_duplicates(),
            final(self).keys().len() <= final(self).capacity(),
    {
        let mut cache = lru_new(1);
        std::mem::swap(&mut cache, &mut self.cache);
        lru_put(&mut cache, key);
        self.cache = cache;
    }
}

} // verus!
