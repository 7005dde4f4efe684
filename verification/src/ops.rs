//! The operations of the cache that go by key, each built from one lookup
//! and what the entry that it finds can do.
//!
//! A key is found by its hash and compared only with keys that came in under
//! the same hash. The hash of a key comes from the cache's hash builder, of
//! which nothing is known here. So every operation that takes a key comes
//! twice: once with the hash given, and with a contract that says exactly
//! what happens; and once without, where the hash is asked from the hash
//! builder and the contract holds of whatever hash that was.

use crate::cache::LruCache;
use crate::entry::{Entry, OccupiedEntry, OccupiedExtra, VacantEntry};
use crate::key::{BorrowedKey, Key, OwnedKey};
use crate::limiter::{unref, Limiter};
use crate::model::{
    admitted, disused, emptied, find_slot, has_slot, inserted, lemma_drained_first_slot,
    lemma_find_matches, pop_lru_result, pop_result, promoted, push_result, put_result, replaceable,
    updatable, used, value_of, Slot,
};
use crate::table::MAX_TABLE_LEN;
use std::hash::{BuildHasher, Hash};
use vstd::prelude::*;

verus! {

impl<K: Hash + Eq, V, L: Limiter<K, V>, S: BuildHasher> LruCache<K, V, L, S> {
    /// Whether the limiter refuses this value under this key.
    pub open spec fn refuses(&self, key: K, value: V) -> bool {
        self.spec_limiter().add_behavior(self@.len(), key, value) is Reject
    }

    /// The limiter after it has been asked whether this value may come in
    /// under this key.
    pub open spec fn limiter_after_add(&self, key: K, value: V) -> L {
        self.spec_limiter().after_add(self@.len(), key, value)
    }

    /// What is left when this value has come in under this key and hash and
    /// what has to leave has left: the entries, with the new entry first,
    /// and the limiter.
    pub open spec fn inserted(&self, hash: u64, key: K, value: V) -> (Seq<Slot<K, V>>, L) {
        inserted(self@, self.spec_limiter(), hash, key, value)
    }

    /// The entry of the key under the given hash, for any shape of lookup
    /// key: an occupied entry that still has the lookup key where the cache
    /// holds the key under the hash, a vacant one where it does not.
    pub fn entry_for_hashed<Q: Key<Key = K>>(&mut self, hash: u64, k: Q) -> (e: Entry<
        '_,
        K,
        V,
        Q,
        L,
        S,
    >)
        requires
            old(self).wf(),
        ensures
            match e {
                Entry::Occupied(o) => {
                    &&& *o.cache == *old(self)
                    &&& *final(self) == *final(o.cache)
                    &&& o.wf()
                    &&& find_slot(old(self)@, hash, k.spec_ref()) == Some(o.index())
                    &&& o.extra == OccupiedExtra::<K, V, Q>::Key(Some(k))
                },
                Entry::Vacant(v) => {
                    &&& *v.cache == *old(self)
                    &&& *final(self) == *final(v.cache)
                    &&& find_slot(old(self)@, hash, k.spec_ref()) is None
                    &&& v.hash == hash
                    &&& v.key == k
                },
            },
    {
        match self.lookup(hash, Q::as_ref(&k)) {
            None => Entry::Vacant(VacantEntry { cache: self, key: k, hash }),
            Some(node) => Entry::Occupied(
                OccupiedEntry { cache: self, node, extra: OccupiedExtra::Key(Some(k)) },
            ),
        }
    }

    /// The entry of the key, for any shape of lookup key, under the hash that
    /// the hash builder gives the key.
    pub fn entry_for<Q: Key<Key = K>>(&mut self, k: Q) -> (e: Entry<'_, K, V, Q, L, S>)
        requires
            old(self).wf(),
        ensures
            match e {
                Entry::Occupied(o) => {
                    &&& *o.cache == *old(self)
                    &&& *final(self) == *final(o.cache)
                    &&& o.wf()
                    &&& o.extra == OccupiedExtra::<K, V, Q>::Key(Some(k))
                },
                Entry::Vacant(v) => {
                    &&& *v.cache == *old(self)
                    &&& *final(self) == *final(v.cache)
                    &&& v.key == k
                },
            },
            exists|hash: u64|
                match #[trigger] find_slot(old(self)@, hash, k.spec_ref()) {
                    Some(i) => e matches Entry::Occupied(o) && o.index() == i,
                    None => e matches Entry::Vacant(v) && v.hash == hash,
                },
    {
        let hash = self.hash_key(Q::as_ref(&k));
        self.entry_for_hashed(hash, k)
    }

    /// The entry of the least recently used key, if the cache holds any.
    pub fn entry_lru(&mut self) -> (r: Option<OccupiedEntry<'_, K, V, BorrowedKey<'_, K>, L, S>>)
        requires
            old(self).wf(),
        ensures
            match r {
                Some(o) => {
                    &&& *o.cache == *old(self)
                    &&& *final(self) == *final(o.cache)
                    &&& o.wf()
                    &&& o.index() == old(self)@.len() - 1
                    &&& o.extra == OccupiedExtra::<K, V, BorrowedKey<'_, K>>::Key(None)
                },
                None => old(self)@.len() == 0 && *final(self) == *old(self),
            },
    {
        match self.lru_handle() {
            None => None,
            Some(node) => Some(
                OccupiedEntry { cache: self, node, extra: OccupiedExtra::Key(None) },
            ),
        }
    }

    /// The entry of the key under the given hash.
    pub fn entry_hashed(&mut self, hash: u64, k: K) -> (e: Entry<'_, K, V, OwnedKey<K>, L, S>)
        requires
            old(self).wf(),
        ensures
            match e {
                Entry::Occupied(o) => {
                    &&& *o.cache == *old(self)
                    &&& *final(self) == *final(o.cache)
                    &&& o.wf()
                    &&& find_slot(old(self)@, hash, k) == Some(o.index())
                    &&& o.extra == OccupiedExtra::<K, V, OwnedKey<K>>::Key(Some(OwnedKey(k)))
                },
                Entry::Vacant(v) => {
                    &&& *v.cache == *old(self)
                    &&& *final(self) == *final(v.cache)
                    &&& find_slot(old(self)@, hash, k) is None
                    &&& v.hash == hash
                    &&& v.key == OwnedKey(k)
                },
            },
    {
        self.entry_for_hashed(hash, OwnedKey(k))
    }

    /// The entry of the key, for reading, changing, filling or emptying its
    /// place.
    pub fn entry(&mut self, k: K) -> (e: Entry<'_, K, V, OwnedKey<K>, L, S>)
        requires
            old(self).wf(),
        ensures
            match e {
                Entry::Occupied(o) => {
                    &&& *o.cache == *old(self)
                    &&& *final(self) == *final(o.cache)
                    &&& o.wf()
                    &&& o.extra == OccupiedExtra::<K, V, OwnedKey<K>>::Key(Some(OwnedKey(k)))
                },
                Entry::Vacant(v) => {
                    &&& *v.cache == *old(self)
                    &&& *final(self) == *final(v.cache)
                    &&& v.key == OwnedKey(k)
                },
            },
            exists|hash: u64|
                match #[trigger] find_slot(old(self)@, hash, k) {
                    Some(i) => e matches Entry::Occupied(o) && o.index() == i,
                    None => e matches Entry::Vacant(v) && v.hash == hash,
                },
    {
        let hash = self.hash_key(&k);
        self.entry_hashed(hash, k)
    }

    /// The entry of a key that is only lent, under the given hash.
    pub fn entry_ref_hashed<'a, 'b>(&'a mut self, hash: u64, k: &'b K) -> (e: Entry<
        'a,
        K,
        V,
        BorrowedKey<'b, K>,
        L,
        S,
    >)
        requires
            old(self).wf(),
        ensures
            match e {
                Entry::Occupied(o) => {
                    &&& *o.cache == *old(self)
                    &&& *final(self) == *final(o.cache)
                    &&& o.wf()
                    &&& find_slot(old(self)@, hash, *k) == Some(o.index())
                    &&& o.extra == OccupiedExtra::<K, V, BorrowedKey<'b, K>>::Key(
                        Some(BorrowedKey(k)),
                    )
                },
                Entry::Vacant(v) => {
                    &&& *v.cache == *old(self)
                    &&& *final(self) == *final(v.cache)
                    &&& find_slot(old(self)@, hash, *k) is None
                    &&& v.hash == hash
                    &&& v.key == BorrowedKey(k)
                },
            },
    {
        self.entry_for_hashed(hash, BorrowedKey(k))
    }

    /// The entry of a key that is only lent.
    pub fn entry_ref<'a, 'b>(&'a mut self, k: &'b K) -> (e: Entry<
        'a,
        K,
        V,
        BorrowedKey<'b, K>,
        L,
        S,
    >)
        requires
            old(self).wf(),
        ensures
            match e {
                Entry::Occupied(o) => {
                    &&& *o.cache == *old(self)
                    &&& *final(self) == *final(o.cache)
                    &&& o.wf()
                    &&& o.extra == OccupiedExtra::<K, V, BorrowedKey<'b, K>>::Key(
                        Some(BorrowedKey(k)),
                    )
                },
                Entry::Vacant(v) => {
                    &&& *v.cache == *old(self)
                    &&& *final(self) == *final(v.cache)
                    &&& v.key == BorrowedKey(k)
                },
            },
            exists|hash: u64|
                match #[trigger] find_slot(old(self)@, hash, *k) {
                    Some(i) => e matches Entry::Occupied(o) && o.index() == i,
                    None => e matches Entry::Vacant(v) && v.hash == hash,
                },
    {
        let hash = self.hash_key(k);
        self.entry_ref_hashed(hash, k)
    }

    /// Puts a value into the cache under a key that is offered under the
    /// given hash, and returns the value that it replaces, or the offered
    /// value if the limiter refuses it; see `put_result`.
    pub fn put_hashed(&mut self, hash: u64, k: K, v: V) -> (r: Option<V>)
        requires
            old(self).wf(),
            old(self)@.len() < MAX_TABLE_LEN,
            updatable(old(self)@, old(self).spec_limiter(), k, v),
        ensures
            final(self).wf(),
            (final(self)@, final(self).spec_limiter(), r) == put_result(
                old(self)@,
                old(self).spec_limiter(),
                hash,
                k,
                v,
            ),
    {
        proof {
            lemma_find_matches(self@, hash, k);
        }
        match self.entry_hashed(hash, k) {
            Entry::Occupied(entry) => {
                let mut entry = entry;
                Some(entry.insert(v))
            },
            Entry::Vacant(entry) => {
                match entry.try_insert(v) {
                    Ok(_) => {
                        proof {
                            let a = admitted(old(self)@, old(self).spec_limiter(), hash, k, v);
                            lemma_drained_first_slot(a.0, a.1);
                            assert(self@ =~= old(self).inserted(hash, k, v).0);
                        }
                        None
                    },
                    Err(kv) => Some(kv.1),
                }
            },
        }
    }

    /// Puts a value into the cache under a key, and returns the value that
    /// it replaces, or the offered value if the limiter refuses it.
    pub fn put(&mut self, k: K, v: V) -> (r: Option<V>)
        requires
            old(self).wf(),
            old(self)@.len() < MAX_TABLE_LEN,
            updatable(old(self)@, old(self).spec_limiter(), k, v),
        ensures
            final(self).wf(),
            exists|hash: u64|
                (final(self)@, final(self).spec_limiter(), r) == #[trigger] put_result(
                    old(self)@,
                    old(self).spec_limiter(),
                    hash,
                    k,
                    v,
                ),
    {
        let hash = self.hash_key(&k);
        self.put_hashed(hash, k, v)
    }

    /// Puts a value into the cache under a key that is offered under the
    /// given hash, and returns what had to leave for it: the entry that held
    /// the key, the first entry that was evicted, or the offered key and
    /// value if the limiter refuses them; see `push_result`.
    pub fn push_hashed(&mut self, hash: u64, k: K, v: V) -> (r: Option<(K, V)>)
        requires
            old(self).wf(),
            old(self)@.len() < MAX_TABLE_LEN,
            replaceable(old(self)@, old(self).spec_limiter(), k, v),
        ensures
            final(self).wf(),
            (final(self)@, final(self).spec_limiter(), r) == push_result(
                old(self)@,
                old(self).spec_limiter(),
                hash,
                k,
                v,
            ),
    {
        proof {
            lemma_find_matches(self@, hash, k);
        }
        match self.entry_hashed(hash, k) {
            Entry::Occupied(entry) => Some(entry.replace_entry(v)),
            Entry::Vacant(entry) => {
                match entry.try_insert_entry(v) {
                    Ok(entry) => {
                        let mut entry = entry;
                        proof {
                            entry.cache.lemma_handle(entry.node);
                        }
                        let first = entry.take_evicted();
                        entry.drop_evicted();
                        first
                    },
                    Err(rejected) => Some(rejected),
                }
            },
        }
    }

    /// Puts a value into the cache under a key, and returns what had to
    /// leave for it: the entry that held the key, the first entry that was
    /// evicted, or the offered key and value if the limiter refuses them.
    pub fn push(&mut self, k: K, v: V) -> (r: Option<(K, V)>)
        requires
            old(self).wf(),
            old(self)@.len() < MAX_TABLE_LEN,
            replaceable(old(self)@, old(self).spec_limiter(), k, v),
        ensures
            final(self).wf(),
            exists|hash: u64|
                (final(self)@, final(self).spec_limiter(), r) == #[trigger] push_result(
                    old(self)@,
                    old(self).spec_limiter(),
                    hash,
                    k,
                    v,
                ),
    {
        let hash = self.hash_key(&k);
        self.push_hashed(hash, k, v)
    }

    /// The value under a key that is offered under the given hash, to be
    /// changed in place; its entry becomes the most recently used one. The
    /// cache stays in order if the new value weighs what the old one did.
    pub fn get_mut_hashed<'a>(&'a mut self, hash: u64, k: &K) -> (r: Option<&'a mut V>)
        requires
            old(self).wf(),
        ensures
            match find_slot(old(self)@, hash, *k) {
                Some(i) => {
                    &&& r matches Some(v)
                    &&& *v == old(self)@[i].value
                    &&& final(self).is_after_loan(
                        promoted(old(self)@, i),
                        old(self).spec_limiter(),
                        0,
                        *final(v),
                    )
                },
                None => r is None && *final(self) == *old(self),
            },
    {
        match self.entry_ref_hashed(hash, k) {
            Entry::Occupied(entry) => Some(entry.into_mut()),
            Entry::Vacant(_) => None,
        }
    }

    /// The value under a key, to be changed in place; its entry becomes the
    /// most recently used one.
    pub fn get_mut<'a>(&'a mut self, k: &K) -> (r: Option<&'a mut V>)
        requires
            old(self).wf(),
        ensures
            exists|hash: u64|
                match #[trigger] find_slot(old(self)@, hash, *k) {
                    Some(i) => {
                        &&& r matches Some(v)
                        &&& *v == old(self)@[i].value
                        &&& final(self).is_after_loan(
                            promoted(old(self)@, i),
                            old(self).spec_limiter(),
                            0,
                            *final(v),
                        )
                    },
                    None => r is None && *final(self) == *old(self),
                },
    {
        let hash = self.hash_key(k);
        self.get_mut_hashed(hash, k)
    }

    /// The value under a key that is offered under the given hash; its entry
    /// becomes the most recently used one.
    pub fn get_hashed<'a>(&'a mut self, hash: u64, k: &K) -> (r: Option<&'a V>)
        requires
            old(self).wf(),
        ensures
            unref(r) == value_of(old(self)@, hash, *k),
            final(self).is_at(used(old(self)@, hash, *k), old(self).spec_limiter()),
    {
        proof {
            lemma_find_matches(self@, hash, *k);
        }
        match self.entry_ref_hashed(hash, k) {
            Entry::Occupied(entry) => {
                let mut entry = entry;
                entry.promote();
                let OccupiedEntry { cache, node, extra: _ } = entry;
                Some(cache.value_at(node))
            },
            Entry::Vacant(_) => None,
        }
    }

    /// The value under a key; its entry becomes the most recently used one.
    pub fn get<'a>(&'a mut self, k: &K) -> (r: Option<&'a V>)
        requires
            old(self).wf(),
        ensures
            exists|hash: u64|
                {
                    &&& unref(r) == #[trigger] value_of(old(self)@, hash, *k)
                    &&& final(self).is_at(used(old(self)@, hash, *k), old(self).spec_limiter())
                },
    {
        let hash = self.hash_key(k);
        self.get_hashed(hash, k)
    }

    /// The value under a key that is offered under the given hash. The order
    /// of use stays as it is.
    pub fn peek_hashed<'a>(&'a self, hash: u64, k: &K) -> (r: Option<&'a V>)
        requires
            self.wf(),
        ensures
            unref(r) == value_of(self@, hash, *k),
    {
        match self.lookup(hash, k) {
            Some(node) => Some(self.value_at(node)),
            None => None,
        }
    }

    /// The value under a key. The order of use stays as it is.
    pub fn peek<'a>(&'a self, k: &K) -> (r: Option<&'a V>)
        requires
            self.wf(),
        ensures
            exists|hash: u64| unref(r) == #[trigger] value_of(self@, hash, *k),
    {
        let hash = self.hash_key(k);
        self.peek_hashed(hash, k)
    }

    /// The value under a key that is offered under the given hash, to be
    /// changed in place. The order of use stays as it is. The cache stays in
    /// order if the new value weighs what the old one did.
    pub fn peek_mut_hashed<'a>(&'a mut self, hash: u64, k: &K) -> (r: Option<&'a mut V>)
        requires
            old(self).wf(),
        ensures
            match find_slot(old(self)@, hash, *k) {
                Some(i) => {
                    &&& r matches Some(v)
                    &&& *v == old(self)@[i].value
                    &&& final(self).is_after_loan(
                        old(self)@,
                        old(self).spec_limiter(),
                        i,
                        *final(v),
                    )
                },
                None => r is None && *final(self) == *old(self),
            },
    {
        match self.entry_ref_hashed(hash, k) {
            Entry::Occupied(entry) => Some(entry.into_peek()),
            Entry::Vacant(_) => None,
        }
    }

    /// The value under a key, to be changed in place. The order of use stays
    /// as it is.
    pub fn peek_mut<'a>(&'a mut self, k: &K) -> (r: Option<&'a mut V>)
        requires
            old(self).wf(),
        ensures
            exists|hash: u64|
                match #[trigger] find_slot(old(self)@, hash, *k) {
                    Some(i) => {
                        &&& r matches Some(v)
                        &&& *v == old(self)@[i].value
                        &&& final(self).is_after_loan(
                            old(self)@,
                            old(self).spec_limiter(),
                            i,
                            *final(v),
                        )
                    },
                    None => r is None && *final(self) == *old(self),
                },
    {
        let hash = self.hash_key(k);
        self.peek_mut_hashed(hash, k)
    }

    /// The least recently used key and its value, if the cache holds any. The
    /// order of use stays as it is.
    pub fn peek_lru<'a>(&'a self) -> (r: Option<(&'a K, &'a V)>)
        requires
            self.wf(),
        ensures
            match r {
                Some(kv) => {
                    &&& self@.len() > 0
                    &&& *kv.0 == self@.last().key
                    &&& *kv.1 == self@.last().value
                },
                None => self@.len() == 0,
            },
    {
        match self.lru_handle() {
            Some(node) => Some((self.key_at(node), self.value_at(node))),
            None => None,
        }
    }

    /// Whether the cache holds a key that is offered under the given hash.
    /// The order of use stays as it is.
    pub fn contains_hashed(&self, hash: u64, k: &K) -> (r: bool)
        requires
            self.wf(),
        ensures
            r == has_slot(self@, hash, *k),
    {
        self.lookup(hash, k).is_some()
    }

    /// Whether the cache holds a key. The order of use stays as it is.
    pub fn contains(&self, k: &K) -> (r: bool)
        requires
            self.wf(),
        ensures
            exists|hash: u64| r == #[trigger] has_slot(self@, hash, *k),
    {
        let hash = self.hash_key(k);
        self.contains_hashed(hash, k)
    }

    /// Takes the entry of a key that is offered under the given hash out of
    /// the cache and returns its key and value; see `pop_result`.
    pub fn pop_entry_hashed(&mut self, hash: u64, k: &K) -> (r: Option<(K, V)>)
        requires
            old(self).wf(),
        ensures
            final(self).wf(),
            (final(self)@, final(self).spec_limiter(), r) == pop_result(
                old(self)@,
                old(self).spec_limiter(),
                hash,
                *k,
            ),
    {
        match self.entry_ref_hashed(hash, k) {
            Entry::Occupied(entry) => Some(entry.remove_entry()),
            Entry::Vacant(_) => None,
        }
    }

    /// Takes the entry of a key out of the cache and returns its key and
    /// value.
    pub fn pop_entry(&mut self, k: &K) -> (r: Option<(K, V)>)
        requires
            old(self).wf(),
        ensures
            final(self).wf(),
            exists|hash: u64|
                (final(self)@, final(self).spec_limiter(), r) == #[trigger] pop_result(
                    old(self)@,
                    old(self).spec_limiter(),
                    hash,
                    *k,
                ),
    {
        let hash = self.hash_key(k);
        self.pop_entry_hashed(hash, k)
    }

    /// Takes the entry of a key that is offered under the given hash out of
    /// the cache and returns its value.
    pub fn pop_hashed(&mut self, hash: u64, k: &K) -> (r: Option<V>)
        requires
            old(self).wf(),
        ensures
            r == value_of(old(self)@, hash, *k),
            final(self).is_at(
                pop_result(old(self)@, old(self).spec_limiter(), hash, *k).0,
                pop_result(old(self)@, old(self).spec_limiter(), hash, *k).1,
            ),
    {
        match self.pop_entry_hashed(hash, k) {
            Some(kv) => Some(kv.1),
            None => None,
        }
    }

    /// Takes the entry of a key out of the cache and returns its value.
    pub fn pop(&mut self, k: &K) -> (r: Option<V>)
        requires
            old(self).wf(),
        ensures
            exists|hash: u64|
                {
                    &&& r == #[trigger] value_of(old(self)@, hash, *k)
                    &&& final(self).is_at(
                        pop_result(old(self)@, old(self).spec_limiter(), hash, *k).0,
                        pop_result(old(self)@, old(self).spec_limiter(), hash, *k).1,
                    )
                },
    {
        let hash = self.hash_key(k);
        self.pop_hashed(hash, k)
    }

    /// Takes the least recently used entry out of the cache and returns its
    /// key and value.
    pub fn pop_lru(&mut self) -> (r: Option<(K, V)>)
        requires
            old(self).wf(),
        ensures
            final(self).wf(),
            (final(self)@, final(self).spec_limiter(), r) == pop_lru_result(
                old(self)@,
                old(self).spec_limiter(),
            ),
    {
        match self.entry_lru() {
            Some(entry) => {
                proof {
                    assert(old(self)@.remove(old(self)@.len() - 1) =~= old(self)@.drop_last());
                }
                Some(entry.remove_entry())
            },
            None => None,
        }
    }

    /// Marks a key that is offered under the given hash as the most recently
    /// used one.
    pub fn promote_hashed(&mut self, hash: u64, k: &K)
        requires
            old(self).wf(),
        ensures
            final(self).is_at(used(old(self)@, hash, *k), old(self).spec_limiter()),
    {
        if let Entry::Occupied(entry) = self.entry_ref_hashed(hash, k) {
            let mut entry = entry;
            entry.promote();
        }
    }

    /// Marks a key as the most recently used one.
    pub fn promote(&mut self, k: &K)
        requires
            old(self).wf(),
        ensures
            exists|hash: u64|
                final(self).is_at(#[trigger] used(old(self)@, hash, *k), old(self).spec_limiter()),
    {
        let hash = self.hash_key(k);
        self.promote_hashed(hash, k)
    }

    /// Marks a key that is offered under the given hash as the least
    /// recently used one.
    pub fn demote_hashed(&mut self, hash: u64, k: &K)
        requires
            old(self).wf(),
        ensures
            final(self).is_at(disused(old(self)@, hash, *k), old(self).spec_limiter()),
    {
        if let Entry::Occupied(entry) = self.entry_ref_hashed(hash, k) {
            let mut entry = entry;
            entry.demote();
        }
    }

    /// Marks a key as the least recently used one.
    pub fn demote(&mut self, k: &K)
        requires
            old(self).wf(),
        ensures
            exists|hash: u64|
                final(self).is_at(
                    #[trigger] disused(old(self)@, hash, *k),
                    old(self).spec_limiter(),
                ),
    {
        let hash = self.hash_key(k);
        self.demote_hashed(hash, k)
    }

    /// Takes every entry out of the cache, least recently used first.
    pub fn clear(&mut self)
        requires
            old(self).wf(),
        ensures
            final(self).is_at(Seq::empty(), emptied(old(self)@, old(self).spec_limiter())),
    {
        let mut done = false;
        while !done
            invariant
                self.wf(),
                emptied(self@, self.spec_limiter()) == emptied(
                    old(self)@,
                    old(self).spec_limiter(),
                ),
                done ==> self@.len() == 0,
            decreases
                    self@.len(),
                    if done {
                        0nat
                    } else {
                        1nat
                    },
        {
            let r = self.pop_lru();
            done = r.is_none();
        }
        proof {
            assert(self@ =~= Seq::empty());
        }
    }

    /// The value under a key that is offered under the given hash, to be
    /// changed in place: that of the entry that holds the key, which becomes
    /// the most recently used one, or else what `f` returns, which comes in
    /// as a new entry. `f` is called only where the key is not there. If the
    /// limiter refuses the new entry, key and value come back.
    pub fn try_get_or_insert_mut_hashed<'a, F: FnOnce() -> V>(
        &'a mut self,
        hash: u64,
        k: K,
        f: F,
    ) -> (r: Result<&'a mut V, (K, V)>)
        requires
            old(self).wf(),
            old(self)@.len() < MAX_TABLE_LEN,
            call_requires(f, ()),
        ensures
            match find_slot(old(self)@, hash, k) {
                Some(i) => {
                    &&& r matches Ok(v)
                    &&& *v == old(self)@[i].value
                    &&& final(self).is_after_loan(
                        promoted(old(self)@, i),
                        old(self).spec_limiter(),
                        0,
                        *final(v),
                    )
                },
                None => match r {
                    Ok(v) => {
                        &&& call_ensures(f, (), *v)
                        &&& !old(self).refuses(k, *v)
                        &&& final(self).is_after_loan(
                            old(self).inserted(hash, k, *v).0,
                            old(self).inserted(hash, k, *v).1,
                            0,
                            *final(v),
                        )
                    },
                    Err(kv) => {
                        &&& call_ensures(f, (), kv.1)
                        &&& old(self).refuses(k, kv.1)
                        &&& kv.0 == k
                        &&& final(self).is_at(old(self)@, old(self).limiter_after_add(k, kv.1))
                    },
                },
            },
    {
        match self.entry_hashed(hash, k) {
            Entry::Occupied(entry) => Ok(entry.into_mut()),
            Entry::Vacant(entry) => {
                let value = f();
                entry.try_insert(value)
            },
        }
    }

    /// The value under a key, to be changed in place: that of the entry that
    /// holds the key, which becomes the most recently used one, or else what
    /// `f` returns, which comes in as a new entry. `f` is called only where
    /// the key is not there. If the limiter refuses the new entry, key and
    /// value come back.
    pub fn try_get_or_insert_mut<'a, F: FnOnce() -> V>(&'a mut self, k: K, f: F) -> (r: Result<
        &'a mut V,
        (K, V),
    >)
        requires
            old(self).wf(),
            old(self)@.len() < MAX_TABLE_LEN,
            call_requires(f, ()),
        ensures
            exists|hash: u64|
                match #[trigger] find_slot(old(self)@, hash, k) {
                    Some(i) => {
                        &&& r matches Ok(v)
                        &&& *v == old(self)@[i].value
                        &&& final(self).is_after_loan(
                            promoted(old(self)@, i),
                            old(self).spec_limiter(),
                            0,
                            *final(v),
                        )
                    },
                    None => match r {
                        Ok(v) => {
                            &&& call_ensures(f, (), *v)
                            &&& !old(self).refuses(k, *v)
                            &&& final(self).is_after_loan(
                                old(self).inserted(hash, k, *v).0,
                                old(self).inserted(hash, k, *v).1,
                                0,
                                *final(v),
                            )
                        },
                        Err(kv) => {
                            &&& call_ensures(f, (), kv.1)
                            &&& old(self).refuses(k, kv.1)
                            &&& kv.0 == k
                            &&& final(self).is_at(
                                old(self)@,
                                old(self).limiter_after_add(k, kv.1),
                            )
                        },
                    },
                },
    {
        let hash = self.hash_key(&k);
        self.try_get_or_insert_mut_hashed(hash, k, f)
    }

    /// The value under a key that is offered under the given hash, to be
    /// changed in place: that of the entry that holds the key, which becomes
    /// the most recently used one, or else what `f` returns, which comes in
    /// as a new entry. `f` is called only where the key is not there. The
    /// limiter must let in what `f` returns.
    pub fn get_or_insert_mut_hashed<'a, F: FnOnce() -> V>(
        &'a mut self,
        hash: u64,
        k: K,
        f: F,
    ) -> (r: &'a mut V)
        requires
            old(self).wf(),
            old(self)@.len() < MAX_TABLE_LEN,
            call_requires(f, ()),
            forall|value: V| #[trigger] call_ensures(f, (), value) ==> !old(self).refuses(k, value),
        ensures
            match find_slot(old(self)@, hash, k) {
                Some(i) => {
                    &&& *r == old(self)@[i].value
                    &&& final(self).is_after_loan(
                        promoted(old(self)@, i),
                        old(self).spec_limiter(),
                        0,
                        *final(r),
                    )
                },
                None => {
                    &&& call_ensures(f, (), *r)
                    &&& final(self).is_after_loan(
                        old(self).inserted(hash, k, *r).0,
                        old(self).inserted(hash, k, *r).1,
                        0,
                        *final(r),
                    )
                },
            },
    {
        match self.try_get_or_insert_mut_hashed(hash, k, f) {
            Ok(v) => v,
            Err(_) => vstd::pervasive::unreached(),
        }
    }

    /// The value under a key, to be changed in place: that of the entry that
    /// holds the key, which becomes the most recently used one, or else what
    /// `f` returns, which comes in as a new entry. `f` is called only where
    /// the key is not there. The limiter must let in what `f` returns.
    pub fn get_or_insert_mut<'a, F: FnOnce() -> V>(&'a mut self, k: K, f: F) -> (r: &'a mut V)
        requires
            old(self).wf(),
            old(self)@.len() < MAX_TABLE_LEN,
            call_requires(f, ()),
            forall|value: V| #[trigger] call_ensures(f, (), value) ==> !old(self).refuses(k, value),
        ensures
            exists|hash: u64|
                match #[trigger] find_slot(old(self)@, hash, k) {
                    Some(i) => {
                        &&& *r == old(self)@[i].value
                        &&& final(self).is_after_loan(
                            promoted(old(self)@, i),
                            old(self).spec_limiter(),
                            0,
                            *final(r),
                        )
                    },
                    None => {
                        &&& call_ensures(f, (), *r)
                        &&& final(self).is_after_loan(
                            old(self).inserted(hash, k, *r).0,
                            old(self).inserted(hash, k, *r).1,
                            0,
                            *final(r),
                        )
                    },
                },
    {
        let hash = self.hash_key(&k);
        self.get_or_insert_mut_hashed(hash, k, f)
    }

    /// The value under a key that is offered under the given hash, for
    /// reading: that of the entry that holds the key, which becomes the most
    /// recently used one, or else what `f` returns, which comes in as a new
    /// entry. `f` is called only where the key is not there. If the limiter
    /// refuses the new entry, key and value come back.
    pub fn try_get_or_insert_hashed<'a, F: FnOnce() -> V>(
        &'a mut self,
        hash: u64,
        k: K,
        f: F,
    ) -> (r: Result<&'a V, (K, V)>)
        requires
            old(self).wf(),
            old(self)@.len() < MAX_TABLE_LEN,
            call_requires(f, ()),
        ensures
            match find_slot(old(self)@, hash, k) {
                Some(i) => {
                    &&& r matches Ok(v)
                    &&& *v == old(self)@[i].value
                    &&& final(self).is_at(promoted(old(self)@, i), old(self).spec_limiter())
                },
                None => match r {
                    Ok(v) => {
                        &&& call_ensures(f, (), *v)
                        &&& !old(self).refuses(k, *v)
                        &&& final(self).is_at(
                            old(self).inserted(hash, k, *v).0,
                            old(self).inserted(hash, k, *v).1,
                        )
                    },
                    Err(kv) => {
                        &&& call_ensures(f, (), kv.1)
                        &&& old(self).refuses(k, kv.1)
                        &&& kv.0 == k
                        &&& final(self).is_at(old(self)@, old(self).limiter_after_add(k, kv.1))
                    },
                },
            },
    {
        match self.entry_hashed(hash, k) {
            Entry::Occupied(entry) => {
                let mut entry = entry;
                entry.promote();
                let OccupiedEntry { cache, node, extra: _ } = entry;
                Ok(cache.value_at(node))
            },
            Entry::Vacant(entry) => {
                let value = f();
                match entry.try_insert_entry(value) {
                    Ok(entry) => {
                        let mut entry = entry;
                        proof {
                            entry.cache.lemma_handle(entry.node);
                            lemma_drained_first_slot(entry.cache@, entry.cache.spec_limiter());
                        }
                        entry.drop_evicted();
                        let OccupiedEntry { cache, node, extra: _ } = entry;
                        Ok(cache.value_at(node))
                    },
                    Err(kv) => Err(kv),
                }
            },
        }
    }

    /// The value under a key, for reading: that of the entry that holds the
    /// key, which becomes the most recently used one, or else what `f`
    /// returns, which comes in as a new entry. `f` is called only where the
    /// key is not there. If the limiter refuses the new entry, key and value
    /// come back.
    pub fn try_get_or_insert<'a, F: FnOnce() -> V>(&'a mut self, k: K, f: F) -> (r: Result<
        &'a V,
        (K, V),
    >)
        requires
            old(self).wf(),
            old(self)@.len() < MAX_TABLE_LEN,
            call_requires(f, ()),
        ensures
            exists|hash: u64|
                match #[trigger] find_slot(old(self)@, hash, k) {
                    Some(i) => {
                        &&& r matches Ok(v)
                        &&& *v == old(self)@[i].value
                        &&& final(self).is_at(promoted(old(self)@, i), old(self).spec_limiter())
                    },
                    None => match r {
                        Ok(v) => {
                            &&& call_ensures(f, (), *v)
                            &&& !old(self).refuses(k, *v)
                            &&& final(self).is_at(
                                old(self).inserted(hash, k, *v).0,
                                old(self).inserted(hash, k, *v).1,
                            )
                        },
                        Err(kv) => {
                            &&& call_ensures(f, (), kv.1)
                            &&& old(self).refuses(k, kv.1)
                            &&& kv.0 == k
                            &&& final(self).is_at(
                                old(self)@,
                                old(self).limiter_after_add(k, kv.1),
                            )
                        },
                    },
                },
    {
        let hash = self.hash_key(&k);
        self.try_get_or_insert_hashed(hash, k, f)
    }

    /// The value under a key that is offered under the given hash, for
    /// reading: that of the entry that holds the key, which becomes the most
    /// recently used one, or else what `f` returns, which comes in as a new
    /// entry. `f` is called only where the key is not there. The limiter
    /// must let in what `f` returns.
    pub fn get_or_insert_hashed<'a, F: FnOnce() -> V>(
        &'a mut self,
        hash: u64,
        k: K,
        f: F,
    ) -> (r: &'a V)
        requires
            old(self).wf(),
            old(self)@.len() < MAX_TABLE_LEN,
            call_requires(f, ()),
            forall|value: V| #[trigger] call_ensures(f, (), value) ==> !old(self).refuses(k, value),
        ensures
            match find_slot(old(self)@, hash, k) {
                Some(i) => {
                    &&& *r == old(self)@[i].value
                    &&& final(self).is_at(promoted(old(self)@, i), old(self).spec_limiter())
                },
                None => {
                    &&& call_ensures(f, (), *r)
                    &&& final(self).is_at(
                        old(self).inserted(hash, k, *r).0,
                        old(self).inserted(hash, k, *r).1,
                    )
                },
            },
    {
        match self.try_get_or_insert_hashed(hash, k, f) {
            Ok(v) => v,
            Err(_) => vstd::pervasive::unreached(),
        }
    }

    /// The value under a key, for reading: that of the entry that holds the
    /// key, which becomes the most recently used one, or else what `f`
    /// returns, which comes in as a new entry. `f` is called only where the
    /// key is not there. The limiter must let in what `f` returns.
    pub fn get_or_insert<'a, F: FnOnce() -> V>(&'a mut self, k: K, f: F) -> (r: &'a V)
        requires
            old(self).wf(),
            old(self)@.len() < MAX_TABLE_LEN,
            call_requires(f, ()),
            forall|value: V| #[trigger] call_ensures(f, (), value) ==> !old(self).refuses(k, value),
        ensures
            exists|hash: u64|
                match #[trigger] find_slot(old(self)@, hash, k) {
                    Some(i) => {
                        &&& *r == old(self)@[i].value
                        &&& final(self).is_at(promoted(old(self)@, i), old(self).spec_limiter())
                    },
                    None => {
                        &&& call_ensures(f, (), *r)
                        &&& final(self).is_at(
                            old(self).inserted(hash, k, *r).0,
                            old(self).inserted(hash, k, *r).1,
                        )
                    },
                },
    {
        let hash = self.hash_key(&k);
        self.get_or_insert_hashed(hash, k, f)
    }
}

} // verus!
