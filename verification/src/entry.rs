//! Entries: a short-lived hold on one place of the cache, taken by one
//! lookup, through which the place is read, changed, filled or emptied.
//!
//! An entry borrows the cache for as long as it lives. What the cache is
//! when the entry is done is what the entry left it as. An entry that comes
//! from an insertion may have entries to hand out that had to leave:
//! `take_evicted` hands them out, `drop_evicted` lets go of them, and what
//! takes the entry by value lets go of them too.

use crate::cache::{lemma_handles_index, lemma_handles_remove, LruCache};
use crate::key::{InsertionKey, Key, OwnedKey};
use crate::limiter::{AddBehavior, Limiter, SizeLimited};
use crate::model::{
    admitted, demoted, has_slot, kept_index, lemma_drained_first_slot, lemma_drained_keeps,
    lemma_promoted_first, lemma_total_weight_update, next_victim, promoted, settle, slot_matches,
    with_value, Slot,
};
use crate::table::{DefaultHasher, MAX_TABLE_LEN};
use std::hash::{BuildHasher, Hash};
use vstd::prelude::*;

verus! {

/// What an occupied entry carries besides its place: the key it was looked
/// up with, or what its insertion has evicted; never both.
pub enum OccupiedExtra<K, V, Q> {
    /// The key of the lookup, until it is used.
    Key(Option<Q>),
    /// The entry that the insertion evicted, until it is taken.
    Evicted(Option<(K, V)>),
}

/// A hold on a place of the cache that holds an entry.
pub struct OccupiedEntry<'a, K, V, Q = OwnedKey<K>, L = SizeLimited, S = DefaultHasher> {
    /// The cache that the entry is in.
    pub cache: &'a mut LruCache<K, V, L, S>,
    /// The handle of the entry's node.
    pub node: usize,
    /// The key of the lookup, or what the insertion evicted.
    pub extra: OccupiedExtra<K, V, Q>,
}

impl<'a, K: Hash + Eq, V, Q, L: Limiter<K, V>, S: BuildHasher> OccupiedEntry<'a, K, V, Q, L, S> {
    /// The cache is in order and the entry's node is resident.
    pub open spec fn wf(self) -> bool {
        &&& self.cache.wf()
        &&& self.cache.has_handle(self.node)
    }

    /// The place of the entry in the cache's view.
    pub open spec fn index(self) -> int {
        self.cache.handle_index(self.node)
    }

    /// The entry as the cache's view has it.
    pub open spec fn slot(self) -> Slot<K, V> {
        self.cache@[self.index()]
    }

    /// The entries once this entry has been used: it stands first.
    pub open spec fn promoted(self) -> Seq<Slot<K, V>> {
        promoted(self.cache@, self.index())
    }

    /// Whether the entry came from an insertion and may still have entries
    /// to evict.
    pub open spec fn evicting(self) -> bool {
        self.extra is Evicted
    }

    /// What the entry leaves behind when it is done: the entries, the
    /// limiter, and the place of this entry.
    pub open spec fn settled(self) -> (Seq<Slot<K, V>>, L, int) {
        settle(self.evicting(), self.cache@, self.cache.spec_limiter(), self.index())
    }

    /// What the entry leaves behind when it is used and then done: the
    /// entries, the limiter, and the place of this entry, which is the
    /// first.
    pub open spec fn settled_first(self) -> (Seq<Slot<K, V>>, L, int) {
        settle(self.evicting(), self.promoted(), self.cache.spec_limiter(), 0)
    }

    /// Whether the limiter lets the entry take this value.
    pub open spec fn admits(self, value: V) -> bool {
        !(self.limiter_behavior(None, Some(value)) is Reject)
    }

    /// What the limiter answers when it is asked whether the entry may get
    /// a new key, a new value or both.
    pub open spec fn limiter_behavior(self, key: Option<K>, value: Option<V>) -> AddBehavior {
        self.cache.spec_limiter().update_behavior(
            self.cache@.len(),
            self.slot().key,
            self.slot().value,
            key,
            value,
        )
    }

    /// The limiter after it has been asked whether the entry may get a new
    /// key, a new value or both.
    pub open spec fn limiter_after(self, key: Option<K>, value: Option<V>) -> L {
        self.cache.spec_limiter().after_update(
            self.cache@.len(),
            self.slot().key,
            self.slot().value,
            key,
            value,
        )
    }

    /// The limiter after the entry has left the cache.
    pub open spec fn limiter_after_remove(self) -> L {
        self.cache.spec_limiter().after_remove(
            (self.cache@.len() - 1) as nat,
            self.slot().key,
            self.slot().value,
        )
    }

    /// The key of the entry.
    pub fn key(&self) -> (r: &K)
        requires
            self.wf(),
        ensures
            *r == self.slot().key,
    {
        self.cache.key_at(self.node)
    }

    /// The value of the entry. The entry keeps its place in the order of use.
    pub fn peek(&self) -> (r: &V)
        requires
            self.wf(),
        ensures
            *r == self.slot().value,
    {
        self.cache.value_at(self.node)
    }

    /// The value of the entry, to be changed in place. The entry keeps its
    /// place in the order of use. The cache stays in order if the new value
    /// weighs what the old one did.
    pub fn peek_mut(&mut self) -> (r: &mut V)
        requires
            old(self).wf(),
        ensures
            *r == old(self).slot().value,
            final(self).node == old(self).node,
            final(self).extra == old(self).extra,
            *final(final(self).cache) == *final(old(self).cache),
            final(self).cache.handles() == old(self).cache.handles(),
            final(self).cache.is_after_loan(
                old(self).cache@,
                old(self).cache.spec_limiter(),
                old(self).index(),
                *final(r),
            ),
    {
        proof {
            old(self).cache.lemma_handle(old(self).node);
        }
        let r = self.cache.value_at_mut(self.node);
        proof {
            lemma_total_weight_update(
                old(self).cache.spec_limiter(),
                old(self).cache@,
                old(self).index(),
                with_value(old(self).slot(), *final(r)),
            );
        }
        r
    }

    /// Marks the entry as the most recently used one.
    pub fn promote(&mut self)
        requires
            old(self).wf(),
        ensures
            final(self).wf(),
            final(self).node == old(self).node,
            final(self).extra == old(self).extra,
            *final(final(self).cache) == *final(old(self).cache),
            final(self).cache@ == old(self).promoted(),
            final(self).cache.spec_limiter() == old(self).cache.spec_limiter(),
            final(self).index() == 0,
    {
        proof {
            old(self).cache.lemma_handle(old(self).node);
        }
        self.cache.promote_handle(self.node);
        proof {
            self.cache.lemma_structured();
            lemma_handles_index(self.cache.handles(), 0);
        }
    }

    /// Marks the entry as the least recently used one.
    pub fn demote(&mut self)
        requires
            old(self).wf(),
        ensures
            final(self).wf(),
            final(self).node == old(self).node,
            final(self).extra == old(self).extra,
            *final(final(self).cache) == *final(old(self).cache),
            final(self).cache@ == demoted(old(self).cache@, old(self).index()),
            final(self).cache.spec_limiter() == old(self).cache.spec_limiter(),
            final(self).index() == old(self).cache@.len() - 1,
    {
        proof {
            old(self).cache.lemma_handle(old(self).node);
        }
        self.cache.demote_handle(self.node);
        proof {
            self.cache.lemma_structured();
            lemma_handles_index(self.cache.handles(), old(self).cache@.len() - 1);
        }
    }

    /// The value of the entry, which becomes the most recently used one.
    pub fn get(&mut self) -> (r: &V)
        requires
            old(self).wf(),
        ensures
            *r == old(self).slot().value,
            final(self).wf(),
            final(self).node == old(self).node,
            final(self).extra == old(self).extra,
            *final(final(self).cache) == *final(old(self).cache),
            final(self).cache@ == old(self).promoted(),
            final(self).cache.spec_limiter() == old(self).cache.spec_limiter(),
            final(self).index() == 0,
    {
        proof {
            old(self).cache.lemma_handle(old(self).node);
        }
        self.promote();
        self.peek()
    }

    /// The value of the entry, to be changed in place; the entry becomes the
    /// most recently used one. The cache stays in order if the new value
    /// weighs what the old one did.
    pub fn get_mut(&mut self) -> (r: &mut V)
        requires
            old(self).wf(),
        ensures
            *r == old(self).slot().value,
            final(self).node == old(self).node,
            final(self).extra == old(self).extra,
            *final(final(self).cache) == *final(old(self).cache),
            final(self).cache.has_handle(final(self).node),
            final(self).index() == 0,
            final(self).cache.is_after_loan(
                old(self).promoted(),
                old(self).cache.spec_limiter(),
                0,
                *final(r),
            ),
    {
        proof {
            old(self).cache.lemma_handle(old(self).node);
        }
        self.promote();
        self.peek_mut()
    }

    /// The entry with its hold moved to another node, where there is one.
    /// The key of the lookup and what an insertion evicted are let go.
    fn replace_node(self, node: Option<usize>) -> (r: Result<Self, Self>)
        requires
            self.wf(),
            match node {
                Some(n) => self.cache.has_handle(n),
                None => true,
            },
        ensures
            match r {
                Ok(e) => {
                    &&& node == Some(e.node)
                    &&& e.wf()
                    &&& *e.cache == *old(self.cache)
                    &&& *final(e.cache) == *final(self.cache)
                    &&& e.extra == OccupiedExtra::<K, V, Q>::Key(None)
                },
                Err(e) => node is None && e == self,
            },
    {
        match node {
            Some(n) => {
                let mut this = self;
                this.node = n;
                this.extra = OccupiedExtra::Key(None);
                Ok(this)
            },
            None => Err(self),
        }
    }

    /// The entry that was used just before this one; this entry itself where
    /// it is the least recently used one.
    pub fn next(self) -> (r: Result<Self, Self>)
        requires
            self.wf(),
        ensures
            match r {
                Ok(e) => {
                    &&& e.wf()
                    &&& *e.cache == *old(self.cache)
                    &&& *final(e.cache) == *final(self.cache)
                    &&& e.index() == self.index() + 1
                    &&& e.extra == OccupiedExtra::<K, V, Q>::Key(None)
                },
                Err(e) => e == self && self.index() == old(self.cache)@.len() - 1,
            },
    {
        let node = self.cache.next_handle(self.node);
        self.replace_node(node)
    }

    /// The entry that was used just after this one; this entry itself where
    /// it is the most recently used one.
    pub fn prev(self) -> (r: Result<Self, Self>)
        requires
            self.wf(),
        ensures
            match r {
                Ok(e) => {
                    &&& e.wf()
                    &&& *e.cache == *old(self.cache)
                    &&& *final(e.cache) == *final(self.cache)
                    &&& e.index() == self.index() - 1
                    &&& e.extra == OccupiedExtra::<K, V, Q>::Key(None)
                },
                Err(e) => e == self && self.index() == 0,
            },
    {
        let node = self.cache.prev_handle(self.node);
        self.replace_node(node)
    }

    /// Gives the entry a new value and hands out the old one, if the limiter
    /// lets it; the entry then becomes the most recently used one. If the
    /// limiter refuses, the new value comes back and the entries stay as they
    /// are.
    pub fn try_insert(&mut self, value: V) -> (r: Result<V, V>)
        requires
            old(self).wf(),
        ensures
            final(self).wf(),
            final(self).node == old(self).node,
            final(self).extra == old(self).extra,
            *final(final(self).cache) == *final(old(self).cache),
            final(self).cache.spec_limiter() == old(self).limiter_after(None, Some(value)),
            match r {
                Ok(v) => {
                    &&& old(self).admits(value)
                    &&& v == old(self).slot().value
                    &&& final(self).cache@ == old(self).promoted().update(
                        0,
                        with_value(old(self).slot(), value),
                    )
                    &&& final(self).index() == 0
                },
                Err(v) => {
                    &&& !old(self).admits(value)
                    &&& v == value
                    &&& final(self).cache@ == old(self).cache@
                    &&& final(self).index() == old(self).index()
                },
            },
    {
        proof {
            old(self).cache.lemma_handle(old(self).node);
        }
        let behavior = self.cache.offer_update(self.node, None, Some(&value));
        if behavior == AddBehavior::Reject {
            return Err(value);
        }
        self.cache.promote_handle(self.node);
        proof {
            self.cache.lemma_structured();
            lemma_handles_index(self.cache.handles(), 0);
        }
        let r = self.cache.swap_value(self.node, value);
        Ok(r)
    }

    /// Gives the entry a new value and hands out the old one; the entry
    /// becomes the most recently used one. The limiter must let the value in.
    pub fn insert(&mut self, value: V) -> (r: V)
        requires
            old(self).wf(),
            old(self).admits(value),
        ensures
            r == old(self).slot().value,
            final(self).wf(),
            final(self).node == old(self).node,
            final(self).extra == old(self).extra,
            *final(final(self).cache) == *final(old(self).cache),
            final(self).cache.spec_limiter() == old(self).limiter_after(None, Some(value)),
            final(self).cache@ == old(self).promoted().update(
                0,
                with_value(old(self).slot(), value),
            ),
            final(self).index() == 0,
    {
        match self.try_insert(value) {
            Ok(v) => v,
            Err(v) => v,
        }
    }

    /// Takes the entry out of the cache and hands out its key and its value.
    pub fn remove_entry(self) -> (r: (K, V))
        requires
            self.wf(),
        ensures
            r == (self.slot().key, self.slot().value),
            final(self.cache).is_at(
                old(self.cache)@.remove(self.index()),
                self.limiter_after_remove(),
            ),
    {
        self.cache.remove_handle(self.node)
    }

    /// Takes the entry out of the cache and hands out its value.
    pub fn remove(self) -> (r: V)
        requires
            self.wf(),
        ensures
            r == self.slot().value,
            final(self.cache).is_at(
                old(self.cache)@.remove(self.index()),
                self.limiter_after_remove(),
            ),
    {
        self.remove_entry().1
    }

    /// The place of the entry that `take_evicted` takes out of the cache
    /// next, if it takes one out: nothing is left over from the insertion,
    /// the limiter finds the cache too large, and an entry other than this
    /// one is there to leave.
    pub open spec fn victim(self) -> Option<int> {
        if self.extra == OccupiedExtra::<K, V, Q>::Evicted(None)
            && self.cache.spec_limiter().oversized(self.cache@.len()) {
            next_victim(self.cache@.len() as int, self.index())
        } else {
            None
        }
    }

    /// Hands out, one call at a time, what the insertion through this entry
    /// has evicted: first the entry that made room for it, then, for as long
    /// as the limiter finds the cache too large, the least recently used
    /// entry other than this one. Once nothing is handed out, nothing will
    /// be. An entry that comes from a lookup has nothing to hand out.
    pub fn take_evicted(&mut self) -> (r: Option<(K, V)>)
        requires
            old(self).wf(),
        ensures
            final(self).wf(),
            final(self).node == old(self).node,
            *final(final(self).cache) == *final(old(self).cache),
            match old(self).extra {
                OccupiedExtra::Key(_) => {
                    &&& r is None
                    &&& final(self).extra == old(self).extra
                    &&& *final(self).cache == *old(self).cache
                },
                OccupiedExtra::Evicted(Some(e)) => {
                    &&& r == Some(e)
                    &&& final(self).extra == OccupiedExtra::<K, V, Q>::Evicted(None)
                    &&& *final(self).cache == *old(self).cache
                },
                OccupiedExtra::Evicted(None) => match old(self).victim() {
                    Some(j) => {
                        &&& r == Some((old(self).cache@[j].key, old(self).cache@[j].value))
                        &&& final(self).extra == old(self).extra
                        &&& final(self).cache@ == old(self).cache@.remove(j)
                        &&& final(self).cache.spec_limiter() == old(
                            self,
                        ).cache.spec_limiter().after_remove(
                            (old(self).cache@.len() - 1) as nat,
                            old(self).cache@[j].key,
                            old(self).cache@[j].value,
                        )
                        &&& final(self).index() == kept_index(old(self).index(), j)
                    },
                    None => {
                        &&& r is None
                        &&& final(self).extra == OccupiedExtra::<K, V, Q>::Key(None)
                        &&& *final(self).cache == *old(self).cache
                    },
                },
            },
    {
        proof {
            old(self).cache.lemma_handle(old(self).node);
            old(self).cache.lemma_structured();
        }
        match &mut self.extra {
            OccupiedExtra::Key(_) => {
                return None;
            },
            OccupiedExtra::Evicted(evicted) => {
                let taken = evicted.take();
                if taken.is_some() {
                    return taken;
                }
            },
        }
        if self.cache.oversized() {
            let candidate = match self.cache.lru_handle() {
                None => None,
                Some(other) => {
                    if other == self.node {
                        // This entry never evicts itself: the entry before
                        // it is the next to go.
                        self.cache.prev_handle(other)
                    } else {
                        Some(other)
                    }
                },
            };
            if let Some(other) = candidate {
                proof {
                    self.cache.lemma_handle(other);
                    lemma_handles_remove(
                        self.cache.handles(),
                        self.cache.handle_index(other),
                        self.node,
                    );
                }
                return Some(self.cache.remove_handle(other));
            }
        }
        // Nothing is left to hand out, now or later.
        self.extra = OccupiedExtra::Key(None);
        None
    }

    /// Lets go of what the insertion through this entry has evicted, and
    /// evicts what still has to leave: what `take_evicted` would hand out,
    /// call after call, is dropped. An entry that is done with leaves the
    /// cache as this leaves it.
    pub fn drop_evicted(&mut self)
        requires
            old(self).wf(),
        ensures
            final(self).wf(),
            final(self).node == old(self).node,
            *final(final(self).cache) == *final(old(self).cache),
            !final(self).evicting(),
            !old(self).evicting() ==> final(self).extra == old(self).extra,
            final(self).cache@ == old(self).settled().0,
            final(self).cache.spec_limiter() == old(self).settled().1,
            final(self).index() == old(self).settled().2,
    {
        let mut done = false;
        while !done
            invariant
                self.wf(),
                self.node == old(self).node,
                *final(self.cache) == *final(old(self).cache),
                self.settled() == old(self).settled(),
                !old(self).evicting() ==> self.extra == old(self).extra,
                done ==> !self.evicting(),
            decreases
                    self.cache@.len() + (if self.extra matches OccupiedExtra::Evicted(Some(_)) {
                        1nat
                    } else {
                        0nat
                    }),
                    if done {
                        0nat
                    } else {
                        1nat
                    },
        {
            proof {
                self.cache.lemma_handle(self.node);
            }
            let r = self.take_evicted();
            done = r.is_none();
        }
    }

    /// The value of the entry, to be changed in place, for as long as the
    /// cache was lent. The entry keeps its place in the order of use. What
    /// an insertion through this entry evicted is let go first.
    pub fn into_peek(self) -> (r: &'a mut V)
        requires
            self.wf(),
        ensures
            *r == self.slot().value,
            final(self.cache).is_after_loan(
                self.settled().0,
                self.settled().1,
                self.settled().2,
                *final(r),
            ),
    {
        proof {
            self.cache.lemma_handle(self.node);
            lemma_drained_keeps(self.cache@, self.cache.spec_limiter(), self.index());
        }
        let mut this = self;
        this.drop_evicted();
        let OccupiedEntry { cache, node, extra: _ } = this;
        proof {
            cache.lemma_handle(node);
        }
        let ghost before = *cache;
        let r = cache.value_at_mut(node);
        proof {
            lemma_total_weight_update(
                before.spec_limiter(),
                before@,
                before.handle_index(node),
                with_value(before.slot_at(node), *final(r)),
            );
        }
        r
    }

    /// The value of the entry, to be changed in place, for as long as the
    /// cache was lent; the entry becomes the most recently used one. What an
    /// insertion through this entry evicted is let go first.
    pub fn into_mut(self) -> (r: &'a mut V)
        requires
            self.wf(),
        ensures
            *r == self.slot().value,
            final(self.cache).is_after_loan(
                self.settled_first().0,
                self.settled_first().1,
                0,
                *final(r),
            ),
    {
        proof {
            self.cache.lemma_handle(self.node);
        }
        let mut this = self;
        this.promote();
        proof {
            lemma_drained_first_slot(this.cache@, this.cache.spec_limiter());
        }
        this.into_peek()
    }
}

impl<'a, K: Hash + Eq, V, Q: InsertionKey<K>, L: Limiter<K, V>, S: BuildHasher> OccupiedEntry<
    'a,
    K,
    V,
    Q,
    L,
    S,
> {
    /// The entry still has the key of its lookup, and that key is the key
    /// that the entry holds.
    pub open spec fn has_key(self) -> bool {
        match self.extra {
            OccupiedExtra::Key(Some(q)) => q.spec_ref() == self.slot().key,
            _ => false,
        }
    }

    /// Whether the limiter lets the entry take the key of its lookup, and
    /// this value with it if one is given.
    pub open spec fn admits_replacement(self, value: Option<V>) -> bool {
        !(self.limiter_behavior(Some(self.slot().key), value) is Reject)
    }

    /// The key of the lookup, as a key to keep.
    fn get_key_for_replace(&mut self) -> (r: K)
        requires
            old(self).wf(),
            old(self).has_key(),
        ensures
            r == old(self).slot().key,
            final(self).node == old(self).node,
            final(self).extra == OccupiedExtra::<K, V, Q>::Key(None),
            *final(self).cache == *old(self).cache,
            *final(final(self).cache) == *final(old(self).cache),
    {
        let key = match &mut self.extra {
            OccupiedExtra::Key(key) => key.take(),
            OccupiedExtra::Evicted(_) => None,
        };
        Q::into_owned(key.unwrap())
    }

    /// Puts the key of the lookup in the place of the entry's key, which it
    /// equals, and hands out the old one, if the limiter lets it. If the
    /// limiter refuses, the key of the lookup comes back. The entry keeps
    /// its place in the order of use.
    pub fn try_replace_key(self) -> (r: Result<K, K>)
        requires
            self.wf(),
            self.has_key(),
        ensures
            final(self.cache).is_at(
                old(self.cache)@,
                self.limiter_after(Some(self.slot().key), None),
            ),
            match r {
                Ok(k) => self.admits_replacement(None) && k == self.slot().key,
                Err(k) => !self.admits_replacement(None) && k == self.slot().key,
            },
    {
        proof {
            self.cache.lemma_handle(self.node);
        }
        let mut this = self;
        let key = this.get_key_for_replace();
        let behavior = this.cache.offer_update(this.node, Some(&key), None);
        if behavior == AddBehavior::Reject {
            return Err(key);
        }
        proof {
            this.cache.lemma_own_key(this.node);
        }
        Ok(this.cache.swap_key(this.node, key))
    }

    /// Puts the key of the lookup in the place of the entry's key, which it
    /// equals, and hands out the old one. The limiter must let it.
    pub fn replace_key(self) -> (r: K)
        requires
            self.wf(),
            self.has_key(),
            self.admits_replacement(None),
        ensures
            r == self.slot().key,
            final(self.cache).is_at(
                old(self.cache)@,
                self.limiter_after(Some(self.slot().key), None),
            ),
    {
        match self.try_replace_key() {
            Ok(k) => k,
            Err(k) => k,
        }
    }

    /// Puts the key of the lookup and a new value in the place of the
    /// entry's key and value and hands out the old ones, if the limiter lets
    /// it; the entry then becomes the most recently used one. If the limiter
    /// refuses, the key of the lookup and the new value come back.
    pub fn try_replace_entry(self, value: V) -> (r: Result<(K, V), (K, V)>)
        requires
            self.wf(),
            self.has_key(),
        ensures
            match r {
                Ok(kv) => {
                    &&& self.admits_replacement(Some(value))
                    &&& kv == (self.slot().key, self.slot().value)
                    &&& final(self.cache).is_at(
                        self.promoted().update(0, with_value(self.slot(), value)),
                        self.limiter_after(Some(self.slot().key), Some(value)),
                    )
                },
                Err(kv) => {
                    &&& !self.admits_replacement(Some(value))
                    &&& kv == (self.slot().key, value)
                    &&& final(self.cache).is_at(
                        old(self.cache)@,
                        self.limiter_after(Some(self.slot().key), Some(value)),
                    )
                },
            },
    {
        proof {
            self.cache.lemma_handle(self.node);
        }
        let mut this = self;
        let key = this.get_key_for_replace();
        let behavior = this.cache.offer_update(this.node, Some(&key), Some(&value));
        if behavior == AddBehavior::Reject {
            return Err((key, value));
        }
        proof {
            this.cache.lemma_own_key(this.node);
        }
        let key = this.cache.swap_key(this.node, key);
        this.cache.promote_handle(this.node);
        proof {
            this.cache.lemma_structured();
            lemma_handles_index(this.cache.handles(), 0);
        }
        let value = this.cache.swap_value(this.node, value);
        Ok((key, value))
    }

    /// Puts the key of the lookup and a new value in the place of the
    /// entry's key and value and hands out the old ones; the entry becomes
    /// the most recently used one. The limiter must let it.
    pub fn replace_entry(self, value: V) -> (r: (K, V))
        requires
            self.wf(),
            self.has_key(),
            self.admits_replacement(Some(value)),
        ensures
            r == (self.slot().key, self.slot().value),
            final(self.cache).is_at(
                self.promoted().update(0, with_value(self.slot(), value)),
                self.limiter_after(Some(self.slot().key), Some(value)),
            ),
    {
        match self.try_replace_entry(value) {
            Ok(kv) => kv,
            Err(kv) => kv,
        }
    }
}

/// A hold on a place of the cache that holds no entry: the key that was
/// looked up, under the hash it was looked up with, is not in the cache.
pub struct VacantEntry<'a, K, V, Q = OwnedKey<K>, L = SizeLimited, S = DefaultHasher> {
    /// The cache that the entry would be in.
    pub cache: &'a mut LruCache<K, V, L, S>,
    /// The key of the lookup.
    pub key: Q,
    /// The hash that the key was looked up with.
    pub hash: u64,
}

impl<'a, K, V, Q: Key<Key = K>, L, S> VacantEntry<'a, K, V, Q, L, S> {
    /// The key that an insertion through this entry would use.
    pub fn key(&self) -> (r: &K)
        ensures
            *r == self.key.spec_ref(),
    {
        Q::as_ref(&self.key)
    }

    /// Gives the key of the lookup back. The cache stays as it is.
    pub fn into_key(self) -> (r: Q)
        ensures
            r == self.key,
            *final(self.cache) == *old(self.cache),
    {
        self.key
    }
}

impl<'a, K: Hash + Eq, V, Q: InsertionKey<K>, L: Limiter<K, V>, S: BuildHasher> VacantEntry<
    'a,
    K,
    V,
    Q,
    L,
    S,
> {
    /// The cache is in order, it does not hold the key under the hash, and
    /// its index has room for one more entry.
    pub open spec fn wf(self) -> bool {
        &&& self.cache.wf()
        &&& !has_slot(self.cache@, self.hash, self.key.spec_ref())
        &&& self.cache@.len() < MAX_TABLE_LEN
    }

    /// Whether the limiter lets this value in under the entry's key.
    pub open spec fn admits(self, value: V) -> bool {
        !(self.cache.spec_limiter().add_behavior(
            self.cache@.len(),
            self.key.spec_ref(),
            value,
        ) is Reject)
    }

    /// The limiter after it has been asked whether this value may come in
    /// under the entry's key.
    pub open spec fn limiter_after(self, value: V) -> L {
        self.cache.spec_limiter().after_add(self.cache@.len(), self.key.spec_ref(), value)
    }

    /// What an insertion of this value makes of the cache, if the limiter
    /// lets it in: the entries, the limiter, and the entry that had to make
    /// room.
    pub open spec fn admitted(self, value: V) -> (Seq<Slot<K, V>>, L, Option<(K, V)>) {
        admitted(self.cache@, self.cache.spec_limiter(), self.hash, self.key.spec_ref(), value)
    }

    /// What an insertion of this value leaves when the new entry is done:
    /// the entries, the limiter, and the place of the new entry, which is
    /// the first.
    pub open spec fn inserted(self, value: V) -> (Seq<Slot<K, V>>, L, int) {
        settle(true, self.admitted(value).0, self.admitted(value).1, 0)
    }

    /// Puts the value into the cache under the entry's key, if the limiter
    /// lets it: the new entry is the most recently used one, and where the
    /// limiter asks for it, the least recently used entry has made room and
    /// is the first that the new entry has to hand out. If the limiter
    /// refuses, key and value come back and the entries stay as they are.
    pub fn try_insert_entry(self, value: V) -> (r: Result<
        OccupiedEntry<'a, K, V, Q, L, S>,
        (K, V),
    >)
        requires
            self.wf(),
        ensures
            match r {
                Ok(e) => {
                    &&& self.admits(value)
                    &&& e.wf()
                    &&& *final(e.cache) == *final(self.cache)
                    &&& e.cache@ == self.admitted(value).0
                    &&& e.cache.spec_limiter() == self.admitted(value).1
                    &&& e.extra == OccupiedExtra::<K, V, Q>::Evicted(self.admitted(value).2)
                    &&& e.index() == 0
                },
                Err(kv) => {
                    &&& !self.admits(value)
                    &&& kv == (self.key.spec_ref(), value)
                    &&& final(self.cache).is_at(old(self.cache)@, self.limiter_after(value))
                },
            },
    {
        let VacantEntry { cache, key, hash } = self;
        let key = Q::into_owned(key);
        let ghost start = *cache;
        let behavior = cache.offer(&key, &value);
        let evicted = match behavior {
            AddBehavior::Reject => {
                return Err((key, value));
            },
            AddBehavior::Evict => {
                // The least recently used entry makes room, and its node is
                // the one that the new entry gets.
                match cache.lru_handle() {
                    Some(lru) => {
                        proof {
                            cache.lemma_handle(lru);
                            assert(start@.remove(start@.len() - 1) =~= start@.drop_last());
                        }
                        Some(cache.remove_handle(lru))
                    },
                    None => None,
                }
            },
            AddBehavior::Accept => None,
        };
        proof {
            assert(!has_slot(cache@, hash, key)) by {
                if has_slot(cache@, hash, key) {
                    let i = choose|i: int|
                        0 <= i < cache@.len() && slot_matches(#[trigger] cache@[i], hash, key);
                    assert(slot_matches(start@[i], hash, key));
                }
            }
        }
        let node = cache.insert_handle(hash, key, value);
        proof {
            cache.lemma_structured();
            lemma_handles_index(cache.handles(), 0);
        }
        Ok(OccupiedEntry { cache, node, extra: OccupiedExtra::Evicted(evicted) })
    }

    /// Puts the value into the cache under the entry's key; see
    /// `try_insert_entry`. The limiter must let the value in.
    pub fn insert_entry(self, value: V) -> (e: OccupiedEntry<'a, K, V, Q, L, S>)
        requires
            self.wf(),
            self.admits(value),
        ensures
            e.wf(),
            *final(e.cache) == *final(self.cache),
            e.cache@ == self.admitted(value).0,
            e.cache.spec_limiter() == self.admitted(value).1,
            e.extra == OccupiedExtra::<K, V, Q>::Evicted(self.admitted(value).2),
            e.index() == 0,
    {
        match self.try_insert_entry(value) {
            Ok(e) => e,
            Err(_) => vstd::pervasive::unreached(),
        }
    }

    /// Puts the value into the cache under the entry's key, if the limiter
    /// lets it, evicts what has to leave, and hands out the value to be
    /// changed in place. If the limiter refuses, key and value come back
    /// and the entries stay as they are.
    pub fn try_insert(self, value: V) -> (r: Result<&'a mut V, (K, V)>)
        requires
            self.wf(),
        ensures
            match r {
                Ok(v) => {
                    &&& self.admits(value)
                    &&& *v == value
                    &&& final(self.cache).is_after_loan(
                        self.inserted(value).0,
                        self.inserted(value).1,
                        0,
                        *final(v),
                    )
                },
                Err(kv) => {
                    &&& !self.admits(value)
                    &&& kv == (self.key.spec_ref(), value)
                    &&& final(self.cache).is_at(old(self.cache)@, self.limiter_after(value))
                },
            },
    {
        match self.try_insert_entry(value) {
            Ok(entry) => {
                proof {
                    lemma_promoted_first(entry.cache@);
                    entry.cache.lemma_handle(entry.node);
                }
                Ok(entry.into_mut())
            },
            Err(kv) => Err(kv),
        }
    }

    /// Puts the value into the cache under the entry's key, evicts what has
    /// to leave, and hands out the value to be changed in place. The limiter
    /// must let the value in.
    pub fn insert(self, value: V) -> (v: &'a mut V)
        requires
            self.wf(),
            self.admits(value),
        ensures
            *v == value,
            final(self.cache).is_after_loan(
                self.inserted(value).0,
                self.inserted(value).1,
                0,
                *final(v),
            ),
    {
        let entry = self.insert_entry(value);
        proof {
            lemma_promoted_first(entry.cache@);
            entry.cache.lemma_handle(entry.node);
        }
        entry.into_mut()
    }
}

/// A hold on the place of a key in the cache, which holds an entry or does
/// not.
pub enum Entry<'a, K, V, Q = OwnedKey<K>, L = SizeLimited, S = DefaultHasher> {
    /// The key is in the cache.
    Occupied(OccupiedEntry<'a, K, V, Q, L, S>),
    /// The key is not in the cache.
    Vacant(VacantEntry<'a, K, V, Q, L, S>),
}

impl<'a, K: Hash + Eq, V, Q: Key<Key = K>, L: Limiter<K, V>, S: BuildHasher> Entry<
    'a,
    K,
    V,
    Q,
    L,
    S,
> {
    /// The key of the place: that of the entry, or that of the lookup.
    pub fn key(&self) -> (r: &K)
        requires
            match self {
                Entry::Occupied(o) => o.wf(),
                Entry::Vacant(_) => true,
            },
        ensures
            match self {
                Entry::Occupied(o) => *r == o.slot().key,
                Entry::Vacant(v) => *r == v.key.spec_ref(),
            },
    {
        match self {
            Entry::Occupied(entry) => entry.key(),
            Entry::Vacant(entry) => entry.key(),
        }
    }
}

impl<'a, K: Hash + Eq, V, Q: InsertionKey<K>, L: Limiter<K, V>, S: BuildHasher> Entry<
    'a,
    K,
    V,
    Q,
    L,
    S,
> {
    /// The hold is in order, whichever it is.
    pub open spec fn wf(self) -> bool {
        match self {
            Entry::Occupied(o) => o.wf(),
            Entry::Vacant(v) => v.wf(),
        }
    }

    /// Whether the limiter lets this value into the place.
    pub open spec fn admits(self, value: V) -> bool {
        match self {
            Entry::Occupied(o) => o.admits(value),
            Entry::Vacant(v) => v.admits(value),
        }
    }

    /// The value that `or_insert` and its kin hand out: that of the entry
    /// that is there, or else the one that is offered.
    pub open spec fn value_or(self, value: V) -> V {
        match self {
            Entry::Occupied(o) => o.slot().value,
            Entry::Vacant(_) => value,
        }
    }

    /// What `or_insert` and its kin leave when the value that they hand out
    /// is not changed: the entries and the limiter. An entry that is there
    /// is used; else the offered value comes in as a new entry. Either way
    /// the entry stands first.
    pub open spec fn settled_or(self, value: V) -> (Seq<Slot<K, V>>, L, int) {
        match self {
            Entry::Occupied(o) => o.settled_first(),
            Entry::Vacant(v) => v.inserted(value),
        }
    }

    /// Puts the value into the place, if the limiter lets it: an entry that
    /// is there gets it as its new value, else a new entry comes in. Either
    /// way the entry is then the most recently used one. If the limiter
    /// refuses, the value comes back, with the key if the place was vacant,
    /// and the hold is given up.
    pub fn try_insert(self, value: V) -> (r: Result<
        OccupiedEntry<'a, K, V, Q, L, S>,
        (Option<K>, V),
    >)
        requires
            self.wf(),
        ensures
            r is Ok <==> self.admits(value),
            match self {
                Entry::Occupied(o) => match r {
                    Ok(e) => {
                        &&& e.wf()
                        &&& *final(e.cache) == *final(o.cache)
                        &&& e.node == o.node
                        &&& e.extra == o.extra
                        &&& e.cache@ == o.promoted().update(0, with_value(o.slot(), value))
                        &&& e.cache.spec_limiter() == o.limiter_after(None, Some(value))
                        &&& e.index() == 0
                    },
                    Err(kv) => {
                        &&& kv == (None::<K>, value)
                        &&& final(o.cache).is_at(
                            settle(
                                o.evicting(),
                                o.cache@,
                                o.limiter_after(None, Some(value)),
                                o.index(),
                            ).0,
                            settle(
                                o.evicting(),
                                o.cache@,
                                o.limiter_after(None, Some(value)),
                                o.index(),
                            ).1,
                        )
                    },
                },
                Entry::Vacant(v) => match r {
                    Ok(e) => {
                        &&& e.wf()
                        &&& *final(e.cache) == *final(v.cache)
                        &&& e.cache@ == v.admitted(value).0
                        &&& e.cache.spec_limiter() == v.admitted(value).1
                        &&& e.extra == OccupiedExtra::<K, V, Q>::Evicted(v.admitted(value).2)
                        &&& e.index() == 0
                    },
                    Err(kv) => {
                        &&& kv == (Some(v.key.spec_ref()), value)
                        &&& final(v.cache).is_at(v.cache@, v.limiter_after(value))
                    },
                },
            },
    {
        match self {
            Entry::Occupied(entry) => {
                let mut entry = entry;
                match entry.try_insert(value) {
                    Ok(_) => Ok(entry),
                    Err(v) => {
                        entry.drop_evicted();
                        Err((None, v))
                    },
                }
            },
            Entry::Vacant(entry) => {
                match entry.try_insert_entry(value) {
                    Ok(e) => Ok(e),
                    Err(kv) => Err((Some(kv.0), kv.1)),
                }
            },
        }
    }

    /// Puts the value into the place; see `try_insert`. The limiter must let
    /// the value in.
    pub fn insert(self, value: V) -> (e: OccupiedEntry<'a, K, V, Q, L, S>)
        requires
            self.wf(),
            self.admits(value),
        ensures
            e.wf(),
            e.index() == 0,
            match self {
                Entry::Occupied(o) => {
                    &&& *final(e.cache) == *final(o.cache)
                    &&& e.node == o.node
                    &&& e.extra == o.extra
                    &&& e.cache@ == o.promoted().update(0, with_value(o.slot(), value))
                    &&& e.cache.spec_limiter() == o.limiter_after(None, Some(value))
                },
                Entry::Vacant(v) => {
                    &&& *final(e.cache) == *final(v.cache)
                    &&& e.cache@ == v.admitted(value).0
                    &&& e.cache.spec_limiter() == v.admitted(value).1
                    &&& e.extra == OccupiedExtra::<K, V, Q>::Evicted(v.admitted(value).2)
                },
            },
    {
        match self.try_insert(value) {
            Ok(e) => e,
            Err(_) => vstd::pervasive::unreached(),
        }
    }

    /// The value of the place, to be changed in place: that of the entry
    /// that is there, which becomes the most recently used one, or else
    /// `default`, which comes in as a new entry. The limiter must let the
    /// default in where it is needed.
    pub fn or_insert(self, default: V) -> (r: &'a mut V)
        requires
            self.wf(),
            self is Vacant ==> self.admits(default),
        ensures
            *r == self.value_or(default),
            match self {
                Entry::Occupied(o) => final(o.cache).is_after_loan(
                    self.settled_or(default).0,
                    self.settled_or(default).1,
                    0,
                    *final(r),
                ),
                Entry::Vacant(v) => final(v.cache).is_after_loan(
                    self.settled_or(default).0,
                    self.settled_or(default).1,
                    0,
                    *final(r),
                ),
            },
    {
        match self {
            Entry::Occupied(entry) => entry.into_mut(),
            Entry::Vacant(entry) => entry.insert(default),
        }
    }

    /// The value of the place, to be changed in place: that of the entry
    /// that is there, which becomes the most recently used one, or else what
    /// `default` returns, which comes in as a new entry. `default` is called
    /// only where the place is vacant, and the limiter must let in what it
    /// returns.
    pub fn or_insert_with<F: FnOnce() -> V>(self, default: F) -> (r: &'a mut V)
        requires
            self.wf(),
            self is Vacant ==> call_requires(default, ()),
            self is Vacant ==> forall|value: V| #[trigger]
                call_ensures(default, (), value) ==> self.admits(value),
        ensures
            *r == self.value_or(*r),
            self is Vacant ==> call_ensures(default, (), *r),
            match self {
                Entry::Occupied(o) => final(o.cache).is_after_loan(
                    self.settled_or(*r).0,
                    self.settled_or(*r).1,
                    0,
                    *final(r),
                ),
                Entry::Vacant(v) => final(v.cache).is_after_loan(
                    self.settled_or(*r).0,
                    self.settled_or(*r).1,
                    0,
                    *final(r),
                ),
            },
    {
        match self {
            Entry::Occupied(entry) => entry.into_mut(),
            Entry::Vacant(entry) => {
                let value = default();
                assert(self.admits(value));
                entry.insert(value)
            },
        }
    }

    /// As `or_insert_with`, where `default` is shown the key that the new
    /// entry will have.
    pub fn or_insert_with_key<F: FnOnce(&K) -> V>(self, default: F) -> (r: &'a mut V)
        requires
            self.wf(),
            match self {
                Entry::Occupied(_) => true,
                Entry::Vacant(v) => {
                    &&& call_requires(default, (&v.key.spec_ref(),))
                    &&& forall|value: V| #[trigger]
                        call_ensures(default, (&v.key.spec_ref(),), value) ==> v.admits(value)
                },
            },
        ensures
            *r == self.value_or(*r),
            match self {
                Entry::Occupied(o) => final(o.cache).is_after_loan(
                    self.settled_or(*r).0,
                    self.settled_or(*r).1,
                    0,
                    *final(r),
                ),
                Entry::Vacant(v) => {
                    &&& call_ensures(default, (&v.key.spec_ref(),), *r)
                    &&& final(v.cache).is_after_loan(
                        self.settled_or(*r).0,
                        self.settled_or(*r).1,
                        0,
                        *final(r),
                    )
                },
            },
    {
        match self {
            Entry::Occupied(entry) => entry.into_mut(),
            Entry::Vacant(entry) => {
                let ghost lent = entry;
                let VacantEntry { cache, key, hash } = entry;
                let entry = VacantEntry { cache, key: OwnedKey(Q::into_owned(key)), hash };
                let value = default(entry.key());
                assert(lent.admits(value));
                entry.insert(value)
            },
        }
    }

    /// As `or_insert`, with the default value of the type.
    pub fn or_default(self) -> (r: &'a mut V) where V: Default
        requires
            self.wf(),
            self is Vacant ==> forall|value: V| #[trigger]
                call_ensures(V::default, (), value) ==> self.admits(value),
        ensures
            *r == self.value_or(*r),
            self is Vacant ==> call_ensures(V::default, (), *r),
            match self {
                Entry::Occupied(o) => final(o.cache).is_after_loan(
                    self.settled_or(*r).0,
                    self.settled_or(*r).1,
                    0,
                    *final(r),
                ),
                Entry::Vacant(v) => final(v.cache).is_after_loan(
                    self.settled_or(*r).0,
                    self.settled_or(*r).1,
                    0,
                    *final(r),
                ),
            },
    {
        match self {
            Entry::Occupied(entry) => entry.into_mut(),
            Entry::Vacant(entry) => {
                let value = V::default();
                assert(self.admits(value));
                entry.insert(value)
            },
        }
    }

    /// Lets `f` change the value of the entry that is there, which becomes
    /// the most recently used one; a vacant place stays as it is.
    pub fn and_modify<F: FnOnce(&mut V)>(self, f: F) -> (r: Self)
        requires
            self.wf(),
            match self {
                Entry::Occupied(o) => forall|v: &mut V|
                    *v == o.slot().value ==> call_requires(f, (v,)),
                Entry::Vacant(_) => true,
            },
        ensures
            match self {
                Entry::Occupied(o) => {
                    &&& r matches Entry::Occupied(e)
                    &&& e.node == o.node
                    &&& e.extra == o.extra
                    &&& *final(e.cache) == *final(o.cache)
                    &&& e.cache.has_handle(e.node)
                    &&& e.index() == 0
                    &&& exists|v: &mut V|
                        {
                            &&& *v == o.slot().value
                            &&& #[trigger] call_ensures(f, (v,), ())
                            &&& e.cache.is_after_loan(
                                o.promoted(),
                                o.cache.spec_limiter(),
                                0,
                                *final(v),
                            )
                        }
                },
                Entry::Vacant(_) => r == self,
            },
    {
        let mut this = self;
        if let Entry::Occupied(entry) = &mut this {
            f(entry.get_mut());
        }
        this
    }
}

} // verus!
