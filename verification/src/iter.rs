//! Walks along the entries of a cache, in order of use, from either end.

use crate::cache::{lemma_handles_index, slots_of, LruCache};
use crate::limiter::{Limiter, SizeLimited};
use crate::list::{linked, ring, Node};
use crate::model::{with_value, Slot};
use std::hash::{BuildHasher, Hash};
use vstd::prelude::*;

verus! {

/// A walk along the entries of a cache that reads them. Its view is what
/// is left of the walk: the entries that neither end has passed, most
/// recently used first.
pub struct Iter<'a, K, V> {
    /// The number of entries left.
    len: usize,
    /// The node that the front of the walk stands at.
    ptr: usize,
    /// The node that the back of the walk stands at.
    end: usize,
    nodes: &'a Vec<Node<K, V>>,
    /// The handles of the list, and how many of them the front has passed.
    order: Ghost<Seq<usize>>,
    passed: Ghost<int>,
}

impl<'a, K, V> View for Iter<'a, K, V> {
    type V = Seq<Slot<K, V>>;

    closed spec fn view(&self) -> Seq<Slot<K, V>> {
        slots_of(self.nodes@, self.order@).subrange(self.passed@, self.passed@ + self.len)
    }
}

impl<'a, K, V> Iter<'a, K, V> {
    /// The walk stands in the list it was started on.
    pub closed spec fn wf(&self) -> bool {
        &&& 0 <= self.passed@
        &&& self.passed@ + self.len <= self.order@.len()
        &&& self.len > 0 ==> linked(self.nodes@, self.order@)
        &&& self.len > 0 ==> self.ptr == self.order@[self.passed@]
        &&& self.len > 0 ==> self.end == self.order@[self.passed@ + self.len - 1]
        &&& forall|h: usize| #[trigger]
            self.order@.contains(h) ==> self.nodes@[h as int].key is Some
                && self.nodes@[h as int].val is Some
    }

    /// The next entry from the most recently used end.
    pub fn next(&mut self) -> (r: Option<(&'a K, &'a V)>)
        requires
            old(self).wf(),
        ensures
            final(self).wf(),
            match r {
                Some(kv) => {
                    &&& old(self)@.len() > 0
                    &&& *kv.0 == old(self)@[0].key
                    &&& *kv.1 == old(self)@[0].value
                    &&& final(self)@ == old(self)@.drop_first()
                },
                None => old(self)@.len() == 0 && final(self)@ == old(self)@,
            },
    {
        if self.len == 0 {
            return None;
        }
        let ghost i = self.passed@;
        proof {
            assert(self.order@.contains(self.order@[i]));
            assert(ring(self.order@, i + 1) == self.ptr);
            assert(self.nodes@[ring(self.order@, i + 1) as int].next == ring(self.order@, i + 2));
        }
        let nodes: &'a Vec<Node<K, V>> = self.nodes;
        let node = &nodes[self.ptr];
        let key = node.key.as_ref().unwrap();
        let val = node.val.as_ref().unwrap();
        self.len = self.len - 1;
        self.ptr = node.next;
        self.passed = Ghost(i + 1);
        proof {
            assert(self@ =~= old(self)@.drop_first());
        }
        Some((key, val))
    }

    /// The next entry from the least recently used end.
    pub fn next_back(&mut self) -> (r: Option<(&'a K, &'a V)>)
        requires
            old(self).wf(),
        ensures
            final(self).wf(),
            match r {
                Some(kv) => old(self)@.len() > 0 && *kv.0 == old(self)@.last().key && *kv.1
                    == old(self)@.last().value && final(self)@ == old(self)@.drop_last(),
                None => old(self)@.len() == 0 && final(self)@ == old(self)@,
            },
    {
        if self.len == 0 {
            return None;
        }
        let ghost j = self.passed@ + self.len - 1;
        proof {
            assert(self.order@.contains(self.order@[j]));
            assert(ring(self.order@, j + 1) == self.end);
            assert(self.nodes@[ring(self.order@, j + 1) as int].prev == ring(self.order@, j));
        }
        let nodes: &'a Vec<Node<K, V>> = self.nodes;
        let node = &nodes[self.end];
        let key = node.key.as_ref().unwrap();
        let val = node.val.as_ref().unwrap();
        self.len = self.len - 1;
        self.end = node.prev;
        proof {
            assert(self@ =~= old(self)@.drop_last());
        }
        Some((key, val))
    }

    /// The number of entries left.
    pub fn len(&self) -> (r: usize)
        requires
            self.wf(),
        ensures
            r == self@.len(),
    {
        self.len
    }

    /// The number of entries left, as a lower and an upper bound.
    pub fn size_hint(&self) -> (r: (usize, Option<usize>))
        requires
            self.wf(),
        ensures
            r.0 == self@.len(),
            r.1 == Some(r.0),
    {
        (self.len, Some(self.len))
    }

    /// The number of entries left; the walk is given up.
    pub fn count(self) -> (r: usize)
        requires
            self.wf(),
        ensures
            r == self@.len(),
    {
        self.len
    }
}

impl<'a, K, V> Clone for Iter<'a, K, V> {
    /// A second walk that stands where this one stands.
    fn clone(&self) -> (r: Self)
        ensures
            r == *self,
    {
        Iter {
            len: self.len,
            ptr: self.ptr,
            end: self.end,
            nodes: self.nodes,
            order: Ghost(self.order@),
            passed: Ghost(self.passed@),
        }
    }
}

/// A walk along the entries of a cache that takes them out, least recently
/// used first.
pub struct IntoIter<K, V> {
    cache: LruCache<K, V>,
}

impl<K: Hash + Eq, V> View for IntoIter<K, V> {
    type V = Seq<Slot<K, V>>;

    closed spec fn view(&self) -> Seq<Slot<K, V>> {
        self.cache@
    }
}

impl<K: Hash + Eq, V> IntoIter<K, V> {
    /// The cache that is walked is in order.
    pub closed spec fn wf(&self) -> bool {
        self.cache.wf()
    }

    /// The least recently used entry that is left.
    pub fn next(&mut self) -> (r: Option<(K, V)>)
        requires
            old(self).wf(),
        ensures
            final(self).wf(),
            match r {
                Some(kv) => {
                    &&& old(self)@.len() > 0
                    &&& kv.0 == old(self)@.last().key
                    &&& kv.1 == old(self)@.last().value
                    &&& final(self)@ == old(self)@.drop_last()
                },
                None => old(self)@.len() == 0 && final(self)@ == old(self)@,
            },
    {
        self.cache.pop_lru()
    }

    /// The number of entries left.
    pub fn len(&self) -> (r: usize)
        requires
            self.wf(),
        ensures
            r == self@.len(),
    {
        self.cache.len()
    }

    /// The number of entries left, as a lower and an upper bound.
    pub fn size_hint(&self) -> (r: (usize, Option<usize>))
        requires
            self.wf(),
        ensures
            r.0 == self@.len(),
            r.1 == Some(r.0),
    {
        let len = self.cache.len();
        (len, Some(len))
    }

    /// The number of entries left; the walk is given up.
    pub fn count(self) -> (r: usize)
        requires
            self.wf(),
        ensures
            r == self@.len(),
    {
        self.cache.len()
    }
}

impl<K: Hash + Eq, V> LruCache<K, V> {
    /// A walk that takes the entries out, least recently used first.
    pub fn into_iter(self) -> (r: IntoIter<K, V>)
        requires
            self.wf(),
        ensures
            r.wf(),
            r@ == self@,
    {
        IntoIter { cache: self }
    }
}

impl<K: Hash + Eq, V, L: Limiter<K, V>, S: BuildHasher> LruCache<K, V, L, S> {
    /// A walk along the entries, most recently used first, that reads them.
    pub fn iter(&self) -> (r: Iter<'_, K, V>)
        requires
            self.wf(),
        ensures
            r.wf(),
            r@ == self@,
    {
        proof {
            self.lemma_walk();
            self.lemma_structured();
        }
        let len = self.len();
        let (ptr, end) = if len == 0 {
            (0, 0)
        } else {
            proof {
                let n = self.order@.len() as int;
                assert(self.nodes@[ring(self.order@, 0) as int].next == ring(self.order@, 1));
                assert(self.nodes@[ring(self.order@, n + 1) as int].prev == ring(self.order@, n));
            }
            (self.nodes[0].next, self.nodes[0].prev)
        };
        let r = Iter {
            len,
            ptr,
            end,
            nodes: &self.nodes,
            order: Ghost(self.order@),
            passed: Ghost(0),
        };
        proof {
            assert(r@ =~= self@);
        }
        r
    }
}

/// A walk along the entries of a cache that lets their values be changed.
/// It hands out one entry at a time: the entry is lent for as long as the
/// walk is not asked for the next one. Its view is what is left of the
/// walk.
pub struct IterMut<'a, K, V, L = SizeLimited, S = crate::table::DefaultHasher> {
    /// The cache that is walked.
    pub cache: &'a mut LruCache<K, V, L, S>,
    /// The number of entries left.
    pub len: usize,
    /// The node that the front of the walk stands at.
    pub ptr: usize,
    /// The node that the back of the walk stands at.
    pub end: usize,
    /// How many entries the front has passed.
    pub passed: Ghost<int>,
}

impl<'a, K: Hash + Eq, V, L: Limiter<K, V>, S: BuildHasher> IterMut<'a, K, V, L, S> {
    /// What is left of the walk: the entries that neither end has passed,
    /// most recently used first.
    pub open spec fn remaining(self) -> Seq<Slot<K, V>> {
        self.cache@.subrange(self.passed@, self.passed@ + self.len)
    }

    /// The walk stands in the cache it was started on.
    pub open spec fn wf(self) -> bool {
        &&& self.cache.structured()
        &&& 0 <= self.passed@
        &&& self.passed@ + self.len <= self.cache@.len()
        &&& self.len > 0 ==> self.cache.handles()[self.passed@] == self.ptr
        &&& self.len > 0 ==> self.cache.handles()[self.passed@ + self.len - 1] == self.end
    }

    /// The next entry from the most recently used end: its key, and its
    /// value to be changed in place.
    pub fn next(&mut self) -> (r: Option<(&K, &mut V)>)
        requires
            old(self).wf(),
        ensures
            final(self).wf(),
            *final(final(self).cache) == *final(old(self).cache),
            final(self).cache.spec_limiter() == old(self).cache.spec_limiter(),
            match r {
                Some(kv) => {
                    &&& old(self).len > 0
                    &&& *kv.0 == old(self).remaining()[0].key
                    &&& *kv.1 == old(self).remaining()[0].value
                    &&& final(self).len == old(self).len - 1
                    &&& final(self).passed@ == old(self).passed@ + 1
                    &&& final(self).cache@ == old(self).cache@.update(
                        old(self).passed@,
                        with_value(old(self).remaining()[0], *final(kv.1)),
                    )
                },
                None => old(self).len == 0 && *final(self) == *old(self),
            },
    {
        if self.len == 0 {
            return None;
        }
        proof {
            self.cache.lemma_structured();
            lemma_handles_index(self.cache.handles(), self.passed@);
            if self.len > 1 {
                lemma_handles_index(self.cache.handles(), self.passed@ + 1);
            }
        }
        let here = self.ptr;
        let next = match self.cache.next_handle(here) {
            Some(n) => n,
            None => 0,
        };
        self.len = self.len - 1;
        self.ptr = next;
        self.passed = Ghost(self.passed@ + 1);
        Some(self.cache.key_value_at_mut(here))
    }

    /// The next entry from the least recently used end: its key, and its
    /// value to be changed in place.
    pub fn next_back(&mut self) -> (r: Option<(&K, &mut V)>)
        requires
            old(self).wf(),
        ensures
            final(self).wf(),
            *final(final(self).cache) == *final(old(self).cache),
            final(self).cache.spec_limiter() == old(self).cache.spec_limiter(),
            match r {
                Some(kv) => {
                    &&& old(self).len > 0
                    &&& *kv.0 == old(self).remaining().last().key
                    &&& *kv.1 == old(self).remaining().last().value
                    &&& final(self).len == old(self).len - 1
                    &&& final(self).passed@ == old(self).passed@
                    &&& final(self).cache@ == old(self).cache@.update(
                        old(self).passed@ + old(self).len - 1,
                        with_value(old(self).remaining().last(), *final(kv.1)),
                    )
                },
                None => old(self).len == 0 && *final(self) == *old(self),
            },
    {
        if self.len == 0 {
            return None;
        }
        proof {
            self.cache.lemma_structured();
            lemma_handles_index(self.cache.handles(), self.passed@ + self.len - 1);
            if self.len > 1 {
                lemma_handles_index(self.cache.handles(), self.passed@ + self.len - 2);
            }
        }
        let here = self.end;
        let prev = match self.cache.prev_handle(here) {
            Some(p) => p,
            None => 0,
        };
        self.len = self.len - 1;
        self.end = prev;
        Some(self.cache.key_value_at_mut(here))
    }

    /// The number of entries left.
    pub fn len(&self) -> (r: usize)
        ensures
            r == self.len,
    {
        self.len
    }

    /// The number of entries left, as a lower and an upper bound.
    pub fn size_hint(&self) -> (r: (usize, Option<usize>))
        ensures
            r.0 == self.len,
            r.1 == Some(r.0),
    {
        (self.len, Some(self.len))
    }

    /// The number of entries left; the walk is given up.
    pub fn count(self) -> (r: usize)
        ensures
            r == self.len,
            *final(self.cache) == *old(self.cache),
    {
        self.len
    }
}

impl<K: Hash + Eq, V, L: Limiter<K, V>, S: BuildHasher> LruCache<K, V, L, S> {
    /// A walk along the entries, most recently used first, that lets their
    /// values be changed.
    pub fn iter_mut(&mut self) -> (r: IterMut<'_, K, V, L, S>)
        requires
            old(self).wf(),
        ensures
            r.wf(),
            *r.cache == *old(self),
            *final(self) == *final(r.cache),
            r.passed@ == 0,
            r.len == old(self)@.len(),
    {
        proof {
            self.lemma_structured();
        }
        let len = self.len();
        let ptr = match self.lru_handle() {
            Some(_) => {
                proof {
                    self.lemma_walk();
                    assert(self.nodes@[ring(self.order@, 0) as int].next == ring(self.order@, 1));
                }
                self.nodes[0].next
            },
            None => 0,
        };
        let end = match self.lru_handle() {
            Some(h) => {
                proof {
                    self.lemma_handle(h);
                }
                h
            },
            None => 0,
        };
        IterMut { cache: self, len, ptr, end, passed: Ghost(0) }
    }
}

} // verus!
