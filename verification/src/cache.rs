//! The cache itself: node storage, recency list, index and limiter, and the
//! operations on single nodes that everything else is built from.

use crate::key::obeys_key_eq;
use crate::limiter::{same_weights, unref, AddBehavior, Limiter, SizeLimited, Unlimited};
use crate::list::{
    attach, attach_last, detach, linked, new_node, new_sigil, node_matches, ring, Node,
};
use crate::model::{
    demoted, distinct_slots, drained, find_slot, has_slot, lemma_find_unique,
    lemma_total_weight_bound, lemma_total_weight_insert, lemma_total_weight_moved,
    lemma_total_weight_remove, lemma_total_weight_same, lemma_total_weight_update, new_slot,
    promoted, slot_matches, total_weight, with_key, with_value, Slot,
};
use crate::table::{
    default_hasher, filed_by_node_hash, hash_one, table_find, table_insert, table_len, table_new,
    table_remove, table_shrink_to_fit, table_slots, table_with_capacity, DefaultHasher, HandleTable,
    MAX_TABLE_LEN,
};
use std::hash::{BuildHasher, Hash};
use vstd::prelude::*;

verus! {

/// A cache that keeps its entries in order of use.
///
/// Its view is the sequence of its entries, most recently used first. What
/// may stay is decided by the limiter `L`; `S` builds the hashers for the
/// keys.
pub struct LruCache<K, V, L = SizeLimited, S = DefaultHasher> {
    /// The nodes; the first one is the sigil, once there is one.
    pub(crate) nodes: Vec<Node<K, V>>,
    /// The handles of the nodes that wait for reuse.
    pub(crate) free: Vec<usize>,
    /// The handles of the resident nodes, by the hash of their keys.
    pub(crate) table: HandleTable,
    pub(crate) limiter: L,
    pub(crate) hasher: S,
    /// The handles of the resident nodes, most recently used first.
    pub(crate) order: Ghost<Seq<usize>>,
}

/// The entry that a node holds.
pub(crate) open spec fn slot_of<K, V>(n: Node<K, V>) -> Slot<K, V> {
    Slot { hash: n.hash, key: n.key->0, value: n.val->0 }
}

/// The entries that the nodes hold, in the order of the handles.
pub(crate) open spec fn slots_of<K, V>(nodes: Seq<Node<K, V>>, order: Seq<usize>) -> Seq<
    Slot<K, V>,
> {
    Seq::new(order.len(), |i: int| slot_of(nodes[order[i] as int]))
}

/// In a sequence of distinct handles, each handle is found where it stands.
pub(crate) proof fn lemma_index_of(order: Seq<usize>, i: int)
    requires
        forall|i: int, j: int| 0 <= i < j < order.len() ==> order[i] != order[j],
        0 <= i < order.len(),
    ensures
        order.contains(order[i]),
        order.index_of(order[i]) == i,
{
    let j = order.index_of(order[i]);
    if j < i {
        assert(order[j] != order[i]);
    } else if i < j {
        assert(order[i] != order[j]);
    }
}

impl<K, V, L, S> View for LruCache<K, V, L, S> {
    type V = Seq<Slot<K, V>>;

    closed spec fn view(&self) -> Seq<Slot<K, V>> {
        slots_of(self.nodes@, self.order@)
    }
}

impl<K, V, L, S> LruCache<K, V, L, S> {
    /// The limiter, for use in specifications.
    pub closed spec fn spec_limiter(&self) -> L {
        self.limiter
    }

    /// The handles of the resident nodes, in the order of the view. A handle
    /// names a node for as long as the node holds its entry.
    pub closed spec fn handles(&self) -> Seq<usize> {
        self.order@
    }

    /// Whether the handle names a resident node.
    pub open spec fn has_handle(&self, h: usize) -> bool {
        self.handles().contains(h)
    }

    /// The place in the view of the entry that the handle names.
    pub open spec fn handle_index(&self, h: usize) -> int {
        self.handles().index_of(h)
    }
}

impl<K: Hash + Eq, V, L: Limiter<K, V>, S: BuildHasher> LruCache<K, V, L, S> {
    /// Storage, list and index agree with each other: the list runs through
    /// the nodes that hold an entry, the index holds exactly their handles,
    /// each under the hash that its node records, and no two entries hold the
    /// same key under the same hash. Keys are compared by `==`, which must
    /// decide identity.
    pub closed spec fn structured(&self) -> bool {
        &&& obeys_key_eq::<K>()
        &&& self.nodes@.len() == 0 ==> self.order@.len() == 0 && self.free@.len() == 0
        &&& self.nodes@.len() > 0 ==> linked(self.nodes@, self.order@)
        &&& forall|h: usize| #[trigger]
            self.order@.contains(h) ==> self.nodes@[h as int].key is Some
                && self.nodes@[h as int].val is Some
        &&& forall|j: int|
            0 <= j < self.free@.len() ==> 0 < #[trigger] self.free@[j] < self.nodes@.len()
                && !self.order@.contains(self.free@[j])
        &&& forall|i: int, j: int|
            0 <= i < j < self.free@.len() ==> self.free@[i] != self.free@[j]
        &&& forall|h: usize| #[trigger]
            table_slots(self.table).contains_key(h) <==> self.order@.contains(h)
        &&& forall|h: usize| #[trigger]
            self.order@.contains(h) ==> table_slots(self.table)[h] == self.nodes@[h as int].hash
        &&& distinct_slots(self@)
    }

    /// The entry that the handle names.
    pub open spec fn slot_at(&self, h: usize) -> Slot<K, V> {
        self@[self.handle_index(h)]
    }

    /// What the entries weigh together.
    pub open spec fn weight(&self) -> nat {
        total_weight(self.spec_limiter(), self@)
    }

    /// What the limiter has counted beyond what the entries weigh: the
    /// weight of an entry that is on its way in or out.
    pub open spec fn slack(&self) -> int {
        self.spec_limiter().usage() - self.weight()
    }

    /// The limiter is valid, and it has counted what the entries weigh and
    /// `slack` more.
    pub open spec fn balanced(&self, slack: int) -> bool {
        &&& self.spec_limiter().inv()
        &&& self.slack() == slack
    }

    /// The limiter is valid and has counted at least what the entries weigh.
    pub open spec fn covered(&self) -> bool {
        &&& self.spec_limiter().inv()
        &&& self.slack() >= 0
    }

    /// The cache is in order: its parts agree, and the limiter has counted
    /// exactly the entries that are there.
    pub open spec fn wf(&self) -> bool {
        &&& self.structured()
        &&& self.balanced(0)
    }

    /// The cache is in order, holds these entries and has this limiter.
    pub open spec fn is_at(&self, slots: Seq<Slot<K, V>>, limiter: L) -> bool {
        &&& self.wf()
        &&& self@ == slots
        &&& self.spec_limiter() == limiter
    }

    /// The cache is what a cache of these entries with this limiter is once
    /// the value at place `i`, which was lent out to be changed, has come
    /// back as `last`: the entry at `i` holds `last`, nothing else has
    /// changed, and the cache is in order if `last` weighs what the value
    /// weighed when it was lent out.
    pub open spec fn is_after_loan(
        &self,
        slots: Seq<Slot<K, V>>,
        limiter: L,
        i: int,
        last: V,
    ) -> bool {
        &&& self.structured()
        &&& self@ == slots.update(i, with_value(slots[i], last))
        &&& self.spec_limiter() == limiter
        &&& limiter.weight(slots[i].key, last) == limiter.weight(slots[i].key, slots[i].value)
            ==> self.wf()
    }

    /// What follows from `structured` for those who cannot look inside.
    pub proof fn lemma_structured(&self)
        requires
            self.structured(),
        ensures
            obeys_key_eq::<K>(),
            distinct_slots(self@),
            self.handles().len() == self@.len(),
            self.handles().no_duplicates(),
    {
        if self.nodes@.len() == 0 {
            assert(self.order@ =~= Seq::<usize>::empty());
        }
    }

    /// A resident handle names a place of the view, and it is the handle of
    /// that place.
    pub proof fn lemma_handle(&self, h: usize)
        requires
            self.structured(),
            self.has_handle(h),
        ensures
            0 <= self.handle_index(h) < self@.len(),
            self.handles()[self.handle_index(h)] == h,
    {
    }

    /// No other entry holds an entry's key under the entry's hash, and
    /// putting an entry's own key in its place changes nothing.
    pub proof fn lemma_own_key(&self, h: usize)
        requires
            self.structured(),
            self.has_handle(h),
        ensures
            forall|j: int|
                0 <= j < self@.len() && j != self.handle_index(h) ==> !slot_matches(
                    #[trigger] self@[j],
                    self.slot_at(h).hash,
                    self.slot_at(h).key,
                ),
            self@.update(self.handle_index(h), with_key(self.slot_at(h), self.slot_at(h).key))
                == self@,
    {
        let i = self.handle_index(h);
        assert forall|j: int| 0 <= j < self@.len() && j != i implies !slot_matches(
            #[trigger] self@[j],
            self@[i].hash,
            self@[i].key,
        ) by {
            if j < i {
                assert(!(self@[j].hash == self@[i].hash && self@[j].key == self@[i].key));
            } else {
                assert(!(self@[i].hash == self@[j].hash && self@[i].key == self@[j].key));
            }
        }
        assert(self@.update(i, with_key(self@[i], self@[i].key)) =~= self@);
    }

    /// What a walk along the list relies on: the list runs through the
    /// nodes that hold the entries of the view.
    pub(crate) proof fn lemma_walk(&self)
        requires
            self.structured(),
        ensures
            self@ == slots_of(self.nodes@, self.order@),
            self.handles() == self.order@,
            self.nodes@.len() > 0 ==> linked(self.nodes@, self.order@),
            self.nodes@.len() == 0 ==> self.order@.len() == 0,
            forall|h: usize| #[trigger]
                self.order@.contains(h) ==> self.nodes@[h as int].key is Some
                    && self.nodes@[h as int].val is Some,
    {
    }

    /// Handles in the list are nodes, and the table files exactly them.
    proof fn lemma_table(&self)
        requires
            self.structured(),
        ensures
            filed_by_node_hash(self.table, self.nodes@),
            table_slots(self.table).dom() =~= self.order@.to_set(),
            table_slots(self.table).dom().finite(),
            table_slots(self.table).dom().len() == self.order@.len(),
            forall|i: int, j: int|
                0 <= i < j < self.order@.len() ==> self.order@[i] != self.order@[j],
            forall|h: usize| #[trigger]
                self.order@.contains(h) ==> 0 < h < self.nodes@.len(),
    {
        vstd::seq_lib::seq_to_set_is_finite(self.order@);
        assert(table_slots(self.table).dom() =~= self.order@.to_set());
        if self.nodes@.len() > 0 {
            assert(self.order@.no_duplicates());
            self.order@.unique_seq_to_set();
        } else {
            assert(self.order@ =~= Seq::<usize>::empty());
            self.order@.unique_seq_to_set();
        }
        assert forall|h: usize| #[trigger] self.order@.contains(h) implies 0 < h
            < self.nodes@.len() by {
            let i = self.order@.index_of(h);
            assert(self.order@[i] == h);
        }
    }

    /// A cache without entries.
    pub(crate) fn construct(limiter: L, hasher: S, table: HandleTable) -> (r: Self)
        requires
            obeys_key_eq::<K>(),
            limiter.inv(),
            limiter.usage() == 0,
            table_slots(table).dom() == Set::<usize>::empty(),
        ensures
            r.wf(),
            r@ == Seq::<Slot<K, V>>::empty(),
            r.spec_limiter() == limiter,
    {
        let r = LruCache {
            nodes: Vec::new(),
            free: Vec::new(),
            table,
            limiter,
            hasher,
            order: Ghost(Seq::empty()),
        };
        assert(r@ =~= Seq::<Slot<K, V>>::empty());
        r
    }

    /// The number of entries.
    pub fn len(&self) -> (r: usize)
        requires
            self.structured(),
        ensures
            r == self@.len(),
    {
        proof {
            self.lemma_table();
        }
        table_len(&self.table)
    }

    /// Whether the cache holds no entry.
    pub fn is_empty(&self) -> (r: bool)
        requires
            self.structured(),
        ensures
            r == (self@.len() == 0),
    {
        self.len() == 0
    }

    /// The hash of a key under the cache's hash builder.
    pub fn hash_key(&self, key: &K) -> u64 {
        hash_one(&self.hasher, key)
    }

    /// The handle of the node that holds this key under this hash.
    pub(crate) fn lookup(&self, hash: u64, key: &K) -> (r: Option<usize>)
        requires
            self.structured(),
        ensures
            match r {
                Some(h) => self.has_handle(h) && find_slot(self@, hash, *key) == Some(
                    self.handle_index(h),
                ),
                None => find_slot(self@, hash, *key) is None,
            },
    {
        proof {
            self.lemma_table();
        }
        let r = table_find(&self.table, &self.nodes, hash, key);
        proof {
            match r {
                Some(h) => {
                    let i = self.order@.index_of(h);
                    assert(self.order@[i] == h);
                    assert(slot_matches(self@[i], hash, *key));
                    lemma_find_unique(self@, hash, *key, i);
                },
                None => {
                    assert forall|i: int| 0 <= i < self@.len() implies !slot_matches(
                        #[trigger] self@[i],
                        hash,
                        *key,
                    ) by {
                        let h = self.order@[i];
                        assert(self.order@.contains(h));
                        assert(table_slots(self.table).contains_key(h));
                        if slot_matches(self@[i], hash, *key) {
                            assert(table_slots(self.table)[h] == hash);
                            assert(node_matches(self.nodes@[h as int], hash, *key));
                        }
                    }
                },
            }
        }
        r
    }

    /// The handle of the least recently used node.
    pub(crate) fn lru_handle(&self) -> (r: Option<usize>)
        requires
            self.structured(),
        ensures
            match r {
                Some(h) => self.has_handle(h) && self.handle_index(h) == self@.len() - 1,
                None => self@.len() == 0,
            },
    {
        if self.is_empty() {
            return None;
        }
        let h = self.nodes[0].prev;
        proof {
            self.lemma_table();
            let n = self.order@.len() as int;
            assert(self.nodes@[ring(self.order@, n + 1) as int].prev == ring(self.order@, n));
            lemma_index_of(self.order@, n - 1);
        }
        Some(h)
    }

    /// The handle of the node that was used just before this one.
    pub(crate) fn next_handle(&self, h: usize) -> (r: Option<usize>)
        requires
            self.structured(),
            self.has_handle(h),
        ensures
            match r {
                Some(x) => self.has_handle(x) && self.handle_index(x) == self.handle_index(h) + 1,
                None => self.handle_index(h) == self@.len() - 1,
            },
    {
        proof {
            self.lemma_table();
            let i = self.order@.index_of(h);
            assert(ring(self.order@, i + 1) == h);
            assert(self.nodes@[ring(self.order@, i + 1) as int].next == ring(self.order@, i + 2));
            if i + 1 < self.order@.len() {
                lemma_index_of(self.order@, i + 1);
            }
        }
        let n = self.nodes[h].next;
        if n == 0 {
            None
        } else {
            Some(n)
        }
    }

    /// The handle of the node that was used just after this one.
    pub(crate) fn prev_handle(&self, h: usize) -> (r: Option<usize>)
        requires
            self.structured(),
            self.has_handle(h),
        ensures
            match r {
                Some(x) => self.has_handle(x) && self.handle_index(x) == self.handle_index(h) - 1,
                None => self.handle_index(h) == 0,
            },
    {
        proof {
            self.lemma_table();
            let i = self.order@.index_of(h);
            assert(ring(self.order@, i + 1) == h);
            assert(self.nodes@[ring(self.order@, i + 1) as int].prev == ring(self.order@, i));
            if i > 0 {
                lemma_index_of(self.order@, i - 1);
            }
        }
        let p = self.nodes[h].prev;
        if p == 0 {
            None
        } else {
            Some(p)
        }
    }

    /// The key of the node.
    pub(crate) fn key_at(&self, h: usize) -> (r: &K)
        requires
            self.structured(),
            self.has_handle(h),
        ensures
            *r == self.slot_at(h).key,
    {
        proof {
            self.lemma_table();
        }
        self.nodes[h].key.as_ref().unwrap()
    }

    /// The value of the node.
    pub(crate) fn value_at(&self, h: usize) -> (r: &V)
        requires
            self.structured(),
            self.has_handle(h),
        ensures
            *r == self.slot_at(h).value,
    {
        proof {
            self.lemma_table();
        }
        self.nodes[h].val.as_ref().unwrap()
    }

    /// Makes the node the most recently used one.
    pub(crate) fn promote_handle(&mut self, h: usize)
        requires
            old(self).structured(),
            old(self).has_handle(h),
        ensures
            final(self).structured(),
            final(self)@ == promoted(old(self)@, old(self).handle_index(h)),
            final(self).handles() == seq![h] + old(self).handles().remove(
                old(self).handle_index(h),
            ),
            final(self).spec_limiter() == old(self).spec_limiter(),
            final(self).weight() == old(self).weight(),
    {
        let ghost i = self.order@.index_of(h);
        let ghost rest = self.order@.remove(i);
        proof {
            self.lemma_table();
            lemma_handles_remove_all(self.order@, i);
            lemma_total_weight_moved(self.limiter, self@, i);
        }
        detach(&mut self.nodes, Ghost(self.order@), h);
        attach(&mut self.nodes, Ghost(rest), h);
        self.order = Ghost(seq![h] + rest);
        proof {
            let moved = seq![h] + rest;
            assert forall|x: usize| moved.contains(x) <==> old(self).order@.contains(x) by {
                if moved.contains(x) {
                    let j = moved.index_of(x);
                    assert(moved[j] == x);
                    if j > 0 {
                        assert(rest[j - 1] == x);
                    }
                }
                if old(self).order@.contains(x) {
                    let j = old(self).order@.index_of(x);
                    if j == i {
                        assert(moved[0] == x);
                    } else if j < i {
                        assert(moved[j + 1] == x);
                    } else {
                        assert(moved[j] == x);
                    }
                }
            }
            assert(self@ =~= promoted(old(self)@, i));
            lemma_distinct_moved(old(self)@, i);
        }
    }

    /// Makes the node the least recently used one.
    pub(crate) fn demote_handle(&mut self, h: usize)
        requires
            old(self).structured(),
            old(self).has_handle(h),
        ensures
            final(self).structured(),
            final(self)@ == demoted(old(self)@, old(self).handle_index(h)),
            final(self).handles() == old(self).handles().remove(old(self).handle_index(h)).push(
                h,
            ),
            final(self).spec_limiter() == old(self).spec_limiter(),
            final(self).weight() == old(self).weight(),
    {
        let ghost i = self.order@.index_of(h);
        let ghost rest = self.order@.remove(i);
        proof {
            self.lemma_table();
            lemma_handles_remove_all(self.order@, i);
            lemma_total_weight_moved(self.limiter, self@, i);
        }
        detach(&mut self.nodes, Ghost(self.order@), h);
        attach_last(&mut self.nodes, Ghost(rest), h);
        self.order = Ghost(rest.push(h));
        proof {
            let moved = rest.push(h);
            assert forall|x: usize| moved.contains(x) <==> old(self).order@.contains(x) by {
                if moved.contains(x) {
                    let j = moved.index_of(x);
                    assert(moved[j] == x);
                    if j < rest.len() {
                        assert(rest[j] == x);
                    }
                }
                if old(self).order@.contains(x) {
                    let j = old(self).order@.index_of(x);
                    if j == i {
                        assert(moved[rest.len() as int] == x);
                    } else if j < i {
                        assert(moved[j] == x);
                    } else {
                        assert(moved[j - 1] == x);
                    }
                }
            }
            assert(self@ =~= demoted(old(self)@, i));
            lemma_distinct_moved(old(self)@, i);
        }
    }

    /// Takes the node out of index and list and hands out what it held. The
    /// limiter is not told.
    pub(crate) fn unlink_handle(&mut self, h: usize) -> (r: (K, V))
        requires
            old(self).structured(),
            old(self).has_handle(h),
        ensures
            final(self).structured(),
            r.0 == old(self).slot_at(h).key,
            r.1 == old(self).slot_at(h).value,
            final(self)@ == old(self)@.remove(old(self).handle_index(h)),
            final(self).handles() == old(self).handles().remove(old(self).handle_index(h)),
            final(self).spec_limiter() == old(self).spec_limiter(),
            final(self).weight() + old(self).spec_limiter().weight(r.0, r.1) == old(self).weight(),
    {
        let ghost i = self.order@.index_of(h);
        let ghost rest = self.order@.remove(i);
        proof {
            self.lemma_table();
            lemma_handles_remove_all(self.order@, i);
            lemma_total_weight_remove(self.limiter, self@, i);
            lemma_distinct_moved(self@, i);
        }
        let hash = self.nodes[h].hash;
        table_remove(&mut self.table, hash, h);
        detach(&mut self.nodes, Ghost(self.order@), h);
        let ghost detached = self.nodes@;
        let key = self.nodes[h].key.take();
        let val = self.nodes[h].val.take();
        self.free.push(h);
        self.order = Ghost(rest);
        proof {
            assert(forall|x: int|
                0 <= x < detached.len() ==> (#[trigger] self.nodes@[x]).next == detached[x].next
                    && self.nodes@[x].prev == detached[x].prev);
            assert(linked(self.nodes@, rest));
            assert(self@ =~= old(self)@.remove(i)) by {
                assert forall|j: int| 0 <= j < rest.len() implies #[trigger] self@[j] == old(
                    self,
                )@.remove(i)[j] by {
                    let j0 = if j < i {
                        j
                    } else {
                        j + 1
                    };
                    assert(rest[j] == old(self).order@[j0]);
                    assert(rest.contains(rest[j]));
                }
            }
            assert forall|j: int| 0 <= j < self.free@.len() implies 0 < #[trigger] self.free@[j]
                < self.nodes@.len() && !self.order@.contains(self.free@[j]) by {
                if j < old(self).free@.len() {
                    assert(self.free@[j] == old(self).free@[j]);
                }
            }
            assert forall|a: int, b: int| 0 <= a < b < self.free@.len() implies self.free@[a]
                != self.free@[b] by {
                assert(self.free@[a] == old(self).free@[a]);
                if b < old(self).free@.len() {
                    assert(self.free@[b] == old(self).free@[b]);
                }
            }
        }
        (key.unwrap(), val.unwrap())
    }

    /// Takes the node out of the cache, tells the limiter, and hands out what
    /// the node held.
    pub(crate) fn remove_handle(&mut self, h: usize) -> (r: (K, V))
        requires
            old(self).structured(),
            old(self).covered(),
            old(self).has_handle(h),
        ensures
            final(self).structured(),
            r.0 == old(self).slot_at(h).key,
            r.1 == old(self).slot_at(h).value,
            final(self)@ == old(self)@.remove(old(self).handle_index(h)),
            final(self).handles() == old(self).handles().remove(old(self).handle_index(h)),
            final(self).spec_limiter() == old(self).spec_limiter().after_remove(
                (old(self)@.len() - 1) as nat,
                r.0,
                r.1,
            ),
            final(self).spec_limiter().inv(),
            same_weights::<K, V, L>(final(self).spec_limiter(), old(self).spec_limiter()),
            final(self).slack() == old(self).slack(),
    {
        let (key, value) = self.unlink_handle(h);
        let len = self.len();
        let ghost before = self.limiter;
        self.limiter.on_remove(len, &key, &value);
        proof {
            lemma_total_weight_same(self.limiter, before, self@);
        }
        (key, value)
    }

    /// Gives the entry a node, puts the node first in the list and files it
    /// in the index. The limiter is not asked.
    pub(crate) fn insert_handle(&mut self, hash: u64, key: K, value: V) -> (h: usize)
        requires
            old(self).structured(),
            !has_slot(old(self)@, hash, key),
            old(self)@.len() < MAX_TABLE_LEN,
        ensures
            final(self).structured(),
            final(self)@ == seq![new_slot(hash, key, value)] + old(self)@,
            !old(self).has_handle(h),
            final(self).handles() == seq![h] + old(self).handles(),
            final(self).spec_limiter() == old(self).spec_limiter(),
            final(self).weight() == old(self).weight() + old(self).spec_limiter().weight(
                key,
                value,
            ),
    {
        proof {
            self.lemma_table();
            lemma_total_weight_insert(self.limiter, self@, 0, new_slot(hash, key, value));
            assert(self@.insert(0, new_slot(hash, key, value)) =~= seq![
                new_slot(hash, key, value),
            ] + self@);
        }
        if self.nodes.len() == 0 {
            self.nodes.push(new_sigil());
            proof {
                assert(self.order@ =~= Seq::<usize>::empty());
                assert(linked(self.nodes@, self.order@));
            }
        }
        let ghost base = self.nodes@;
        let node = new_node(hash, key, value);
        let h = match self.free.pop() {
            Some(h) => {
                assert(h == old(self).free@[old(self).free@.len() - 1]);
                self.nodes[h] = node;
                h
            },
            None => {
                self.nodes.push(node);
                self.nodes.len() - 1
            },
        };
        let ghost placed = self.nodes@;
        proof {
            assert(!self.order@.contains(h)) by {
                if self.order@.contains(h) {
                    let j = self.order@.index_of(h);
                    assert(self.order@[j] == h);
                }
            }
            assert(forall|x: int| 0 <= x < base.len() && x != h ==> placed[x] == base[x]);
            assert(linked(placed, self.order@)) by {
                assert forall|j: int| 0 <= j <= self.order@.len() implies (#[trigger] placed[ring(
                    self.order@,
                    j,
                ) as int]).next == ring(self.order@, j + 1) by {
                    if 0 < j {
                        assert(self.order@.contains(self.order@[j - 1]));
                    }
                    assert(base[ring(self.order@, j) as int].next == ring(self.order@, j + 1));
                }
                assert forall|j: int| 0 <= j <= self.order@.len() implies (#[trigger] placed[ring(
                    self.order@,
                    j + 1,
                ) as int]).prev == ring(self.order@, j) by {
                    if j < self.order@.len() {
                        assert(self.order@.contains(self.order@[j]));
                    }
                    assert(base[ring(self.order@, j + 1) as int].prev == ring(self.order@, j));
                }
            }
        }
        attach(&mut self.nodes, Ghost(self.order@), h);
        table_insert(&mut self.table, &self.nodes, hash, h);
        self.order = Ghost(seq![h] + self.order@);
        proof {
            let grown = self.order@;
            let before = old(self).order@;
            assert forall|x: usize| #[trigger] grown.contains(x) <==> before.contains(x) || x
                == h by {
                if grown.contains(x) {
                    let j = grown.index_of(x);
                    assert(grown[j] == x);
                    if j > 0 {
                        assert(before[j - 1] == x);
                    }
                }
                if before.contains(x) {
                    let j = before.index_of(x);
                    assert(grown[j + 1] == x);
                }
                assert(grown[0] == h);
            }
            assert forall|x: usize| #[trigger] before.contains(x) implies 0 < x < base.len() && x
                != h && base[x as int] == old(self).nodes@[x as int] && self.nodes@[x as int].key
                == base[x as int].key && self.nodes@[x as int].val == base[x as int].val
                && self.nodes@[x as int].hash == base[x as int].hash by {
                assert(placed[x as int] == base[x as int]);
                assert(self.nodes@[x as int].key == placed[x as int].key);
            }
            assert(self.nodes@[h as int].key == placed[h as int].key);
            assert(slot_of(self.nodes@[h as int]) == new_slot(hash, key, value));
            assert(self@ =~= seq![new_slot(hash, key, value)] + old(self)@) by {
                assert forall|j: int| 0 <= j < grown.len() implies #[trigger] self@[j] == (seq![
                    new_slot(hash, key, value),
                ] + old(self)@)[j] by {
                    if j > 0 {
                        assert(grown[j] == before[j - 1]);
                        assert(before.contains(before[j - 1]));
                    }
                }
            }
            assert(distinct_slots(self@)) by {
                assert forall|a: int, b: int| 0 <= a < b < self@.len() implies !((
                #[trigger] self@[a]).hash == (#[trigger] self@[b]).hash && self@[a].key
                    == self@[b].key) by {
                    assert(self@[b] == old(self)@[b - 1]);
                    if a == 0 {
                        assert(!slot_matches(old(self)@[b - 1], hash, key));
                    } else {
                        assert(self@[a] == old(self)@[a - 1]);
                    }
                }
            }
            assert forall|j: int| 0 <= j < self.free@.len() implies 0 < #[trigger] self.free@[j]
                < self.nodes@.len() && !self.order@.contains(self.free@[j]) by {
                assert(self.free@[j] == old(self).free@[j]);
            }
        }
        h
    }

    /// The value of the node, to be changed in place.
    pub(crate) fn value_at_mut(&mut self, h: usize) -> (r: &mut V)
        requires
            old(self).structured(),
            old(self).has_handle(h),
        ensures
            *r == old(self).slot_at(h).value,
            final(self).structured(),
            final(self)@ == old(self)@.update(
                old(self).handle_index(h),
                with_value(old(self).slot_at(h), *final(r)),
            ),
            final(self).handles() == old(self).handles(),
            final(self).spec_limiter() == old(self).spec_limiter(),
    {
        let ghost i = self.order@.index_of(h);
        proof {
            self.lemma_table();
        }
        let r = self.nodes[h].val.as_mut().unwrap();
        proof {
            let after = after_borrow(self.nodes)@;
            let before = old(self).nodes@;
            assert(after.len() == before.len());
            assert(forall|x: int| 0 <= x < before.len() && x != h ==> after[x] == before[x]);
            assert(after[h as int].key == before[h as int].key);
            assert(after[h as int].hash == before[h as int].hash);
            assert(after[h as int].next == before[h as int].next);
            assert(after[h as int].prev == before[h as int].prev);
            assert(after[h as int].val == Some(*final(r)));
            assert(forall|x: int|
                0 <= x < before.len() ==> (#[trigger] after[x]).next == before[x].next
                    && after[x].prev == before[x].prev && after[x].key == before[x].key
                    && after[x].hash == before[x].hash);
            assert(linked(after, self.order@));
            let view_after = slots_of(after, self.order@);
            assert(view_after =~= old(self)@.update(i, with_value(old(self)@[i], *final(r)))) by {
                assert forall|j: int| 0 <= j < self.order@.len() implies #[trigger] view_after[j]
                    == old(self)@.update(i, with_value(old(self)@[i], *final(r)))[j] by {
                    assert(self.order@.contains(self.order@[j]));
                    if j != i {
                        assert(self.order@[j] != self.order@[i]);
                    }
                }
            }
            assert(distinct_slots(view_after)) by {
                assert forall|a: int, b: int| 0 <= a < b < view_after.len() implies !((
                #[trigger] view_after[a]).hash == (#[trigger] view_after[b]).hash
                    && view_after[a].key == view_after[b].key) by {
                    assert(view_after[a].hash == old(self)@[a].hash);
                    assert(view_after[a].key == old(self)@[a].key);
                    assert(view_after[b].hash == old(self)@[b].hash);
                    assert(view_after[b].key == old(self)@[b].key);
                }
            }
        }
        r
    }

    /// The key of the node, and its value to be changed in place.
    pub(crate) fn key_value_at_mut(&mut self, h: usize) -> (r: (&K, &mut V))
        requires
            old(self).structured(),
            old(self).has_handle(h),
        ensures
            *r.0 == old(self).slot_at(h).key,
            *r.1 == old(self).slot_at(h).value,
            final(self).structured(),
            final(self)@ == old(self)@.update(
                old(self).handle_index(h),
                with_value(old(self).slot_at(h), *final(r.1)),
            ),
            final(self).handles() == old(self).handles(),
            final(self).spec_limiter() == old(self).spec_limiter(),
    {
        let ghost i = self.order@.index_of(h);
        proof {
            self.lemma_table();
        }
        let node = &mut self.nodes[h];
        let key = node.key.as_ref().unwrap();
        let val = node.val.as_mut().unwrap();
        proof {
            let after = after_borrow(self.nodes)@;
            let before = old(self).nodes@;
            assert(after.len() == before.len());
            assert(forall|x: int| 0 <= x < before.len() && x != h ==> after[x] == before[x]);
            assert(after[h as int].val == Some(*final(val)));
            assert(forall|x: int|
                0 <= x < before.len() ==> (#[trigger] after[x]).next == before[x].next
                    && after[x].prev == before[x].prev && after[x].key == before[x].key
                    && after[x].hash == before[x].hash);
            assert(linked(after, self.order@));
            let view_after = slots_of(after, self.order@);
            assert(view_after =~= old(self)@.update(i, with_value(old(self)@[i], *final(val))))
                by {
                assert forall|j: int| 0 <= j < self.order@.len() implies #[trigger] view_after[j]
                    == old(self)@.update(i, with_value(old(self)@[i], *final(val)))[j] by {
                    assert(self.order@.contains(self.order@[j]));
                    if j != i {
                        assert(self.order@[j] != self.order@[i]);
                    }
                }
            }
            assert(distinct_slots(view_after)) by {
                assert forall|a: int, b: int| 0 <= a < b < view_after.len() implies !((
                #[trigger] view_after[a]).hash == (#[trigger] view_after[b]).hash
                    && view_after[a].key == view_after[b].key) by {
                    assert(view_after[a].hash == old(self)@[a].hash);
                    assert(view_after[a].key == old(self)@[a].key);
                    assert(view_after[b].hash == old(self)@[b].hash);
                    assert(view_after[b].key == old(self)@[b].key);
                }
            }
        }
        (key, val)
    }

    /// Puts a value in the place of the node's value and hands out the old
    /// one. The limiter is not asked.
    pub(crate) fn swap_value(&mut self, h: usize, value: V) -> (r: V)
        requires
            old(self).structured(),
            old(self).has_handle(h),
        ensures
            r == old(self).slot_at(h).value,
            final(self).structured(),
            final(self)@ == old(self)@.update(
                old(self).handle_index(h),
                with_value(old(self).slot_at(h), value),
            ),
            final(self).handles() == old(self).handles(),
            final(self).spec_limiter() == old(self).spec_limiter(),
            final(self).weight() + old(self).spec_limiter().weight(old(self).slot_at(h).key, r)
                == old(self).weight() + old(self).spec_limiter().weight(
                old(self).slot_at(h).key,
                value,
            ),
    {
        proof {
            self.lemma_table();
            let i = self.order@.index_of(h);
            lemma_total_weight_update(self.limiter, self@, i, with_value(self@[i], value));
        }
        let mut value = value;
        let place = self.value_at_mut(h);
        std::mem::swap(place, &mut value);
        value
    }

    /// Puts a key in the place of the node's key and hands out the old one.
    /// The entry stays filed under the hash that it came in with, so no
    /// other entry may hold the new key under that hash. The limiter is not
    /// asked.
    pub(crate) fn swap_key(&mut self, h: usize, key: K) -> (r: K)
        requires
            old(self).structured(),
            old(self).has_handle(h),
            forall|j: int|
                0 <= j < old(self)@.len() && j != old(self).handle_index(h) ==> !slot_matches(
                    #[trigger] old(self)@[j],
                    old(self).slot_at(h).hash,
                    key,
                ),
        ensures
            r == old(self).slot_at(h).key,
            final(self).structured(),
            final(self)@ == old(self)@.update(
                old(self).handle_index(h),
                with_key(old(self).slot_at(h), key),
            ),
            final(self).handles() == old(self).handles(),
            final(self).spec_limiter() == old(self).spec_limiter(),
            final(self).weight() + old(self).spec_limiter().weight(r, old(self).slot_at(h).value)
                == old(self).weight() + old(self).spec_limiter().weight(
                key,
                old(self).slot_at(h).value,
            ),
    {
        let ghost i = self.order@.index_of(h);
        proof {
            self.lemma_table();
            lemma_total_weight_update(self.limiter, self@, i, with_key(self@[i], key));
        }
        let mut held = key;
        let place = self.nodes[h].key.as_mut().unwrap();
        std::mem::swap(place, &mut held);
        proof {
            let after = self.nodes@;
            let before = old(self).nodes@;
            assert(after.len() == before.len());
            assert(forall|x: int| 0 <= x < before.len() && x != h ==> after[x] == before[x]);
            assert(forall|x: int|
                0 <= x < before.len() ==> (#[trigger] after[x]).next == before[x].next
                    && after[x].prev == before[x].prev && after[x].val == before[x].val
                    && after[x].hash == before[x].hash);
            assert(linked(after, self.order@));
            let changed = old(self)@.update(i, with_key(old(self)@[i], key));
            assert(self@ =~= changed) by {
                assert forall|j: int| 0 <= j < self.order@.len() implies #[trigger] self@[j]
                    == changed[j] by {
                    assert(self.order@.contains(self.order@[j]));
                    if j != i {
                        assert(self.order@[j] != self.order@[i]);
                    }
                }
            }
            assert(distinct_slots(self@)) by {
                assert forall|a: int, b: int| 0 <= a < b < self@.len() implies !((
                #[trigger] self@[a]).hash == (#[trigger] self@[b]).hash && self@[a].key
                    == self@[b].key) by {
                    assert(self@[a].hash == old(self)@[a].hash);
                    assert(self@[b].hash == old(self)@[b].hash);
                    if a == i {
                        assert(!slot_matches(old(self)@[b], old(self)@[i].hash, key));
                    } else if b == i {
                        assert(!slot_matches(old(self)@[a], old(self)@[i].hash, key));
                    } else {
                        assert(self@[a].key == old(self)@[a].key);
                        assert(self@[b].key == old(self)@[b].key);
                    }
                }
            }
        }
        held
    }

    /// Asks the limiter whether an entry may come in.
    pub(crate) fn offer(&mut self, key: &K, value: &V) -> (r: AddBehavior)
        requires
            old(self).structured(),
            old(self).spec_limiter().inv(),
        ensures
            final(self).structured(),
            final(self)@ == old(self)@,
            final(self).handles() == old(self).handles(),
            r == old(self).spec_limiter().add_behavior(old(self)@.len(), *key, *value),
            final(self).spec_limiter() == old(self).spec_limiter().after_add(
                old(self)@.len(),
                *key,
                *value,
            ),
            final(self).spec_limiter().inv(),
            final(self).weight() == old(self).weight(),
            same_weights::<K, V, L>(final(self).spec_limiter(), old(self).spec_limiter()),
            final(self).slack() == old(self).slack() + if r is Reject {
                0
            } else {
                old(self).spec_limiter().weight(*key, *value) as int
            },
    {
        let len = self.len();
        let r = self.limiter.on_add(len, key, value);
        proof {
            lemma_total_weight_same(self.limiter, old(self).limiter, self@);
        }
        r
    }

    /// Asks the limiter whether the node may get a new key, a new value or
    /// both.
    pub(crate) fn offer_update(
        &mut self,
        h: usize,
        new_key: Option<&K>,
        new_value: Option<&V>,
    ) -> (r: AddBehavior)
        requires
            old(self).structured(),
            old(self).covered(),
            old(self).has_handle(h),
        ensures
            final(self).structured(),
            final(self)@ == old(self)@,
            final(self).handles() == old(self).handles(),
            r == old(self).spec_limiter().update_behavior(
                old(self)@.len(),
                old(self).slot_at(h).key,
                old(self).slot_at(h).value,
                unref(new_key),
                unref(new_value),
            ),
            final(self).spec_limiter() == old(self).spec_limiter().after_update(
                old(self)@.len(),
                old(self).slot_at(h).key,
                old(self).slot_at(h).value,
                unref(new_key),
                unref(new_value),
            ),
            final(self).spec_limiter().inv(),
            same_weights::<K, V, L>(final(self).spec_limiter(), old(self).spec_limiter()),
            final(self).weight() == old(self).weight(),
            final(self).slack() == old(self).slack() + if r is Reject {
                0
            } else {
                old(self).spec_limiter().weight(
                    match new_key {
                        Some(k) => *k,
                        None => old(self).slot_at(h).key,
                    },
                    match new_value {
                        Some(v) => *v,
                        None => old(self).slot_at(h).value,
                    },
                ) - old(self).spec_limiter().weight(
                    old(self).slot_at(h).key,
                    old(self).slot_at(h).value,
                )
            },
    {
        proof {
            self.lemma_table();
            lemma_total_weight_bound(self.limiter, self@, self.order@.index_of(h));
        }
        let len = self.len();
        let node = &self.nodes[h];
        let old_key = node.key.as_ref().unwrap();
        let old_value = node.val.as_ref().unwrap();
        let r = self.limiter.on_update(len, old_key, old_value, new_key, new_value);
        proof {
            lemma_total_weight_same(self.limiter, old(self).limiter, self@);
        }
        r
    }

    /// Whether the limiter finds that the cache holds too much.
    pub(crate) fn oversized(&self) -> (r: bool)
        requires
            self.structured(),
            self.spec_limiter().inv(),
        ensures
            r == self.spec_limiter().oversized(self@.len()),
    {
        self.limiter.is_oversized(self.len())
    }

    /// The cache's limiter.
    pub fn limiter(&self) -> (r: &L)
        ensures
            *r == self.spec_limiter(),
    {
        &self.limiter
    }

    /// Gives the index back the room that it does not need. No entry leaves.
    pub fn shrink_to_fit(&mut self)
        requires
            old(self).structured(),
        ensures
            final(self).structured(),
            final(self)@ == old(self)@,
            final(self).handles() == old(self).handles(),
            final(self).spec_limiter() == old(self).spec_limiter(),
    {
        proof {
            self.lemma_table();
        }
        table_shrink_to_fit(&mut self.table, &self.nodes);
    }

    /// The cache's limiter, to be changed in place. The cache stays in order
    /// if the limiter stays valid and weighs and has counted what it did.
    /// After a limit has been lowered, `trim` evicts what is beyond it.
    pub fn limiter_mut(&mut self) -> (r: &mut L)
        requires
            old(self).structured(),
        ensures
            *r == old(self).spec_limiter(),
            final(self).spec_limiter() == *final(r),
            final(self).structured(),
            final(self)@ == old(self)@,
            final(self).handles() == old(self).handles(),
    {
        &mut self.limiter
    }

    /// Evicts the least recently used entry for as long as the limiter finds
    /// that the cache holds too much.
    pub fn trim(&mut self)
        requires
            old(self).wf(),
        ensures
            final(self).wf(),
            final(self)@ == drained(old(self)@, old(self).spec_limiter(), -1).0,
            final(self).spec_limiter() == drained(old(self)@, old(self).spec_limiter(), -1).1,
            same_weights::<K, V, L>(final(self).spec_limiter(), old(self).spec_limiter()),
    {
        let mut done = false;
        while !done
            invariant
                self.wf(),
                same_weights::<K, V, L>(self.spec_limiter(), old(self).spec_limiter()),
                drained(self@, self.spec_limiter(), -1) == drained(
                    old(self)@,
                    old(self).spec_limiter(),
                    -1,
                ),
                done ==> drained(self@, self.spec_limiter(), -1) == (
                    self@,
                    self.spec_limiter(),
                    -1int,
                ),
            decreases self@.len(), if done { 0nat } else { 1nat },
        {
            done = true;
            if self.oversized() {
                if let Some(lru) = self.lru_handle() {
                    proof {
                        self.lemma_handle(lru);
                    }
                    let _ = self.remove_handle(lru);
                    done = false;
                }
            }
        }
    }
}

/// The room that a new index is given: as asked, where the index can
/// allocate as much at all.
fn prepared_table(capacity: usize) -> (r: HandleTable)
    ensures
        table_slots(r).dom() == Set::<usize>::empty(),
{
    if capacity <= MAX_TABLE_LEN {
        table_with_capacity(capacity)
    } else {
        table_new()
    }
}

impl<K: Hash + Eq, V> LruCache<K, V, SizeLimited> {
    /// A cache that holds at most `cap` entries.
    pub fn new(cap: usize) -> (r: LruCache<K, V>)
        requires
            obeys_key_eq::<K>(),
        ensures
            r.wf(),
            r@.len() == 0,
            r.spec_limiter().limit() == cap,
    {
        LruCache::construct(SizeLimited::new(cap), default_hasher(), prepared_table(cap))
    }
}

impl<K: Hash + Eq, V> LruCache<K, V, Unlimited> {
    /// A cache that never evicts an entry by itself.
    pub fn unbounded() -> (r: LruCache<K, V, Unlimited>)
        requires
            obeys_key_eq::<K>(),
        ensures
            r.wf(),
            r@.len() == 0,
    {
        LruCache::construct(Unlimited, default_hasher(), table_new())
    }
}

impl<K: Hash + Eq, V, S: BuildHasher> LruCache<K, V, SizeLimited, S> {
    /// A cache that holds at most `cap` entries and hashes its keys with the
    /// given hash builder.
    pub fn with_hasher(cap: usize, hash_builder: S) -> (r: LruCache<K, V, SizeLimited, S>)
        requires
            obeys_key_eq::<K>(),
        ensures
            r.wf(),
            r@.len() == 0,
            r.spec_limiter().limit() == cap,
    {
        LruCache::construct(SizeLimited::new(cap), hash_builder, prepared_table(cap))
    }

    /// The largest number of entries that the cache lets stay.
    pub fn cap(&self) -> (r: usize)
        ensures
            r == self.spec_limiter().limit(),
    {
        self.limiter.limit()
    }

    /// Gives the cache another capacity. Entries beyond a smaller capacity
    /// are evicted, least recently used first.
    pub fn resize(&mut self, cap: usize)
        requires
            old(self).wf(),
        ensures
            final(self).wf(),
            final(self).spec_limiter().limit() == cap,
            final(self)@ == if cap == old(self).spec_limiter().limit() || old(self)@.len()
                <= cap {
                old(self)@
            } else {
                old(self)@.subrange(0, cap as int)
            },
    {
        // Nothing to do where the capacity stays.
        if cap == self.limiter.limit() {
            return ;
        }
        self.limiter.set_limit(cap);
        proof {
            lemma_total_weight_same(self.limiter, old(self).limiter, self@);
            lemma_size_limited_drained(self@, self.limiter);
        }
        self.trim();
        self.shrink_to_fit();
    }
}

/// What a count-limited cache keeps when it is trimmed: its most recently
/// used entries, as many as the limit lets stay.
pub proof fn lemma_size_limited_drained<K, V>(slots: Seq<Slot<K, V>>, limiter: SizeLimited)
    ensures
        drained(slots, limiter, -1).0 == if slots.len() <= limiter.limit() {
            slots
        } else {
            slots.subrange(0, limiter.limit() as int)
        },
        drained(slots, limiter, -1).1 == limiter,
    decreases slots.len(),
{
    if slots.len() > limiter.limit() {
        let rest = slots.remove(slots.len() - 1);
        lemma_size_limited_drained(rest, limiter);
        assert(rest =~= slots.subrange(0, slots.len() - 1));
        if rest.len() > limiter.limit() {
            assert(rest.subrange(0, limiter.limit() as int) =~= slots.subrange(
                0,
                limiter.limit() as int,
            ));
        } else {
            assert(rest =~= slots.subrange(0, limiter.limit() as int));
        }
    }
}

impl<K: Hash + Eq, V, S: BuildHasher> LruCache<K, V, Unlimited, S> {
    /// A cache that never evicts an entry by itself and hashes its keys with
    /// the given hash builder.
    pub fn unbounded_with_hasher(hash_builder: S) -> (r: LruCache<K, V, Unlimited, S>)
        requires
            obeys_key_eq::<K>(),
        ensures
            r.wf(),
            r@.len() == 0,
    {
        LruCache::construct(Unlimited, hash_builder, table_new())
    }
}

impl<K: Hash + Eq, V, L: Limiter<K, V>> LruCache<K, V, L> {
    /// A cache with the given limiter, which has counted nothing yet.
    pub fn with_limiter(limiter: L) -> (r: LruCache<K, V, L>)
        requires
            obeys_key_eq::<K>(),
            limiter.inv(),
            limiter.usage() == 0,
        ensures
            r.wf(),
            r@.len() == 0,
            r.spec_limiter() == limiter,
    {
        LruCache::construct(limiter, default_hasher(), table_new())
    }
}

impl<K: Hash + Eq, V, L: Limiter<K, V>, S: BuildHasher> LruCache<K, V, L, S> {
    /// A cache with the given limiter, which has counted nothing yet, that
    /// hashes its keys with the given hash builder.
    pub fn with_limiter_and_hasher(limiter: L, hash_builder: S) -> (r: LruCache<K, V, L, S>)
        requires
            obeys_key_eq::<K>(),
            limiter.inv(),
            limiter.usage() == 0,
        ensures
            r.wf(),
            r@.len() == 0,
            r.spec_limiter() == limiter,
    {
        LruCache::construct(limiter, hash_builder, table_new())
    }
}

/// What is left of a sequence of distinct handles when one place is taken
/// out: the other handles, and not the one that stood there.
pub(crate) proof fn lemma_handles_remove_all(order: Seq<usize>, i: int)
    requires
        forall|i: int, j: int| 0 <= i < j < order.len() ==> order[i] != order[j],
        0 <= i < order.len(),
    ensures
        !order.remove(i).contains(order[i]),
        forall|x: usize| #[trigger]
            order.remove(i).contains(x) <==> order.contains(x) && x != order[i],
{
    let rest = order.remove(i);
    assert forall|x: usize| #[trigger] rest.contains(x) <==> order.contains(x) && x
        != order[i] by {
        if rest.contains(x) {
            let j = rest.index_of(x);
            assert(rest[j] == x);
            if j < i {
                assert(order[j] == x);
            } else {
                assert(order[j + 1] == x);
            }
        }
        if order.contains(x) && x != order[i] {
            let j = order.index_of(x);
            if j < i {
                assert(rest[j] == x);
            } else {
                assert(rest[j - 1] == x);
            }
        }
    }
}

/// Moving an entry to the front or to the back keeps the entries distinct.
pub(crate) proof fn lemma_distinct_moved<K, V>(slots: Seq<Slot<K, V>>, i: int)
    requires
        distinct_slots(slots),
        0 <= i < slots.len(),
    ensures
        distinct_slots(promoted(slots, i)),
        distinct_slots(demoted(slots, i)),
        distinct_slots(slots.remove(i)),
{
    let p = promoted(slots, i);
    let d = demoted(slots, i);
    let r = slots.remove(i);
    let n = slots.len() as int;
    assert forall|a: int, b: int| 0 <= a < b < r.len() implies !((#[trigger] r[a]).hash == (
    #[trigger] r[b]).hash && r[a].key == r[b].key) by {
        let a0 = if a < i { a } else { a + 1 };
        let b0 = if b < i { b } else { b + 1 };
        assert(r[a] == slots[a0]);
        assert(r[b] == slots[b0]);
    }
    assert forall|a: int, b: int| 0 <= a < b < p.len() implies !((#[trigger] p[a]).hash == (
    #[trigger] p[b]).hash && p[a].key == p[b].key) by {
        let a0 = if a == 0 { i } else if a - 1 < i { a - 1 } else { a };
        let b0 = if b - 1 < i { b - 1 } else { b };
        assert(p[a] == slots[a0]);
        assert(p[b] == slots[b0]);
        if a0 < b0 {
            assert(!(slots[a0].hash == slots[b0].hash && slots[a0].key == slots[b0].key));
        } else {
            assert(!(slots[b0].hash == slots[a0].hash && slots[b0].key == slots[a0].key));
        }
    }
    assert forall|a: int, b: int| 0 <= a < b < d.len() implies !((#[trigger] d[a]).hash == (
    #[trigger] d[b]).hash && d[a].key == d[b].key) by {
        let a0 = if a < i { a } else { a + 1 };
        let b0 = if b == n - 1 { i } else if b < i { b } else { b + 1 };
        assert(d[a] == slots[a0]);
        assert(d[b] == slots[b0]);
        if a0 < b0 {
            assert(!(slots[a0].hash == slots[b0].hash && slots[a0].key == slots[b0].key));
        } else {
            assert(!(slots[b0].hash == slots[a0].hash && slots[b0].key == slots[a0].key));
        }
    }
}

/// Where a handle stands after another place has been taken out of the
/// sequence.
pub proof fn lemma_handles_remove(handles: Seq<usize>, j: int, h: usize)
    requires
        handles.no_duplicates(),
        0 <= j < handles.len(),
        handles.contains(h),
        handles[j] != h,
    ensures
        handles.remove(j).contains(h),
        handles.remove(j).index_of(h) == if handles.index_of(h) < j {
            handles.index_of(h)
        } else {
            handles.index_of(h) - 1
        },
        handles.remove(j).no_duplicates(),
{
    let i = handles.index_of(h);
    let rest = handles.remove(j);
    let k = if i < j {
        i
    } else {
        i - 1
    };
    assert(rest[k] == h);
    assert forall|a: int, b: int|
        0 <= a < rest.len() && 0 <= b < rest.len() && a != b implies rest[a] != rest[b] by {
        let a0 = if a < j {
            a
        } else {
            a + 1
        };
        let b0 = if b < j {
            b
        } else {
            b + 1
        };
        assert(rest[a] == handles[a0]);
        assert(rest[b] == handles[b0]);
    }
    let m = rest.index_of(h);
    assert(rest[m] == h);
}

/// The handle at a place is found at that place, where no handle stands
/// twice.
pub proof fn lemma_handles_index(handles: Seq<usize>, i: int)
    requires
        handles.no_duplicates(),
        0 <= i < handles.len(),
    ensures
        handles.contains(handles[i]),
        handles.index_of(handles[i]) == i,
{
    let j = handles.index_of(handles[i]);
    assert(handles[j] == handles[i]);
}

} // verus!
