//! The mathematical model of a cache: the sequence of its entries, most
//! recently used first, and the functions on it that the contracts speak of.

use crate::limiter::{same_weights, Limiter};
use vstd::prelude::*;

verus! {

/// One entry as the contracts see it: the key, the value, and the hash under
/// which the key was offered when the entry came in.
pub struct Slot<K, V> {
    pub hash: u64,
    pub key: K,
    pub value: V,
}

/// Whether the entry holds this key under this hash.
pub open spec fn slot_matches<K, V>(slot: Slot<K, V>, hash: u64, key: K) -> bool {
    slot.hash == hash && slot.key == key
}

/// The entry with another value.
pub open spec fn with_value<K, V>(slot: Slot<K, V>, value: V) -> Slot<K, V> {
    Slot { hash: slot.hash, key: slot.key, value }
}

/// The entry with another key, filed under the hash that it was filed
/// under.
pub open spec fn with_key<K, V>(slot: Slot<K, V>, key: K) -> Slot<K, V> {
    Slot { hash: slot.hash, key, value: slot.value }
}

/// The entry of a key that was offered under a hash, with its value.
pub open spec fn new_slot<K, V>(hash: u64, key: K, value: V) -> Slot<K, V> {
    Slot { hash, key, value }
}

/// Whether some entry holds this key under this hash.
pub open spec fn has_slot<K, V>(slots: Seq<Slot<K, V>>, hash: u64, key: K) -> bool {
    exists|i: int| 0 <= i < slots.len() && slot_matches(#[trigger] slots[i], hash, key)
}

/// The place of the entry that holds this key under this hash, where there
/// is one.
pub open spec fn find_slot<K, V>(slots: Seq<Slot<K, V>>, hash: u64, key: K) -> Option<int> {
    if has_slot(slots, hash, key) {
        Some(choose|i: int| 0 <= i < slots.len() && slot_matches(#[trigger] slots[i], hash, key))
    } else {
        None
    }
}

/// No two entries hold the same key under the same hash.
pub open spec fn distinct_slots<K, V>(slots: Seq<Slot<K, V>>) -> bool {
    forall|i: int, j: int|
        0 <= i < j < slots.len() ==> !((#[trigger] slots[i]).hash == (#[trigger] slots[j]).hash
            && slots[i].key == slots[j].key)
}

/// Every entry is filed under the hash that `f` gives its key.
pub open spec fn hashed_by<K, V>(slots: Seq<Slot<K, V>>, f: spec_fn(K) -> u64) -> bool {
    forall|i: int| 0 <= i < slots.len() ==> (#[trigger] slots[i]).hash == f(slots[i].key)
}

/// No two entries hold the same key.
pub open spec fn distinct_keys<K, V>(slots: Seq<Slot<K, V>>) -> bool {
    forall|i: int, j: int|
        0 <= i < j < slots.len() ==> (#[trigger] slots[i]).key != (#[trigger] slots[j]).key
}

/// The entries after the one at `i` has been used: it stands first, the rest
/// keep their order.
pub open spec fn promoted<K, V>(slots: Seq<Slot<K, V>>, i: int) -> Seq<Slot<K, V>> {
    seq![slots[i]] + slots.remove(i)
}

/// The entries after the one at `i` has been marked least recently used: it
/// stands last, the rest keep their order.
pub open spec fn demoted<K, V>(slots: Seq<Slot<K, V>>, i: int) -> Seq<Slot<K, V>> {
    slots.remove(i).push(slots[i])
}

/// The sum of the weights that the limiter gives the entries.
pub open spec fn total_weight<K, V, L: Limiter<K, V>>(limiter: L, slots: Seq<Slot<K, V>>) -> nat
    decreases slots.len(),
{
    if slots.len() == 0 {
        0
    } else {
        total_weight(limiter, slots.drop_last()) + limiter.weight(
            slots.last().key,
            slots.last().value,
        )
    }
}

/// An entry that matches is the entry that `find_slot` gives, where no two
/// entries match the same key and hash.
pub proof fn lemma_find_unique<K, V>(slots: Seq<Slot<K, V>>, hash: u64, key: K, i: int)
    requires
        distinct_slots(slots),
        0 <= i < slots.len(),
        slot_matches(slots[i], hash, key),
    ensures
        find_slot(slots, hash, key) == Some(i),
{
    let j = choose|j: int| 0 <= j < slots.len() && slot_matches(#[trigger] slots[j], hash, key);
    if j < i {
        assert(!(slots[j].hash == slots[i].hash && slots[j].key == slots[i].key));
    } else if i < j {
        assert(!(slots[i].hash == slots[j].hash && slots[i].key == slots[j].key));
    }
}

/// What `find_slot` gives is a place, and the entry there matches.
pub proof fn lemma_find_matches<K, V>(slots: Seq<Slot<K, V>>, hash: u64, key: K)
    ensures
        match find_slot(slots, hash, key) {
            Some(i) => 0 <= i < slots.len() && slot_matches(slots[i], hash, key),
            None => forall|i: int|
                0 <= i < slots.len() ==> !slot_matches(#[trigger] slots[i], hash, key),
        },
{
}

/// Where every entry is filed under the hash of its key, distinct entries
/// have distinct keys.
pub proof fn lemma_hashed_distinct<K, V>(slots: Seq<Slot<K, V>>, f: spec_fn(K) -> u64)
    requires
        distinct_slots(slots),
        hashed_by(slots, f),
    ensures
        distinct_keys(slots),
{
    assert forall|i: int, j: int| 0 <= i < j < slots.len() implies (#[trigger] slots[i]).key != (
    #[trigger] slots[j]).key by {
        if slots[i].key == slots[j].key {
            assert(slots[i].hash == f(slots[i].key));
            assert(slots[j].hash == f(slots[j].key));
        }
    }
}

/// Taking an entry out takes its weight out of the sum.
pub proof fn lemma_total_weight_remove<K, V, L: Limiter<K, V>>(
    limiter: L,
    slots: Seq<Slot<K, V>>,
    i: int,
)
    requires
        0 <= i < slots.len(),
    ensures
        total_weight(limiter, slots) == total_weight(limiter, slots.remove(i)) + limiter.weight(
            slots[i].key,
            slots[i].value,
        ),
    decreases slots.len(),
{
    if i == slots.len() - 1 {
        assert(slots.remove(i) =~= slots.drop_last());
    } else {
        lemma_total_weight_remove(limiter, slots.drop_last(), i);
        assert(slots.remove(i).drop_last() =~= slots.drop_last().remove(i));
        assert(slots.remove(i).last() == slots.last());
    }
}

/// Putting an entry in adds its weight to the sum.
pub proof fn lemma_total_weight_insert<K, V, L: Limiter<K, V>>(
    limiter: L,
    slots: Seq<Slot<K, V>>,
    i: int,
    slot: Slot<K, V>,
)
    requires
        0 <= i <= slots.len(),
    ensures
        total_weight(limiter, slots.insert(i, slot)) == total_weight(limiter, slots)
            + limiter.weight(slot.key, slot.value),
{
    let grown = slots.insert(i, slot);
    lemma_total_weight_remove(limiter, grown, i);
    assert(grown.remove(i) =~= slots);
}

/// Replacing an entry replaces its weight in the sum.
pub proof fn lemma_total_weight_update<K, V, L: Limiter<K, V>>(
    limiter: L,
    slots: Seq<Slot<K, V>>,
    i: int,
    slot: Slot<K, V>,
)
    requires
        0 <= i < slots.len(),
    ensures
        total_weight(limiter, slots.update(i, slot)) + limiter.weight(
            slots[i].key,
            slots[i].value,
        ) == total_weight(limiter, slots) + limiter.weight(slot.key, slot.value),
{
    lemma_total_weight_remove(limiter, slots, i);
    lemma_total_weight_remove(limiter, slots.update(i, slot), i);
    assert(slots.update(i, slot).remove(i) =~= slots.remove(i));
}

/// The order of the entries does not matter to the sum: using an entry or
/// marking it least recently used leaves the sum as it is.
pub proof fn lemma_total_weight_moved<K, V, L: Limiter<K, V>>(
    limiter: L,
    slots: Seq<Slot<K, V>>,
    i: int,
)
    requires
        0 <= i < slots.len(),
    ensures
        total_weight(limiter, promoted(slots, i)) == total_weight(limiter, slots),
        total_weight(limiter, demoted(slots, i)) == total_weight(limiter, slots),
{
    lemma_total_weight_remove(limiter, slots, i);
    lemma_total_weight_insert(limiter, slots.remove(i), 0, slots[i]);
    assert(promoted(slots, i) =~= slots.remove(i).insert(0, slots[i]));
    lemma_total_weight_insert(limiter, slots.remove(i), slots.len() - 1, slots[i]);
    assert(demoted(slots, i) =~= slots.remove(i).insert(slots.len() - 1, slots[i]));
}

/// Limiters that weigh every entry alike give the same sum.
pub proof fn lemma_total_weight_same<K, V, L: Limiter<K, V>>(a: L, b: L, slots: Seq<Slot<K, V>>)
    requires
        same_weights::<K, V, L>(a, b),
    ensures
        total_weight(a, slots) == total_weight(b, slots),
    decreases slots.len(),
{
    if slots.len() > 0 {
        lemma_total_weight_same(a, b, slots.drop_last());
    }
}

/// The sum is at least the weight of each entry.
pub proof fn lemma_total_weight_bound<K, V, L: Limiter<K, V>>(
    limiter: L,
    slots: Seq<Slot<K, V>>,
    i: int,
)
    requires
        0 <= i < slots.len(),
    ensures
        total_weight(limiter, slots) >= limiter.weight(slots[i].key, slots[i].value),
{
    lemma_total_weight_remove(limiter, slots, i);
}

/// The place of the entry that has to leave next: the least recently used
/// one, or the one before it where the least recently used one is the entry
/// at `keep`, which stays.
pub open spec fn next_victim(len: int, keep: int) -> Option<int> {
    if len >= 1 && keep != len - 1 {
        Some(len - 1)
    } else if len >= 2 {
        Some(len - 2)
    } else {
        None
    }
}

/// Where the entry at `keep` stands after the entry at `j` has left.
pub open spec fn kept_index(keep: int, j: int) -> int {
    if j < keep {
        keep - 1
    } else {
        keep
    }
}

/// What is left when entries leave for as long as the limiter finds the
/// cache too large and an entry other than the one at `keep` is there to
/// leave: the entries, the limiter, and the place of the entry that stayed.
/// With a `keep` that is no place, every entry may leave.
pub open spec fn drained<K, V, L: Limiter<K, V>>(
    slots: Seq<Slot<K, V>>,
    limiter: L,
    keep: int,
) -> (Seq<Slot<K, V>>, L, int)
    decreases slots.len(),
{
    if limiter.oversized(slots.len()) {
        match next_victim(slots.len() as int, keep) {
            Some(j) => drained(
                slots.remove(j),
                limiter.after_remove((slots.len() - 1) as nat, slots[j].key, slots[j].value),
                kept_index(keep, j),
            ),
            None => (slots, limiter, keep),
        }
    } else {
        (slots, limiter, keep)
    }
}

/// Where the entry that stays stands first, it still stands first when the
/// others have been drained.
pub proof fn lemma_drained_first_slot<K, V, L: Limiter<K, V>>(slots: Seq<Slot<K, V>>, limiter: L)
    requires
        slots.len() > 0,
    ensures
        drained(slots, limiter, 0).2 == 0,
        drained(slots, limiter, 0).0.len() > 0,
        drained(slots, limiter, 0).0[0] == slots[0],
    decreases slots.len(),
{
    if limiter.oversized(slots.len()) {
        match next_victim(slots.len() as int, 0) {
            Some(j) => {
                lemma_drained_first_slot(
                    slots.remove(j),
                    limiter.after_remove((slots.len() - 1) as nat, slots[j].key, slots[j].value),
                );
            },
            None => {},
        }
    }
}

/// What an entry leaves behind when it is done: where it came from an
/// insertion, what `drained` says; else everything as it is.
pub open spec fn settle<K, V, L: Limiter<K, V>>(
    evicting: bool,
    slots: Seq<Slot<K, V>>,
    limiter: L,
    keep: int,
) -> (Seq<Slot<K, V>>, L, int) {
    if evicting {
        drained(slots, limiter, keep)
    } else {
        (slots, limiter, keep)
    }
}

/// The entry at `keep` stays where entries are drained, and its place is a
/// place of what is left.
pub proof fn lemma_drained_keeps<K, V, L: Limiter<K, V>>(
    slots: Seq<Slot<K, V>>,
    limiter: L,
    keep: int,
)
    requires
        0 <= keep < slots.len(),
    ensures
        0 <= drained(slots, limiter, keep).2 < drained(slots, limiter, keep).0.len(),
        drained(slots, limiter, keep).0[drained(slots, limiter, keep).2] == slots[keep],
        drained(slots, limiter, keep).0.len() <= slots.len(),
    decreases slots.len(),
{
    if limiter.oversized(slots.len()) {
        match next_victim(slots.len() as int, keep) {
            Some(j) => {
                lemma_drained_keeps(
                    slots.remove(j),
                    limiter.after_remove((slots.len() - 1) as nat, slots[j].key, slots[j].value),
                    kept_index(keep, j),
                );
            },
            None => {},
        }
    }
}

/// What an insertion that the limiter does not refuse makes of the cache:
/// the entries, the limiter, and the entry that had to make room. Where the
/// limiter asks for it and an entry is there, the least recently used entry
/// leaves; the new entry stands first.
pub open spec fn admitted<K, V, L: Limiter<K, V>>(
    slots: Seq<Slot<K, V>>,
    limiter: L,
    hash: u64,
    key: K,
    value: V,
) -> (Seq<Slot<K, V>>, L, Option<(K, V)>) {
    let after = limiter.after_add(slots.len(), key, value);
    if limiter.add_behavior(slots.len(), key, value) is Evict && slots.len() > 0 {
        (
            seq![new_slot(hash, key, value)] + slots.drop_last(),
            after.after_remove(
                (slots.len() - 1) as nat,
                slots.last().key,
                slots.last().value,
            ),
            Some((slots.last().key, slots.last().value)),
        )
    } else {
        (seq![new_slot(hash, key, value)] + slots, after, None)
    }
}

/// What an insertion that the limiter lets in leaves once what has to leave
/// has left: the entries, with the new entry first, and the limiter.
pub open spec fn inserted<K, V, L: Limiter<K, V>>(
    slots: Seq<Slot<K, V>>,
    limiter: L,
    hash: u64,
    key: K,
    value: V,
) -> (Seq<Slot<K, V>>, L) {
    let a = admitted(slots, limiter, hash, key, value);
    (drained(a.0, a.1, 0).0, drained(a.0, a.1, 0).1)
}

/// Using the entry that stands first changes nothing.
pub proof fn lemma_promoted_first<K, V>(slots: Seq<Slot<K, V>>)
    requires
        slots.len() > 0,
    ensures
        promoted(slots, 0) == slots,
{
    assert(promoted(slots, 0) =~= slots);
}

/// Whether the limiter lets every entry that holds the key take the value.
pub open spec fn updatable<K, V, L: Limiter<K, V>>(
    slots: Seq<Slot<K, V>>,
    limiter: L,
    key: K,
    value: V,
) -> bool {
    forall|i: int|
        0 <= i < slots.len() && (#[trigger] slots[i]).key == key ==> !(limiter.update_behavior(
            slots.len(),
            key,
            slots[i].value,
            None,
            Some(value),
        ) is Reject)
}

/// Whether the limiter lets every entry that holds the key take the key
/// anew, and the value with it.
pub open spec fn replaceable<K, V, L: Limiter<K, V>>(
    slots: Seq<Slot<K, V>>,
    limiter: L,
    key: K,
    value: V,
) -> bool {
    forall|i: int|
        0 <= i < slots.len() && (#[trigger] slots[i]).key == key ==> !(limiter.update_behavior(
            slots.len(),
            key,
            slots[i].value,
            Some(key),
            Some(value),
        ) is Reject)
}

/// What `put` makes of the cache and what it returns. An entry that holds
/// the key gets the value, becomes the most recently used one, and its old
/// value is returned. Else the limiter is asked: if it refuses, nothing
/// changes and the value is returned; if not, the entry comes in as the most
/// recently used one, what has to leave is evicted, and nothing is returned.
pub open spec fn put_result<K, V, L: Limiter<K, V>>(
    slots: Seq<Slot<K, V>>,
    limiter: L,
    hash: u64,
    key: K,
    value: V,
) -> (Seq<Slot<K, V>>, L, Option<V>) {
    match find_slot(slots, hash, key) {
        Some(i) => (
            promoted(slots, i).update(0, with_value(slots[i], value)),
            limiter.after_update(slots.len(), slots[i].key, slots[i].value, None, Some(value)),
            Some(slots[i].value),
        ),
        None => if limiter.add_behavior(slots.len(), key, value) is Reject {
            (slots, limiter.after_add(slots.len(), key, value), Some(value))
        } else {
            (
                inserted(slots, limiter, hash, key, value).0,
                inserted(slots, limiter, hash, key, value).1,
                None,
            )
        },
    }
}

/// The first entry that leaves when entries are drained, if one leaves.
pub open spec fn first_drained<K, V, L: Limiter<K, V>>(
    slots: Seq<Slot<K, V>>,
    limiter: L,
    keep: int,
) -> Option<(K, V)> {
    if limiter.oversized(slots.len()) {
        match next_victim(slots.len() as int, keep) {
            Some(j) => Some((slots[j].key, slots[j].value)),
            None => None,
        }
    } else {
        None
    }
}

/// What `push` makes of the cache and what it returns. An entry that holds
/// the key gets the offered key and value, becomes the most recently used
/// one, and its old key and value are returned. Else the limiter is asked:
/// if it refuses, nothing changes and the offered key and value are
/// returned; if not, the entry comes in as the most recently used one, what
/// has to leave is evicted, and the first entry that left is returned.
pub open spec fn push_result<K, V, L: Limiter<K, V>>(
    slots: Seq<Slot<K, V>>,
    limiter: L,
    hash: u64,
    key: K,
    value: V,
) -> (Seq<Slot<K, V>>, L, Option<(K, V)>) {
    match find_slot(slots, hash, key) {
        Some(i) => (
            promoted(slots, i).update(0, with_value(slots[i], value)),
            limiter.after_update(
                slots.len(),
                slots[i].key,
                slots[i].value,
                Some(key),
                Some(value),
            ),
            Some((slots[i].key, slots[i].value)),
        ),
        None => if limiter.add_behavior(slots.len(), key, value) is Reject {
            (slots, limiter.after_add(slots.len(), key, value), Some((key, value)))
        } else {
            let a = admitted(slots, limiter, hash, key, value);
            (
                inserted(slots, limiter, hash, key, value).0,
                inserted(slots, limiter, hash, key, value).1,
                match a.2 {
                    Some(e) => Some(e),
                    None => first_drained(a.0, a.1, 0),
                },
            )
        },
    }
}

/// What `pop_entry` makes of the cache and what it returns: the entry that
/// holds the key leaves and is returned.
pub open spec fn pop_result<K, V, L: Limiter<K, V>>(
    slots: Seq<Slot<K, V>>,
    limiter: L,
    hash: u64,
    key: K,
) -> (Seq<Slot<K, V>>, L, Option<(K, V)>) {
    match find_slot(slots, hash, key) {
        Some(i) => (
            slots.remove(i),
            limiter.after_remove((slots.len() - 1) as nat, slots[i].key, slots[i].value),
            Some((slots[i].key, slots[i].value)),
        ),
        None => (slots, limiter, None),
    }
}

/// What `pop_lru` makes of the cache and what it returns: the least
/// recently used entry leaves and is returned.
pub open spec fn pop_lru_result<K, V, L: Limiter<K, V>>(slots: Seq<Slot<K, V>>, limiter: L) -> (
    Seq<Slot<K, V>>,
    L,
    Option<(K, V)>,
) {
    if slots.len() > 0 {
        (
            slots.drop_last(),
            limiter.after_remove((slots.len() - 1) as nat, slots.last().key, slots.last().value),
            Some((slots.last().key, slots.last().value)),
        )
    } else {
        (slots, limiter, None)
    }
}

/// The entries after the key has been used: its entry stands first.
pub open spec fn used<K, V>(slots: Seq<Slot<K, V>>, hash: u64, key: K) -> Seq<Slot<K, V>> {
    match find_slot(slots, hash, key) {
        Some(i) => promoted(slots, i),
        None => slots,
    }
}

/// The entries after the key has been marked least recently used: its entry
/// stands last.
pub open spec fn disused<K, V>(slots: Seq<Slot<K, V>>, hash: u64, key: K) -> Seq<Slot<K, V>> {
    match find_slot(slots, hash, key) {
        Some(i) => demoted(slots, i),
        None => slots,
    }
}

/// The value that the cache holds for the key.
pub open spec fn value_of<K, V>(slots: Seq<Slot<K, V>>, hash: u64, key: K) -> Option<V> {
    match find_slot(slots, hash, key) {
        Some(i) => Some(slots[i].value),
        None => None,
    }
}

/// The limiter after every entry has left, least recently used first.
pub open spec fn emptied<K, V, L: Limiter<K, V>>(slots: Seq<Slot<K, V>>, limiter: L) -> L
    decreases slots.len(),
{
    if slots.len() > 0 {
        emptied(
            slots.drop_last(),
            limiter.after_remove((slots.len() - 1) as nat, slots.last().key, slots.last().value),
        )
    } else {
        limiter
    }
}

} // verus!
