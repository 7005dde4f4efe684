//! What holds of the cache whatever it is asked to do, stated over the
//! functions that the contracts of its operations speak of.

use crate::cache::LruCache;
use crate::limiter::{CostFn, CostLimited, Limiter, SizeLimited};
use crate::model::{
    admitted, distinct_keys, distinct_slots, drained, find_slot, has_slot, hashed_by, kept_index,
    lemma_drained_first_slot, lemma_find_matches, lemma_find_unique, lemma_hashed_distinct,
    new_slot, next_victim, pop_result, promoted, push_result, put_result, slot_matches,
    total_weight, used, with_value, Slot,
};
use std::hash::{BuildHasher, Hash};
use vstd::prelude::*;

verus! {

/// `at` says where in `whole` each entry of `part` stands, and these places
/// follow each other as the entries of `part` do.
pub open spec fn embeds<K, V>(at: Seq<int>, part: Seq<Slot<K, V>>, whole: Seq<Slot<K, V>>) -> bool {
    &&& at.len() == part.len()
    &&& forall|i: int|
        0 <= i < part.len() ==> 0 <= #[trigger] at[i] < whole.len() && part[i] == whole[at[i]]
    &&& forall|i: int, j: int| 0 <= i < j < part.len() ==> #[trigger] at[i] < #[trigger] at[j]
}

/// Every entry of `part` is an entry of `whole`, and the entries of `part`
/// stand in the order in which they stand in `whole`.
pub open spec fn sub_slots<K, V>(part: Seq<Slot<K, V>>, whole: Seq<Slot<K, V>>) -> bool {
    exists|at: Seq<int>| #[trigger] embeds(at, part, whole)
}

/// Among the entries of distinct entries, taken in their order, no two hold
/// the same key under the same hash; and they are filed as the whole is.
pub proof fn lemma_sub_slots<K, V>(part: Seq<Slot<K, V>>, whole: Seq<Slot<K, V>>)
    requires
        sub_slots(part, whole),
    ensures
        distinct_slots(whole) ==> distinct_slots(part),
        forall|f: spec_fn(K) -> u64| hashed_by(whole, f) ==> hashed_by(part, f),
{
    let at = choose|at: Seq<int>| #[trigger] embeds(at, part, whole);
    if distinct_slots(whole) {
        assert forall|i: int, j: int| 0 <= i < j < part.len() implies !((#[trigger] part[i]).hash
            == (#[trigger] part[j]).hash && part[i].key == part[j].key) by {
            assert(at[i] < at[j]);
            assert(part[i] == whole[at[i]]);
            assert(part[j] == whole[at[j]]);
        }
    }
    assert forall|f: spec_fn(K) -> u64| hashed_by(whole, f) implies hashed_by(part, f) by {
        assert forall|i: int| 0 <= i < part.len() implies (#[trigger] part[i]).hash == f(
            part[i].key,
        ) by {
            assert(part[i] == whole[at[i]]);
        }
    }
}

/// What is left when one entry leaves is part of what was there.
pub proof fn lemma_remove_sub<K, V>(slots: Seq<Slot<K, V>>, j: int)
    requires
        0 <= j < slots.len(),
    ensures
        sub_slots(slots.remove(j), slots),
{
    let at = Seq::new(
        (slots.len() - 1) as nat,
        |i: int|
            if i < j {
                i
            } else {
                i + 1
            },
    );
    assert(embeds(at, slots.remove(j), slots));
}

/// Every sequence of entries is part of itself.
pub proof fn lemma_sub_refl<K, V>(slots: Seq<Slot<K, V>>)
    ensures
        sub_slots(slots, slots),
{
    let at = Seq::new(slots.len(), |i: int| i);
    assert(embeds(at, slots, slots));
}

/// A part of a part is a part.
pub proof fn lemma_sub_trans<K, V>(a: Seq<Slot<K, V>>, b: Seq<Slot<K, V>>, c: Seq<Slot<K, V>>)
    requires
        sub_slots(a, b),
        sub_slots(b, c),
    ensures
        sub_slots(a, c),
{
    let ab = choose|at: Seq<int>| #[trigger] embeds(at, a, b);
    let bc = choose|at: Seq<int>| #[trigger] embeds(at, b, c);
    let ac = Seq::new(a.len(), |i: int| bc[ab[i]]);
    assert forall|i: int| 0 <= i < a.len() implies 0 <= #[trigger] ac[i] < c.len() && a[i]
        == c[ac[i]] by {
        assert(a[i] == b[ab[i]]);
        assert(b[ab[i]] == c[bc[ab[i]]]);
    }
    assert forall|i: int, j: int| 0 <= i < j < a.len() implies #[trigger] ac[i]
        < #[trigger] ac[j] by {
        assert(ab[i] < ab[j]);
        assert(bc[ab[i]] < bc[ab[j]]);
    }
    assert(embeds(ac, a, c));
}

/// What is left when entries are drained is part of what was there.
pub proof fn lemma_drained_sub<K, V, L: Limiter<K, V>>(
    slots: Seq<Slot<K, V>>,
    limiter: L,
    keep: int,
)
    ensures
        sub_slots(drained(slots, limiter, keep).0, slots),
    decreases slots.len(),
{
    if limiter.oversized(slots.len()) && next_victim(slots.len() as int, keep) is Some {
        let j = next_victim(slots.len() as int, keep)->0;
        let next = limiter.after_remove((slots.len() - 1) as nat, slots[j].key, slots[j].value);
        lemma_drained_sub(slots.remove(j), next, kept_index(keep, j));
        lemma_remove_sub(slots, j);
        lemma_sub_trans(
            drained(slots.remove(j), next, kept_index(keep, j)).0,
            slots.remove(j),
            slots,
        );
    } else {
        lemma_sub_refl(slots);
    }
}

/// What an insertion that the limiter lets in makes of distinct entries
/// that do not hold the key under the hash: distinct entries, filed as they
/// were if the new key is.
pub proof fn lemma_admitted<K, V, L: Limiter<K, V>>(
    slots: Seq<Slot<K, V>>,
    limiter: L,
    hash: u64,
    key: K,
    value: V,
)
    requires
        distinct_slots(slots),
        !has_slot(slots, hash, key),
    ensures
        distinct_slots(admitted(slots, limiter, hash, key, value).0),
        admitted(slots, limiter, hash, key, value).0.len() > 0,
        admitted(slots, limiter, hash, key, value).0[0] == new_slot(hash, key, value),
        forall|f: spec_fn(K) -> u64|
            hashed_by(slots, f) && hash == f(key) ==> #[trigger] hashed_by(
                admitted(slots, limiter, hash, key, value).0,
                f,
            ),
{
    let a = admitted(slots, limiter, hash, key, value).0;
    let rest = if limiter.add_behavior(slots.len(), key, value) is Evict && slots.len() > 0 {
        slots.drop_last()
    } else {
        slots
    };
    assert(a =~= seq![new_slot(hash, key, value)] + rest);
    assert forall|i: int, j: int| 0 <= i < j < a.len() implies !((#[trigger] a[i]).hash == (
    #[trigger] a[j]).hash && a[i].key == a[j].key) by {
        assert(a[j] == slots[j - 1]);
        if i == 0 {
            assert(!slot_matches(slots[j - 1], hash, key));
        } else {
            assert(a[i] == slots[i - 1]);
        }
    }
    assert forall|f: spec_fn(K) -> u64|
        hashed_by(slots, f) && hash == f(key) implies #[trigger] hashed_by(a, f) by {
        assert forall|i: int| 0 <= i < a.len() implies (#[trigger] a[i]).hash == f(a[i].key) by {
            if i > 0 {
                assert(a[i] == slots[i - 1]);
            }
        }
    }
}

/// One value for each key: where every entry is filed under the hash that
/// one function gives its key, as it is where all hashes come from one hash
/// builder that hashes equal keys alike, no two entries of a cache hold the
/// same key, and the cache holds as many entries as it holds keys.
pub proof fn law_one_value_per_key<K: Hash + Eq, V, L: Limiter<K, V>, S: BuildHasher>(
    cache: &LruCache<K, V, L, S>,
    f: spec_fn(K) -> u64,
)
    requires
        cache.structured(),
        hashed_by(cache@, f),
    ensures
        distinct_keys(cache@),
        cache@.map_values(|s: Slot<K, V>| s.key).to_set().len() == cache@.len(),
{
    cache.lemma_structured();
    lemma_hashed_distinct(cache@, f);
    let keys = cache@.map_values(|s: Slot<K, V>| s.key);
    assert(keys.no_duplicates()) by {
        assert forall|i: int, j: int|
            0 <= i < keys.len() && 0 <= j < keys.len() && i != j implies keys[i] != keys[j] by {
            if i < j {
                assert(cache@[i].key != cache@[j].key);
            } else {
                assert(cache@[j].key != cache@[i].key);
            }
        }
    }
    keys.unique_seq_to_set();
}

/// `put` and `push` keep the entries filed under the hashes of their keys,
/// where the new key is offered under the hash of the key.
pub proof fn law_insertion_keeps_hashing<K, V, L: Limiter<K, V>>(
    slots: Seq<Slot<K, V>>,
    limiter: L,
    f: spec_fn(K) -> u64,
    key: K,
    value: V,
)
    requires
        distinct_slots(slots),
        hashed_by(slots, f),
    ensures
        hashed_by(put_result(slots, limiter, f(key), key, value).0, f),
        hashed_by(push_result(slots, limiter, f(key), key, value).0, f),
        distinct_slots(put_result(slots, limiter, f(key), key, value).0),
        distinct_slots(push_result(slots, limiter, f(key), key, value).0),
{
    let hash = f(key);
    lemma_find_matches(slots, hash, key);
    match find_slot(slots, hash, key) {
        Some(i) => {
            let p = promoted(slots, i).update(0, with_value(slots[i], value));
            assert forall|a: int| 0 <= a < p.len() implies (#[trigger] p[a]).hash == f(
                p[a].key,
            ) by {
                let a0 = if a == 0 {
                    i
                } else if a - 1 < i {
                    a - 1
                } else {
                    a
                };
                assert(p[a].hash == slots[a0].hash && p[a].key == slots[a0].key);
            }
            assert forall|a: int, b: int| 0 <= a < b < p.len() implies !((#[trigger] p[a]).hash
                == (#[trigger] p[b]).hash && p[a].key == p[b].key) by {
                let a0 = if a == 0 {
                    i
                } else if a - 1 < i {
                    a - 1
                } else {
                    a
                };
                let b0 = if b - 1 < i {
                    b - 1
                } else {
                    b
                };
                assert(p[a].hash == slots[a0].hash && p[a].key == slots[a0].key);
                assert(p[b].hash == slots[b0].hash && p[b].key == slots[b0].key);
                if a0 < b0 {
                    assert(!(slots[a0].hash == slots[b0].hash && slots[a0].key == slots[b0].key));
                } else {
                    assert(!(slots[b0].hash == slots[a0].hash && slots[b0].key == slots[a0].key));
                }
            }
        },
        None => {
            if !(limiter.add_behavior(slots.len(), key, value) is Reject) {
                let a = admitted(slots, limiter, hash, key, value);
                lemma_admitted(slots, limiter, hash, key, value);
                assert(hashed_by(a.0, f));
                lemma_drained_sub(a.0, a.1, 0);
                lemma_sub_slots(drained(a.0, a.1, 0).0, a.0);
            }
        },
    }
}

/// Recency: a key that is used stands first, and the other entries keep the
/// order that they had.
pub proof fn law_used_is_first<K, V>(slots: Seq<Slot<K, V>>, hash: u64, key: K)
    requires
        has_slot(slots, hash, key),
    ensures
        used(slots, hash, key).len() == slots.len(),
        slot_matches(used(slots, hash, key)[0], hash, key),
        used(slots, hash, key).drop_first() == slots.remove(find_slot(slots, hash, key)->0),
{
    lemma_find_matches(slots, hash, key);
    let i = find_slot(slots, hash, key)->0;
    assert(used(slots, hash, key).drop_first() =~= slots.remove(i));
}

/// Eviction: a cache that lets at most `n > 0` entries stay and holds `n`
/// gives up its least recently used entry, and no other, for a key that it
/// does not hold. `put` says nothing of the entry that left; `push` returns
/// it.
pub proof fn law_full_cache_evicts_lru<K, V>(
    slots: Seq<Slot<K, V>>,
    limiter: SizeLimited,
    hash: u64,
    key: K,
    value: V,
)
    requires
        limiter.limit() > 0,
        slots.len() == limiter.limit(),
        !has_slot(slots, hash, key),
    ensures
        put_result(slots, limiter, hash, key, value) == (
            seq![new_slot(hash, key, value)] + slots.drop_last(),
            limiter,
            None::<V>,
        ),
        push_result(slots, limiter, hash, key, value) == (
            seq![new_slot(hash, key, value)] + slots.drop_last(),
            limiter,
            Some((slots.last().key, slots.last().value)),
        ),
{
    let a = admitted(slots, limiter, hash, key, value);
    assert(a.0.len() == slots.len());
    assert(drained(a.0, a.1, 0) == (a.0, a.1, 0int));
}

/// A cache that lets at most `n` entries stay and holds fewer takes a key
/// that it does not hold without giving up an entry.
pub proof fn law_roomy_cache_keeps_all<K, V>(
    slots: Seq<Slot<K, V>>,
    limiter: SizeLimited,
    hash: u64,
    key: K,
    value: V,
)
    requires
        slots.len() < limiter.limit(),
        !has_slot(slots, hash, key),
    ensures
        put_result(slots, limiter, hash, key, value) == (
            seq![new_slot(hash, key, value)] + slots,
            limiter,
            None::<V>,
        ),
        push_result(slots, limiter, hash, key, value) == (
            seq![new_slot(hash, key, value)] + slots,
            limiter,
            None::<(K, V)>,
        ),
{
    let a = admitted(slots, limiter, hash, key, value);
    assert(a.0.len() == slots.len() + 1);
    assert(drained(a.0, a.1, 0) == (a.0, a.1, 0int));
}

/// A cache that lets no entry stay refuses every key that it does not hold:
/// the limiter refuses it whatever the cache holds, `put` returns the
/// offered value, `push` the offered key and value, and the entries stay as
/// they are. So a cache that was made with room for no entry stays empty.
pub proof fn law_zero_capacity_rejects<K, V>(
    slots: Seq<Slot<K, V>>,
    limiter: SizeLimited,
    hash: u64,
    key: K,
    value: V,
)
    requires
        limiter.limit() == 0,
        !has_slot(slots, hash, key),
    ensures
        Limiter::<K, V>::add_behavior(&limiter, slots.len(), key, value) is Reject,
        put_result(slots, limiter, hash, key, value) == (slots, limiter, Some(value)),
        push_result(slots, limiter, hash, key, value) == (slots, limiter, Some((key, value))),
{
}

/// The running total of a cost-limited cache is the sum of what its entries
/// cost.
pub proof fn law_cost_total<K: Hash + Eq, V, F: CostFn<K, V>, S: BuildHasher>(
    cache: &LruCache<K, V, CostLimited<F>, S>,
)
    requires
        cache.wf(),
    ensures
        cache.spec_limiter().current() == total_weight(cache.spec_limiter(), cache@),
{
}

/// An entry that alone costs more than the limit is refused, whatever the
/// cache holds.
pub proof fn law_cost_beyond_limit_rejected<K, V, F: CostFn<K, V>>(
    slots: Seq<Slot<K, V>>,
    limiter: CostLimited<F>,
    hash: u64,
    key: K,
    value: V,
)
    requires
        limiter.spec_cost_func().spec_key_cost(key) + limiter.spec_cost_func().spec_value_cost(
            value,
        ) > limiter.limit(),
    ensures
        Limiter::<K, V>::add_behavior(&limiter, slots.len(), key, value) is Reject,
        !has_slot(slots, hash, key) ==> put_result(slots, limiter, hash, key, value) == (
            slots,
            limiter,
            Some(value),
        ),
        !has_slot(slots, hash, key) ==> push_result(slots, limiter, hash, key, value) == (
            slots,
            limiter,
            Some((key, value)),
        ),
{
}

/// Round trip: after a `put` that was not refused, `pop_entry` under the
/// same hash returns the key and the value that were put, and the key is
/// gone.
pub proof fn law_put_then_pop<K, V, L: Limiter<K, V>>(
    slots: Seq<Slot<K, V>>,
    limiter: L,
    hash: u64,
    key: K,
    value: V,
)
    requires
        distinct_slots(slots),
        has_slot(slots, hash, key) || !(limiter.add_behavior(slots.len(), key, value) is Reject),
    ensures
        pop_result(
            put_result(slots, limiter, hash, key, value).0,
            put_result(slots, limiter, hash, key, value).1,
            hash,
            key,
        ).2 == Some((key, value)),
        !has_slot(
            pop_result(
                put_result(slots, limiter, hash, key, value).0,
                put_result(slots, limiter, hash, key, value).1,
                hash,
                key,
            ).0,
            hash,
            key,
        ),
{
    let put = put_result(slots, limiter, hash, key, value);
    lemma_find_matches(slots, hash, key);
    assert(put.0.len() > 0 && put.0[0] == new_slot(hash, key, value) && distinct_slots(put.0))
        by {
        match find_slot(slots, hash, key) {
            Some(i) => {
                lemma_put_distinct(slots, limiter, hash, key, value);
            },
            None => {
                let a = admitted(slots, limiter, hash, key, value);
                lemma_admitted(slots, limiter, hash, key, value);
                lemma_drained_first_slot(a.0, a.1);
                lemma_drained_sub(a.0, a.1, 0);
                lemma_sub_slots(drained(a.0, a.1, 0).0, a.0);
            },
        }
    }
    lemma_find_unique(put.0, hash, key, 0);
    let rest = put.0.remove(0);
    assert forall|i: int| 0 <= i < rest.len() implies !slot_matches(
        #[trigger] rest[i],
        hash,
        key,
    ) by {
        assert(rest[i] == put.0[i + 1]);
        assert(!(put.0[0].hash == put.0[i + 1].hash && put.0[0].key == put.0[i + 1].key));
    }
}

/// What `put` makes of distinct entries that hold the key: distinct entries,
/// the first of which holds the key with the new value.
pub proof fn lemma_put_distinct<K, V, L: Limiter<K, V>>(
    slots: Seq<Slot<K, V>>,
    limiter: L,
    hash: u64,
    key: K,
    value: V,
)
    requires
        distinct_slots(slots),
        has_slot(slots, hash, key),
    ensures
        distinct_slots(put_result(slots, limiter, hash, key, value).0),
        put_result(slots, limiter, hash, key, value).0.len() > 0,
        put_result(slots, limiter, hash, key, value).0[0] == new_slot(hash, key, value),
{
    lemma_find_matches(slots, hash, key);
    let i = find_slot(slots, hash, key)->0;
    let p = promoted(slots, i).update(0, with_value(slots[i], value));
    assert forall|a: int, b: int| 0 <= a < b < p.len() implies !((#[trigger] p[a]).hash == (
    #[trigger] p[b]).hash && p[a].key == p[b].key) by {
        let a0 = if a == 0 {
            i
        } else if a - 1 < i {
            a - 1
        } else {
            a
        };
        let b0 = if b - 1 < i {
            b - 1
        } else {
            b
        };
        assert(p[a].hash == slots[a0].hash && p[a].key == slots[a0].key);
        assert(p[b].hash == slots[b0].hash && p[b].key == slots[b0].key);
        if a0 < b0 {
            assert(!(slots[a0].hash == slots[b0].hash && slots[a0].key == slots[b0].key));
        } else {
            assert(!(slots[b0].hash == slots[a0].hash && slots[b0].key == slots[a0].key));
        }
    }
}

/// Draining goes on until the limiter finds the cache small enough or no
/// entry is left that may leave: what is left is not too large, or holds
/// nothing but the entry that stays.
pub proof fn law_drained_until_fits<K, V, L: Limiter<K, V>>(
    slots: Seq<Slot<K, V>>,
    limiter: L,
    keep: int,
)
    ensures
        !drained(slots, limiter, keep).1.oversized(drained(slots, limiter, keep).0.len())
            || next_victim(
            drained(slots, limiter, keep).0.len() as int,
            drained(slots, limiter, keep).2,
        ) is None,
    decreases slots.len(),
{
    if limiter.oversized(slots.len()) && next_victim(slots.len() as int, keep) is Some {
        let j = next_victim(slots.len() as int, keep)->0;
        law_drained_until_fits(
            slots.remove(j),
            limiter.after_remove((slots.len() - 1) as nat, slots[j].key, slots[j].value),
            kept_index(keep, j),
        );
    }
}

} // verus!
