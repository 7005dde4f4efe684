//! The index: a `hashbrown::HashTable` of node handles.
//!
//! The table stores handles only. The key that a handle stands for lives in
//! the node storage, and every operation that has to compare or to rehash is
//! handed the storage to look the handle up in. What the table holds is
//! described by `table_slots`: for every handle in the table, the hash it was
//! filed under.
//!
//! Nothing in this file is proved. The contracts say what hashbrown documents
//! for the calls that the bodies make.

use crate::key::obeys_key_eq;
use crate::list::{node_matches, same_handle, slot_matches, Node};
use hashbrown::HashTable;
use std::hash::{BuildHasher, Hash};
use vstd::prelude::*;

verus! {

/// The hash builder of a cache that is given no other:
/// `hashbrown::DefaultHashBuilder`. Nothing is known of it but that it builds
/// hashers.
#[verifier::external_type_specification]
#[verifier::external_body]
pub struct ExDefaultHashBuilder(hashbrown::DefaultHashBuilder);

/// The hash builder of a cache that is given no other.
pub type DefaultHasher = hashbrown::DefaultHashBuilder;

/// A `hashbrown::HashTable<usize>`: the handles of the resident nodes.
#[verifier::external_body]
pub struct HandleTable {
    table: HashTable<usize>,
}

/// What the table holds: each handle in it, with the hash it was filed under.
pub uninterp spec fn table_slots(t: HandleTable) -> Map<usize, u64>;

/// The largest number of handles that a table is asked to hold. When the
/// table grows, it makes room for less than five times the handles that it
/// holds, and for each it needs a handle's size and a byte. With this bound
/// that is well within what can be allocated, so the table's size
/// computations never fail.
pub const MAX_TABLE_LEN: usize = usize::MAX / 128;

/// Every handle in the table is a node of the storage, and the node records
/// the hash that the handle was filed under.
pub(crate) open spec fn filed_by_node_hash<K, V>(t: HandleTable, nodes: Seq<Node<K, V>>) -> bool {
    forall|h: usize| #[trigger]
        table_slots(t).contains_key(h) ==> h < nodes.len() && nodes[h as int].hash == table_slots(
            t,
        )[h]
}

/// `DefaultHashBuilder::default`: a hash builder, of which nothing is stated.
#[verifier::external_body]
pub(crate) fn default_hasher() -> DefaultHasher {
    hashbrown::DefaultHashBuilder::default()
}

/// `BuildHasher::hash_one`: the hash of a key. Nothing is stated of the
/// value: it depends on how the builder was seeded.
#[verifier::external_body]
pub(crate) fn hash_one<K: Hash, S: BuildHasher>(hasher: &S, key: &K) -> u64 {
    hasher.hash_one(key)
}

/// `HashTable::new`: a table that holds nothing.
#[verifier::external_body]
pub(crate) fn table_new() -> (r: HandleTable)
    ensures
        table_slots(r).dom() == Set::<usize>::empty(),
{
    HandleTable { table: HashTable::new() }
}

/// `HashTable::with_capacity`: a table that holds nothing and has room for
/// `capacity` handles. The capacity is kept where the table's size
/// computations cannot leave the numeric range.
#[verifier::external_body]
pub(crate) fn table_with_capacity(capacity: usize) -> (r: HandleTable)
    requires
        capacity <= MAX_TABLE_LEN,
    ensures
        table_slots(r).dom() == Set::<usize>::empty(),
{
    HandleTable { table: HashTable::with_capacity(capacity) }
}

/// `HashTable::len`: the number of handles in the table.
#[verifier::external_body]
pub(crate) fn table_len(t: &HandleTable) -> (r: usize)
    requires
        table_slots(*t).dom().finite(),
    ensures
        r == table_slots(*t).dom().len(),
{
    t.table.len()
}

/// `HashTable::find`, with the hash and an equality that asks `slot_matches`.
/// The table calls the equality on every handle filed under `hash`, and
/// perhaps on others, and returns the first handle that it accepts. So a
/// handle that comes back is in the table and matches; and if none comes
/// back, no handle filed under `hash` matches.
#[verifier::external_body]
pub(crate) fn table_find<K: Eq, V>(
    t: &HandleTable,
    nodes: &Vec<Node<K, V>>,
    hash: u64,
    key: &K,
) -> (r: Option<usize>)
    requires
        obeys_key_eq::<K>(),
        filed_by_node_hash(*t, nodes@),
    ensures
        match r {
            Some(h) => table_slots(*t).contains_key(h) && node_matches(
                nodes@[h as int],
                hash,
                *key,
            ),
            None => forall|h: usize|
                table_slots(*t).contains_key(h) && #[trigger] table_slots(*t)[h] == hash
                    ==> !node_matches(nodes@[h as int], hash, *key),
        },
{
    t.table.find(hash, |h| slot_matches(nodes, *h, hash, key)).copied()
}

/// `HashTable::insert_unique`: files the handle under the hash, without
/// looking for it first. Should the table grow, it asks each handle's node
/// for the hash that the handle was filed under.
#[verifier::external_body]
pub(crate) fn table_insert<K, V>(
    t: &mut HandleTable,
    nodes: &Vec<Node<K, V>>,
    hash: u64,
    handle: usize,
)
    requires
        !table_slots(*old(t)).contains_key(handle),
        table_slots(*old(t)).dom().finite(),
        table_slots(*old(t)).dom().len() < MAX_TABLE_LEN,
        filed_by_node_hash(*old(t), nodes@),
    ensures
        table_slots(*final(t)) == table_slots(*old(t)).insert(handle, hash),
{
    t.table.insert_unique(hash, handle, |h| nodes[*h].hash);
}

/// `HashTable::find_entry` for the handle itself, then `OccupiedEntry::remove`:
/// the handle leaves the table, and nothing else does.
#[verifier::external_body]
pub(crate) fn table_remove(t: &mut HandleTable, hash: u64, handle: usize)
    requires
        table_slots(*old(t)).contains_key(handle),
        table_slots(*old(t))[handle] == hash,
    ensures
        table_slots(*final(t)) == table_slots(*old(t)).remove(handle),
{
    if let Ok(entry) = t.table.find_entry(hash, |h| same_handle(*h, handle)) {
        entry.remove();
    }
}

/// `HashTable::shrink_to_fit`: the table gives back the room it does not
/// need and holds what it held. To move its handles, it asks each handle's
/// node for the hash that the handle was filed under.
#[verifier::external_body]
pub(crate) fn table_shrink_to_fit<K, V>(t: &mut HandleTable, nodes: &Vec<Node<K, V>>)
    requires
        filed_by_node_hash(*old(t), nodes@),
    ensures
        table_slots(*final(t)) == table_slots(*old(t)),
{
    t.table.shrink_to_fit(|h| nodes[*h].hash);
}

} // verus!
