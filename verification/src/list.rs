//! Node storage and the recency list.
//!
//! Nodes live in one vector and name each other by index. Index 0 is the
//! sigil, a node without key and value that closes the list into a ring:
//! the sigil's `next` is the most recently used node, its `prev` the least
//! recently used one. The list is described by the sequence of the handles
//! it runs through, most recently used first.

use crate::key::obeys_key_eq;
use vstd::prelude::*;

verus! {

/// A key and a value with their place in the recency list. The sigil and the
/// nodes that wait for reuse hold neither key nor value.
pub(crate) struct Node<K, V> {
    pub(crate) key: Option<K>,
    pub(crate) val: Option<V>,
    pub(crate) hash: u64,
    pub(crate) prev: usize,
    pub(crate) next: usize,
}

/// The handle at place `i` of the ring: the sigil at both ends, the list
/// between them.
pub(crate) open spec fn ring(order: Seq<usize>, i: int) -> usize {
    if 0 < i <= order.len() {
        order[i - 1]
    } else {
        0
    }
}

/// The handles of `order` are distinct nodes other than the sigil.
pub(crate) open spec fn handles_ok(len: nat, order: Seq<usize>) -> bool {
    &&& forall|i: int| 0 <= i < order.len() ==> 0 < #[trigger] order[i] < len
    &&& forall|i: int, j: int| 0 <= i < j < order.len() ==> order[i] != order[j]
}

/// The links of the nodes run through `order` and back to the sigil.
pub(crate) open spec fn linked<K, V>(nodes: Seq<Node<K, V>>, order: Seq<usize>) -> bool {
    &&& nodes.len() > 0
    &&& handles_ok(nodes.len(), order)
    &&& forall|i: int|
        0 <= i <= order.len() ==> (#[trigger] nodes[ring(order, i) as int]).next == ring(
            order,
            i + 1,
        )
    &&& forall|i: int|
        0 <= i <= order.len() ==> (#[trigger] nodes[ring(order, i + 1) as int]).prev == ring(
            order,
            i,
        )
}

/// Two states of the storage hold the same keys, values and hashes.
pub(crate) open spec fn same_payload<K, V>(a: Seq<Node<K, V>>, b: Seq<Node<K, V>>) -> bool {
    &&& a.len() == b.len()
    &&& forall|i: int|
        0 <= i < a.len() ==> (#[trigger] a[i]).key == b[i].key && a[i].val == b[i].val
            && a[i].hash == b[i].hash
}

/// Whether the node holds this key under this hash.
pub(crate) open spec fn node_matches<K, V>(n: Node<K, V>, hash: u64, key: K) -> bool {
    n.hash == hash && n.key == Some(key)
}

/// Decides `node_matches` for the node behind a handle. The hash is compared
/// first, so keys are compared only where the hashes agree.
pub(crate) fn slot_matches<K: Eq, V>(
    nodes: &Vec<Node<K, V>>,
    handle: usize,
    hash: u64,
    key: &K,
) -> (r: bool)
    requires
        obeys_key_eq::<K>(),
        handle < nodes.len(),
    ensures
        r == node_matches(nodes@[handle as int], hash, *key),
{
    let node = &nodes[handle];
    if node.hash != hash {
        false
    } else {
        match &node.key {
            Some(k) => *k == *key,
            None => false,
        }
    }
}

/// Whether two handles are the same.
pub(crate) fn same_handle(a: usize, b: usize) -> (r: bool)
    ensures
        r == (a == b),
{
    a == b
}

/// A sigil: a node without key and value that points at itself.
pub(crate) fn new_sigil<K, V>() -> (r: Node<K, V>)
    ensures
        r.key is None,
        r.val is None,
        r.prev == 0,
        r.next == 0,
{
    Node { key: None, val: None, hash: 0, prev: 0, next: 0 }
}

/// A node that holds a key and a value and is not linked yet.
pub(crate) fn new_node<K, V>(hash: u64, key: K, val: V) -> (r: Node<K, V>)
    ensures
        r.key == Some(key),
        r.val == Some(val),
        r.hash == hash,
{
    Node { key: Some(key), val: Some(val), hash, prev: 0, next: 0 }
}

/// Takes the node out of the list by joining its neighbours.
pub(crate) fn detach<K, V>(nodes: &mut Vec<Node<K, V>>, Ghost(order): Ghost<Seq<usize>>, h: usize)
    requires
        linked(old(nodes)@, order),
        order.contains(h),
    ensures
        linked(final(nodes)@, order.remove(order.index_of(h))),
        same_payload(old(nodes)@, final(nodes)@),
{
    let ghost p = order.index_of(h) + 1;
    let ghost rest = order.remove(order.index_of(h));
    assert(ring(order, p) == h);
    assert(0 < h < nodes.len());
    let prev = nodes[h].prev;
    let next = nodes[h].next;
    assert(prev == ring(order, p - 1)) by {
        assert(nodes@[ring(order, (p - 1) + 1) as int].prev == ring(order, p - 1));
    }
    assert(next == ring(order, p + 1));
    assert(prev < nodes.len());
    assert(next < nodes.len());
    nodes[prev].next = next;
    nodes[next].prev = prev;
    proof {
        assert(handles_ok(nodes@.len(), rest));
        assert forall|i: int| 0 <= i <= rest.len() implies (#[trigger] nodes@[ring(
            rest,
            i,
        ) as int]).next == ring(rest, i + 1) by {
            if i < p - 1 {
                assert(ring(rest, i) == ring(order, i));
                assert(ring(rest, i + 1) == ring(order, i + 1));
                assert(old(nodes)@[ring(order, i) as int].next == ring(order, i + 1));
            } else if i == p - 1 {
                assert(ring(rest, i) == prev);
                assert(ring(rest, i + 1) == next);
            } else {
                assert(ring(rest, i) == ring(order, i + 1));
                assert(ring(rest, i + 1) == ring(order, i + 2));
                assert(old(nodes)@[ring(order, i + 1) as int].next == ring(order, i + 2));
            }
        }
        assert forall|i: int| 0 <= i <= rest.len() implies (#[trigger] nodes@[ring(
            rest,
            i + 1,
        ) as int]).prev == ring(rest, i) by {
            if i < p - 1 {
                assert(ring(rest, i) == ring(order, i));
                assert(ring(rest, i + 1) == ring(order, i + 1));
                assert(old(nodes)@[ring(order, i + 1) as int].prev == ring(order, i));
            } else if i == p - 1 {
                assert(ring(rest, i) == prev);
                assert(ring(rest, i + 1) == next);
            } else {
                assert(ring(rest, i) == ring(order, i + 1));
                assert(ring(rest, i + 1) == ring(order, i + 2));
                assert(old(nodes)@[ring(order, (i + 1) + 1) as int].prev == ring(order, i + 1));
            }
        }
    }
}

/// Puts the node behind the sigil, where the most recently used node stands.
pub(crate) fn attach<K, V>(nodes: &mut Vec<Node<K, V>>, Ghost(order): Ghost<Seq<usize>>, h: usize)
    requires
        linked(old(nodes)@, order),
        0 < h < old(nodes)@.len(),
        !order.contains(h),
    ensures
        linked(final(nodes)@, seq![h] + order),
        same_payload(old(nodes)@, final(nodes)@),
{
    let ghost grown = seq![h] + order;
    let first = nodes[0].next;
    assert(first == ring(order, 1)) by {
        assert(nodes@[ring(order, 0) as int].next == ring(order, 1));
    }
    assert(first < nodes.len());
    nodes[h].next = first;
    nodes[h].prev = 0;
    nodes[0].next = h;
    nodes[first].prev = h;
    proof {
        assert forall|i: int| 0 <= i < grown.len() implies 0 < #[trigger] grown[i]
            < nodes@.len() by {
            if i > 0 {
                assert(grown[i] == order[i - 1]);
            }
        }
        assert forall|i: int, j: int| 0 <= i < j < grown.len() implies grown[i] != grown[j] by {
            assert(grown[j] == order[j - 1]);
            if i > 0 {
                assert(grown[i] == order[i - 1]);
            }
        }
        assert forall|i: int| 0 <= i <= grown.len() implies (#[trigger] nodes@[ring(
            grown,
            i,
        ) as int]).next == ring(grown, i + 1) by {
            if i >= 2 {
                assert(ring(grown, i) == ring(order, i - 1));
                assert(ring(grown, i + 1) == ring(order, i));
                assert(old(nodes)@[ring(order, i - 1) as int].next == ring(order, i));
            } else if i == 1 {
                assert(ring(grown, 1) == h);
                assert(ring(grown, 2) == ring(order, 1));
            } else {
                assert(ring(grown, 1) == h);
            }
        }
        assert forall|i: int| 0 <= i <= grown.len() implies (#[trigger] nodes@[ring(
            grown,
            i + 1,
        ) as int]).prev == ring(grown, i) by {
            if i >= 2 {
                assert(ring(grown, i) == ring(order, i - 1));
                assert(ring(grown, i + 1) == ring(order, i));
                assert(old(nodes)@[ring(order, (i - 1) + 1) as int].prev == ring(order, i - 1));
            } else if i == 1 {
                assert(ring(grown, 1) == h);
                assert(ring(grown, 2) == ring(order, 1));
            } else {
                assert(ring(grown, 1) == h);
            }
        }
    }
}

/// Puts the node before the sigil, where the least recently used node stands.
pub(crate) fn attach_last<K, V>(
    nodes: &mut Vec<Node<K, V>>,
    Ghost(order): Ghost<Seq<usize>>,
    h: usize,
)
    requires
        linked(old(nodes)@, order),
        0 < h < old(nodes)@.len(),
        !order.contains(h),
    ensures
        linked(final(nodes)@, order.push(h)),
        same_payload(old(nodes)@, final(nodes)@),
{
    let ghost grown = order.push(h);
    let ghost n = order.len() as int;
    let last = nodes[0].prev;
    assert(last == ring(order, n)) by {
        assert(nodes@[ring(order, n + 1) as int].prev == ring(order, n));
    }
    assert(last < nodes.len());
    nodes[h].next = 0;
    nodes[h].prev = last;
    nodes[0].prev = h;
    nodes[last].next = h;
    proof {
        assert forall|i: int| 0 <= i < grown.len() implies 0 < #[trigger] grown[i]
            < nodes@.len() by {
            if i < n {
                assert(grown[i] == order[i]);
            }
        }
        assert forall|i: int, j: int| 0 <= i < j < grown.len() implies grown[i] != grown[j] by {
            assert(grown[i] == order[i]);
            if j < n {
                assert(grown[j] == order[j]);
            }
        }
        assert forall|i: int| 0 <= i <= grown.len() implies (#[trigger] nodes@[ring(
            grown,
            i,
        ) as int]).next == ring(grown, i + 1) by {
            if i < n {
                assert(ring(grown, i) == ring(order, i));
                assert(ring(grown, i + 1) == ring(order, i + 1));
                assert(old(nodes)@[ring(order, i) as int].next == ring(order, i + 1));
            } else if i == n {
                assert(ring(grown, n) == last);
                assert(ring(grown, n + 1) == h);
            } else {
                assert(ring(grown, n + 1) == h);
            }
        }
        assert forall|i: int| 0 <= i <= grown.len() implies (#[trigger] nodes@[ring(
            grown,
            i + 1,
        ) as int]).prev == ring(grown, i) by {
            if i < n {
                assert(ring(grown, i) == ring(order, i));
                assert(ring(grown, i + 1) == ring(order, i + 1));
                assert(old(nodes)@[ring(order, i + 1) as int].prev == ring(order, i));
            } else if i == n {
                assert(ring(grown, n) == last);
                assert(ring(grown, n + 1) == h);
            } else {
                assert(ring(grown, n + 1) == h);
            }
        }
    }
}

} // verus!
