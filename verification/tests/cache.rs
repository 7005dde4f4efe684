use lru::{CostLimited, LruCache};
use std::cell::Cell;
use std::fmt::Debug;
use std::hash::{Hash, Hasher};
use std::rc::Rc;

fn assert_opt_eq<V: PartialEq + Debug>(opt: Option<&V>, v: V) {
    assert!(opt.is_some());
    assert_eq!(opt.unwrap(), &v);
}

fn assert_opt_eq_mut<V: PartialEq + Debug>(opt: Option<&mut V>, v: V) {
    assert!(opt.is_some());
    assert_eq!(opt.unwrap(), &v);
}

fn assert_opt_eq_tuple<K: PartialEq + Debug, V: PartialEq + Debug>(
    opt: Option<(&K, &V)>,
    kv: (K, V),
) {
    assert!(opt.is_some());
    let res = opt.unwrap();
    assert_eq!(res.0, &kv.0);
    assert_eq!(res.1, &kv.1);
}

fn assert_opt_eq_mut_tuple<K: PartialEq + Debug, V: PartialEq + Debug>(
    opt: Option<(&K, &mut V)>,
    kv: (K, V),
) {
    assert!(opt.is_some());
    let res = opt.unwrap();
    assert_eq!(res.0, &kv.0);
    assert_eq!(res.1, &kv.1);
}

#[test]
fn test_unbounded() {
    let mut cache = LruCache::unbounded();
    for i in 0..13370 {
        cache.put(i, ());
    }
    assert_eq!(cache.len(), 13370);
}

#[test]
fn test_with_hasher() {
    let s = hashbrown::DefaultHashBuilder::default();
    let mut cache = LruCache::with_hasher(16, s);

    for i in 0..13370 {
        cache.put(i, ());
    }
    assert_eq!(cache.len(), 16);
}

#[test]
fn test_put_and_get() {
    let mut cache = LruCache::new(2);
    assert!(cache.is_empty());

    assert_eq!(cache.put("apple", "red"), None);
    assert_eq!(cache.put("banana", "yellow"), None);

    assert_eq!(cache.cap(), 2);
    assert_eq!(cache.len(), 2);
    assert!(!cache.is_empty());
    assert_opt_eq(cache.get(&"apple"), "red");
    assert_opt_eq(cache.get(&"banana"), "yellow");
}

#[test]
fn test_put_and_get_or_insert() {
    let mut cache = LruCache::new(2);
    assert!(cache.is_empty());

    assert_eq!(cache.put("apple", "red"), None);
    assert_eq!(cache.put("banana", "yellow"), None);

    assert_eq!(cache.cap(), 2);
    assert_eq!(cache.len(), 2);
    assert!(!cache.is_empty());
    assert_eq!(cache.get_or_insert("apple", || "orange"), &"red");
    assert_eq!(cache.get_or_insert("banana", || "orange"), &"yellow");
    assert_eq!(cache.get_or_insert("lemon", || "orange"), &"orange");
    assert_eq!(cache.get_or_insert("lemon", || "red"), &"orange");
}

#[test]
fn test_put_and_get_or_insert_mut() {
    let mut cache = LruCache::new(2);
    assert!(cache.is_empty());

    assert_eq!(cache.put("apple", "red"), None);
    assert_eq!(cache.put("banana", "yellow"), None);

    assert_eq!(cache.cap(), 2);
    assert_eq!(cache.len(), 2);

    let v = cache.get_or_insert_mut("apple", || "orange");
    assert_eq!(v, &"red");
    *v = "blue";

    assert_eq!(cache.get_or_insert_mut("apple", || "orange"), &"blue");
    assert_eq!(cache.get_or_insert_mut("banana", || "orange"), &"yellow");
    assert_eq!(cache.get_or_insert_mut("lemon", || "orange"), &"orange");
    assert_eq!(cache.get_or_insert_mut("lemon", || "red"), &"orange");
}

#[test]
fn test_put_and_get_mut() {
    let mut cache = LruCache::new(2);

    cache.put("apple", "red");
    cache.put("banana", "yellow");

    assert_eq!(cache.cap(), 2);
    assert_eq!(cache.len(), 2);
    assert_opt_eq_mut(cache.get_mut(&"apple"), "red");
    assert_opt_eq_mut(cache.get_mut(&"banana"), "yellow");
}

#[test]
fn test_get_mut_and_update() {
    let mut cache = LruCache::new(2);

    cache.put("apple", 1);
    cache.put("banana", 3);

    {
        let v = cache.get_mut(&"apple").unwrap();
        *v = 4;
    }

    assert_eq!(cache.cap(), 2);
    assert_eq!(cache.len(), 2);
    assert_opt_eq_mut(cache.get_mut(&"apple"), 4);
    assert_opt_eq_mut(cache.get_mut(&"banana"), 3);
}

#[test]
fn test_put_update() {
    let mut cache = LruCache::new(2);

    assert_eq!(cache.put("apple", "red"), None);
    assert_eq!(cache.put("apple", "green"), Some("red"));

    assert_eq!(cache.len(), 1);
    assert_opt_eq(cache.get(&"apple"), "green");
}

#[test]
fn test_put_removes_oldest() {
    let mut cache = LruCache::new(2);

    assert_eq!(cache.put("apple", "red"), None);
    assert_eq!(cache.put("banana", "yellow"), None);
    assert_eq!(cache.put("pear", "green"), None);

    assert!(cache.get(&"apple").is_none());
    assert_opt_eq(cache.get(&"banana"), "yellow");
    assert_opt_eq(cache.get(&"pear"), "green");

    // "apple" has left the cache, so `put` finds no value to return for it.
    assert_eq!(cache.put("apple", "green"), None);
    assert_eq!(cache.put("tomato", "red"), None);

    assert!(cache.get(&"pear").is_none());
    assert_opt_eq(cache.get(&"apple"), "green");
    assert_opt_eq(cache.get(&"tomato"), "red");
}

#[test]
fn test_peek() {
    let mut cache = LruCache::new(2);

    cache.put("apple", "red");
    cache.put("banana", "yellow");

    assert_opt_eq(cache.peek(&"banana"), "yellow");
    assert_opt_eq(cache.peek(&"apple"), "red");

    cache.put("pear", "green");

    assert!(cache.peek(&"apple").is_none());
    assert_opt_eq(cache.peek(&"banana"), "yellow");
    assert_opt_eq(cache.peek(&"pear"), "green");
}

#[test]
fn test_peek_mut() {
    let mut cache = LruCache::new(2);

    cache.put("apple", "red");
    cache.put("banana", "yellow");

    assert_opt_eq_mut(cache.peek_mut(&"banana"), "yellow");
    assert_opt_eq_mut(cache.peek_mut(&"apple"), "red");
    assert!(cache.peek_mut(&"pear").is_none());

    cache.put("pear", "green");

    assert!(cache.peek_mut(&"apple").is_none());
    assert_opt_eq_mut(cache.peek_mut(&"banana"), "yellow");
    assert_opt_eq_mut(cache.peek_mut(&"pear"), "green");

    {
        let v = cache.peek_mut(&"banana").unwrap();
        *v = "green";
    }

    assert_opt_eq_mut(cache.peek_mut(&"banana"), "green");
}

#[test]
fn test_peek_lru() {
    let mut cache = LruCache::new(2);

    assert!(cache.peek_lru().is_none());

    cache.put("apple", "red");
    cache.put("banana", "yellow");
    assert_opt_eq_tuple(cache.peek_lru(), ("apple", "red"));

    cache.get(&"apple");
    assert_opt_eq_tuple(cache.peek_lru(), ("banana", "yellow"));

    cache.clear();
    assert!(cache.peek_lru().is_none());
}

#[test]
fn test_contains() {
    let mut cache = LruCache::new(2);

    cache.put("apple", "red");
    cache.put("banana", "yellow");
    cache.put("pear", "green");

    assert!(!cache.contains(&"apple"));
    assert!(cache.contains(&"banana"));
    assert!(cache.contains(&"pear"));
}

#[test]
fn test_pop() {
    let mut cache = LruCache::new(2);

    cache.put("apple", "red");
    cache.put("banana", "yellow");

    assert_eq!(cache.len(), 2);
    assert_opt_eq(cache.get(&"apple"), "red");
    assert_opt_eq(cache.get(&"banana"), "yellow");

    let popped = cache.pop(&"apple");
    assert!(popped.is_some());
    assert_eq!(popped.unwrap(), "red");
    assert_eq!(cache.len(), 1);
    assert!(cache.get(&"apple").is_none());
    assert_opt_eq(cache.get(&"banana"), "yellow");
}

#[test]
fn test_pop_entry() {
    let mut cache = LruCache::new(2);
    cache.put("apple", "red");
    cache.put("banana", "yellow");

    assert_eq!(cache.len(), 2);
    assert_opt_eq(cache.get(&"apple"), "red");
    assert_opt_eq(cache.get(&"banana"), "yellow");

    let popped = cache.pop_entry(&"apple");
    assert!(popped.is_some());
    assert_eq!(popped.unwrap(), ("apple", "red"));
    assert_eq!(cache.len(), 1);
    assert!(cache.get(&"apple").is_none());
    assert_opt_eq(cache.get(&"banana"), "yellow");
}

#[test]
fn test_pop_lru() {
    let mut cache = LruCache::new(200);

    for i in 0..75 {
        cache.put(i, "A");
    }
    for i in 0..75 {
        cache.put(i + 100, "B");
    }
    for i in 0..75 {
        cache.put(i + 200, "C");
    }
    assert_eq!(cache.len(), 200);

    for i in 0..75 {
        assert_opt_eq(cache.get(&(74 - i + 100)), "B");
    }
    assert_opt_eq(cache.get(&25), "A");

    for i in 26..75 {
        assert_eq!(cache.pop_lru(), Some((i, "A")));
    }
    for i in 0..75 {
        assert_eq!(cache.pop_lru(), Some((i + 200, "C")));
    }
    for i in 0..75 {
        assert_eq!(cache.pop_lru(), Some((74 - i + 100, "B")));
    }
    assert_eq!(cache.pop_lru(), Some((25, "A")));
    for _ in 0..50 {
        assert_eq!(cache.pop_lru(), None);
    }
}

#[test]
fn test_clear() {
    let mut cache = LruCache::new(2);

    cache.put("apple", "red");
    cache.put("banana", "yellow");

    assert_eq!(cache.len(), 2);
    assert_opt_eq(cache.get(&"apple"), "red");
    assert_opt_eq(cache.get(&"banana"), "yellow");

    cache.clear();
    assert_eq!(cache.len(), 0);
}

#[test]
fn test_resize_larger() {
    let mut cache = LruCache::new(2);

    cache.put(1, "a");
    cache.put(2, "b");
    cache.resize(4);
    cache.put(3, "c");
    cache.put(4, "d");

    assert_eq!(cache.len(), 4);
    assert_eq!(cache.get(&1), Some(&"a"));
    assert_eq!(cache.get(&2), Some(&"b"));
    assert_eq!(cache.get(&3), Some(&"c"));
    assert_eq!(cache.get(&4), Some(&"d"));
}

#[test]
fn test_resize_smaller() {
    let mut cache = LruCache::new(4);

    cache.put(1, "a");
    cache.put(2, "b");
    cache.put(3, "c");
    cache.put(4, "d");

    cache.resize(2);

    assert_eq!(cache.len(), 2);
    assert!(cache.get(&1).is_none());
    assert!(cache.get(&2).is_none());
    assert_eq!(cache.get(&3), Some(&"c"));
    assert_eq!(cache.get(&4), Some(&"d"));
}

#[test]
fn test_multiple_threads() {
    let mut pool = scoped_threadpool::Pool::new(1);
    let mut cache = LruCache::new(4);
    cache.put(1, "a");

    let cache_ref = &cache;
    pool.scoped(|scoped| {
        scoped.execute(move || {
            assert_eq!(cache_ref.peek(&1), Some(&"a"));
        });
    });

    assert_eq!((cache_ref).peek(&1), Some(&"a"));
}

#[test]
fn test_iter_forwards() {
    let mut cache = LruCache::new(3);
    cache.put("a", 1);
    cache.put("b", 2);
    cache.put("c", 3);

    {
        // iter const
        let mut iter = cache.iter();
        assert_eq!(iter.len(), 3);
        assert_opt_eq_tuple(iter.next(), ("c", 3));

        assert_eq!(iter.len(), 2);
        assert_opt_eq_tuple(iter.next(), ("b", 2));

        assert_eq!(iter.len(), 1);
        assert_opt_eq_tuple(iter.next(), ("a", 1));

        assert_eq!(iter.len(), 0);
        assert_eq!(iter.next(), None);
    }
    {
        // iter mut
        let mut iter = cache.iter_mut();
        assert_eq!(iter.len(), 3);
        assert_opt_eq_mut_tuple(iter.next(), ("c", 3));

        assert_eq!(iter.len(), 2);
        assert_opt_eq_mut_tuple(iter.next(), ("b", 2));

        assert_eq!(iter.len(), 1);
        assert_opt_eq_mut_tuple(iter.next(), ("a", 1));

        assert_eq!(iter.len(), 0);
        assert_eq!(iter.next(), None);
    }
}

#[test]
fn test_iter_backwards() {
    let mut cache = LruCache::new(3);
    cache.put("a", 1);
    cache.put("b", 2);
    cache.put("c", 3);

    {
        // iter const
        let mut iter = cache.iter();
        assert_eq!(iter.len(), 3);
        assert_opt_eq_tuple(iter.next_back(), ("a", 1));

        assert_eq!(iter.len(), 2);
        assert_opt_eq_tuple(iter.next_back(), ("b", 2));

        assert_eq!(iter.len(), 1);
        assert_opt_eq_tuple(iter.next_back(), ("c", 3));

        assert_eq!(iter.len(), 0);
        assert_eq!(iter.next_back(), None);
    }

    {
        // iter mut
        let mut iter = cache.iter_mut();
        assert_eq!(iter.len(), 3);
        assert_opt_eq_mut_tuple(iter.next_back(), ("a", 1));

        assert_eq!(iter.len(), 2);
        assert_opt_eq_mut_tuple(iter.next_back(), ("b", 2));

        assert_eq!(iter.len(), 1);
        assert_opt_eq_mut_tuple(iter.next_back(), ("c", 3));

        assert_eq!(iter.len(), 0);
        assert_eq!(iter.next_back(), None);
    }
}

#[test]
fn test_iter_forwards_and_backwards() {
    let mut cache = LruCache::new(3);
    cache.put("a", 1);
    cache.put("b", 2);
    cache.put("c", 3);

    {
        // iter const
        let mut iter = cache.iter();
        assert_eq!(iter.len(), 3);
        assert_opt_eq_tuple(iter.next(), ("c", 3));

        assert_eq!(iter.len(), 2);
        assert_opt_eq_tuple(iter.next_back(), ("a", 1));

        assert_eq!(iter.len(), 1);
        assert_opt_eq_tuple(iter.next(), ("b", 2));

        assert_eq!(iter.len(), 0);
        assert_eq!(iter.next_back(), None);
    }
    {
        // iter mut
        let mut iter = cache.iter_mut();
        assert_eq!(iter.len(), 3);
        assert_opt_eq_mut_tuple(iter.next(), ("c", 3));

        assert_eq!(iter.len(), 2);
        assert_opt_eq_mut_tuple(iter.next_back(), ("a", 1));

        assert_eq!(iter.len(), 1);
        assert_opt_eq_mut_tuple(iter.next(), ("b", 2));

        assert_eq!(iter.len(), 0);
        assert_eq!(iter.next_back(), None);
    }
}

#[test]
fn test_iter_multiple_threads() {
    let mut pool = scoped_threadpool::Pool::new(1);
    let mut cache = LruCache::new(3);
    cache.put("a", 1);
    cache.put("b", 2);
    cache.put("c", 3);

    let mut iter = cache.iter();
    assert_eq!(iter.len(), 3);
    assert_opt_eq_tuple(iter.next(), ("c", 3));

    {
        let iter_ref = &mut iter;
        pool.scoped(|scoped| {
            scoped.execute(move || {
                assert_eq!(iter_ref.len(), 2);
                assert_opt_eq_tuple(iter_ref.next(), ("b", 2));
            });
        });
    }

    assert_eq!(iter.len(), 1);
    assert_opt_eq_tuple(iter.next(), ("a", 1));

    assert_eq!(iter.len(), 0);
    assert_eq!(iter.next(), None);
}

#[test]
fn test_iter_clone() {
    let mut cache = LruCache::new(3);
    cache.put("a", 1);
    cache.put("b", 2);

    let mut iter = cache.iter();
    let mut iter_clone = iter.clone();

    assert_eq!(iter.len(), 2);
    assert_opt_eq_tuple(iter.next(), ("b", 2));
    assert_eq!(iter_clone.len(), 2);
    assert_opt_eq_tuple(iter_clone.next(), ("b", 2));

    assert_eq!(iter.len(), 1);
    assert_opt_eq_tuple(iter.next(), ("a", 1));
    assert_eq!(iter_clone.len(), 1);
    assert_opt_eq_tuple(iter_clone.next(), ("a", 1));

    assert_eq!(iter.len(), 0);
    assert_eq!(iter.next(), None);
    assert_eq!(iter_clone.len(), 0);
    assert_eq!(iter_clone.next(), None);
}

#[test]
fn test_into_iter() {
    let mut cache = LruCache::new(3);
    cache.put("a", 1);
    cache.put("b", 2);
    cache.put("c", 3);

    let mut iter = cache.into_iter();
    assert_eq!(iter.len(), 3);
    assert_eq!(iter.next(), Some(("a", 1)));

    assert_eq!(iter.len(), 2);
    assert_eq!(iter.next(), Some(("b", 2)));

    assert_eq!(iter.len(), 1);
    assert_eq!(iter.next(), Some(("c", 3)));

    assert_eq!(iter.len(), 0);
    assert_eq!(iter.next(), None);
}

#[test]
fn test_that_pop_actually_detaches_node() {
    let mut cache = LruCache::new(5);

    cache.put("a", 1);
    cache.put("b", 2);
    cache.put("c", 3);
    cache.put("d", 4);
    cache.put("e", 5);

    assert_eq!(cache.pop(&"c"), Some(3));

    cache.put("f", 6);

    let mut iter = cache.iter();
    assert_opt_eq_tuple(iter.next(), ("f", 6));
    assert_opt_eq_tuple(iter.next(), ("e", 5));
    assert_opt_eq_tuple(iter.next(), ("d", 4));
    assert_opt_eq_tuple(iter.next(), ("b", 2));
    assert_opt_eq_tuple(iter.next(), ("a", 1));
    assert!(iter.next().is_none());
}

#[test]
fn test_get_with_borrow() {
    let mut cache = LruCache::new(2);

    let key = String::from("apple");
    cache.put(key, "red");

    assert_opt_eq(cache.get(&String::from("apple")), "red");
}

#[test]
fn test_get_mut_with_borrow() {
    let mut cache = LruCache::new(2);

    let key = String::from("apple");
    cache.put(key, "red");

    assert_opt_eq_mut(cache.get_mut(&String::from("apple")), "red");
}

struct DropCounter(Rc<Cell<usize>>);

impl Drop for DropCounter {
    fn drop(&mut self) {
        self.0.set(self.0.get() + 1);
    }
}

struct KeyDropCounter(usize, Rc<Cell<usize>>);

impl Hash for KeyDropCounter {
    fn hash<H: Hasher>(&self, state: &mut H) {
        self.0.hash(state)
    }
}

impl PartialEq for KeyDropCounter {
    fn eq(&self, other: &Self) -> bool {
        self.0.eq(&other.0)
    }
}

impl Eq for KeyDropCounter {}

impl Drop for KeyDropCounter {
    fn drop(&mut self) {
        self.1.set(self.1.get() + 1);
    }
}

#[test]
fn test_no_memory_leaks() {
    let drop_count = Rc::new(Cell::new(0));

    let n = 100;
    for _ in 0..n {
        let mut cache = LruCache::new(1);
        for i in 0..n {
            cache.put(i, DropCounter(drop_count.clone()));
        }
    }
    assert_eq!(drop_count.get(), n * n);
}

#[test]
fn test_no_memory_leaks_with_clear() {
    let drop_count = Rc::new(Cell::new(0));

    let n = 100;
    for _ in 0..n {
        let mut cache = LruCache::new(1);
        for i in 0..n {
            cache.put(i, DropCounter(drop_count.clone()));
        }
        cache.clear();
    }
    assert_eq!(drop_count.get(), n * n);
}

#[test]
fn test_no_memory_leaks_with_resize() {
    let drop_count = Rc::new(Cell::new(0));

    let n = 100;
    for _ in 0..n {
        let mut cache = LruCache::new(1);
        for i in 0..n {
            cache.put(i, DropCounter(drop_count.clone()));
        }
        cache.clear();
    }
    assert_eq!(drop_count.get(), n * n);
}

#[test]
fn test_no_memory_leaks_with_pop() {
    let drop_count = Rc::new(Cell::new(0));

    let n = 100;
    for _ in 0..n {
        let mut cache = LruCache::new(1);

        for i in 0..100 {
            cache.put(KeyDropCounter(i, drop_count.clone()), i);
            cache.pop(&KeyDropCounter(i, drop_count.clone()));
        }
    }

    assert_eq!(drop_count.get(), n * n * 2);
}

#[test]
fn test_promote_and_demote() {
    let mut cache = LruCache::new(5);
    for i in 0..5 {
        cache.push(i, i);
    }
    cache.promote(&1);
    cache.promote(&0);
    cache.demote(&3);
    cache.demote(&4);
    assert_eq!(cache.pop_lru(), Some((4, 4)));
    assert_eq!(cache.pop_lru(), Some((3, 3)));
    assert_eq!(cache.pop_lru(), Some((2, 2)));
    assert_eq!(cache.pop_lru(), Some((1, 1)));
    assert_eq!(cache.pop_lru(), Some((0, 0)));
    assert_eq!(cache.pop_lru(), None);
}

#[test]
fn test_zero_cap() {
    let mut cache = LruCache::new(0);
    assert_eq!(cache.put(0, 0), Some(0));
    assert_eq!(cache.push(1, 1), Some((1, 1)));
    assert_eq!(cache.try_get_or_insert(2, || 2), Err((2, 2)));
    assert_eq!(cache.try_get_or_insert_mut(3, || 3), Err((3, 3)));
}

#[test]
fn test_size_limiter() {
    let mut cache = LruCache::new(2);
    cache.put(1, 1);
    cache.put(2, 2);
    assert_eq!(cache.push(3, 3), Some((1, 1)));
    let _ = cache.pop_lru();
    assert_eq!(cache.push(4, 4), None);
    assert_eq!(cache.push(5, 5), Some((3, 3)));
}

#[test]
fn test_unlimited_limiter() {
    let mut cache = LruCache::unbounded();
    for i in 0..1000 {
        cache.put(i, i);
    }
    assert_eq!(cache.len(), 1000);
}

#[test]
fn test_cost_limited() {
    let mut cache = LruCache::with_limiter(CostLimited::with_func(
        10,
        (|_key: &usize| 0, |value: &usize| *value),
    ));
    for i in 0..5 {
        cache.put(i, i);
    }
    assert_eq!(cache.len(), 5);
    {
        let mut entry = cache.entry(10).insert(10);
        for i in 0..5 {
            assert_eq!(entry.take_evicted(), Some((i, i)));
        }
        assert_eq!(entry.take_evicted(), None);
    }
    assert_eq!(cache.len(), 1);
}

#[test]
fn test_send() {
    let mut pool = scoped_threadpool::Pool::new(1);
    let mut cache = LruCache::new(4);
    cache.put(1, "a");

    // The cache moves to the thread that runs the job.
    pool.scoped(|scoped| {
        scoped.execute(move || {
            assert_eq!(cache.get(&1), Some(&"a"));
        });
    });
}
