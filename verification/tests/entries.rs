use lru::{BorrowedKey, CostLimited, Entry, Key, LruCache, OccupiedExtra, OwnedKey};
use std::rc::Rc;

#[test]
fn occupied_key_and_peek() {
    let mut cache = LruCache::new(2);
    cache.entry(1).or_insert("a");
    assert_eq!(cache.entry(1).key(), &1);
    if let Entry::Occupied(entry) = cache.entry(1) {
        assert_eq!(entry.key(), &1);
        assert_eq!(entry.peek(), &"a");
    } else {
        panic!("the key was put in");
    }
}

#[test]
fn occupied_peek_mut_keeps_order() {
    let mut cache = LruCache::new(2);
    cache.entry("a").or_insert(1);
    cache.entry("b").or_insert(5);
    if let Entry::Occupied(mut entry) = cache.entry("a") {
        assert_eq!(entry.peek(), &1);
        *entry.peek_mut() *= 2;
        assert_eq!(entry.peek(), &2);
    }
    if let Entry::Occupied(entry) = cache.entry("a") {
        *entry.into_peek() *= 2;
    }
    assert_eq!(cache.peek(&"a"), Some(&4));
    assert_eq!(cache.peek_lru(), Some((&"a", &4)));
}

#[test]
fn occupied_get_promotes() {
    let mut cache = LruCache::new(2);
    cache.entry("a").or_insert(1);
    cache.entry("b").or_insert(5);
    if let Entry::Occupied(mut entry) = cache.entry("a") {
        assert_eq!(entry.get(), &1);
        *entry.get_mut() *= 2;
        assert_eq!(entry.get(), &2);
    }
    assert_eq!(cache.peek_lru(), Some((&"b", &5)));
    if let Entry::Occupied(entry) = cache.entry("b") {
        *entry.into_mut() *= 2;
    }
    assert_eq!(cache.peek_lru(), Some((&"a", &2)));
    assert_eq!(cache.get(&"b"), Some(&10));
}

#[test]
fn occupied_promote() {
    let mut cache = LruCache::new(3);
    cache.put(1, "a");
    cache.put(2, "b");
    cache.put(3, "c");
    cache.get(&1);
    cache.get(&2);
    if let Entry::Occupied(mut entry) = cache.entry(3) {
        entry.promote();
    }
    assert_eq!(cache.pop_lru(), Some((1, "a")));
}

#[test]
fn occupied_demote() {
    let mut cache = LruCache::new(3);
    cache.put(1, "a");
    cache.put(2, "b");
    cache.put(3, "c");
    cache.get(&1);
    cache.get(&2);
    if let Entry::Occupied(mut entry) = cache.entry(2) {
        entry.demote();
    }
    if let Entry::Occupied(mut entry) = cache.entry(1) {
        entry.demote();
    }
    assert_eq!(cache.pop_lru(), Some((1, "a")));
    assert_eq!(cache.pop_lru(), Some((2, "b")));
}

#[test]
fn occupied_next_and_prev() {
    let mut cache = LruCache::new(3);
    cache.put(1, "a");
    cache.put(2, "b");
    cache.put(3, "c");
    if let Entry::Occupied(entry) = cache.entry(2) {
        let entry = entry.next().ok().unwrap();
        assert_eq!(entry.key(), &1);
        // The least recently used entry has none after it.
        let entry = entry.next().err().unwrap();
        assert_eq!(entry.key(), &1);
    }
    if let Entry::Occupied(entry) = cache.entry(2) {
        let entry = entry.prev().ok().unwrap();
        assert_eq!(entry.key(), &3);
        // The most recently used entry has none before it.
        let entry = entry.prev().err().unwrap();
        assert_eq!(entry.key(), &3);
    }
}

#[test]
fn occupied_insert_and_try_insert() {
    let mut cache = LruCache::new(3);
    cache.put(1, "a");
    cache.put(2, "z");
    if let Entry::Occupied(mut entry) = cache.entry(1) {
        assert_eq!(entry.insert("b"), "a");
        assert_eq!(entry.get(), &"b");
        assert_eq!(entry.try_insert("c"), Ok("b"));
        assert_eq!(entry.peek(), &"c");
    }
    // The entry that got a value is the most recently used one.
    assert_eq!(cache.peek_lru(), Some((&2, &"z")));
}

#[test]
fn occupied_remove() {
    let mut cache = LruCache::new(3);
    cache.put(1, "a");
    cache.put(2, "b");
    if let Entry::Occupied(entry) = cache.entry(1) {
        assert_eq!(entry.remove(), "a");
    }
    assert!(!cache.contains(&1));
    if let Entry::Occupied(entry) = cache.entry(2) {
        assert_eq!(entry.remove_entry(), (2, "b"));
    }
    assert!(!cache.contains(&2));
    assert!(cache.is_empty());
}

#[test]
fn take_evicted_hands_out_once() {
    let mut cache = LruCache::new(2);
    cache.put(1, "a");
    cache.put(2, "b");
    let mut entry = cache.entry(3).insert("c");
    assert_eq!(entry.take_evicted(), Some((1, "a")));
    assert_eq!(entry.take_evicted(), None);
    assert_eq!(entry.take_evicted(), None);
}

#[test]
fn take_evicted_from_lookup_is_none() {
    let mut cache = LruCache::new(2);
    cache.put(1, "a");
    cache.put(2, "b");
    if let Entry::Occupied(mut entry) = cache.entry(1) {
        assert_eq!(entry.take_evicted(), None);
    }
    assert_eq!(cache.len(), 2);
}

#[test]
fn take_evicted_spares_its_own_entry() {
    let mut cache =
        LruCache::with_limiter(CostLimited::with_func(10, (|_k: &usize| 0, |v: &usize| *v)));
    cache.put(1, 4);
    cache.put(2, 4);
    let mut entry = cache.entry(3).insert(9);
    // The new entry is marked least recently used, and still it stays.
    entry.demote();
    assert_eq!(entry.take_evicted(), Some((1, 4)));
    assert_eq!(entry.take_evicted(), Some((2, 4)));
    assert_eq!(entry.take_evicted(), None);
    assert_eq!(entry.key(), &3);
    drop(entry);
    assert_eq!(cache.len(), 1);
    assert_eq!(cache.limiter().current(), 9);
}

#[test]
fn drop_evicted_trims() {
    let mut cache =
        LruCache::with_limiter(CostLimited::with_func(10, (|_k: &usize| 0, |v: &usize| *v)));
    for i in 1..5 {
        cache.put(i, i);
    }
    assert_eq!(cache.limiter().current(), 10);
    let mut entry = cache.entry(9).insert(9);
    entry.drop_evicted();
    assert_eq!(entry.take_evicted(), None);
    assert!(matches!(entry.extra, OccupiedExtra::Key(None)));
    drop(entry);
    assert_eq!(cache.len(), 1);
    assert_eq!(cache.limiter().current(), 9);
    assert_eq!(cache.peek(&9), Some(&9));
}

#[test]
fn replace_key_swaps_the_instance() {
    let mut cache = LruCache::new(3);
    let str1 = Rc::new("abc".to_string());
    let str2 = Rc::new("abc".to_string());
    cache.put(str1.clone(), 1);
    assert_eq!(Rc::strong_count(&str1), 2);
    assert_eq!(Rc::strong_count(&str2), 1);
    if let Entry::Occupied(entry) = cache.entry(str2.clone()) {
        let old = entry.replace_key();
        assert!(Rc::ptr_eq(&old, &str1));
    }
    assert_eq!(Rc::strong_count(&str1), 1);
    assert_eq!(Rc::strong_count(&str2), 2);
}

#[test]
fn try_replace_key_swaps_the_instance() {
    let mut cache = LruCache::new(3);
    let str1 = Rc::new("abc".to_string());
    let str2 = Rc::new("abc".to_string());
    cache.put(str1.clone(), 1);
    if let Entry::Occupied(entry) = cache.entry(str2.clone()) {
        assert!(entry.try_replace_key().is_ok());
    }
    assert_eq!(Rc::strong_count(&str1), 1);
    assert_eq!(Rc::strong_count(&str2), 2);
}

#[test]
fn replace_entry_swaps_key_and_value() {
    let mut cache = LruCache::new(3);
    let str1 = Rc::new("abc".to_string());
    let str2 = Rc::new("abc".to_string());
    cache.put(str1.clone(), 1);
    cache.put(Rc::new("z".to_string()), 0);
    if let Entry::Occupied(entry) = cache.entry(str2.clone()) {
        let (k, v) = entry.replace_entry(5);
        assert!(Rc::ptr_eq(&k, &str1));
        assert_eq!(v, 1);
    }
    assert_eq!(Rc::strong_count(&str1), 1);
    assert_eq!(Rc::strong_count(&str2), 2);
    assert_eq!(cache.peek(&str1), Some(&5));
    // The entry that was replaced is the most recently used one.
    assert_eq!(cache.iter().next().map(|kv| *kv.1), Some(5));
    if let Entry::Occupied(entry) = cache.entry(str1.clone()) {
        assert_eq!(entry.try_replace_entry(6).ok().map(|kv| kv.1), Some(5));
    }
    assert_eq!(cache.get(&str2), Some(&6));
}

#[test]
fn vacant_key_and_into_key() {
    let mut cache = LruCache::<u8, u8>::new(2);
    assert_eq!(cache.entry(1).key(), &1);
    if let Entry::Vacant(entry) = cache.entry(1) {
        assert_eq!(entry.key(), &1);
        assert_eq!(entry.into_key(), OwnedKey(1));
    } else {
        panic!("the cache is empty");
    }
    if let Entry::Vacant(entry) = cache.entry_ref(&7) {
        assert_eq!(entry.into_key(), BorrowedKey(&7));
    }
    assert!(cache.is_empty());
}

#[test]
fn vacant_insert() {
    let mut cache = LruCache::new(2);
    if let Entry::Vacant(entry) = cache.entry(1) {
        *entry.insert("a") = "b";
    }
    assert_eq!(cache.get(&1), Some(&"b"));
    if let Entry::Vacant(entry) = cache.entry(2) {
        let occupied = entry.insert_entry("c");
        assert_eq!(occupied.key(), &2);
        assert_eq!(occupied.peek(), &"c");
    }
    assert_eq!(cache.get(&2), Some(&"c"));
}

#[test]
fn vacant_try_insert() {
    let mut cache = LruCache::new(2);
    if let Entry::Vacant(entry) = cache.entry(1) {
        let res = entry.try_insert("a");
        assert!(res.is_ok());
    }
    assert_eq!(cache.get(&1), Some(&"a"));

    cache.resize(0);
    assert_eq!(cache.len(), 0);

    if let Entry::Vacant(entry) = cache.entry(2) {
        let res = entry.try_insert("b");
        assert_eq!(res, Err((2, "b")));
    }
    if let Entry::Vacant(entry) = cache.entry(4) {
        let res = entry.try_insert_entry("d");
        assert_eq!(res.err().unwrap(), (4, "d"));
    }
    assert_eq!(cache.len(), 0);
}

#[test]
fn entry_insert_and_try_insert() {
    let mut cache = LruCache::new(2);
    let entry = cache.entry(1).insert("a");
    assert_eq!(entry.key(), &1);
    entry.remove();
    assert!(cache.is_empty());

    let entry = cache.entry(1).try_insert("a").ok().unwrap();
    assert_eq!(entry.key(), &1);
    drop(entry);
    let entry = cache.entry(1).try_insert("b").ok().unwrap();
    assert_eq!(entry.peek(), &"b");
    entry.remove();
    assert!(cache.is_empty());

    cache.resize(0);
    assert_eq!(cache.entry(3).try_insert("c").err(), Some((Some(3), "c")));
}

#[test]
fn entry_or_insert() {
    let mut cache = LruCache::new(2);
    cache.entry("a").or_insert(1);
    assert_eq!(cache.get(&"a"), Some(&1));
    *cache.entry("a").or_insert(10) *= 2;
    assert_eq!(cache.get(&"a"), Some(&2));
}

#[test]
fn entry_or_insert_with() {
    let mut cache = LruCache::new(2);
    cache.entry("a").or_insert_with(|| 1);
    assert_eq!(cache.get(&"a"), Some(&1));
    cache.entry("a").or_insert_with(|| panic!("the key is there"));
    cache.entry("abc").or_insert_with_key(|key| key.len());
    assert_eq!(cache.get(&"abc"), Some(&3));
}

#[test]
fn entry_or_default() {
    let mut cache = LruCache::new(2);
    cache.entry(1).or_insert("a");
    cache.entry(2).or_default();
    assert_eq!(cache.get(&1), Some(&"a"));
    assert_eq!(cache.get(&2), Some(&""));
}

#[test]
fn entry_and_modify() {
    let mut cache = LruCache::new(2);
    cache.entry("a").and_modify(|x| *x += 1).or_insert(1);
    assert_eq!(cache.get(&"a"), Some(&1));
    cache.entry("a").and_modify(|x| *x += 1).or_insert(1);
    assert_eq!(cache.get(&"a"), Some(&2));
}

#[test]
fn entry_ref_inserts_a_copy() {
    let mut cache = LruCache::new(2);
    cache.entry_ref(&1).or_insert("a");
    cache.entry_ref(&2).or_default();
    assert_eq!(cache.get(&1), Some(&"a"));
    assert_eq!(cache.get(&2), Some(&""));
}

#[test]
fn entry_for_takes_either_shape() {
    let mut cache = LruCache::new(2);
    cache.entry_for(OwnedKey(1)).or_insert("a");
    assert_eq!(cache.entry_for(BorrowedKey(&1)).key(), &1);
    assert!(matches!(cache.entry_for(BorrowedKey(&1)), Entry::Occupied(_)));
    assert!(matches!(cache.entry_for(BorrowedKey(&2)), Entry::Vacant(_)));
    assert_eq!(Key::as_ref(&OwnedKey(5)), &5);
    assert_eq!(Key::as_ref(&BorrowedKey(&6)), &6);
}

#[test]
fn entry_lru_does_not_promote() {
    let mut cache = LruCache::new(2);
    cache.entry_ref(&1).or_insert("a");
    cache.entry_ref(&2).or_default();
    assert_eq!(cache.entry_lru().unwrap().key(), &1);
    // Only reading through `get` promotes.
    assert_eq!(cache.entry_lru().unwrap().get(), &"a");
    assert_eq!(cache.entry_lru().unwrap().get(), &"");
    cache.clear();
    assert!(cache.entry_lru().is_none());
}
