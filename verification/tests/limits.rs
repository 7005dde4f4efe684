use lru::{AddBehavior, Limiter, LruCache, SizeLimited};

struct TraceLimited<L> {
    pub limiter: L,
    adds: usize,
    updates: usize,
    removes: usize,
}

impl<L> TraceLimited<L> {
    pub fn new(limiter: L) -> Self {
        Self { limiter, adds: 0, updates: 0, removes: 0 }
    }

    pub fn reset(&mut self) -> (usize, usize, usize) {
        let seen = (self.adds, self.updates, self.removes);
        self.adds = 0;
        self.updates = 0;
        self.removes = 0;
        seen
    }
}

impl<K, V, L: Limiter<K, V>> Limiter<K, V> for TraceLimited<L> {
    fn is_oversized(&self, len: usize) -> bool {
        self.limiter.is_oversized(len)
    }

    fn on_add(&mut self, len: usize, key: &K, value: &V) -> AddBehavior {
        self.adds += 1;
        self.limiter.on_add(len, key, value)
    }

    fn on_update(
        &mut self,
        len: usize,
        old_key: &K,
        old_value: &V,
        new_key: Option<&K>,
        new_value: Option<&V>,
    ) -> AddBehavior {
        self.updates += 1;
        self.limiter.on_update(len, old_key, old_value, new_key, new_value)
    }

    fn on_remove(&mut self, len: usize, key: &K, value: &V) {
        self.removes += 1;
        self.limiter.on_remove(len, key, value)
    }
}

#[test]
fn test_limit_put() {
    let mut cache = LruCache::with_limiter(TraceLimited::new(SizeLimited::new(1)));
    cache.put(0, 0);
    assert_eq!(cache.limiter_mut().reset(), (1, 0, 0));
    cache.put(1, 1);
    assert_eq!(cache.limiter_mut().reset(), (1, 0, 1));
    cache.put(1, 2);
    assert_eq!(cache.limiter_mut().reset(), (0, 1, 0));
}

#[test]
fn test_limit_push() {
    let mut cache = LruCache::with_limiter(TraceLimited::new(SizeLimited::new(1)));
    cache.push(0, 0);
    assert_eq!(cache.limiter_mut().reset(), (1, 0, 0));
    cache.push(1, 1);
    assert_eq!(cache.limiter_mut().reset(), (1, 0, 1));
    cache.push(1, 2);
    assert_eq!(cache.limiter_mut().reset(), (0, 1, 0));
}

#[test]
fn test_limit_get_or_insert() {
    let mut cache = LruCache::with_limiter(TraceLimited::new(SizeLimited::new(1)));
    cache.get_or_insert(0, || 0);
    assert_eq!(cache.limiter_mut().reset(), (1, 0, 0));
    cache.get_or_insert(0, || 0);
    assert_eq!(cache.limiter_mut().reset(), (0, 0, 0));
    cache.get_or_insert(1, || 1);
    assert_eq!(cache.limiter_mut().reset(), (1, 0, 1));
}

#[test]
fn test_limit_get_or_insert_mut() {
    let mut cache = LruCache::with_limiter(TraceLimited::new(SizeLimited::new(1)));
    cache.get_or_insert_mut(0, || 0);
    assert_eq!(cache.limiter_mut().reset(), (1, 0, 0));
    cache.get_or_insert_mut(0, || 0);
    assert_eq!(cache.limiter_mut().reset(), (0, 0, 0));
    cache.get_or_insert_mut(1, || 1);
    assert_eq!(cache.limiter_mut().reset(), (1, 0, 1));
}

#[test]
fn test_limit_pop() {
    let mut cache = LruCache::with_limiter(TraceLimited::new(SizeLimited::new(1)));
    cache.pop(&0);
    assert_eq!(cache.limiter_mut().reset(), (0, 0, 0));
    cache.push(0, 0);
    cache.limiter_mut().reset();
    cache.pop(&1);
    assert_eq!(cache.limiter_mut().reset(), (0, 0, 0));
    cache.pop(&0);
    assert_eq!(cache.limiter_mut().reset(), (0, 0, 1));
    cache.pop(&0);
    assert_eq!(cache.limiter_mut().reset(), (0, 0, 0));
}

#[test]
fn test_limit_pop_entry() {
    let mut cache = LruCache::with_limiter(TraceLimited::new(SizeLimited::new(1)));
    cache.pop_entry(&0);
    assert_eq!(cache.limiter_mut().reset(), (0, 0, 0));
    cache.push(0, 0);
    cache.limiter_mut().reset();
    cache.pop_entry(&1);
    assert_eq!(cache.limiter_mut().reset(), (0, 0, 0));
    cache.pop_entry(&0);
    assert_eq!(cache.limiter_mut().reset(), (0, 0, 1));
    cache.pop_entry(&0);
    assert_eq!(cache.limiter_mut().reset(), (0, 0, 0));
}

#[test]
fn test_limit_pop_lru() {
    let mut cache = LruCache::with_limiter(TraceLimited::new(SizeLimited::new(1)));
    cache.pop_lru();
    assert_eq!(cache.limiter_mut().reset(), (0, 0, 0));
    cache.push(0, 0);
    cache.limiter_mut().reset();
    cache.pop_lru();
    assert_eq!(cache.limiter_mut().reset(), (0, 0, 1));
    cache.pop_lru();
    assert_eq!(cache.limiter_mut().reset(), (0, 0, 0));
}
