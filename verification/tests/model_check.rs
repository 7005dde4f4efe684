use lru::{CostLimited, LruCache};

/// A small generator of numbers that look random and are the same in every
/// run.
struct Numbers(u64);

impl Numbers {
    fn next(&mut self, below: u64) -> u64 {
        self.0 = self.0.wrapping_mul(6364136223846793005).wrapping_add(1442695040888963407);
        (self.0 >> 33) % below
    }
}

/// The entries of a cache as a plain list, most recently used first.
struct Plain {
    entries: Vec<(u64, u64)>,
    cap: usize,
}

impl Plain {
    fn find(&self, k: u64) -> Option<usize> {
        self.entries.iter().position(|e| e.0 == k)
    }

    fn put(&mut self, k: u64, v: u64) -> Option<u64> {
        if let Some(i) = self.find(k) {
            let old = self.entries.remove(i);
            self.entries.insert(0, (k, v));
            return Some(old.1);
        }
        if self.cap == 0 {
            return Some(v);
        }
        if self.entries.len() >= self.cap {
            self.entries.pop();
        }
        self.entries.insert(0, (k, v));
        None
    }

    fn push(&mut self, k: u64, v: u64) -> Option<(u64, u64)> {
        if let Some(i) = self.find(k) {
            let old = self.entries.remove(i);
            self.entries.insert(0, (k, v));
            return Some(old);
        }
        if self.cap == 0 {
            return Some((k, v));
        }
        let evicted = if self.entries.len() >= self.cap { self.entries.pop() } else { None };
        self.entries.insert(0, (k, v));
        evicted
    }

    fn get(&mut self, k: u64) -> Option<u64> {
        let i = self.find(k)?;
        let e = self.entries.remove(i);
        self.entries.insert(0, e);
        Some(e.1)
    }

    fn demote(&mut self, k: u64) {
        if let Some(i) = self.find(k) {
            let e = self.entries.remove(i);
            self.entries.push(e);
        }
    }

    fn pop(&mut self, k: u64) -> Option<u64> {
        let i = self.find(k)?;
        Some(self.entries.remove(i).1)
    }
}

fn listed(cache: &LruCache<u64, u64>) -> Vec<(u64, u64)> {
    let mut all = Vec::new();
    let mut iter = cache.iter();
    while let Some((k, v)) = iter.next() {
        all.push((*k, *v));
    }
    all
}

#[test]
fn count_limited_cache_agrees_with_a_plain_list() {
    for cap in [0usize, 1, 2, 7, 40] {
        let mut numbers = Numbers(cap as u64 + 1);
        let mut cache: LruCache<u64, u64> = LruCache::new(cap);
        let mut plain = Plain { entries: Vec::new(), cap };
        for step in 0..4000u64 {
            let k = numbers.next(60);
            match numbers.next(9) {
                0 | 1 => assert_eq!(cache.put(k, step), plain.put(k, step)),
                2 => assert_eq!(cache.push(k, step), plain.push(k, step)),
                3 => assert_eq!(cache.get(&k).copied(), plain.get(k)),
                4 => assert_eq!(cache.peek(&k).copied(), plain.find(k).map(|i| plain.entries[i].1)),
                5 => assert_eq!(cache.pop(&k), plain.pop(k)),
                6 => {
                    cache.promote(&k);
                    plain.get(k);
                },
                7 => {
                    cache.demote(&k);
                    plain.demote(k);
                },
                _ => assert_eq!(cache.pop_lru(), plain.entries.pop()),
            }
            assert_eq!(cache.len(), plain.entries.len());
            assert_eq!(cache.contains(&k), plain.find(k).is_some());
            if step % 64 == 0 {
                assert_eq!(listed(&cache), plain.entries);
                cache.shrink_to_fit();
            }
        }
        assert_eq!(listed(&cache), plain.entries);
        let mut backwards = Vec::new();
        let mut iter = cache.iter();
        while let Some((k, v)) = iter.next_back() {
            backwards.push((*k, *v));
        }
        backwards.reverse();
        assert_eq!(backwards, plain.entries);
    }
}

#[test]
fn cost_limited_cache_keeps_its_total() {
    let limit = 50usize;
    let mut numbers = Numbers(99);
    let limiter =
        CostLimited::with_func(limit, (|k: &u64| (*k % 3) as usize, |v: &u64| *v as usize));
    let mut cache = LruCache::with_limiter(limiter);
    // The entries, most recently used first.
    let mut plain: Vec<(u64, u64)> = Vec::new();
    let cost = |e: &(u64, u64)| (e.0 % 3) as usize + e.1 as usize;
    for _ in 0..4000 {
        let k = numbers.next(40);
        let v = numbers.next(30);
        match numbers.next(4) {
            0 | 1 => {
                let had = plain.iter().position(|e| e.0 == k);
                let pushed = cache.push(k, v);
                match had {
                    Some(i) => {
                        assert_eq!(pushed, Some(plain.remove(i)));
                        plain.insert(0, (k, v));
                    },
                    None => {
                        if cost(&(k, v)) > limit {
                            assert_eq!(pushed, Some((k, v)));
                        } else {
                            plain.insert(0, (k, v));
                            let mut first = None;
                            while plain.iter().map(cost).sum::<usize>() > limit && plain.len() > 1 {
                                let out = plain.pop();
                                if first.is_none() {
                                    first = out;
                                }
                            }
                            assert_eq!(pushed, first);
                        }
                    },
                }
            },
            2 => {
                let had = plain.iter().position(|e| e.0 == k);
                assert_eq!(cache.pop_entry(&k), had.map(|i| plain.remove(i)));
            },
            _ => {
                let had = plain.iter().position(|e| e.0 == k);
                assert_eq!(cache.get(&k).copied(), had.map(|i| plain[i].1));
                if let Some(i) = had {
                    let e = plain.remove(i);
                    plain.insert(0, e);
                }
            },
        }
        assert_eq!(cache.limiter().current(), plain.iter().map(cost).sum::<usize>());
        assert_eq!(cache.len(), plain.len());
    }
    let mut all = Vec::new();
    let mut iter = cache.iter();
    while let Some((k, v)) = iter.next() {
        all.push((*k, *v));
    }
    assert_eq!(all, plain);
}
