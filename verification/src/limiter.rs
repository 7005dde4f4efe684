//! Limiters: the policies that decide whether an entry is admitted, whether
//! admitting it costs the least recently used entry its place, and when the
//! cache holds too much.
//!
//! A limiter is a small deterministic state machine. Its decisions and its
//! next state are spec functions of its current state and of what it is shown,
//! so the cache can state exactly what each of its operations does.

use vstd::prelude::*;

verus! {

/// What a limiter answers when an entry is offered to it.
#[derive(Debug, Copy, Clone, PartialEq, Eq, Structural)]
pub enum AddBehavior {
    /// The entry is admitted and nothing has to leave.
    Accept,
    /// The entry is admitted and the least recently used entry should leave.
    /// For an update this means the same as `Accept`.
    Evict,
    /// The entry is refused: it is handed back and the limiter's bookkeeping
    /// stays as it was.
    Reject,
}

/// The value behind an optional shared reference.
pub open spec fn unref<T>(o: Option<&T>) -> Option<T> {
    match o {
        Some(r) => Some(*r),
        None => None,
    }
}

/// Both limiters weigh every entry alike.
pub open spec fn same_weights<K, V, L: Limiter<K, V>>(a: L, b: L) -> bool {
    forall|k: K, v: V| #[trigger] a.weight(k, v) == b.weight(k, v)
}

/// The policy of a cache.
///
/// `len` is always the number of entries the cache holds at the moment of the
/// call: before the insertion for `on_add`, after the removal for `on_remove`.
///
/// A limiter keeps `usage`, an aggregate over the resident entries: every
/// admitted entry adds its `weight`, every removed entry takes it away, and a
/// refused entry leaves it alone. The cache maintains that `usage` is the sum
/// of the weights of its entries.
///
/// The spec functions say what the limiter weighs, decides and becomes. As
/// they stand they describe a limiter that weighs nothing, admits everything
/// and never changes; a limiter that does more says so by giving its own.
pub trait Limiter<K, V>: Sized {
    /// The limiter's own state is valid.
    open spec fn inv(&self) -> bool {
        true
    }

    /// What one entry contributes to `usage`.
    open spec fn weight(&self, key: K, value: V) -> nat {
        0
    }

    /// The aggregate that the limiter keeps over the resident entries.
    open spec fn usage(&self) -> nat {
        0
    }

    /// The answer of `is_oversized`.
    open spec fn oversized(&self, len: nat) -> bool {
        false
    }

    /// The answer of `on_add`.
    open spec fn add_behavior(&self, len: nat, key: K, value: V) -> AddBehavior {
        AddBehavior::Accept
    }

    /// The limiter after `on_add`.
    open spec fn after_add(&self, len: nat, key: K, value: V) -> Self {
        *self
    }

    /// The answer of `on_update`.
    open spec fn update_behavior(
        &self,
        len: nat,
        old_key: K,
        old_value: V,
        new_key: Option<K>,
        new_value: Option<V>,
    ) -> AddBehavior {
        AddBehavior::Accept
    }

    /// The limiter after `on_update`.
    open spec fn after_update(
        &self,
        len: nat,
        old_key: K,
        old_value: V,
        new_key: Option<K>,
        new_value: Option<V>,
    ) -> Self {
        *self
    }

    /// The limiter after `on_remove`.
    open spec fn after_remove(&self, len: nat, key: K, value: V) -> Self {
        *self
    }

    /// Whether a cache of `len` entries holds too much.
    fn is_oversized(&self, len: usize) -> (r: bool)
        requires
            self.inv(),
        ensures
            r == self.oversized(len as nat),
    ;

    /// Called before a new entry goes in. A refused entry changes nothing in
    /// `usage`; an admitted one adds its weight.
    fn on_add(&mut self, len: usize, key: &K, value: &V) -> (r: AddBehavior)
        requires
            old(self).inv(),
        ensures
            r == old(self).add_behavior(len as nat, *key, *value),
            *final(self) == old(self).after_add(len as nat, *key, *value),
            final(self).inv(),
            forall|k: K, v: V| #[trigger] final(self).weight(k, v) == old(self).weight(k, v),
            r is Reject ==> final(self).usage() == old(self).usage(),
            !(r is Reject) ==> final(self).usage() == old(self).usage() + old(self).weight(
                *key,
                *value,
            ),
    ;

    /// Called before a resident entry gets a new key, a new value or both;
    /// what stays is passed as `None`. The entry must be accounted for in
    /// `usage`.
    fn on_update(
        &mut self,
        len: usize,
        old_key: &K,
        old_value: &V,
        new_key: Option<&K>,
        new_value: Option<&V>,
    ) -> (r: AddBehavior)
        requires
            old(self).inv(),
            old(self).usage() >= old(self).weight(*old_key, *old_value),
        ensures
            r == old(self).update_behavior(
                len as nat,
                *old_key,
                *old_value,
                unref(new_key),
                unref(new_value),
            ),
            *final(self) == old(self).after_update(
                len as nat,
                *old_key,
                *old_value,
                unref(new_key),
                unref(new_value),
            ),
            final(self).inv(),
            forall|k: K, v: V| #[trigger] final(self).weight(k, v) == old(self).weight(k, v),
            r is Reject ==> final(self).usage() == old(self).usage(),
            !(r is Reject) ==> final(self).usage() == old(self).usage() - old(self).weight(
                *old_key,
                *old_value,
            ) + old(self).weight(
                match new_key {
                    Some(k) => *k,
                    None => *old_key,
                },
                match new_value {
                    Some(v) => *v,
                    None => *old_value,
                },
            ),
    ;

    /// Called after an admitted entry has left the cache. The entry must be
    /// accounted for in `usage`.
    fn on_remove(&mut self, len: usize, key: &K, value: &V)
        requires
            old(self).inv(),
            old(self).usage() >= old(self).weight(*key, *value),
        ensures
            *final(self) == old(self).after_remove(len as nat, *key, *value),
            final(self).inv(),
            forall|k: K, v: V| #[trigger] final(self).weight(k, v) == old(self).weight(k, v),
            final(self).usage() == old(self).usage() - old(self).weight(*key, *value),
    ;
}

/// A limiter that admits everything and never finds the cache too large.
#[derive(Debug, Copy, Clone)]
pub struct Unlimited;

impl<K, V> Limiter<K, V> for Unlimited {
    fn is_oversized(&self, len: usize) -> (r: bool) {
        false
    }

    fn on_add(&mut self, len: usize, key: &K, value: &V) -> (r: AddBehavior) {
        AddBehavior::Accept
    }

    fn on_update(
        &mut self,
        len: usize,
        old_key: &K,
        old_value: &V,
        new_key: Option<&K>,
        new_value: Option<&V>,
    ) -> (r: AddBehavior) {
        AddBehavior::Accept
    }

    fn on_remove(&mut self, len: usize, key: &K, value: &V) {
    }
}

/// A limiter that bounds the number of entries.
#[derive(Debug, Copy, Clone)]
pub struct SizeLimited(usize);

impl SizeLimited {
    /// The bound, for use in specifications.
    pub closed spec fn spec_limit(&self) -> usize {
        self.0
    }

    /// A limiter that lets at most `limit` entries stay.
    pub fn new(limit: usize) -> (r: Self)
        ensures
            r.limit() == limit,
    {
        Self(limit)
    }

    /// The bound on the number of entries.
    #[verifier::when_used_as_spec(spec_limit)]
    pub fn limit(&self) -> (r: usize)
        ensures
            r == self.limit(),
    {
        self.0
    }

    /// Replaces the bound. Entries beyond a smaller bound stay until the cache
    /// is trimmed.
    pub fn set_limit(&mut self, limit: usize)
        ensures
            final(self).limit() == limit,
    {
        self.0 = limit;
    }
}

impl<K, V> Limiter<K, V> for SizeLimited {
    open spec fn oversized(&self, len: nat) -> bool {
        len > self.limit()
    }

    open spec fn add_behavior(&self, len: nat, key: K, value: V) -> AddBehavior {
        if self.limit() == 0 {
            AddBehavior::Reject
        } else if len >= self.limit() {
            AddBehavior::Evict
        } else {
            AddBehavior::Accept
        }
    }

    fn is_oversized(&self, len: usize) -> (r: bool) {
        len > self.0
    }

    fn on_add(&mut self, len: usize, key: &K, value: &V) -> (r: AddBehavior) {
        if self.0 == 0 {
            AddBehavior::Reject
        } else if len >= self.0 {
            AddBehavior::Evict
        } else {
            AddBehavior::Accept
        }
    }

    fn on_update(
        &mut self,
        len: usize,
        old_key: &K,
        old_value: &V,
        new_key: Option<&K>,
        new_value: Option<&V>,
    ) -> (r: AddBehavior) {
        // An update leaves the number of entries alone.
        AddBehavior::Accept
    }

    fn on_remove(&mut self, len: usize, key: &K, value: &V) {
    }
}

/// A cost function: what a key costs and what a value costs, independently.
///
/// The cost of a key or of a value is a function of that key or value alone:
/// the executable methods return what the spec functions say, every time.
pub trait CostFn<K, V> {
    /// The cost function can be called on every key and every value.
    open spec fn wf(&self) -> bool {
        true
    }

    /// The cost of a key: nothing, unless the cost function says otherwise.
    open spec fn spec_key_cost(&self, key: K) -> usize {
        0
    }

    /// The cost of a value: nothing, unless the cost function says
    /// otherwise.
    open spec fn spec_value_cost(&self, value: V) -> usize {
        0
    }

    /// Computes the cost of a key.
    fn key_cost(&self, key: &K) -> (c: usize)
        requires
            self.wf(),
        ensures
            c == self.spec_key_cost(*key),
    ;

    /// Computes the cost of a value.
    fn value_cost(&self, value: &V) -> (c: usize)
        requires
            self.wf(),
        ensures
            c == self.spec_value_cost(*value),
    ;
}

/// A pair of functions is a cost function if each of them accepts every
/// argument and returns one cost only for each.
impl<K, V, F: Fn(&K) -> usize, G: Fn(&V) -> usize> CostFn<K, V> for (F, G) {
    open spec fn wf(&self) -> bool {
        &&& forall|k: K| #[trigger] call_requires(self.0, (&k,))
        &&& forall|v: V| #[trigger] call_requires(self.1, (&v,))
        &&& forall|k: K, c: usize, d: usize|
            call_ensures(self.0, (&k,), c) && call_ensures(self.0, (&k,), d) ==> c == d
        &&& forall|v: V, c: usize, d: usize|
            call_ensures(self.1, (&v,), c) && call_ensures(self.1, (&v,), d) ==> c == d
    }

    open spec fn spec_key_cost(&self, key: K) -> usize {
        choose|c: usize| call_ensures(self.0, (&key,), c)
    }

    open spec fn spec_value_cost(&self, value: V) -> usize {
        choose|c: usize| call_ensures(self.1, (&value,), c)
    }

    fn key_cost(&self, key: &K) -> (c: usize) {
        (self.0)(key)
    }

    fn value_cost(&self, value: &V) -> (c: usize) {
        (self.1)(value)
    }
}

/// A limiter that bounds the total cost of the entries, where the cost of an
/// entry is the cost of its key plus the cost of its value.
#[derive(Debug)]
pub struct CostLimited<F> {
    limit: usize,
    current: usize,
    cost_func: F,
}

impl<F> CostLimited<F> {
    /// The largest limit allowed: half of the numeric range, so that a total
    /// within the limit and one more entry within the limit always fit.
    pub const MAX_LIMIT: usize = usize::MAX / 2;

    /// The limit, for use in specifications.
    pub closed spec fn spec_limit(&self) -> usize {
        self.limit
    }

    /// The running total, for use in specifications.
    pub closed spec fn spec_current(&self) -> usize {
        self.current
    }

    /// The cost function, for use in specifications.
    pub closed spec fn spec_cost_func(&self) -> F {
        self.cost_func
    }

    /// The same limiter with another running total.
    pub closed spec fn with_current(self, current: usize) -> Self {
        CostLimited { limit: self.limit, current, cost_func: self.cost_func }
    }

    /// `with_current` replaces the running total and nothing else.
    pub broadcast proof fn lemma_with_current(self, current: usize)
        ensures
            (#[trigger] self.with_current(current)).current() == current,
            self.with_current(current).limit() == self.limit(),
            self.with_current(current).spec_cost_func() == self.spec_cost_func(),
            current == self.current() ==> self.with_current(current) == self,
    {
    }

    /// A limiter with the given limit and the default cost function.
    pub fn new(limit: usize) -> (r: Self) where F: Default
        requires
            limit <= Self::MAX_LIMIT,
        ensures
            r.limit() == limit,
            r.current() == 0,
            call_ensures(F::default, (), r.spec_cost_func()),
    {
        Self::with_func(limit, F::default())
    }

    /// A limiter with the given limit and cost function, and a running total
    /// of zero.
    pub fn with_func(limit: usize, cost_func: F) -> (r: Self)
        requires
            limit <= Self::MAX_LIMIT,
        ensures
            r.limit() == limit,
            r.current() == 0,
            r.spec_cost_func() == cost_func,
    {
        let mut this = Self { limit: 0, current: 0, cost_func };
        this.set_limit(limit);
        this
    }

    /// The limit on the total cost.
    #[verifier::when_used_as_spec(spec_limit)]
    pub fn limit(&self) -> (r: usize)
        ensures
            r == self.limit(),
    {
        self.limit
    }

    /// Replaces the limit. Entries beyond a smaller limit stay until the cache
    /// is trimmed.
    pub fn set_limit(&mut self, limit: usize)
        requires
            limit <= Self::MAX_LIMIT,
        ensures
            final(self).limit() == limit,
            final(self).current() == old(self).current(),
            final(self).spec_cost_func() == old(self).spec_cost_func(),
    {
        self.limit = limit;
    }

    /// The running total: the cost of all that the limiter has admitted and
    /// not yet seen removed.
    #[verifier::when_used_as_spec(spec_current)]
    pub fn current(&self) -> (r: usize)
        ensures
            r == self.current(),
    {
        self.current
    }

    /// The cost function.
    pub fn cost_func(&self) -> (r: &F)
        ensures
            *r == self.spec_cost_func(),
    {
        &self.cost_func
    }

    /// The cost function, to be changed in place. The costs of the resident
    /// entries must stay what they were.
    pub fn cost_func_mut(&mut self) -> (r: &mut F)
        ensures
            *r == old(self).spec_cost_func(),
            final(self).spec_cost_func() == *final(r),
            final(self).limit() == old(self).limit(),
            final(self).current() == old(self).current(),
    {
        &mut self.cost_func
    }

    /// Gives up the limiter for its cost function.
    pub fn into_cost_func(self) -> (r: F)
        ensures
            r == self.spec_cost_func(),
    {
        self.cost_func
    }

    /// The total after an entry of the given cost has come in.
    fn add_cost(current: usize, cost: usize) -> (r: usize)
        requires
            current + cost <= usize::MAX,
        ensures
            r == current + cost,
    {
        current + cost
    }

    /// The total after an entry of the given cost has left.
    fn sub_cost(current: usize, cost: usize) -> (r: usize)
        requires
            cost <= current,
        ensures
            r == current - cost,
    {
        current - cost
    }

    /// Stores the new running total and says whether it is within the limit.
    fn update_cost(&mut self, next: usize) -> (r: AddBehavior)
        ensures
            *final(self) == old(self).with_current(next),
            r == if next > old(self).limit() {
                AddBehavior::Evict
            } else {
                AddBehavior::Accept
            },
    {
        self.current = next;
        if next > self.limit {
            AddBehavior::Evict
        } else {
            AddBehavior::Accept
        }
    }
}

/// The cost that an update takes away: that of each part that is replaced.
pub open spec fn replaced_cost<K, V, F: CostFn<K, V>>(
    f: F,
    old_key: K,
    old_value: V,
    new_key: Option<K>,
    new_value: Option<V>,
) -> int {
    (if new_key is Some {
        f.spec_key_cost(old_key) as int
    } else {
        0
    }) + (if new_value is Some {
        f.spec_value_cost(old_value) as int
    } else {
        0
    })
}

/// The cost that an update brings in: that of each new part.
pub open spec fn replacing_cost<K, V, F: CostFn<K, V>>(
    f: F,
    new_key: Option<K>,
    new_value: Option<V>,
) -> int {
    (match new_key {
        Some(k) => f.spec_key_cost(k) as int,
        None => 0,
    }) + (match new_value {
        Some(v) => f.spec_value_cost(v) as int,
        None => 0,
    })
}

impl<K, V, F: CostFn<K, V>> Limiter<K, V> for CostLimited<F> {
    open spec fn inv(&self) -> bool {
        &&& self.limit() <= CostLimited::<F>::MAX_LIMIT
        &&& self.spec_cost_func().wf()
    }

    open spec fn weight(&self, key: K, value: V) -> nat {
        (self.spec_cost_func().spec_key_cost(key) + self.spec_cost_func().spec_value_cost(
            value,
        )) as nat
    }

    open spec fn usage(&self) -> nat {
        self.current() as nat
    }

    open spec fn oversized(&self, len: nat) -> bool {
        self.current() > self.limit()
    }

    /// An entry that alone costs more than the limit is refused, and so is one
    /// that would take the running total out of the numeric range.
    open spec fn add_behavior(&self, len: nat, key: K, value: V) -> AddBehavior {
        let cost = Limiter::<K, V>::weight(self, key, value);
        if cost > self.limit() || self.current() + cost > usize::MAX {
            AddBehavior::Reject
        } else if self.current() + cost > self.limit() {
            AddBehavior::Evict
        } else {
            AddBehavior::Accept
        }
    }

    open spec fn after_add(&self, len: nat, key: K, value: V) -> Self {
        if Limiter::<K, V>::add_behavior(self, len, key, value) is Reject {
            *self
        } else {
            self.with_current((self.current() + Limiter::<K, V>::weight(self, key, value)) as usize)
        }
    }

    /// Only the parts that change are counted. An update that would take the
    /// running total out of the numeric range is refused.
    open spec fn update_behavior(
        &self,
        len: nat,
        old_key: K,
        old_value: V,
        new_key: Option<K>,
        new_value: Option<V>,
    ) -> AddBehavior {
        let next = self.current() - replaced_cost(
            self.spec_cost_func(),
            old_key,
            old_value,
            new_key,
            new_value,
        ) + replacing_cost(self.spec_cost_func(), new_key, new_value);
        if next > usize::MAX {
            AddBehavior::Reject
        } else if next > self.limit() {
            AddBehavior::Evict
        } else {
            AddBehavior::Accept
        }
    }

    open spec fn after_update(
        &self,
        len: nat,
        old_key: K,
        old_value: V,
        new_key: Option<K>,
        new_value: Option<V>,
    ) -> Self {
        if Limiter::<K, V>::update_behavior(self, len, old_key, old_value, new_key, new_value)
            is Reject {
            *self
        } else {
            self.with_current(
                (self.current() - replaced_cost(
                    self.spec_cost_func(),
                    old_key,
                    old_value,
                    new_key,
                    new_value,
                ) + replacing_cost(self.spec_cost_func(), new_key, new_value)) as usize,
            )
        }
    }

    open spec fn after_remove(&self, len: nat, key: K, value: V) -> Self {
        self.with_current((self.current() - Limiter::<K, V>::weight(self, key, value)) as usize)
    }

    fn is_oversized(&self, len: usize) -> (r: bool) {
        self.current() > self.limit
    }

    fn on_add(&mut self, len: usize, key: &K, value: &V) -> (r: AddBehavior) {
        broadcast use CostLimited::lemma_with_current;

        let key_cost = self.cost_func.key_cost(key);
        let value_cost = self.cost_func.value_cost(value);
        if key_cost > self.limit || value_cost > self.limit - key_cost {
            return AddBehavior::Reject;
        }
        let cost = key_cost + value_cost;
        if cost > usize::MAX - self.current {
            return AddBehavior::Reject;
        }
        let next = Self::add_cost(self.current, cost);
        self.update_cost(next)
    }

    fn on_update(
        &mut self,
        len: usize,
        old_key: &K,
        old_value: &V,
        new_key: Option<&K>,
        new_value: Option<&V>,
    ) -> (r: AddBehavior) {
        broadcast use CostLimited::lemma_with_current;

        let mut prev_cost: usize = 0;
        let mut next_key_cost: usize = 0;
        let mut next_value_cost: usize = 0;
        if let Some(new_key) = new_key {
            prev_cost = self.cost_func.key_cost(old_key);
            next_key_cost = self.cost_func.key_cost(new_key);
        }
        if let Some(new_value) = new_value {
            prev_cost = prev_cost + self.cost_func.value_cost(old_value);
            next_value_cost = self.cost_func.value_cost(new_value);
        }
        let rest = Self::sub_cost(self.current, prev_cost);
        if next_key_cost > usize::MAX - rest || next_value_cost > usize::MAX - rest
            - next_key_cost {
            return AddBehavior::Reject;
        }
        let next = Self::add_cost(Self::add_cost(rest, next_key_cost), next_value_cost);
        self.update_cost(next)
    }

    fn on_remove(&mut self, len: usize, key: &K, value: &V) {
        broadcast use CostLimited::lemma_with_current;

        let key_cost = self.cost_func.key_cost(key);
        let value_cost = self.cost_func.value_cost(value);
        let rest = Self::sub_cost(Self::sub_cost(self.current, key_cost), value_cost);
        let _ = self.update_cost(rest);
    }
}

} // verus!
