//! A cache that keeps its entries in order of use and lets a limiter decide
//! what may stay.
//!
//! The entries live in nodes that are linked into a list, most recently used
//! first, and an index finds the node of a key by the key's hash. A limiter
//! is asked before an entry comes in or changes and told when one leaves: it
//! may bound the number of entries, their cost, or nothing at all. Every
//! access to a key goes through an entry, a short hold on the key's place
//! in the cache, and the operations of the cache are built from entries.
//!
//! The contracts speak of a cache as of the sequence of its entries, most
//! recently used first, and of its limiter. They are exact where the hash of
//! a key is given. The hash that a hash builder gives a key is not known to
//! them: an operation that asks the hash builder promises what it would
//! promise for some hash.
//!
//! ```text
//! let mut cache = LruCache::new(2);
//! cache.put("apple", 3);
//! cache.put("banana", 2);
//! assert_eq!(cache.get(&"apple"), Some(&3));
//! assert_eq!(cache.put("pear", 5), None);
//! assert_eq!(cache.get(&"banana"), None);
//! ```

pub mod cache;
pub mod entry;
pub mod iter;
pub mod key;
pub mod laws;
pub mod limiter;
mod list;
pub mod model;
pub mod ops;
pub mod table;

pub use cache::LruCache;
pub use entry::{Entry, OccupiedEntry, OccupiedExtra, VacantEntry};
pub use iter::{IntoIter, Iter, IterMut};
pub use key::{BorrowedKey, InsertionKey, Key, OwnedKey};
pub use limiter::{AddBehavior, CostFn, CostLimited, Limiter, SizeLimited, Unlimited};
pub use table::DefaultHasher;
