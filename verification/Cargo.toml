[package]
name = "lru"
version = "0.1.0"
edition = "2021"
publish = false

[dependencies]
hashbrown = "0.15"

[dev-dependencies]
scoped_threadpool = "0.1"
