//! A feature-flag management core: named boolean toggles scoped by an
//! application/environment path, a canonical byte codec for the entities, a
//! thread-safe keyed store abstraction with an in-memory and a redis-backed
//! implementation, the CRUD protocol over that store, and a salted, iterated
//! credential scheme for user secrets.

pub mod api;
pub mod codec;
pub mod flag;
pub mod mem_store;
pub mod redis_store;
pub mod store;
pub mod user;
