//! A bounded cache of DNS resource records.
//!
//! Records are stored per domain name and served to lookups filtered by record
//! type and class. Memory stays bounded through [`better_cache::BetterCache::prune`],
//! which first drops records whose time to live has run out and then evicts
//! whole domains, least recently read first.
//!
//! Time is a count of nanoseconds on the cache's own monotonic time line. Every
//! operation exists in two forms: one that is handed the current time, and one
//! that reads the clock itself.

pub mod better_cache;
mod clock;
pub mod dns;
pub mod laws;
pub mod lemmas;
pub mod model;
pub mod queue;
pub mod records;
pub mod simple_cache;
pub mod slots;
