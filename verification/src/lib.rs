//! An associative container keyed by hierarchical bit-string prefixes
//! (such as CIDR network blocks), backed by a compressed binary trie
//! stored in a flat arena of index-linked nodes.
//!
//! The container supports exact-key lookup (`get`), insertion (`insert`),
//! and a deferred-mutation entry abstraction (`entry`) that captures the
//! unique structural position a key must occupy so callers can inspect
//! the map and then commit a mutation without repeating the trie walk.

pub mod bitstrings;
pub mod prefix;
pub mod map;
pub mod entry;
pub mod laws;

pub use crate::prefix::Prefix;
pub use crate::prefix::BitPrefix;
pub use crate::map::PrefixMap;
pub use crate::map::Node;
pub use crate::map::DirectionForInsert;
pub use crate::entry::Entry;
pub use crate::entry::VacantEntry;
pub use crate::entry::OccupiedEntry;
