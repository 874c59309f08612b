//! Bulk hex/JSON export and import of a sled store, and the key-addressing
//! rules for point lookups and range removal on one of its trees.
pub mod bytes;
pub mod erase;
pub mod error;
pub mod export;
pub mod hexcodec;
pub mod import;
pub mod query;
pub mod store;
