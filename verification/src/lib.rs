//! Core of a content-addressed, deduplicating backup repository.
//!
//! The engine splits item bytes into content-defined chunks, bundles new
//! chunks into pack objects with a trailing manifest, keeps an index from
//! chunk hash to pack location, and persists snapshot records, all over a
//! flat key/value object store.

pub mod chunk;
pub mod cliargs;
pub mod crypto;
pub mod errors;
pub mod delta;
pub mod graphdata;
pub mod hexfmt;
pub mod ids;
pub mod index;
pub mod jsonfmt;
pub mod objstore;
pub mod pack;
pub mod repository;
pub mod sanitize;
pub mod snapshot;
pub mod strutil;
pub mod timefmt;

pub use repository::Repository;
pub use snapshot::Snapshot;
