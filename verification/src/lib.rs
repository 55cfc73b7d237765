//! A write-once, hash-indexed key-value store in the manner of NuDB.

pub mod bucket;
pub mod chain;
pub mod change;
pub mod codec;
pub mod conduct;
pub mod damage;
pub mod effects;
pub mod error;
pub mod evolve;
pub mod format;
pub mod hash;
pub mod laws;
pub mod linear;
pub mod lookup;
pub mod model;
pub mod ops;
pub mod outcome;
pub mod overflow;
pub mod places;
pub mod plain;
pub mod progress;
pub mod records;
pub mod search;
pub mod seed;
pub mod split;
pub mod store;
pub mod table;
pub mod walk;
pub mod write;

pub use store::Store;
pub use table::StoreOptions;
