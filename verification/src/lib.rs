//! Backend library for a desktop drawing application.
//!
//! The core is the recent-files registry: a bounded, deduplicated,
//! most-recently-used-first list of document references, persisted as a
//! pretty-printed JSON array. This crate holds the registry's data model,
//! its mutation rules, and the JSON codec for the persisted form, all
//! verified; the filesystem shell around it lives outside the library.

use vstd::prelude::*;

pub mod clock;
pub mod codec;
pub mod entry;
pub mod export;
pub mod laws;
pub mod parse;
pub mod registry;
pub mod roundtrip;
pub mod store;

verus! {

/// Maximum number of entries the registry keeps; inserts beyond this
/// evict from the tail.
pub const REGISTRY_CAP: usize = 20;

} // verus!
