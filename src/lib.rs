//! A lease-based cache simulation engine.
//!
//! Every access advances a logical clock by one tick. Resident objects carry an
//! absolute expiration tick; when the clock reaches it they are swept out.
//! An optional capacity bound is enforced by evicting resident objects chosen
//! uniformly at random. The `records` module reads the fields of lease-table
//! and trace records.
pub mod lease_cache;
pub mod records;

pub use lease_cache::{AccessResult, CacheError, LeaseCache, ObjIdTraits, TaggedObjectId};
pub use records::{parse_lease_record, parse_number, parse_trace_record, RecordError};
