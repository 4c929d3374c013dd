//! A verified record store for rentable vehicles.
//!
//! The store hands out strictly increasing identifiers, keeps each record in
//! a stable B-tree map under its identifier, and toggles a per-record
//! availability flag with timestamped audits. Records are persisted as
//! length-prefixed byte encodings produced and checked by a verified codec.

pub mod codec;
pub mod laws;
pub mod record;
pub mod storage;
pub mod store;
