//! A columnar, append-oriented time-series storage core.
//!
//! Typed records are encoded into per-field little-endian binary columns.
//! A table's current state is an immutable root document held in a
//! content-addressed store; updates commit by writing new immutable blocks
//! and swapping a naming-service pointer, then garbage-collecting the
//! superseded blocks.

pub mod codec;
pub mod docs;
pub mod errors;
pub mod laws;
pub mod render;
pub mod store;
pub mod table;
