//! An in-memory vector similarity search library.
//!
//! Clients create named collections, insert `(id, vector, payload)` records,
//! and query for the `k` nearest vectors under a chosen distance metric.
//! The nearest-neighbour index is a layered proximity graph built and
//! searched in-house; vector components are fixed-point integers so that
//! every distance is computed exactly.

pub mod collection;
pub mod errors;
pub mod graph;
pub mod laws;
pub mod metric;
pub mod registry;
