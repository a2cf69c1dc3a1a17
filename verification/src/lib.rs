//! An in-memory index of flight tickets with a two-leg itinerary search.
//!
//! Tickets are directed edges (origin code -> arrival code, with departure
//! and arrival instants and a price) kept in a multigraph. The library
//! offers idempotent batch insertion keyed by ticket identifier, and a
//! search that enumerates all valid one-stop connections inside a
//! departure-time window, subject to a layover policy.

pub mod graph;
pub mod search;
pub mod storage;
pub mod ticket;
