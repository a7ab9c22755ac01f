//! A distributed key-value cache, as a library: the wire protocol, the
//! consistent-hash ring and the registry of partitions behind the master's
//! routing, the master's dispatcher, and the cache engine of a partition.
//!
//! The functions here decide and compute; sockets, locks and tasks are the
//! business of the program around them.

pub mod agent;
pub mod cache;
pub mod error;
pub mod master;
pub mod parser;
pub mod registry;
pub mod ring;
pub mod round_trip;
pub mod router;
pub mod text;
