//! Queue multiplexer for Redis list-based channels: the verified core.
//!
//! The library decides; the program around it talks to Redis, threads and
//! files. Every decision the pipeline takes (validating a configuration,
//! filtering and rewriting an item, ordering items by an embedded key,
//! admitting an item to a destination, fanning items out, rolling up
//! statistics) lives here with a contract.

pub mod datetime;
pub mod config;
pub mod filter;
pub mod ordering;
pub mod admission;
pub mod worker;
pub mod board;
