//! An in-memory, multi-index record store with CRUD operations, exact-match
//! secondary lookup and deterministic multi-field sorted views, together with
//! the small utility routines that surround it: numeric helpers, decimal
//! parsing, byte-level header decoding and a handful of string helpers.
//!
//! The store keeps three structures in lock step: the primary record sequence
//! (ordered by identifier), the identifier index, and a name index mapping
//! each name to the identifiers that currently hold it. Every operation
//! carries a contract stating exactly how these structures change.

pub mod bytes;
pub mod client;
pub mod commands;
pub mod list;
pub mod numeric;
pub mod parse;
pub mod query;
pub mod record;
pub mod runner;
pub mod store;
pub mod text;
