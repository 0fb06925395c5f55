//! Ingestion and reconciliation of per-symbol price series read from a
//! key-value store.
//!
//! The store holds one record per key, and a key is a colon-delimited triple
//! `<namespace>:<symbol>:<timestamp>`. For each symbol the keys are listed in
//! no particular order, and some payloads may not decode. This library turns
//! what was fetched into one chronological series per symbol:
//!
//! - `key` reads the timestamp that a key carries and writes the pattern
//!   under which the keys of a symbol are listed;
//! - `record` holds the record that is ingested for a stored one;
//! - `reconcile` puts what was fetched into chronological order, by the keys
//!   alone;
//! - `series` parts the records that decoded from the failures;
//! - `catalog` holds the series of every symbol that has records;
//! - `plan` decides whether a run goes on to analysis;
//! - `laws` states what holds of every ingestion.
//!
//! Talking to the store and decoding a payload are left to the caller:
//! reconciliation, assembly and the catalog are generic in the record and in
//! the decode error.

pub mod catalog;
pub mod key;
pub mod laws;
pub mod plan;
pub mod reconcile;
pub mod record;
pub mod series;
