//! Single-pass aggregation of `<key>;<value>` text records.
//!
//! The input is a byte buffer of lines `key;value`, where `value` is a
//! fixed-point decimal with one fractional digit. The crate decodes each
//! value into tenths of a unit, aggregates per-key count, sum, minimum and
//! maximum in a fixed-capacity open-addressing hash table, splits a buffer
//! into line-aligned partitions for independent workers, and merges the
//! per-worker tables into one result.

pub mod decode;
pub mod model;
pub mod scan;
pub mod table;
pub mod engine;
