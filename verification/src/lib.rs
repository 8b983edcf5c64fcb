//! Incremental maintenance of an alphabetically sorted, duplicate-free
//! catalog of items discovered in a directory.
//!
//! The catalog engine lives in [`catalog`]: deciding whether a scanned
//! title is already known, computing its insertion position under the
//! total order of [`order`], and performing the insertion while keeping
//! the catalog strictly sorted. [`naming`] derives a distinct artifact
//! file path for every item of a run, and [`encoding`] hands artifact
//! bytes to a presentation layer as base64 text.

pub mod catalog;
pub mod encoding;
pub mod naming;
pub mod order;
pub mod scanner;
